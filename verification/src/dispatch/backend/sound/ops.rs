//! The lowering of operations keeps a kernel sound.

use vstd::prelude::*;

use crate::dispatch::backend::kernel::raw::RawView;
use crate::dispatch::backend::sound::group_sound;
use crate::dispatch::backend::sound::marks::group_marks;
use crate::dispatch::backend::std_lib::unary::{
    abs_grad, elu_grad, elu_value, gelu_grad, gelu_value, relu_grad, relu_value, tanh_grad,
    unary_grad, unary_value,
};
use crate::dispatch::backend::{OpName, ValueId};

verus! {

proof fn lemma_elu_value_sound(r: RawView, out: ValueId, inp: ValueId)
    requires
        r.sound(),
        out < r.span(),
        inp < r.span(),
    ensures
        elu_value(r, out, inp).continues(r),
        forall|flags: Seq<bool>|
            r.marked(flags) ==> #[trigger] elu_value(r, out, inp).marked(flags),
{
    broadcast use {group_sound, group_marks};

}

proof fn lemma_relu_value_sound(r: RawView, out: ValueId, inp: ValueId)
    requires
        r.sound(),
        out < r.span(),
        inp < r.span(),
    ensures
        relu_value(r, out, inp).continues(r),
        forall|flags: Seq<bool>|
            r.marked(flags) ==> #[trigger] relu_value(r, out, inp).marked(flags),
{
    broadcast use {group_sound, group_marks};

}

proof fn lemma_gelu_value_sound(r: RawView, out: ValueId, inp: ValueId)
    requires
        r.sound(),
        out < r.span(),
        inp < r.span(),
    ensures
        gelu_value(r, out, inp).0.continues(r),
        forall|flags: Seq<bool>|
            r.marked(flags) ==> #[trigger] gelu_value(r, out, inp).0.marked(flags),
        gelu_value(r, out, inp).1 < gelu_value(r, out, inp).0.span(),
{
    broadcast use {group_sound, group_marks};

}

proof fn lemma_tanh_grad_sound(r: RawView, out: ValueId, inp: ValueId, upstream: ValueId)
    requires
        r.sound(),
        out < r.span(),
        inp < r.span(),
        upstream < r.span(),
    ensures
        tanh_grad(r, out, inp, upstream).continues(r),
        forall|flags: Seq<bool>|
            r.marked(flags) ==> #[trigger] tanh_grad(r, out, inp, upstream).marked(flags),
{
    broadcast use {group_sound, group_marks};

}

proof fn lemma_elu_grad_sound(r: RawView, out: ValueId, inp: ValueId, upstream: ValueId)
    requires
        r.sound(),
        out < r.span(),
        inp < r.span(),
        upstream < r.span(),
    ensures
        elu_grad(r, out, inp, upstream).continues(r),
        forall|flags: Seq<bool>|
            r.marked(flags) ==> #[trigger] elu_grad(r, out, inp, upstream).marked(flags),
{
    broadcast use {group_sound, group_marks};

}

proof fn lemma_relu_grad_sound(r: RawView, out: ValueId, inp: ValueId, upstream: ValueId)
    requires
        r.sound(),
        out < r.span(),
        inp < r.span(),
        upstream < r.span(),
    ensures
        relu_grad(r, out, inp, upstream).continues(r),
        forall|flags: Seq<bool>|
            r.marked(flags) ==> #[trigger] relu_grad(r, out, inp, upstream).marked(flags),
{
    broadcast use {group_sound, group_marks};

}

proof fn lemma_gelu_grad_sound(r: RawView, out: ValueId, inp: ValueId, upstream: ValueId)
    requires
        r.sound(),
        out < r.span(),
        inp < r.span(),
        upstream < r.span(),
    ensures
        gelu_grad(r, out, inp, upstream).continues(r),
        forall|flags: Seq<bool>|
            r.marked(flags) ==> #[trigger] gelu_grad(r, out, inp, upstream).marked(flags),
{
    broadcast use {group_sound, group_marks};

}

proof fn lemma_abs_grad_sound(r: RawView, out: ValueId, inp: ValueId, upstream: ValueId)
    requires
        r.sound(),
        out < r.span(),
        inp < r.span(),
        upstream < r.span(),
    ensures
        abs_grad(r, out, inp, upstream).continues(r),
        forall|flags: Seq<bool>|
            r.marked(flags) ==> #[trigger] abs_grad(r, out, inp, upstream).marked(flags),
{
    broadcast use {group_sound, group_marks};

}

pub proof fn lemma_unary_value_sound(name: OpName, r: RawView, out: ValueId, inp: ValueId)
    requires
        r.sound(),
        out < r.span(),
        inp < r.span(),
    ensures
        unary_value(name, r, out, inp).0.continues(r),
        forall|flags: Seq<bool>|
            r.marked(flags) ==> #[trigger] unary_value(name, r, out, inp).0.marked(flags),
        unary_value(name, r, out, inp).1 < unary_value(name, r, out, inp).0.span(),
{
    match name {
        OpName::Elu => {
            lemma_elu_value_sound(r, out, inp);
        },
        OpName::Relu => {
            lemma_relu_value_sound(r, out, inp);
        },
        OpName::Gelu => {
            lemma_gelu_value_sound(r, out, inp);
        },
        _ => {
            broadcast use {group_sound, group_marks};

        },
    }
}

pub proof fn lemma_unary_grad_sound(
    name: OpName,
    r: RawView,
    out: ValueId,
    inp: ValueId,
    upstream: ValueId,
)
    requires
        r.sound(),
        out < r.span(),
        inp < r.span(),
        upstream < r.span(),
    ensures
        unary_grad(name, r, out, inp, upstream).continues(r),
        forall|flags: Seq<bool>|
            r.marked(flags) ==> #[trigger] unary_grad(name, r, out, inp, upstream).marked(flags),
{
    match name {
        OpName::Tanh => {
            lemma_tanh_grad_sound(r, out, inp, upstream);
        },
        OpName::Elu => {
            lemma_elu_grad_sound(r, out, inp, upstream);
        },
        OpName::Relu => {
            lemma_relu_grad_sound(r, out, inp, upstream);
        },
        OpName::Gelu => {
            lemma_gelu_grad_sound(r, out, inp, upstream);
        },
        OpName::Abs => {
            lemma_abs_grad_sound(r, out, inp, upstream);
        },
        _ => {
            broadcast use {group_sound, group_marks};

        },
    }
}

} // verus!
