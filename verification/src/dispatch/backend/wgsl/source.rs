//! Kernels as WGSL source.

use vstd::prelude::*;

use crate::dispatch::backend::kernel::{RawKernel, RawView};
use crate::dispatch::backend::{
    Axis, DType, Op, Param, ParamTy, Value, ValueId, ValueState,
};
use crate::scalar::Float32;
use crate::text::{
    decimal, decimal_int, push_decimal, push_index, push_repeated, push_signed, repeated,
};

verus! {

/// Whether a function writes each number as `t` says.
pub open spec fn writes<F: Fn(Float32) -> String>(f: F, t: spec_fn(Float32) -> Seq<char>) -> bool {
    forall|v: Float32, r: String| #[trigger] f.ensures((v,), r) ==> r@ == t(v)
}

/// The forms that most operations are written in.
#[derive(Clone, Copy)]
#[allow(inconsistent_fields)]
pub enum Form {
    /// An operator between two values.
    Infix { a: ValueId, sign: &'static str, b: ValueId },
    /// An operator before a value.
    Prefix { sign: &'static str, x: ValueId },
    /// A function of one value.
    Call { name: &'static str, x: ValueId },
    /// A function of two values.
    Call2 { name: &'static str, a: ValueId, b: ValueId },
    /// A function of three values.
    Call3 { name: &'static str, a: ValueId, b: ValueId, c: ValueId },
    /// A position of the thread.
    Place { name: &'static str, axis: Axis },
    /// An element of a buffer.
    Read { name: &'static str, slot: usize, index: ValueId },
    /// A change of an element of a buffer.
    Write {
        name: &'static str,
        slot: usize,
        index: ValueId,
        sign: &'static str,
        value: ValueId,
    },
    /// Always the same text.
    Fixed { text: &'static str },
    /// None of these.
    Own,
}

/// The form of an operation.
pub open spec fn form(op: Op) -> Form {
    match op {
        Op::Add { a, b } => Form::Infix { a: a, sign: " + ", b: b },
        Op::Sub { a, b } => Form::Infix { a: a, sign: " - ", b: b },
        Op::Mul { a, b } => Form::Infix { a: a, sign: " * ", b: b },
        Op::Div { a, b } => Form::Infix { a: a, sign: " / ", b: b },
        Op::Mod { a, b } => Form::Infix { a: a, sign: " % ", b: b },
        Op::Shl { a, b } => Form::Infix { a: a, sign: " << ", b: b },
        Op::Shr { a, b } => Form::Infix { a: a, sign: " >> ", b: b },
        Op::Eq { a, b } => Form::Infix { a: a, sign: " == ", b: b },
        Op::Ne { a, b } => Form::Infix { a: a, sign: " != ", b: b },
        Op::Lt { a, b } => Form::Infix { a: a, sign: " < ", b: b },
        Op::Gt { a, b } => Form::Infix { a: a, sign: " > ", b: b },
        Op::Le { a, b } => Form::Infix { a: a, sign: " <= ", b: b },
        Op::Ge { a, b } => Form::Infix { a: a, sign: " >= ", b: b },
        Op::Neg { x } => Form::Prefix { sign: "-", x: x },
        Op::Not { cond } => Form::Prefix { sign: "!", x: cond },
        Op::Exp { x } => Form::Call { name: "exp", x: x },
        Op::Abs { x } => Form::Call { name: "abs", x: x },
        Op::Log { x } => Form::Call { name: "log", x: x },
        Op::Tanh { x } => Form::Call { name: "tanh", x: x },
        Op::Sqrt { x } => Form::Call { name: "sqrt", x: x },
        Op::Pow { a, b } => Form::Call2 { name: "pow", a: a, b: b },
        Op::Max { a, b } => Form::Call2 { name: "max", a: a, b: b },
        Op::Min { a, b } => Form::Call2 { name: "min", a: a, b: b },
        Op::Fma { a, b, c } => Form::Call3 { name: "fma", a: a, b: b, c: c },
        Op::Select { cond, a, b } => Form::Call3 { name: "select", a: b, b: a, c: cond },
        Op::LocalId { axis } => Form::Place { name: "lid.", axis: axis },
        Op::BlockId { axis } => Form::Place { name: "bid.", axis: axis },
        Op::GlobalId { axis } => Form::Place { name: "gid.", axis: axis },
        Op::ParamLoad { param, index } => Form::Read { name: "param", slot: param, index: index },
        Op::ParamStore { param, index, value } => Form::Write {
            name: "param",
            slot: param,
            index: index,
            sign: " = ",
            value: value,
        },
        Op::ParamAccum { param, index, value } => Form::Write {
            name: "param",
            slot: param,
            index: index,
            sign: " += ",
            value: value,
        },
        Op::ParamMul { param, index, value } => Form::Write {
            name: "param",
            slot: param,
            index: index,
            sign: " *= ",
            value: value,
        },
        Op::ParamDiv { param, index, value } => Form::Write {
            name: "param",
            slot: param,
            index: index,
            sign: " /= ",
            value: value,
        },
        Op::ParamSub { param, index, value } => Form::Write {
            name: "param",
            slot: param,
            index: index,
            sign: " -= ",
            value: value,
        },
        Op::ParamShl { param, index, value } => Form::Write {
            name: "param",
            slot: param,
            index: index,
            sign: " <<= ",
            value: value,
        },
        Op::ParamShr { param, index, value } => Form::Write {
            name: "param",
            slot: param,
            index: index,
            sign: " >>= ",
            value: value,
        },
        Op::SharedLoad { mem, index } => Form::Read { name: "shared", slot: mem, index: index },
        Op::SharedStore { mem, index, value } => Form::Write {
            name: "shared",
            slot: mem,
            index: index,
            sign: " = ",
            value: value,
        },
        Op::SharedAccum { mem, index, value } => Form::Write {
            name: "shared",
            slot: mem,
            index: index,
            sign: " += ",
            value: value,
        },
        Op::SharedMul { mem, index, value } => Form::Write {
            name: "shared",
            slot: mem,
            index: index,
            sign: " *= ",
            value: value,
        },
        Op::SharedDiv { mem, index, value } => Form::Write {
            name: "shared",
            slot: mem,
            index: index,
            sign: " /= ",
            value: value,
        },
        Op::SharedSub { mem, index, value } => Form::Write {
            name: "shared",
            slot: mem,
            index: index,
            sign: " -= ",
            value: value,
        },
        Op::SharedShl { mem, index, value } => Form::Write {
            name: "shared",
            slot: mem,
            index: index,
            sign: " <<= ",
            value: value,
        },
        Op::SharedShr { mem, index, value } => Form::Write {
            name: "shared",
            slot: mem,
            index: index,
            sign: " >>= ",
            value: value,
        },
        Op::Nop => Form::Fixed { text: "" },
        Op::ForeverLoopBegin => Form::Fixed { text: "loop {" },
        Op::ElseBegin => Form::Fixed { text: "else {" },
        Op::EndScope => Form::Fixed { text: "}" },
        Op::Barrier => Form::Fixed { text: "workgroupBarrier();" },
        Op::Return => Form::Fixed { text: "return;" },
        Op::Continue => Form::Fixed { text: "continue;" },
        Op::Break => Form::Fixed { text: "break;" },
        _ => Form::Own,
    }
}

fn form_of(op: &Op) -> (r: Form)
    ensures
        r == form(*op),
{
    match op {
        Op::Add { a, b } => Form::Infix { a: *a, sign: " + ", b: *b },
        Op::Sub { a, b } => Form::Infix { a: *a, sign: " - ", b: *b },
        Op::Mul { a, b } => Form::Infix { a: *a, sign: " * ", b: *b },
        Op::Div { a, b } => Form::Infix { a: *a, sign: " / ", b: *b },
        Op::Mod { a, b } => Form::Infix { a: *a, sign: " % ", b: *b },
        Op::Shl { a, b } => Form::Infix { a: *a, sign: " << ", b: *b },
        Op::Shr { a, b } => Form::Infix { a: *a, sign: " >> ", b: *b },
        Op::Eq { a, b } => Form::Infix { a: *a, sign: " == ", b: *b },
        Op::Ne { a, b } => Form::Infix { a: *a, sign: " != ", b: *b },
        Op::Lt { a, b } => Form::Infix { a: *a, sign: " < ", b: *b },
        Op::Gt { a, b } => Form::Infix { a: *a, sign: " > ", b: *b },
        Op::Le { a, b } => Form::Infix { a: *a, sign: " <= ", b: *b },
        Op::Ge { a, b } => Form::Infix { a: *a, sign: " >= ", b: *b },
        Op::Neg { x } => Form::Prefix { sign: "-", x: *x },
        Op::Not { cond } => Form::Prefix { sign: "!", x: *cond },
        Op::Exp { x } => Form::Call { name: "exp", x: *x },
        Op::Abs { x } => Form::Call { name: "abs", x: *x },
        Op::Log { x } => Form::Call { name: "log", x: *x },
        Op::Tanh { x } => Form::Call { name: "tanh", x: *x },
        Op::Sqrt { x } => Form::Call { name: "sqrt", x: *x },
        Op::Pow { a, b } => Form::Call2 { name: "pow", a: *a, b: *b },
        Op::Max { a, b } => Form::Call2 { name: "max", a: *a, b: *b },
        Op::Min { a, b } => Form::Call2 { name: "min", a: *a, b: *b },
        Op::Fma { a, b, c } => Form::Call3 { name: "fma", a: *a, b: *b, c: *c },
        Op::Select { cond, a, b } => Form::Call3 { name: "select", a: *b, b: *a, c: *cond },
        Op::LocalId { axis } => Form::Place { name: "lid.", axis: *axis },
        Op::BlockId { axis } => Form::Place { name: "bid.", axis: *axis },
        Op::GlobalId { axis } => Form::Place { name: "gid.", axis: *axis },
        Op::ParamLoad { param, index } => Form::Read { name: "param", slot: *param, index: *index },
        Op::ParamStore { param, index, value } => Form::Write {
            name: "param",
            slot: *param,
            index: *index,
            sign: " = ",
            value: *value,
        },
        Op::ParamAccum { param, index, value } => Form::Write {
            name: "param",
            slot: *param,
            index: *index,
            sign: " += ",
            value: *value,
        },
        Op::ParamMul { param, index, value } => Form::Write {
            name: "param",
            slot: *param,
            index: *index,
            sign: " *= ",
            value: *value,
        },
        Op::ParamDiv { param, index, value } => Form::Write {
            name: "param",
            slot: *param,
            index: *index,
            sign: " /= ",
            value: *value,
        },
        Op::ParamSub { param, index, value } => Form::Write {
            name: "param",
            slot: *param,
            index: *index,
            sign: " -= ",
            value: *value,
        },
        Op::ParamShl { param, index, value } => Form::Write {
            name: "param",
            slot: *param,
            index: *index,
            sign: " <<= ",
            value: *value,
        },
        Op::ParamShr { param, index, value } => Form::Write {
            name: "param",
            slot: *param,
            index: *index,
            sign: " >>= ",
            value: *value,
        },
        Op::SharedLoad { mem, index } => Form::Read { name: "shared", slot: *mem, index: *index },
        Op::SharedStore { mem, index, value } => Form::Write {
            name: "shared",
            slot: *mem,
            index: *index,
            sign: " = ",
            value: *value,
        },
        Op::SharedAccum { mem, index, value } => Form::Write {
            name: "shared",
            slot: *mem,
            index: *index,
            sign: " += ",
            value: *value,
        },
        Op::SharedMul { mem, index, value } => Form::Write {
            name: "shared",
            slot: *mem,
            index: *index,
            sign: " *= ",
            value: *value,
        },
        Op::SharedDiv { mem, index, value } => Form::Write {
            name: "shared",
            slot: *mem,
            index: *index,
            sign: " /= ",
            value: *value,
        },
        Op::SharedSub { mem, index, value } => Form::Write {
            name: "shared",
            slot: *mem,
            index: *index,
            sign: " -= ",
            value: *value,
        },
        Op::SharedShl { mem, index, value } => Form::Write {
            name: "shared",
            slot: *mem,
            index: *index,
            sign: " <<= ",
            value: *value,
        },
        Op::SharedShr { mem, index, value } => Form::Write {
            name: "shared",
            slot: *mem,
            index: *index,
            sign: " >>= ",
            value: *value,
        },
        Op::Nop => Form::Fixed { text: "" },
        Op::ForeverLoopBegin => Form::Fixed { text: "loop {" },
        Op::ElseBegin => Form::Fixed { text: "else {" },
        Op::EndScope => Form::Fixed { text: "}" },
        Op::Barrier => Form::Fixed { text: "workgroupBarrier();" },
        Op::Return => Form::Fixed { text: "return;" },
        Op::Continue => Form::Fixed { text: "continue;" },
        Op::Break => Form::Fixed { text: "break;" },
        _ => Form::Own,
    }
}

/// The sign between a variable and what it is assigned.
pub open spec fn assign_sign(op: Op) -> &'static str {
    match op {
        Op::OverwriteVar { .. } => " = ",
        Op::AddAssign { .. } => " += ",
        Op::MulAssign { .. } => " *= ",
        Op::DivAssign { .. } => " /= ",
        Op::SubAssign { .. } => " -= ",
        Op::ShlAssign { .. } => " <<= ",
        Op::ShrAssign { .. } => " >>= ",
        _ => "",
    }
}

fn assign_sign_of(op: &Op) -> (r: &'static str)
    ensures
        r == assign_sign(*op),
{
    match op {
        Op::OverwriteVar { .. } => " = ",
        Op::AddAssign { .. } => " += ",
        Op::MulAssign { .. } => " *= ",
        Op::DivAssign { .. } => " /= ",
        Op::SubAssign { .. } => " -= ",
        Op::ShlAssign { .. } => " <<= ",
        Op::ShrAssign { .. } => " >>= ",
        _ => "",
    }
}

/// The letter of an axis.
pub open spec fn axis_name(axis: Axis) -> &'static str {
    match axis {
        Axis::X => "x",
        Axis::Y => "y",
        Axis::Z => "z",
    }
}

fn get_axis(axis: Axis) -> (r: &'static str)
    ensures
        r == axis_name(axis),
{
    match axis {
        Axis::X => "x",
        Axis::Y => "y",
        Axis::Z => "z",
    }
}

/// The name of a data type.
pub open spec fn dtype_name(dtype: DType) -> &'static str {
    match dtype {
        DType::Bool => "bool",
        DType::Float => "f32",
        DType::SignedInt => "i32",
        DType::UnsignedInt => "u32",
    }
}

fn get_dtype(dtype: DType) -> (r: &'static str)
    ensures
        r == dtype_name(dtype),
{
    match dtype {
        DType::Bool => "bool",
        DType::Float => "f32",
        DType::SignedInt => "i32",
        DType::UnsignedInt => "u32",
    }
}

/// The end of a line, and how far the next one is indented; one space where the source is not
/// meant to be read.
pub open spec fn line(pretty: bool, nesting: nat) -> Seq<char> {
    if pretty {
        "\n"@ + repeated("  "@, nesting)
    } else {
        " "@
    }
}

fn newline(pretty_print: bool, out: &mut String, nesting: usize)
    ensures
        final(out)@ == old(out)@ + line(pretty_print, nesting as nat),
{
    if pretty_print {
        out.append("\n");
        push_repeated(out, "  ", nesting);
        assert(out@ =~= old(out)@ + line(pretty_print, nesting as nat));
    } else {
        out.append(" ");
    }
}

/// One step of indentation where the source is meant to be read.
pub open spec fn indent(pretty: bool) -> Seq<char> {
    if pretty {
        "  "@
    } else {
        Seq::empty()
    }
}

fn tab(pretty_print: bool, out: &mut String)
    ensures
        final(out)@ == old(out)@ + indent(pretty_print),
{
    if pretty_print {
        out.append("  ");
    }
    assert(out@ =~= old(out)@ + indent(pretty_print));
}

/// Whether a value is written as its definition wherever it is read.
pub open spec fn inlined(value: Value) -> bool {
    value.state is Inline && value.init is Some
}

/// Whether the definition of a value is written.
pub open spec fn declared(value: Value) -> bool {
    !(value.state is Inline) && !(value.state is Masked)
}

/// Whether a value can be written by expanding at most `fuel` definitions.
pub open spec fn val_fits(k: RawView, id: ValueId, fuel: nat) -> bool
    decreases fuel, 0nat, Op::Nop,
{
    &&& id < k.values.len()
    &&& inlined(k.values[id as int]) ==> {
        &&& fuel > 0
        &&& op_fits(k, k.values[id as int].init->0, (fuel - 1) as nat)
        &&& nest(k, k.values[id as int].init->0, 0, (fuel - 1) as nat) is Some
    }
}

/// Whether an operation in one of the forms can be written by expanding at most `fuel`
/// definitions.
pub open spec fn form_fits(k: RawView, f: Form, fuel: nat) -> bool
    decreases fuel, 1nat, Op::Nop,
{
    match f {
        Form::Infix { a, b, .. } | Form::Call2 { a, b, .. } => val_fits(k, a, fuel) && val_fits(
            k,
            b,
            fuel,
        ),
        Form::Prefix { x, .. } | Form::Call { x, .. } => val_fits(k, x, fuel),
        Form::Call3 { a, b, c, .. } => val_fits(k, a, fuel) && val_fits(k, b, fuel) && val_fits(
            k,
            c,
            fuel,
        ),
        Form::Read { index, .. } => val_fits(k, index, fuel),
        Form::Write { index, value, .. } => val_fits(k, index, fuel) && val_fits(k, value, fuel),
        Form::Place { .. } | Form::Fixed { .. } | Form::Own => true,
    }
}

/// Whether an operation can be written by expanding at most `fuel` definitions.
pub open spec fn op_fits(k: RawView, op: Op, fuel: nat) -> bool
    decreases fuel, 2nat, op,
{
    match form(op) {
        Form::Own => match op {
            Op::DefineVar { id } => {
                &&& id < k.values.len()
                &&& declared(k.values[id as int]) && k.values[id as int].init is Some ==> {
                    &&& fuel > 0
                    &&& op_fits(k, k.values[id as int].init->0, (fuel - 1) as nat)
                }
            },
            Op::OverwriteVar { val, .. }
            | Op::AddAssign { val, .. }
            | Op::MulAssign { val, .. }
            | Op::DivAssign { val, .. }
            | Op::SubAssign { val, .. }
            | Op::ShlAssign { val, .. }
            | Op::ShrAssign { val, .. } => op_fits(k, *val, fuel),
            Op::CopyVar { id } => val_fits(k, id, fuel),
            Op::ForLoopBegin { end, step, .. } => val_fits(k, end, fuel) && val_fits(
                k,
                step,
                fuel,
            ),
            Op::WhileLoopBegin { cond } => op_fits(k, *cond, fuel),
            Op::IfBegin { cond } => val_fits(k, cond, fuel),
            _ => true,
        },
        f => form_fits(k, f, fuel),
    }
}

/// How deep the blocks are nested after an operation. Nothing, where a block ends that has not
/// begun.
pub open spec fn nest(k: RawView, op: Op, nesting: nat, fuel: nat) -> Option<nat>
    decreases fuel, op,
{
    match op {
        Op::DefineVar { id } => if declared(k.values[id as int]) && k.values[id as int].init is Some
            && fuel > 0 {
            nest(k, k.values[id as int].init->0, nesting, (fuel - 1) as nat)
        } else {
            Some(nesting)
        },
        Op::OverwriteVar { val, .. }
        | Op::AddAssign { val, .. }
        | Op::MulAssign { val, .. }
        | Op::DivAssign { val, .. }
        | Op::SubAssign { val, .. }
        | Op::ShlAssign { val, .. }
        | Op::ShrAssign { val, .. } => nest(k, *val, nesting, fuel),
        Op::WhileLoopBegin { cond } => match nest(k, *cond, nesting, fuel) {
            Some(n) => deeper(n),
            None => None,
        },
        Op::ForLoopBegin { .. } | Op::ForeverLoopBegin | Op::IfBegin { .. } | Op::ElseBegin => deeper(
            nesting,
        ),
        Op::EndScope => if nesting == 0 {
            None
        } else {
            Some((nesting - 1) as nat)
        },
        _ => Some(nesting),
    }
}

/// One level of blocks more, as far as levels can be counted.
pub open spec fn deeper(nesting: nat) -> Option<nat> {
    if nesting < usize::MAX {
        Some(nesting + 1)
    } else {
        None
    }
}

/// The text of a value where it is read.
pub open spec fn val_text(
    k: RawView,
    id: ValueId,
    t: spec_fn(Float32) -> Seq<char>,
    fuel: nat,
) -> Seq<char>
    decreases fuel, 0nat, Op::Nop,
{
    let value = k.values[id as int];
    match value.state {
        ValueState::Inline => if value.init is Some && fuel > 0 {
            op_text(k, value.init->0, t, (fuel - 1) as nat)
        } else {
            Seq::empty()
        },
        ValueState::Masked => Seq::empty(),
        _ => "v"@ + decimal(id as nat),
    }
}

/// The word that begins the definition of a value.
pub open spec fn keyword(state: ValueState) -> &'static str {
    match state {
        ValueState::Const => "const v",
        ValueState::Immut => "let v",
        _ => "var v",
    }
}

fn keyword_of(state: ValueState) -> (r: &'static str)
    ensures
        r == keyword(state),
{
    match state {
        ValueState::Const => "const v",
        ValueState::Immut => "let v",
        _ => "var v",
    }
}

/// The text of an operation in one of the forms.
pub open spec fn form_text(
    k: RawView,
    f: Form,
    t: spec_fn(Float32) -> Seq<char>,
    fuel: nat,
) -> Seq<char>
    decreases fuel, 1nat, Op::Nop,
{
    match f {
        Form::Infix { a, sign, b } => "("@ + val_text(k, a, t, fuel) + ")"@ + sign@ + "("@
            + val_text(k, b, t, fuel) + ")"@,
        Form::Prefix { sign, x } => sign@ + "("@ + val_text(k, x, t, fuel) + ")"@,
        Form::Call { name, x } => name@ + "("@ + val_text(k, x, t, fuel) + ")"@,
        Form::Call2 { name, a, b } => name@ + "("@ + val_text(k, a, t, fuel) + ", "@ + val_text(
            k,
            b,
            t,
            fuel,
        ) + ")"@,
        Form::Call3 { name, a, b, c } => name@ + "("@ + val_text(k, a, t, fuel) + ", "@ + val_text(
            k,
            b,
            t,
            fuel,
        ) + ", "@ + val_text(k, c, t, fuel) + ")"@,
        Form::Place { name, axis } => name@ + axis_name(axis)@,
        Form::Read { name, slot, index } => name@ + decimal(slot as nat) + "["@ + val_text(
            k,
            index,
            t,
            fuel,
        ) + "]"@,
        Form::Write { name, slot, index, sign, value } => name@ + decimal(slot as nat) + "["@
            + val_text(k, index, t, fuel) + "]"@ + sign@ + val_text(k, value, t, fuel) + ";"@,
        Form::Fixed { text } => text@,
        Form::Own => Seq::empty(),
    }
}

/// The text of an operation.
pub open spec fn op_text(
    k: RawView,
    op: Op,
    t: spec_fn(Float32) -> Seq<char>,
    fuel: nat,
) -> Seq<char>
    decreases fuel, 2nat, op,
{
    match form(op) {
        Form::Own => match op {
            Op::DefineVar { id } => if declared(k.values[id as int]) {
                let value = k.values[id as int];
                keyword(value.state)@ + decimal(id as nat) + ": "@ + dtype_name(value.dtype)@ + (
                if value.init is Some && fuel > 0 {
                    " = "@ + op_text(k, value.init->0, t, (fuel - 1) as nat)
                } else {
                    Seq::empty()
                }) + ";"@
            } else {
                Seq::empty()
            },
            Op::OverwriteVar { id, val }
            | Op::AddAssign { id, val }
            | Op::MulAssign { id, val }
            | Op::DivAssign { id, val }
            | Op::SubAssign { id, val }
            | Op::ShlAssign { id, val }
            | Op::ShrAssign { id, val } => "v"@ + decimal(id as nat) + assign_sign(op)@
                + op_text(k, *val, t, fuel) + ";"@,
            Op::CopyVar { id } => val_text(k, id, t, fuel),
            Op::ConstF32 { value } => t(value) + "f"@,
            Op::ConstU32 { value } => decimal(value as nat) + "u"@,
            Op::ConstI32 { value } => decimal_int(value as int),
            Op::ReadMeta { param, field } => "param"@ + decimal(param as nat) + ".f"@ + decimal(
                field as nat,
            ),
            Op::ForLoopBegin { index, end, step } => "for (; v"@ + decimal(index as nat) + " < "@
                + val_text(k, end, t, fuel) + "; v"@ + decimal(index as nat) + " += "@ + val_text(
                k,
                step,
                t,
                fuel,
            ) + ") {"@,
            Op::WhileLoopBegin { cond } => "while ("@ + op_text(k, *cond, t, fuel) + ") {"@,
            Op::IfBegin { cond } => "if ("@ + val_text(k, cond, t, fuel) + ") {"@,
            _ => Seq::empty(),
        },
        f => form_text(k, f, t, fuel),
    }
}

fn render_val<F: Fn(Float32) -> String>(
    out: &mut String,
    id: ValueId,
    kernel: &RawKernel,
    float_text: &F,
    Ghost(fuel): Ghost<nat>,
)
    requires
        forall|v: Float32| float_text.requires((v,)),
        val_fits(kernel@, id, fuel),
    ensures
        forall|t: spec_fn(Float32) -> Seq<char>| #[trigger]
            writes(*float_text, t) ==> final(out)@ == old(out)@ + val_text(kernel@, id, t, fuel),
    decreases fuel, 0nat, Op::Nop,
{
    let val = &kernel.values[id];
    match val.state {
        ValueState::Inline => {
            if let Some(op) = &val.init {
                let mut nesting: usize = 0;
                process_op(out, op, &mut nesting, kernel, float_text, Ghost((fuel - 1) as nat));
            }
        },
        ValueState::Masked => {},
        _ => {
            out.append("v");
            push_index(out, id);
        },
    }
    assert forall|t: spec_fn(Float32) -> Seq<char>| #[trigger] writes(*float_text, t) implies out@
        == old(out)@ + val_text(kernel@, id, t, fuel) by {
        assert(out@ =~= old(out)@ + val_text(kernel@, id, t, fuel));
    }
}

fn write_form<F: Fn(Float32) -> String>(
    out: &mut String,
    f: Form,
    kernel: &RawKernel,
    float_text: &F,
    Ghost(fuel): Ghost<nat>,
)
    requires
        forall|v: Float32| float_text.requires((v,)),
        form_fits(kernel@, f, fuel),
    ensures
        forall|t: spec_fn(Float32) -> Seq<char>| #[trigger]
            writes(*float_text, t) ==> final(out)@ == old(out)@ + form_text(kernel@, f, t, fuel),
    decreases fuel, 1nat, Op::Nop,
{
    match f {
        Form::Infix { a, sign, b } => {
            out.append("(");
            render_val(out, a, kernel, float_text, Ghost(fuel));
            out.append(")");
            out.append(sign);
            out.append("(");
            render_val(out, b, kernel, float_text, Ghost(fuel));
            out.append(")");
        },
        Form::Prefix { sign, x } => {
            out.append(sign);
            out.append("(");
            render_val(out, x, kernel, float_text, Ghost(fuel));
            out.append(")");
        },
        Form::Call { name, x } => {
            out.append(name);
            out.append("(");
            render_val(out, x, kernel, float_text, Ghost(fuel));
            out.append(")");
        },
        Form::Call2 { name, a, b } => {
            out.append(name);
            out.append("(");
            render_val(out, a, kernel, float_text, Ghost(fuel));
            out.append(", ");
            render_val(out, b, kernel, float_text, Ghost(fuel));
            out.append(")");
        },
        Form::Call3 { name, a, b, c } => {
            out.append(name);
            out.append("(");
            render_val(out, a, kernel, float_text, Ghost(fuel));
            out.append(", ");
            render_val(out, b, kernel, float_text, Ghost(fuel));
            out.append(", ");
            render_val(out, c, kernel, float_text, Ghost(fuel));
            out.append(")");
        },
        Form::Place { name, axis } => {
            out.append(name);
            out.append(get_axis(axis));
        },
        Form::Read { name, slot, index } => {
            out.append(name);
            push_index(out, slot);
            out.append("[");
            render_val(out, index, kernel, float_text, Ghost(fuel));
            out.append("]");
        },
        Form::Write { name, slot, index, sign, value } => {
            out.append(name);
            push_index(out, slot);
            out.append("[");
            render_val(out, index, kernel, float_text, Ghost(fuel));
            out.append("]");
            out.append(sign);
            render_val(out, value, kernel, float_text, Ghost(fuel));
            out.append(";");
        },
        Form::Fixed { text } => {
            out.append(text);
        },
        Form::Own => {},
    }
    assert forall|t: spec_fn(Float32) -> Seq<char>| #[trigger] writes(*float_text, t) implies out@
        == old(out)@ + form_text(kernel@, f, t, fuel) by {
        assert(out@ =~= old(out)@ + form_text(kernel@, f, t, fuel));
    }
}

fn process_op<F: Fn(Float32) -> String>(
    out: &mut String,
    op: &Op,
    nesting: &mut usize,
    kernel: &RawKernel,
    float_text: &F,
    Ghost(fuel): Ghost<nat>,
)
    requires
        forall|v: Float32| float_text.requires((v,)),
        op_fits(kernel@, *op, fuel),
        nest(kernel@, *op, *old(nesting) as nat, fuel) is Some,
    ensures
        nest(kernel@, *op, *old(nesting) as nat, fuel) == Some(*final(nesting) as nat),
        forall|t: spec_fn(Float32) -> Seq<char>| #[trigger]
            writes(*float_text, t) ==> final(out)@ == old(out)@ + op_text(kernel@, *op, t, fuel),
    decreases fuel, 2nat, op,
{
    match op {
        Op::DefineVar { id } => {
            let val = &kernel.values[*id];
            match val.state {
                ValueState::Masked | ValueState::Inline => {},
                _ => {
                    out.append(keyword_of(val.state));
                    push_index(out, *id);
                    out.append(": ");
                    out.append(get_dtype(val.dtype));
                    if let Some(op) = &val.init {
                        out.append(" = ");
                        process_op(
                            out,
                            op,
                            nesting,
                            kernel,
                            float_text,
                            Ghost((fuel - 1) as nat),
                        );
                    }
                    out.append(";");
                },
            }
        },
        Op::OverwriteVar { id, val }
            | Op::AddAssign { id, val }
            | Op::MulAssign { id, val }
            | Op::DivAssign { id, val }
            | Op::SubAssign { id, val }
            | Op::ShlAssign { id, val }
            | Op::ShrAssign { id, val } => {
            out.append("v");
            push_index(out, *id);
            out.append(assign_sign_of(op));
            process_op(out, val, nesting, kernel, float_text, Ghost(fuel));
            out.append(";");
        },
        Op::CopyVar { id } => {
            render_val(out, *id, kernel, float_text, Ghost(fuel));
        },
        Op::ConstF32 { value } => {
            let text = float_text(*value);
            out.append(text.as_str());
            out.append("f");
        },
        Op::ConstU32 { value } => {
            push_decimal(out, *value as u64);
            out.append("u");
        },
        Op::ConstI32 { value } => {
            push_signed(out, *value);
        },
        Op::ReadMeta { param, field } => {
            out.append("param");
            push_index(out, *param);
            out.append(".f");
            push_index(out, *field);
        },
        Op::ForLoopBegin { index, end, step } => {
            out.append("for (; v");
            push_index(out, *index);
            out.append(" < ");
            render_val(out, *end, kernel, float_text, Ghost(fuel));
            out.append("; v");
            push_index(out, *index);
            out.append(" += ");
            render_val(out, *step, kernel, float_text, Ghost(fuel));
            out.append(") {");
            *nesting += 1;
        },
        Op::WhileLoopBegin { cond } => {
            out.append("while (");
            process_op(out, cond, nesting, kernel, float_text, Ghost(fuel));
            out.append(") {");
            *nesting += 1;
        },
        Op::IfBegin { cond } => {
            out.append("if (");
            render_val(out, *cond, kernel, float_text, Ghost(fuel));
            out.append(") {");
            *nesting += 1;
        },
        Op::ForeverLoopBegin | Op::ElseBegin => {
            write_form(out, form_of(op), kernel, float_text, Ghost(fuel));
            *nesting += 1;
        },
        Op::EndScope => {
            write_form(out, form_of(op), kernel, float_text, Ghost(fuel));
            *nesting -= 1;
        },
        _ => {
            write_form(out, form_of(op), kernel, float_text, Ghost(fuel));
        },
    }
    assert forall|t: spec_fn(Float32) -> Seq<char>| #[trigger] writes(*float_text, t) implies out@
        == old(out)@ + op_text(kernel@, *op, t, fuel) by {
        assert(out@ =~= old(out)@ + op_text(kernel@, *op, t, fuel));
    }
}

/// How deep the blocks are nested after the first operations of a kernel.
pub open spec fn nesting_at(k: RawView, count: nat) -> Option<nat>
    decreases count,
{
    if count == 0 {
        Some(0)
    } else {
        match nesting_at(k, (count - 1) as nat) {
            Some(n) => nest(k, k.ops[count - 1], n, k.values.len()),
            None => None,
        }
    }
}

/// Whether a kernel can be written: every operation reads values of the kernel, no definition
/// leads back to itself, and no block ends that has not begun.
pub open spec fn printable(k: RawView) -> bool {
    &&& forall|i: int|
        0 <= i < k.ops.len() ==> op_fits(k, #[trigger] k.ops[i], k.values.len())
    &&& nesting_at(k, k.ops.len()) is Some
}

proof fn lemma_nesting_before(k: RawView, i: nat, count: nat)
    requires
        i <= count,
        nesting_at(k, count) is Some,
    ensures
        nesting_at(k, i) is Some,
    decreases count,
{
    if i < count {
        lemma_nesting_before(k, i, (count - 1) as nat);
    }
}

/// The text of the first operations of a kernel.
pub open spec fn body_text(
    k: RawView,
    t: spec_fn(Float32) -> Seq<char>,
    pretty: bool,
    count: nat,
) -> Seq<char>
    decreases count,
{
    if count == 0 {
        Seq::empty()
    } else {
        let op = k.ops[count - 1];
        body_text(k, t, pretty, (count - 1) as nat) + line(
            pretty,
            nesting_at(k, (count - 1) as nat)->0,
        ) + (if op is EndScope {
            Seq::empty()
        } else {
            indent(pretty)
        }) + op_text(k, op, t, k.values.len())
    }
}

fn emit_ops<F: Fn(Float32) -> String>(
    kernel: &RawKernel,
    out: &mut String,
    pretty_print: bool,
    float_text: &F,
)
    requires
        forall|v: Float32| float_text.requires((v,)),
        printable(kernel@),
    ensures
        forall|t: spec_fn(Float32) -> Seq<char>| #[trigger]
            writes(*float_text, t) ==> final(out)@ == old(out)@ + body_text(
                kernel@,
                t,
                pretty_print,
                kernel@.ops.len(),
            ),
{
    let ghost k = kernel@;
    let ghost start = out@;
    let mut nesting: usize = 0;
    let mut i: usize = 0;
    while i < kernel.ops.len()
        invariant
            i <= k.ops.len(),
            k == kernel@,
            forall|v: Float32| float_text.requires((v,)),
            printable(k),
            nesting_at(k, i as nat) == Some(nesting as nat),
            forall|t: spec_fn(Float32) -> Seq<char>| #[trigger]
                writes(*float_text, t) ==> out@ == start + body_text(
                    k,
                    t,
                    pretty_print,
                    i as nat,
                ),
        decreases k.ops.len() - i,
    {
        let ghost before = out@;
        let op = &kernel.ops[i];
        newline(pretty_print, out, nesting);
        if !matches!(op, Op::EndScope) {
            tab(pretty_print, out);
        }
        proof {
            assert(k.ops[i as int] == *op);
            lemma_nesting_before(k, i as nat + 1, k.ops.len());
        }
        process_op(out, op, &mut nesting, kernel, float_text, Ghost(k.values.len()));
        assert forall|t: spec_fn(Float32) -> Seq<char>| #[trigger]
            writes(*float_text, t) implies out@ == start + body_text(
            k,
            t,
            pretty_print,
            i as nat + 1,
        ) by {
            assert(before == start + body_text(k, t, pretty_print, i as nat));
            assert(out@ =~= start + body_text(k, t, pretty_print, i as nat + 1));
        }
        i += 1;
    }
    assert forall|t: spec_fn(Float32) -> Seq<char>| #[trigger] writes(*float_text, t) implies out@
        == start + body_text(k, t, pretty_print, k.ops.len()) by {}
}

/// The text of the first metadata fields.
pub open spec fn fields_text(pretty: bool, count: nat) -> Seq<char>
    decreases count,
{
    if count == 0 {
        Seq::empty()
    } else {
        fields_text(pretty, (count - 1) as nat) + line(pretty, 1) + "f"@ + decimal(
            (count - 1) as nat,
        ) + ": u32,"@
    }
}

/// The address space of a parameter.
pub open spec fn space(ty: ParamTy) -> &'static str {
    match ty {
        ParamTy::ReadOnly => "var<storage, read>",
        ParamTy::ReadWrite => "var<storage, read_write>",
        ParamTy::Uniform => "var<uniform>",
    }
}

fn space_of(ty: ParamTy) -> (r: &'static str)
    ensures
        r == space(ty),
{
    match ty {
        ParamTy::ReadOnly => "var<storage, read>",
        ParamTy::ReadWrite => "var<storage, read_write>",
        ParamTy::Uniform => "var<uniform>",
    }
}

/// The text of the parameter at a binding.
pub open spec fn param_text(p: Param, binding: nat) -> Seq<char> {
    "@group(0) @binding("@ + decimal(binding) + ") "@ + space(p.ty)@ + " param"@ + decimal(
        p.pid as nat,
    ) + ": "@ + (if p.ty is Uniform && p.dtype is UnsignedInt {
        "Meta;"@
    } else {
        "array<"@ + dtype_name(p.dtype)@ + ">;"@
    })
}

fn push_param(out: &mut String, p: &Param, binding: usize)
    ensures
        final(out)@ == old(out)@ + param_text(*p, binding as nat),
{
    out.append("@group(0) @binding(");
    push_index(out, binding);
    out.append(") ");
    out.append(space_of(p.ty));
    out.append(" param");
    push_index(out, p.pid);
    out.append(": ");
    if matches!(p.ty, ParamTy::Uniform) && matches!(p.dtype, DType::UnsignedInt) {
        out.append("Meta;");
    } else {
        out.append("array<");
        out.append(get_dtype(p.dtype));
        out.append(">;");
    }
    assert(out@ =~= old(out)@ + param_text(*p, binding as nat));
}

/// The text of the first parameters.
pub open spec fn params_text(params: Seq<Param>, pretty: bool, count: nat) -> Seq<char>
    decreases count,
{
    if count == 0 {
        Seq::empty()
    } else {
        params_text(params, pretty, (count - 1) as nat) + line(pretty, 0) + param_text(
            params[count - 1],
            (count - 1) as nat,
        )
    }
}

/// The text of the first shared buffers.
pub open spec fn shared_text(k: RawView, pretty: bool, count: nat) -> Seq<char>
    decreases count,
{
    if count == 0 {
        Seq::empty()
    } else {
        shared_text(k, pretty, (count - 1) as nat) + line(pretty, 0) + "var<workgroup> shared"@
            + decimal((count - 1) as nat) + ": array<"@ + dtype_name(k.shared[count - 1].dtype)@
            + ", ("@ + decimal(k.shared[count - 1].size as nat) + ")>;"@
    }
}

/// The text of the metadata, the parameters and the shared buffers of a kernel.
pub open spec fn bindings_text(k: RawView, params: Seq<Param>, pretty: bool) -> Seq<char> {
    "struct Meta {"@ + fields_text(pretty, k.meta.count()) + line(pretty, 0) + "}"@ + line(
        pretty,
        0,
    ) + params_text(params, pretty, params.len()) + line(pretty, 0) + shared_text(
        k,
        pretty,
        k.shared.len(),
    )
}

fn push_fields(out: &mut String, fields: usize, pretty_print: bool)
    ensures
        final(out)@ == old(out)@ + fields_text(pretty_print, fields as nat),
{
    let mut f: usize = 0;
    while f < fields
        invariant
            f <= fields,
            out@ =~= old(out)@ + fields_text(pretty_print, f as nat),
        decreases fields - f,
    {
        newline(pretty_print, out, 1);
        out.append("f");
        push_index(out, f);
        out.append(": u32,");
        f += 1;
    }
}

fn push_params(out: &mut String, params: &[Param], pretty_print: bool)
    ensures
        final(out)@ == old(out)@ + params_text(params@, pretty_print, params@.len()),
{
    let mut i: usize = 0;
    while i < params.len()
        invariant
            i <= params@.len(),
            out@ =~= old(out)@ + params_text(params@, pretty_print, i as nat),
        decreases params@.len() - i,
    {
        newline(pretty_print, out, 0);
        push_param(out, &params[i], i);
        i += 1;
    }
}

fn push_shared(out: &mut String, kernel: &RawKernel, pretty_print: bool)
    ensures
        final(out)@ == old(out)@ + shared_text(kernel@, pretty_print, kernel@.shared.len()),
{
    let mut i: usize = 0;
    while i < kernel.shared.len()
        invariant
            i <= kernel@.shared.len(),
            out@ =~= old(out)@ + shared_text(kernel@, pretty_print, i as nat),
        decreases kernel@.shared.len() - i,
    {
        newline(pretty_print, out, 0);
        out.append("var<workgroup> shared");
        push_index(out, i);
        out.append(": array<");
        out.append(get_dtype(kernel.shared[i].dtype));
        out.append(", (");
        push_decimal(out, kernel.shared[i].size as u64);
        out.append(")>;");
        i += 1;
    }
}

fn emit_bindings(kernel: &RawKernel, params: &[Param], out: &mut String, pretty_print: bool)
    ensures
        final(out)@ == old(out)@ + bindings_text(kernel@, params@, pretty_print),
{
    out.append("struct Meta {");
    push_fields(out, kernel.meta.iter_fields().end, pretty_print);
    newline(pretty_print, out, 0);
    out.append("}");
    newline(pretty_print, out, 0);
    push_params(out, params, pretty_print);
    newline(pretty_print, out, 0);
    push_shared(out, kernel, pretty_print);
    assert(out@ =~= old(out)@ + bindings_text(kernel@, params@, pretty_print));
}

/// The text of the head of the entry point of a kernel.
pub open spec fn head_text(k: RawView, pretty: bool) -> Seq<char> {
    line(pretty, 0) + "@compute @workgroup_size("@ + decimal(k.block[0] as nat) + ", ("@ + decimal(
        k.block[1] as nat,
    ) + "), ("@ + decimal(k.block[2] as nat) + ")) "@ + line(pretty, 0) + "fn main("@ + line(
        pretty,
        1,
    ) + "@builtin(local_invocation_id) lid: vec3<u32>,"@ + line(pretty, 1)
        + "@builtin(workgroup_id) bid: vec3<u32>,"@ + line(pretty, 1)
        + "@builtin(global_invocation_id) gid: vec3<u32>,"@ + line(pretty, 0) + ") {"@
}

#[verifier::spinoff_prover]
#[verifier::rlimit(60)]
fn emit_head(kernel: &RawKernel, out: &mut String, pretty_print: bool)
    ensures
        final(out)@ == old(out)@ + head_text(kernel@, pretty_print),
{
    newline(pretty_print, out, 0);
    out.append("@compute @workgroup_size(");
    push_decimal(out, kernel.block[0] as u64);
    out.append(", (");
    push_decimal(out, kernel.block[1] as u64);
    out.append("), (");
    push_decimal(out, kernel.block[2] as u64);
    out.append(")) ");
    newline(pretty_print, out, 0);
    out.append("fn main(");
    newline(pretty_print, out, 1);
    out.append("@builtin(local_invocation_id) lid: vec3<u32>,");
    newline(pretty_print, out, 1);
    out.append("@builtin(workgroup_id) bid: vec3<u32>,");
    newline(pretty_print, out, 1);
    out.append("@builtin(global_invocation_id) gid: vec3<u32>,");
    newline(pretty_print, out, 0);
    out.append(") {");
    assert(out@ =~= old(out)@ + head_text(kernel@, pretty_print));
}

/// The text of the entry point of a kernel.
pub open spec fn entry_text(k: RawView, t: spec_fn(Float32) -> Seq<char>, pretty: bool) -> Seq<
    char,
> {
    head_text(k, pretty) + body_text(k, t, pretty, k.ops.len()) + line(pretty, 0) + "}"@
}

fn emit_entry<F: Fn(Float32) -> String>(
    kernel: &RawKernel,
    out: &mut String,
    pretty_print: bool,
    float_text: &F,
)
    requires
        forall|v: Float32| float_text.requires((v,)),
        printable(kernel@),
    ensures
        forall|t: spec_fn(Float32) -> Seq<char>| #[trigger]
            writes(*float_text, t) ==> final(out)@ == old(out)@ + entry_text(
                kernel@,
                t,
                pretty_print,
            ),
{
    emit_head(kernel, out, pretty_print);
    emit_ops(kernel, out, pretty_print, float_text);
    newline(pretty_print, out, 0);
    out.append("}");
    assert forall|t: spec_fn(Float32) -> Seq<char>| #[trigger] writes(*float_text, t) implies out@
        == old(out)@ + entry_text(kernel@, t, pretty_print) by {
        assert(out@ =~= old(out)@ + entry_text(kernel@, t, pretty_print));
    }
}

/// The text of a kernel.
pub open spec fn wgsl(
    k: RawView,
    params: Seq<Param>,
    t: spec_fn(Float32) -> Seq<char>,
    pretty: bool,
) -> Seq<char> {
    bindings_text(k, params, pretty) + line(pretty, 0) + entry_text(k, t, pretty)
}

/// Writes a kernel that takes the given parameters. The function writes the numbers that are not
/// integers.
pub fn generate_wgsl<F: Fn(Float32) -> String>(
    kernel: &RawKernel,
    params: &[Param],
    pretty_print: bool,
    float_text: &F,
) -> (r: String)
    requires
        forall|v: Float32| float_text.requires((v,)),
        printable(kernel@),
    ensures
        forall|t: spec_fn(Float32) -> Seq<char>| #[trigger]
            writes(*float_text, t) ==> r@ == wgsl(kernel@, params@, t, pretty_print),
{
    let mut out = String::new();
    emit_bindings(kernel, params, &mut out, pretty_print);
    newline(pretty_print, &mut out, 0);
    emit_entry(kernel, &mut out, pretty_print, float_text);
    assert forall|t: spec_fn(Float32) -> Seq<char>| #[trigger] writes(*float_text, t) implies out@
        == wgsl(kernel@, params@, t, pretty_print) by {
        assert(out@ =~= wgsl(kernel@, params@, t, pretty_print));
    }
    out
}

fn can_render(kernel: &RawKernel, id: ValueId, fuel: usize) -> (r: bool)
    ensures
        r == val_fits(kernel@, id, fuel as nat),
    decreases fuel, 0nat, Op::Nop,
{
    if id >= kernel.values.len() {
        return false;
    }
    let val = &kernel.values[id];
    if let (ValueState::Inline, Some(op)) = (val.state, &val.init) {
        fuel > 0 && can_process(kernel, op, fuel - 1) && nest_after(
            kernel,
            op,
            0,
            fuel - 1,
        ).is_some()
    } else {
        true
    }
}

fn can_write_form(kernel: &RawKernel, f: Form, fuel: usize) -> (r: bool)
    ensures
        r == form_fits(kernel@, f, fuel as nat),
    decreases fuel, 1nat, Op::Nop,
{
    match f {
        Form::Infix { a, b, .. } | Form::Call2 { a, b, .. } => can_render(kernel, a, fuel)
            && can_render(kernel, b, fuel),
        Form::Prefix { x, .. } | Form::Call { x, .. } => can_render(kernel, x, fuel),
        Form::Call3 { a, b, c, .. } => can_render(kernel, a, fuel) && can_render(kernel, b, fuel)
            && can_render(kernel, c, fuel),
        Form::Read { index, .. } => can_render(kernel, index, fuel),
        Form::Write { index, value, .. } => can_render(kernel, index, fuel) && can_render(
            kernel,
            value,
            fuel,
        ),
        Form::Place { .. } | Form::Fixed { .. } | Form::Own => true,
    }
}

fn can_process(kernel: &RawKernel, op: &Op, fuel: usize) -> (r: bool)
    ensures
        r == op_fits(kernel@, *op, fuel as nat),
    decreases fuel, 2nat, op,
{
    match op {
        Op::DefineVar { id } => {
            if *id >= kernel.values.len() {
                return false;
            }
            let val = &kernel.values[*id];
            match val.state {
                ValueState::Masked | ValueState::Inline => true,
                _ => match &val.init {
                    Some(init) => fuel > 0 && can_process(kernel, init, fuel - 1),
                    None => true,
                },
            }
        },
        Op::OverwriteVar { val, .. }
        | Op::AddAssign { val, .. }
        | Op::MulAssign { val, .. }
        | Op::DivAssign { val, .. }
        | Op::SubAssign { val, .. }
        | Op::ShlAssign { val, .. }
        | Op::ShrAssign { val, .. } => can_process(kernel, val, fuel),
        Op::CopyVar { id } => can_render(kernel, *id, fuel),
        Op::ForLoopBegin { end, step, .. } => can_render(kernel, *end, fuel) && can_render(
            kernel,
            *step,
            fuel,
        ),
        Op::WhileLoopBegin { cond } => can_process(kernel, cond, fuel),
        Op::IfBegin { cond } => can_render(kernel, *cond, fuel),
        _ => can_write_form(kernel, form_of(op), fuel),
    }
}

fn nest_after(kernel: &RawKernel, op: &Op, nesting: usize, fuel: usize) -> (r: Option<usize>)
    requires
        op_fits(kernel@, *op, fuel as nat),
    ensures
        match r {
            Some(n) => nest(kernel@, *op, nesting as nat, fuel as nat) == Some(n as nat),
            None => nest(kernel@, *op, nesting as nat, fuel as nat) is None,
        },
    decreases fuel, 2nat, op,
{
    match op {
        Op::DefineVar { id } => {
            let val = &kernel.values[*id];
            match val.state {
                ValueState::Masked | ValueState::Inline => Some(nesting),
                _ => match &val.init {
                    Some(init) => nest_after(kernel, init, nesting, fuel - 1),
                    None => Some(nesting),
                },
            }
        },
        Op::OverwriteVar { val, .. }
        | Op::AddAssign { val, .. }
        | Op::MulAssign { val, .. }
        | Op::DivAssign { val, .. }
        | Op::SubAssign { val, .. }
        | Op::ShlAssign { val, .. }
        | Op::ShrAssign { val, .. } => nest_after(kernel, val, nesting, fuel),
        Op::WhileLoopBegin { cond } => match nest_after(kernel, cond, nesting, fuel) {
            Some(n) => n.checked_add(1),
            None => None,
        },
        Op::ForLoopBegin { .. } | Op::ForeverLoopBegin | Op::IfBegin { .. } | Op::ElseBegin => {
            nesting.checked_add(1)
        },
        Op::EndScope => nesting.checked_sub(1),
        _ => Some(nesting),
    }
}

/// Whether a kernel can be written.
pub fn is_printable(kernel: &RawKernel) -> (r: bool)
    ensures
        r == printable(kernel@),
{
    let ghost k = kernel@;
    let fuel: usize = kernel.values.len();
    let mut nesting: usize = 0;
    let mut i: usize = 0;
    while i < kernel.ops.len()
        invariant
            i <= k.ops.len(),
            k == kernel@,
            fuel == k.values.len(),
            nesting_at(k, i as nat) == Some(nesting as nat),
            forall|j: int| 0 <= j < i ==> op_fits(k, #[trigger] k.ops[j], k.values.len()),
        decreases k.ops.len() - i,
    {
        let op = &kernel.ops[i];
        assert(k.ops[i as int] == *op);
        if !can_process(kernel, op, fuel) {
            return false;
        }
        match nest_after(kernel, op, nesting, fuel) {
            Some(n) => {
                nesting = n;
            },
            None => {
                proof {
                    assert(nesting_at(k, i as nat + 1) is None);
                    if printable(k) {
                        lemma_nesting_before(k, i as nat + 1, k.ops.len());
                    }
                }
                return false;
            },
        }
        i += 1;
    }
    true
}

} // verus!
