//! The names in the source of a kernel.
//!
//! Everything that the body of a kernel names is declared once, under the name that the body uses.

use vstd::prelude::*;

use crate::dispatch::backend::kernel::RawView;
use crate::dispatch::backend::wgsl::source::{
    declared, dtype_name, fields_text, form_text, keyword, line, op_text, param_text, params_text,
    shared_text, space, val_text, wgsl,
};
use crate::dispatch::backend::{DType, Op, Param, ParamId, ParamTy, SharedId, ValueId, ValueState};
use crate::scalar::Float32;
use crate::text::{decimal, digit_char};

verus! {

/// The name of a shared buffer.
pub open spec fn shared_name(mem: nat) -> Seq<char> {
    "shared"@ + decimal(mem)
}

/// The name of a parameter.
pub open spec fn param_name(p: nat) -> Seq<char> {
    "param"@ + decimal(p)
}

/// The name of a value.
pub open spec fn value_name(id: nat) -> Seq<char> {
    "v"@ + decimal(id)
}

/// The name of a metadata field.
pub open spec fn field_name(field: nat) -> Seq<char> {
    "f"@ + decimal(field)
}

/// The first lines of a list, each on a line of its own.
pub open spec fn lined(lines: Seq<Seq<char>>, pretty: bool, nesting: nat, count: nat) -> Seq<char>
    decreases count,
{
    if count == 0 {
        Seq::empty()
    } else {
        lined(lines, pretty, nesting, (count - 1) as nat) + line(pretty, nesting) + lines[count - 1]
    }
}

/// Whether a line begins with a word, a name and a colon.
pub open spec fn declares(text: Seq<char>, word: Seq<char>, name: Seq<char>) -> bool {
    (word + name + ":"@).is_prefix_of(text)
}

/// A number is written with digits, one at least.
pub proof fn lemma_decimal_digits(n: nat)
    ensures
        decimal(n).len() >= 1,
        forall|i: int| 0 <= i < decimal(n).len() ==> '0' <= #[trigger] decimal(n)[i] <= '9',
    decreases n,
{
    if n >= 10 {
        lemma_decimal_digits(n / 10);
        assert forall|i: int| 0 <= i < decimal(n).len() implies '0' <= #[trigger] decimal(n)[i]
            <= '9' by {
            if i < decimal(n).len() - 1 {
                assert(decimal(n)[i] == decimal(n / 10)[i]);
            }
        }
    }
}

/// Different numbers are written differently.
pub proof fn lemma_decimal_injective(a: nat, b: nat)
    requires
        decimal(a) == decimal(b),
    ensures
        a == b,
    decreases a,
{
    lemma_decimal_digits(a / 10);
    lemma_decimal_digits(b / 10);
    if a >= 10 && b >= 10 {
        assert(decimal(a).drop_last() =~= decimal(a / 10));
        assert(decimal(b).drop_last() =~= decimal(b / 10));
        lemma_decimal_injective(a / 10, b / 10);
        assert(decimal(a).last() == digit_char(a % 10));
        assert(decimal(b).last() == digit_char(b % 10));
    } else if a < 10 && b < 10 {
        assert(decimal(a)[0] == digit_char(a));
        assert(decimal(b)[0] == digit_char(b));
    } else if a < 10 {
        assert(decimal(a).len() == 1);
        assert(decimal(b) == decimal(b / 10).push(digit_char(b % 10)));
    } else {
        assert(decimal(b).len() == 1);
        assert(decimal(a) == decimal(a / 10).push(digit_char(a % 10)));
    }
}

/// A line declares one numbered name only.
proof fn lemma_declares_one(text: Seq<char>, word: Seq<char>, stem: Seq<char>, a: nat, b: nat)
    requires
        declares(text, word, stem + decimal(a)),
        declares(text, word, stem + decimal(b)),
    ensures
        a == b,
{
    reveal_strlit(":");
    lemma_decimal_digits(a);
    lemma_decimal_digits(b);
    let (x, y) = (decimal(a), decimal(b));
    let head: int = word.len() + stem.len() as int;
    let p = word + (stem + x) + ":"@;
    let q = word + (stem + y) + ":"@;
    assert forall|i: int| 0 <= i < x.len() implies text[head + i] == x[i] by {
        assert(p[head + i] == text[head + i]);
    }
    assert forall|i: int| 0 <= i < y.len() implies text[head + i] == y[i] by {
        assert(q[head + i] == text[head + i]);
    }
    assert(text[head + x.len()] == ':') by {
        assert(p[head + x.len()] == ':');
    }
    assert(text[head + y.len()] == ':') by {
        assert(q[head + y.len()] == ':');
    }
    if x.len() < y.len() {
        assert(text[head + x.len()] == y[x.len() as int]);
    } else if y.len() < x.len() {
        assert(text[head + y.len()] == x[y.len() as int]);
    }
    assert forall|i: int| 0 <= i < x.len() implies x[i] == y[i] by {
        assert(text[head + i] == x[i] && text[head + i] == y[i]);
    }
    assert(x =~= y);
    lemma_decimal_injective(a, b);
}

/// The words that begin the declaration of a shared buffer.
pub open spec fn shared_word() -> Seq<char> {
    "var<workgroup> "@
}

/// Each shared buffer is declared on a line of its own, and no line declares two: the line with the
/// number of the buffer, and no other, declares the name that the buffer is read and written under.
pub proof fn lemma_shared_declared(k: RawView, pretty: bool) -> (lines: Seq<Seq<char>>)
    ensures
        lines.len() == k.shared.len(),
        shared_text(k, pretty, k.shared.len()) == lined(lines, pretty, 0, lines.len()),
        forall|mem: nat, i: int|
            0 <= i < lines.len() ==> (#[trigger] declares(
                lines[i],
                shared_word(),
                shared_name(mem),
            ) <==> mem == i),
{
    let lines = Seq::new(
        k.shared.len(),
        |i: int|
            "var<workgroup> shared"@ + decimal(i as nat) + ": array<"@ + dtype_name(
                k.shared[i].dtype,
            )@ + ", ("@ + decimal(k.shared[i].size as nat) + ")>;"@,
    );
    lemma_shared_lined(k, lines, pretty, lines.len());
    assert forall|mem: nat, i: int| 0 <= i < lines.len() implies (#[trigger] declares(
        lines[i],
        shared_word(),
        shared_name(mem),
    ) <==> mem == i) by {
        reveal_strlit("var<workgroup> shared");
        reveal_strlit("var<workgroup> ");
        reveal_strlit("shared");
        reveal_strlit(":");
        reveal_strlit(": array<");
        assert("var<workgroup> shared"@ =~= shared_word() + "shared"@);
        assert(declares(lines[i], shared_word(), shared_name(i as nat))) by {
            let p = shared_word() + shared_name(i as nat) + ":"@;
            assert(p =~= lines[i].subrange(0, p.len() as int));
        }
        if declares(lines[i], shared_word(), shared_name(mem)) {
            lemma_declares_one(lines[i], shared_word(), "shared"@, mem, i as nat);
        }
    }
    lines
}

proof fn lemma_shared_lined(k: RawView, lines: Seq<Seq<char>>, pretty: bool, count: nat)
    requires
        count <= lines.len(),
        lines.len() == k.shared.len(),
        forall|i: int|
            0 <= i < lines.len() ==> #[trigger] lines[i] == "var<workgroup> shared"@ + decimal(
                i as nat,
            ) + ": array<"@ + dtype_name(k.shared[i].dtype)@ + ", ("@ + decimal(
                k.shared[i].size as nat,
            ) + ")>;"@,
    ensures
        shared_text(k, pretty, count) == lined(lines, pretty, 0, count),
    decreases count,
{
    if count > 0 {
        lemma_shared_lined(k, lines, pretty, (count - 1) as nat);
        assert(shared_text(k, pretty, count) =~= lined(lines, pretty, 0, count));
    }
}

/// The words that begin the declaration of a parameter at a binding.
pub open spec fn param_word(ty: ParamTy, binding: nat) -> Seq<char> {
    "@group(0) @binding("@ + decimal(binding) + ") "@ + space(ty)@ + " "@
}

/// Each parameter is declared on a line of its own, at the binding with the number of the line, and
/// no line declares two: the line of a parameter declares the name that the parameter of its number
/// is read and written under.
pub proof fn lemma_params_declared(params: Seq<Param>, pretty: bool) -> (lines: Seq<Seq<char>>)
    ensures
        lines.len() == params.len(),
        params_text(params, pretty, params.len()) == lined(lines, pretty, 0, lines.len()),
        forall|p: nat, i: int|
            0 <= i < lines.len() ==> (#[trigger] declares(
                lines[i],
                param_word(params[i].ty, i as nat),
                param_name(p),
            ) <==> params[i].pid == p),
{
    let lines = Seq::new(params.len(), |i: int| param_text(params[i], i as nat));
    lemma_params_lined(params, lines, pretty, lines.len());
    assert forall|p: nat, i: int| 0 <= i < lines.len() implies (#[trigger] declares(
        lines[i],
        param_word(params[i].ty, i as nat),
        param_name(p),
    ) <==> params[i].pid == p) by {
        reveal_strlit(" param");
        reveal_strlit(" ");
        reveal_strlit("param");
        reveal_strlit(":");
        reveal_strlit(": ");
        let word = param_word(params[i].ty, i as nat);
        let own = params[i].pid as nat;
        assert(declares(lines[i], word, param_name(own))) by {
            let q = word + param_name(own) + ":"@;
            assert(q =~= lines[i].subrange(0, q.len() as int));
        }
        if declares(lines[i], word, param_name(p)) {
            lemma_declares_one(lines[i], word, "param"@, p, own);
        }
    }
    lines
}

proof fn lemma_params_lined(
    params: Seq<Param>,
    lines: Seq<Seq<char>>,
    pretty: bool,
    count: nat,
)
    requires
        count <= lines.len(),
        lines.len() == params.len(),
        forall|i: int|
            0 <= i < lines.len() ==> #[trigger] lines[i] == param_text(params[i], i as nat),
    ensures
        params_text(params, pretty, count) == lined(lines, pretty, 0, count),
    decreases count,
{
    if count > 0 {
        lemma_params_lined(params, lines, pretty, (count - 1) as nat);
        assert(params_text(params, pretty, count) =~= lined(lines, pretty, 0, count));
    }
}

/// Each metadata field is declared on a line of its own, and no line declares two: the line with the
/// number of the field declares the name that the field is read under.
pub proof fn lemma_fields_declared(pretty: bool, count: nat) -> (lines: Seq<Seq<char>>)
    ensures
        lines.len() == count,
        fields_text(pretty, count) == lined(lines, pretty, 1, count),
        forall|field: nat, i: int|
            0 <= i < lines.len() ==> (#[trigger] declares(
                lines[i],
                Seq::empty(),
                field_name(field),
            ) <==> field == i),
{
    let lines = Seq::new(count, |i: int| "f"@ + decimal(i as nat) + ": u32,"@);
    lemma_fields_lined(lines, pretty, count);
    assert forall|field: nat, i: int| 0 <= i < lines.len() implies (#[trigger] declares(
        lines[i],
        Seq::empty(),
        field_name(field),
    ) <==> field == i) by {
        reveal_strlit(":");
        reveal_strlit(": u32,");
        let none: Seq<char> = Seq::empty();
        assert(declares(lines[i], none, field_name(i as nat))) by {
            let q = none + field_name(i as nat) + ":"@;
            assert(q =~= lines[i].subrange(0, q.len() as int));
        }
        if declares(lines[i], none, field_name(field)) {
            lemma_declares_one(lines[i], none, "f"@, field, i as nat);
        }
    }
    lines
}

proof fn lemma_fields_lined(lines: Seq<Seq<char>>, pretty: bool, count: nat)
    requires
        count <= lines.len(),
        forall|i: int|
            0 <= i < lines.len() ==> #[trigger] lines[i] == "f"@ + decimal(i as nat) + ": u32,"@,
    ensures
        fields_text(pretty, count) == lined(lines, pretty, 1, count),
    decreases count,
{
    if count > 0 {
        lemma_fields_lined(lines, pretty, (count - 1) as nat);
        assert(fields_text(pretty, count) =~= lined(lines, pretty, 1, count));
    }
}

/// Whether a text begins with an element of what a name stands for.
pub open spec fn opens_with(text: Seq<char>, name: Seq<char>) -> bool {
    (name + "["@).is_prefix_of(text)
}

/// The shared buffer that an operation reads or writes.
pub open spec fn buffer(op: Op) -> Option<SharedId> {
    match op {
        Op::SharedLoad { mem, .. }
        | Op::SharedStore { mem, .. }
        | Op::SharedAccum { mem, .. }
        | Op::SharedMul { mem, .. }
        | Op::SharedDiv { mem, .. }
        | Op::SharedSub { mem, .. }
        | Op::SharedShl { mem, .. }
        | Op::SharedShr { mem, .. } => Some(mem),
        _ => None,
    }
}

/// The parameter whose elements an operation reads or writes.
pub open spec fn storage(op: Op) -> Option<ParamId> {
    match op {
        Op::ParamLoad { param, .. }
        | Op::ParamStore { param, .. }
        | Op::ParamAccum { param, .. }
        | Op::ParamMul { param, .. }
        | Op::ParamDiv { param, .. }
        | Op::ParamSub { param, .. }
        | Op::ParamShl { param, .. }
        | Op::ParamShr { param, .. } => Some(param),
        _ => None,
    }
}

/// An operation on a buffer is written with the name that the buffer is declared under, a metadata
/// field is read from its parameter under the name that it is declared under, and a value that is
/// written out is read, assigned and defined under one name.
pub proof fn lemma_names_used(k: RawView, op: Op, t: spec_fn(Float32) -> Seq<char>, fuel: nat)
    ensures
        buffer(op) matches Some(mem) ==> opens_with(
            op_text(k, op, t, fuel),
            shared_name(mem as nat),
        ),
        storage(op) matches Some(p) ==> opens_with(op_text(k, op, t, fuel), param_name(p as nat)),
        op matches Op::ReadMeta { param, field } ==> op_text(k, op, t, fuel) == param_name(
            param as nat,
        ) + "."@ + field_name(field as nat),
        op matches Op::CopyVar { id } ==> declared(k.values[id as int]) ==> op_text(k, op, t, fuel)
            == value_name(id as nat),
        op matches Op::OverwriteVar { id, .. } ==> (value_name(id as nat) + " = "@).is_prefix_of(
            op_text(k, op, t, fuel),
        ),
        op matches Op::AddAssign { id, .. } ==> (value_name(id as nat) + " += "@).is_prefix_of(
            op_text(k, op, t, fuel),
        ),
        op matches Op::DefineVar { id } ==> declared(k.values[id as int]) ==> exists|word: Seq<char>|
            #[trigger] declares(op_text(k, op, t, fuel), word, value_name(id as nat)),
{
    reveal_with_fuel(op_text, 2);
    reveal_with_fuel(form_text, 2);
    reveal_with_fuel(val_text, 2);
    let text = op_text(k, op, t, fuel);
    reveal_strlit("[");
    match op {
        Op::ReadMeta { param, field } => {
            reveal_strlit(".f");
            reveal_strlit(".");
            reveal_strlit("f");
            assert(text =~= param_name(param as nat) + "."@ + field_name(field as nat));
        },
        Op::DefineVar { id } => {
            if declared(k.values[id as int]) {
                let word = value_word(k, id);
                lemma_value_declared(k, id, t, fuel, id as nat);
                assert(declares(text, word, value_name(id as nat)));
            }
        },
        Op::OverwriteVar { id, .. } => {
            let q = value_name(id as nat) + " = "@;
            assert(q =~= text.subrange(0, q.len() as int));
        },
        Op::AddAssign { id, .. } => {
            let q = value_name(id as nat) + " += "@;
            assert(q =~= text.subrange(0, q.len() as int));
        },
        _ => {
            if buffer(op) is Some {
                let q = shared_name(buffer(op)->0 as nat) + "["@;
                assert(q =~= text.subrange(0, q.len() as int));
            }
            if storage(op) is Some {
                let q = param_name(storage(op)->0 as nat) + "["@;
                assert(q =~= text.subrange(0, q.len() as int));
            }
        },
    }
}

/// The word that begins the definition of a value.
pub open spec fn value_word(k: RawView, id: ValueId) -> Seq<char> {
    match k.values[id as int].state {
        ValueState::Const => "const "@,
        ValueState::Immut => "let "@,
        _ => "var "@,
    }
}

/// The definition of a value declares its name, and no other.
pub proof fn lemma_value_declared(
    k: RawView,
    id: ValueId,
    t: spec_fn(Float32) -> Seq<char>,
    fuel: nat,
    other: nat,
)
    requires
        declared(k.values[id as int]),
    ensures
        declares(
            op_text(k, Op::DefineVar { id }, t, fuel),
            value_word(k, id),
            value_name(other),
        ) <==> other == id,
{
    let text = op_text(k, Op::DefineVar { id }, t, fuel);
    let word = value_word(k, id);
    reveal_strlit("const v");
    reveal_strlit("let v");
    reveal_strlit("var v");
    reveal_strlit("const ");
    reveal_strlit("let ");
    reveal_strlit("var ");
    reveal_strlit("v");
    reveal_strlit(":");
    reveal_strlit(": ");
    assert(keyword(k.values[id as int].state)@ =~= word + "v"@);
    assert(declares(text, word, value_name(id as nat))) by {
        let q = word + value_name(id as nat) + ":"@;
        assert(q =~= text.subrange(0, q.len() as int));
    }
    if declares(text, word, value_name(other)) {
        lemma_declares_one(text, word, "v"@, other, id as nat);
    }
}

/// A value that is written out is read under the name that its definition declares.
pub proof fn lemma_value_read(k: RawView, id: ValueId, t: spec_fn(Float32) -> Seq<char>, fuel: nat)
    requires
        declared(k.values[id as int]),
    ensures
        val_text(k, id, t, fuel) == value_name(id as nat),
{
}

/// Different buffers, parameters, values and fields have different names.
pub proof fn lemma_names_apart(a: nat, b: nat)
    ensures
        shared_name(a) == shared_name(b) <==> a == b,
        param_name(a) == param_name(b) <==> a == b,
        value_name(a) == value_name(b) <==> a == b,
        field_name(a) == field_name(b) <==> a == b,
        shared_name(a) != param_name(b),
        shared_name(a) != value_name(b),
        param_name(a) != value_name(b),
{
    reveal_strlit("shared");
    reveal_strlit("param");
    reveal_strlit("v");
    reveal_strlit("f");
    lemma_stem_apart("shared"@, a, b);
    lemma_stem_apart("param"@, a, b);
    lemma_stem_apart("v"@, a, b);
    lemma_stem_apart("f"@, a, b);
    assert(shared_name(a)[0] == 's');
    assert(param_name(b)[0] == 'p');
    assert(param_name(a)[0] == 'p');
    assert(value_name(b)[0] == 'v');
}

proof fn lemma_stem_apart(stem: Seq<char>, a: nat, b: nat)
    ensures
        stem + decimal(a) == stem + decimal(b) <==> a == b,
{
    if stem + decimal(a) == stem + decimal(b) {
        let (x, y) = (stem + decimal(a), stem + decimal(b));
        assert(decimal(a) =~= x.subrange(stem.len() as int, x.len() as int));
        assert(decimal(b) =~= y.subrange(stem.len() as int, y.len() as int));
        lemma_decimal_injective(a, b);
    }
}

/// The source of a kernel begins with the declarations of all the metadata fields, all the
/// parameters and all the shared buffers, each on a line of its own, and its body follows.
pub proof fn lemma_declarations_first(
    k: RawView,
    params: Seq<Param>,
    t: spec_fn(Float32) -> Seq<char>,
    pretty: bool,
) -> (lines: (Seq<Seq<char>>, Seq<Seq<char>>, Seq<Seq<char>>))
    ensures
        lines.0.len() == k.meta.count(),
        lines.1.len() == params.len(),
        lines.2.len() == k.shared.len(),
        forall|field: nat, i: int|
            0 <= i < lines.0.len() ==> (#[trigger] declares(
                lines.0[i],
                Seq::empty(),
                field_name(field),
            ) <==> field == i),
        forall|p: nat, i: int|
            0 <= i < lines.1.len() ==> (#[trigger] declares(
                lines.1[i],
                param_word(params[i].ty, i as nat),
                param_name(p),
            ) <==> params[i].pid == p),
        forall|mem: nat, i: int|
            0 <= i < lines.2.len() ==> (#[trigger] declares(
                lines.2[i],
                shared_word(),
                shared_name(mem),
            ) <==> mem == i),
        ("struct Meta {"@ + lined(lines.0, pretty, 1, lines.0.len()) + line(pretty, 0) + "}"@
            + line(pretty, 0) + lined(lines.1, pretty, 0, lines.1.len()) + line(pretty, 0) + lined(
            lines.2,
            pretty,
            0,
            lines.2.len(),
        ) + line(pretty, 0) + line(pretty, 0)).is_prefix_of(wgsl(k, params, t, pretty)),
{
    let fields = lemma_fields_declared(pretty, k.meta.count());
    let bound = lemma_params_declared(params, pretty);
    let shared = lemma_shared_declared(k, pretty);
    let text = wgsl(k, params, t, pretty);
    let head = "struct Meta {"@ + lined(fields, pretty, 1, fields.len()) + line(pretty, 0) + "}"@
        + line(pretty, 0) + lined(bound, pretty, 0, bound.len()) + line(pretty, 0) + lined(
        shared,
        pretty,
        0,
        shared.len(),
    ) + line(pretty, 0) + line(pretty, 0);
    assert(head =~= text.subrange(0, head.len() as int));
    (fields, bound, shared)
}

/// A new value is introduced by one operation, under a name that no value before it has.
pub proof fn lemma_new_value_named(
    r: RawView,
    dtype: DType,
    state: ValueState,
    init: Option<Op>,
    before: nat,
)
    requires
        r.values.len() < usize::MAX,
        before < r.values.len(),
    ensures
        ({
            let (q, id) = r.def(dtype, state, init);
            &&& q.ops == r.ops.push(Op::DefineVar { id })
            &&& value_name(id as nat) != value_name(before)
        }),
{
    reveal(RawView::def);
    let id = r.def(dtype, state, init).1;
    lemma_names_apart(id as nat, before);
}

} // verus!
