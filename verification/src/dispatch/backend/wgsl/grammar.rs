//! What the operators in the source of a kernel mean.

use vstd::prelude::*;

use vstd::arithmetic::power2::pow2;

use crate::dispatch::backend::kernel::RawView;
use crate::dispatch::backend::wgsl::names::{param_name, shared_name, value_name};
use crate::dispatch::backend::wgsl::source::{
    assign_sign, form, form_text, op_text, val_text, Form,
};
use crate::dispatch::backend::{Axis, Op, ValueId};
use crate::scalar::Float32;

verus! {

/// What an operator gives: a number, or a truth.
pub enum Outcome {
    Number(int),
    Truth(bool),
    /// No operator of the language.
    Unknown,
}

/// What an operator of the language gives between two whole numbers.
pub open spec fn operator(sign: Seq<char>, a: int, b: int) -> Outcome {
    if sign == seq!['+'] {
        Outcome::Number(a + b)
    } else if sign == seq!['-'] {
        Outcome::Number(a - b)
    } else if sign == seq!['*'] {
        Outcome::Number(a * b)
    } else if sign == seq!['/'] {
        Outcome::Number(a / b)
    } else if sign == seq!['%'] {
        Outcome::Number(a % b)
    } else if sign == seq!['<', '<'] {
        Outcome::Number(a * pow2(b as nat))
    } else if sign == seq!['>', '>'] {
        Outcome::Number(a / pow2(b as nat) as int)
    } else if sign == seq!['=', '='] {
        Outcome::Truth(a == b)
    } else if sign == seq!['!', '='] {
        Outcome::Truth(a != b)
    } else if sign == seq!['<'] {
        Outcome::Truth(a < b)
    } else if sign == seq!['>'] {
        Outcome::Truth(a > b)
    } else if sign == seq!['<', '='] {
        Outcome::Truth(a <= b)
    } else if sign == seq!['>', '='] {
        Outcome::Truth(a >= b)
    } else {
        Outcome::Unknown
    }
}

/// What an operation gives on two whole numbers, with the values that it reads first and second.
pub open spec fn operation(op: Op, a: int, b: int) -> Option<(ValueId, ValueId, Outcome)> {
    match op {
        Op::Add { a: x, b: y } => Some((x, y, Outcome::Number(a + b))),
        Op::Sub { a: x, b: y } => Some((x, y, Outcome::Number(a - b))),
        Op::Mul { a: x, b: y } => Some((x, y, Outcome::Number(a * b))),
        Op::Div { a: x, b: y } => Some((x, y, Outcome::Number(a / b))),
        Op::Mod { a: x, b: y } => Some((x, y, Outcome::Number(a % b))),
        Op::Shl { a: x, b: y } => Some((x, y, Outcome::Number(a * pow2(b as nat)))),
        Op::Shr { a: x, b: y } => Some((x, y, Outcome::Number(a / pow2(b as nat) as int))),
        Op::Eq { a: x, b: y } => Some((x, y, Outcome::Truth(a == b))),
        Op::Ne { a: x, b: y } => Some((x, y, Outcome::Truth(a != b))),
        Op::Lt { a: x, b: y } => Some((x, y, Outcome::Truth(a < b))),
        Op::Gt { a: x, b: y } => Some((x, y, Outcome::Truth(a > b))),
        Op::Le { a: x, b: y } => Some((x, y, Outcome::Truth(a <= b))),
        Op::Ge { a: x, b: y } => Some((x, y, Outcome::Truth(a >= b))),
        _ => None,
    }
}

/// The text of two operands with an operator between them, each operand in brackets.
pub open spec fn between(first: Seq<char>, sign: Seq<char>, second: Seq<char>) -> Seq<char> {
    "("@ + first + ")"@ + " "@ + sign + " "@ + "("@ + second + ")"@
}

/// An operation on two values is written as its first value, an operator and its second value, and
/// between any two whole numbers the operator gives what the operation gives.
pub proof fn lemma_operator_written(
    k: RawView,
    op: Op,
    t: spec_fn(Float32) -> Seq<char>,
    fuel: nat,
    a: int,
    b: int,
) -> (sign: Seq<char>)
    requires
        operation(op, a, b) is Some,
    ensures
        ({
            let (x, y, outcome) = operation(op, a, b)->0;
            &&& op_text(k, op, t, fuel) == between(
                val_text(k, x, t, fuel),
                sign,
                val_text(k, y, t, fuel),
            )
            &&& operator(sign, a, b) == outcome
        }),
{
    reveal_with_fuel(op_text, 2);
    reveal_with_fuel(form_text, 2);
    reveal_strlit(" ");
    reveal_strlit(" + ");
    reveal_strlit(" - ");
    reveal_strlit(" * ");
    reveal_strlit(" / ");
    reveal_strlit(" % ");
    reveal_strlit(" << ");
    reveal_strlit(" >> ");
    reveal_strlit(" == ");
    reveal_strlit(" != ");
    reveal_strlit(" < ");
    reveal_strlit(" > ");
    reveal_strlit(" <= ");
    reveal_strlit(" >= ");
    let written = match form(op) {
        Form::Infix { sign, .. } => sign@,
        _ => Seq::empty(),
    };
    let sign = written.subrange(1, written.len() - 1);
    let (x, y, outcome) = operation(op, a, b)->0;
    assert(written =~= " "@ + sign + " "@);
    assert(op_text(k, op, t, fuel) =~= between(
        val_text(k, x, t, fuel),
        sign,
        val_text(k, y, t, fuel),
    ));
    if sign.len() == 1 {
        assert(sign =~= seq![sign[0]]);
        assert(seq!['<', '<'].len() == 2);
        lemma_apart_one(sign[0], a, b);
    } else {
        assert(sign =~= seq![sign[0], sign[1]]);
        lemma_apart_two(sign[0], sign[1], a, b);
    }
    sign
}

proof fn lemma_apart_one(s: char, a: int, b: int)
    ensures
        operator(seq![s], a, b) == if s == '+' {
            Outcome::Number(a + b)
        } else if s == '-' {
            Outcome::Number(a - b)
        } else if s == '*' {
            Outcome::Number(a * b)
        } else if s == '/' {
            Outcome::Number(a / b)
        } else if s == '%' {
            Outcome::Number(a % b)
        } else if s == '<' {
            Outcome::Truth(a < b)
        } else if s == '>' {
            Outcome::Truth(a > b)
        } else {
            Outcome::Unknown
        },
{
    let sign = seq![s];
    assert(sign[0] == s && sign.len() == 1);
    assert(forall|r: char| #[trigger] seq![r] == sign ==> r == s) by {
        assert forall|r: char| #[trigger] seq![r] == sign implies r == s by {
            assert(seq![r][0] == r);
        }
    }
    assert(forall|q: char, r: char| #[trigger] seq![q, r] != sign) by {
        assert forall|q: char, r: char| #[trigger] seq![q, r] != sign by {
            assert(seq![q, r].len() == 2);
        }
    }
}

proof fn lemma_apart_two(s: char, u: char, a: int, b: int)
    ensures
        operator(seq![s, u], a, b) == if s == '<' && u == '<' {
            Outcome::Number(a * pow2(b as nat))
        } else if s == '>' && u == '>' {
            Outcome::Number(a / pow2(b as nat) as int)
        } else if s == '=' && u == '=' {
            Outcome::Truth(a == b)
        } else if s == '!' && u == '=' {
            Outcome::Truth(a != b)
        } else if s == '<' && u == '=' {
            Outcome::Truth(a <= b)
        } else if s == '>' && u == '=' {
            Outcome::Truth(a >= b)
        } else {
            Outcome::Unknown
        },
{
    let sign = seq![s, u];
    assert(sign[0] == s && sign[1] == u && sign.len() == 2);
    assert(forall|r: char| #[trigger] seq![r] != sign) by {
        assert forall|r: char| #[trigger] seq![r] != sign by {
            assert(seq![r].len() == 1);
        }
    }
    assert(forall|q: char, r: char| #[trigger] seq![q, r] == sign ==> q == s && r == u) by {
        assert forall|q: char, r: char| #[trigger] seq![q, r] == sign implies q == s && r == u by {
            assert(seq![q, r][0] == q && seq![q, r][1] == r);
        }
    }
}

/// What a place holds after an operation that changes it, when it held a whole number and is given
/// another.
pub open spec fn update(op: Op, old: int, new: int) -> Option<int> {
    match op {
        Op::OverwriteVar { .. } | Op::ParamStore { .. } | Op::SharedStore { .. } => Some(new),
        Op::AddAssign { .. } | Op::ParamAccum { .. } | Op::SharedAccum { .. } => Some(old + new),
        Op::SubAssign { .. } | Op::ParamSub { .. } | Op::SharedSub { .. } => Some(old - new),
        Op::MulAssign { .. } | Op::ParamMul { .. } | Op::SharedMul { .. } => Some(old * new),
        Op::DivAssign { .. } | Op::ParamDiv { .. } | Op::SharedDiv { .. } => Some(old / new),
        Op::ShlAssign { .. } | Op::ParamShl { .. } | Op::SharedShl { .. } => Some(
            old * pow2(new as nat),
        ),
        Op::ShrAssign { .. } | Op::ParamShr { .. } | Op::SharedShr { .. } => Some(
            old / pow2(new as nat) as int,
        ),
        _ => None,
    }
}

/// The text of the place that an operation changes, and of what it is given.
pub open spec fn change(k: RawView, op: Op, t: spec_fn(Float32) -> Seq<char>, fuel: nat) -> (
    Seq<char>,
    Seq<char>,
) {
    match op {
        Op::OverwriteVar { id, val }
        | Op::AddAssign { id, val }
        | Op::MulAssign { id, val }
        | Op::DivAssign { id, val }
        | Op::SubAssign { id, val }
        | Op::ShlAssign { id, val }
        | Op::ShrAssign { id, val } => (value_name(id as nat), op_text(k, *val, t, fuel)),
        Op::ParamStore { param, index, value }
        | Op::ParamAccum { param, index, value }
        | Op::ParamMul { param, index, value }
        | Op::ParamDiv { param, index, value }
        | Op::ParamSub { param, index, value }
        | Op::ParamShl { param, index, value }
        | Op::ParamShr { param, index, value } => (
            param_name(param as nat) + "["@ + val_text(k, index, t, fuel) + "]"@,
            val_text(k, value, t, fuel),
        ),
        Op::SharedStore { mem, index, value }
        | Op::SharedAccum { mem, index, value }
        | Op::SharedMul { mem, index, value }
        | Op::SharedDiv { mem, index, value }
        | Op::SharedSub { mem, index, value }
        | Op::SharedShl { mem, index, value }
        | Op::SharedShr { mem, index, value } => (
            shared_name(mem as nat) + "["@ + val_text(k, index, t, fuel) + "]"@,
            val_text(k, value, t, fuel),
        ),
        _ => (Seq::empty(), Seq::empty()),
    }
}

/// An operation that changes a variable or an element of a buffer is written as an assignment: of
/// what is given, or with the operator that gives what the operation leaves there.
pub proof fn lemma_assignment_written(
    k: RawView,
    op: Op,
    t: spec_fn(Float32) -> Seq<char>,
    fuel: nat,
    old: int,
    new: int,
) -> (sign: Seq<char>)
    requires
        update(op, old, new) is Some,
    ensures
        ({
            let (place, value) = change(k, op, t, fuel);
            &&& op_text(k, op, t, fuel) == place + " "@ + sign + "= "@ + value + ";"@
            &&& if sign.len() == 0 {
                update(op, old, new)->0 == new
            } else {
                operator(sign, old, new) == Outcome::Number(update(op, old, new)->0)
            }
        }),
{
    reveal_with_fuel(op_text, 2);
    reveal_with_fuel(form_text, 2);
    reveal_strlit(" ");
    reveal_strlit("= ");
    reveal_strlit(" = ");
    reveal_strlit(" += ");
    reveal_strlit(" -= ");
    reveal_strlit(" *= ");
    reveal_strlit(" /= ");
    reveal_strlit(" <<= ");
    reveal_strlit(" >>= ");
    let written = match form(op) {
        Form::Write { sign, .. } => sign@,
        _ => assign_sign(op)@,
    };
    let sign = written.subrange(1, written.len() - 2);
    assert(written =~= " "@ + sign + "= "@);
    let (place, value) = change(k, op, t, fuel);
    assert(op_text(k, op, t, fuel) =~= place + " "@ + sign + "= "@ + value + ";"@);
    if sign.len() == 1 {
        assert(sign =~= seq![sign[0]]);
        lemma_apart_one(sign[0], old, new);
    } else if sign.len() == 2 {
        assert(sign =~= seq![sign[0], sign[1]]);
        lemma_apart_two(sign[0], sign[1], old, new);
    }
    sign
}

/// The function of the language that an operation is, and its arguments in order. A choice takes
/// first what is chosen where the condition does not hold.
pub open spec fn function(op: Op) -> Option<(Seq<char>, Seq<ValueId>)> {
    match op {
        Op::Neg { x } => Some(("-"@, seq![x])),
        Op::Not { cond } => Some(("!"@, seq![cond])),
        Op::Exp { x } => Some(("exp"@, seq![x])),
        Op::Abs { x } => Some(("abs"@, seq![x])),
        Op::Log { x } => Some(("log"@, seq![x])),
        Op::Tanh { x } => Some(("tanh"@, seq![x])),
        Op::Sqrt { x } => Some(("sqrt"@, seq![x])),
        Op::Pow { a, b } => Some(("pow"@, seq![a, b])),
        Op::Max { a, b } => Some(("max"@, seq![a, b])),
        Op::Min { a, b } => Some(("min"@, seq![a, b])),
        Op::Fma { a, b, c } => Some(("fma"@, seq![a, b, c])),
        Op::Select { cond, a, b } => Some(("select"@, seq![b, a, cond])),
        _ => None,
    }
}

/// The texts of the first arguments, with commas between them.
pub open spec fn listed(
    k: RawView,
    args: Seq<ValueId>,
    t: spec_fn(Float32) -> Seq<char>,
    fuel: nat,
    count: nat,
) -> Seq<char>
    decreases count,
{
    if count == 0 {
        Seq::empty()
    } else if count == 1 {
        val_text(k, args[0], t, fuel)
    } else {
        listed(k, args, t, fuel, (count - 1) as nat) + ", "@ + val_text(
            k,
            args[count - 1],
            t,
            fuel,
        )
    }
}

/// An operation that is a function of the language is written as a call of it.
pub proof fn lemma_call_written(k: RawView, op: Op, t: spec_fn(Float32) -> Seq<char>, fuel: nat)
    requires
        function(op) is Some,
    ensures
        ({
            let (name, args) = function(op)->0;
            op_text(k, op, t, fuel) == name + "("@ + listed(k, args, t, fuel, args.len()) + ")"@
        }),
{
    reveal_with_fuel(op_text, 2);
    reveal_with_fuel(form_text, 2);
    reveal_with_fuel(listed, 4);
    let (name, args) = function(op)->0;
    assert(op_text(k, op, t, fuel) =~= name + "("@ + listed(k, args, t, fuel, args.len()) + ")"@);
}

/// The positions of a thread are those that the head of a kernel names: in its block, of its block,
/// and among all.
pub proof fn lemma_position_written(
    k: RawView,
    axis: Axis,
    t: spec_fn(Float32) -> Seq<char>,
    fuel: nat,
)
    ensures
        ({
            let along = match axis {
                Axis::X => "x"@,
                Axis::Y => "y"@,
                Axis::Z => "z"@,
            };
            &&& op_text(k, Op::LocalId { axis }, t, fuel) == "lid."@ + along
            &&& op_text(k, Op::BlockId { axis }, t, fuel) == "bid."@ + along
            &&& op_text(k, Op::GlobalId { axis }, t, fuel) == "gid."@ + along
        }),
{
    reveal_with_fuel(op_text, 2);
    reveal_with_fuel(form_text, 2);
}

} // verus!
