//! Plain text output: decimal numbers and lists of numbers.

use vstd::prelude::*;

verus! {

/// The character of a decimal digit.
pub open spec fn digit_char(d: nat) -> char {
    (48 + d) as char
}

/// The decimal digits of a number, most significant first.
pub open spec fn decimal(n: nat) -> Seq<char>
    decreases n,
{
    if n < 10 {
        seq![digit_char(n)]
    } else {
        decimal(n / 10).push(digit_char(n % 10))
    }
}

/// The decimal form of an integer, with a leading minus where it is negative.
pub open spec fn decimal_int(i: int) -> Seq<char> {
    if i < 0 {
        seq!['-'] + decimal((-i) as nat)
    } else {
        decimal(i as nat)
    }
}

/// The first `n` items of a list, separated by a comma and a space.
pub open spec fn joined(items: Seq<usize>, n: nat) -> Seq<char>
    recommends
        n <= items.len(),
    decreases n,
{
    if n == 0 {
        seq![]
    } else if n == 1 {
        decimal(items[0] as nat)
    } else {
        joined(items, (n - 1) as nat) + seq![',', ' '] + decimal(items[n - 1] as nat)
    }
}

/// A list of numbers in brackets.
pub open spec fn listing(items: Seq<usize>) -> Seq<char> {
    seq!['['] + joined(items, items.len()) + seq![']']
}

/// The text `part` written `n` times in a row.
pub open spec fn repeated(part: Seq<char>, n: nat) -> Seq<char>
    decreases n,
{
    if n == 0 {
        seq![]
    } else {
        repeated(part, (n - 1) as nat) + part
    }
}

fn digit_str(d: u64) -> (r: &'static str)
    requires
        d < 10,
    ensures
        r@ == seq![digit_char(d as nat)],
{
    proof {
        reveal_strlit("0");
        reveal_strlit("1");
        reveal_strlit("2");
        reveal_strlit("3");
        reveal_strlit("4");
        reveal_strlit("5");
        reveal_strlit("6");
        reveal_strlit("7");
        reveal_strlit("8");
        reveal_strlit("9");
    }
    let r = match d {
        0 => "0",
        1 => "1",
        2 => "2",
        3 => "3",
        4 => "4",
        5 => "5",
        6 => "6",
        7 => "7",
        8 => "8",
        _ => "9",
    };
    assert(r@ =~= seq![digit_char(d as nat)]);
    r
}

/// Appends the decimal form of `n`.
pub fn push_decimal(out: &mut String, n: u64)
    ensures
        final(out)@ == old(out)@ + decimal(n as nat),
    decreases n,
{
    if n >= 10 {
        push_decimal(out, n / 10);
    }
    out.append(digit_str(n % 10));
    assert(out@ =~= old(out)@ + decimal(n as nat));
}

/// Appends the decimal form of an index.
pub fn push_index(out: &mut String, n: usize)
    ensures
        final(out)@ == old(out)@ + decimal(n as nat),
{
    push_decimal(out, n as u64);
}

/// Appends the decimal form of a signed number.
pub fn push_signed(out: &mut String, i: i32)
    ensures
        final(out)@ == old(out)@ + decimal_int(i as int),
{
    if i < 0 {
        proof {
            reveal_strlit("-");
        }
        out.append("-");
        push_decimal(out, (-(i as i64)) as u64);
        assert("-"@ =~= seq!['-']);
        assert(out@ =~= old(out)@ + decimal_int(i as int));
    } else {
        push_decimal(out, i as u64);
    }
}

/// Appends a list of numbers in brackets.
pub fn push_listing(out: &mut String, items: &Vec<usize>)
    ensures
        final(out)@ == old(out)@ + listing(items@),
{
    proof {
        reveal_strlit("[");
        reveal_strlit("]");
        reveal_strlit(", ");
    }
    assert("["@ =~= seq!['[']);
    assert("]"@ =~= seq![']']);
    assert(", "@ =~= seq![',', ' ']);
    out.append("[");
    let mut i: usize = 0;
    while i < items.len()
        invariant
            i <= items@.len(),
            out@ =~= old(out)@ + seq!['['] + joined(items@, i as nat),
            ", "@ =~= seq![',', ' '],
        decreases items@.len() - i,
    {
        if i > 0 {
            out.append(", ");
        }
        push_index(out, items[i]);
        i += 1;
    }
    out.append("]");
    assert(out@ =~= old(out)@ + listing(items@));
}

/// Appends the text `part` `n` times.
pub fn push_repeated(out: &mut String, part: &str, n: usize)
    ensures
        final(out)@ == old(out)@ + repeated(part@, n as nat),
{
    let mut i: usize = 0;
    while i < n
        invariant
            i <= n,
            out@ =~= old(out)@ + repeated(part@, i as nat),
        decreases n - i,
    {
        out.append(part);
        i += 1;
    }
}

} // verus!
