//! Words as bytes.

use vstd::prelude::*;

verus! {

/// The number that four bytes stand for, the least significant of them first or last.
pub open spec fn word(bytes: Seq<u8>, at: int, little: bool) -> int {
    if little {
        bytes[at] + 0x100 * bytes[at + 1] + 0x1_0000 * bytes[at + 2] + 0x100_0000 * bytes[at + 3]
    } else {
        bytes[at + 3] + 0x100 * bytes[at + 2] + 0x1_0000 * bytes[at + 1] + 0x100_0000 * bytes[at]
    }
}

/// Whether bytes are those of words, four for each.
pub open spec fn is_bytes(bytes: Seq<u8>, words: Seq<u32>, little: bool) -> bool {
    &&& bytes.len() == 4 * words.len()
    &&& forall|i: int| 0 <= i < words.len() ==> #[trigger] words[i] == word(bytes, 4 * i, little)
}

/// The bytes of words, by `briny::raw::cast::slice_to_bytes`, which points at the same memory.
///
/// The bytes of every word are in the same order, which is that of the machine. Which order that
/// is, is left open.
#[verifier::external_body]
pub(crate) fn slice_to_bytes(slice: &[u32]) -> (r: &[u8])
    ensures
        is_bytes(r@, slice@, true) || is_bytes(r@, slice@, false),
{
    briny::raw::cast::slice_to_bytes(slice)
}

/// The bytes of words, by `briny::raw::cast::slice_to_bytes_mut`, which points at the same memory:
/// what is written to the bytes is written to the words.
///
/// The bytes of every word are in the same order, which is that of the machine. Which order that
/// is, is left open.
#[verifier::external_body]
pub(crate) fn slice_to_bytes_mut(slice: &mut [u32]) -> (r: &mut [u8])
    ensures
        final(slice)@.len() == old(slice)@.len(),
        exists|little: bool| #[trigger]
            is_bytes(r@, old(slice)@, little) && #[trigger] is_bytes(
                final(r)@,
                final(slice)@,
                little,
            ),
{
    briny::raw::cast::slice_to_bytes_mut(slice)
}

} // verus!
