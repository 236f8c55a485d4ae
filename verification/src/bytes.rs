//! Byte sequences: spans, comparison and the replacement of one span.

use vstd::prelude::*;
use vstd::slice::slice_subrange;
use vstd::slice::slice_to_vec;

verus! {

/// `text` with the bytes from `start` up to `end` replaced by `bytes`.
pub open spec fn spliced(text: Seq<u8>, start: int, end: int, bytes: Seq<u8>) -> Seq<u8> {
    text.subrange(0, start) + bytes + text.subrange(end, text.len() as int)
}

/// Copies the bytes of `text` from `start` up to `end`.
pub fn copy_span(text: &[u8], start: usize, end: usize) -> (out: Vec<u8>)
    requires
        start <= end <= text@.len(),
    ensures
        out@ == text@.subrange(start as int, end as int),
{
    slice_to_vec(slice_subrange(text, start, end))
}

/// Whether two byte strings hold the same bytes.
pub fn same_bytes(a: &[u8], b: &[u8]) -> (same: bool)
    ensures
        same == (a@ == b@),
{
    if a.len() != b.len() {
        return false;
    }
    let mut i: usize = 0;
    while i < a.len()
        invariant
            i <= a@.len(),
            a@.len() == b@.len(),
            forall|j: int| 0 <= j < i ==> a@[j] == b@[j],
        decreases a@.len() - i,
    {
        if a[i] != b[i] {
            return false;
        }
        i += 1;
    }
    assert(a@ =~= b@);
    true
}

} // verus!
