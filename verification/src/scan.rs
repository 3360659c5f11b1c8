//! Searching and comparing byte strings.

use vstd::prelude::*;

verus! {

/// The least index at which `bytes` holds `byte`; the length of `bytes`
/// where it holds it nowhere.
pub open spec fn first_index(bytes: Seq<u8>, byte: u8) -> int
    decreases bytes.len(),
{
    if bytes.len() == 0 || bytes[0] == byte {
        0
    } else {
        1 + first_index(bytes.drop_first(), byte)
    }
}

/// `first_index` lies within `0..=len`, points at `byte` unless it is the
/// length, and nothing before it is `byte`.
pub proof fn lemma_first_index(bytes: Seq<u8>, byte: u8)
    ensures
        0 <= first_index(bytes, byte) <= bytes.len(),
        first_index(bytes, byte) < bytes.len() ==> bytes[first_index(bytes, byte)] == byte,
        forall|j: int| 0 <= j < first_index(bytes, byte) ==> bytes[j] != byte,
    decreases bytes.len(),
{
    if bytes.len() == 0 || bytes[0] == byte {
    } else {
        let rest = bytes.drop_first();
        lemma_first_index(rest, byte);
        assert forall|j: int| 0 <= j < first_index(bytes, byte) implies bytes[j] != byte by {
            if j > 0 {
                assert(bytes[j] == rest[j - 1]);
            }
        }
    }
}

/// An index that holds `byte` (or is the length) with nothing equal to
/// `byte` before it is `first_index`.
pub proof fn lemma_first_index_is(bytes: Seq<u8>, byte: u8, at: int)
    requires
        0 <= at <= bytes.len(),
        at < bytes.len() ==> bytes[at] == byte,
        forall|j: int| 0 <= j < at ==> bytes[j] != byte,
    ensures
        first_index(bytes, byte) == at,
{
    lemma_first_index(bytes, byte);
    let found = first_index(bytes, byte);
    if found < at {
        assert(bytes[found] != byte);
    }
}

/// The first position at or after `start` that holds `byte`, counted from
/// `start`; the rest's length where there is none.
pub(crate) fn find_byte(bytes: &[u8], start: usize, byte: u8) -> (offset: usize)
    requires
        start <= bytes@.len(),
    ensures
        offset == first_index(bytes@.skip(start as int), byte),
        start + offset <= bytes@.len(),
{
    let mut at: usize = start;
    while at < bytes.len() && bytes[at] != byte
        invariant
            start <= at <= bytes@.len(),
            forall|j: int| start <= j < at ==> bytes@[j] != byte,
        decreases bytes@.len() - at,
    {
        at += 1;
    }
    proof {
        lemma_first_index_is(bytes@.skip(start as int), byte, at - start);
    }
    at - start
}

/// Whether two byte strings hold the same bytes.
pub(crate) fn bytes_equal(a: &[u8], b: &[u8]) -> (same: bool)
    ensures
        same == (a@ == b@),
{
    if a.len() != b.len() {
        return false;
    }
    let mut i: usize = 0;
    while i < a.len()
        invariant
            i <= a@.len(),
            a@.len() == b@.len(),
            forall|j: int| 0 <= j < i ==> a@[j] == b@[j],
        decreases a@.len() - i,
    {
        if a[i] != b[i] {
            return false;
        }
        i += 1;
    }
    assert(a@ =~= b@);
    true
}

} // verus!
