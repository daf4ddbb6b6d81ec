//! Conversions from `u32` table indices, and views of nested byte strings.

use vstd::prelude::*;

verus! {

/// A type that can be converted from a `u32` without narrowing.
pub trait FromU32: Sized {
    /// The value that a `u32` converts to.
    spec fn of_u32(src: u32) -> Self;

    /// Converts `src`.
    fn from_u32(src: u32) -> (r: Self)
        ensures
            r == Self::of_u32(src),
    ;
}

impl FromU32 for usize {
    open spec fn of_u32(src: u32) -> usize {
        src as usize
    }

    fn from_u32(src: u32) -> (r: usize) {
        src as usize
    }
}

/// The byte strings of a list.
pub open spec fn texts(list: Seq<Vec<u8>>) -> Seq<Seq<u8>> {
    list.map_values(|v: Vec<u8>| v@)
}

/// Copies a byte string.
pub(crate) fn copy_bytes(bytes: &[u8]) -> (r: Vec<u8>)
    ensures
        r@ == bytes@,
{
    let mut r: Vec<u8> = Vec::with_capacity(bytes.len());
    r.extend_from_slice(bytes);
    assert(r@ =~= bytes@);
    r
}

/// The lexicographic order of pairs.
pub open spec fn pair_le(a: (u64, u32), b: (u64, u32)) -> bool {
    a.0 < b.0 || (a.0 == b.0 && a.1 <= b.1)
}

/// Whether the pairs ascend.
pub open spec fn sorted_pairs(pairs: Seq<(u64, u32)>) -> bool {
    forall|i: int, j: int|
        0 <= i < j < pairs.len() ==> pair_le(#[trigger] pairs[i], #[trigger] pairs[j])
}

/// `slice::sort_unstable`: the same pairs, in ascending lexicographic order.
#[verifier::external_body]
pub(crate) fn sort_pairs(pairs: &mut Vec<(u64, u32)>)
    ensures
        sorted_pairs(final(pairs)@),
        final(pairs)@.to_multiset() == old(pairs)@.to_multiset(),
{
    pairs.sort_unstable()
}

/// Two lists with the same multiset of pairs hold the same pairs, equally often.
pub proof fn lemma_same_elements(a: Seq<(u64, u32)>, b: Seq<(u64, u32)>)
    requires
        a.to_multiset() == b.to_multiset(),
    ensures
        a.len() == b.len(),
        forall|x: (u64, u32)| a.contains(x) <==> b.contains(x),
        a.no_duplicates() <==> b.no_duplicates(),
{
    broadcast use vstd::seq_lib::group_to_multiset_ensures;

    assert(a.len() == a.to_multiset().len());
    assert(b.len() == b.to_multiset().len());
    assert forall|x: (u64, u32)| a.contains(x) <==> b.contains(x) by {
        assert(a.contains(x) <==> a.to_multiset().count(x) > 0);
        assert(b.contains(x) <==> b.to_multiset().count(x) > 0);
    }
    if a.no_duplicates() {
        a.lemma_multiset_has_no_duplicates();
        b.lemma_multiset_has_no_duplicates_conv();
    }
    if b.no_duplicates() {
        b.lemma_multiset_has_no_duplicates();
        a.lemma_multiset_has_no_duplicates_conv();
    }
}

} // verus!
