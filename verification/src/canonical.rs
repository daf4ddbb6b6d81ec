//! Which vocabulary entries are canonical, and where their last merge splits them.

use vstd::prelude::*;
use vstd::slice::slice_subrange;

use crate::error::{Error, Result};
use crate::lexicon;
use crate::maps::BytesMap;
use crate::merge;
use crate::merge::Ranks;
use crate::utils;

verus! {

/// Whether every rank leaves room for the value that stands for "no such entry".
pub open spec fn below_max(ranks: Ranks) -> bool {
    forall|b: Seq<u8>| #[trigger] ranks.contains_key(b) ==> ranks[b] < u32::MAX
}

/// The rank of a byte string, or `u32::MAX` when it is no entry.
pub open spec fn rank_or_max(ranks: Ranks, b: Seq<u8>) -> u32 {
    if ranks.contains_key(b) {
        ranks[b]
    } else {
        u32::MAX
    }
}

fn lookup(ranks: &BytesMap, bytes: &[u8]) -> (r: u32)
    ensures
        r == rank_or_max(ranks@, bytes@),
{
    match ranks.get(bytes) {
        Some(rank) => rank,
        None => u32::MAX,
    }
}

/// Returns the next merge to apply as `(priority, left symbol)`: the first of the smallest
/// priorities. The last element forms no pair and is left out of the scan.
fn next_merge(parts: &[(usize, u32)]) -> (r: (u32, usize))
    requires
        parts@.len() >= 1,
    ensures
        parts@.len() == 1 ==> r == (u32::MAX, usize::MAX),
        parts@.len() > 1 ==> {
            &&& r.1 < parts@.len() - 1
            &&& r.0 == parts@[r.1 as int].1
            &&& forall|j: int| 0 <= j < parts@.len() - 1 ==> r.0 <= (#[trigger] parts@[j]).1
            &&& forall|j: int| 0 <= j < r.1 ==> r.0 < (#[trigger] parts@[j]).1
        },
{
    let n: usize = parts.len() - 1;
    if n == 0 {
        return (u32::MAX, usize::MAX);
    }
    let mut best: usize = 0;
    let mut i: usize = 1;
    while i < n
        invariant
            parts@.len() == n + 1,
            1 <= i <= n,
            best < i,
            forall|j: int| 0 <= j < i ==> parts@[best as int].1 <= (#[trigger] parts@[j]).1,
            forall|j: int| 0 <= j < best ==> parts@[best as int].1 < (#[trigger] parts@[j]).1,
        decreases n - i,
    {
        if parts[i].1 < parts[best].1 {
            best = i;
        }
        i += 1;
    }
    (parts[best].1, best)
}

/// Returns the priority of the pair starting at `i` *after* `parts[i + 1]` is removed.
///
/// Removing it shifts the far end one position to the left, so in the current array that pair spans
/// `parts[i]..parts[i + 3]`.
fn pair_rank(piece: &[u8], ranks: &BytesMap, parts: &[(usize, u32)], i: usize) -> (r: u32)
    requires
        i < parts@.len(),
        i + 3 < parts@.len() ==> parts@[i as int].0 <= parts@[i + 3].0 <= piece@.len(),
    ensures
        r == if i + 3 < parts@.len() {
            rank_or_max(ranks@, piece@.subrange(parts@[i as int].0 as int, parts@[i + 3].0 as int))
        } else {
            u32::MAX
        },
{
    if parts.len() - i > 3 {
        lookup(ranks, slice_subrange(piece, parts[i].0, parts[i + 3].0))
    } else {
        u32::MAX
    }
}

/// Whether `parts` holds the offsets and the pair priorities of the state `st` of `piece`.
spec fn represents(
    parts: Seq<(usize, u32)>,
    piece: Seq<u8>,
    ranks: Ranks,
    st: Seq<Seq<u8>>,
) -> bool {
    &&& st.len() >= 1
    &&& parts.len() == st.len() + 1
    &&& parts[st.len() as int].0 == piece.len()
    &&& forall|i: int| 0 <= i < st.len() ==> #[trigger] part_ok(parts, piece, ranks, st, i)
}

spec fn part_ok(
    parts: Seq<(usize, u32)>,
    piece: Seq<u8>,
    ranks: Ranks,
    st: Seq<Seq<u8>>,
    i: int,
) -> bool {
    &&& parts[i].0 < parts[i + 1].0 <= piece.len()
    &&& st[i] == piece.subrange(parts[i].0 as int, parts[i + 1].0 as int)
    &&& parts[i].1 == if merge::mergeable(ranks, st, i) {
        merge::pair_priority(ranks, st, i)
    } else {
        u32::MAX
    }
}

proof fn lemma_subrange_join(s: Seq<u8>, a: int, b: int, c: int)
    requires
        0 <= a <= b <= c <= s.len(),
    ensures
        s.subrange(a, b) + s.subrange(b, c) == s.subrange(a, c),
{
    assert(s.subrange(a, b) + s.subrange(b, c) =~= s.subrange(a, c));
}

/// Returns the split position of the canonical rule of an entry of two or more bytes, or `None` if
/// the entry is not canonical.
///
/// This runs standard merging over the entry's own byte string and returns the split position of
/// the *last* merge applied, so `Some(mid)` means `pre(t) = t[..mid]` and `suc(t) = t[mid..]`.
///
/// Rescanning for the minimum makes this quadratic in the length, but it runs once per entry at
/// construction time.
pub(crate) fn split_canonical(piece: &[u8], ranks: &BytesMap) -> (r: Option<usize>)
    requires
        piece@.len() >= 2,
        below_max(ranks@),
    ensures
        r is Some <==> merge::canonical(ranks@, piece@),
        r matches Some(mid) ==> mid == merge::pre(ranks@, piece@).len() && 0 < mid < piece@.len(),
{
    let n: usize = piece.len();
    // parts[i] = (byte offset of symbol i, priority of the pair (i, i + 1)). The last two have no
    // pair, so that the pair rank can be read in bounds even for the final symbol.
    let mut parts: Vec<(usize, u32)> = Vec::new();
    let ghost mut st: Seq<Seq<u8>> = merge::atoms(piece@);
    let mut i: usize = 0;
    while i < n - 1
        invariant
            n == piece@.len(),
            n >= 2,
            i <= n - 1,
            parts@.len() == i,
            st == merge::atoms(piece@),
            forall|j: int|
                0 <= j < i ==> #[trigger] parts@[j] == (
                    j as usize,
                    rank_or_max(ranks@, piece@.subrange(j, j + 2)),
                ),
        decreases n - i,
    {
        let rank: u32 = lookup(ranks, slice_subrange(piece, i, i + 2));
        parts.push((i, rank));
        i += 1;
    }
    parts.push((n - 1, u32::MAX));
    parts.push((n, u32::MAX));
    let mut last_mid: usize = usize::MAX;
    proof {
        assert forall|j: int| 0 <= j < st.len() implies #[trigger] part_ok(
            parts@,
            piece@,
            ranks@,
            st,
            j,
        ) by {
            assert(st[j] =~= piece@.subrange(j, j + 1));
            if j + 1 < n {
                assert(st[j + 1] =~= piece@.subrange(j + 1, j + 2));
                lemma_subrange_join(piece@, j, j + 1, j + 2);
            }
        }
        merge::lemma_flat_atoms(piece@);
        assert(merge::state(ranks@, merge::flat(st), 0) == st);
    }
    loop
        invariant
            n == piece@.len(),
            n >= 2,
            below_max(ranks@),
            merge::reached(ranks@, st),
            merge::flat(st) == piece@,
            represents(parts@, piece@, ranks@, st),
            st.len() == 1 ==> last_mid == merge::pre(ranks@, piece@).len() && 0 < last_mid < n,
        ensures
            !merge::has_next(ranks@, st),
        decreases st.len(),
    {
        let (rank, i) = next_merge(parts.as_slice());
        proof {
            assert(parts@.len() > 1);
            assert(part_ok(parts@, piece@, ranks@, st, i as int));
        }
        if rank == u32::MAX {
            proof {
                assert forall|j: int| !merge::mergeable(ranks@, st, j) by {
                    if merge::mergeable(ranks@, st, j) {
                        assert(part_ok(parts@, piece@, ranks@, st, j));
                        assert(parts@[j].1 < u32::MAX);
                    }
                }
            }
            break;
        }
        let ghost old_parts = parts@;
        let ghost old_st = st;
        proof {
            assert(merge::mergeable(ranks@, st, i as int));
            assert(part_ok(parts@, piece@, ranks@, st, i + 1));
            if i > 0 {
                assert(part_ok(parts@, piece@, ranks@, st, i - 1));
            }
            if i + 2 < st.len() {
                assert(part_ok(parts@, piece@, ranks@, st, i + 2));
            }
        }
        assert(i + 2 < parts.len());
        last_mid = parts[i + 1].0;
        if i > 0 {
            let r: u32 = pair_rank(piece, ranks, parts.as_slice(), i - 1);
            let off: usize = parts[i - 1].0;
            parts.set(i - 1, (off, r));
        }
        let r: u32 = pair_rank(piece, ranks, parts.as_slice(), i);
        let off: usize = parts[i].0;
        parts.set(i, (off, r));
        parts.remove(i + 1);
        proof {
            let ii = i as int;
            assert(merge::is_next(ranks@, old_st, ii)) by {
                assert forall|j: int| #[trigger] merge::mergeable(
                    ranks@,
                    old_st,
                    j,
                ) implies merge::pair_priority(ranks@, old_st, ii) < merge::pair_priority(
                    ranks@,
                    old_st,
                    j,
                ) || (merge::pair_priority(ranks@, old_st, ii) == merge::pair_priority(
                    ranks@,
                    old_st,
                    j,
                ) && ii <= j) by {
                    assert(part_ok(old_parts, piece@, ranks@, old_st, j));
                }
            }
            merge::lemma_next(ranks@, old_st);
            st = merge::merge_at(old_st, ii);
            merge::lemma_merge_at(old_st, ii);
            merge::lemma_reached_step(ranks@, old_st);
            assert(st == merge::step(ranks@, old_st));
            lemma_merged(old_parts, parts@, piece@, ranks@, old_st, ii);
            if st.len() == 1 {
                assert(old_st =~= seq![old_st[0], old_st[1]]);
                merge::lemma_flat_two(old_st[0], old_st[1]);
                merge::lemma_reached_pair(ranks@, old_st[0], old_st[1]);
                assert(part_ok(old_parts, piece@, ranks@, old_st, 1));
                assert(old_parts[0].0 == 0) by {
                    assert(part_ok(old_parts, piece@, ranks@, old_st, 0));
                }
            }
        }
    }
    proof {
        merge::lemma_reached_final(ranks@, st);
        if st.len() == 1 {
            assert(st =~= seq![st[0]]);
            merge::lemma_flat_one(st[0]);
            assert(st =~= seq![piece@]);
        }
    }
    // Only one symbol plus the end remains, i.e. the whole string merged into a single token.
    if parts.len() == 2 {
        Some(last_mid)
    } else {
        None
    }
}

/// The array after a merge represents the merged state.
proof fn lemma_merged(
    old_parts: Seq<(usize, u32)>,
    parts: Seq<(usize, u32)>,
    piece: Seq<u8>,
    ranks: Ranks,
    st: Seq<Seq<u8>>,
    i: int,
)
    requires
        represents(old_parts, piece, ranks, st),
        0 <= i < st.len() - 1,
        parts.len() == old_parts.len() - 1,
        forall|j: int| 0 <= j < i - 1 ==> parts[j] == old_parts[j],
        forall|j: int| i < j < parts.len() ==> parts[j] == old_parts[j + 1],
        i > 0 ==> parts[i - 1] == (
            old_parts[i - 1].0,
            rank_or_max(ranks, piece.subrange(old_parts[i - 1].0 as int, old_parts[i + 2].0 as int)),
        ),
        parts[i].0 == old_parts[i].0,
        parts[i].1 == if i + 3 < old_parts.len() {
            rank_or_max(ranks, piece.subrange(old_parts[i].0 as int, old_parts[i + 3].0 as int))
        } else {
            u32::MAX
        },
    ensures
        represents(parts, piece, ranks, merge::merge_at(st, i)),
{
    let o = merge::merge_at(st, i);
    assert(part_ok(old_parts, piece, ranks, st, i));
    assert(part_ok(old_parts, piece, ranks, st, i + 1));
    lemma_subrange_join(
        piece,
        old_parts[i].0 as int,
        old_parts[i + 1].0 as int,
        old_parts[i + 2].0 as int,
    );
    assert forall|j: int| 0 <= j < o.len() implies #[trigger] part_ok(parts, piece, ranks, o, j) by {
        if j < i {
            assert(part_ok(old_parts, piece, ranks, st, j));
            if j == i - 1 {
                lemma_subrange_join(
                    piece,
                    old_parts[j].0 as int,
                    old_parts[i].0 as int,
                    old_parts[i + 2].0 as int,
                );
            }
        } else if j == i {
            if i + 2 < st.len() {
                assert(part_ok(old_parts, piece, ranks, st, i + 2));
                lemma_subrange_join(
                    piece,
                    old_parts[i].0 as int,
                    old_parts[i + 2].0 as int,
                    old_parts[i + 3].0 as int,
                );
            }
        } else {
            assert(part_ok(old_parts, piece, ranks, st, j + 1));
        }
    }
}

/// One element of the normalized vocabulary.
#[derive(Clone, Copy)]
pub(crate) struct CanonicalEntry<'a> {
    /// Byte string of the token.
    pub bytes: &'a [u8],
    /// The rank, i.e. the position in the token list.
    pub rank: u32,
    /// Split position of the canonical rule, `None` exactly for single bytes.
    pub mid: Option<usize>,
}

/// Whether `entry` describes the canonical token number `i`.
pub(crate) open spec fn describes(tokens: Seq<Seq<u8>>, i: int, entry: CanonicalEntry) -> bool {
    let t = lexicon::token(tokens, i);
    &&& entry.bytes@ == t
    &&& entry.rank == lexicon::canon(tokens)[i]
    &&& match entry.mid {
        None => t.len() == 1,
        Some(mid) => t.len() >= 2 && 0 < mid < t.len() && mid == merge::pre(
            lexicon::rank_map(tokens),
            t,
        ).len(),
    }
}

/// Normalizes the vocabulary, returning only the canonical entries with their split positions.
///
/// The list is in ascending rank order, so the result is too, which makes the internal ids follow
/// priority order.
pub(crate) fn filter_canonical<'a>(tokens: &'a [Vec<u8>], ranks: &BytesMap) -> (r: Result<
    Vec<CanonicalEntry<'a>>,
>)
    requires
        tokens@.len() <= u32::MAX,
        utils::texts(tokens@).no_duplicates(),
        ranks@ == lexicon::rank_map(utils::texts(tokens@)),
    ensures
        match r {
            Err(e) => lexicon::empty_error(utils::texts(tokens@)) == Some(e@),
            Ok(entries) => {
                &&& lexicon::empty_error(utils::texts(tokens@)) is None
                &&& entries@.len() == lexicon::canon(utils::texts(tokens@)).len()
                &&& forall|i: int|
                    0 <= i < entries@.len() ==> describes(
                        utils::texts(tokens@),
                        i,
                        #[trigger] entries@[i],
                    )
            },
        },
{
    let ghost list = utils::texts(tokens@);
    proof {
        lexicon::lemma_rank_map(list);
    }
    let mut entries: Vec<CanonicalEntry<'a>> = Vec::new();
    let mut p: usize = 0;
    while p < tokens.len()
        invariant
            list == utils::texts(tokens@),
            list.len() <= u32::MAX,
            list.no_duplicates(),
            ranks@ == lexicon::rank_map(list),
            below_max(ranks@),
            p <= tokens@.len(),
            forall|q: int| 0 <= q < p ==> #[trigger] list[q].len() > 0,
            entries@.len() == lexicon::canon_upto(list, p as int).len(),
            forall|i: int|
                0 <= i < entries@.len() ==> {
                    let entry = #[trigger] entries@[i];
                    let t = list[lexicon::canon_upto(list, p as int)[i]];
                    &&& entry.bytes@ == t
                    &&& entry.rank == lexicon::canon_upto(list, p as int)[i]
                    &&& match entry.mid {
                        None => t.len() == 1,
                        Some(mid) => t.len() >= 2 && 0 < mid < t.len() && mid == merge::pre(
                            ranks@,
                            t,
                        ).len(),
                    }
                },
        decreases tokens.len() - p,
    {
        let bytes: &'a [u8] = tokens[p].as_slice();
        assert(list[p as int] == bytes@);
        if bytes.len() == 0 {
            assert(list[p as int].len() == 0);
            return Err(Error::EmptyToken);
        } else if bytes.len() == 1 {
            proof {
                merge::lemma_byte_canonical(ranks@, bytes@);
            }
            entries.push(CanonicalEntry { bytes, rank: p as u32, mid: None });
        } else {
            match split_canonical(bytes, ranks) {
                Some(mid) => {
                    entries.push(CanonicalEntry { bytes, rank: p as u32, mid: Some(mid) });
                },
                None => {},
            }
        }
        p += 1;
    }
    Ok(entries)
}

} // verus!
