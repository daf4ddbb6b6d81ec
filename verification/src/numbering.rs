//! The canonical tokens by number, as nodes of the successor forest, and their timestamps.

use vstd::prelude::*;

use crate::entry::{DfsEntry, Interval, SearchEntry, StateEntry};
use crate::forest;
use crate::lexicon;
use crate::merge;
use crate::successor;

verus! {

/// The number of the canonical token `t`.
pub open spec fn id_of(tokens: Seq<Seq<u8>>, t: Seq<u8>) -> int {
    choose|i: int| 0 <= i < lexicon::canon(tokens).len() && #[trigger] lexicon::token(tokens, i) == t
}

/// The number of the left component of token `i`.
pub open spec fn pre_id(tokens: Seq<Seq<u8>>, i: int) -> int {
    id_of(tokens, merge::pre(lexicon::rank_map(tokens), lexicon::token(tokens, i)))
}

/// The number of the right component of token `i`.
pub open spec fn suc_id(tokens: Seq<Seq<u8>>, i: int) -> int {
    id_of(tokens, merge::suc(lexicon::rank_map(tokens), lexicon::token(tokens, i)))
}

/// The parents in the successor forest; the single bytes are the roots.
pub open spec fn parents(tokens: Seq<Seq<u8>>) -> Seq<int> {
    Seq::new(
        lexicon::canon(tokens).len(),
        |i: int|
            if lexicon::token(tokens, i).len() < 2 {
                -1
            } else {
                suc_id(tokens, i)
            },
    )
}

/// The place of token `i` in the preorder of the successor forest.
pub open spec fn timestamp(tokens: Seq<Seq<u8>>, i: int) -> int {
    forest::pos(parents(tokens), i)
}

/// The first timestamp behind the subtree of token `i`.
pub open spec fn exit_time(tokens: Seq<Seq<u8>>, i: int) -> int {
    forest::pos(parents(tokens), i) + forest::size(parents(tokens), i)
}

/// The timestamps of the last tokens that token `i` may follow.
pub open spec fn valid_of(tokens: Seq<Seq<u8>>, i: int) -> Interval {
    if lexicon::token(tokens, i).len() < 2 {
        Interval { start: 0, end: 0 }
    } else {
        let p = pre_id(tokens, i);
        Interval {
            start: timestamp(tokens, p) as u32,
            end: (timestamp(tokens, p) + 1 + forest::after(parents(tokens), p, i)) as u32,
        }
    }
}

/// The length of the right component of token `i`, or 0 for a single byte.
pub open spec fn suc_len_of(tokens: Seq<Seq<u8>>, i: int) -> int {
    if lexicon::token(tokens, i).len() < 2 {
        0
    } else {
        merge::suc(lexicon::rank_map(tokens), lexicon::token(tokens, i)).len() as int
    }
}

/// What the test for token `i` reads.
pub open spec fn search_of(tokens: Seq<Seq<u8>>, i: int) -> SearchEntry {
    SearchEntry {
        valid: valid_of(tokens, i),
        len: lexicon::token(tokens, i).len() as u16,
        suc_len: suc_len_of(tokens, i) as u16,
    }
}

/// What the automaton reports of token `i`.
pub open spec fn entry_of(tokens: Seq<Seq<u8>>, i: int) -> StateEntry {
    StateEntry {
        valid: valid_of(tokens, i),
        dfs_in_tau: timestamp(tokens, i) as u32,
        len: lexicon::token(tokens, i).len() as u16,
        suc_len: suc_len_of(tokens, i) as u16,
    }
}

/// Rank and length of token `i`.
pub open spec fn dfs_entry_of(tokens: Seq<Seq<u8>>, i: int) -> DfsEntry {
    DfsEntry {
        rank: lexicon::canon(tokens)[i] as u32,
        len: lexicon::token(tokens, i).len() as u16,
    }
}

/// The number of a canonical token is well defined.
pub proof fn lemma_id(tokens: Seq<Seq<u8>>, t: Seq<u8>)
    requires
        tokens.no_duplicates(),
        tokens.len() <= u32::MAX,
        lexicon::all_bytes(tokens),
        merge::canonical(lexicon::rank_map(tokens), t),
    ensures
        0 <= id_of(tokens, t) < lexicon::canon(tokens).len(),
        lexicon::token(tokens, id_of(tokens, t)) == t,
{
    let i = lexicon::lemma_token_of(tokens, t);
    assert(0 <= i < lexicon::canon(tokens).len() && lexicon::token(tokens, i) == t);
}

/// Numbers follow ranks.
pub proof fn lemma_rank_order(tokens: Seq<Seq<u8>>, i: int, j: int)
    requires
        tokens.no_duplicates(),
        tokens.len() <= u32::MAX,
        0 <= i < lexicon::canon(tokens).len(),
        0 <= j < lexicon::canon(tokens).len(),
    ensures
        i < j <==> lexicon::rank_map(tokens)[lexicon::token(tokens, i)] < lexicon::rank_map(
            tokens,
        )[lexicon::token(tokens, j)],
{
    lexicon::lemma_canon(tokens);
    let a = lexicon::token(tokens, i);
    let b = lexicon::token(tokens, j);
    assert(lexicon::rank_map(tokens)[a] == lexicon::canon(tokens)[i]);
    assert(lexicon::rank_map(tokens)[b] == lexicon::canon(tokens)[j]);
}

/// The components of a canonical token of an accepted list come before it.
pub proof fn lemma_components(tokens: Seq<Seq<u8>>, i: int)
    requires
        lexicon::vocab_error(tokens) is None,
        0 <= i < lexicon::canon(tokens).len(),
        lexicon::token(tokens, i).len() >= 2,
    ensures
        ({
            let ranks = lexicon::rank_map(tokens);
            let t = lexicon::token(tokens, i);
            &&& 0 <= pre_id(tokens, i) < i
            &&& 0 <= suc_id(tokens, i) < i
            &&& lexicon::token(tokens, pre_id(tokens, i)) == merge::pre(ranks, t)
            &&& lexicon::token(tokens, suc_id(tokens, i)) == merge::suc(ranks, t)
            &&& t == merge::pre(ranks, t) + merge::suc(ranks, t)
            &&& 0 < merge::suc(ranks, t).len() < t.len()
            &&& 0 < merge::pre(ranks, t).len() < t.len()
        }),
{
    let ranks = lexicon::rank_map(tokens);
    let t = lexicon::token(tokens, i);
    lexicon::lemma_accepted(tokens);
    lexicon::lemma_canon(tokens);
    merge::lemma_canonical_split(ranks, t);
    lemma_id(tokens, merge::pre(ranks, t));
    lemma_id(tokens, merge::suc(ranks, t));
    assert(merge::canonical(ranks, t));
    lemma_rank_order(tokens, pre_id(tokens, i), i);
    lemma_rank_order(tokens, suc_id(tokens, i), i);
}

/// The successor relation is a forest.
pub proof fn lemma_forest(tokens: Seq<Seq<u8>>)
    requires
        lexicon::vocab_error(tokens) is None,
    ensures
        forest::forest(parents(tokens)),
        parents(tokens).len() == lexicon::canon(tokens).len(),
        lexicon::canon(tokens).len() <= u32::MAX,
{
    lexicon::lemma_accepted(tokens);
    lexicon::lemma_canon(tokens);
    let par = parents(tokens);
    assert forall|u: int| 0 <= u < par.len() implies -1 <= #[trigger] par[u] < u by {
        if lexicon::token(tokens, u).len() >= 2 {
            lemma_components(tokens, u);
        }
    }
}

/// The relation between numbers is the relation between tokens.
pub proof fn lemma_below(tokens: Seq<Seq<u8>>, x: int, u: int)
    requires
        lexicon::vocab_error(tokens) is None,
        0 <= x < lexicon::canon(tokens).len(),
        0 <= u < lexicon::canon(tokens).len(),
    ensures
        forest::below(parents(tokens), x, u) <==> successor::in_subtree(
            lexicon::rank_map(tokens),
            lexicon::token(tokens, x),
            lexicon::token(tokens, u),
        ),
        forest::below(parents(tokens), x, u) && x != u ==> lexicon::token(
            tokens,
            forest::toward(parents(tokens), u, x),
        ) == successor::branch(
            lexicon::rank_map(tokens),
            lexicon::token(tokens, u),
            lexicon::token(tokens, x),
        ),
    decreases x,
{
    lexicon::lemma_accepted(tokens);
    lexicon::lemma_canon(tokens);
    let par = parents(tokens);
    if x != u {
        assert(lexicon::token(tokens, x) != lexicon::token(tokens, u));
        if lexicon::token(tokens, x).len() >= 2 {
            lemma_components(tokens, x);
            assert(par[x] == suc_id(tokens, x));
            lemma_below(tokens, par[x], u);
        }
    }
}

/// The interval of a token holds the timestamps of exactly those last tokens that it may follow.
pub proof fn lemma_follows(tokens: Seq<Seq<u8>>, h: int, t: int)
    requires
        lexicon::vocab_error(tokens) is None,
        0 <= h < lexicon::canon(tokens).len(),
        0 <= t < lexicon::canon(tokens).len(),
        lexicon::token(tokens, t).len() >= 2,
    ensures
        valid_of(tokens, t).holds(timestamp(tokens, h) as u32) <==> successor::follows(
            lexicon::rank_map(tokens),
            lexicon::token(tokens, h),
            lexicon::token(tokens, t),
        ),
        valid_of(tokens, t).start <= valid_of(tokens, t).end <= lexicon::canon(tokens).len(),
{
    lexicon::lemma_accepted(tokens);
    lexicon::lemma_canon(tokens);
    lemma_forest(tokens);
    lemma_components(tokens, t);
    let par = parents(tokens);
    let p = pre_id(tokens, t);
    lemma_below(tokens, h, p);
    forest::lemma_cut(par, h, p, t);
    forest::lemma_pos_bound(par, h);
    forest::lemma_pos_bound(par, p);
    forest::lemma_after_mono(par, p, p, t);
    if forest::below(par, h, p) && h != p {
        forest::lemma_toward(par, p, h);
        lemma_rank_order(tokens, t, forest::toward(par, p, h));
    }
    lemma_same_token(tokens, h, p);
}

/// Numbers and tokens correspond.
pub proof fn lemma_same_token(tokens: Seq<Seq<u8>>, i: int, j: int)
    requires
        tokens.no_duplicates(),
        tokens.len() <= u32::MAX,
        0 <= i < lexicon::canon(tokens).len(),
        0 <= j < lexicon::canon(tokens).len(),
    ensures
        i == j <==> lexicon::token(tokens, i) == lexicon::token(tokens, j),
{
    lexicon::lemma_canon(tokens);
}

/// Timestamps are distinct and below the number of canonical tokens.
pub proof fn lemma_timestamp(tokens: Seq<Seq<u8>>)
    requires
        lexicon::vocab_error(tokens) is None,
    ensures
        forall|i: int|
            0 <= i < lexicon::canon(tokens).len() ==> 0 <= #[trigger] timestamp(tokens, i)
                < lexicon::canon(tokens).len(),
        forall|i: int, j: int|
            #![trigger timestamp(tokens, i), timestamp(tokens, j)]
            0 <= i < lexicon::canon(tokens).len() && 0 <= j < lexicon::canon(tokens).len()
                && timestamp(tokens, i) == timestamp(tokens, j) ==> i == j,
        lexicon::canon(tokens).len() <= u32::MAX,
{
    lemma_forest(tokens);
    assert forall|i: int| 0 <= i < lexicon::canon(tokens).len() implies 0 <= #[trigger] timestamp(
        tokens,
        i,
    ) < lexicon::canon(tokens).len() by {
        forest::lemma_pos_bound(parents(tokens), i);
    }
    assert forall|i: int, j: int|
        #![trigger timestamp(tokens, i), timestamp(tokens, j)]
        0 <= i < lexicon::canon(tokens).len() && 0 <= j < lexicon::canon(tokens).len() && timestamp(
            tokens,
            i,
        ) == timestamp(tokens, j) implies i == j by {
        forest::lemma_pos_distinct(parents(tokens), i, j);
    }
}

/// Every number below the number of canonical tokens is the timestamp of some token.
pub proof fn lemma_timestamp_onto(tokens: Seq<Seq<u8>>, n: int) -> (i: int)
    requires
        lexicon::vocab_error(tokens) is None,
        0 <= n < lexicon::canon(tokens).len(),
    ensures
        0 <= i < lexicon::canon(tokens).len(),
        timestamp(tokens, i) == n,
{
    let k = lexicon::canon(tokens).len() as int;
    lemma_timestamp(tokens);
    let range = vstd::set_lib::set_int_range(0, k);
    vstd::set_lib::lemma_int_range(0, k);
    let f = |i: int| timestamp(tokens, i);
    let image = range.map(f);
    assert forall|m: int| image.contains(m) implies range.contains(m) by {
        let i = choose|i: int| range.contains(i) && m == f(i);
        assert(0 <= timestamp(tokens, i) < k);
    }
    range.lemma_map_finite(f);
    assert forall|x: int, y: int|
        range.contains(x) && range.contains(y) && #[trigger] f(x) == #[trigger] f(y) implies x
        == y by {
        assert(timestamp(tokens, x) == timestamp(tokens, y));
    }
    vstd::set_lib::lemma_map_size(range, image, f);
    vstd::set_lib::lemma_subset_equality(image, range);
    assert(range.contains(n));
    choose|i: int| range.contains(i) && n == f(i)
}

} // verus!
