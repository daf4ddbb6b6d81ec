//! A vocabulary as a list of byte strings, and which lists are accepted.

use vstd::prelude::*;

use crate::canonical;
use crate::error::ErrorView;
use crate::merge;
use crate::merge::Ranks;

verus! {

/// The vocabulary that a token list stands for: a token's position is its rank.
pub open spec fn rank_map(tokens: Seq<Seq<u8>>) -> Ranks {
    Map::new(|b: Seq<u8>| tokens.contains(b), |b: Seq<u8>| tokens.index_of(b) as u32)
}

/// The positions of the canonical tokens among the first `n`, in ascending order.
pub open spec fn canon_upto(tokens: Seq<Seq<u8>>, n: int) -> Seq<int>
    decreases n,
{
    if n <= 0 {
        Seq::empty()
    } else if merge::canonical(rank_map(tokens), tokens[n - 1]) {
        canon_upto(tokens, n - 1).push(n - 1)
    } else {
        canon_upto(tokens, n - 1)
    }
}

/// The positions of the canonical tokens, in ascending order.
pub open spec fn canon(tokens: Seq<Seq<u8>>) -> Seq<int> {
    canon_upto(tokens, tokens.len() as int)
}

/// The canonical token number `i`.
pub open spec fn token(tokens: Seq<Seq<u8>>, i: int) -> Seq<u8> {
    tokens[canon(tokens)[i]]
}

/// The number of bytes of the first `n` canonical tokens.
pub open spec fn total_len(tokens: Seq<Seq<u8>>, n: int) -> nat
    decreases n,
{
    if n <= 0 {
        0
    } else {
        total_len(tokens, n - 1) + token(tokens, n - 1).len()
    }
}

/// Rejected: more tokens than a `u32` counts.
pub open spec fn size_error(tokens: Seq<Seq<u8>>) -> Option<ErrorView> {
    if tokens.len() > u32::MAX {
        Some(ErrorView::VocabTooLarge { what: "tokens"@, len: tokens.len() as int })
    } else {
        None
    }
}

/// Whether the token at `j` is the first one that occurred before.
pub open spec fn first_repeat(list: Seq<Seq<u8>>, j: int) -> bool {
    0 <= j < list.len() && list.take(j).no_duplicates() && list.take(j).contains(list[j])
}

/// Rejected: the same byte string twice.
pub open spec fn duplicate_error(tokens: Seq<Seq<u8>>) -> Option<ErrorView> {
    if tokens.no_duplicates() {
        None
    } else {
        let j = choose|j: int| first_repeat(tokens, j);
        Some(
            ErrorView::DuplicateToken {
                token: tokens[j],
                first: tokens.take(j).index_of(tokens[j]),
                second: j,
            },
        )
    }
}

/// Whether `b` is the smallest byte without a token.
pub open spec fn first_missing(tokens: Seq<Seq<u8>>, b: u8) -> bool {
    !tokens.contains(seq![b]) && forall|c: u8| c < b ==> #[trigger] tokens.contains(seq![c])
}

/// Rejected: a byte without a token.
pub open spec fn byte_error(tokens: Seq<Seq<u8>>) -> Option<ErrorView> {
    if forall|b: u8| #[trigger] tokens.contains(seq![b]) {
        None
    } else {
        Some(ErrorView::MissingByteToken(choose|b: u8| first_missing(tokens, b)))
    }
}

/// Rejected: an empty token.
pub open spec fn empty_error(tokens: Seq<Seq<u8>>) -> Option<ErrorView> {
    if exists|i: int| 0 <= i < tokens.len() && #[trigger] tokens[i].len() == 0 {
        Some(ErrorView::EmptyToken)
    } else {
        None
    }
}

/// Whether both components of the last merge of `t` rank before `t`.
pub open spec fn proper_at(ranks: Ranks, t: Seq<u8>) -> bool {
    ranks[merge::pre(ranks, t)] < ranks[t] && ranks[merge::suc(ranks, t)] < ranks[t]
}

/// Rejected because of the canonical token number `i`: it is too long, the tokens up to it are too
/// long together, or it does not rank after its components.
pub open spec fn entry_error(tokens: Seq<Seq<u8>>, i: int) -> Option<ErrorView> {
    let ranks = rank_map(tokens);
    let t = token(tokens, i);
    if t.len() > u16::MAX {
        Some(ErrorView::TokenTooLong { token: t.take(32), len: t.len() as int })
    } else if total_len(tokens, i + 1) > u32::MAX {
        Some(
            ErrorView::VocabTooLarge {
                what: "vocabulary bytes"@,
                len: total_len(tokens, i + 1) as int,
            },
        )
    } else if t.len() >= 2 && !proper_at(ranks, t) {
        Some(
            ErrorView::NotProper {
                token: t,
                rank: canon(tokens)[i],
                pre: merge::pre(ranks, t),
                pre_rank: ranks[merge::pre(ranks, t)] as int,
                suc: merge::suc(ranks, t),
                suc_rank: ranks[merge::suc(ranks, t)] as int,
            },
        )
    } else {
        None
    }
}

/// The first rejection among the canonical tokens from number `i` on.
pub open spec fn table_error(tokens: Seq<Seq<u8>>, i: int) -> Option<ErrorView>
    decreases canon(tokens).len() - i,
{
    if i >= canon(tokens).len() {
        None
    } else if entry_error(tokens, i) is Some {
        entry_error(tokens, i)
    } else {
        table_error(tokens, i + 1)
    }
}

/// Why a token list is rejected, or `None` when it is accepted.
pub open spec fn vocab_error(tokens: Seq<Seq<u8>>) -> Option<ErrorView> {
    if size_error(tokens) is Some {
        size_error(tokens)
    } else if duplicate_error(tokens) is Some {
        duplicate_error(tokens)
    } else if byte_error(tokens) is Some {
        byte_error(tokens)
    } else if empty_error(tokens) is Some {
        empty_error(tokens)
    } else {
        table_error(tokens, 0)
    }
}

/// In a list without repeats the rank of a token is its position.
pub proof fn lemma_rank_map(tokens: Seq<Seq<u8>>)
    requires
        tokens.no_duplicates(),
        tokens.len() <= u32::MAX,
    ensures
        forall|i: int|
            0 <= i < tokens.len() ==> rank_map(tokens).contains_key(#[trigger] tokens[i])
                && rank_map(tokens)[tokens[i]] == i,
        forall|b: Seq<u8>| #[trigger]
            rank_map(tokens).contains_key(b) ==> rank_map(tokens)[b] < tokens.len()
                && tokens[rank_map(tokens)[b] as int] == b,
        merge::distinct_ranks(rank_map(tokens)),
        canonical::below_max(rank_map(tokens)),
{
    let ranks = rank_map(tokens);
    assert forall|i: int| 0 <= i < tokens.len() implies ranks.contains_key(#[trigger] tokens[i])
        && ranks[tokens[i]] == i by {
        let b = tokens[i];
        assert(tokens.contains(b));
        let j = tokens.index_of(b);
        assert(0 <= j < tokens.len() && tokens[j] == b);
    }
    assert forall|b: Seq<u8>| #[trigger] ranks.contains_key(b) implies ranks[b] < tokens.len()
        && tokens[ranks[b] as int] == b by {
        let i = choose|i: int| 0 <= i < tokens.len() && tokens[i] == b;
        assert(ranks[tokens[i]] == i);
    }
}

/// A map that holds each token with its position, and nothing else, is the vocabulary.
pub proof fn lemma_is_rank_map(tokens: Seq<Seq<u8>>, m: Ranks)
    requires
        tokens.no_duplicates(),
        tokens.len() <= u32::MAX,
        forall|i: int|
            0 <= i < tokens.len() ==> m.contains_key(#[trigger] tokens[i]) && m[tokens[i]] == i,
        forall|b: Seq<u8>| #[trigger] m.contains_key(b) ==> tokens.contains(b),
    ensures
        m == rank_map(tokens),
{
    lemma_rank_map(tokens);
    let ranks = rank_map(tokens);
    assert forall|b: Seq<u8>| m.contains_key(b) == ranks.contains_key(b) by {
        if tokens.contains(b) {
            let i = choose|i: int| 0 <= i < tokens.len() && tokens[i] == b;
            assert(m.contains_key(tokens[i]));
        }
    }
    assert forall|b: Seq<u8>| m.contains_key(b) implies m[b] == ranks[b] by {
        let i = choose|i: int| 0 <= i < tokens.len() && tokens[i] == b;
        assert(m[tokens[i]] == i);
        assert(ranks[tokens[i]] == i);
    }
    assert(m =~= ranks);
}

/// The canonical positions are ascending, canonical and complete.
pub proof fn lemma_canon_upto(tokens: Seq<Seq<u8>>, n: int)
    requires
        0 <= n <= tokens.len(),
    ensures
        canon_upto(tokens, n).len() <= n,
        forall|i: int|
            0 <= i < canon_upto(tokens, n).len() ==> 0 <= #[trigger] canon_upto(tokens, n)[i] < n
                && merge::canonical(rank_map(tokens), tokens[canon_upto(tokens, n)[i]]),
        forall|i: int, j: int|
            0 <= i < j < canon_upto(tokens, n).len() ==> #[trigger] canon_upto(tokens, n)[i]
                < #[trigger] canon_upto(tokens, n)[j],
        forall|p: int|
            0 <= p < n && merge::canonical(rank_map(tokens), #[trigger] tokens[p]) ==> canon_upto(
                tokens,
                n,
            ).contains(p),
    decreases n,
{
    if n > 0 {
        lemma_canon_upto(tokens, n - 1);
        let before = canon_upto(tokens, n - 1);
        let now = canon_upto(tokens, n);
        assert forall|p: int| 0 <= p < n && merge::canonical(
            rank_map(tokens),
            #[trigger] tokens[p],
        ) implies now.contains(p) by {
            if p < n - 1 {
                let i = choose|i: int| 0 <= i < before.len() && before[i] == p;
                assert(now[i] == p);
            } else {
                assert(now[now.len() - 1] == p);
            }
        }
    }
}

/// The canonical tokens by number.
pub proof fn lemma_canon(tokens: Seq<Seq<u8>>)
    requires
        tokens.no_duplicates(),
        tokens.len() <= u32::MAX,
    ensures
        canon(tokens).len() <= tokens.len(),
        forall|i: int|
            #![trigger token(tokens, i)]
            0 <= i < canon(tokens).len() ==> {
                &&& 0 <= canon(tokens)[i] < tokens.len()
                &&& merge::canonical(rank_map(tokens), token(tokens, i))
                &&& token(tokens, i).len() > 0
                &&& rank_map(tokens).contains_key(token(tokens, i))
                &&& rank_map(tokens)[token(tokens, i)] == canon(tokens)[i]
            },
        forall|i: int, j: int|
            0 <= i < j < canon(tokens).len() ==> #[trigger] canon(tokens)[i] < #[trigger] canon(
                tokens,
            )[j],
        forall|i: int, j: int|
            #![trigger token(tokens, i), token(tokens, j)]
            0 <= i < canon(tokens).len() && 0 <= j < canon(tokens).len() && token(tokens, i)
                == token(tokens, j) ==> i == j,
{
    lemma_canon_upto(tokens, tokens.len() as int);
    lemma_rank_map(tokens);
    assert forall|i: int|
        #![trigger token(tokens, i)]
        0 <= i < canon(tokens).len() implies {
        &&& 0 <= canon(tokens)[i] < tokens.len()
        &&& merge::canonical(rank_map(tokens), token(tokens, i))
        &&& token(tokens, i).len() > 0
        &&& rank_map(tokens).contains_key(token(tokens, i))
        &&& rank_map(tokens)[token(tokens, i)] == canon(tokens)[i]
    } by {
        assert(tokens[canon(tokens)[i]] == token(tokens, i));
    }
    assert forall|i: int, j: int|
        #![trigger token(tokens, i), token(tokens, j)]
        0 <= i < canon(tokens).len() && 0 <= j < canon(tokens).len() && token(tokens, i) == token(
            tokens,
            j,
        ) implies i == j by {
        assert(canon(tokens)[i] == canon(tokens)[j]);
    }
}

/// Whether every byte has a token.
pub open spec fn all_bytes(tokens: Seq<Seq<u8>>) -> bool {
    forall|b: u8| #[trigger] tokens.contains(seq![b])
}

/// Every canonical byte string is the canonical token of some number.
pub proof fn lemma_token_of(tokens: Seq<Seq<u8>>, t: Seq<u8>) -> (i: int)
    requires
        tokens.no_duplicates(),
        tokens.len() <= u32::MAX,
        all_bytes(tokens),
        merge::canonical(rank_map(tokens), t),
    ensures
        0 <= i < canon(tokens).len(),
        token(tokens, i) == t,
{
    let ranks = rank_map(tokens);
    assert(merge::has_bytes(ranks)) by {
        assert forall|b: u8| #[trigger] ranks.contains_key(seq![b]) by {
            assert(tokens.contains(seq![b]));
        }
    }
    merge::lemma_canonical_entry(ranks, t);
    lemma_rank_map(tokens);
    let p = ranks[t] as int;
    assert(tokens[p] == t);
    lemma_canon_upto(tokens, tokens.len() as int);
    assert(canon(tokens).contains(p));
    choose|i: int| 0 <= i < canon(tokens).len() && canon(tokens)[i] == p
}

/// An accepted list passes every single test.
pub proof fn lemma_accepted(tokens: Seq<Seq<u8>>)
    requires
        vocab_error(tokens) is None,
    ensures
        tokens.len() <= u32::MAX,
        tokens.no_duplicates(),
        all_bytes(tokens),
        forall|i: int| 0 <= i < canon(tokens).len() ==> #[trigger] entry_error(tokens, i) is None,
        merge::proper(rank_map(tokens)),
        merge::has_bytes(rank_map(tokens)),
{
    let ranks = rank_map(tokens);
    lemma_no_table_error(tokens, 0);
    assert(merge::has_bytes(ranks)) by {
        assert forall|b: u8| #[trigger] ranks.contains_key(seq![b]) by {
            assert(tokens.contains(seq![b]));
        }
    }
    assert forall|t: Seq<u8>| t.len() >= 2 && #[trigger] merge::canonical(ranks, t) implies ranks[
    merge::pre(ranks, t)] < ranks[t] && ranks[merge::suc(ranks, t)] < ranks[t] by {
        let i = lemma_token_of(tokens, t);
        assert(entry_error(tokens, i) is None);
    }
}

proof fn lemma_no_table_error(tokens: Seq<Seq<u8>>, i: int)
    requires
        table_error(tokens, i) is None,
    ensures
        forall|j: int| i <= j < canon(tokens).len() ==> #[trigger] entry_error(tokens, j) is None,
    decreases canon(tokens).len() - i,
{
    if i < canon(tokens).len() {
        lemma_no_table_error(tokens, i + 1);
    }
}

pub proof fn lemma_total_len(tokens: Seq<Seq<u8>>, i: int, j: int)
    requires
        0 <= i <= j,
    ensures
        total_len(tokens, i) <= total_len(tokens, j),
    decreases j,
{
    if i < j {
        lemma_total_len(tokens, i, j - 1);
    }
}

} // verus!
