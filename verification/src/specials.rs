//! Which lists of special tokens are accepted.

use vstd::prelude::*;

use crate::automaton;
use crate::encoding;
use crate::error::ErrorView;
use crate::lexicon;

verus! {

/// The byte strings of the special tokens.
pub open spec fn texts_of(specials: Seq<(Seq<u8>, u32)>) -> Seq<Seq<u8>> {
    specials.map_values(|s: (Seq<u8>, u32)| s.0)
}

/// Whether the id of special token `i` is taken by a rank or by an earlier special token.
pub open spec fn id_taken(rank_space: int, specials: Seq<(Seq<u8>, u32)>, i: int) -> bool {
    specials[i].1 < rank_space || exists|h: int| 0 <= h < i && (#[trigger] specials[h]).1
        == specials[i].1
}

/// Rejected because of special token `i` by itself or together with earlier ones.
pub open spec fn one_error(rank_space: int, specials: Seq<(Seq<u8>, u32)>, i: int) -> Option<
    ErrorView,
> {
    let t = specials[i].0;
    let before = texts_of(specials).take(i);
    if t.len() == 0 {
        Some(ErrorView::EmptyToken)
    } else if t.len() > u16::MAX {
        Some(ErrorView::TokenTooLong { token: t.take(32), len: t.len() as int })
    } else if id_taken(rank_space, specials, i) {
        Some(ErrorView::SpecialIdConflict { token: t, id: specials[i].1 as int })
    } else if before.contains(t) {
        Some(ErrorView::DuplicateToken { token: t, first: before.index_of(t), second: i })
    } else {
        None
    }
}

/// The first rejection among the special tokens from number `i` on.
pub open spec fn list_error(rank_space: int, specials: Seq<(Seq<u8>, u32)>, i: int) -> Option<
    ErrorView,
>
    decreases specials.len() - i,
{
    if i >= specials.len() {
        None
    } else if one_error(rank_space, specials, i) is Some {
        one_error(rank_space, specials, i)
    } else {
        list_error(rank_space, specials, i + 1)
    }
}

/// Rejected because a special token occurs in a canonical token, the first such one from number `i`
/// on; named is the special token that ends first in it and, of these, the longest.
pub open spec fn token_error(
    tokens: Seq<Seq<u8>>,
    specials: Seq<(Seq<u8>, u32)>,
    i: int,
) -> Option<ErrorView>
    decreases lexicon::canon(tokens).len() - i,
{
    if i >= lexicon::canon(tokens).len() {
        None
    } else {
        let hits = automaton::all_hits(texts_of(specials), lexicon::token(tokens, i));
        if hits.len() > 0 {
            Some(
                ErrorView::SpecialTokenNotIsolated {
                    special: specials[hits[0].2 as int].0,
                    container: lexicon::token(tokens, i),
                },
            )
        } else {
            token_error(tokens, specials, i + 1)
        }
    }
}

/// The first occurrence from number `h` on that is not the whole text.
pub open spec fn first_inside(hits: Seq<(usize, usize, u32)>, n: int, h: int) -> Option<u32>
    decreases hits.len() - h,
{
    if h >= hits.len() {
        None
    } else if hits[h].0 == 0 && hits[h].1 == n {
        first_inside(hits, n, h + 1)
    } else {
        Some(hits[h].2)
    }
}

/// Rejected because a special token occurs in another one, the first such one from number `i` on.
pub open spec fn special_error(specials: Seq<(Seq<u8>, u32)>, i: int) -> Option<ErrorView>
    decreases specials.len() - i,
{
    if i >= specials.len() {
        None
    } else {
        let t = specials[i].0;
        match first_inside(automaton::all_hits(texts_of(specials), t), t.len() as int, 0) {
            Some(j) => Some(
                ErrorView::SpecialTokenNotIsolated {
                    special: specials[j as int].0,
                    container: t,
                },
            ),
            None => special_error(specials, i + 1),
        }
    }
}

/// Why a list of special tokens is rejected, or `None` when it is accepted.
pub open spec fn specials_error(tokens: Seq<Seq<u8>>, specials: Seq<(Seq<u8>, u32)>) -> Option<
    ErrorView,
> {
    if specials.len() == 0 {
        None
    } else if list_error(tokens.len() as int, specials, 0) is Some {
        list_error(tokens.len() as int, specials, 0)
    } else if automaton::probe_failure(texts_of(specials)) is Some {
        Some(ErrorView::Automaton(automaton::probe_failure(texts_of(specials))->0))
    } else if token_error(tokens, specials, 0) is Some {
        token_error(tokens, specials, 0)
    } else {
        special_error(specials, 0)
    }
}

/// A list without a rejection of its own from `i` on.
pub proof fn lemma_list_ok(rank_space: int, specials: Seq<(Seq<u8>, u32)>, i: int)
    requires
        list_error(rank_space, specials, i) is None,
        0 <= i,
    ensures
        forall|h: int|
            i <= h < specials.len() ==> #[trigger] one_error(rank_space, specials, h) is None,
    decreases specials.len() - i,
{
    if i < specials.len() {
        lemma_list_ok(rank_space, specials, i + 1);
    }
}

/// A list without a rejection of its own holds distinct, non-empty byte strings, and no more of them
/// than there are ids.
pub proof fn lemma_list_distinct(rank_space: int, specials: Seq<(Seq<u8>, u32)>, n: int)
    requires
        0 < rank_space,
        0 <= n <= specials.len(),
        forall|h: int| 0 <= h < n ==> #[trigger] one_error(rank_space, specials, h) is None,
    ensures
        texts_of(specials).take(n).no_duplicates(),
        encoding::sized(specials.take(n)),
        n <= u32::MAX,
{
    let texts = texts_of(specials);
    assert forall|a: int, b: int| 0 <= a < n && 0 <= b < n && a != b implies texts.take(n)[a]
        != texts.take(n)[b] by {
        let (x, y) = if a < b {
            (a, b)
        } else {
            (b, a)
        };
        assert(one_error(rank_space, specials, y) is None);
        if texts[x] == texts[y] {
            assert(texts.take(y)[x] == texts[y]);
            assert(texts.take(y).contains(specials[y].0));
        }
    }
    assert forall|h: int| 0 <= h < n implies 0 < (#[trigger] specials.take(n)[h]).0.len()
        <= u16::MAX by {
        assert(one_error(rank_space, specials, h) is None);
    }
    let ids = Seq::new(n as nat, |h: int| specials[h].1 as int);
    assert forall|a: int, b: int| 0 <= a < n && 0 <= b < n && a != b implies ids[a] != ids[b] by {
        let (x, y) = if a < b {
            (a, b)
        } else {
            (b, a)
        };
        assert(one_error(rank_space, specials, y) is None);
        assert(!id_taken(rank_space, specials, y));
        assert(specials[x].1 != specials[y].1);
    }
    ids.unique_seq_to_set();
    let range = vstd::set_lib::set_int_range(1, u32::MAX + 1);
    vstd::set_lib::lemma_int_range(1, u32::MAX + 1);
    assert forall|x: int| ids.to_set().contains(x) implies range.contains(x) by {
        let h = choose|h: int| 0 <= h < ids.len() && ids[h] == x;
        assert(one_error(rank_space, specials, h) is None);
        assert(!id_taken(rank_space, specials, h));
    }
    vstd::set_lib::lemma_len_subset(ids.to_set(), range);
}

/// Every occurrence of a pattern is reported, and nothing else is.
pub proof fn lemma_all_hits(patterns: Seq<Seq<u8>>, text: Seq<u8>)
    requires
        automaton::distinct_patterns(patterns),
        patterns.len() <= u32::MAX,
    ensures
        forall|h: int|
            0 <= h < automaton::all_hits(patterns, text).len() ==> (#[trigger] automaton::all_hits(
                patterns,
                text,
            )[h]).2 < patterns.len(),
        forall|e: int, i: int|
            0 < e <= text.len() && e <= usize::MAX && 0 <= i < patterns.len()
                && automaton::ends_with(#[trigger] text.take(e), #[trigger] patterns[i])
                ==> automaton::all_hits(patterns, text).contains(
                ((e - patterns[i].len()) as usize, e as usize, i as u32),
            ),
    decreases text.len(),
{
    if text.len() > 0 {
        let front = text.drop_last();
        lemma_all_hits(patterns, front);
        let n = text.len() as int;
        let list = automaton::suffix_list(patterns, text, n);
        automaton::lemma_suffix_list(patterns, text, n);
        let before = automaton::all_hits(patterns, front);
        let here = list.map_values(
            |i: int| ((text.len() - patterns[i].len()) as usize, text.len() as usize, i as u32),
        );
        let all = automaton::all_hits(patterns, text);
        assert(all == before + here);
        assert forall|h: int| 0 <= h < all.len() implies (#[trigger] all[h]).2 < patterns.len() by {
            if h < before.len() {
                assert(all[h] == before[h]);
            } else {
                let a = h - before.len();
                assert(all[h] == here[a]);
                assert(0 <= list[a] < patterns.len());
            }
        }
        assert forall|e: int, i: int|
            0 < e <= text.len() && e <= usize::MAX && 0 <= i < patterns.len()
                && automaton::ends_with(
                #[trigger] text.take(e),
                #[trigger] patterns[i],
            ) implies all.contains(((e - patterns[i].len()) as usize, e as usize, i as u32)) by {
            let hit = ((e - patterns[i].len()) as usize, e as usize, i as u32);
            if e < n {
                assert(front.take(e) =~= text.take(e));
                assert(before.contains(hit));
                let h = choose|h: int| 0 <= h < before.len() && before[h] == hit;
                assert(all[h] == hit);
            } else {
                assert(text.take(e) =~= text);
                assert(list.contains(i));
                let a = choose|a: int| 0 <= a < list.len() && list[a] == i;
                assert(here[a] == hit);
                assert(all[before.len() + a] == hit);
            }
        }
    }
}

proof fn lemma_token_ok(tokens: Seq<Seq<u8>>, specials: Seq<(Seq<u8>, u32)>, i: int)
    requires
        token_error(tokens, specials, i) is None,
    ensures
        forall|t: int|
            i <= t < lexicon::canon(tokens).len() ==> automaton::all_hits(
                texts_of(specials),
                #[trigger] lexicon::token(tokens, t),
            ).len() == 0,
    decreases lexicon::canon(tokens).len() - i,
{
    if i < lexicon::canon(tokens).len() {
        lemma_token_ok(tokens, specials, i + 1);
    }
}

proof fn lemma_inside_none(hits: Seq<(usize, usize, u32)>, n: int, h: int)
    requires
        first_inside(hits, n, h) is None,
    ensures
        forall|x: int| h <= x < hits.len() ==> (#[trigger] hits[x]).0 == 0 && hits[x].1 == n,
    decreases hits.len() - h,
{
    if h < hits.len() {
        lemma_inside_none(hits, n, h + 1);
    }
}

proof fn lemma_special_ok(specials: Seq<(Seq<u8>, u32)>, i: int)
    requires
        special_error(specials, i) is None,
    ensures
        forall|t: int|
            i <= t < specials.len() ==> first_inside(
                automaton::all_hits(texts_of(specials), (#[trigger] specials[t]).0),
                specials[t].0.len() as int,
                0,
            ) is None,
    decreases specials.len() - i,
{
    if i < specials.len() {
        lemma_special_ok(specials, i + 1);
    }
}

/// Accepted special tokens are neither empty nor too long, have ids of their own, and occur in no
/// canonical token and in no other special token.
pub proof fn law_accepted_specials(tokens: Seq<Seq<u8>>, specials: Seq<(Seq<u8>, u32)>)
    requires
        lexicon::vocab_error(tokens) is None,
        specials_error(tokens, specials) is None,
    ensures
        encoding::sized(specials),
        encoding::isolated(tokens, specials),
        encoding::own_ids(tokens, specials),
{
    if specials.len() > 0 {
        let space = tokens.len() as int;
        let texts = texts_of(specials);
        lexicon::lemma_accepted(tokens);
        assert(tokens.contains(seq![0u8]));
        lemma_list_ok(space, specials, 0);
        let n = specials.len() as int;
        lemma_list_distinct(space, specials, n);
        assert(texts.take(n) =~= texts);
        assert(specials.take(n) =~= specials);
        assert forall|i: int| 0 <= i < texts.len() implies #[trigger] texts[i].len() > 0 by {
            assert(one_error(space, specials, i) is None);
        }
        assert forall|i: int| 0 <= i < specials.len() implies (#[trigger] specials[i]).1
            >= tokens.len() by {
            assert(one_error(space, specials, i) is None);
            assert(!id_taken(space, specials, i));
        }
        assert forall|i: int, j: int| 0 <= i < j < specials.len() implies (#[trigger] specials[i]).1
            != (#[trigger] specials[j]).1 by {
            assert(one_error(space, specials, j) is None);
            assert(!id_taken(space, specials, j));
        }
        lemma_token_ok(tokens, specials, 0);
        lemma_special_ok(specials, 0);
        assert forall|j: int, t: int|
            0 <= j < specials.len() && 0 <= t < lexicon::canon(tokens).len() implies !encoding::occurs(
            (#[trigger] specials[j]).0,
            #[trigger] lexicon::token(tokens, t),
        ) by {
            let text = lexicon::token(tokens, t);
            if encoding::occurs(specials[j].0, text) {
                let e = choose|e: int|
                    0 <= e <= text.len() && automaton::ends_with(
                        #[trigger] text.take(e),
                        specials[j].0,
                    );
                assert(one_error(space, specials, j) is None);
                assert(lexicon::entry_error(tokens, t) is None);
                lemma_all_hits(texts, text);
                assert(automaton::ends_with(text.take(e), texts[j]));
            }
        }
        assert forall|i: int, j: int|
            0 <= i < specials.len() && 0 <= j < specials.len() && i != j implies !encoding::occurs(
            (#[trigger] specials[i]).0,
            (#[trigger] specials[j]).0,
        ) by {
            let text = specials[j].0;
            if encoding::occurs(specials[i].0, text) {
                let e = choose|e: int|
                    0 <= e <= text.len() && automaton::ends_with(
                        #[trigger] text.take(e),
                        specials[i].0,
                    );
                assert(one_error(space, specials, i) is None);
                assert(one_error(space, specials, j) is None);
                lemma_all_hits(texts, text);
                assert(automaton::ends_with(text.take(e), texts[i]));
                let hits = automaton::all_hits(texts, text);
                let hit = ((e - texts[i].len()) as usize, e as usize, i as u32);
                assert(hits.contains(hit));
                let x = choose|x: int| 0 <= x < hits.len() && hits[x] == hit;
                lemma_inside_none(hits, text.len() as int, 0);
                assert(hits[x].0 == 0 && hits[x].1 == text.len());
                assert(e == text.len());
                assert(text.take(e) =~= text);
                assert(text.skip(0) =~= text);
                assert(texts[i] == texts[j]);
            }
        }
    }
}

} // verus!
