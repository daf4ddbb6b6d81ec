//! What a chunk of text is encoded as: the tokens between the special tokens, and the ids of these.

use vstd::prelude::*;

use crate::automaton;
use crate::entry::StateEntry;
use crate::index;
use crate::lexicon;
use crate::merge;
use crate::numbering;
use crate::suffixes;
use crate::sufsuc;

verus! {

/// The ranks of the tokens that standard merging makes of a text.
pub open spec fn bpe(tokens: Seq<Seq<u8>>, text: Seq<u8>) -> Seq<u32> {
    let ranks = lexicon::rank_map(tokens);
    merge::tokenize(ranks, text).map_values(|t: Seq<u8>| ranks[t])
}

/// Whether `t` occurs somewhere in `s`.
pub open spec fn occurs(t: Seq<u8>, s: Seq<u8>) -> bool {
    exists|e: int| 0 <= e <= s.len() && automaton::ends_with(#[trigger] s.take(e), t)
}

/// Whether special token `j` ends the text.
pub open spec fn special_ends(specials: Seq<(Seq<u8>, u32)>, text: Seq<u8>, j: int) -> bool {
    0 <= j < specials.len() && automaton::ends_with(text, specials[j].0)
}

/// Whether the first special token in the text ends at `e` and is number `j`.
pub open spec fn first_special(
    specials: Seq<(Seq<u8>, u32)>,
    text: Seq<u8>,
    e: int,
    j: int,
) -> bool {
    &&& 0 < e <= text.len()
    &&& special_ends(specials, text.take(e), j)
    &&& forall|d: int, i: int|
        0 < d < e ==> !(#[trigger] special_ends(specials, text.take(d), i))
}

/// What a text is encoded as. The first special token finalizes the text before it, emits its own
/// id, and restarts behind it.
pub open spec fn encoded(
    tokens: Seq<Seq<u8>>,
    specials: Seq<(Seq<u8>, u32)>,
    text: Seq<u8>,
) -> Seq<u32>
    decreases text.len(),
{
    if exists|e: int, j: int| first_special(specials, text, e, j) {
        let (e, j) = choose|e: int, j: int| first_special(specials, text, e, j);
        if 0 < e <= text.len() {
            bpe(tokens, text.take(e - specials[j].0.len())).push(specials[j].1) + encoded(
                tokens,
                specials,
                text.skip(e),
            )
        } else {
            Seq::empty()
        }
    } else {
        bpe(tokens, text)
    }
}

/// Whether no special token occurs in a canonical token or in another special token.
pub open spec fn isolated(tokens: Seq<Seq<u8>>, specials: Seq<(Seq<u8>, u32)>) -> bool {
    &&& forall|j: int, t: int|
        0 <= j < specials.len() && 0 <= t < lexicon::canon(tokens).len() ==> !occurs(
            (#[trigger] specials[j]).0,
            #[trigger] lexicon::token(tokens, t),
        )
    &&& forall|i: int, j: int|
        0 <= i < specials.len() && 0 <= j < specials.len() && i != j ==> !occurs(
            (#[trigger] specials[i]).0,
            (#[trigger] specials[j]).0,
        )
}

/// Whether each special token is neither empty nor too long.
pub open spec fn sized(specials: Seq<(Seq<u8>, u32)>) -> bool {
    forall|i: int| 0 <= i < specials.len() ==> 0 < (#[trigger] specials[i]).0.len() <= u16::MAX
}

/// Whether the ids of the special tokens are neither ranks nor used twice.
pub open spec fn own_ids(tokens: Seq<Seq<u8>>, specials: Seq<(Seq<u8>, u32)>) -> bool {
    &&& forall|i: int| 0 <= i < specials.len() ==> (#[trigger] specials[i]).1 >= tokens.len()
    &&& forall|i: int, j: int|
        0 <= i < j < specials.len() ==> (#[trigger] specials[i]).1 != (#[trigger] specials[j]).1
}

/// The patterns of the automaton: the canonical tokens, then the special tokens.
pub open spec fn all_patterns(tokens: Seq<Seq<u8>>, specials: Seq<(Seq<u8>, u32)>) -> Seq<
    (Seq<u8>, StateEntry),
> {
    Seq::new(
        lexicon::canon(tokens).len(),
        |i: int| (lexicon::token(tokens, i), numbering::entry_of(tokens, i)),
    ) + specials.map_values(
        |s: (Seq<u8>, u32)| (s.0, StateEntry::of_special(s.1, s.0.len() as u16)),
    )
}

/// What a text ends with occurs in it.
pub proof fn lemma_occurs_end(s: Seq<u8>, t: Seq<u8>)
    requires
        automaton::ends_with(s, t),
    ensures
        occurs(t, s),
{
    assert(s.take(s.len() as int) =~= s);
}

/// The patterns are distinct, and the special tokens end no canonical token.
pub proof fn lemma_patterns(tokens: Seq<Seq<u8>>, specials: Seq<(Seq<u8>, u32)>)
    requires
        lexicon::vocab_error(tokens) is None,
        isolated(tokens, specials),
        sized(specials),
    ensures
        sufsuc::token_patterns(tokens, all_patterns(tokens, specials)),
        all_patterns(tokens, specials).len() == lexicon::canon(tokens).len() + specials.len(),
        forall|i: int|
            0 <= i < specials.len() ==> #[trigger] all_patterns(
                tokens,
                specials,
            )[lexicon::canon(tokens).len() + i] == (
                specials[i].0,
                StateEntry::of_special(specials[i].1, specials[i].0.len() as u16),
            ),
{
    let patterns = all_patterns(tokens, specials);
    let keys = automaton::keys(patterns);
    let k = lexicon::canon(tokens).len() as int;
    lexicon::lemma_accepted(tokens);
    lexicon::lemma_canon(tokens);
    assert forall|i: int, t: int| k <= i < patterns.len() && 0 <= t < k implies !automaton::ends_with(
        #[trigger] lexicon::token(tokens, t),
        (#[trigger] patterns[i]).0,
    ) by {
        if automaton::ends_with(lexicon::token(tokens, t), patterns[i].0) {
            lemma_occurs_end(lexicon::token(tokens, t), specials[i - k].0);
        }
    }
    assert forall|i: int| 0 <= i < keys.len() implies #[trigger] keys[i].len() > 0 by {
        assert(keys[i] == patterns[i].0);
        if i < k {
            assert(lexicon::token(tokens, i).len() > 0);
        } else {
            assert(specials[i - k].0.len() > 0);
        }
    }
    assert forall|i: int, j: int| 0 <= i < keys.len() && 0 <= j < keys.len() && i != j implies keys[i]
        != keys[j] by {
        assert(keys[i] == patterns[i].0);
        assert(keys[j] == patterns[j].0);
        let a = if i < j {
            i
        } else {
            j
        };
        let b = if i < j {
            j
        } else {
            i
        };
        if keys[i] == keys[j] {
            assert(keys[a].skip(0) =~= keys[a]);
            if b < k {
                numbering::lemma_same_token(tokens, a, b);
            } else {
                lemma_occurs_end(keys[a], keys[b]);
                if a < k {
                    assert(!occurs(specials[b - k].0, lexicon::token(tokens, a)));
                } else {
                    assert(!occurs(specials[b - k].0, specials[a - k].0));
                }
            }
        }
    }
}

/// Whether the canonical token `tau` is the longest that ends the text.
pub open spec fn longest_token(tokens: Seq<Seq<u8>>, text: Seq<u8>, tau: int) -> bool {
    &&& 0 <= tau < lexicon::canon(tokens).len()
    &&& automaton::ends_with(text, lexicon::token(tokens, tau))
    &&& forall|t: int| #[trigger]
        suffixes::suffix_set(tokens, text).contains(t) ==> lexicon::token(tokens, t).len()
            <= lexicon::token(tokens, tau).len()
}

/// The longest pattern that ends a text: a special token if one does, else the longest canonical
/// token.
pub proof fn lemma_longest(tokens: Seq<Seq<u8>>, specials: Seq<(Seq<u8>, u32)>, text: Seq<u8>) -> (
    i: int)
    requires
        lexicon::vocab_error(tokens) is None,
        isolated(tokens, specials),
        sized(specials),
        text.len() > 0,
    ensures
        ({
            let patterns = all_patterns(tokens, specials);
            let k = lexicon::canon(tokens).len();
            let list = automaton::suffix_list(
                automaton::keys(patterns),
                text,
                text.len() as int,
            );
            &&& list.len() > 0
            &&& i == list[0]
            &&& 0 <= i < patterns.len()
            &&& i < k ==> longest_token(tokens, text, i)
            &&& i < k ==> forall|j: int| !(#[trigger] special_ends(specials, text, j))
            &&& i < k ==> patterns[i].1 == numbering::entry_of(tokens, i)
            &&& i >= k ==> special_ends(specials, text, i - k)
            &&& i >= k ==> patterns[i].1 == StateEntry::of_special(
                specials[i - k].1,
                specials[i - k].0.len() as u16,
            )
        }),
{
    let patterns = all_patterns(tokens, specials);
    let keys = automaton::keys(patterns);
    let k = lexicon::canon(tokens).len() as int;
    let n = text.len() as int;
    let list = automaton::suffix_list(keys, text, n);
    lemma_patterns(tokens, specials);
    automaton::lemma_suffix_list(keys, text, n);
    let b = suffixes::byte_id(tokens, text.last());
    suffixes::lemma_byte_id(tokens, text.last());
    assert(text.skip(n - 1) =~= seq![text.last()]);
    assert(keys[b] == patterns[b].0);
    assert(automaton::ends_text(keys, text, 1, b));
    let i = list[0];
    assert(keys[i] == patterns[i].0);
    assert forall|p: int| 0 <= p < patterns.len() && automaton::ends_with(
        text,
        #[trigger] patterns[p].0,
    ) implies patterns[p].0.len() <= patterns[i].0.len() by {
        assert(keys[p] == patterns[p].0);
        assert(list.contains(p));
        let a = choose|a: int| 0 <= a < list.len() && list[a] == p;
        if a > 0 {
            assert(keys[list[0]].len() > keys[list[a]].len());
        }
    }
    if i < k {
        assert forall|j: int| !(#[trigger] special_ends(specials, text, j)) by {
            if special_ends(specials, text, j) {
                assert(patterns[k + j].0 == specials[j].0);
                suffixes::lemma_ends_nested(text, lexicon::token(tokens, i), specials[j].0);
                lemma_occurs_end(lexicon::token(tokens, i), specials[j].0);
            }
        }
        assert forall|t: int| #[trigger]
            suffixes::suffix_set(tokens, text).contains(t) implies lexicon::token(tokens, t).len()
            <= lexicon::token(tokens, i).len() by {
            assert(patterns[t].0 == lexicon::token(tokens, t));
        }
    }
    i
}

/// Every position has a longest pattern that ends there, in the order of the positions.
pub proof fn lemma_hits(tokens: Seq<Seq<u8>>, specials: Seq<(Seq<u8>, u32)>, text: Seq<u8>)
    requires
        lexicon::vocab_error(tokens) is None,
        isolated(tokens, specials),
        sized(specials),
    ensures
        automaton::longest_hits(all_patterns(tokens, specials), text).len() == text.len(),
        forall|e: int|
            0 <= e < text.len() ==> #[trigger] automaton::longest_hits(
                all_patterns(tokens, specials),
                text,
            )[e] == ((e + 1) as usize, all_patterns(
                tokens,
                specials,
            )[automaton::suffix_list(
                automaton::keys(all_patterns(tokens, specials)),
                text.take(e + 1),
                e + 1,
            )[0]].1),
    decreases text.len(),
{
    let patterns = all_patterns(tokens, specials);
    if text.len() > 0 {
        let front = text.drop_last();
        lemma_hits(tokens, specials, front);
        let _ = lemma_longest(tokens, specials, text);
        let hits = automaton::longest_hits(patterns, text);
        let before = automaton::longest_hits(patterns, front);
        assert forall|e: int| 0 <= e < text.len() implies #[trigger] hits[e] == (
            (e + 1) as usize,
            patterns[automaton::suffix_list(automaton::keys(patterns), text.take(e + 1), e + 1)[0]].1,
        ) by {
            if e < front.len() {
                assert(front.take(e + 1) =~= text.take(e + 1));
                assert(hits[e] == before[e]);
            } else {
                assert(text.take(e + 1) =~= text);
            }
        }
    }
}

/// At the end of one text, at most one special token ends.
pub proof fn lemma_one_special(
    tokens: Seq<Seq<u8>>,
    specials: Seq<(Seq<u8>, u32)>,
    text: Seq<u8>,
    i: int,
    j: int,
)
    requires
        isolated(tokens, specials),
        special_ends(specials, text, i),
        special_ends(specials, text, j),
    ensures
        i == j,
{
    if i != j {
        if specials[i].0.len() <= specials[j].0.len() {
            suffixes::lemma_ends_nested(text, specials[j].0, specials[i].0);
            lemma_occurs_end(specials[j].0, specials[i].0);
        } else {
            suffixes::lemma_ends_nested(text, specials[i].0, specials[j].0);
            lemma_occurs_end(specials[i].0, specials[j].0);
        }
    }
}

/// A text whose first special token is known is encoded accordingly.
pub proof fn lemma_encoded_special(
    tokens: Seq<Seq<u8>>,
    specials: Seq<(Seq<u8>, u32)>,
    text: Seq<u8>,
    e: int,
    j: int,
)
    requires
        isolated(tokens, specials),
        first_special(specials, text, e, j),
    ensures
        encoded(tokens, specials, text) == bpe(
            tokens,
            text.take(e - specials[j].0.len()),
        ).push(specials[j].1) + encoded(tokens, specials, text.skip(e)),
{
    let (e2, j2) = choose|e2: int, j2: int| first_special(specials, text, e2, j2);
    assert(first_special(specials, text, e2, j2));
    if e2 < e {
        assert(special_ends(specials, text.take(e2), j2));
    } else if e < e2 {
        assert(special_ends(specials, text.take(e), j));
    } else {
        lemma_one_special(tokens, specials, text.take(e), j, j2);
    }
}

/// A text without special tokens is encoded by standard merging.
pub proof fn law_no_special(tokens: Seq<Seq<u8>>, specials: Seq<(Seq<u8>, u32)>, text: Seq<u8>)
    requires
        forall|j: int| 0 <= j < specials.len() ==> !occurs((#[trigger] specials[j]).0, text),
    ensures
        encoded(tokens, specials, text) == bpe(tokens, text),
{
    assert forall|e: int, j: int| !(#[trigger] first_special(specials, text, e, j)) by {
        if first_special(specials, text, e, j) {
            assert(automaton::ends_with(text.take(e), specials[j].0));
            assert(!occurs(specials[j].0, text));
        }
    }
}

/// A special token alone is encoded as its id.
pub proof fn law_special_alone(tokens: Seq<Seq<u8>>, specials: Seq<(Seq<u8>, u32)>, j: int)
    requires
        isolated(tokens, specials),
        sized(specials),
        0 <= j < specials.len(),
    ensures
        encoded(tokens, specials, specials[j].0) == seq![specials[j].1],
{
    let text = specials[j].0;
    let n = text.len() as int;
    assert(text.take(n) =~= text);
    assert(text.skip(0) =~= text);
    assert(special_ends(specials, text.take(n), j));
    assert forall|d: int, i: int| 0 < d < n implies !(#[trigger] special_ends(
        specials,
        text.take(d),
        i,
    )) by {
        if special_ends(specials, text.take(d), i) {
            assert(occurs(specials[i].0, text));
            assert(i == j);
        }
    }
    assert(first_special(specials, text, n, j));
    lemma_encoded_special(tokens, specials, text, n, j);
    let nothing = Seq::<u8>::empty();
    assert(text.take(0) =~= nothing);
    assert(text.skip(n) =~= nothing);
    law_empty(tokens, specials);
    assert(bpe(tokens, nothing) =~= Seq::empty()) by {
        lemma_bpe_empty(tokens);
    }
    assert(encoded(tokens, specials, text) =~= seq![specials[j].1]);
}

pub proof fn lemma_bpe_empty(tokens: Seq<Seq<u8>>)
    ensures
        bpe(tokens, Seq::empty()) == Seq::<u32>::empty(),
{
    assert(merge::atoms(Seq::empty()) =~= Seq::<Seq<u8>>::empty());
    assert(bpe(tokens, Seq::empty()) =~= Seq::<u32>::empty());
}

/// The empty text is encoded as nothing.
pub proof fn law_empty(tokens: Seq<Seq<u8>>, specials: Seq<(Seq<u8>, u32)>)
    ensures
        encoded(tokens, specials, Seq::empty()) == Seq::<u32>::empty(),
{
    lemma_bpe_empty(tokens);
    assert forall|e: int, j: int| !(#[trigger] first_special(
        specials,
        Seq::<u8>::empty(),
        e,
        j,
    )) by {}
}

/// A canonical token is encoded as its rank.
pub proof fn law_canonical_alone(
    tokens: Seq<Seq<u8>>,
    specials: Seq<(Seq<u8>, u32)>,
    t: Seq<u8>,
)
    requires
        lexicon::vocab_error(tokens) is None,
        isolated(tokens, specials),
        merge::canonical(lexicon::rank_map(tokens), t),
    ensures
        encoded(tokens, specials, t) == seq![lexicon::rank_map(tokens)[t]],
{
    lexicon::lemma_accepted(tokens);
    let i = lexicon::lemma_token_of(tokens, t);
    assert forall|j: int| 0 <= j < specials.len() implies !occurs((#[trigger] specials[j]).0, t) by {
        assert(!occurs(specials[j].0, lexicon::token(tokens, i)));
    }
    law_no_special(tokens, specials, t);
    assert(bpe(tokens, t) =~= seq![lexicon::rank_map(tokens)[t]]);
}

/// What the index finds is the whole encoding, so looking there first changes no result.
pub proof fn law_index_agrees(
    tokens: Seq<Seq<u8>>,
    specials: Seq<(Seq<u8>, u32)>,
    text: Seq<u8>,
)
    requires
        lexicon::vocab_error(tokens) is None,
        isolated(tokens, specials),
        sized(specials),
        index::find(tokens, specials, text) is Some,
    ensures
        encoded(tokens, specials, text) == seq![index::find(tokens, specials, text)->0],
{
    if index::special_id(specials, text) is Some {
        let j = lemma_special_id(specials, text);
        law_special_alone(tokens, specials, j);
    } else {
        law_canonical_alone(tokens, specials, text);
    }
}

proof fn lemma_special_id(specials: Seq<(Seq<u8>, u32)>, key: Seq<u8>) -> (j: int)
    requires
        index::special_id(specials, key) is Some,
    ensures
        0 <= j < specials.len(),
        specials[j].0 == key,
        index::special_id(specials, key) == Some(specials[j].1),
    decreases specials.len(),
{
    if specials.last().0 == key {
        specials.len() - 1
    } else {
        lemma_special_id(specials.drop_last(), key)
    }
}

} // verus!
