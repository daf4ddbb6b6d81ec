//! What an encoding is, told by the token list, the text and the ids alone.
//!
//! The statements of this module speak of positions in lists and of nothing that the tokenizer
//! computes with, so that each can be held against what a caller sees.

use vstd::prelude::*;

use crate::automaton;
use crate::encoding;
use crate::lexicon;
use crate::merge;
use crate::specials;

verus! {

/// Whether parts `i` and `i + 1` together are the token at position `r` of the list.
pub open spec fn pair_at(tokens: Seq<Seq<u8>>, parts: Seq<Seq<u8>>, i: int, r: int) -> bool {
    &&& 0 <= i < parts.len() - 1
    &&& 0 <= r < tokens.len()
    &&& tokens[r] == parts[i] + parts[i + 1]
}

/// Whether the pair at `i` makes the token of the smallest position that any pair makes, and is the
/// leftmost pair that makes it.
pub open spec fn merged_next(tokens: Seq<Seq<u8>>, parts: Seq<Seq<u8>>, i: int, r: int) -> bool {
    &&& pair_at(tokens, parts, i, r)
    &&& forall|j: int, s: int| #[trigger]
        pair_at(tokens, parts, j, s) ==> r < s || (r == s && i <= j)
}

/// Whether the parts `q` are the parts `p` after one merge.
pub open spec fn merges_to(tokens: Seq<Seq<u8>>, p: Seq<Seq<u8>>, q: Seq<Seq<u8>>) -> bool {
    exists|i: int, r: int| #[trigger]
        merged_next(tokens, p, i, r) && q == p.take(i).push(p[i] + p[i + 1]) + p.skip(i + 2)
}

/// Whether stage `n + 1` of a run is stage `n` after one merge.
pub open spec fn stage_follows(tokens: Seq<Seq<u8>>, run: Seq<Seq<Seq<u8>>>, n: int) -> bool {
    merges_to(tokens, run[n], run[n + 1])
}

/// Whether a run goes merge by merge from the single bytes of a text to parts no two neighbours of
/// which are a token together.
pub open spec fn merge_run(
    tokens: Seq<Seq<u8>>,
    text: Seq<u8>,
    run: Seq<Seq<Seq<u8>>>,
) -> bool {
    &&& run.len() > 0
    &&& run[0] == Seq::new(text.len(), |i: int| seq![text[i]])
    &&& forall|n: int| 0 <= n < run.len() - 1 ==> #[trigger] stage_follows(tokens, run, n)
    &&& forall|i: int, r: int| !(#[trigger] pair_at(tokens, run.last(), i, r))
}

/// Whether the ids are the positions of the parts in the list.
pub open spec fn positions_of(tokens: Seq<Seq<u8>>, parts: Seq<Seq<u8>>, ids: Seq<u32>) -> bool {
    &&& ids.len() == parts.len()
    &&& forall|i: int|
        0 <= i < ids.len() ==> (#[trigger] ids[i]) < tokens.len() && tokens[ids[i] as int]
            == parts[i]
}

/// Whether the ids are what standard merging makes of a text.
pub open spec fn standard(tokens: Seq<Seq<u8>>, text: Seq<u8>, ids: Seq<u32>) -> bool {
    exists|run: Seq<Seq<Seq<u8>>>| #[trigger]
        merge_run(tokens, text, run) && positions_of(tokens, run.last(), ids)
}

/// Whether `t` stands in `text` at place `p`.
pub open spec fn stands_at(text: Seq<u8>, t: Seq<u8>, p: int) -> bool {
    0 <= p && p + t.len() <= text.len() && text.subrange(p, p + t.len()) == t
}

/// Whether special token `j` stands in `text` at place `p`.
pub open spec fn special_at(
    specials: Seq<(Seq<u8>, u32)>,
    text: Seq<u8>,
    p: int,
    j: int,
) -> bool {
    0 <= j < specials.len() && specials[j].0.len() > 0 && stands_at(text, specials[j].0, p)
}

/// Whether special token `j` stands at place `p`, and no special token ends before it does.
pub open spec fn ends_first(
    specials: Seq<(Seq<u8>, u32)>,
    text: Seq<u8>,
    p: int,
    j: int,
) -> bool {
    &&& special_at(specials, text, p, j)
    &&& forall|q: int, i: int| #[trigger]
        special_at(specials, text, q, i) ==> p + specials[j].0.len() <= q + specials[i].0.len()
}

/// Whether the ids are the encoding of a text: what standard merging makes of the text up to the
/// special token that ends first, the id of that token, and the encoding of the text behind it.
pub open spec fn encodes(
    tokens: Seq<Seq<u8>>,
    specials: Seq<(Seq<u8>, u32)>,
    text: Seq<u8>,
    ids: Seq<u32>,
) -> bool
    decreases text.len(),
{
    if exists|p: int, j: int| special_at(specials, text, p, j) {
        exists|p: int, j: int, head: Seq<u32>|
            {
                &&& #[trigger] ends_first(specials, text, p, j)
                &&& #[trigger] standard(tokens, text.take(p), head)
                &&& head.len() < ids.len()
                &&& ids.take(head.len() as int) == head
                &&& ids[head.len() as int] == specials[j].1
                &&& text.skip(p + specials[j].0.len()).len() < text.len()
                &&& encodes(
                    tokens,
                    specials,
                    text.skip(p + specials[j].0.len()),
                    ids.skip(head.len() as int + 1),
                )
            }
    } else {
        standard(tokens, text, ids)
    }
}

/// Two neighbouring parts are mergeable exactly if they are a token, and their rank is its position.
proof fn lemma_pair(tokens: Seq<Seq<u8>>, p: Seq<Seq<u8>>)
    requires
        tokens.no_duplicates(),
        tokens.len() <= u32::MAX,
    ensures
        forall|i: int, r: int| #[trigger]
            pair_at(tokens, p, i, r) ==> merge::mergeable(lexicon::rank_map(tokens), p, i)
                && merge::pair_priority(lexicon::rank_map(tokens), p, i) == r,
        forall|i: int| #[trigger]
            merge::mergeable(lexicon::rank_map(tokens), p, i) ==> pair_at(
                tokens,
                p,
                i,
                merge::pair_priority(lexicon::rank_map(tokens), p, i) as int,
            ),
{
    lexicon::lemma_rank_map(tokens);
}

/// One merge of the model is one merge of a run.
proof fn lemma_merges(tokens: Seq<Seq<u8>>, p: Seq<Seq<u8>>, q: Seq<Seq<u8>>)
    requires
        tokens.no_duplicates(),
        tokens.len() <= u32::MAX,
    ensures
        merges_to(tokens, p, q) <==> merge::has_next(lexicon::rank_map(tokens), p) && q
            == merge::step(lexicon::rank_map(tokens), p),
        merge::has_next(lexicon::rank_map(tokens), p) <==> exists|i: int, r: int| #[trigger]
            pair_at(tokens, p, i, r),
{
    let ranks = lexicon::rank_map(tokens);
    lemma_pair(tokens, p);
    merge::lemma_next(ranks, p);
    if merge::has_next(ranks, p) {
        let i = merge::next_of(ranks, p);
        let r = merge::pair_priority(ranks, p, i) as int;
        merge::lemma_merge_at(p, i);
        assert(p.take(i) + seq![p[i] + p[i + 1]] =~= p.take(i).push(p[i] + p[i + 1]));
        assert(pair_at(tokens, p, i, r));
        assert(merged_next(tokens, p, i, r));
    }
    if merges_to(tokens, p, q) {
        let (i, r) = choose|i: int, r: int| #[trigger]
            merged_next(tokens, p, i, r) && q == p.take(i).push(p[i] + p[i + 1]) + p.skip(i + 2);
        assert(pair_at(tokens, p, i, r));
        assert(merge::is_next(ranks, p, i)) by {
            assert forall|j: int| #[trigger] merge::mergeable(ranks, p, j) implies merge::pair_priority(
                ranks,
                p,
                i,
            ) < merge::pair_priority(ranks, p, j) || (merge::pair_priority(ranks, p, i)
                == merge::pair_priority(ranks, p, j) && i <= j) by {
                assert(pair_at(tokens, p, j, merge::pair_priority(ranks, p, j) as int));
            }
        }
        merge::lemma_merge_at(p, i);
    }
}

/// Some run goes from the single bytes of a text to its tokens.
pub proof fn lemma_run_exists(tokens: Seq<Seq<u8>>, text: Seq<u8>) -> (run: Seq<Seq<Seq<u8>>>)
    requires
        tokens.no_duplicates(),
        tokens.len() <= u32::MAX,
    ensures
        merge_run(tokens, text, run),
        run.last() == merge::tokenize(lexicon::rank_map(tokens), text),
        run.len() == text.len() - run.last().len() + 1,
        forall|n: int|
            0 <= n < run.len() ==> #[trigger] run[n] == merge::state(
                lexicon::rank_map(tokens),
                text,
                n as nat,
            ) && run[n].len() == text.len() - n,
{
    let ranks = lexicon::rank_map(tokens);
    let last = merge::tokenize(ranks, text);
    merge::lemma_tokenize(ranks, text);
    merge::lemma_state_len(ranks, text, text.len());
    let k = (text.len() - last.len()) as nat;
    let run = Seq::new(k + 1, |n: int| merge::state(ranks, text, n as nat));
    assert(run.last() == last);
    assert(run[0] =~= Seq::new(text.len(), |i: int| seq![text[i]]));
    assert forall|n: int| 0 <= n < run.len() - 1 implies #[trigger] stage_follows(tokens, run, n) by {
        let p = merge::state(ranks, text, n as nat);
        merge::lemma_state_len(ranks, text, n as nat);
        if !merge::has_next(ranks, p) {
            lemma_final_later(ranks, text, n as nat, k);
        }
        assert(run[n] == p);
        assert(run[n + 1] == merge::state(ranks, text, (n + 1) as nat));
        lemma_merges(tokens, run[n], run[n + 1]);
    }
    lemma_merges(tokens, run.last(), run.last());
    lemma_run_is(tokens, text, run);
    run
}

/// A state that is final stays.
proof fn lemma_final_later(ranks: merge::Ranks, text: Seq<u8>, j: nat, k: nat)
    requires
        j <= k,
        !merge::has_next(ranks, merge::state(ranks, text, j)),
    ensures
        merge::state(ranks, text, k) == merge::state(ranks, text, j),
    decreases k,
{
    if j < k {
        lemma_final_later(ranks, text, j, (k - 1) as nat);
    }
}

/// There is one run, and it ends with the tokens of the text.
pub proof fn lemma_run_is(tokens: Seq<Seq<u8>>, text: Seq<u8>, run: Seq<Seq<Seq<u8>>>)
    requires
        tokens.no_duplicates(),
        tokens.len() <= u32::MAX,
        merge_run(tokens, text, run),
    ensures
        run.last() == merge::tokenize(lexicon::rank_map(tokens), text),
        run.len() == text.len() - run.last().len() + 1,
        forall|n: int|
            0 <= n < run.len() ==> #[trigger] run[n] == merge::state(
                lexicon::rank_map(tokens),
                text,
                n as nat,
            ) && run[n].len() == text.len() - n,
{
    let ranks = lexicon::rank_map(tokens);
    assert forall|n: int| 0 <= n < run.len() implies #[trigger] run[n] == merge::state(
        ranks,
        text,
        n as nat,
    ) && run[n].len() == text.len() - n by {
        lemma_stage_is(tokens, text, run, n);
    }
    let k = (run.len() - 1) as nat;
    lemma_merges(tokens, run.last(), run.last());
    assert(run[run.len() - 1] == merge::state(ranks, text, k));
    merge::lemma_state_len(ranks, text, k);
    lemma_final_later(ranks, text, k, text.len());
}

proof fn lemma_stage_is(tokens: Seq<Seq<u8>>, text: Seq<u8>, run: Seq<Seq<Seq<u8>>>, n: int)
    requires
        tokens.no_duplicates(),
        tokens.len() <= u32::MAX,
        merge_run(tokens, text, run),
        0 <= n < run.len(),
    ensures
        run[n] == merge::state(lexicon::rank_map(tokens), text, n as nat),
        run[n].len() == text.len() - n,
    decreases n,
{
    let ranks = lexicon::rank_map(tokens);
    if n == 0 {
        assert(run[0] =~= merge::atoms(text));
    } else {
        lemma_stage_is(tokens, text, run, n - 1);
        assert(stage_follows(tokens, run, n - 1));
        lemma_merges(tokens, run[n - 1], run[n]);
        merge::lemma_step(ranks, run[n - 1]);
    }
}

/// The ranks of the tokens of a text are what standard merging makes of it, and nothing else is.
proof fn lemma_standard(tokens: Seq<Seq<u8>>, text: Seq<u8>, ids: Seq<u32>)
    requires
        lexicon::vocab_error(tokens) is None,
    ensures
        standard(tokens, text, ids) <==> ids == encoding::bpe(tokens, text),
{
    let ranks = lexicon::rank_map(tokens);
    let own = encoding::bpe(tokens, text);
    lexicon::lemma_accepted(tokens);
    lexicon::lemma_rank_map(tokens);
    let run = lemma_run_exists(tokens, text);
    let parts = merge::tokenize(ranks, text);
    merge::lemma_tokenize(ranks, text);
    assert forall|i: int| 0 <= i < own.len() implies (#[trigger] own[i]) < tokens.len()
        && tokens[own[i] as int] == parts[i] by {
        merge::lemma_block(ranks, parts, i, i + 1);
        assert(parts.subrange(i, i + 1) =~= seq![parts[i]]);
        merge::lemma_reached_one(ranks, parts[i]);
        merge::lemma_canonical_entry(ranks, parts[i]);
    }
    assert(positions_of(tokens, run.last(), own));
    if standard(tokens, text, ids) {
        let run2 = choose|run: Seq<Seq<Seq<u8>>>| #[trigger]
            merge_run(tokens, text, run) && positions_of(tokens, run.last(), ids);
        lemma_run_is(tokens, text, run2);
        assert forall|i: int| 0 <= i < ids.len() implies ids[i] == own[i] by {
            assert(tokens[ids[i] as int] == parts[i]);
            assert(tokens[own[i] as int] == parts[i]);
        }
        assert(ids =~= own);
    }
}

/// A text in which no special token stands is encoded as what standard merging makes of it, however
/// long it is: from the single bytes, always the pair of the smallest rank and the leftmost of
/// equal pairs is merged, until no two neighbours are a token together.
pub proof fn law_standard_merging(
    tokens: Seq<Seq<u8>>,
    specials: Seq<(Seq<u8>, u32)>,
    text: Seq<u8>,
)
    requires
        lexicon::vocab_error(tokens) is None,
        forall|p: int, j: int|
            0 <= j < specials.len() ==> !#[trigger] stands_at(text, specials[j].0, p),
    ensures
        standard(tokens, text, encoding::encoded(tokens, specials, text)),
{
    assert forall|j: int| 0 <= j < specials.len() implies !encoding::occurs(
        (#[trigger] specials[j]).0,
        text,
    ) by {
        let t = specials[j].0;
        if encoding::occurs(t, text) {
            let e = choose|e: int|
                0 <= e <= text.len() && automaton::ends_with(#[trigger] text.take(e), t);
            assert(text.subrange(e - t.len(), e) =~= text.take(e).skip(e - t.len()));
            assert(stands_at(text, t, e - t.len()));
        }
    }
    encoding::law_no_special(tokens, specials, text);
    lemma_standard(tokens, text, encoding::bpe(tokens, text));
}

/// In what standard merging makes of a text, no two neighbours are a token together.
pub proof fn law_nothing_left_to_merge(
    tokens: Seq<Seq<u8>>,
    text: Seq<u8>,
    ids: Seq<u32>,
    i: int,
    r: int,
)
    requires
        standard(tokens, text, ids),
        0 <= i < ids.len() - 1,
        0 <= r < tokens.len(),
    ensures
        tokens[r] != tokens[ids[i] as int] + tokens[ids[i + 1] as int],
{
    let run = choose|run: Seq<Seq<Seq<u8>>>| #[trigger]
        merge_run(tokens, text, run) && positions_of(tokens, run.last(), ids);
    assert(ids[i] < tokens.len() && ids[i + 1] < tokens.len());
    assert(!pair_at(tokens, run.last(), i, r));
}

/// Standard merging makes one thing of a text.
pub proof fn law_one_standard(tokens: Seq<Seq<u8>>, text: Seq<u8>, a: Seq<u32>, b: Seq<u32>)
    requires
        lexicon::vocab_error(tokens) is None,
        standard(tokens, text, a),
        standard(tokens, text, b),
    ensures
        a == b,
{
    lemma_standard(tokens, text, a);
    lemma_standard(tokens, text, b);
}

/// A special token ends at a place of the text exactly if it stands before it.
pub proof fn lemma_ends_stands(text: Seq<u8>, t: Seq<u8>, e: int)
    requires
        0 <= e <= text.len(),
    ensures
        automaton::ends_with(text.take(e), t) <==> stands_at(text, t, e - t.len()),
{
    if t.len() <= e {
        assert(text.subrange(e - t.len(), e) =~= text.take(e).skip(e - t.len()));
    }
}

/// Where special tokens stand in a text, one of them ends first.
proof fn lemma_some_ends_first(
    specials: Seq<(Seq<u8>, u32)>,
    text: Seq<u8>,
    p: int,
    j: int,
) -> (r: (int, int))
    requires
        special_at(specials, text, p, j),
    ensures
        ends_first(specials, text, r.0, r.1),
    decreases p + specials[j].0.len(),
{
    if ends_first(specials, text, p, j) {
        (p, j)
    } else {
        let (q, i) = choose|q: int, i: int| #[trigger]
            special_at(specials, text, q, i) && q + specials[i].0.len() < p + specials[j].0.len();
        lemma_some_ends_first(specials, text, q, i)
    }
}

/// Which special token comes first, in the two ways of saying it.
pub proof fn lemma_first(specials: Seq<(Seq<u8>, u32)>, text: Seq<u8>, p: int, j: int)
    requires
        encoding::sized(specials),
    ensures
        ends_first(specials, text, p, j) ==> encoding::first_special(
            specials,
            text,
            p + specials[j].0.len(),
            j,
        ),
{
    if ends_first(specials, text, p, j) {
        let e = p + specials[j].0.len();
        lemma_ends_stands(text, specials[j].0, e);
        assert forall|d: int, i: int| 0 < d < e implies !(#[trigger] encoding::special_ends(
            specials,
            text.take(d),
            i,
        )) by {
            if encoding::special_ends(specials, text.take(d), i) {
                lemma_ends_stands(text, specials[i].0, d);
                assert(special_at(specials, text, d - specials[i].0.len(), i));
            }
        }
    }
}

/// Every text is encoded as its encoding is described, for special tokens that are isolated.
pub proof fn lemma_encodes(tokens: Seq<Seq<u8>>, specials: Seq<(Seq<u8>, u32)>, text: Seq<u8>)
    requires
        lexicon::vocab_error(tokens) is None,
        encoding::isolated(tokens, specials),
        encoding::sized(specials),
    ensures
        encodes(tokens, specials, text, encoding::encoded(tokens, specials, text)),
    decreases text.len(),
{
    let ids = encoding::encoded(tokens, specials, text);
    if exists|p: int, j: int| special_at(specials, text, p, j) {
        let (p0, j0) = choose|p: int, j: int| special_at(specials, text, p, j);
        let (p, j) = lemma_some_ends_first(specials, text, p0, j0);
        let e = p + specials[j].0.len();
        lemma_first(specials, text, p, j);
        encoding::lemma_encoded_special(tokens, specials, text, e, j);
        let head = encoding::bpe(tokens, text.take(p));
        let tail = encoding::encoded(tokens, specials, text.skip(e));
        lemma_standard(tokens, text.take(p), head);
        lemma_encodes(tokens, specials, text.skip(e));
        assert(ids == head.push(specials[j].1) + tail);
        assert(ids.take(head.len() as int) =~= head);
        assert(ids.skip(head.len() as int + 1) =~= tail);
    } else {
        assert forall|q: int, i: int| 0 <= i < specials.len() implies !#[trigger] stands_at(
            text,
            specials[i].0,
            q,
        ) by {
            assert(specials[i].0.len() > 0);
            assert(!special_at(specials, text, q, i));
        }
        law_standard_merging(tokens, specials, text);
    }
}

/// A text with accepted special tokens is encoded, wherever these stand, as its encoding is
/// described.
pub proof fn law_encoding(tokens: Seq<Seq<u8>>, specials: Seq<(Seq<u8>, u32)>, text: Seq<u8>)
    requires
        lexicon::vocab_error(tokens) is None,
        specials::specials_error(tokens, specials) is None,
    ensures
        encodes(tokens, specials, text, encoding::encoded(tokens, specials, text)),
{
    specials::law_accepted_specials(tokens, specials);
    lemma_encodes(tokens, specials, text);
}

/// The special token that ends first finalizes the text before it, emits its id, and restarts
/// behind it, whatever stands around it.
pub proof fn law_special_divides(
    tokens: Seq<Seq<u8>>,
    specials: Seq<(Seq<u8>, u32)>,
    text: Seq<u8>,
    p: int,
    j: int,
) -> (head: Seq<u32>)
    requires
        lexicon::vocab_error(tokens) is None,
        specials::specials_error(tokens, specials) is None,
        ends_first(specials, text, p, j),
    ensures
        standard(tokens, text.take(p), head),
        encoding::encoded(tokens, specials, text) == head.push(specials[j].1)
            + encoding::encoded(tokens, specials, text.skip(p + specials[j].0.len())),
{
    specials::law_accepted_specials(tokens, specials);
    let e = p + specials[j].0.len();
    lemma_first(specials, text, p, j);
    encoding::lemma_encoded_special(tokens, specials, text, e, j);
    let head = encoding::bpe(tokens, text.take(p));
    lemma_standard(tokens, text.take(p), head);
    head
}

/// Where a special token stands in a text, the encoding holds the id of a special token.
pub proof fn law_special_is_found(
    tokens: Seq<Seq<u8>>,
    specials: Seq<(Seq<u8>, u32)>,
    text: Seq<u8>,
    p: int,
    j: int,
) -> (i: int)
    requires
        lexicon::vocab_error(tokens) is None,
        specials::specials_error(tokens, specials) is None,
        special_at(specials, text, p, j),
    ensures
        0 <= i < specials.len(),
        encoding::encoded(tokens, specials, text).contains(specials[i].1),
{
    let (q, i) = lemma_some_ends_first(specials, text, p, j);
    let head = law_special_divides(tokens, specials, text, q, i);
    assert(encoding::encoded(tokens, specials, text)[head.len() as int] == specials[i].1);
    i
}

/// A text has one encoding.
pub proof fn law_one_encoding(
    tokens: Seq<Seq<u8>>,
    specials: Seq<(Seq<u8>, u32)>,
    text: Seq<u8>,
    a: Seq<u32>,
    b: Seq<u32>,
)
    requires
        lexicon::vocab_error(tokens) is None,
        specials::specials_error(tokens, specials) is None,
        encodes(tokens, specials, text, a),
        encodes(tokens, specials, text, b),
    ensures
        a == b,
    decreases text.len(),
{
    if exists|p: int, j: int| special_at(specials, text, p, j) {
        let (p, j, head) = choose|p: int, j: int, head: Seq<u32>|
            {
                &&& #[trigger] ends_first(specials, text, p, j)
                &&& #[trigger] standard(tokens, text.take(p), head)
                &&& head.len() < a.len()
                &&& a.take(head.len() as int) == head
                &&& a[head.len() as int] == specials[j].1
                &&& text.skip(p + specials[j].0.len()).len() < text.len()
                &&& encodes(
                    tokens,
                    specials,
                    text.skip(p + specials[j].0.len()),
                    a.skip(head.len() as int + 1),
                )
            };
        let (q, i, head2) = choose|p: int, j: int, head: Seq<u32>|
            {
                &&& #[trigger] ends_first(specials, text, p, j)
                &&& #[trigger] standard(tokens, text.take(p), head)
                &&& head.len() < b.len()
                &&& b.take(head.len() as int) == head
                &&& b[head.len() as int] == specials[j].1
                &&& text.skip(p + specials[j].0.len()).len() < text.len()
                &&& encodes(
                    tokens,
                    specials,
                    text.skip(p + specials[j].0.len()),
                    b.skip(head.len() as int + 1),
                )
            };
        specials::law_accepted_specials(tokens, specials);
        let e = p + specials[j].0.len();
        assert(special_at(specials, text, p, j) && special_at(specials, text, q, i));
        assert(e == q + specials[i].0.len());
        lemma_ends_stands(text, specials[j].0, e);
        lemma_ends_stands(text, specials[i].0, e);
        encoding::lemma_one_special(tokens, specials, text.take(e), j, i);
        law_one_standard(tokens, text.take(p), head, head2);
        let n = head.len() as int;
        law_one_encoding(tokens, specials, text.skip(e), a.skip(n + 1), b.skip(n + 1));
        assert(a =~= a.take(n).push(a[n]) + a.skip(n + 1));
        assert(b =~= b.take(n).push(b[n]) + b.skip(n + 1));
    } else {
        law_one_standard(tokens, text, a, b);
    }
}

} // verus!
