//! The canonical tokens that end a given canonical token, and their valid intervals.

use vstd::prelude::*;

use crate::automaton;
use crate::component;
use crate::entry::Interval;
use crate::forest;
use crate::lexicon;
use crate::merge;
use crate::numbering;
use crate::successor;

verus! {

/// The numbers of the canonical tokens that end the text `s`.
pub open spec fn suffix_set(tokens: Seq<Seq<u8>>, s: Seq<u8>) -> Set<int> {
    Set::new(
        |x: int|
            0 <= x < lexicon::canon(tokens).len() && automaton::ends_with(
                s,
                lexicon::token(tokens, x),
            ),
    )
}

/// What ends `u` ends every text that `u` ends.
pub proof fn lemma_ends_trans(s: Seq<u8>, t: Seq<u8>, u: Seq<u8>)
    requires
        automaton::ends_with(s, t),
        automaton::ends_with(t, u),
    ensures
        automaton::ends_with(s, u),
{
    assert(s.skip(s.len() - u.len()) =~= t.skip(t.len() - u.len()));
}

/// Of two texts that end `s`, the shorter one ends the longer one.
pub proof fn lemma_ends_nested(s: Seq<u8>, t: Seq<u8>, u: Seq<u8>)
    requires
        automaton::ends_with(s, t),
        automaton::ends_with(s, u),
        u.len() <= t.len(),
    ensures
        automaton::ends_with(t, u),
{
    assert(t.skip(t.len() - u.len()) =~= s.skip(s.len() - u.len()));
}

/// The right component of a token ends it.
pub proof fn lemma_parent_suffix(tokens: Seq<Seq<u8>>, s: Seq<u8>, x: int)
    requires
        lexicon::vocab_error(tokens) is None,
        suffix_set(tokens, s).contains(x),
        lexicon::token(tokens, x).len() >= 2,
    ensures
        suffix_set(tokens, s).contains(numbering::parents(tokens)[x]),
        numbering::parents(tokens)[x] == numbering::suc_id(tokens, x),
{
    numbering::lemma_components(tokens, x);
    let t = lexicon::token(tokens, x);
    let u = merge::suc(lexicon::rank_map(tokens), t);
    assert(t.skip(t.len() - u.len()) =~= u);
    lemma_ends_trans(s, t, u);
}

/// The number of the single-byte token `b`.
pub open spec fn byte_id(tokens: Seq<Seq<u8>>, b: u8) -> int {
    numbering::id_of(tokens, seq![b])
}

pub proof fn lemma_byte_id(tokens: Seq<Seq<u8>>, b: u8)
    requires
        lexicon::vocab_error(tokens) is None,
    ensures
        0 <= byte_id(tokens, b) < lexicon::canon(tokens).len(),
        lexicon::token(tokens, byte_id(tokens, b)) == seq![b],
        numbering::parents(tokens)[byte_id(tokens, b)] == -1,
{
    lexicon::lemma_accepted(tokens);
    merge::lemma_byte_canonical(lexicon::rank_map(tokens), seq![b]);
    numbering::lemma_id(tokens, seq![b]);
}

/// The tokens that end a text form one tree, rooted at its last byte.
pub proof fn lemma_suffix_tree(tokens: Seq<Seq<u8>>, s: Seq<u8>)
    requires
        lexicon::vocab_error(tokens) is None,
        s.len() > 0,
    ensures
        component::component(
            numbering::parents(tokens),
            suffix_set(tokens, s),
            byte_id(tokens, s.last()),
        ),
{
    let par = numbering::parents(tokens);
    let k = suffix_set(tokens, s);
    let top = byte_id(tokens, s.last());
    numbering::lemma_forest(tokens);
    lemma_byte_id(tokens, s.last());
    assert(s.skip(s.len() - 1) =~= seq![s.last()]);
    assert(k.contains(top));
    assert forall|x: int| #[trigger] k.contains(x) implies 0 <= x < par.len() && forest::below(
        par,
        x,
        top,
    ) by {
        lemma_below_byte(tokens, s, x);
    }
    assert forall|x: int| k.contains(x) && x != top implies k.contains(
        #[trigger] component::up(par, x),
    ) by {
        lexicon::lemma_accepted(tokens);
        lexicon::lemma_canon(tokens);
        let t = lexicon::token(tokens, x);
        if t.len() < 2 {
            assert(t =~= seq![s.last()]);
            numbering::lemma_same_token(tokens, x, top);
        } else {
            lemma_parent_suffix(tokens, s, x);
        }
    }
    let range = vstd::set_lib::set_int_range(0, par.len() as int);
    vstd::set_lib::lemma_int_range(0, par.len() as int);
    vstd::set_lib::lemma_set_subset_finite(range, k);
}

proof fn lemma_below_byte(tokens: Seq<Seq<u8>>, s: Seq<u8>, x: int)
    requires
        lexicon::vocab_error(tokens) is None,
        s.len() > 0,
        suffix_set(tokens, s).contains(x),
    ensures
        forest::below(numbering::parents(tokens), x, byte_id(tokens, s.last())),
    decreases x,
{
    let par = numbering::parents(tokens);
    let t = lexicon::token(tokens, x);
    lexicon::lemma_accepted(tokens);
    lexicon::lemma_canon(tokens);
    lemma_byte_id(tokens, s.last());
    if t.len() < 2 {
        assert(t =~= seq![s.last()]);
        numbering::lemma_same_token(tokens, x, byte_id(tokens, s.last()));
    } else {
        numbering::lemma_components(tokens, x);
        lemma_parent_suffix(tokens, s, x);
        lemma_below_byte(tokens, s, par[x]);
    }
}

/// A text has no more tokens that end it than it has bytes.
pub proof fn lemma_suffix_count(tokens: Seq<Seq<u8>>, s: Seq<u8>)
    requires
        lexicon::vocab_error(tokens) is None,
        s.len() > 0,
    ensures
        suffix_set(tokens, s).finite(),
        suffix_set(tokens, s).len() <= s.len(),
{
    let k = suffix_set(tokens, s);
    lemma_suffix_tree(tokens, s);
    lexicon::lemma_accepted(tokens);
    lexicon::lemma_canon(tokens);
    let lens = vstd::set_lib::set_int_range(1, (s.len() + 1) as int);
    vstd::set_lib::lemma_int_range(1, (s.len() + 1) as int);
    let f = |x: int| lexicon::token(tokens, x).len() as int;
    let image = k.map(f);
    assert forall|n: int| image.contains(n) implies lens.contains(n) by {
        let x = choose|x: int| k.contains(x) && n == f(x);
        assert(lexicon::token(tokens, x).len() > 0);
    }
    k.lemma_map_finite(f);
    assert forall|x: int, y: int| k.contains(x) && k.contains(y) && #[trigger] f(x) == #[trigger] f(
        y,
    ) implies x == y by {
        numbering::lemma_same_token(tokens, x, y);
    }
    vstd::set_lib::lemma_map_size(k, image, f);
    vstd::set_lib::lemma_len_subset(image, lens);
}

/// The interval of a token of two or more bytes is not empty: it holds the left component.
pub proof fn lemma_interval_nonempty(tokens: Seq<Seq<u8>>, v: int)
    requires
        lexicon::vocab_error(tokens) is None,
        0 <= v < lexicon::canon(tokens).len(),
        lexicon::token(tokens, v).len() >= 2,
    ensures
        valid(tokens, v).start < valid(tokens, v).end,
        valid(tokens, v).start == numbering::timestamp(tokens, numbering::pre_id(tokens, v)),
        0 <= numbering::pre_id(tokens, v) < v,
{
    numbering::lemma_components(tokens, v);
    numbering::lemma_timestamp(tokens);
    let p = numbering::pre_id(tokens, v);
    let ranks = lexicon::rank_map(tokens);
    numbering::lemma_follows(tokens, p, v);
    assert(successor::in_subtree(ranks, lexicon::token(tokens, p), lexicon::token(tokens, p)));
}

/// The timestamps that token `v` may follow.
pub open spec fn valid(tokens: Seq<Seq<u8>>, v: int) -> Interval {
    numbering::valid_of(tokens, v)
}

/// No last token can be followed by two tokens with the same right component.
proof fn lemma_one_follows(tokens: Seq<Seq<u8>>, h: int, v: int, w: int)
    requires
        lexicon::vocab_error(tokens) is None,
        0 <= h < lexicon::canon(tokens).len(),
        0 <= v < lexicon::canon(tokens).len(),
        0 <= w < lexicon::canon(tokens).len(),
        lexicon::token(tokens, v).len() >= 2,
        lexicon::token(tokens, w).len() >= 2,
        numbering::suc_id(tokens, v) == numbering::suc_id(tokens, w),
        valid(tokens, v).holds(numbering::timestamp(tokens, h) as u32),
        valid(tokens, w).holds(numbering::timestamp(tokens, h) as u32),
    ensures
        v == w,
{
    let ranks = lexicon::rank_map(tokens);
    let par = numbering::parents(tokens);
    numbering::lemma_follows(tokens, h, v);
    numbering::lemma_follows(tokens, h, w);
    numbering::lemma_components(tokens, v);
    numbering::lemma_components(tokens, w);
    numbering::lemma_forest(tokens);
    lexicon::lemma_accepted(tokens);
    lexicon::lemma_canon(tokens);
    let hb = lexicon::token(tokens, h);
    let u = lexicon::token(tokens, numbering::suc_id(tokens, v));
    let s = hb + u;
    let last = merge::last_token(ranks, s);
    assert(merge::chop(s, u.len()) =~= hb);
    lemma_last_of_canonical(tokens, hb);
    lemma_joined(tokens, h, v, s);
    lemma_joined(tokens, h, w, s);
    successor::theorem_last_token(ranks, s, lexicon::token(tokens, v));
    successor::theorem_last_token(ranks, s, lexicon::token(tokens, w));
    lemma_last_number(tokens, s);
    let x = numbering::id_of(tokens, last);
    numbering::lemma_below(tokens, x, v);
    numbering::lemma_below(tokens, x, w);
    component::lemma_siblings_apart(par, x, v, w);
}

/// If `v` may follow `h`, then `h` followed by the right component of `v` ends with `v`.
proof fn lemma_joined(tokens: Seq<Seq<u8>>, h: int, v: int, s: Seq<u8>)
    requires
        lexicon::vocab_error(tokens) is None,
        0 <= h < lexicon::canon(tokens).len(),
        0 <= v < lexicon::canon(tokens).len(),
        lexicon::token(tokens, v).len() >= 2,
        s == lexicon::token(tokens, h) + lexicon::token(tokens, numbering::suc_id(tokens, v)),
        successor::follows(
            lexicon::rank_map(tokens),
            lexicon::token(tokens, h),
            lexicon::token(tokens, v),
        ),
    ensures
        automaton::ends_with(s, lexicon::token(tokens, v)),
{
    let ranks = lexicon::rank_map(tokens);
    lexicon::lemma_accepted(tokens);
    lexicon::lemma_canon(tokens);
    numbering::lemma_components(tokens, v);
    let hb = lexicon::token(tokens, h);
    let t = lexicon::token(tokens, v);
    let p = merge::pre(ranks, t);
    successor::lemma_subtree_suffix(ranks, hb, p);
    assert(s.skip(s.len() - t.len()) =~= hb.skip(hb.len() - p.len()) + merge::suc(ranks, t));
}

/// The last token of a canonical token is itself.
pub proof fn lemma_last_of_canonical(tokens: Seq<Seq<u8>>, t: Seq<u8>)
    requires
        merge::canonical(lexicon::rank_map(tokens), t),
    ensures
        merge::last_token(lexicon::rank_map(tokens), t) == t,
{
    assert(merge::tokenize(lexicon::rank_map(tokens), t) == seq![t]);
    assert(seq![t].last() == t);
}

/// The last token of a text is canonical and ends the text.
pub proof fn lemma_last_number(tokens: Seq<Seq<u8>>, s: Seq<u8>)
    requires
        lexicon::vocab_error(tokens) is None,
        s.len() > 0,
    ensures
        ({
            let last = merge::last_token(lexicon::rank_map(tokens), s);
            &&& merge::canonical(lexicon::rank_map(tokens), last)
            &&& automaton::ends_with(s, last)
            &&& 0 <= numbering::id_of(tokens, last) < lexicon::canon(tokens).len()
            &&& lexicon::token(tokens, numbering::id_of(tokens, last)) == last
            &&& suffix_set(tokens, s).contains(numbering::id_of(tokens, last))
        }),
{
    let ranks = lexicon::rank_map(tokens);
    let last = merge::last_token(ranks, s);
    lexicon::lemma_accepted(tokens);
    merge::lemma_tokenize_back(ranks, s);
    assert(s.skip(s.len() - last.len()) =~= last);
    numbering::lemma_id(tokens, last);
}

/// The intervals of two tokens with the same right component do not overlap.
pub proof fn law_sibling_intervals_disjoint(tokens: Seq<Seq<u8>>, v: int, w: int)
    requires
        lexicon::vocab_error(tokens) is None,
        0 <= v < lexicon::canon(tokens).len(),
        0 <= w < lexicon::canon(tokens).len(),
        v != w,
        lexicon::token(tokens, v).len() >= 2,
        lexicon::token(tokens, w).len() >= 2,
        numbering::suc_id(tokens, v) == numbering::suc_id(tokens, w),
    ensures
        valid(tokens, v).end <= valid(tokens, w).start || valid(tokens, w).end <= valid(
            tokens,
            v,
        ).start,
        valid(tokens, v).start != valid(tokens, w).start,
{
    lemma_interval_nonempty(tokens, v);
    lemma_interval_nonempty(tokens, w);
    numbering::lemma_timestamp(tokens);
    let p = numbering::pre_id(tokens, v);
    let q = numbering::pre_id(tokens, w);
    if valid(tokens, v).holds(valid(tokens, w).start) {
        lemma_one_follows(tokens, q, v, w);
    }
    if valid(tokens, w).holds(valid(tokens, v).start) {
        lemma_one_follows(tokens, p, v, w);
    }
}

} // verus!
