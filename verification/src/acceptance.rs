//! Which token lists and special tokens are accepted, told by the lists alone.

use vstd::prelude::*;

use crate::automaton;
use crate::builder;
use crate::encoding;
use crate::error::ErrorView;
use crate::lexicon;
use crate::merge;
use crate::promises;
use crate::specials;

verus! {

/// Whether no byte string stands in the list twice.
pub open spec fn distinct(list: Seq<Seq<u8>>) -> bool {
    forall|i: int, j: int| 0 <= i < j < list.len() ==> #[trigger] list[i] != #[trigger] list[j]
}

/// Whether a single byte is in the list, at whatever position.
pub open spec fn has_byte(tokens: Seq<Seq<u8>>, b: u8) -> bool {
    exists|i: int| 0 <= i < tokens.len() && #[trigger] tokens[i] == seq![b]
}

/// Whether merging makes the whole of `t` from its single bytes.
pub open spec fn self_made(tokens: Seq<Seq<u8>>, t: Seq<u8>) -> bool {
    t.len() > 0 && exists|run: Seq<Seq<Seq<u8>>>| #[trigger]
        promises::merge_run(tokens, t, run) && run.last() == seq![t]
}

/// Whether merging makes `t` from `a` and `b` in the last step.
pub open spec fn made_of(tokens: Seq<Seq<u8>>, t: Seq<u8>, a: Seq<u8>, b: Seq<u8>) -> bool {
    exists|run: Seq<Seq<Seq<u8>>>| #[trigger]
        promises::merge_run(tokens, t, run) && run.last() == seq![t] && run.len() >= 2 && run[
        run.len() - 2] == seq![a, b]
}

/// The number of bytes of those of the first `n` tokens that merging makes.
pub open spec fn made_bytes(tokens: Seq<Seq<u8>>, n: int) -> int
    decreases n,
{
    if n <= 0 {
        0
    } else if self_made(tokens, tokens[n - 1]) {
        made_bytes(tokens, n - 1) + tokens[n - 1].len()
    } else {
        made_bytes(tokens, n - 1)
    }
}

/// Whether the token at `i` stands behind both parts that it is made of.
pub open spec fn behind_parts(tokens: Seq<Seq<u8>>, i: int) -> bool {
    forall|a: Seq<u8>, b: Seq<u8>, x: int|
        #![trigger made_of(tokens, tokens[i], a, b), tokens[x]]
        made_of(tokens, tokens[i], a, b) && 0 <= x < tokens.len() && (tokens[x] == a || tokens[x]
            == b) ==> x < i
}

/// Whether the token at `i` is made by merging, but too long, together with those before it too
/// long, or not behind its parts.
pub open spec fn at_fault(tokens: Seq<Seq<u8>>, i: int) -> bool {
    &&& 0 <= i < tokens.len()
    &&& self_made(tokens, tokens[i])
    &&& tokens[i].len() > u16::MAX || made_bytes(tokens, i + 1) > u32::MAX || !behind_parts(
        tokens,
        i,
    )
}

/// Whether a token list is complete and proper, and fits its tables.
pub open spec fn acceptable(tokens: Seq<Seq<u8>>) -> bool {
    &&& tokens.len() <= u32::MAX
    &&& distinct(tokens)
    &&& forall|b: u8| #[trigger] has_byte(tokens, b)
    &&& forall|i: int| 0 <= i < tokens.len() ==> #[trigger] tokens[i].len() > 0
    &&& forall|i: int| !#[trigger] at_fault(tokens, i)
}

/// What is said of the token at `i` when it is at fault.
pub open spec fn names_fault(tokens: Seq<Seq<u8>>, i: int, e: ErrorView) -> bool {
    let t = tokens[i];
    if t.len() > u16::MAX {
        e == (ErrorView::TokenTooLong { token: t.take(32), len: t.len() as int })
    } else if made_bytes(tokens, i + 1) > u32::MAX {
        e == (ErrorView::VocabTooLarge {
            what: "vocabulary bytes"@,
            len: made_bytes(tokens, i + 1),
        })
    } else {
        exists|x: int, y: int|
            {
                &&& 0 <= x < tokens.len()
                &&& 0 <= y < tokens.len()
                &&& made_of(tokens, t, #[trigger] tokens[x], #[trigger] tokens[y])
                &&& x >= i || y >= i
                &&& e == (ErrorView::NotProper {
                    token: t,
                    rank: i,
                    pre: tokens[x],
                    pre_rank: x,
                    suc: tokens[y],
                    suc_rank: y,
                })
            }
    }
}

/// Whether the token at `b` is the first that stands in the list before, at `a`.
pub open spec fn repeats(list: Seq<Seq<u8>>, a: int, b: int) -> bool {
    0 <= a < b < list.len() && list[a] == list[b] && distinct(list.take(b))
}

/// Whether `e` says what is wrong with a token list: that it is too long, the first repetition, the
/// smallest missing byte, that a token is empty, or the first token that is at fault, whichever of
/// these comes first.
pub open spec fn names_vocab_fault(tokens: Seq<Seq<u8>>, e: ErrorView) -> bool {
    if tokens.len() > u32::MAX {
        e == (ErrorView::VocabTooLarge { what: "tokens"@, len: tokens.len() as int })
    } else if !distinct(tokens) {
        exists|a: int, b: int| #[trigger]
            repeats(tokens, a, b) && e == (ErrorView::DuplicateToken {
                token: tokens[b],
                first: a,
                second: b,
            })
    } else if exists|b: u8| !#[trigger] has_byte(tokens, b) {
        exists|b: u8|
            {
                &&& !#[trigger] has_byte(tokens, b)
                &&& forall|c: u8| c < b ==> #[trigger] has_byte(tokens, c)
                &&& e == ErrorView::MissingByteToken(b)
            }
    } else if exists|i: int| 0 <= i < tokens.len() && #[trigger] tokens[i].len() == 0 {
        e == ErrorView::EmptyToken
    } else {
        exists|i: int|
            {
                &&& #[trigger] at_fault(tokens, i)
                &&& forall|h: int| h < i ==> !#[trigger] at_fault(tokens, h)
                &&& names_fault(tokens, i, e)
            }
    }
}

/// The two ways of saying that merging makes the whole of a byte string.
pub proof fn lemma_self_made(tokens: Seq<Seq<u8>>, t: Seq<u8>)
    requires
        tokens.no_duplicates(),
        tokens.len() <= u32::MAX,
    ensures
        self_made(tokens, t) <==> merge::canonical(lexicon::rank_map(tokens), t),
{
    let run = promises::lemma_run_exists(tokens, t);
    if self_made(tokens, t) {
        let run2 = choose|run: Seq<Seq<Seq<u8>>>| #[trigger]
            promises::merge_run(tokens, t, run) && run.last() == seq![t];
        promises::lemma_run_is(tokens, t, run2);
    }
}

/// The two ways of saying what a byte string is made of.
pub proof fn lemma_made_of(tokens: Seq<Seq<u8>>, t: Seq<u8>, a: Seq<u8>, b: Seq<u8>)
    requires
        tokens.no_duplicates(),
        tokens.len() <= u32::MAX,
        merge::canonical(lexicon::rank_map(tokens), t),
    ensures
        made_of(tokens, t, a, b) <==> t.len() >= 2 && a == merge::pre(
            lexicon::rank_map(tokens),
            t,
        ) && b == merge::suc(lexicon::rank_map(tokens), t),
{
    let ranks = lexicon::rank_map(tokens);
    let run = promises::lemma_run_exists(tokens, t);
    if t.len() >= 2 {
        let n = run.len() - 2;
        assert(run[n] == merge::state(ranks, t, (t.len() - 2) as nat));
        assert(run[n] =~= seq![merge::pre(ranks, t), merge::suc(ranks, t)]);
    }
    if made_of(tokens, t, a, b) {
        let run2 = choose|run: Seq<Seq<Seq<u8>>>| #[trigger]
            promises::merge_run(tokens, t, run) && run.last() == seq![t] && run.len() >= 2 && run[
            run.len() - 2] == seq![a, b];
        promises::lemma_run_is(tokens, t, run2);
        let n = run2.len() - 2;
        assert(run2[n] == merge::state(ranks, t, n as nat));
        assert(run2[n][0] == a && run2[n][1] == b);
    }
}

/// The canonical tokens of the beginning of a list come first.
proof fn lemma_canon_prefix(tokens: Seq<Seq<u8>>, n: int, m: int)
    requires
        0 <= n <= m,
    ensures
        lexicon::canon_upto(tokens, n).is_prefix_of(lexicon::canon_upto(tokens, m)),
    decreases m,
{
    if n < m {
        lemma_canon_prefix(tokens, n, m - 1);
    }
}

/// The bytes that merging makes are those of the canonical tokens.
proof fn lemma_made_bytes(tokens: Seq<Seq<u8>>, n: int)
    requires
        tokens.no_duplicates(),
        tokens.len() <= u32::MAX,
        0 <= n <= tokens.len(),
    ensures
        made_bytes(tokens, n) == lexicon::total_len(
            tokens,
            lexicon::canon_upto(tokens, n).len() as int,
        ),
    decreases n,
{
    if n > 0 {
        lemma_made_bytes(tokens, n - 1);
        lemma_self_made(tokens, tokens[n - 1]);
        let now = lexicon::canon_upto(tokens, n);
        lemma_canon_prefix(tokens, n, tokens.len() as int);
        if merge::canonical(lexicon::rank_map(tokens), tokens[n - 1]) {
            let m = now.len() - 1;
            assert(now[m] == n - 1);
            assert(lexicon::canon(tokens)[m] == now[m]);
            assert(lexicon::token(tokens, m) == tokens[n - 1]);
        }
    }
}

/// A canonical token is rejected exactly if it is at fault, and for that fault.
proof fn lemma_entry_fault(tokens: Seq<Seq<u8>>, m: int)
    requires
        tokens.no_duplicates(),
        tokens.len() <= u32::MAX,
        lexicon::all_bytes(tokens),
        0 <= m < lexicon::canon(tokens).len(),
    ensures
        lexicon::entry_error(tokens, m) is Some <==> at_fault(tokens, lexicon::canon(tokens)[m]),
        lexicon::entry_error(tokens, m) is Some ==> names_fault(
            tokens,
            lexicon::canon(tokens)[m],
            lexicon::entry_error(tokens, m)->0,
        ),
{
    let ranks = lexicon::rank_map(tokens);
    let canon = lexicon::canon(tokens);
    let i = canon[m];
    let t = lexicon::token(tokens, m);
    lexicon::lemma_canon(tokens);
    lexicon::lemma_rank_map(tokens);
    assert(t == tokens[i]);
    lemma_self_made(tokens, t);
    let upto = lexicon::canon_upto(tokens, i + 1);
    lemma_canon_prefix(tokens, i + 1, tokens.len() as int);
    lexicon::lemma_canon_upto(tokens, i + 1);
    assert(upto[upto.len() - 1] == i);
    assert(canon[upto.len() - 1] == i);
    assert(upto.len() == m + 1) by {
        if upto.len() - 1 < m {
            assert(canon[upto.len() - 1] < canon[m]);
        } else if m < upto.len() - 1 {
            assert(canon[m] < canon[upto.len() - 1]);
        }
    }
    lemma_made_bytes(tokens, i + 1);
    assert(merge::has_bytes(ranks)) by {
        assert forall|b: u8| #[trigger] ranks.contains_key(seq![b]) by {
            assert(tokens.contains(seq![b]));
        }
    }
    if t.len() >= 2 {
        let a = merge::pre(ranks, t);
        let b = merge::suc(ranks, t);
        merge::lemma_canonical_split(ranks, t);
        merge::lemma_canonical_entry(ranks, a);
        merge::lemma_canonical_entry(ranks, b);
        let x = ranks[a] as int;
        let y = ranks[b] as int;
        lemma_made_of(tokens, t, a, b);
        assert(made_of(tokens, tokens[i], tokens[x], tokens[y]));
        assert(behind_parts(tokens, i) <==> lexicon::proper_at(ranks, t)) by {
            if lexicon::proper_at(ranks, t) {
                assert forall|c: Seq<u8>, d: Seq<u8>, z: int|
                    #![trigger made_of(tokens, tokens[i], c, d), tokens[z]]
                    made_of(tokens, tokens[i], c, d) && 0 <= z < tokens.len() && (tokens[z] == c
                        || tokens[z] == d) implies z < i by {
                    lemma_made_of(tokens, t, c, d);
                    assert(ranks[tokens[z]] == z);
                }
            }
        }
    } else {
        assert forall|c: Seq<u8>, d: Seq<u8>, z: int|
            #![trigger made_of(tokens, tokens[i], c, d), tokens[z]]
            made_of(tokens, tokens[i], c, d) && 0 <= z < tokens.len() && (tokens[z] == c
                || tokens[z] == d) implies z < i by {
            lemma_made_of(tokens, t, c, d);
        }
        assert(behind_parts(tokens, i));
    }
}

/// The first rejection among the canonical tokens.
proof fn lemma_table_first(tokens: Seq<Seq<u8>>, i: int) -> (m: int)
    requires
        0 <= i,
    ensures
        match lexicon::table_error(tokens, i) {
            Some(e) => {
                &&& i <= m < lexicon::canon(tokens).len()
                &&& lexicon::entry_error(tokens, m) == Some(e)
                &&& forall|h: int| i <= h < m ==> #[trigger] lexicon::entry_error(tokens, h) is None
            },
            None => forall|h: int|
                i <= h < lexicon::canon(tokens).len() ==> #[trigger] lexicon::entry_error(
                    tokens,
                    h,
                ) is None,
        },
    decreases lexicon::canon(tokens).len() - i,
{
    if i >= lexicon::canon(tokens).len() || lexicon::entry_error(tokens, i) is Some {
        i
    } else {
        lemma_table_first(tokens, i + 1)
    }
}

/// In a list with repetitions one of them is the first.
proof fn lemma_first_repeat(list: Seq<Seq<u8>>, n: int) -> (j: int)
    requires
        0 <= n <= list.len(),
        !list.take(n).no_duplicates(),
    ensures
        0 <= j < n,
        lexicon::first_repeat(list, j),
    decreases n,
{
    if n == 0 {
        assert(list.take(0).no_duplicates());
        0
    } else if list.take(n - 1).no_duplicates() {
        let (a, b) = choose|a: int, b: int|
            0 <= a < n && 0 <= b < n && a != b && list.take(n)[a] == list.take(n)[b];
        let c = if a == n - 1 {
            b
        } else {
            a
        };
        if a != n - 1 && b != n - 1 {
            assert(list.take(n - 1)[a] == list.take(n - 1)[b]);
        }
        assert(list.take(n - 1)[c] == list[n - 1]);
        n - 1
    } else {
        lemma_first_repeat(list, n - 1)
    }
}

/// Where a byte is missing, one is the smallest that is.
proof fn lemma_first_missing(tokens: Seq<Seq<u8>>, b: u8) -> (r: u8)
    requires
        !tokens.contains(seq![b]),
    ensures
        lexicon::first_missing(tokens, r),
    decreases b,
{
    if forall|c: u8| c < b ==> #[trigger] tokens.contains(seq![c]) {
        b
    } else {
        let c = choose|c: u8| c < b && !#[trigger] tokens.contains(seq![c]);
        lemma_first_missing(tokens, c)
    }
}

/// A list holds a byte exactly if it contains it.
proof fn lemma_has_byte(tokens: Seq<Seq<u8>>)
    ensures
        forall|b: u8| #[trigger] has_byte(tokens, b) == tokens.contains(seq![b]),
{
    assert forall|b: u8| #[trigger] has_byte(tokens, b) == tokens.contains(seq![b]) by {
        if tokens.contains(seq![b]) {
            let i = choose|i: int| 0 <= i < tokens.len() && tokens[i] == seq![b];
            assert(tokens[i] == seq![b]);
        }
    }
}

/// The two ways of saying that nothing stands in a list twice.
proof fn lemma_distinct(list: Seq<Seq<u8>>)
    ensures
        distinct(list) <==> list.no_duplicates(),
{
    if distinct(list) {
        assert forall|i: int, j: int| 0 <= i < list.len() && 0 <= j < list.len() && i
            != j implies list[i] != list[j] by {
            if i < j {
                assert(list[i] != list[j]);
            } else {
                assert(list[j] != list[i]);
            }
        }
    }
}

/// A token list is accepted if and only if it has at most `u32::MAX` tokens, all different and none
/// empty, holds every single byte, and each of its tokens that merging makes is short enough,
/// alone and together with those before it, and stands behind the parts that it is made of. What
/// is rejected is rejected for the first fault.
#[verifier::spinoff_prover]
#[verifier::rlimit(40)]
pub proof fn law_vocabulary(tokens: Seq<Seq<u8>>)
    ensures
        lexicon::vocab_error(tokens) is None <==> acceptable(tokens),
        match lexicon::vocab_error(tokens) {
            Some(e) => names_vocab_fault(tokens, e),
            None => true,
        },
{
    lemma_distinct(tokens);
    lemma_has_byte(tokens);
    if tokens.len() > u32::MAX {
    } else if !tokens.no_duplicates() {
        assert(tokens.take(tokens.len() as int) =~= tokens);
        let j0 = lemma_first_repeat(tokens, tokens.len() as int);
        let j = choose|j: int| lexicon::first_repeat(tokens, j);
        assert(lexicon::first_repeat(tokens, j));
        let a = tokens.take(j).index_of(tokens[j]);
        assert(tokens.take(j).contains(tokens[j]));
        assert(0 <= a < j && tokens.take(j)[a] == tokens[j]);
        lemma_distinct(tokens.take(j));
        assert(repeats(tokens, a, j));
    } else if !lexicon::all_bytes(tokens) {
        let b0 = choose|b: u8| !#[trigger] tokens.contains(seq![b]);
        let b1 = lemma_first_missing(tokens, b0);
        let b = choose|b: u8| lexicon::first_missing(tokens, b);
        assert(lexicon::first_missing(tokens, b));
        assert(!has_byte(tokens, b));
        assert forall|c: u8| c < b implies #[trigger] has_byte(tokens, c) by {
            assert(tokens.contains(seq![c]));
        }
    } else {
        assert forall|b: u8| #[trigger] has_byte(tokens, b) by {
            assert(tokens.contains(seq![b]));
        }
        if exists|i: int| 0 <= i < tokens.len() && #[trigger] tokens[i].len() == 0 {
        } else {
            let m = lemma_table_first(tokens, 0);
            lexicon::lemma_canon(tokens);
            lexicon::lemma_canon_upto(tokens, tokens.len() as int);
            assert forall|h: int| #[trigger] at_fault(tokens, h) implies exists|x: int|
                0 <= x < lexicon::canon(tokens).len() && #[trigger] lexicon::canon(tokens)[x] == h
                    && lexicon::entry_error(tokens, x) is Some by {
                lemma_self_made(tokens, tokens[h]);
                assert(lexicon::canon(tokens).contains(h));
                let x = choose|x: int|
                    0 <= x < lexicon::canon(tokens).len() && lexicon::canon(tokens)[x] == h;
                lemma_entry_fault(tokens, x);
                assert(lexicon::canon(tokens)[x] == h);
            }
            if lexicon::table_error(tokens, 0) is Some {
                lemma_entry_fault(tokens, m);
                let i = lexicon::canon(tokens)[m];
                assert forall|h: int| h < i implies !#[trigger] at_fault(tokens, h) by {
                    if at_fault(tokens, h) {
                        let x = choose|x: int|
                            0 <= x < lexicon::canon(tokens).len() && #[trigger] lexicon::canon(
                                tokens,
                            )[x] == h && lexicon::entry_error(tokens, x) is Some;
                        if m < x {
                            assert(lexicon::canon(tokens)[m] < lexicon::canon(tokens)[x]);
                        }
                        assert(lexicon::entry_error(tokens, x) is None);
                    }
                }
                assert(at_fault(tokens, i));
            }
        }
    }
}

/// The byte strings of the special tokens.
pub open spec fn special_strings(specials: Seq<(Seq<u8>, u32)>) -> Seq<Seq<u8>> {
    Seq::new(specials.len(), |i: int| specials[i].0)
}

/// Whether the special tokens before `i` leave it its id and its byte string, and these are in
/// order by themselves.
pub open spec fn special_fits(tokens: Seq<Seq<u8>>, specials: Seq<(Seq<u8>, u32)>, i: int) -> bool {
    &&& 0 < specials[i].0.len() <= u16::MAX
    &&& specials[i].1 >= tokens.len()
    &&& forall|h: int|
        0 <= h < i ==> (#[trigger] specials[h]).1 != specials[i].1 && specials[h].0
            != specials[i].0
}

/// Whether the special tokens are neither empty nor too long, have ids that are no ranks, and no two
/// of them, in whatever order, have the same id or the same byte string.
pub open spec fn well_named(tokens: Seq<Seq<u8>>, specials: Seq<(Seq<u8>, u32)>) -> bool {
    &&& forall|i: int|
        0 <= i < specials.len() ==> 0 < (#[trigger] specials[i]).0.len() <= u16::MAX
            && specials[i].1 >= tokens.len()
    &&& forall|i: int, j: int|
        0 <= i < specials.len() && 0 <= j < specials.len() && i != j ==> (#[trigger] specials[i]).1
            != (#[trigger] specials[j]).1 && specials[i].0 != specials[j].0
}

/// Whether a special token stands in the token at `i`, and merging makes that token.
pub open spec fn in_token(tokens: Seq<Seq<u8>>, specials: Seq<(Seq<u8>, u32)>, i: int) -> bool {
    &&& 0 <= i < tokens.len()
    &&& self_made(tokens, tokens[i])
    &&& exists|p: int, j: int| promises::special_at(specials, tokens[i], p, j)
}

/// Whether special token `j` stands at `p` in special token `i` and is not the whole of it.
pub open spec fn stands_inside(specials: Seq<(Seq<u8>, u32)>, i: int, p: int, j: int) -> bool {
    &&& promises::special_at(specials, specials[i].0, p, j)
    &&& p != 0 || specials[j].0.len() != specials[i].0.len()
}

/// Whether another special token stands in special token `i`.
pub open spec fn in_special(specials: Seq<(Seq<u8>, u32)>, i: int) -> bool {
    0 <= i < specials.len() && exists|p: int, j: int| stands_inside(specials, i, p, j)
}

/// Whether special tokens are accepted together with the tokens: they are well named and stand
/// neither in a token that merging makes nor in each other, and their own automaton can be built.
pub open spec fn acceptable_specials(
    tokens: Seq<Seq<u8>>,
    specials: Seq<(Seq<u8>, u32)>,
) -> bool {
    specials.len() == 0 || {
        &&& well_named(tokens, specials)
        &&& automaton::probe_failure(special_strings(specials)) is None
        &&& forall|i: int| !#[trigger] in_token(tokens, specials, i)
        &&& forall|i: int| !#[trigger] in_special(specials, i)
    }
}

/// What is said of special token `i` when it does not fit.
pub open spec fn names_misfit(
    tokens: Seq<Seq<u8>>,
    specials: Seq<(Seq<u8>, u32)>,
    i: int,
    e: ErrorView,
) -> bool {
    let t = specials[i].0;
    if t.len() == 0 {
        e == ErrorView::EmptyToken
    } else if t.len() > u16::MAX {
        e == (ErrorView::TokenTooLong { token: t.take(32), len: t.len() as int })
    } else if specials[i].1 < tokens.len() || exists|h: int|
        0 <= h < i && (#[trigger] specials[h]).1 == specials[i].1 {
        e == (ErrorView::SpecialIdConflict { token: t, id: specials[i].1 as int })
    } else {
        exists|h: int|
            0 <= h < i && (#[trigger] specials[h]).0 == t && e == (ErrorView::DuplicateToken {
                token: t,
                first: h,
                second: i,
            })
    }
}

/// Whether, of the special tokens in a text, `j` at `p` is one that ends first and of these the
/// longest.
pub open spec fn found_first(
    specials: Seq<(Seq<u8>, u32)>,
    text: Seq<u8>,
    p: int,
    j: int,
) -> bool {
    &&& promises::special_at(specials, text, p, j)
    &&& forall|q: int, h: int| #[trigger]
        promises::special_at(specials, text, q, h) ==> p + specials[j].0.len() < q
            + specials[h].0.len() || (p + specials[j].0.len() == q + specials[h].0.len()
            && specials[h].0.len() <= specials[j].0.len())
}

/// Whether, of the other special tokens in special token `i`, `j` at `p` is one that ends first and
/// of these the longest.
pub open spec fn inside_first(specials: Seq<(Seq<u8>, u32)>, i: int, p: int, j: int) -> bool {
    &&& stands_inside(specials, i, p, j)
    &&& forall|q: int, h: int| #[trigger]
        stands_inside(specials, i, q, h) ==> p + specials[j].0.len() < q + specials[h].0.len() || (p
            + specials[j].0.len() == q + specials[h].0.len() && specials[h].0.len()
            <= specials[j].0.len())
}

/// Whether `e` says what is wrong with the special tokens: the first that does not fit, what the
/// automaton says, the first token with a special token in it, or the first special token with
/// another one in it, whichever of these comes first.
pub open spec fn names_special_fault(
    tokens: Seq<Seq<u8>>,
    specials: Seq<(Seq<u8>, u32)>,
    e: ErrorView,
) -> bool {
    if exists|i: int| 0 <= i < specials.len() && !#[trigger] special_fits(tokens, specials, i) {
        exists|i: int|
            {
                &&& 0 <= i < specials.len()
                &&& !#[trigger] special_fits(tokens, specials, i)
                &&& forall|h: int| 0 <= h < i ==> #[trigger] special_fits(tokens, specials, h)
                &&& names_misfit(tokens, specials, i, e)
            }
    } else if automaton::probe_failure(special_strings(specials)) is Some {
        e == ErrorView::Automaton(automaton::probe_failure(special_strings(specials))->0)
    } else if exists|i: int| in_token(tokens, specials, i) {
        exists|i: int, p: int, j: int|
            {
                &&& #[trigger] in_token(tokens, specials, i)
                &&& forall|h: int| h < i ==> !#[trigger] in_token(tokens, specials, h)
                &&& #[trigger] found_first(specials, tokens[i], p, j)
                &&& e == (ErrorView::SpecialTokenNotIsolated {
                    special: specials[j].0,
                    container: tokens[i],
                })
            }
    } else {
        exists|i: int, p: int, j: int|
            {
                &&& in_special(specials, i)
                &&& forall|h: int| h < i ==> !#[trigger] in_special(specials, h)
                &&& #[trigger] inside_first(specials, i, p, j)
                &&& e == (ErrorView::SpecialTokenNotIsolated {
                    special: specials[j].0,
                    container: specials[i].0,
                })
            }
    }
}

/// What is reported of a text stands there, by end positions and the longest first.
proof fn lemma_hits_order(patterns: Seq<Seq<u8>>, text: Seq<u8>)
    requires
        automaton::distinct_patterns(patterns),
        patterns.len() <= u32::MAX,
        text.len() <= u16::MAX,
    ensures
        ({
            let hits = automaton::all_hits(patterns, text);
            &&& forall|h: int|
                0 <= h < hits.len() ==> {
                    let hit = #[trigger] hits[h];
                    &&& hit.2 < patterns.len()
                    &&& 0 < hit.1 <= text.len()
                    &&& patterns[hit.2 as int].len() <= hit.1
                    &&& hit.0 == hit.1 - patterns[hit.2 as int].len()
                    &&& promises::stands_at(text, patterns[hit.2 as int], hit.0 as int)
                }
            &&& forall|g: int, h: int|
                0 <= g < h < hits.len() ==> (#[trigger] hits[g]).1 < (#[trigger] hits[h]).1 || (
                hits[g].1 == hits[h].1 && patterns[hits[g].2 as int].len()
                    > patterns[hits[h].2 as int].len())
        }),
    decreases text.len(),
{
    if text.len() > 0 {
        let front = text.drop_last();
        lemma_hits_order(patterns, front);
        let n = text.len() as int;
        let list = automaton::suffix_list(patterns, text, n);
        automaton::lemma_suffix_list(patterns, text, n);
        let before = automaton::all_hits(patterns, front);
        let here = list.map_values(
            |i: int| ((text.len() - patterns[i].len()) as usize, text.len() as usize, i as u32),
        );
        let hits = automaton::all_hits(patterns, text);
        assert(hits == before + here);
        assert forall|h: int| 0 <= h < hits.len() implies ({
            let hit = #[trigger] hits[h];
            &&& hit.2 < patterns.len()
            &&& 0 < hit.1 <= text.len()
            &&& patterns[hit.2 as int].len() <= hit.1
            &&& hit.0 == hit.1 - patterns[hit.2 as int].len()
            &&& promises::stands_at(text, patterns[hit.2 as int], hit.0 as int)
        }) by {
            if h < before.len() {
                assert(hits[h] == before[h]);
                let t = patterns[before[h].2 as int];
                let p = before[h].0 as int;
                assert(front.subrange(p, p + t.len()) =~= text.subrange(p, p + t.len()));
            } else {
                let a = h - before.len();
                assert(hits[h] == here[a]);
                let t = patterns[list[a]];
                assert(automaton::ends_with(text, t));
                assert(text.subrange(n - t.len(), n) =~= text.skip(n - t.len()));
            }
        }
        assert forall|g: int, h: int| 0 <= g < h < hits.len() implies (#[trigger] hits[g]).1 < (
        #[trigger] hits[h]).1 || (hits[g].1 == hits[h].1 && patterns[hits[g].2 as int].len()
            > patterns[hits[h].2 as int].len()) by {
            if h < before.len() {
                assert(hits[g] == before[g] && hits[h] == before[h]);
            } else {
                let b = h - before.len();
                assert(hits[h] == here[b]);
                if g < before.len() {
                    assert(hits[g] == before[g]);
                } else {
                    let a = g - before.len();
                    assert(hits[g] == here[a]);
                    assert(patterns[list[a]].len() > patterns[list[b]].len());
                }
            }
        }
    }
}

/// Every special token that stands in a text is reported there.
proof fn lemma_hit_of(specials: Seq<(Seq<u8>, u32)>, text: Seq<u8>, p: int, j: int) -> (h: int)
    requires
        automaton::distinct_patterns(specials::texts_of(specials)),
        specials.len() <= u32::MAX,
        text.len() <= u16::MAX,
        promises::special_at(specials, text, p, j),
    ensures
        0 <= h < automaton::all_hits(specials::texts_of(specials), text).len(),
        automaton::all_hits(specials::texts_of(specials), text)[h] == (
            p as usize,
            (p + specials[j].0.len()) as usize,
            j as u32,
        ),
{
    let texts = specials::texts_of(specials);
    let e = p + specials[j].0.len();
    specials::lemma_all_hits(texts, text);
    assert(texts[j] == specials[j].0);
    assert(text.take(e).skip(p) =~= text.subrange(p, e));
    assert(automaton::ends_with(text.take(e), texts[j]));
    let hits = automaton::all_hits(texts, text);
    let hit = ((e - texts[j].len()) as usize, e as usize, j as u32);
    assert(hits.contains(hit));
    choose|h: int| 0 <= h < hits.len() && hits[h] == hit
}

/// What is reported is a special token that stands there.
proof fn lemma_hit_stands(specials: Seq<(Seq<u8>, u32)>, text: Seq<u8>, h: int)
    requires
        automaton::distinct_patterns(specials::texts_of(specials)),
        specials.len() <= u32::MAX,
        text.len() <= u16::MAX,
        0 <= h < automaton::all_hits(specials::texts_of(specials), text).len(),
    ensures
        ({
            let hit = automaton::all_hits(specials::texts_of(specials), text)[h];
            &&& promises::special_at(specials, text, hit.0 as int, hit.2 as int)
            &&& hit.1 == hit.0 + specials[hit.2 as int].0.len()
        }),
{
    let texts = specials::texts_of(specials);
    lemma_hits_order(texts, text);
    let hit = automaton::all_hits(texts, text)[h];
    assert(texts[hit.2 as int] == specials[hit.2 as int].0);
    assert(texts[hit.2 as int].len() > 0);
}

/// A special token is rejected by itself exactly if it does not fit, and for that reason.
proof fn lemma_one_misfit(tokens: Seq<Seq<u8>>, specials: Seq<(Seq<u8>, u32)>, i: int)
    requires
        0 <= i < specials.len(),
    ensures
        specials::one_error(tokens.len() as int, specials, i) is None <==> special_fits(
            tokens,
            specials,
            i,
        ),
        specials::one_error(tokens.len() as int, specials, i) is Some ==> names_misfit(
            tokens,
            specials,
            i,
            specials::one_error(tokens.len() as int, specials, i)->0,
        ),
{
    let t = specials[i].0;
    let before = specials::texts_of(specials).take(i);
    if before.contains(t) {
        let h = before.index_of(t);
        assert(0 <= h < i && before[h] == t);
        assert(specials[h].0 == t);
    }
    assert forall|h: int| 0 <= h < i && (#[trigger] specials[h]).0 == t implies before.contains(t) by {
        assert(before[h] == t);
    }
}

/// The first rejection among the special tokens by themselves.
proof fn lemma_list_first(rank_space: int, specials: Seq<(Seq<u8>, u32)>, i: int) -> (m: int)
    requires
        0 <= i,
    ensures
        match specials::list_error(rank_space, specials, i) {
            Some(e) => {
                &&& i <= m < specials.len()
                &&& specials::one_error(rank_space, specials, m) == Some(e)
                &&& forall|h: int|
                    i <= h < m ==> #[trigger] specials::one_error(rank_space, specials, h) is None
            },
            None => forall|h: int|
                i <= h < specials.len() ==> #[trigger] specials::one_error(
                    rank_space,
                    specials,
                    h,
                ) is None,
        },
    decreases specials.len() - i,
{
    if i >= specials.len() || specials::one_error(rank_space, specials, i) is Some {
        i
    } else {
        lemma_list_first(rank_space, specials, i + 1)
    }
}

/// The first canonical token that is rejected because of a special token in it.
proof fn lemma_token_first(tokens: Seq<Seq<u8>>, specials: Seq<(Seq<u8>, u32)>, i: int) -> (m: int)
    requires
        0 <= i,
    ensures
        ({
            let texts = specials::texts_of(specials);
            match specials::token_error(tokens, specials, i) {
                Some(e) => {
                    let hits = automaton::all_hits(texts, lexicon::token(tokens, m));
                    &&& i <= m < lexicon::canon(tokens).len()
                    &&& hits.len() > 0
                    &&& e == (ErrorView::SpecialTokenNotIsolated {
                        special: specials[hits[0].2 as int].0,
                        container: lexicon::token(tokens, m),
                    })
                    &&& forall|h: int|
                        i <= h < m ==> automaton::all_hits(
                            texts,
                            #[trigger] lexicon::token(tokens, h),
                        ).len() == 0
                },
                None => forall|h: int|
                    i <= h < lexicon::canon(tokens).len() ==> automaton::all_hits(
                        texts,
                        #[trigger] lexicon::token(tokens, h),
                    ).len() == 0,
            }
        }),
    decreases lexicon::canon(tokens).len() - i,
{
    if i >= lexicon::canon(tokens).len() || automaton::all_hits(
        specials::texts_of(specials),
        lexicon::token(tokens, i),
    ).len() > 0 {
        i
    } else {
        lemma_token_first(tokens, specials, i + 1)
    }
}

/// The first report that is not the whole text.
proof fn lemma_inside_first(hits: Seq<(usize, usize, u32)>, n: int, i: int) -> (h: int)
    requires
        0 <= i,
    ensures
        match specials::first_inside(hits, n, i) {
            Some(j) => {
                &&& i <= h < hits.len()
                &&& hits[h].2 == j
                &&& !(hits[h].0 == 0 && hits[h].1 == n)
                &&& forall|g: int| i <= g < h ==> (#[trigger] hits[g]).0 == 0 && hits[g].1 == n
            },
            None => forall|g: int|
                i <= g < hits.len() ==> (#[trigger] hits[g]).0 == 0 && hits[g].1 == n,
        },
    decreases hits.len() - i,
{
    if i >= hits.len() || !(hits[i].0 == 0 && hits[i].1 == n) {
        i
    } else {
        lemma_inside_first(hits, n, i + 1)
    }
}

/// The first special token that is rejected because of another one in it.
proof fn lemma_special_first(specials: Seq<(Seq<u8>, u32)>, i: int) -> (m: int)
    requires
        0 <= i,
    ensures
        ({
            let texts = specials::texts_of(specials);
            match specials::special_error(specials, i) {
                Some(e) => {
                    let t = specials[m].0;
                    let found = specials::first_inside(
                        automaton::all_hits(texts, t),
                        t.len() as int,
                        0,
                    );
                    &&& i <= m < specials.len()
                    &&& found is Some
                    &&& e == (ErrorView::SpecialTokenNotIsolated {
                        special: specials[found->0 as int].0,
                        container: t,
                    })
                    &&& forall|h: int|
                        i <= h < m ==> specials::first_inside(
                            automaton::all_hits(texts, (#[trigger] specials[h]).0),
                            specials[h].0.len() as int,
                            0,
                        ) is None
                },
                None => forall|h: int|
                    i <= h < specials.len() ==> specials::first_inside(
                        automaton::all_hits(texts, (#[trigger] specials[h]).0),
                        specials[h].0.len() as int,
                        0,
                    ) is None,
            }
        }),
    decreases specials.len() - i,
{
    if i >= specials.len() || specials::first_inside(
        automaton::all_hits(specials::texts_of(specials), specials[i].0),
        specials[i].0.len() as int,
        0,
    ) is Some {
        i
    } else {
        lemma_special_first(specials, i + 1)
    }
}

/// All special tokens fit exactly if they are well named.
proof fn lemma_well_named(tokens: Seq<Seq<u8>>, specials: Seq<(Seq<u8>, u32)>)
    ensures
        well_named(tokens, specials) <==> forall|i: int|
            0 <= i < specials.len() ==> #[trigger] special_fits(tokens, specials, i),
{
    if forall|i: int| 0 <= i < specials.len() ==> #[trigger] special_fits(tokens, specials, i) {
        assert forall|i: int, j: int|
            0 <= i < specials.len() && 0 <= j < specials.len() && i != j implies (
        #[trigger] specials[i]).1 != (#[trigger] specials[j]).1 && specials[i].0 != specials[j].0 by {
            if i < j {
                assert(special_fits(tokens, specials, j));
            } else {
                assert(special_fits(tokens, specials, i));
            }
        }
        assert forall|i: int| 0 <= i < specials.len() implies 0 < (#[trigger] specials[i]).0.len()
            <= u16::MAX && specials[i].1 >= tokens.len() by {
            assert(special_fits(tokens, specials, i));
        }
    }
}

/// Where a special token stands in a canonical token, it is reported, and the first report is the
/// first found.
proof fn lemma_in_token(tokens: Seq<Seq<u8>>, specials: Seq<(Seq<u8>, u32)>, m: int)
    requires
        lexicon::vocab_error(tokens) is None,
        automaton::distinct_patterns(specials::texts_of(specials)),
        specials.len() <= u32::MAX,
        0 <= m < lexicon::canon(tokens).len(),
    ensures
        ({
            let hits = automaton::all_hits(
                specials::texts_of(specials),
                lexicon::token(tokens, m),
            );
            let i = lexicon::canon(tokens)[m];
            &&& 0 <= i < tokens.len()
            &&& tokens[i] == lexicon::token(tokens, m)
            &&& hits.len() > 0 <==> in_token(tokens, specials, i)
            &&& hits.len() > 0 ==> found_first(
                specials,
                tokens[i],
                hits[0].0 as int,
                hits[0].2 as int,
            )
        }),
{
    lexicon::lemma_accepted(tokens);
    lexicon::lemma_canon(tokens);
    let t = lexicon::token(tokens, m);
    let i = lexicon::canon(tokens)[m];
    assert(tokens[i] == t);
    assert(lexicon::entry_error(tokens, m) is None);
    lemma_self_made(tokens, t);
    let texts = specials::texts_of(specials);
    let hits = automaton::all_hits(texts, t);
    lemma_hits_order(texts, t);
    if in_token(tokens, specials, i) {
        let (p, j) = choose|p: int, j: int| promises::special_at(specials, tokens[i], p, j);
        let h = lemma_hit_of(specials, t, p, j);
    }
    if hits.len() > 0 {
        lemma_hit_stands(specials, t, 0);
        assert forall|q: int, x: int| #[trigger]
            promises::special_at(specials, t, q, x) implies hits[0].0 + specials[hits[0].2 as int].0.len()
            < q + specials[x].0.len() || (hits[0].0 + specials[hits[0].2 as int].0.len() == q
            + specials[x].0.len() && specials[x].0.len() <= specials[hits[0].2 as int].0.len()) by {
            let h = lemma_hit_of(specials, t, q, x);
            assert(texts[hits[0].2 as int] == specials[hits[0].2 as int].0);
            assert(texts[x] == specials[x].0);
            if h > 0 {
                assert(hits[0].1 < hits[h].1 || (hits[0].1 == hits[h].1 && texts[
                hits[0].2 as int].len() > texts[hits[h].2 as int].len()));
            }
        }
    }
}

/// Where another special token stands in a special token, it is reported, and the first such report
/// is the first found.
proof fn lemma_in_special(specials: Seq<(Seq<u8>, u32)>, i: int) -> (h: int)
    requires
        automaton::distinct_patterns(specials::texts_of(specials)),
        specials.len() <= u32::MAX,
        encoding::sized(specials),
        0 <= i < specials.len(),
    ensures
        ({
            let hits = automaton::all_hits(specials::texts_of(specials), specials[i].0);
            let found = specials::first_inside(hits, specials[i].0.len() as int, 0);
            &&& found is Some <==> in_special(specials, i)
            &&& found is Some ==> 0 <= h < hits.len() && found == Some(hits[h].2) && inside_first(
                specials,
                i,
                hits[h].0 as int,
                hits[h].2 as int,
            )
        }),
{
    let t = specials[i].0;
    let n = t.len() as int;
    let texts = specials::texts_of(specials);
    let hits = automaton::all_hits(texts, t);
    assert(0 < specials[i].0.len() <= u16::MAX);
    lemma_hits_order(texts, t);
    let h = lemma_inside_first(hits, n, 0);
    let found = specials::first_inside(hits, n, 0);
    if in_special(specials, i) {
        let (p, j) = choose|p: int, j: int| stands_inside(specials, i, p, j);
        assert(stands_inside(specials, i, p, j));
        let g = lemma_hit_of(specials, t, p, j);
        assert(!(hits[g].0 == 0 && hits[g].1 == n));
    }
    if found is Some {
        lemma_hit_stands(specials, t, h);
        let p = hits[h].0 as int;
        let j = hits[h].2 as int;
        assert(stands_inside(specials, i, p, j));
        assert forall|q: int, x: int| #[trigger]
            stands_inside(specials, i, q, x) implies p + specials[j].0.len() < q
            + specials[x].0.len() || (p + specials[j].0.len() == q + specials[x].0.len()
            && specials[x].0.len() <= specials[j].0.len()) by {
            let g = lemma_hit_of(specials, t, q, x);
            assert(!(hits[g].0 == 0 && hits[g].1 == n));
            assert(texts[j] == specials[j].0);
            assert(texts[x] == specials[x].0);
            if h < g {
                assert(hits[h].1 < hits[g].1 || (hits[h].1 == hits[g].1 && texts[
                hits[h].2 as int].len() > texts[hits[g].2 as int].len()));
            }
        }
    }
    h
}

/// Special tokens are accepted, in whatever order they are registered, if and only if they are
/// neither empty nor too long, have ids that are no ranks, differ in their ids and in their byte
/// strings, and stand neither in a token that merging makes nor in each other. What is rejected is
/// rejected for the first fault.
#[verifier::spinoff_prover]
#[verifier::rlimit(60)]
pub proof fn law_special_tokens(tokens: Seq<Seq<u8>>, specials: Seq<(Seq<u8>, u32)>)
    requires
        lexicon::vocab_error(tokens) is None,
    ensures
        specials::specials_error(tokens, specials) is None <==> acceptable_specials(
            tokens,
            specials,
        ),
        match specials::specials_error(tokens, specials) {
            Some(e) => specials.len() > 0 && names_special_fault(tokens, specials, e),
            None => true,
        },
{
    if specials.len() > 0 {
        let space = tokens.len() as int;
        let texts = specials::texts_of(specials);
        assert(special_strings(specials) =~= texts);
        lexicon::lemma_accepted(tokens);
        assert(tokens.contains(seq![0u8]));
        let m = lemma_list_first(space, specials, 0);
        assert forall|i: int| 0 <= i < specials.len() implies (#[trigger] special_fits(
            tokens,
            specials,
            i,
        ) <==> specials::one_error(space, specials, i) is None) by {
            lemma_one_misfit(tokens, specials, i);
        }
        lemma_well_named(tokens, specials);
        if specials::list_error(space, specials, 0) is Some {
            lemma_one_misfit(tokens, specials, m);
            assert(!special_fits(tokens, specials, m));
            assert forall|h: int| 0 <= h < m implies #[trigger] special_fits(tokens, specials, h) by {
                assert(specials::one_error(space, specials, h) is None);
            }
        } else {
            assert forall|i: int| 0 <= i < specials.len() implies #[trigger] special_fits(
                tokens,
                specials,
                i,
            ) by {
                assert(specials::one_error(space, specials, i) is None);
            }
            let n = specials.len() as int;
            specials::lemma_list_distinct(space, specials, n);
            assert(texts.take(n) =~= texts);
            assert(specials.take(n) =~= specials);
            assert forall|i: int| 0 <= i < texts.len() implies #[trigger] texts[i].len() > 0 by {
                assert(special_fits(tokens, specials, i));
            }
            if automaton::probe_failure(texts) is None {
                lemma_rest_of_specials(tokens, specials);
            }
        }
    }
}

/// What is said of special tokens that are well named and whose automaton can be built.
#[verifier::spinoff_prover]
#[verifier::rlimit(60)]
proof fn lemma_rest_of_specials(tokens: Seq<Seq<u8>>, specials: Seq<(Seq<u8>, u32)>)
    requires
        lexicon::vocab_error(tokens) is None,
        specials.len() > 0,
        automaton::distinct_patterns(specials::texts_of(specials)),
        specials.len() <= u32::MAX,
        encoding::sized(specials),
        forall|i: int| 0 <= i < specials.len() ==> #[trigger] special_fits(tokens, specials, i),
        specials::list_error(tokens.len() as int, specials, 0) is None,
        automaton::probe_failure(special_strings(specials)) is None,
        special_strings(specials) == specials::texts_of(specials),
    ensures
        specials::specials_error(tokens, specials) is None <==> (forall|i: int|
            !#[trigger] in_token(tokens, specials, i)) && (forall|i: int|
            !#[trigger] in_special(specials, i)),
        specials::specials_error(tokens, specials) is Some ==> names_special_fault(
            tokens,
            specials,
            specials::specials_error(tokens, specials)->0,
        ),
{
    let canon = lexicon::canon(tokens);
    let texts = specials::texts_of(specials);
    lexicon::lemma_accepted(tokens);
    lexicon::lemma_canon(tokens);
    lexicon::lemma_canon_upto(tokens, tokens.len() as int);
    let m = lemma_token_first(tokens, specials, 0);
    let s = lemma_special_first(specials, 0);
    assert forall|i: int| #[trigger] in_token(tokens, specials, i) implies exists|x: int|
        0 <= x < canon.len() && #[trigger] canon[x] == i && automaton::all_hits(
            texts,
            lexicon::token(tokens, x),
        ).len() > 0 by {
        lemma_self_made(tokens, tokens[i]);
        assert(canon.contains(i));
        let x = choose|x: int| 0 <= x < canon.len() && canon[x] == i;
        lemma_in_token(tokens, specials, x);
        assert(canon[x] == i);
    }
    assert forall|i: int| #[trigger] in_special(specials, i) implies specials::first_inside(
        automaton::all_hits(texts, specials[i].0),
        specials[i].0.len() as int,
        0,
    ) is Some by {
        let h = lemma_in_special(specials, i);
    }
    if specials::token_error(tokens, specials, 0) is Some {
        lemma_in_token(tokens, specials, m);
        let i = canon[m];
        let hits = automaton::all_hits(texts, lexicon::token(tokens, m));
        assert forall|h: int| h < i implies !#[trigger] in_token(tokens, specials, h) by {
            if in_token(tokens, specials, h) {
                let x = choose|x: int|
                    0 <= x < canon.len() && #[trigger] canon[x] == h && automaton::all_hits(
                        texts,
                        lexicon::token(tokens, x),
                    ).len() > 0;
                if m < x {
                    assert(canon[m] < canon[x]);
                }
            }
        }
        assert(in_token(tokens, specials, i));
        assert(found_first(specials, tokens[i], hits[0].0 as int, hits[0].2 as int));
    } else {
        assert forall|i: int| !#[trigger] in_token(tokens, specials, i) by {
            if in_token(tokens, specials, i) {
                let x = choose|x: int|
                    0 <= x < canon.len() && #[trigger] canon[x] == i && automaton::all_hits(
                        texts,
                        lexicon::token(tokens, x),
                    ).len() > 0;
                assert(automaton::all_hits(texts, lexicon::token(tokens, x)).len() == 0);
            }
        }
        if specials::special_error(specials, 0) is Some {
            let h = lemma_in_special(specials, s);
            let hits = automaton::all_hits(texts, specials[s].0);
            assert forall|x: int| x < s implies !#[trigger] in_special(specials, x) by {
                if in_special(specials, x) {
                    assert(specials[x].0.len() > 0);
                }
            }
            assert(in_special(specials, s));
            assert(inside_first(specials, s, hits[h].0 as int, hits[h].2 as int));
        } else {
            assert forall|i: int| !#[trigger] in_special(specials, i) by {
                if in_special(specials, i) {
                    assert(specials[i].0.len() > 0);
                }
            }
        }
    }
}

/// The byte strings of a list.
pub open spec fn byte_strings(list: Seq<Vec<u8>>) -> Seq<Seq<u8>> {
    Seq::new(list.len(), |i: int| list[i]@)
}

/// The byte strings and ids of a list.
pub open spec fn string_ids(list: Seq<(Vec<u8>, u32)>) -> Seq<(Seq<u8>, u32)> {
    Seq::new(list.len(), |i: int| (list[i].0@, list[i].1))
}

/// Whether `e` says why no tokenizer is built: what is wrong with the tokens, or with the special
/// tokens, or what the automaton says.
pub open spec fn names_build_fault(
    tokens: Seq<Seq<u8>>,
    specials: Seq<(Seq<u8>, u32)>,
    corpus: Seq<Seq<u8>>,
    e: ErrorView,
) -> bool {
    if !acceptable(tokens) {
        names_vocab_fault(tokens, e)
    } else if !acceptable_specials(tokens, specials) {
        names_special_fault(tokens, specials, e)
    } else {
        automaton::build_failure(encoding::all_patterns(tokens, specials), corpus) is Some && e
            == ErrorView::Automaton(
            automaton::build_failure(encoding::all_patterns(tokens, specials), corpus)->0,
        )
    }
}

/// A tokenizer is built if and only if the tokens are acceptable, the special tokens are too, and
/// the automaton can be built; the corpus does not matter but for the automaton. Otherwise the
/// first of these says why not.
pub proof fn law_build(
    tokens: Seq<Seq<u8>>,
    specials: Seq<(Seq<u8>, u32)>,
    corpus: Seq<Seq<u8>>,
)
    ensures
        builder::build_error(tokens, specials, corpus) is None <==> acceptable(tokens)
            && acceptable_specials(tokens, specials) && automaton::build_failure(
            encoding::all_patterns(tokens, specials),
            corpus,
        ) is None,
        match builder::build_error(tokens, specials, corpus) {
            Some(e) => names_build_fault(tokens, specials, corpus, e),
            None => true,
        },
{
    law_vocabulary(tokens);
    if lexicon::vocab_error(tokens) is None {
        law_special_tokens(tokens, specials);
    }
}

} // verus!
