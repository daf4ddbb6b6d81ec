//! The Aho-Corasick automata of `daachorse`: what is asked of them and what they report.

use daachorse::bytewise::iter::{FindOverlappingNoSuffixSliceIterator, FindOverlappingStepper};
use daachorse::{DoubleArrayAhoCorasick, DoubleArrayAhoCorasickBuilder};
use vstd::prelude::*;

use crate::entry::StateEntry;
use crate::utils;

verus! {

/// Whether the text `s` ends with `t`.
pub open spec fn ends_with(s: Seq<u8>, t: Seq<u8>) -> bool {
    t.len() <= s.len() && s.skip(s.len() - t.len()) == t
}

/// Whether a pattern list holds no empty pattern and no pattern twice.
pub open spec fn distinct_patterns(patterns: Seq<Seq<u8>>) -> bool {
    &&& patterns.no_duplicates()
    &&& forall|i: int| 0 <= i < patterns.len() ==> #[trigger] patterns[i].len() > 0
}

/// The patterns of a list of patterns with values.
pub open spec fn keys(patterns: Seq<(Seq<u8>, StateEntry)>) -> Seq<Seq<u8>> {
    patterns.map_values(|p: (Seq<u8>, StateEntry)| p.0)
}

/// Whether pattern `i` is `n` bytes long and ends the text.
pub open spec fn ends_text(patterns: Seq<Seq<u8>>, text: Seq<u8>, n: int, i: int) -> bool {
    0 <= i < patterns.len() && patterns[i].len() == n && ends_with(text, patterns[i])
}

/// The patterns of at most `n` bytes that end the text, the longest first.
pub open spec fn suffix_list(patterns: Seq<Seq<u8>>, text: Seq<u8>, n: int) -> Seq<int>
    decreases n,
{
    if n <= 0 {
        Seq::empty()
    } else if exists|i: int| ends_text(patterns, text, n, i) {
        seq![choose|i: int| ends_text(patterns, text, n, i)] + suffix_list(patterns, text, n - 1)
    } else {
        suffix_list(patterns, text, n - 1)
    }
}

/// The list holds exactly the patterns of at most `n` bytes that end the text, each once, and the
/// longest first; if a single byte ends the text, it comes last.
pub proof fn lemma_suffix_list(patterns: Seq<Seq<u8>>, text: Seq<u8>, n: int)
    requires
        distinct_patterns(patterns),
        0 <= n,
    ensures
        ({
            let list = suffix_list(patterns, text, n);
            &&& list.len() <= n
            &&& list.no_duplicates()
            &&& forall|a: int|
                0 <= a < list.len() ==> {
                    let i = #[trigger] list[a];
                    &&& 0 <= i < patterns.len()
                    &&& ends_with(text, patterns[i])
                    &&& 0 < patterns[i].len() <= n
                }
            &&& forall|a: int, b: int|
                0 <= a < b < list.len() ==> patterns[#[trigger] list[a]].len()
                    > patterns[#[trigger] list[b]].len()
            &&& forall|i: int|
                0 <= i < patterns.len() && ends_with(text, #[trigger] patterns[i])
                    && patterns[i].len() <= n ==> list.contains(i)
            &&& n >= 1 && (exists|i: int| ends_text(patterns, text, 1, i)) ==> list.len() > 0
                && ends_text(patterns, text, 1, list.last())
        }),
    decreases n,
{
    let list = suffix_list(patterns, text, n);
    if n > 0 {
        lemma_suffix_list(patterns, text, n - 1);
        let rest = suffix_list(patterns, text, n - 1);
        if exists|i: int| ends_text(patterns, text, n, i) {
            let i = choose|i: int| ends_text(patterns, text, n, i);
            assert(ends_text(patterns, text, n, i));
            assert(list =~= seq![i] + rest);
            assert forall|a: int, b: int| 0 <= a < b < list.len() implies patterns[#[trigger] list[a]].len()
                > patterns[#[trigger] list[b]].len() by {
                assert(list[b] == rest[b - 1]);
                if a > 0 {
                    assert(list[a] == rest[a - 1]);
                }
            }
            assert forall|a: int| 0 <= a < list.len() implies ({
                let j = #[trigger] list[a];
                &&& 0 <= j < patterns.len()
                &&& ends_with(text, patterns[j])
                &&& 0 < patterns[j].len() <= n
            }) by {
                if a > 0 {
                    assert(list[a] == rest[a - 1]);
                }
            }
            assert forall|j: int| 0 <= j < patterns.len() && ends_with(text, #[trigger] patterns[j])
                && patterns[j].len() <= n implies list.contains(j) by {
                if patterns[j].len() == n {
                    assert(patterns[j] == patterns[i]);
                    assert(list[0] == j);
                } else {
                    assert(rest.contains(j));
                    let a = choose|a: int| 0 <= a < rest.len() && rest[a] == j;
                    assert(list[a + 1] == j);
                }
            }
            assert forall|a: int, b: int| 0 <= a < list.len() && 0 <= b < list.len() && a
                != b implies list[a] != list[b] by {
                let (x, y) = if a < b {
                    (a, b)
                } else {
                    (b, a)
                };
                assert(patterns[list[x]].len() > patterns[list[y]].len());
            }
            if n > 1 && exists|j: int| ends_text(patterns, text, 1, j) {
                assert(list.last() == rest.last());
            }
        } else {
            assert forall|j: int| 0 <= j < patterns.len() && ends_with(text, #[trigger] patterns[j])
                && patterns[j].len() <= n implies list.contains(j) by {
                if patterns[j].len() == n {
                    assert(ends_text(patterns, text, n, j));
                }
            }
        }
    }
}

/// For each end position in turn, the longest pattern that ends there.
pub open spec fn longest_hits(patterns: Seq<(Seq<u8>, StateEntry)>, text: Seq<u8>) -> Seq<
    (usize, StateEntry),
>
    decreases text.len(),
{
    if text.len() == 0 {
        Seq::empty()
    } else {
        let before = longest_hits(patterns, text.drop_last());
        let here = suffix_list(keys(patterns), text, text.len() as int);
        if here.len() == 0 {
            before
        } else {
            before.push((text.len() as usize, patterns[here[0]].1))
        }
    }
}

/// For each end position in turn, the patterns that end there, the longest first: start, end and
/// number of each.
pub open spec fn all_hits(patterns: Seq<Seq<u8>>, text: Seq<u8>) -> Seq<(usize, usize, u32)>
    decreases text.len(),
{
    if text.len() == 0 {
        Seq::empty()
    } else {
        all_hits(patterns, text.drop_last()) + suffix_list(
            patterns,
            text,
            text.len() as int,
        ).map_values(
            |i: int| ((text.len() - patterns[i].len()) as usize, text.len() as usize, i as u32),
        )
    }
}

/// `daachorse::DoubleArrayAhoCorasick`, an automaton over byte patterns.
#[verifier::external_type_specification]
#[verifier::external_body]
#[verifier::reject_recursive_types(V)]
pub struct ExDoubleArrayAhoCorasick<V>(DoubleArrayAhoCorasick<V>);

/// `daachorse::bytewise::iter::FindOverlappingNoSuffixSliceIterator`, an iterator over the longest
/// matches.
#[verifier::external_type_specification]
#[verifier::external_body]
#[verifier::reject_recursive_types(P)]
#[verifier::reject_recursive_types(V)]
pub struct ExFindOverlappingNoSuffixSliceIterator<'a, P, V>(
    FindOverlappingNoSuffixSliceIterator<'a, P, V>,
);

/// `daachorse::bytewise::iter::FindOverlappingStepper`, an automaton that is fed byte by byte.
#[verifier::external_type_specification]
#[verifier::external_body]
#[verifier::reject_recursive_types(V)]
pub struct ExFindOverlappingStepper<'a, V>(FindOverlappingStepper<'a, V>);

/// The patterns of an automaton with their values.
pub uninterp spec fn patterns_of(pma: DoubleArrayAhoCorasick<StateEntry>) -> Seq<
    (Seq<u8>, StateEntry),
>;

/// Whether an automaton reports overlapping matches, which one of the standard match kind does.
pub uninterp spec fn standard(pma: DoubleArrayAhoCorasick<StateEntry>) -> bool;

/// The message with which building an automaton from these patterns fails, if it fails.
pub uninterp spec fn build_failure(
    patterns: Seq<(Seq<u8>, StateEntry)>,
    corpus: Seq<Seq<u8>>,
) -> Option<Seq<char>>;

/// The byte strings of a list of pairs, with their values.
pub open spec fn pattern_views(list: Seq<(Vec<u8>, StateEntry)>) -> Seq<(Seq<u8>, StateEntry)> {
    list.map_values(|p: (Vec<u8>, StateEntry)| (p.0@, p.1))
}

/// `DoubleArrayAhoCorasickBuilder::build_with_values`, with the layout corpus set: an automaton of
/// the standard match kind that holds the given patterns, or the message of the error. Which lists
/// of patterns are too large for it is not stated.
#[verifier::external_body]
pub(crate) fn build_automaton(patterns: Vec<(Vec<u8>, StateEntry)>, corpus: &[Vec<u8>]) -> (r: Result<
    DoubleArrayAhoCorasick<StateEntry>,
    String,
>)
    requires
        distinct_patterns(keys(pattern_views(patterns@))),
    ensures
        match r {
            Ok(pma) => build_failure(pattern_views(patterns@), utils::texts(corpus@)) is None
                && patterns_of(pma) == pattern_views(patterns@) && standard(pma),
            Err(m) => build_failure(pattern_views(patterns@), utils::texts(corpus@)) == Some(m@),
        },
{
    DoubleArrayAhoCorasickBuilder::new()
        .corpus(corpus)
        .build_with_values::<_, _, StateEntry>(patterns)
        .map_err(|e| e.to_string())
}

/// The matches that an iterator has still to report.
pub uninterp spec fn pending(
    it: FindOverlappingNoSuffixSliceIterator<'_, &[u8], StateEntry>,
) -> Seq<(usize, StateEntry)>;

/// `DoubleArrayAhoCorasick::find_overlapping_no_suffix_iter`: an iterator that will report, for
/// each end position at which some pattern ends, the longest such pattern.
#[verifier::external_body]
pub(crate) fn longest_matches<'a>(
    pma: &'a DoubleArrayAhoCorasick<StateEntry>,
    text: &'a [u8],
) -> (it: FindOverlappingNoSuffixSliceIterator<'a, &'a [u8], StateEntry>)
    requires
        distinct_patterns(keys(patterns_of(*pma))),
        standard(*pma),
    ensures
        pending(it) == longest_hits(patterns_of(*pma), text@),
{
    pma.find_overlapping_no_suffix_iter(text)
}

/// `Iterator::next` of that iterator: the end and the value of the next match.
#[verifier::external_body]
pub(crate) fn next_match<'a>(
    it: &mut FindOverlappingNoSuffixSliceIterator<'a, &'a [u8], StateEntry>,
) -> (r: Option<(usize, StateEntry)>)
    ensures
        match r {
            None => pending(*old(it)).len() == 0 && pending(*final(it)) == pending(*old(it)),
            Some(m) => pending(*old(it)).len() > 0 && m == pending(*old(it))[0]
                && pending(*final(it)) == pending(*old(it)).drop_first(),
        },
{
    it.next().map(|m| (m.end(), m.value()))
}

/// The patterns of the automaton that a stepper walks.
pub uninterp spec fn stepper_patterns(stepper: FindOverlappingStepper<'_, StateEntry>) -> Seq<
    (Seq<u8>, StateEntry),
>;

/// The bytes that a stepper has consumed.
pub uninterp spec fn stepper_text(stepper: FindOverlappingStepper<'_, StateEntry>) -> Seq<u8>;

/// `DoubleArrayAhoCorasick::find_overlapping_stepper`: a stepper that has consumed nothing.
#[verifier::external_body]
pub(crate) fn start_stepper<'a>(pma: &'a DoubleArrayAhoCorasick<StateEntry>) -> (r:
    FindOverlappingStepper<'a, StateEntry>)
    requires
        standard(*pma),
    ensures
        stepper_patterns(r) == patterns_of(*pma),
        stepper_text(r) == Seq::<u8>::empty(),
{
    pma.find_overlapping_stepper()
}

/// `FindOverlappingStepper::consume`: feeds one byte.
#[verifier::external_body]
pub(crate) fn consume_byte(stepper: &mut FindOverlappingStepper<'_, StateEntry>, byte: u8)
    requires
        stepper_text(*old(stepper)).len() < usize::MAX,
    ensures
        stepper_patterns(*final(stepper)) == stepper_patterns(*old(stepper)),
        stepper_text(*final(stepper)) == stepper_text(*old(stepper)).push(byte),
{
    stepper.consume(byte)
}

/// `FindOverlappingStepper::matches`: the values of the patterns that end the bytes consumed so
/// far, the longest pattern first.
#[verifier::external_body]
pub(crate) fn stepper_matches(stepper: &FindOverlappingStepper<'_, StateEntry>) -> (r: Vec<
    StateEntry,
>)
    requires
        distinct_patterns(keys(stepper_patterns(*stepper))),
    ensures
        r@ == suffix_list(
            keys(stepper_patterns(*stepper)),
            stepper_text(*stepper),
            stepper_text(*stepper).len() as int,
        ).map_values(|i: int| stepper_patterns(*stepper)[i].1),
{
    stepper.matches().map(|m| m.value()).collect()
}

/// The patterns of a probe automaton; pattern `i` has the value `i`.
pub uninterp spec fn probe_patterns(pma: DoubleArrayAhoCorasick<u32>) -> Seq<Seq<u8>>;

/// Whether a probe automaton reports overlapping matches, which one of the standard match kind does.
pub uninterp spec fn probe_standard(pma: DoubleArrayAhoCorasick<u32>) -> bool;

/// The message with which building a probe automaton from these patterns fails, if it fails.
pub uninterp spec fn probe_failure(patterns: Seq<Seq<u8>>) -> Option<Seq<char>>;

/// `DoubleArrayAhoCorasick::new`: an automaton of the standard match kind that holds the given
/// patterns, valued by their positions, or the message of the error. Which lists of patterns are too large for it is not
/// stated.
#[verifier::external_body]
pub(crate) fn build_probe(patterns: &[Vec<u8>]) -> (r: Result<DoubleArrayAhoCorasick<u32>, String>)
    requires
        distinct_patterns(utils::texts(patterns@)),
    ensures
        match r {
            Ok(pma) => probe_failure(utils::texts(patterns@)) is None && probe_patterns(pma)
                == utils::texts(patterns@) && probe_standard(pma),
            Err(m) => probe_failure(utils::texts(patterns@)) == Some(m@),
        },
{
    DoubleArrayAhoCorasick::<u32>::new(patterns).map_err(|e| e.to_string())
}

/// `DoubleArrayAhoCorasick::find_overlapping_iter`: start, end and value of every match, by end
/// position and, at one end position, the longest pattern first.
#[verifier::external_body]
pub(crate) fn probe_matches(pma: &DoubleArrayAhoCorasick<u32>, text: &[u8]) -> (r: Vec<
    (usize, usize, u32),
>)
    requires
        distinct_patterns(probe_patterns(*pma)),
        probe_standard(*pma),
    ensures
        r@ == all_hits(probe_patterns(*pma), text@),
{
    pma.find_overlapping_iter(text).map(|m| (m.start(), m.end(), m.value())).collect()
}

} // verus!
