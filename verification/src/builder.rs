//! Construction of a tokenizer.

use daachorse::DoubleArrayAhoCorasick;
use vstd::prelude::*;
use vstd::slice::slice_subrange;

use crate::acceptance;
use crate::automaton;
use crate::automaton::{build_automaton, build_probe, probe_matches};
use crate::bpe;
use crate::bpe::IncrementalBpe;
use crate::encoding;
use crate::entry::StateEntry;
use crate::error::{Error, ErrorView, Result};
use crate::index;
use crate::index::TokenIndex;
use crate::lexicon;
use crate::maps::{BytesMap, WordMap};
use crate::numbering;
use crate::specials;
use crate::sufsuc::CentroidSearchTree;
use crate::utils;
use crate::utils::{copy_bytes, FromU32};
use crate::vocab::{TokenTable, TokenTableBuilder};

verus! {

/// Incremental BPE builder.
#[derive(Clone, Debug)]
pub struct IncrementalBpeBuilder {
    corpus: Vec<Vec<u8>>,
    specials: Vec<(Vec<u8>, u32)>,
}

/// Why a token list with special tokens is rejected, or `None` when a tokenizer is built.
pub open spec fn build_error(
    tokens: Seq<Seq<u8>>,
    specials: Seq<(Seq<u8>, u32)>,
    corpus: Seq<Seq<u8>>,
) -> Option<ErrorView> {
    let patterns = encoding::all_patterns(tokens, specials);
    if lexicon::vocab_error(tokens) is Some {
        lexicon::vocab_error(tokens)
    } else if specials::specials_error(tokens, specials) is Some {
        specials::specials_error(tokens, specials)
    } else if automaton::build_failure(patterns, corpus) is Some {
        Some(ErrorView::Automaton(automaton::build_failure(patterns, corpus)->0))
    } else {
        None
    }
}

/// Copies the byte strings of the special tokens.
fn special_texts(list: &[(Vec<u8>, u32)]) -> (r: Vec<Vec<u8>>)
    ensures
        utils::texts(r@) == specials::texts_of(index::special_views(list@)),
{
    let mut r: Vec<Vec<u8>> = Vec::new();
    let mut i: usize = 0;
    while i < list.len()
        invariant
            i <= list@.len(),
            r@.len() == i,
            forall|j: int| 0 <= j < i ==> (#[trigger] r@[j])@ == list@[j].0@,
        decreases list.len() - i,
    {
        r.push(copy_bytes(list[i].0.as_slice()));
        i += 1;
    }
    assert(utils::texts(r@) =~= specials::texts_of(index::special_views(list@)));
    r
}

/// Checks each special token by itself and against the earlier ones.
#[verifier::spinoff_prover]
#[verifier::rlimit(40)]
fn check_list(list: &[(Vec<u8>, u32)], rank_space: u32) -> (r: Result<()>)
    requires
        rank_space > 0,
    ensures
        match r {
            Ok(_) => specials::list_error(
                rank_space as int,
                index::special_views(list@),
                0,
            ) is None,
            Err(e) => specials::list_error(rank_space as int, index::special_views(list@), 0)
                == Some(e@),
        },
{
    let ghost views = index::special_views(list@);
    let ghost texts = specials::texts_of(views);
    let ghost space = rank_space as int;
    // Both maps record the position that first claimed a byte string or an id.
    let mut seen_bytes: BytesMap = BytesMap::new();
    let mut seen_ids: WordMap = WordMap::new();
    let mut pos: usize = 0;
    while pos < list.len()
        invariant
            rank_space > 0,
            space == rank_space,
            views == index::special_views(list@),
            texts == specials::texts_of(views),
            pos <= list@.len(),
            forall|h: int| 0 <= h < pos ==> #[trigger] specials::one_error(space, views, h) is None,
            specials::list_error(space, views, 0) == specials::list_error(
                space,
                views,
                pos as int,
            ),
            forall|h: int| 0 <= h < pos ==> seen_ids@.contains_key((#[trigger] views[h]).1 as u64),
            forall|x: u64| #[trigger]
                seen_ids@.contains_key(x) ==> exists|h: int| 0 <= h < pos && (#[trigger] views[h]).1
                    == x,
            forall|h: int|
                0 <= h < pos ==> seen_bytes@.contains_key(#[trigger] texts[h])
                    && seen_bytes@[texts[h]] == h,
            forall|b: Seq<u8>| #[trigger]
                seen_bytes@.contains_key(b) ==> seen_bytes@[b] < pos
                    && texts[seen_bytes@[b] as int] == b,
        decreases list.len() - pos,
    {
        proof {
            specials::lemma_list_distinct(space, views, pos as int);
        }
        let special: &(Vec<u8>, u32) = &list[pos];
        let bytes: &[u8] = special.0.as_slice();
        let id: u32 = special.1;
        let ghost t = bytes@;
        let ghost i = pos as int;
        assert(views[i] == (t, id));
        assert(texts[i] == t);
        if bytes.len() == 0 {
            return Err(Error::EmptyToken);
        }
        if bytes.len() > u16::MAX as usize {
            let head: Vec<u8> = copy_bytes(slice_subrange(bytes, 0, 32));
            assert(head@ =~= t.take(32));
            return Err(Error::TokenTooLong { token: head, len: bytes.len() });
        }
        let ghost ids0 = seen_ids@;
        let ghost bytes0 = seen_bytes@;
        if id < rank_space || seen_ids.insert(id as u64, pos as u32).is_some() {
            proof {
                if id >= rank_space {
                    assert(ids0.contains_key(id as u64));
                    let h = choose|h: int| 0 <= h < pos && (#[trigger] views[h]).1 == id as u64;
                    assert(views[h].1 == id);
                }
                assert(specials::id_taken(space, views, i));
            }
            return Err(Error::SpecialIdConflict { token: copy_bytes(bytes), id });
        }
        assert(!specials::id_taken(space, views, i));
        if let Some(first) = seen_bytes.insert(copy_bytes(bytes), pos as u32) {
            proof {
                let before = texts.take(i);
                assert(bytes0.contains_key(t));
                assert(before[first as int] == t);
                assert(before.contains(t));
                let p = before.index_of(t);
                assert(0 <= p < before.len() && before[p] == t);
                assert(p == first);
            }
            return Err(
                Error::DuplicateToken { token: copy_bytes(bytes), first, second: pos as u32 },
            );
        }
        proof {
            assert(!texts.take(i).contains(t)) by {
                if texts.take(i).contains(t) {
                    let p = choose|p: int| 0 <= p < i && texts.take(i)[p] == t;
                    assert(bytes0.contains_key(texts[p]));
                }
            }
            assert(specials::one_error(space, views, i) is None);
            assert forall|x: u64| #[trigger] seen_ids@.contains_key(x) implies exists|h: int|
                0 <= h < pos + 1 && (#[trigger] views[h]).1 == x by {
                if x == id as u64 {
                    assert(views[i].1 == x);
                } else {
                    assert(ids0.contains_key(x));
                    let h = choose|h: int| 0 <= h < pos && (#[trigger] views[h]).1 == x;
                    assert(views[h].1 == x);
                }
            }
            assert forall|h: int| 0 <= h < pos + 1 implies seen_bytes@.contains_key(
                #[trigger] texts[h],
            ) && seen_bytes@[texts[h]] == h by {
                if h < pos {
                    assert(bytes0.contains_key(texts[h]));
                }
            }
        }
        pos += 1;
    }
    Ok(())
}

/// Checks that no special token occurs in a canonical token.
fn check_tokens(
    list: &[(Vec<u8>, u32)],
    tables: &TokenTableBuilder,
    probe: &DoubleArrayAhoCorasick<u32>,
) -> (r: Result<()>)
    requires
        tables.wf(),
        automaton::probe_patterns(*probe) == specials::texts_of(index::special_views(list@)),
        automaton::distinct_patterns(automaton::probe_patterns(*probe)),
        automaton::probe_standard(*probe),
        list@.len() <= u32::MAX,
    ensures
        match r {
            Ok(_) => specials::token_error(
                tables.vocab@,
                index::special_views(list@),
                0,
            ) is None,
            Err(e) => specials::token_error(tables.vocab@, index::special_views(list@), 0) == Some(
                e@,
            ),
        },
{
    let ghost tokens = tables.vocab@;
    let ghost views = index::special_views(list@);
    let k: usize = tables.len();
    proof {
        numbering::lemma_forest(tokens);
    }
    let mut i: u32 = 0;
    while (i as usize) < k
        invariant
            tables.wf(),
            tokens == tables.vocab@,
            views == index::special_views(list@),
            automaton::probe_patterns(*probe) == specials::texts_of(views),
            automaton::distinct_patterns(automaton::probe_patterns(*probe)),
            automaton::probe_standard(*probe),
            list@.len() <= u32::MAX,
            k == lexicon::canon(tokens).len(),
            k <= u32::MAX,
            i <= k,
            specials::token_error(tokens, views, 0) == specials::token_error(
                tokens,
                views,
                i as int,
            ),
        decreases k - i,
    {
        let token: &[u8] = tables.token_bytes(i);
        let hits: Vec<(usize, usize, u32)> = probe_matches(probe, token);
        if hits.len() > 0 {
            proof {
                specials::lemma_all_hits(specials::texts_of(views), token@);
                assert(hits@[0].2 < views.len());
            }
            let special: Vec<u8> = copy_bytes(list[usize::from_u32(hits[0].2)].0.as_slice());
            assert(special@ == views[hits@[0].2 as int].0);
            return Err(
                Error::SpecialTokenNotIsolated { special, container: copy_bytes(token) },
            );
        }
        i += 1;
    }
    Ok(())
}

/// Checks that no special token occurs in another one.
fn check_specials(list: &[(Vec<u8>, u32)], probe: &DoubleArrayAhoCorasick<u32>) -> (r: Result<()>)
    requires
        automaton::probe_patterns(*probe) == specials::texts_of(index::special_views(list@)),
        automaton::distinct_patterns(automaton::probe_patterns(*probe)),
        automaton::probe_standard(*probe),
        list@.len() <= u32::MAX,
    ensures
        match r {
            Ok(_) => specials::special_error(index::special_views(list@), 0) is None,
            Err(e) => specials::special_error(index::special_views(list@), 0) == Some(e@),
        },
{
    let ghost views = index::special_views(list@);
    let mut i: usize = 0;
    while i < list.len()
        invariant
            views == index::special_views(list@),
            automaton::probe_patterns(*probe) == specials::texts_of(views),
            automaton::distinct_patterns(automaton::probe_patterns(*probe)),
            automaton::probe_standard(*probe),
            list@.len() <= u32::MAX,
            i <= list@.len(),
            specials::special_error(views, 0) == specials::special_error(views, i as int),
        decreases list.len() - i,
    {
        let bytes: &[u8] = list[i].0.as_slice();
        assert(views[i as int].0 == bytes@);
        let hits: Vec<(usize, usize, u32)> = probe_matches(probe, bytes);
        proof {
            specials::lemma_all_hits(specials::texts_of(views), bytes@);
        }
        let mut h: usize = 0;
        while h < hits.len()
            invariant
                views == index::special_views(list@),
                list@.len() <= u32::MAX,
                i < list@.len(),
                views[i as int].0 == bytes@,
                hits@ == automaton::all_hits(specials::texts_of(views), bytes@),
                forall|x: int| 0 <= x < hits@.len() ==> (#[trigger] hits@[x]).2 < views.len(),
                h <= hits@.len(),
                specials::special_error(views, 0) == specials::special_error(views, i as int),
                specials::first_inside(hits@, bytes@.len() as int, 0) == specials::first_inside(
                    hits@,
                    bytes@.len() as int,
                    h as int,
                ),
            decreases hits.len() - h,
        {
            let hit: (usize, usize, u32) = hits[h];
            // The byte strings are distinct, so a match of the whole is the token itself.
            if !(hit.0 == 0 && hit.1 == bytes.len()) {
                assert(hits@[h as int].2 < views.len());
                let special: Vec<u8> = copy_bytes(list[usize::from_u32(hit.2)].0.as_slice());
                assert(special@ == views[hit.2 as int].0);
                return Err(
                    Error::SpecialTokenNotIsolated { special, container: copy_bytes(bytes) },
                );
            }
            h += 1;
        }
        i += 1;
    }
    Ok(())
}

/// Checks everything that is assumed of the special tokens.
fn validate_specials(
    list: &[(Vec<u8>, u32)],
    tables: &TokenTableBuilder,
    rank_space: u32,
) -> (r: Result<()>)
    requires
        tables.wf(),
        rank_space == tables.vocab@.len(),
    ensures
        match r {
            Ok(_) => specials::specials_error(
                tables.vocab@,
                index::special_views(list@),
            ) is None,
            Err(e) => specials::specials_error(tables.vocab@, index::special_views(list@)) == Some(
                e@,
            ),
        },
{
    let ghost tokens = tables.vocab@;
    let ghost views = index::special_views(list@);
    if list.len() == 0 {
        return Ok(());
    }
    proof {
        lexicon::lemma_accepted(tokens);
        assert(tokens.contains(seq![0u8]));
    }
    if let Err(e) = check_list(list, rank_space) {
        return Err(e);
    }
    let texts: Vec<Vec<u8>> = special_texts(list);
    proof {
        let n = views.len() as int;
        let space = rank_space as int;
        specials::lemma_list_ok(space, views, 0);
        specials::lemma_list_distinct(space, views, n);
        assert(specials::texts_of(views).take(n) =~= specials::texts_of(views));
        assert forall|i: int| 0 <= i < n implies #[trigger] specials::texts_of(views)[i].len() > 0 by {
            assert(specials::one_error(space, views, i) is None);
        }
    }
    let probe: DoubleArrayAhoCorasick<u32> = match build_probe(texts.as_slice()) {
        Ok(probe) => probe,
        Err(m) => return Err(Error::Automaton(m)),
    };
    if let Err(e) = check_tokens(list, tables, &probe) {
        return Err(e);
    }
    check_specials(list, &probe)
}

/// Lists the patterns of the automaton: the canonical tokens, then the special tokens.
fn list_patterns(tables: &TokenTableBuilder, list: &[(Vec<u8>, u32)]) -> (r: Vec<
    (Vec<u8>, StateEntry),
>)
    requires
        tables.wf(),
        encoding::sized(index::special_views(list@)),
    ensures
        automaton::pattern_views(r@) == encoding::all_patterns(
            tables.vocab@,
            index::special_views(list@),
        ),
{
    let ghost tokens = tables.vocab@;
    let ghost views = index::special_views(list@);
    let ghost want = encoding::all_patterns(tokens, views);
    let k: usize = tables.len();
    proof {
        numbering::lemma_forest(tokens);
    }
    let mut r: Vec<(Vec<u8>, StateEntry)> = Vec::new();
    let mut i: u32 = 0;
    while (i as usize) < k
        invariant
            tables.wf(),
            tokens == tables.vocab@,
            k == lexicon::canon(tokens).len(),
            k <= u32::MAX,
            i <= k,
            views == index::special_views(list@),
            want == encoding::all_patterns(tokens, views),
            want.len() == k + list@.len(),
            r@.len() == i,
            forall|j: int|
                0 <= j < i ==> (#[trigger] r@[j]).0@ == want[j].0 && r@[j].1 == want[j].1,
        decreases k - i,
    {
        r.push((copy_bytes(tables.token_bytes(i)), tables.to_entry(i)));
        i += 1;
    }
    let mut j: usize = 0;
    while j < list.len()
        invariant
            j <= list@.len(),
            k == lexicon::canon(tokens).len(),
            views == index::special_views(list@),
            encoding::sized(views),
            want == encoding::all_patterns(tokens, views),
            want.len() == k + list@.len(),
            r@.len() == k + j,
            forall|q: int|
                0 <= q < r@.len() ==> (#[trigger] r@[q]).0@ == want[q].0 && r@[q].1 == want[q].1,
        decreases list.len() - j,
    {
        let special: &(Vec<u8>, u32) = &list[j];
        assert(views[j as int] == (special.0@, special.1));
        let len: u16 = special.0.len() as u16;
        assert(want[k + j] == (
            views[j as int].0,
            StateEntry::of_special(views[j as int].1, views[j as int].0.len() as u16),
        ));
        r.push((copy_bytes(special.0.as_slice()), StateEntry::special(special.1, len)));
        j += 1;
    }
    assert(automaton::pattern_views(r@) =~= want);
    r
}

impl View for IncrementalBpeBuilder {
    type V = (Seq<Seq<u8>>, Seq<(Seq<u8>, u32)>);

    /// The corpus and the special tokens.
    closed spec fn view(&self) -> (Seq<Seq<u8>>, Seq<(Seq<u8>, u32)>) {
        (utils::texts(self.corpus@), index::special_views(self.specials@))
    }
}

impl Default for IncrementalBpeBuilder {
    fn default() -> (r: Self)
        ensures
            r@ == (Seq::<Seq<u8>>::empty(), Seq::<(Seq<u8>, u32)>::empty()),
    {
        IncrementalBpeBuilder::new()
    }
}

impl IncrementalBpeBuilder {
    /// Creates a new builder.
    #[must_use]
    pub fn new() -> (r: Self)
        ensures
            r@ == (Seq::<Seq<u8>>::empty(), Seq::<(Seq<u8>, u32)>::empty()),
    {
        let r: Self = IncrementalBpeBuilder { corpus: Vec::new(), specials: Vec::new() };
        proof {
            assert(r@.0 =~= Seq::<Seq<u8>>::empty());
            assert(r@.1 =~= Seq::<(Seq<u8>, u32)>::empty());
        }
        r
    }

    /// Specifies a corpus of sample chunks for the profile-guided layout optimization. It has no
    /// influence on what a text is encoded as.
    #[must_use]
    pub fn corpus(self, corpus: &[Vec<u8>]) -> (r: Self)
        ensures
            r@ == (utils::texts(corpus@), self@.1),
            r@.0 == acceptance::byte_strings(corpus@),
    {
        let mut copy: Vec<Vec<u8>> = Vec::new();
        let mut i: usize = 0;
        while i < corpus.len()
            invariant
                i <= corpus@.len(),
                copy@.len() == i,
                forall|j: int| 0 <= j < i ==> (#[trigger] copy@[j])@ == corpus@[j]@,
            decreases corpus.len() - i,
        {
            copy.push(copy_bytes(corpus[i].as_slice()));
            i += 1;
        }
        assert(utils::texts(copy@) =~= utils::texts(corpus@));
        IncrementalBpeBuilder { corpus: copy, specials: self.specials }
    }

    /// Registers special tokens as pairs of a byte string and an id.
    ///
    /// An occurrence finalizes the text before it, emits its own id, and restarts the tokenization
    /// behind it. The ids must be at least the length of the token list. No canonical token and no
    /// other special token may contain a special token.
    #[must_use]
    pub fn special_tokens(self, specials: &[(Vec<u8>, u32)]) -> (r: Self)
        ensures
            r@ == (self@.0, index::special_views(specials@)),
            r@.1 == acceptance::string_ids(specials@),
    {
        let mut copy: Vec<(Vec<u8>, u32)> = Vec::new();
        let mut i: usize = 0;
        while i < specials.len()
            invariant
                i <= specials@.len(),
                copy@.len() == i,
                forall|j: int|
                    0 <= j < i ==> (#[trigger] copy@[j]).0@ == specials@[j].0@ && copy@[j].1
                        == specials@[j].1,
            decreases specials.len() - i,
        {
            let special: &(Vec<u8>, u32) = &specials[i];
            copy.push((copy_bytes(special.0.as_slice()), special.1));
            i += 1;
        }
        assert(index::special_views(copy@) =~= index::special_views(specials@));
        IncrementalBpeBuilder { corpus: self.corpus, specials: copy }
    }

    /// Builds a tokenizer from a list of token byte strings in priority order. A token's position is
    /// its rank.
    ///
    /// Tokens that standard merging never makes of their own bytes are dropped silently, whatever
    /// their length: only canonical tokens and special tokens are held to the limit of `u16::MAX`
    /// bytes.
    ///
    /// With a corpus, the search tree nodes lie in the order of how often encoding the corpus visits
    /// them. Without one they lie in the order of the tokens.
    pub fn build(self, tokens: &[Vec<u8>]) -> (r: Result<IncrementalBpe>)
        ensures
            match r {
                Ok(bpe) => {
                    &&& build_error(utils::texts(tokens@), self@.1, self@.0) is None
                    &&& bpe.tokens() == utils::texts(tokens@)
                    &&& bpe.specials() == self@.1
                    &&& bpe::made_for(bpe.trees(), bpe.tokens(), bpe.specials(), self@.0)
                    &&& bpe.tokens() == acceptance::byte_strings(tokens@)
                    &&& acceptance::acceptable(bpe.tokens())
                    &&& acceptance::acceptable_specials(bpe.tokens(), bpe.specials())
                },
                Err(e) => {
                    &&& build_error(utils::texts(tokens@), self@.1, self@.0) == Some(e@)
                    &&& acceptance::names_build_fault(
                        acceptance::byte_strings(tokens@),
                        self@.1,
                        self@.0,
                        e@,
                    )
                },
            },
    {
        let ghost list = utils::texts(tokens@);
        let ghost views = self@.1;
        proof {
            assert(acceptance::byte_strings(tokens@) =~= list);
            acceptance::law_build(list, views, self@.0);
        }
        let tables: TokenTableBuilder = match TokenTableBuilder::new(tokens) {
            Ok(tables) => tables,
            Err(e) => return Err(e),
        };
        proof {
            lexicon::lemma_accepted(list);
        }
        let rank_space: u32 = tokens.len() as u32;
        if let Err(e) = validate_specials(self.specials.as_slice(), &tables, rank_space) {
            return Err(e);
        }
        proof {
            specials::law_accepted_specials(list, views);
            encoding::lemma_patterns(list, views);
        }
        let patterns: Vec<(Vec<u8>, StateEntry)> = list_patterns(
            &tables,
            self.specials.as_slice(),
        );
        let pma: DoubleArrayAhoCorasick<StateEntry> = match build_automaton(
            patterns,
            self.corpus.as_slice(),
        ) {
            Ok(pma) => pma,
            Err(m) => return Err(Error::Automaton(m)),
        };
        let centroid_trees: CentroidSearchTree = CentroidSearchTree::build(&tables, &pma);
        proof {
            assert forall|i: int| 0 <= i < self.specials@.len() implies (
            #[trigger] self.specials@[i]).0@.len() <= u16::MAX by {
                assert(views[i].0 == self.specials@[i].0@);
            }
        }
        let index: TokenIndex = TokenIndex::build(&tables, self.specials.as_slice());
        let table: TokenTable = tables.finish();
        let bpe: IncrementalBpe = IncrementalBpe::from_parts(
            table,
            pma,
            centroid_trees,
            index,
            Ghost(list),
            Ghost(views),
        );
        if self.corpus.len() == 0 {
            return Ok(bpe);
        }
        let ghost prior = bpe.trees();
        let ghost chunks = self@.0;
        let r: IncrementalBpe = bpe.optimize_layout(self.corpus.as_slice());
        assert(bpe::laid_out(prior, r.trees(), list, views, chunks));
        Ok(r)
    }
}

} // verus!
