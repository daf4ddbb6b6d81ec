//! The tokenizer.

use daachorse::DoubleArrayAhoCorasick;
use vstd::prelude::*;
use vstd::slice::slice_subrange;

use crate::acceptance;
use crate::automaton;
use crate::automaton::{longest_matches, next_match};
use crate::builder;
use crate::builder::IncrementalBpeBuilder;
use crate::encoding;
use crate::entry::{DfsEntry, StateEntry, INVALID_ID};
use crate::error::Result;
use crate::index;
use crate::index::TokenIndex;
use crate::lexicon;
use crate::merge;
use crate::numbering;
use crate::promises;
use crate::search;
use crate::search::{NoVisits, VisitCounts, Visitor};
use crate::suffixes;
use crate::sufsuc;
use crate::sufsuc::CentroidSearchTree;
use crate::utils;
use crate::utils::FromU32;
use crate::vocab::TokenTable;

verus! {

/// An incremental BPE tokenizer.
pub struct IncrementalBpe {
    table: TokenTable,
    pma: DoubleArrayAhoCorasick<StateEntry>,
    centroid_trees: CentroidSearchTree,
    index: TokenIndex,
    vocab: Ghost<Seq<Seq<u8>>>,
    special_list: Ghost<Seq<(Seq<u8>, u32)>>,
}

/// The number of the longest canonical token that ends a text.
pub open spec fn longest_id(tokens: Seq<Seq<u8>>, text: Seq<u8>) -> int {
    choose|tau: int| encoding::longest_token(tokens, text, tau)
}

/// The search tree nodes visited for the last byte of a text: none if the longest token that ends
/// the text is its last token.
pub open spec fn step_visits(
    trees: CentroidSearchTree,
    tokens: Seq<Seq<u8>>,
    text: Seq<u8>,
) -> Seq<u32> {
    let tau = longest_id(tokens, text);
    if search::last_id(tokens, text) == tau {
        Seq::empty()
    } else {
        trees.search_trail(tokens, text, tau)
    }
}

/// The search tree nodes visited for the first `n` bytes of a text.
pub open spec fn prefix_visits(
    trees: CentroidSearchTree,
    tokens: Seq<Seq<u8>>,
    text: Seq<u8>,
    n: int,
) -> Seq<u32>
    decreases n,
{
    if n <= 0 {
        Seq::empty()
    } else {
        prefix_visits(trees, tokens, text, n - 1) + step_visits(trees, tokens, text.take(n))
    }
}

/// The search tree nodes visited for a text, which the special tokens divide.
pub open spec fn text_visits(
    trees: CentroidSearchTree,
    tokens: Seq<Seq<u8>>,
    specials: Seq<(Seq<u8>, u32)>,
    text: Seq<u8>,
) -> Seq<u32>
    decreases text.len(),
{
    if exists|e: int, j: int| encoding::first_special(specials, text, e, j) {
        let (e, j) = choose|e: int, j: int| encoding::first_special(specials, text, e, j);
        if 0 < e <= text.len() {
            prefix_visits(trees, tokens, text, e - 1) + text_visits(
                trees,
                tokens,
                specials,
                text.skip(e),
            )
        } else {
            Seq::empty()
        }
    } else {
        prefix_visits(trees, tokens, text, text.len() as int)
    }
}

/// The search tree nodes visited for a chunk: none if the index finds it.
pub open spec fn chunk_visits(
    trees: CentroidSearchTree,
    tokens: Seq<Seq<u8>>,
    specials: Seq<(Seq<u8>, u32)>,
    chunk: Seq<u8>,
) -> Seq<u32> {
    if chunk.len() == 0 || index::find(tokens, specials, chunk) is Some {
        Seq::empty()
    } else {
        text_visits(trees, tokens, specials, chunk)
    }
}

/// The search tree nodes visited for the first `n` chunks of a corpus.
pub open spec fn corpus_visits(
    trees: CentroidSearchTree,
    tokens: Seq<Seq<u8>>,
    specials: Seq<(Seq<u8>, u32)>,
    corpus: Seq<Seq<u8>>,
    n: int,
) -> Seq<u32>
    decreases n,
{
    if n <= 0 {
        Seq::empty()
    } else {
        corpus_visits(trees, tokens, specials, corpus, n - 1) + chunk_visits(
            trees,
            tokens,
            specials,
            corpus[n - 1],
        )
    }
}

/// Whether `now` are the trees `prior` in the order of how often encoding the corpus visits their
/// nodes: the most visited nodes first, and everything that refers to a position renumbered.
pub open spec fn laid_out(
    prior: CentroidSearchTree,
    now: CentroidSearchTree,
    tokens: Seq<Seq<u8>>,
    specials: Seq<(Seq<u8>, u32)>,
    corpus: Seq<Seq<u8>>,
) -> bool {
    let visits = corpus_visits(prior, tokens, specials, corpus, corpus.len() as int);
    exists|counts: Seq<u64>, order: Seq<int>|
        {
            &&& counts.len() == prior.nodes@.len()
            &&& search::counted(counts, visits)
            &&& #[trigger] sufsuc::by_counts(counts, order)
            &&& now.reordered(&prior, order)
        }
}

/// Whether these are the search trees of a tokenizer that is built with the given corpus: they lie
/// in the order of the tokens, or, with a corpus, in the order of how often encoding it visits their
/// nodes.
pub open spec fn made_for(
    trees: CentroidSearchTree,
    tokens: Seq<Seq<u8>>,
    specials: Seq<(Seq<u8>, u32)>,
    corpus: Seq<Seq<u8>>,
) -> bool {
    &&& trees.wf(tokens)
    &&& if corpus.len() == 0 {
        trees.token_order(tokens)
    } else {
        exists|prior: CentroidSearchTree|
            {
                &&& prior.wf(tokens)
                &&& prior.token_order(tokens)
                &&& #[trigger] laid_out(prior, trees, tokens, specials, corpus)
            }
    }
}

/// There is one longest token.
pub proof fn lemma_longest_id(tokens: Seq<Seq<u8>>, text: Seq<u8>, tau: int)
    requires
        lexicon::vocab_error(tokens) is None,
        encoding::longest_token(tokens, text, tau),
    ensures
        longest_id(tokens, text) == tau,
{
    let other = longest_id(tokens, text);
    lexicon::lemma_accepted(tokens);
    let s = suffixes::suffix_set(tokens, text);
    assert(s.contains(tau) && s.contains(other));
    numbering::lemma_same_token(tokens, tau, other);
}

/// The last token is the longest that ends the text exactly if it lies below it.
proof fn lemma_is_longest(tokens: Seq<Seq<u8>>, text: Seq<u8>, tau: int)
    requires
        lexicon::vocab_error(tokens) is None,
        text.len() > 0,
        encoding::longest_token(tokens, text, tau),
    ensures
        crate::forest::below(numbering::parents(tokens), search::last_id(tokens, text), tau)
            <==> search::last_id(tokens, text) == tau,
        lexicon::token(tokens, tau).len() < 2 ==> search::last_id(tokens, text) == tau,
{
    let par = numbering::parents(tokens);
    let theta = search::last_id(tokens, text);
    lexicon::lemma_accepted(tokens);
    lexicon::lemma_canon(tokens);
    suffixes::lemma_last_number(tokens, text);
    numbering::lemma_below(tokens, theta, tau);
    let s = suffixes::suffix_set(tokens, text);
    assert(s.contains(theta));
    assert(lexicon::token(tokens, theta).len() > 0);
    if crate::forest::below(par, theta, tau) {
        crate::successor::lemma_subtree_suffix(
            lexicon::rank_map(tokens),
            lexicon::token(tokens, theta),
            lexicon::token(tokens, tau),
        );
        numbering::lemma_same_token(tokens, theta, tau);
    }
    if lexicon::token(tokens, tau).len() < 2 {
        assert(lexicon::token(tokens, tau).len() > 0);
        numbering::lemma_same_token(tokens, theta, tau);
    }
}

impl IncrementalBpe {
    /// The token list that the tokenizer was built from.
    pub closed spec fn tokens(&self) -> Seq<Seq<u8>> {
        self.vocab@
    }

    /// The special tokens that the tokenizer was built with.
    pub closed spec fn specials(&self) -> Seq<(Seq<u8>, u32)> {
        self.special_list@
    }

    /// The search trees of the tokenizer.
    pub closed spec fn trees(&self) -> CentroidSearchTree {
        self.centroid_trees
    }

    /// Whether all parts belong to the token list and the special tokens.
    #[verifier::type_invariant]
    spec fn inv(&self) -> bool {
        &&& lexicon::vocab_error(self.vocab@) is None
        &&& encoding::isolated(self.vocab@, self.special_list@)
        &&& encoding::sized(self.special_list@)
        &&& self.table.wf(self.vocab@)
        &&& self.centroid_trees.wf(self.vocab@)
        &&& self.index@ == index::index_map(self.vocab@, self.special_list@)
        &&& automaton::standard(self.pma)
        &&& automaton::patterns_of(self.pma) == encoding::all_patterns(
            self.vocab@,
            self.special_list@,
        )
    }

    /// Creates a new tokenizer from a list of token byte strings in priority order. A token's
    /// position is its rank.
    ///
    /// Every single byte must be a token, and every canonical token must rank after both components
    /// of its last merge. Tokens that standard merging never makes of their own bytes are dropped
    /// silently, whatever their length: only canonical tokens are held to the limit of `u16::MAX`
    /// bytes.
    pub fn new(tokens: &[Vec<u8>]) -> (r: Result<Self>)
        ensures
            match r {
                Ok(bpe) => {
                    &&& builder::build_error(
                        utils::texts(tokens@),
                        Seq::empty(),
                        Seq::empty(),
                    ) is None
                    &&& bpe.tokens() == utils::texts(tokens@)
                    &&& bpe.specials() == Seq::<(Seq<u8>, u32)>::empty()
                    &&& made_for(bpe.trees(), bpe.tokens(), bpe.specials(), Seq::empty())
                    &&& bpe.tokens() == acceptance::byte_strings(tokens@)
                    &&& acceptance::acceptable(bpe.tokens())
                },
                Err(e) => {
                    &&& builder::build_error(utils::texts(tokens@), Seq::empty(), Seq::empty())
                        == Some(e@)
                    &&& acceptance::names_build_fault(
                        acceptance::byte_strings(tokens@),
                        Seq::empty(),
                        Seq::empty(),
                        e@,
                    )
                },
            },
    {
        IncrementalBpeBuilder::new().build(tokens)
    }

    /// Puts the parts of a tokenizer together.
    pub(crate) fn from_parts(
        table: TokenTable,
        pma: DoubleArrayAhoCorasick<StateEntry>,
        centroid_trees: CentroidSearchTree,
        index: TokenIndex,
        vocab: Ghost<Seq<Seq<u8>>>,
        special_list: Ghost<Seq<(Seq<u8>, u32)>>,
    ) -> (r: Self)
        requires
            lexicon::vocab_error(vocab@) is None,
            encoding::isolated(vocab@, special_list@),
            encoding::sized(special_list@),
            table.wf(vocab@),
            centroid_trees.wf(vocab@),
            index@ == index::index_map(vocab@, special_list@),
            automaton::standard(pma),
            automaton::patterns_of(pma) == encoding::all_patterns(vocab@, special_list@),
        ensures
            r.tokens() == vocab@,
            r.specials() == special_list@,
            r.trees() == centroid_trees,
    {
        IncrementalBpe { table, pma, centroid_trees, index, vocab, special_list }
    }

    /// Computes the last token for one more byte from the payload of the longest token that ends
    /// there, and appends its timestamp to the history.
    ///
    /// If that longest token passes the test itself, it is the answer. Otherwise its search tree is
    /// descended.
    fn advance<V: Visitor>(
        &self,
        entry: StateEntry,
        buf: &mut Vec<u32>,
        base: usize,
        visit: &mut V,
        text: Ghost<Seq<u8>>,
        tau: Ghost<int>,
    )
        requires
            self.inv(),
            text@.len() > 0,
            base < old(buf)@.len(),
            search::history(self.vocab@, old(buf)@.skip(base as int), text@.drop_last()),
            encoding::longest_token(self.vocab@, text@, tau@),
            entry == numbering::entry_of(self.vocab@, tau@),
            old(visit).ok(),
            old(visit).room() >= self.centroid_trees.nodes@.len(),
        ensures
            final(buf)@ == old(buf)@.push(search::stamp(self.vocab@, text@) as u32),
            final(visit).ok(),
            final(visit).room() == old(visit).room(),
            final(visit).log() == old(visit).log() + step_visits(
                self.centroid_trees,
                self.vocab@,
                text@,
            ),
    {
        let ghost tokens = self.vocab@;
        let ghost dfs = buf@.skip(base as int);
        proof {
            lexicon::lemma_accepted(tokens);
            lexicon::lemma_canon(tokens);
            numbering::lemma_timestamp(tokens);
            lemma_longest_id(tokens, text@, tau@);
            lemma_is_longest(tokens, text@, tau@);
            suffixes::lemma_last_number(tokens, text@);
            assert(lexicon::token(tokens, tau@).len() > 0);
            assert(suffixes::suffix_set(tokens, text@).contains(tau@));
            if lexicon::token(tokens, tau@).len() >= 2 {
                search::lemma_test(tokens, text@, dfs, tau@);
            }
        }
        // n is the number of bytes up to and with the new one: the history holds one entry per
        // byte before it, behind the sentinel.
        let n: usize = buf.len() - base;
        let tau_ok: bool = entry.suc_len == 0 || entry.valid.contains(
            buf[base + (n - entry.suc_len as usize)],
        );
        assert(tau_ok == (search::last_id(tokens, text@) == tau@));
        if tau_ok {
            buf.push(entry.dfs_in_tau);
            assert(visit.log() =~= visit.log() + Seq::<u32>::empty());
        } else {
            let history: &[u32] = slice_subrange(buf.as_slice(), base, buf.len());
            assert(history@ =~= dfs);
            let last: u32 = self.centroid_trees.descend(
                entry.dfs_in_tau,
                history,
                visit,
                Ghost(tokens),
                text,
                tau,
            );
            let dfs_in: u32 = self.table.dfs_in[usize::from_u32(last)];
            buf.push(dfs_in);
        }
    }

    /// Consumes a chunk up to the first special token and fills the history. Returns where that
    /// special token ends, and its payload.
    ///
    /// Every single byte is a token, so the iterator reports one match per byte.
    #[verifier::spinoff_prover]
    #[verifier::rlimit(40)]
    fn consume<V: Visitor>(&self, text: &[u8], buf: &mut Vec<u32>, base: usize, visit: &mut V) -> (r:
        Option<(usize, StateEntry)>)
        requires
            self.inv(),
            old(buf)@.len() == base + 1,
            old(buf)@[base as int] == INVALID_ID,
            old(visit).ok(),
            old(visit).room() >= self.centroid_trees.nodes@.len(),
        ensures
            final(visit).ok(),
            final(visit).room() == old(visit).room(),
            final(buf)@.len() > base,
            final(buf)@.take(base as int) == old(buf)@.take(base as int),
            match r {
                None => {
                    &&& forall|e: int, j: int|
                        !(#[trigger] encoding::first_special(self.special_list@, text@, e, j))
                    &&& search::history(self.vocab@, final(buf)@.skip(base as int), text@)
                    &&& final(visit).log() == old(visit).log() + prefix_visits(
                        self.centroid_trees,
                        self.vocab@,
                        text@,
                        text@.len() as int,
                    )
                },
                Some((end, entry)) => {
                    &&& exists|j: int|
                        {
                            &&& #[trigger] encoding::first_special(
                                self.special_list@,
                                text@,
                                end as int,
                                j,
                            )
                            &&& entry == StateEntry::of_special(
                                self.special_list@[j].1,
                                self.special_list@[j].0.len() as u16,
                            )
                        }
                    &&& search::history(
                        self.vocab@,
                        final(buf)@.skip(base as int),
                        text@.take(end - 1),
                    )
                    &&& final(visit).log() == old(visit).log() + prefix_visits(
                        self.centroid_trees,
                        self.vocab@,
                        text@,
                        end - 1,
                    )
                },
            },
    {
        let ghost tokens = self.vocab@;
        let ghost specials = self.special_list@;
        let ghost patterns = encoding::all_patterns(tokens, specials);
        let ghost hits = automaton::longest_hits(patterns, text@);
        let ghost log0 = visit.log();
        proof {
            encoding::lemma_patterns(tokens, specials);
            encoding::lemma_hits(tokens, specials, text@);
            numbering::lemma_timestamp(tokens);
        }
        let _len: usize = text.len();
        let mut it = longest_matches(&self.pma, text);
        let ghost mut e: int = 0;
        assert(hits.skip(0) =~= hits);
        assert(text@.take(0) =~= Seq::<u8>::empty());
        assert(log0 =~= log0 + Seq::<u32>::empty());
        loop
            invariant
                self.inv(),
                tokens == self.vocab@,
                specials == self.special_list@,
                patterns == encoding::all_patterns(tokens, specials),
                hits == automaton::longest_hits(patterns, text@),
                hits.len() == text@.len(),
                _len == text@.len(),
                forall|i: int|
                    0 <= i < text@.len() ==> #[trigger] hits[i] == (
                        (i + 1) as usize,
                        patterns[automaton::suffix_list(
                            automaton::keys(patterns),
                            text@.take(i + 1),
                            i + 1,
                        )[0]].1,
                    ),
                forall|i: int|
                    0 <= i < lexicon::canon(tokens).len() ==> 0 <= #[trigger] numbering::timestamp(
                        tokens,
                        i,
                    ) < lexicon::canon(tokens).len(),
                lexicon::canon(tokens).len() <= u32::MAX,
                0 <= e <= text@.len(),
                automaton::pending(it) == hits.skip(e),
                buf@.len() == base + 1 + e,
                buf@.take(base as int) == old(buf)@.take(base as int),
                search::history(tokens, buf@.skip(base as int), text@.take(e)),
                forall|d: int, i: int|
                    0 < d <= e ==> !(#[trigger] encoding::special_ends(specials, text@.take(d), i)),
                visit.ok(),
                visit.room() == old(visit).room(),
                visit.room() >= self.centroid_trees.nodes@.len(),
                log0 == old(visit).log(),
                visit.log() == log0 + prefix_visits(self.centroid_trees, tokens, text@, e),
            decreases text@.len() - e,
        {
            let ghost sc = text@.take(e + 1);
            match next_match(&mut it) {
                None => {
                    proof {
                        assert(e == text@.len());
                        assert(text@.take(e) =~= text@);
                        assert forall|x: int, j: int|
                            !(#[trigger] encoding::first_special(specials, text@, x, j)) by {
                            if encoding::first_special(specials, text@, x, j) {
                                assert(encoding::special_ends(specials, text@.take(x), j));
                            }
                        }
                    }
                    return None;
                },
                Some((end, entry)) => {
                    let ghost k = lexicon::canon(tokens).len() as int;
                    let ghost i = encoding::lemma_longest(tokens, specials, sc);
                    proof {
                        assert(hits.skip(e)[0] == hits[e]);
                        assert(hits.skip(e).drop_first() =~= hits.skip(e + 1));
                        assert(sc.drop_last() =~= text@.take(e));
                        assert(end == e + 1);
                    }
                    if entry.is_special() {
                        proof {
                            if i < k {
                                assert(entry.dfs_in_tau == numbering::timestamp(tokens, i));
                            }
                            assert(encoding::first_special(specials, text@, end as int, i - k));
                        }
                        return Some((end, entry));
                    }
                    let ghost before = buf@;
                    self.advance(entry, buf, base, visit, Ghost(sc), Ghost(i));
                    proof {
                        assert(buf@.take(base as int) =~= before.take(base as int));
                        let dfs = buf@.skip(base as int);
                        assert forall|d: int| 1 <= d <= sc.len() implies #[trigger] dfs[d]
                            == search::stamp(tokens, sc.take(d)) by {
                            if d <= e {
                                assert(dfs[d] == before.skip(base as int)[d]);
                                assert(text@.take(e).take(d) =~= sc.take(d));
                            } else {
                                assert(sc.take(d) =~= sc);
                                suffixes::lemma_last_number(tokens, sc);
                            }
                        }
                        assert(dfs[0] == before.skip(base as int)[0]);
                        assert(log0 + prefix_visits(self.centroid_trees, tokens, text@, e)
                            + step_visits(self.centroid_trees, tokens, sc) =~= log0
                            + prefix_visits(self.centroid_trees, tokens, text@, e + 1));
                        e = e + 1;
                    }
                },
            }
        }
    }

    /// Replaces the history in place with the tokens of its text.
    ///
    /// The tokens of a text are those of the text before its last token, and that token. Reading
    /// and writing both go from right to left, and reading advances by at least as much as writing.
    #[verifier::spinoff_prover]
    #[verifier::rlimit(40)]
    fn emit_tokens(&self, buf: &mut Vec<u32>, base: usize, text: Ghost<Seq<u8>>)
        requires
            self.inv(),
            base < old(buf)@.len(),
            search::history(self.vocab@, old(buf)@.skip(base as int), text@),
        ensures
            final(buf)@ == old(buf)@.take(base as int) + encoding::bpe(self.vocab@, text@),
    {
        let ghost tokens = self.vocab@;
        let ghost ranks = lexicon::rank_map(tokens);
        let ghost dfs = buf@.skip(base as int);
        let ghost all = encoding::bpe(tokens, text@);
        let end: usize = buf.len() - 1;
        let mut read: usize = end;
        let mut write: usize = end;
        proof {
            assert(text@.take(text@.len() as int) =~= text@);
            assert(all =~= all + buf@.subrange(end + 1, end + 1));
        }
        while read > base
            invariant
                self.inv(),
                tokens == self.vocab@,
                ranks == lexicon::rank_map(tokens),
                all == encoding::bpe(tokens, text@),
                dfs == old(buf)@.skip(base as int),
                search::history(tokens, dfs, text@),
                old(buf)@.len() == buf@.len(),
                buf@.len() == end + 1,
                end == base + text@.len(),
                base <= read <= write <= end,
                forall|i: int| 0 <= i <= read ==> #[trigger] buf@[i] == old(buf)@[i],
                all == encoding::bpe(tokens, text@.take(read - base)) + buf@.subrange(
                    write + 1,
                    end + 1,
                ),
            decreases read,
        {
            let ghost d = read - base;
            let ghost head = text@.take(d);
            let ghost id = search::last_id(tokens, head);
            let ghost before = buf@;
            proof {
                assert(buf@[read as int] == old(buf)@[read as int]);
                assert(dfs[d] == old(buf)@[read as int]);
                assert(dfs[d] == search::stamp(tokens, head));
                suffixes::lemma_last_number(tokens, head);
                numbering::lemma_timestamp(tokens);
                lexicon::lemma_accepted(tokens);
                lexicon::lemma_canon(tokens);
                merge::lemma_tokenize_back(ranks, head);
                assert(lexicon::entry_error(tokens, id) is None);
                assert(self.table.dfs_in_inv@[numbering::timestamp(tokens, id)]
                    == numbering::dfs_entry_of(tokens, id));
                assert(lexicon::token(tokens, id) == merge::last_token(ranks, head));
            }
            let entry: DfsEntry = self.table.dfs_in_inv[usize::from_u32(buf[read])];
            buf.set(write, entry.rank);
            proof {
                let t = merge::last_token(ranks, head);
                let rest = merge::chop(head, t.len());
                assert(rest =~= text@.take(d - t.len()));
                assert(encoding::bpe(tokens, head) =~= encoding::bpe(tokens, rest).push(ranks[t]));
                assert(buf@.subrange(write as int, end + 1) =~= seq![ranks[t]] + before.subrange(
                    write + 1,
                    end + 1,
                ));
                assert(all =~= encoding::bpe(tokens, rest) + buf@.subrange(
                    write as int,
                    end + 1,
                ));
            }
            write -= 1;
            read -= entry.len as usize;
        }
        let ghost before = buf@;
        proof {
            assert(text@.take(0) =~= Seq::<u8>::empty());
            encoding::lemma_bpe_empty(tokens);
            assert(all =~= before.subrange(write + 1, end + 1));
        }
        let tokens_len: usize = end - write;
        let mut i: usize = 0;
        while i < tokens_len
            invariant
                i <= tokens_len,
                tokens_len == end - write,
                base <= write <= end,
                before.len() == end + 1,
                buf@.len() == end + 1,
                forall|q: int| 0 <= q < base ==> #[trigger] buf@[q] == before[q],
                forall|q: int| 0 <= q < i ==> #[trigger] buf@[base + q] == before[write + 1 + q],
                forall|q: int| base + i <= q <= end ==> #[trigger] buf@[q] == before[q],
            decreases tokens_len - i,
        {
            assert(write + 1 + i <= end);
            let x: u32 = buf[write + 1 + i];
            let ghost now = buf@;
            buf.set(base + i, x);
            proof {
                assert forall|q: int| 0 <= q < i + 1 implies #[trigger] buf@[base + q]
                    == before[write + 1 + q] by {
                    if q < i {
                        assert(buf@[base + q] == now[base + q]);
                    }
                }
            }
            i += 1;
        }
        buf.truncate(base + tokens_len);
        proof {
            let want = old(buf)@.take(base as int) + all;
            assert forall|q: int| 0 <= q < want.len() implies #[trigger] buf@[q] == want[q] by {
                if q >= base {
                    let p = q - base;
                    assert(buf@[base + p] == before[write + 1 + p]);
                    assert(all[p] == before.subrange(write + 1, end + 1)[p]);
                }
            }
            assert(buf@ =~= want);
        }
    }

    /// [`encode`](Self::encode), telling a visitor of every search tree node touched.
    #[verifier::spinoff_prover]
    #[verifier::rlimit(60)]
    fn encode_visit<V: Visitor>(&self, piece: &[u8], out: &mut Vec<u32>, visit: &mut V)
        requires
            self.inv(),
            old(visit).ok(),
            old(visit).room() >= self.centroid_trees.nodes@.len(),
        ensures
            final(out)@ == old(out)@ + encoding::encoded(self.vocab@, self.special_list@, piece@),
            final(visit).ok(),
            final(visit).room() == old(visit).room(),
            final(visit).log() == old(visit).log() + chunk_visits(
                self.centroid_trees,
                self.vocab@,
                self.special_list@,
                piece@,
            ),
    {
        let ghost tokens = self.vocab@;
        let ghost specials = self.special_list@;
        let ghost trees = self.centroid_trees;
        let ghost want = encoding::encoded(tokens, specials, piece@);
        if piece.len() == 0 {
            proof {
                assert(piece@ =~= Seq::<u8>::empty());
                encoding::law_empty(tokens, specials);
                assert(out@ =~= out@ + want);
                assert(visit.log() =~= visit.log() + Seq::<u32>::empty());
            }
            return;
        }
        // A chunk that is a canonical token or a special token is encoded as that alone.
        if let Some(id) = self.index.get(piece) {
            proof {
                assert(self.index@.contains_key(piece@));
                encoding::law_index_agrees(tokens, specials, piece@);
                assert(visit.log() =~= visit.log() + Seq::<u32>::empty());
            }
            out.push(id);
            assert(out@ =~= old(out)@ + want);
            return;
        }
        out.reserve(piece.len());
        let ghost full = text_visits(trees, tokens, specials, piece@);
        let ghost log0 = visit.log();
        let mut start: usize = 0;
        proof {
            assert(piece@.skip(0) =~= piece@);
            assert(old(out)@ + want =~= out@ + want);
            assert(log0 + full =~= visit.log() + full);
        }
        loop
            invariant
                self.inv(),
                tokens == self.vocab@,
                specials == self.special_list@,
                trees == self.centroid_trees,
                start <= piece@.len(),
                want == encoding::encoded(tokens, specials, piece@),
                full == text_visits(trees, tokens, specials, piece@),
                log0 == old(visit).log(),
                piece@.len() > 0,
                index::find(tokens, specials, piece@) is None,
                old(out)@ + want == out@ + encoding::encoded(
                    tokens,
                    specials,
                    piece@.skip(start as int),
                ),
                visit.ok(),
                visit.room() == old(visit).room(),
                visit.room() >= trees.nodes@.len(),
                log0 + full == visit.log() + text_visits(
                    trees,
                    tokens,
                    specials,
                    piece@.skip(start as int),
                ),
            decreases piece@.len() - start,
        {
            let base: usize = out.len();
            let ghost done = out@;
            out.push(INVALID_ID);
            let rest: &[u8] = slice_subrange(piece, start, piece.len());
            assert(rest@ =~= piece@.skip(start as int));
            let first: Option<(usize, StateEntry)> = self.consume(rest, out, base, visit);
            proof {
                assert(done =~= out@.take(base as int));
            }
            match first {
                None => {
                    self.emit_tokens(out, base, Ghost(rest@));
                    proof {
                        assert(out@ =~= old(out)@ + want);
                        assert(visit.log() =~= log0 + full);
                    }
                    return;
                },
                Some((end, entry)) => {
                    let ghost j = choose|j: int|
                        #[trigger] encoding::first_special(specials, rest@, end as int, j)
                            && entry == StateEntry::of_special(
                            specials[j].1,
                            specials[j].0.len() as u16,
                        );
                    let ghost len = specials[j].0.len() as int;
                    proof {
                        assert(encoding::first_special(specials, rest@, end as int, j));
                        assert(0 < specials[j].0.len() <= u16::MAX);
                        lemma_text_visits_special(trees, tokens, specials, rest@, end as int, j);
                        encoding::lemma_encoded_special(tokens, specials, rest@, end as int, j);
                    }
                    let ghost longer = out@;
                    let keep: usize = out.len() - (entry.len as usize - 1);
                    out.truncate(keep);
                    proof {
                        let head = rest@.take(end - len);
                        let dfs = out@.skip(base as int);
                        assert forall|d: int| 1 <= d <= head.len() implies #[trigger] dfs[d]
                            == search::stamp(tokens, head.take(d)) by {
                            assert(dfs[d] == longer.skip(base as int)[d]);
                            assert(rest@.take(end - 1).take(d) =~= head.take(d));
                        }
                        assert(dfs[0] == longer.skip(base as int)[0]);
                        assert(out@.take(base as int) =~= done);
                    }
                    self.emit_tokens(out, base, Ghost(rest@.take(end - len)));
                    out.push(entry.special_id());
                    start += end;
                    proof {
                        assert(rest@.skip(end as int) =~= piece@.skip(start as int));
                        let more = encoding::encoded(tokens, specials, rest@.skip(end as int));
                        assert(done + encoding::encoded(tokens, specials, rest@) =~= out@ + more);
                        assert(log0 + full =~= visit.log() + text_visits(
                            trees,
                            tokens,
                            specials,
                            rest@.skip(end as int),
                        ));
                    }
                },
            }
        }
    }

    /// Counts how many times each search tree node is visited while a corpus is encoded.
    fn count_cst_visits(&self, corpus: &[Vec<u8>]) -> (counts: Vec<u64>)
        requires
            self.inv(),
        ensures
            counts@.len() == self.centroid_trees.nodes@.len(),
            search::counted(
                counts@,
                corpus_visits(
                    self.centroid_trees,
                    self.vocab@,
                    self.special_list@,
                    utils::texts(corpus@),
                    corpus@.len() as int,
                ),
            ),
    {
        let mut visit: VisitCounts = VisitCounts {
            counts: vec![0u64; self.centroid_trees.nodes.len()],
            log: Ghost(Seq::empty()),
        };
        let mut scratch: Vec<u32> = Vec::new();
        let mut i: usize = 0;
        while i < corpus.len()
            invariant
                self.inv(),
                i <= corpus@.len(),
                visit.ok(),
                visit.room() == self.centroid_trees.nodes@.len(),
                visit.log() == corpus_visits(
                    self.centroid_trees,
                    self.vocab@,
                    self.special_list@,
                    utils::texts(corpus@),
                    i as int,
                ),
            decreases corpus.len() - i,
        {
            scratch.clear();
            assert(utils::texts(corpus@)[i as int] == corpus@[i as int]@);
            self.encode_visit(corpus[i].as_slice(), &mut scratch, &mut visit);
            i += 1;
        }
        visit.counts
    }

    /// Moves the search tree nodes that encoding a corpus visits most to the front.
    pub(crate) fn optimize_layout(self, corpus: &[Vec<u8>]) -> (r: Self)
        ensures
            r.tokens() == self.tokens(),
            r.specials() == self.specials(),
            r.trees().wf(self.tokens()),
            laid_out(
                self.trees(),
                r.trees(),
                self.tokens(),
                self.specials(),
                utils::texts(corpus@),
            ),
    {
        proof {
            use_type_invariant(&self);
        }
        let counts: Vec<u64> = self.count_cst_visits(corpus);
        let IncrementalBpe { table, pma, mut centroid_trees, index, vocab, special_list } = self;
        let ghost prior = centroid_trees;
        centroid_trees.reorder_by_counts(counts.as_slice());
        proof {
            let order = choose|order: Seq<int>|
                sufsuc::by_counts(counts@, order) && #[trigger] centroid_trees.reordered(
                    &prior,
                    order,
                );
            assert(sufsuc::by_counts(counts@, order));
        }
        IncrementalBpe { table, pma, centroid_trees, index, vocab, special_list }
    }

    /// Tokenizes one chunk and appends the token sequence to `out`.
    ///
    /// The history borrows the tail of `out` while a chunk is consumed, so reusing one `Vec` across
    /// chunks saves the allocation per chunk.
    pub fn encode(&self, piece: &[u8], out: &mut Vec<u32>)
        ensures
            final(out)@ == old(out)@ + encoding::encoded(self.tokens(), self.specials(), piece@),
            final(out)@.take(old(out)@.len() as int) == old(out)@,
            promises::encodes(
                self.tokens(),
                self.specials(),
                piece@,
                final(out)@.skip(old(out)@.len() as int),
            ),
    {
        proof {
            use_type_invariant(self);
            promises::lemma_encodes(self.tokens(), self.specials(), piece@);
        }
        let ghost before = out@;
        let mut visit: NoVisits = NoVisits { log: Ghost(Seq::empty()) };
        self.encode_visit(piece, out, &mut visit);
        proof {
            let ids = encoding::encoded(self.tokens(), self.specials(), piece@);
            assert(out@.skip(before.len() as int) =~= ids);
            assert(out@.take(before.len() as int) =~= before);
        }
    }
}

/// The visits for a text whose first special token is known.
pub proof fn lemma_text_visits_special(
    trees: CentroidSearchTree,
    tokens: Seq<Seq<u8>>,
    specials: Seq<(Seq<u8>, u32)>,
    text: Seq<u8>,
    e: int,
    j: int,
)
    requires
        encoding::isolated(tokens, specials),
        encoding::first_special(specials, text, e, j),
    ensures
        text_visits(trees, tokens, specials, text) == prefix_visits(trees, tokens, text, e - 1)
            + text_visits(trees, tokens, specials, text.skip(e)),
{
    let (e2, j2) = choose|e2: int, j2: int| encoding::first_special(specials, text, e2, j2);
    assert(encoding::first_special(specials, text, e2, j2));
    if e2 < e {
        assert(encoding::special_ends(specials, text.take(e2), j2));
    } else if e < e2 {
        assert(encoding::special_ends(specials, text.take(e), j));
    }
}

} // verus!
