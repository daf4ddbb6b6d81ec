//! The normalized vocabulary: its canonical tokens, and the linearization of the successor forest.
//!
//! [`TokenTableBuilder::new`] keeps only the canonical tokens, recovers the last merge of each, and
//! numbers the forest in preorder. [`TokenTableBuilder::finish`] leaves only what is read while a
//! text is tokenized.

use vstd::prelude::*;
use vstd::slice::slice_subrange;

use crate::acceptance;
use crate::canonical;
use crate::canonical::{filter_canonical, CanonicalEntry};
use crate::entry::{DfsEntry, Interval, SearchEntry, StateEntry, INVALID_ID};
use crate::error::{Error, Result};
use crate::forest;
use crate::lexicon;
use crate::maps::BytesMap;
use crate::merge;
use crate::numbering;
use crate::utils;
use crate::utils::{copy_bytes, FromU32};

verus! {

/// The tables that are read while a text is tokenized.
pub struct TokenTable {
    /// The timestamp of each canonical token.
    pub dfs_in: Vec<u32>,
    /// Rank and length by timestamp.
    pub dfs_in_inv: Vec<DfsEntry>,
}

impl TokenTable {
    /// Whether the tables are those of the token list.
    pub open spec fn wf(&self, tokens: Seq<Seq<u8>>) -> bool {
        &&& self.dfs_in@.len() == lexicon::canon(tokens).len()
        &&& self.dfs_in_inv@.len() == lexicon::canon(tokens).len()
        &&& forall|i: int|
            0 <= i < lexicon::canon(tokens).len() ==> #[trigger] self.dfs_in@[i]
                == numbering::timestamp(tokens, i)
        &&& forall|i: int|
            0 <= i < lexicon::canon(tokens).len()
                ==> self.dfs_in_inv@[#[trigger] numbering::timestamp(tokens, i)]
                == numbering::dfs_entry_of(tokens, i)
    }
}

/// The normalized vocabulary under construction, as a struct of arrays indexed by the number of a
/// canonical token.
pub struct TokenTableBuilder {
    /// The byte strings of all tokens, concatenated.
    pub bytes: Vec<u8>,
    /// `offsets[i]..offsets[i + 1]` is the range of token `i` within `bytes`.
    pub offsets: Vec<u32>,
    /// The lengths of the tokens.
    pub token_len: Vec<u16>,
    /// The ranks of the tokens.
    pub rank: Vec<u32>,
    /// The left component of the last merge, `INVALID_ID` for single bytes.
    pub pre: Vec<u32>,
    /// The right component of the last merge, `INVALID_ID` for single bytes.
    pub suc: Vec<u32>,
    /// Entry timestamps in the preorder of the successor forest.
    pub dfs_in: Vec<u32>,
    /// Exit timestamps: the subtree of `t` is `[dfs_in(t), dfs_out(t))`.
    pub dfs_out: Vec<u32>,
    /// The valid interval and the lengths of each token.
    pub search: Vec<SearchEntry>,
    /// Rank and length by timestamp.
    pub dfs_in_inv: Vec<DfsEntry>,
    /// The token list that the tables are made from.
    pub vocab: Ghost<Seq<Seq<u8>>>,
}

/// The number of a component as it is stored, for token `i` of the list.
pub open spec fn stored_id(tokens: Seq<Seq<u8>>, i: int, id: int) -> u32 {
    if lexicon::token(tokens, i).len() < 2 {
        INVALID_ID
    } else {
        id as u32
    }
}

impl TokenTableBuilder {
    /// Whether the tables of the tokens hold the canonical token number `i`.
    pub open spec fn holds_token(&self, i: int) -> bool {
        let tokens = self.vocab@;
        &&& self.bytes@.subrange(
            lexicon::total_len(tokens, i) as int,
            lexicon::total_len(tokens, i + 1) as int,
        ) == lexicon::token(tokens, i)
        &&& self.token_len@[i] == lexicon::token(tokens, i).len()
        &&& self.rank@[i] == lexicon::canon(tokens)[i]
        &&& self.pre@[i] == stored_id(tokens, i, numbering::pre_id(tokens, i))
        &&& self.suc@[i] == stored_id(tokens, i, numbering::suc_id(tokens, i))
    }

    /// Whether the first `n` canonical tokens, and nothing else, are in the tables of the tokens.
    pub open spec fn holds_first(&self, n: int) -> bool {
        let tokens = self.vocab@;
        &&& self.offsets@.len() == n + 1
        &&& self.token_len@.len() == n
        &&& self.rank@.len() == n
        &&& self.pre@.len() == n
        &&& self.suc@.len() == n
        &&& self.bytes@.len() == lexicon::total_len(tokens, n)
        &&& forall|i: int|
            0 <= i <= n ==> #[trigger] self.offsets@[i] == lexicon::total_len(tokens, i)
        &&& forall|i: int| 0 <= i < n ==> #[trigger] self.holds_token(i)
    }

    /// Whether the tables of the tokens are those of an accepted list.
    pub open spec fn filled(&self) -> bool {
        &&& lexicon::vocab_error(self.vocab@) is None
        &&& self.holds_first(lexicon::canon(self.vocab@).len() as int)
    }

    /// Whether all tables are those of an accepted list.
    pub open spec fn wf(&self) -> bool {
        let tokens = self.vocab@;
        let k = lexicon::canon(tokens).len();
        &&& self.filled()
        &&& self.dfs_in@.len() == k
        &&& self.dfs_out@.len() == k
        &&& self.search@.len() == k
        &&& self.dfs_in_inv@.len() == k
        &&& forall|i: int|
            0 <= i < k ==> #[trigger] self.dfs_in@[i] == numbering::timestamp(tokens, i)
        &&& forall|i: int|
            0 <= i < k ==> #[trigger] self.dfs_out@[i] == numbering::exit_time(tokens, i)
        &&& forall|i: int|
            0 <= i < k ==> #[trigger] self.search@[i] == numbering::search_of(tokens, i)
        &&& forall|i: int|
            0 <= i < k ==> self.dfs_in_inv@[#[trigger] numbering::timestamp(tokens, i)]
                == numbering::dfs_entry_of(tokens, i)
    }

    /// Hands over the arrays that tokenization needs.
    pub fn finish(self) -> (r: TokenTable)
        ensures
            self.wf() ==> r.wf(self.vocab@),
            r.dfs_in@ == self.dfs_in@,
            r.dfs_in_inv@ == self.dfs_in_inv@,
    {
        TokenTable { dfs_in: self.dfs_in, dfs_in_inv: self.dfs_in_inv }
    }

    /// The number of canonical tokens.
    pub fn len(&self) -> (r: usize)
        ensures
            r == self.token_len@.len(),
            self.filled() ==> r == lexicon::canon(self.vocab@).len(),
    {
        self.token_len.len()
    }

    /// The byte string of token `i`.
    pub fn token_bytes(&self, i: u32) -> (r: &[u8])
        requires
            self.filled(),
            i < lexicon::canon(self.vocab@).len(),
        ensures
            r@ == lexicon::token(self.vocab@, i as int),
    {
        let i: usize = usize::from_u32(i);
        let start: usize = usize::from_u32(self.offsets[i]);
        assert(i < self.offsets.len() - 1);
        let end: usize = usize::from_u32(self.offsets[i + 1]);
        proof {
            let tokens = self.vocab@;
            assert(self.holds_token(i as int));
            assert(self.offsets@[i as int] == lexicon::total_len(tokens, i as int));
            assert(self.offsets@[i + 1] == lexicon::total_len(tokens, i + 1));
            lexicon::lemma_total_len(tokens, i as int, i + 1);
            lexicon::lemma_total_len(tokens, i + 1, lexicon::canon(tokens).len() as int);
        }
        slice_subrange(self.bytes.as_slice(), start, end)
    }

    /// Whether token `i` is a single byte, i.e. a root of the successor forest.
    pub fn is_atomic(&self, i: u32) -> (r: bool)
        requires
            i < self.pre@.len(),
        ensures
            r == (self.pre@[i as int] == INVALID_ID),
            self.filled() ==> r == (lexicon::token(self.vocab@, i as int).len() < 2),
    {
        proof {
            if self.filled() {
                self.lemma_stored(i as int);
            }
        }
        self.pre[usize::from_u32(i)] == INVALID_ID
    }

    /// Builds the automaton payload of token `t`.
    pub fn to_entry(&self, t: u32) -> (r: StateEntry)
        requires
            t < self.search@.len(),
            t < self.dfs_in@.len(),
        ensures
            r.valid == self.search@[t as int].valid,
            r.dfs_in_tau == self.dfs_in@[t as int],
            r.len == self.search@[t as int].len,
            r.suc_len == self.search@[t as int].suc_len,
            self.wf() ==> r == numbering::entry_of(self.vocab@, t as int),
    {
        let t: usize = usize::from_u32(t);
        let search: SearchEntry = self.search[t];
        proof {
            if self.wf() {
                numbering::lemma_timestamp(self.vocab@);
                assert(self.dfs_in@[t as int] == numbering::timestamp(self.vocab@, t as int));
            }
        }
        StateEntry {
            valid: search.valid,
            dfs_in_tau: self.dfs_in[t],
            len: search.len,
            suc_len: search.suc_len,
        }
    }
}

proof fn lemma_first_repeat(list: Seq<Seq<u8>>, j: int)
    requires
        lexicon::first_repeat(list, j),
    ensures
        !list.no_duplicates(),
        forall|i: int| #[trigger] lexicon::first_repeat(list, i) ==> i == j,
{
    let p = choose|p: int| 0 <= p < j && list.take(j)[p] == list[j];
    assert(list[p] == list[j]);
    assert forall|i: int| #[trigger] lexicon::first_repeat(list, i) implies i == j by {
        let q = choose|q: int| 0 <= q < i && list.take(i)[q] == list[i];
        if i < j {
            assert(list.take(j)[q] == list.take(j)[i]);
        } else if j < i {
            assert(list.take(i)[p] == list.take(i)[j]);
        }
    }
}

/// Maps each token to its position, which is its rank.
fn rank_tokens(tokens: &[Vec<u8>]) -> (r: Result<BytesMap>)
    ensures
        match r {
            Ok(ranks) => {
                &&& lexicon::size_error(utils::texts(tokens@)) is None
                &&& lexicon::duplicate_error(utils::texts(tokens@)) is None
                &&& ranks@ == lexicon::rank_map(utils::texts(tokens@))
            },
            Err(e) => if lexicon::size_error(utils::texts(tokens@)) is Some {
                lexicon::size_error(utils::texts(tokens@)) == Some(e@)
            } else {
                lexicon::duplicate_error(utils::texts(tokens@)) == Some(e@)
            },
        },
{
    let ghost list = utils::texts(tokens@);
    if tokens.len() as u64 > u32::MAX as u64 {
        return Err(Error::VocabTooLarge { what: "tokens", len: tokens.len() });
    }
    let mut ranks: BytesMap = BytesMap::new();
    let mut p: usize = 0;
    while p < tokens.len()
        invariant
            list == utils::texts(tokens@),
            list.len() <= u32::MAX,
            p <= tokens@.len(),
            list.take(p as int).no_duplicates(),
            forall|i: int|
                0 <= i < p ==> ranks@.contains_key(#[trigger] list[i]) && ranks@[list[i]] == i,
            forall|b: Seq<u8>| #[trigger]
                ranks@.contains_key(b) ==> ranks@[b] < p && list[ranks@[b] as int] == b,
        decreases tokens.len() - p,
    {
        let ghost before = ranks@;
        let bytes: &[u8] = tokens[p].as_slice();
        assert(list[p as int] == bytes@);
        let previous: Option<u32> = ranks.insert(copy_bytes(bytes), p as u32);
        if let Some(first) = previous {
            proof {
                let head = list.take(p as int);
                assert(before.contains_key(bytes@));
                assert(head[first as int] == bytes@);
                assert(head.contains(list[p as int]));
                lemma_first_repeat(list, p as int);
                let i = head.index_of(bytes@);
                assert(0 <= i < head.len() && head[i] == bytes@);
                assert(i == first);
                assert(lexicon::first_repeat(list, p as int));
            }
            return Err(
                Error::DuplicateToken { token: copy_bytes(bytes), first, second: p as u32 },
            );
        }
        proof {
            let head = list.take(p as int);
            let next = list.take(p + 1);
            assert forall|i: int, j: int| 0 <= i < next.len() && 0 <= j < next.len() && i
                != j implies next[i] != next[j] by {
                if i < p && j < p {
                    assert(head[i] != head[j]);
                } else {
                    let q = if i < p {
                        i
                    } else {
                        j
                    };
                    assert(before.contains_key(list[q]));
                }
            }
            assert forall|i: int| 0 <= i < p + 1 implies ranks@.contains_key(#[trigger] list[i])
                && ranks@[list[i]] == i by {
                if i < p {
                    assert(before.contains_key(list[i]));
                }
            }
        }
        p += 1;
    }
    proof {
        assert(list.take(p as int) =~= list);
        assert forall|b: Seq<u8>| #[trigger] ranks@.contains_key(b) implies list.contains(b) by {
            assert(list[ranks@[b] as int] == b);
        }
        lexicon::lemma_is_rank_map(list, ranks@);
    }
    Ok(ranks)
}

/// Checks that every single byte is a token.
fn check_bytes(ranks: &BytesMap, tokens: Ghost<Seq<Seq<u8>>>) -> (r: Result<()>)
    requires
        ranks@ == lexicon::rank_map(tokens@),
    ensures
        match r {
            Ok(_) => lexicon::byte_error(tokens@) is None,
            Err(e) => lexicon::byte_error(tokens@) == Some(e@),
        },
{
    let mut b: u16 = 0;
    while b <= 255
        invariant
            ranks@ == lexicon::rank_map(tokens@),
            b <= 256,
            forall|c: u8| c < b ==> #[trigger] tokens@.contains(seq![c]),
        decreases 256 - b,
    {
        let byte: u8 = b as u8;
        let mut key: Vec<u8> = Vec::new();
        key.push(byte);
        assert(key@ =~= seq![byte]);
        if ranks.get(key.as_slice()).is_none() {
            proof {
                assert(!tokens@.contains(seq![byte]));
                assert(lexicon::first_missing(tokens@, byte));
                let m = choose|m: u8| lexicon::first_missing(tokens@, m);
                assert(m == byte);
            }
            return Err(Error::MissingByteToken(byte));
        }
        b += 1;
    }
    Ok(())
}

/// The two components of the last merge of a canonical entry, by number and by rank.
struct Components {
    pre: u32,
    suc: u32,
    pre_rank: u32,
    suc_rank: u32,
}

/// Looks up the components of entry `i`. They are canonical, and so always found.
fn components(
    canon: &Vec<CanonicalEntry>,
    index: &BytesMap,
    i: usize,
    mid: usize,
    tokens: Ghost<Seq<Seq<u8>>>,
) -> (r: Components)
    requires
        tokens@.len() <= u32::MAX,
        tokens@.no_duplicates(),
        lexicon::all_bytes(tokens@),
        canon@.len() == lexicon::canon(tokens@).len(),
        forall|j: int|
            0 <= j < canon@.len() ==> canonical::describes(tokens@, j, #[trigger] canon@[j]),
        forall|j: int|
            0 <= j < canon@.len() ==> index@.contains_key(#[trigger] lexicon::token(tokens@, j))
                && index@[lexicon::token(tokens@, j)] == j,
        i < canon@.len(),
        canon@[i as int].mid == Some(mid),
    ensures
        ({
            let ranks = lexicon::rank_map(tokens@);
            let t = lexicon::token(tokens@, i as int);
            &&& r.pre == numbering::pre_id(tokens@, i as int)
            &&& r.suc == numbering::suc_id(tokens@, i as int)
            &&& r.pre_rank == ranks[merge::pre(ranks, t)]
            &&& r.suc_rank == ranks[merge::suc(ranks, t)]
            &&& merge::pre(ranks, t) == t.take(mid as int)
            &&& merge::suc(ranks, t) == t.skip(mid as int)
        }),
{
    let bytes: &[u8] = canon[i].bytes;
    assert(canonical::describes(tokens@, i as int, canon@[i as int]));
    let pre: &[u8] = slice_subrange(bytes, 0, mid);
    let suc: &[u8] = slice_subrange(bytes, mid, bytes.len());
    let ghost ranks = lexicon::rank_map(tokens@);
    let ghost t = lexicon::token(tokens@, i as int);
    proof {
        lexicon::lemma_canon(tokens@);
        merge::lemma_canonical_split(ranks, t);
        assert(pre@ =~= merge::pre(ranks, t));
        assert(suc@ =~= merge::suc(ranks, t));
        assert(t.take(mid as int) =~= pre@);
        assert(t.skip(mid as int) =~= suc@);
        numbering::lemma_id(tokens@, pre@);
        numbering::lemma_id(tokens@, suc@);
        assert(index@.contains_key(lexicon::token(tokens@, numbering::pre_id(tokens@, i as int))));
        assert(index@.contains_key(lexicon::token(tokens@, numbering::suc_id(tokens@, i as int))));
        assert(canonical::describes(
            tokens@,
            numbering::pre_id(tokens@, i as int),
            canon@[numbering::pre_id(tokens@, i as int)],
        ));
        assert(canonical::describes(
            tokens@,
            numbering::suc_id(tokens@, i as int),
            canon@[numbering::suc_id(tokens@, i as int)],
        ));
    }
    let pre_id: u32 = index.get(pre).unwrap();
    let suc_id: u32 = index.get(suc).unwrap();
    Components {
        pre: pre_id,
        suc: suc_id,
        pre_rank: canon[usize::from_u32(pre_id)].rank,
        suc_rank: canon[usize::from_u32(suc_id)].rank,
    }
}

/// Maps each canonical token to its number.
fn number_tokens(canon: &Vec<CanonicalEntry>, tokens: Ghost<Seq<Seq<u8>>>) -> (index: BytesMap)
    requires
        tokens@.len() <= u32::MAX,
        tokens@.no_duplicates(),
        canon@.len() == lexicon::canon(tokens@).len(),
        forall|j: int|
            0 <= j < canon@.len() ==> canonical::describes(tokens@, j, #[trigger] canon@[j]),
    ensures
        forall|j: int|
            0 <= j < canon@.len() ==> index@.contains_key(#[trigger] lexicon::token(tokens@, j))
                && index@[lexicon::token(tokens@, j)] == j,
{
    proof {
        lexicon::lemma_canon(tokens@);
    }
    let mut index: BytesMap = BytesMap::new();
    let mut i: usize = 0;
    while i < canon.len()
        invariant
            tokens@.len() <= u32::MAX,
            tokens@.no_duplicates(),
            i <= canon@.len(),
            canon@.len() == lexicon::canon(tokens@).len(),
            lexicon::canon(tokens@).len() <= tokens@.len(),
            forall|j: int|
                0 <= j < canon@.len() ==> canonical::describes(tokens@, j, #[trigger] canon@[j]),
            forall|j: int|
                0 <= j < i ==> index@.contains_key(#[trigger] lexicon::token(tokens@, j))
                    && index@[lexicon::token(tokens@, j)] == j,
        decreases canon.len() - i,
    {
        assert(canonical::describes(tokens@, i as int, canon@[i as int]));
        let _previous: Option<u32> = index.insert(copy_bytes(canon[i].bytes), i as u32);
        proof {
            assert forall|j: int| 0 <= j < i + 1 implies index@.contains_key(
                #[trigger] lexicon::token(tokens@, j),
            ) && index@[lexicon::token(tokens@, j)] == j by {
                numbering::lemma_same_token(tokens@, i as int, j);
            }
        }
        i += 1;
    }
    index
}

proof fn lemma_push_bytes(b: Seq<u8>, e: Seq<u8>, lo: int, hi: int)
    requires
        0 <= lo <= hi <= b.len(),
    ensures
        (b + e).subrange(lo, hi) == b.subrange(lo, hi),
        (b + e).subrange(b.len() as int, (b + e).len() as int) == e,
{
    assert((b + e).subrange(lo, hi) =~= b.subrange(lo, hi));
    assert((b + e).subrange(b.len() as int, (b + e).len() as int) =~= e);
}

impl TokenTableBuilder {
    /// Fills the tables of the tokens, and rejects a token that is too long or not proper.
    #[verifier::rlimit(60)]
    #[verifier::spinoff_prover]
    fn assemble(canon: &Vec<CanonicalEntry>, tokens: Ghost<Seq<Seq<u8>>>) -> (r: Result<Self>)
        requires
            tokens@.len() <= u32::MAX,
            tokens@.no_duplicates(),
            lexicon::all_bytes(tokens@),
            canon@.len() == lexicon::canon(tokens@).len(),
            forall|j: int|
                0 <= j < canon@.len() ==> canonical::describes(tokens@, j, #[trigger] canon@[j]),
        ensures
            match r {
                Ok(table) => {
                    &&& lexicon::table_error(tokens@, 0) is None
                    &&& table.vocab@ == tokens@
                    &&& table.holds_first(lexicon::canon(tokens@).len() as int)
                },
                Err(e) => lexicon::table_error(tokens@, 0) == Some(e@),
            },
    {
        let k: usize = canon.len();
        let index: BytesMap = number_tokens(canon, tokens);
        let mut table: Self = TokenTableBuilder {
            bytes: Vec::new(),
            offsets: Vec::new(),
            token_len: Vec::new(),
            rank: Vec::new(),
            pre: Vec::new(),
            suc: Vec::new(),
            dfs_in: Vec::new(),
            dfs_out: Vec::new(),
            search: Vec::new(),
            dfs_in_inv: Vec::new(),
            vocab: tokens,
        };
        table.offsets.push(0);
        let mut i: usize = 0;
        while i < k
            invariant
                tokens@.len() <= u32::MAX,
                tokens@.no_duplicates(),
                lexicon::all_bytes(tokens@),
                k == canon@.len(),
                canon@.len() == lexicon::canon(tokens@).len(),
                forall|j: int|
                    0 <= j < canon@.len() ==> canonical::describes(
                        tokens@,
                        j,
                        #[trigger] canon@[j],
                    ),
                forall|j: int|
                    0 <= j < canon@.len() ==> index@.contains_key(
                        #[trigger] lexicon::token(tokens@, j),
                    ) && index@[lexicon::token(tokens@, j)] == j,
                i <= k,
                table.vocab@ == tokens@,
                table.holds_first(i as int),
                lexicon::table_error(tokens@, 0) == lexicon::table_error(tokens@, i as int),
            decreases k - i,
        {
            let entry: CanonicalEntry = canon[i];
            let bytes: &[u8] = entry.bytes;
            let ghost t = lexicon::token(tokens@, i as int);
            let ghost old_table = table;
            assert(canonical::describes(tokens@, i as int, entry));
            if bytes.len() > u16::MAX as usize {
                let head: Vec<u8> = copy_bytes(slice_subrange(bytes, 0, 32));
                assert(head@ =~= t.take(32));
                return Err(Error::TokenTooLong { token: head, len: bytes.len() });
            }
            let token_len: u16 = bytes.len() as u16;
            table.bytes.extend_from_slice(bytes);
            assert(table.bytes@ =~= old_table.bytes@ + t);
            assert(lexicon::total_len(tokens@, i + 1) == lexicon::total_len(tokens@, i as int)
                + t.len());
            if table.bytes.len() as u64 > u32::MAX as u64 {
                return Err(
                    Error::VocabTooLarge { what: "vocabulary bytes", len: table.bytes.len() },
                );
            }
            let end: u32 = table.bytes.len() as u32;
            table.offsets.push(end);
            table.token_len.push(token_len);
            table.rank.push(entry.rank);
            match entry.mid {
                None => {
                    table.pre.push(INVALID_ID);
                    table.suc.push(INVALID_ID);
                },
                Some(mid) => {
                    let c: Components = components(canon, &index, i, mid, tokens);
                    if c.pre_rank >= entry.rank || c.suc_rank >= entry.rank {
                        let pre: Vec<u8> = copy_bytes(slice_subrange(bytes, 0, mid));
                        let suc: Vec<u8> = copy_bytes(slice_subrange(bytes, mid, bytes.len()));
                        proof {
                            lexicon::lemma_canon(tokens@);
                            assert(pre@ =~= t.take(mid as int));
                            assert(suc@ =~= t.skip(mid as int));
                        }
                        return Err(
                            Error::NotProper {
                                token: copy_bytes(bytes),
                                rank: entry.rank,
                                pre,
                                pre_rank: c.pre_rank,
                                suc,
                                suc_rank: c.suc_rank,
                            },
                        );
                    }
                    table.pre.push(c.pre);
                    table.suc.push(c.suc);
                },
            }
            proof {
                lexicon::lemma_canon(tokens@);
                assert(lexicon::rank_map(tokens@)[t] == lexicon::canon(tokens@)[i as int]);
                assert(lexicon::entry_error(tokens@, i as int) is None);
                assert forall|j: int| 0 <= j < i + 1 implies #[trigger] table.holds_token(j) by {
                    if j < i {
                        assert(old_table.holds_token(j));
                        lexicon::lemma_total_len(tokens@, j, j + 1);
                        lexicon::lemma_total_len(tokens@, j + 1, i as int);
                        lemma_push_bytes(
                            old_table.bytes@,
                            t,
                            lexicon::total_len(tokens@, j) as int,
                            lexicon::total_len(tokens@, j + 1) as int,
                        );
                    } else {
                        lemma_push_bytes(old_table.bytes@, t, 0, 0);
                    }
                }
                assert forall|j: int| 0 <= j <= i + 1 implies #[trigger] table.offsets@[j]
                    == lexicon::total_len(tokens@, j) by {
                    if j <= i {
                        assert(old_table.offsets@[j] == lexicon::total_len(tokens@, j));
                    }
                }
            }
            i += 1;
        }
        Ok(table)
    }
}

/// What the pass over the forest from the last node to the first leaves behind.
struct Sizes {
    /// The size of each subtree.
    size: Vec<u32>,
    /// The size of the subtrees that the siblings of a node with a larger number root.
    off: Vec<u32>,
    /// The size of the subtrees that the children of a node's left component with a number larger
    /// than the node's root; 0 for single bytes.
    cut: Vec<u32>,
}

impl Sizes {
    spec fn holds(&self, tokens: Seq<Seq<u8>>, i: int) -> bool {
        let par = numbering::parents(tokens);
        &&& self.size@[i] == forest::size(par, i)
        &&& self.off@[i] == forest::after(par, par[i], i)
        &&& lexicon::token(tokens, i).len() >= 2 ==> self.cut@[i] == forest::after(
            par,
            numbering::pre_id(tokens, i),
            i,
        )
    }
}

impl TokenTableBuilder {
    /// The stored components of a token are its components.
    pub proof fn lemma_stored(&self, i: int)
        requires
            self.filled(),
            0 <= i < lexicon::canon(self.vocab@).len(),
        ensures
            self.holds_token(i),
            self.pre@[i] == INVALID_ID <==> lexicon::token(self.vocab@, i).len() < 2,
            self.pre@[i] == INVALID_ID ==> numbering::parents(self.vocab@)[i] == -1,
            self.pre@[i] != INVALID_ID ==> {
                &&& self.pre@[i] == numbering::pre_id(self.vocab@, i)
                &&& self.suc@[i] == numbering::suc_id(self.vocab@, i)
                &&& self.suc@[i] == numbering::parents(self.vocab@)[i]
                &&& self.pre@[i] < i
                &&& self.suc@[i] < i
            },
    {
        assert(self.holds_token(i));
        numbering::lemma_forest(self.vocab@);
        if lexicon::token(self.vocab@, i).len() >= 2 {
            numbering::lemma_components(self.vocab@, i);
        }
    }

    /// Sums up the subtree sizes. A node comes after its parent, so the sizes of all its children
    /// are known when it is reached.
    #[verifier::spinoff_prover]
    #[verifier::rlimit(40)]
    fn measure_forest(&self) -> (r: Sizes)
        requires
            self.filled(),
        ensures
            r.size@.len() == lexicon::canon(self.vocab@).len(),
            r.off@.len() == lexicon::canon(self.vocab@).len(),
            r.cut@.len() == lexicon::canon(self.vocab@).len(),
            forall|i: int|
                0 <= i < lexicon::canon(self.vocab@).len() ==> #[trigger] r.holds(self.vocab@, i),
    {
        let k: usize = self.len();
        let ghost tokens = self.vocab@;
        let ghost par = numbering::parents(tokens);
        proof {
            numbering::lemma_forest(tokens);
        }
        // acc[p] is the size of the subtrees of the children of `p` passed so far.
        let mut acc: Vec<u32> = vec![0u32; k];
        let mut roots: u32 = 0;
        let mut r: Sizes = Sizes { size: vec![0u32; k], off: vec![0u32; k], cut: vec![0u32; k] };
        let mut u: usize = k;
        proof {
            assert forall|p: int| 0 <= p < k implies #[trigger] acc@[p] == forest::after(
                par,
                p,
                u - 1,
            ) by {}
        }
        while u > 0
            invariant
                self.filled(),
                tokens == self.vocab@,
                par == numbering::parents(tokens),
                forest::forest(par),
                par.len() == k,
                k == lexicon::canon(tokens).len(),
                k <= u32::MAX,
                u <= k,
                acc@.len() == k,
                r.size@.len() == k,
                r.off@.len() == k,
                r.cut@.len() == k,
                roots == forest::after(par, -1, u - 1),
                forall|p: int| 0 <= p < k ==> #[trigger] acc@[p] == forest::after(par, p, u - 1),
                forall|i: int| u <= i < k ==> #[trigger] r.holds(tokens, i),
            decreases u,
        {
            u -= 1;
            let ghost before = acc@;
            let ghost old_r = r;
            proof {
                self.lemma_stored(u as int);
                forest::lemma_after_bound(par, u as int, u as int);
                forest::lemma_after_bound(par, par[u as int], u - 1);
                forest::lemma_after_mono(par, par[u as int], u - 1, u as int);
                assert(acc@[u as int] == forest::after(par, u as int, u as int));
            }
            let size: u32 = 1 + acc[u];
            r.size.set(u, size);
            if self.pre[u] == INVALID_ID {
                r.off.set(u, roots);
                roots = roots + size;
            } else {
                let p: usize = usize::from_u32(self.suc[u]);
                let q: usize = usize::from_u32(self.pre[u]);
                assert(acc@[q as int] == forest::after(par, q as int, u as int));
                r.cut.set(u, acc[q]);
                let off: u32 = acc[p];
                assert(off == forest::after(par, p as int, u as int));
                r.off.set(u, off);
                acc.set(p, off + size);
            }
            proof {
                assert forall|p: int| 0 <= p < k implies #[trigger] acc@[p] == forest::after(
                    par,
                    p,
                    u - 1,
                ) by {
                    assert(before[p] == forest::after(par, p, u as int));
                }
                assert forall|i: int| u <= i < k implies #[trigger] r.holds(tokens, i) by {
                    if i > u {
                        assert(old_r.holds(tokens, i));
                    }
                }
            }
        }
        r
    }

    /// Numbers the successor forest in preorder, filling `dfs_in`, `dfs_out`, `dfs_in_inv` and
    /// `search`.
    ///
    /// Of the children of one node, those with a larger rank come first. This gathers the ones that
    /// a valid interval must leave out at the end of the parent's range, so that a single upper
    /// bound cuts them off.
    #[verifier::spinoff_prover]
    #[verifier::rlimit(60)]
    fn build_forest(&mut self)
        requires
            old(self).filled(),
        ensures
            final(self).wf(),
            final(self).vocab@ == old(self).vocab@,
    {
        let k: usize = self.len();
        let sizes: Sizes = self.measure_forest();
        let ghost tokens = self.vocab@;
        let ghost par = numbering::parents(tokens);
        proof {
            numbering::lemma_forest(tokens);
        }
        let mut dfs_in: Vec<u32> = Vec::new();
        let mut dfs_out: Vec<u32> = Vec::new();
        let mut search: Vec<SearchEntry> = Vec::new();
        let mut inv: Vec<DfsEntry> = vec![DfsEntry { rank: 0, len: 0 }; k];
        let mut u: usize = 0;
        while u < k
            invariant
                self.filled(),
                tokens == self.vocab@,
                par == numbering::parents(tokens),
                forest::forest(par),
                par.len() == k,
                k == lexicon::canon(tokens).len(),
                k <= u32::MAX,
                sizes.size@.len() == k,
                sizes.off@.len() == k,
                sizes.cut@.len() == k,
                forall|i: int| 0 <= i < k ==> #[trigger] sizes.holds(tokens, i),
                u <= k,
                dfs_in@.len() == u,
                dfs_out@.len() == u,
                search@.len() == u,
                inv@.len() == k,
                forall|i: int|
                    0 <= i < u ==> #[trigger] dfs_in@[i] == numbering::timestamp(tokens, i),
                forall|i: int|
                    0 <= i < u ==> #[trigger] dfs_out@[i] == numbering::exit_time(tokens, i),
                forall|i: int|
                    0 <= i < u ==> #[trigger] search@[i] == numbering::search_of(tokens, i),
                forall|i: int|
                    0 <= i < u ==> inv@[#[trigger] numbering::timestamp(tokens, i)]
                        == numbering::dfs_entry_of(tokens, i),
            decreases k - u,
        {
            proof {
                self.lemma_stored(u as int);
                forest::lemma_pos_bound(par, u as int);
                assert(sizes.holds(tokens, u as int));
                lexicon::lemma_accepted(tokens);
                lexicon::lemma_canon(tokens);
                assert(lexicon::token(tokens, u as int).len() > 0);
            }
            let len: u16 = self.token_len[u];
            let size: u32 = sizes.size[u];
            let mut start: u32 = 0;
            let mut entry: SearchEntry = SearchEntry {
                valid: Interval { start: 0, end: 0 },
                len,
                suc_len: 0,
            };
            if self.pre[u] == INVALID_ID {
                proof {
                    forest::lemma_after_mono(par, -1, u as int, u as int);
                }
                start = k as u32 - sizes.off[u] - size;
            } else {
                let p: usize = usize::from_u32(self.suc[u]);
                let q: usize = usize::from_u32(self.pre[u]);
                proof {
                    self.lemma_stored(p as int);
                    numbering::lemma_components(tokens, u as int);
                    assert(dfs_in@[p as int] == numbering::timestamp(tokens, p as int));
                    assert(dfs_in@[q as int] == numbering::timestamp(tokens, q as int));
                    forest::lemma_pos_bound(par, q as int);
                    forest::lemma_pos_bound(par, p as int);
                    forest::lemma_after_mono(par, q as int, q as int, u as int);
                    forest::lemma_after_mono(par, p as int, p as int, u as int);
                }
                start = dfs_in[p] + 1 + sizes.off[u];
                // The lower bound says that the last token lies below the left component; the upper
                // one cuts off the children that rank before `u`, and `u` itself.
                let low: u32 = dfs_in[q];
                entry =
                SearchEntry {
                    valid: Interval { start: low, end: low + 1 + sizes.cut[u] },
                    len,
                    suc_len: self.token_len[p],
                };
            }
            assert(start == numbering::timestamp(tokens, u as int));
            dfs_in.push(start);
            dfs_out.push(start + size);
            search.push(entry);
            inv.set(usize::from_u32(start), DfsEntry { rank: self.rank[u], len });
            proof {
                assert forall|i: int| 0 <= i < u + 1 implies inv@[#[trigger] numbering::timestamp(
                    tokens,
                    i,
                )] == numbering::dfs_entry_of(tokens, i) by {
                    if i < u && numbering::timestamp(tokens, i) == numbering::timestamp(
                        tokens,
                        u as int,
                    ) {
                        forest::lemma_pos_distinct(par, i, u as int);
                    }
                    forest::lemma_pos_bound(par, i);
                }
            }
            u += 1;
        }
        self.dfs_in = dfs_in;
        self.dfs_out = dfs_out;
        self.search = search;
        self.dfs_in_inv = inv;
        proof {
            assert forall|i: int| 0 <= i < k implies #[trigger] self.holds_token(i) by {
                assert(old(self).holds_token(i));
            }
        }
    }

    /// Validates the vocabulary, keeps its canonical tokens, and numbers the successor forest.
    ///
    /// That the components of a canonical token are canonical is not checked, because it always
    /// holds.
    pub fn new(tokens: &[Vec<u8>]) -> (r: Result<Self>)
        ensures
            match r {
                Ok(table) => {
                    &&& lexicon::vocab_error(utils::texts(tokens@)) is None
                    &&& table.wf()
                    &&& table.vocab@ == utils::texts(tokens@)
                    &&& table.vocab@ == acceptance::byte_strings(tokens@)
                    &&& acceptance::acceptable(table.vocab@)
                },
                Err(e) => {
                    &&& lexicon::vocab_error(utils::texts(tokens@)) == Some(e@)
                    &&& !acceptance::acceptable(acceptance::byte_strings(tokens@))
                    &&& acceptance::names_vocab_fault(acceptance::byte_strings(tokens@), e@)
                },
            },
    {
        let list: Ghost<Seq<Seq<u8>>> = Ghost(utils::texts(tokens@));
        proof {
            assert(acceptance::byte_strings(tokens@) =~= list@);
            acceptance::law_vocabulary(list@);
        }
        let ranks: BytesMap = match rank_tokens(tokens) {
            Ok(ranks) => ranks,
            Err(e) => return Err(e),
        };
        if let Err(e) = check_bytes(&ranks, list) {
            return Err(e);
        }
        let canon: Vec<CanonicalEntry> = match filter_canonical(tokens, &ranks) {
            Ok(canon) => canon,
            Err(e) => return Err(e),
        };
        let mut table: Self = match TokenTableBuilder::assemble(&canon, list) {
            Ok(table) => table,
            Err(e) => return Err(e),
        };
        table.build_forest();
        Ok(table)
    }
}

} // verus!
