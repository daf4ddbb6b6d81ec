//! The table that answers, with one lookup, whether a whole chunk is a single token.
//!
//! A key of up to [`INLINE_MAX`] bytes is packed into one word, padded with a byte that never
//! occurs in valid UTF-8; longer keys are held by value. A short key that holds the padding byte is
//! not stored. Missing it costs a fast path, never a result.

use vstd::prelude::*;

use crate::lexicon;
use crate::maps::{BytesMap, WordMap};
use crate::merge;
use crate::numbering;
use crate::utils::{copy_bytes, FromU32};
use crate::vocab::TokenTableBuilder;

verus! {

/// The length up to which a key is packed into a word.
pub const INLINE_MAX: usize = 8;

/// The padding byte, which never occurs in valid UTF-8.
pub const PAD: u8 = 0xF5;

const PAD_WORD: u64 = 0xF5F5_F5F5_F5F5_F5F5;

const SWAR_LO: u64 = 0x0101_0101_0101_0101;

const SWAR_HI: u64 = 0x8080_8080_8080_8080;

/// The byte number `i` of a word, the least significant one first.
pub open spec fn byte_at(word: u64, i: int) -> u8 {
    ((word >> ((8 * i) as u64)) & 0xff) as u8
}

/// The bytes of a word, the least significant one first.
pub open spec fn bytes_of(word: u64) -> Seq<u8> {
    Seq::new(8, |i: int| byte_at(word, i))
}

/// The key followed by as many bytes `fill` as make it eight bytes long.
pub open spec fn padded(key: Seq<u8>, fill: u8) -> Seq<u8> {
    key + Seq::new((8 - key.len()) as nat, |i: int| fill)
}

/// Whether a key can be stored.
pub open spec fn representable(key: Seq<u8>) -> bool {
    key.len() > INLINE_MAX || !key.contains(PAD)
}

/// The word with the given bytes.
spec fn word_of(bytes: Seq<u8>) -> u64 {
    choose|w: u64| bytes_of(w) == bytes
}

/// The id of the last special token with the given bytes.
pub open spec fn special_id(specials: Seq<(Seq<u8>, u32)>, key: Seq<u8>) -> Option<u32>
    decreases specials.len(),
{
    if specials.len() == 0 {
        None
    } else if specials.last().0 == key {
        Some(specials.last().1)
    } else {
        special_id(specials.drop_last(), key)
    }
}

/// The byte strings and ids of a list of special tokens.
pub open spec fn special_views(specials: Seq<(Vec<u8>, u32)>) -> Seq<(Seq<u8>, u32)> {
    specials.map_values(|s: (Vec<u8>, u32)| (s.0@, s.1))
}

/// What a lookup of `key` finds: the id of a special token, or the rank of a canonical token, if
/// the key can be stored.
pub open spec fn find(
    tokens: Seq<Seq<u8>>,
    specials: Seq<(Seq<u8>, u32)>,
    key: Seq<u8>,
) -> Option<u32> {
    if !representable(key) {
        None
    } else if special_id(specials, key) is Some {
        special_id(specials, key)
    } else if merge::canonical(lexicon::rank_map(tokens), key) {
        Some(lexicon::rank_map(tokens)[key])
    } else {
        None
    }
}

/// The entries of the index over a token list and special tokens.
pub open spec fn index_map(tokens: Seq<Seq<u8>>, specials: Seq<(Seq<u8>, u32)>) -> Map<
    Seq<u8>,
    u32,
> {
    Map::new(
        |key: Seq<u8>| find(tokens, specials, key) is Some,
        |key: Seq<u8>| find(tokens, specials, key)->0,
    )
}

/// The bytes of a word one by one.
proof fn lemma_each_byte(w: u64)
    ensures
        bytes_of(w).len() == 8,
        bytes_of(w)[0] == ((w >> 0u64) & 0xff) as u8,
        bytes_of(w)[1] == ((w >> 8u64) & 0xff) as u8,
        bytes_of(w)[2] == ((w >> 16u64) & 0xff) as u8,
        bytes_of(w)[3] == ((w >> 24u64) & 0xff) as u8,
        bytes_of(w)[4] == ((w >> 32u64) & 0xff) as u8,
        bytes_of(w)[5] == ((w >> 40u64) & 0xff) as u8,
        bytes_of(w)[6] == ((w >> 48u64) & 0xff) as u8,
        bytes_of(w)[7] == ((w >> 56u64) & 0xff) as u8,
{
}

proof fn lemma_bytes_of(a: u64, b: u64)
    requires
        bytes_of(a) == bytes_of(b),
    ensures
        a == b,
{
    lemma_each_byte(a);
    lemma_each_byte(b);
    assert(a == b) by (bit_vector)
        requires
            ((a >> 0u64) & 0xff) as u8 == ((b >> 0u64) & 0xff) as u8,
            ((a >> 8u64) & 0xff) as u8 == ((b >> 8u64) & 0xff) as u8,
            ((a >> 16u64) & 0xff) as u8 == ((b >> 16u64) & 0xff) as u8,
            ((a >> 24u64) & 0xff) as u8 == ((b >> 24u64) & 0xff) as u8,
            ((a >> 32u64) & 0xff) as u8 == ((b >> 32u64) & 0xff) as u8,
            ((a >> 40u64) & 0xff) as u8 == ((b >> 40u64) & 0xff) as u8,
            ((a >> 48u64) & 0xff) as u8 == ((b >> 48u64) & 0xff) as u8,
            ((a >> 56u64) & 0xff) as u8 == ((b >> 56u64) & 0xff) as u8,
    ;
}

proof fn lemma_word_of(word: u64, bytes: Seq<u8>)
    requires
        bytes_of(word) == bytes,
    ensures
        word_of(bytes) == word,
{
    lemma_bytes_of(word, word_of(bytes));
}

/// The bytes of a word are its digits in base 256, the least significant one first.
pub proof fn law_word_is_its_bytes(w: u64)
    ensures
        w == bytes_of(w)[0] + 0x100 * bytes_of(w)[1] + 0x1_0000 * bytes_of(w)[2] + 0x100_0000
            * bytes_of(w)[3] + 0x1_0000_0000 * bytes_of(w)[4] + 0x100_0000_0000 * bytes_of(w)[5]
            + 0x1_0000_0000_0000 * bytes_of(w)[6] + 0x100_0000_0000_0000 * bytes_of(w)[7],
{
    lemma_each_byte(w);
    assert(w == ((w >> 0u64) & 0xff) + 0x100 * ((w >> 8u64) & 0xff) + 0x1_0000 * ((w >> 16u64)
        & 0xff) + 0x100_0000 * ((w >> 24u64) & 0xff) + 0x1_0000_0000 * ((w >> 32u64) & 0xff)
        + 0x100_0000_0000 * ((w >> 40u64) & 0xff) + 0x1_0000_0000_0000 * ((w >> 48u64) & 0xff)
        + 0x100_0000_0000_0000 * ((w >> 56u64) & 0xff)) by (bit_vector);
    assert(((w >> 0u64) & 0xff) < 256 && ((w >> 8u64) & 0xff) < 256 && ((w >> 16u64) & 0xff) < 256
        && ((w >> 24u64) & 0xff) < 256 && ((w >> 32u64) & 0xff) < 256 && ((w >> 40u64) & 0xff) < 256
        && ((w >> 48u64) & 0xff) < 256 && ((w >> 56u64) & 0xff) < 256) by (bit_vector);
}

/// The packing is injective: two storable keys with the same padded form are equal.
pub proof fn law_packing_injective(a: Seq<u8>, b: Seq<u8>)
    requires
        a.len() <= INLINE_MAX,
        b.len() <= INLINE_MAX,
        representable(a),
        representable(b),
        padded(a, PAD) == padded(b, PAD),
    ensures
        a == b,
{
    let n = if a.len() <= b.len() {
        a.len() as int
    } else {
        b.len() as int
    };
    if a.len() < b.len() {
        assert(padded(a, PAD)[n] == PAD);
        assert(padded(b, PAD)[n] == b[n]);
        assert(b.contains(PAD));
    } else if b.len() < a.len() {
        assert(padded(b, PAD)[n] == PAD);
        assert(padded(a, PAD)[n] == a[n]);
        assert(a.contains(PAD));
    } else {
        assert forall|i: int| 0 <= i < n implies a[i] == b[i] by {
            assert(padded(a, PAD)[i] == a[i]);
            assert(padded(b, PAD)[i] == b[i]);
        }
        assert(a =~= b);
    }
}

/// A hash table from the byte string of a token to its rank, or of a special token to its id.
pub struct TokenIndex {
    /// Keys of at most `INLINE_MAX` bytes, packed.
    short: WordMap,
    /// Longer keys.
    long: BytesMap,
    /// The largest length of a key, so that longer chunks can be rejected before hashing.
    max_len: u16,
}

impl TokenIndex {
    spec fn lookup(&self, key: Seq<u8>) -> Option<u32> {
        if key.len() > self.max_len {
            None
        } else if key.len() <= INLINE_MAX {
            if representable(key) && self.short@.contains_key(word_of(padded(key, PAD))) {
                Some(self.short@[word_of(padded(key, PAD))])
            } else {
                None
            }
        } else if self.long@.contains_key(key) {
            Some(self.long@[key])
        } else {
            None
        }
    }
}

impl View for TokenIndex {
    type V = Map<Seq<u8>, u32>;

    closed spec fn view(&self) -> Map<Seq<u8>, u32> {
        Map::new(|key: Seq<u8>| self.lookup(key) is Some, |key: Seq<u8>| self.lookup(key)->0)
    }
}

impl TokenIndex {
    /// Packs a key into a word, padded with zeros.
    pub fn inline_word(bytes: &[u8]) -> (word: u64)
        requires
            bytes@.len() <= INLINE_MAX,
        ensures
            bytes_of(word) == padded(bytes@, 0),
    {
        let mut word: u64 = 0;
        let mut i: usize = 0;
        proof {
            assert forall|j: int| 0 <= j < 8 implies #[trigger] byte_at(word, j) == 0 by {
                let s: u64 = (8 * j) as u64;
                assert(((0u64 >> s) & 0xff) as u8 == 0) by (bit_vector);
            }
        }
        while i < bytes.len()
            invariant
                i <= bytes@.len() <= INLINE_MAX,
                forall|j: int|
                    0 <= j < 8 ==> #[trigger] byte_at(word, j) == if j < i {
                        bytes@[j]
                    } else {
                        0
                    },
            decreases bytes.len() - i,
        {
            let byte: u8 = bytes[i];
            let shift: u64 = 8 * (i as u64);
            let next: u64 = word | ((byte as u64) << shift);
            proof {
                assert forall|j: int| 0 <= j < 8 implies #[trigger] byte_at(next, j) == if j < i + 1 {
                    bytes@[j]
                } else {
                    0
                } by {
                    let s: u64 = (8 * j) as u64;
                    let a: u64 = i as u64;
                    let b: u64 = j as u64;
                    assert(byte_at(word, i as int) == 0);
                    if j == i {
                        assert((((word | ((byte as u64) << shift)) >> shift) & 0xff) as u8 == byte)
                            by (bit_vector)
                            requires
                                ((word >> shift) & 0xff) as u8 == 0,
                                shift <= 56,
                        ;
                    } else {
                        assert((((word | ((byte as u64) << shift)) >> s) & 0xff) as u8 == ((word
                            >> s) & 0xff) as u8) by (bit_vector)
                            requires
                                a < 8,
                                b < 8,
                                a != b,
                                shift == 8 * a,
                                s == 8 * b,
                        ;
                        assert(byte_at(word, j) == ((word >> s) & 0xff) as u8);
                    }
                }
            }
            word = next;
            i += 1;
        }
        assert(bytes_of(word) =~= padded(bytes@, 0));
        word
    }

    /// Whether any byte of a word is [`PAD`].
    ///
    /// Exclusive or maps the padding byte to zero, and subtracting one from each byte borrows into
    /// the top bit of a zero byte.
    pub fn contains_pad(word: u64) -> (r: bool)
        ensures
            r == bytes_of(word).contains(PAD),
    {
        let x: u64 = word ^ PAD_WORD;
        let y: u64 = x.wrapping_sub(SWAR_LO);
        let r: bool = y & !x & SWAR_HI != 0;
        proof {
            assert(x >= SWAR_LO ==> y == x - SWAR_LO);
            assert(x < SWAR_LO ==> y == x + 0xFEFE_FEFE_FEFE_FEFF);
            assert((y & !x & 0x8080_8080_8080_8080 != 0) == (((word >> 0u64) & 0xff) as u8 == 0xF5
                || ((word >> 8u64) & 0xff) as u8 == 0xF5 || ((word >> 16u64) & 0xff) as u8 == 0xF5
                || ((word >> 24u64) & 0xff) as u8 == 0xF5 || ((word >> 32u64) & 0xff) as u8 == 0xF5
                || ((word >> 40u64) & 0xff) as u8 == 0xF5 || ((word >> 48u64) & 0xff) as u8 == 0xF5
                || ((word >> 56u64) & 0xff) as u8 == 0xF5)) by (bit_vector)
                requires
                    x == word ^ 0xF5F5_F5F5_F5F5_F5F5,
                    x >= 0x0101_0101_0101_0101 ==> y == x - 0x0101_0101_0101_0101,
                    x < 0x0101_0101_0101_0101 ==> y == x + 0xFEFE_FEFE_FEFE_FEFF,
            ;
            let s = bytes_of(word);
            lemma_each_byte(word);
            if s.contains(PAD) {
                let i = choose|i: int| 0 <= i < s.len() && s[i] == PAD;
                assert(i == 0 || i == 1 || i == 2 || i == 3 || i == 4 || i == 5 || i == 6 || i == 7);
            }
        }
        r
    }

    /// Packs a key, padding it with [`PAD`] so that its length need not be part of the word.
    /// `None` when the key itself holds the padding byte.
    pub fn padded_word(bytes: &[u8]) -> (r: Option<u64>)
        requires
            bytes@.len() <= INLINE_MAX,
        ensures
            r is None <==> bytes@.contains(PAD),
            r matches Some(word) ==> bytes_of(word) == padded(bytes@, PAD),
    {
        let word: u64 = TokenIndex::inline_word(bytes);
        proof {
            let s = padded(bytes@, 0);
            if bytes@.contains(PAD) {
                let i = choose|i: int| 0 <= i < bytes@.len() && bytes@[i] == PAD;
                assert(s[i] == PAD);
            }
            if s.contains(PAD) {
                let i = choose|i: int| 0 <= i < s.len() && s[i] == PAD;
                assert(bytes@[i] == PAD);
            }
        }
        if TokenIndex::contains_pad(word) {
            return None;
        }
        let mask: u64 = if bytes.len() == INLINE_MAX {
            0
        } else {
            (!0u64) << (8 * (bytes.len() as u64))
        };
        let r: u64 = word | (PAD_WORD & mask);
        proof {
            let n: u64 = bytes.len() as u64;
            let t: u64 = (8 * n) as u64;
            let s = padded(bytes@, PAD);
            assert forall|j: int| 0 <= j < 8 implies bytes_of(r)[j] == s[j] by {
                let k: u64 = j as u64;
                let e: u64 = (8 * j) as u64;
                assert(bytes_of(word)[j] == padded(bytes@, 0)[j]);
                if n == 8 {
                    assert(word | (0xF5F5_F5F5_F5F5_F5F5u64 & 0u64) == word) by (bit_vector);
                } else if j < n {
                    assert((((word | (0xF5F5_F5F5_F5F5_F5F5 & ((!0u64) << t))) >> e) & 0xff) as u8
                        == ((word >> e) & 0xff) as u8) by (bit_vector)
                        requires
                            n < 8,
                            k < n,
                            t == 8 * n,
                            e == 8 * k,
                    ;
                } else {
                    assert((((word | (0xF5F5_F5F5_F5F5_F5F5 & ((!0u64) << t))) >> e) & 0xff) as u8
                        == 0xF5) by (bit_vector)
                        requires
                            n < 8,
                            n <= k < 8,
                            t == 8 * n,
                            e == 8 * k,
                            ((word >> e) & 0xff) as u8 == 0,
                    ;
                }
            }
            assert(bytes_of(r) =~= s);
        }
        Some(r)
    }

    /// Places one byte string in the map that matches its length, unless it cannot be stored.
    fn insert_bytes(&mut self, bytes: &[u8], id: u32)
        requires
            bytes@.len() <= old(self).max_len,
        ensures
            final(self).max_len == old(self).max_len,
            final(self)@ == if representable(bytes@) {
                old(self)@.insert(bytes@, id)
            } else {
                old(self)@
            },
    {
        if bytes.len() <= INLINE_MAX {
            if let Some(word) = TokenIndex::padded_word(bytes) {
                let _previous: Option<u32> = self.short.insert(word, id);
                proof {
                    lemma_word_of(word, padded(bytes@, PAD));
                    assert forall|key: Seq<u8>| key != bytes@ implies self.lookup(key) == old(
                        self,
                    ).lookup(key) by {
                        if key.len() <= INLINE_MAX && representable(key) {
                            lemma_padded_word(key);
                            if word_of(padded(key, PAD)) == word {
                                law_packing_injective(key, bytes@);
                            }
                        }
                    }
                    assert(self.lookup(bytes@) == Some(id));
                    assert(self@ =~= old(self)@.insert(bytes@, id));
                }
            }
        } else {
            let _previous: Option<u32> = self.long.insert(copy_bytes(bytes), id);
            proof {
                assert forall|key: Seq<u8>| key != bytes@ implies self.lookup(key) == old(
                    self,
                ).lookup(key) by {}
                assert(self.lookup(bytes@) == Some(id));
                assert(self@ =~= old(self)@.insert(bytes@, id));
            }
        }
    }

    /// Returns what `piece` maps to, if anything.
    pub fn get(&self, piece: &[u8]) -> (r: Option<u32>)
        ensures
            r == if self@.contains_key(piece@) {
                Some(self@[piece@])
            } else {
                None
            },
    {
        if piece.len() > self.max_len as usize {
            return None;
        }
        if piece.len() <= INLINE_MAX {
            match TokenIndex::padded_word(piece) {
                None => None,
                Some(word) => {
                    proof {
                        lemma_word_of(word, padded(piece@, PAD));
                    }
                    self.short.get(word)
                },
            }
        } else {
            self.long.get(piece)
        }
    }
}

/// Every string of eight bytes is the bytes of some word.
proof fn lemma_padded_word(key: Seq<u8>)
    requires
        key.len() <= INLINE_MAX,
    ensures
        bytes_of(word_of(padded(key, PAD))) == padded(key, PAD),
{
    let s = padded(key, PAD);
    let b0 = s[0];
    let b1 = s[1];
    let b2 = s[2];
    let b3 = s[3];
    let b4 = s[4];
    let b5 = s[5];
    let b6 = s[6];
    let b7 = s[7];
    let w: u64 = (b0 as u64) | ((b1 as u64) << 8u64) | ((b2 as u64) << 16u64) | ((b3 as u64)
        << 24u64) | ((b4 as u64) << 32u64) | ((b5 as u64) << 40u64) | ((b6 as u64) << 48u64) | ((
    b7 as u64) << 56u64);
    assert(((w >> 0u64) & 0xff) as u8 == b0 && ((w >> 8u64) & 0xff) as u8 == b1 && ((w >> 16u64)
        & 0xff) as u8 == b2 && ((w >> 24u64) & 0xff) as u8 == b3 && ((w >> 32u64) & 0xff) as u8
        == b4 && ((w >> 40u64) & 0xff) as u8 == b5 && ((w >> 48u64) & 0xff) as u8 == b6 && ((w
        >> 56u64) & 0xff) as u8 == b7) by (bit_vector)
        requires
            w == (b0 as u64) | ((b1 as u64) << 8u64) | ((b2 as u64) << 16u64) | ((b3 as u64)
                << 24u64) | ((b4 as u64) << 32u64) | ((b5 as u64) << 40u64) | ((b6 as u64) << 48u64)
                | ((b7 as u64) << 56u64),
    ;
    lemma_each_byte(w);
    assert forall|i: int| 0 <= i < 8 implies bytes_of(w)[i] == s[i] by {
        assert(i == 0 || i == 1 || i == 2 || i == 3 || i == 4 || i == 5 || i == 6 || i == 7);
    }
    assert(bytes_of(w) =~= s);
}

impl TokenIndex {
    /// Places one canonical token.
    fn insert(&mut self, table: &TokenTableBuilder, id: u32)
        requires
            table.wf(),
            id < lexicon::canon(table.vocab@).len(),
            lexicon::token(table.vocab@, id as int).len() <= old(self).max_len,
        ensures
            final(self).max_len == old(self).max_len,
            ({
                let t = lexicon::token(table.vocab@, id as int);
                final(self)@ == if representable(t) {
                    old(self)@.insert(t, lexicon::rank_map(table.vocab@)[t])
                } else {
                    old(self)@
                }
            }),
    {
        let bytes: &[u8] = table.token_bytes(id);
        proof {
            assert(table.holds_token(id as int));
            lexicon::lemma_accepted(table.vocab@);
            lexicon::lemma_canon(table.vocab@);
        }
        let rank: u32 = table.rank[usize::from_u32(id)];
        self.insert_bytes(bytes, rank);
    }

    /// Builds the index of every canonical token, plus the special tokens, so that a chunk which is
    /// a special token is found too.
    pub fn build(table: &TokenTableBuilder, specials: &[(Vec<u8>, u32)]) -> (r: Self)
        requires
            table.wf(),
            forall|i: int| 0 <= i < specials@.len() ==> (#[trigger] specials@[i]).0@.len() <= u16::MAX,
        ensures
            r@ == index_map(table.vocab@, special_views(specials@)),
    {
        let ghost tokens = table.vocab@;
        let ghost ranks = lexicon::rank_map(tokens);
        let k: usize = table.len();
        let mut max_len: u16 = 0;
        let mut i: usize = 0;
        while i < k
            invariant
                table.wf(),
                tokens == table.vocab@,
                k == lexicon::canon(tokens).len(),
                i <= k,
                forall|j: int| 0 <= j < i ==> #[trigger] lexicon::token(tokens, j).len() <= max_len,
            decreases k - i,
        {
            assert(table.holds_token(i as int));
            if table.token_len[i] > max_len {
                max_len = table.token_len[i];
            }
            i += 1;
        }
        i = 0;
        while i < specials.len()
            invariant
                k == lexicon::canon(tokens).len(),
                i <= specials@.len(),
                forall|j: int|
                    0 <= j < specials@.len() ==> (#[trigger] specials@[j]).0@.len() <= u16::MAX,
                forall|j: int| 0 <= j < k ==> #[trigger] lexicon::token(tokens, j).len() <= max_len,
                forall|j: int| 0 <= j < i ==> (#[trigger] specials@[j]).0@.len() <= max_len,
            decreases specials.len() - i,
        {
            let len: u16 = specials[i].0.len() as u16;
            if len > max_len {
                max_len = len;
            }
            i += 1;
        }
        let mut index: TokenIndex = TokenIndex {
            short: WordMap::new(),
            long: BytesMap::new(),
            max_len,
        };
        proof {
            numbering::lemma_timestamp(tokens);
            lexicon::lemma_accepted(tokens);
            lexicon::lemma_canon(tokens);
            assert forall|key: Seq<u8>| !index@.contains_key(key) by {
                assert(index.lookup(key) is None);
            }
        }
        let mut id: u32 = 0;
        while (id as usize) < k
            invariant
                table.wf(),
                tokens == table.vocab@,
                ranks == lexicon::rank_map(tokens),
                k == lexicon::canon(tokens).len(),
                k <= u32::MAX,
                id <= k,
                tokens.no_duplicates(),
                tokens.len() <= u32::MAX,
                index.max_len == max_len,
                forall|j: int| 0 <= j < k ==> #[trigger] lexicon::token(tokens, j).len() <= max_len,
                forall|key: Seq<u8>| #[trigger]
                    index@.contains_key(key) ==> representable(key) && merge::canonical(ranks, key)
                        && index@[key] == ranks[key],
                forall|j: int|
                    0 <= j < id && representable(#[trigger] lexicon::token(tokens, j))
                        ==> index@.contains_key(lexicon::token(tokens, j)),
            decreases k - id,
        {
            proof {
                lexicon::lemma_canon(tokens);
                assert(merge::canonical(ranks, lexicon::token(tokens, id as int)));
            }
            index.insert(table, id);
            id += 1;
        }
        let ghost views = special_views(specials@);
        proof {
            assert forall|key: Seq<u8>|
                (#[trigger] index@.contains_key(key) <==> find(tokens, views.take(0), key) is Some) && (
                index@.contains_key(key) ==> index@[key] == find(tokens, views.take(0), key)->0) by {
                assert(views.take(0).len() == 0);
                if representable(key) && merge::canonical(ranks, key) {
                    let j = lexicon::lemma_token_of(tokens, key);
                    assert(representable(lexicon::token(tokens, j)));
                }
                if index@.contains_key(key) {
                    assert(index@[key] == ranks[key]);
                }
            }
        }
        i = 0;
        while i < specials.len()
            invariant
                i <= specials@.len(),
                views == special_views(specials@),
                index.max_len == max_len,
                forall|j: int|
                    0 <= j < specials@.len() ==> (#[trigger] specials@[j]).0@.len() <= max_len,
                forall|key: Seq<u8>|
                    (#[trigger] index@.contains_key(key) <==> find(
                        tokens,
                        views.take(i as int),
                        key,
                    ) is Some) && (index@.contains_key(key) ==> index@[key] == find(
                        tokens,
                        views.take(i as int),
                        key,
                    )->0),
            decreases specials.len() - i,
        {
            let ghost before = index@;
            let special: &(Vec<u8>, u32) = &specials[i];
            index.insert_bytes(special.0.as_slice(), special.1);
            proof {
                assert(views[i as int] == (special.0@, special.1));
                assert(views.take(i + 1).drop_last() =~= views.take(i as int));
                assert forall|key: Seq<u8>|
                    (#[trigger] index@.contains_key(key) <==> find(
                        tokens,
                        views.take(i + 1),
                        key,
                    ) is Some) && (index@.contains_key(key) ==> index@[key] == find(
                        tokens,
                        views.take(i + 1),
                        key,
                    )->0) by {
                    assert(before.contains_key(key) <==> find(
                        tokens,
                        views.take(i as int),
                        key,
                    ) is Some);
                }
            }
            i += 1;
        }
        proof {
            assert(views.take(i as int) =~= views);
            assert(index@ =~= index_map(tokens, views));
        }
        index
    }
}

} // verus!
