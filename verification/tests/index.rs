use daac_bpe::index::{TokenIndex, INLINE_MAX, PAD};
use daac_bpe::vocab::TokenTableBuilder;

/// All 256 single-byte tokens, which every vocabulary must contain.
fn single_bytes() -> Vec<Vec<u8>> {
    (0u8..=255).map(|b| vec![b]).collect()
}

/// A deterministic vocabulary whose merges grow by doubling, so that it holds a key on each side of
/// the `INLINE_MAX` boundary.
fn doubling_vocabulary() -> Vec<Vec<u8>> {
    let mut vocab = single_bytes();
    vocab.push(b"ab".to_vec());
    vocab.push(b"abab".to_vec());
    vocab.push(b"abababab".to_vec());
    vocab.push(b"ababababab".to_vec());
    vocab
}

/// A vocabulary holding both `[0x00]` and `[0x00, 0x00]`, the pair that zero padding alone would map
/// to the same word.
fn zero_pair_vocabulary() -> Vec<Vec<u8>> {
    let mut vocab = single_bytes();
    vocab.push(vec![0x00, 0x00]);
    vocab
}

fn index_of(vocab: &[Vec<u8>]) -> TokenIndex {
    let table = TokenTableBuilder::new(vocab).unwrap();
    TokenIndex::build(&table, &[])
}

fn assert_all_hold_pad(probes: &[Vec<u8>]) {
    for probe in probes {
        assert!(TokenIndex::contains_pad(TokenIndex::inline_word(probe)));
        assert_eq!(TokenIndex::padded_word(probe), None);
    }
}

fn assert_none_hold_pad(probes: &[Vec<u8>]) {
    for probe in probes {
        assert!(!TokenIndex::contains_pad(TokenIndex::inline_word(probe)));
        assert!(TokenIndex::padded_word(probe).is_some());
    }
}

/// Exercises `TokenIndex::get` over every path, namely a short hit, a hit exactly at the
/// `INLINE_MAX` boundary, a long hit, a short miss, a chunk past `max_len`, and the deliberate miss
/// on a key containing `PAD`.
#[test]
fn token_index_get_covers_every_path() {
    let index = index_of(&doubling_vocabulary());

    assert_eq!(index.get(b"a"), Some(u32::from(b'a')));
    assert_eq!(index.get(b"ab"), Some(256));
    // Exactly `INLINE_MAX` bytes, so the packing mask is empty.
    assert_eq!(index.get(b"abababab"), Some(258));
    // Longer than `INLINE_MAX`, so it lives in the owned-key map.
    assert_eq!(index.get(b"ababababab"), Some(259));

    assert_eq!(index.get(b"ba"), None);
    assert_eq!(index.get(b"ababab"), None);
    // `max_len` is 10 here, so anything longer is rejected before hashing.
    assert_eq!(index.get(b"abababababab"), None);

    // `[PAD]` is a token, but it is not representable, so the index misses it on purpose and the
    // caller falls back to the incremental search.
    assert_eq!(index.get(&[PAD]), None);
}

/// The padding is what makes the packing injective. Zero padding alone maps `[0x00]` and
/// `[0x00, 0x00]` to the same word, and both are in every real vocabulary.
#[test]
fn token_index_distinguishes_keys_that_zero_padding_would_merge() {
    let index = index_of(&zero_pair_vocabulary());

    assert_eq!(index.get(&[0x00]), Some(0));
    assert_eq!(index.get(&[0x00, 0x00]), Some(256));
}

/// `TokenIndex::contains_pad` must see `PAD` anywhere in the real bytes and must never fire on the
/// zero padding.
#[test]
fn contains_pad_finds_the_padding_byte_only_in_real_bytes() {
    assert_all_hold_pad(&[
        vec![PAD],
        vec![PAD, b'a'],
        vec![b'a', PAD],
        vec![b'a', b'b', b'c', b'd', b'e', b'f', b'g', PAD],
        vec![0x00, PAD],
    ]);
    assert_none_hold_pad(&[
        vec![b'a'],
        vec![0x00],
        vec![0x00, 0x00],
        vec![0xF4],
        vec![0xF6],
        vec![b'a'; INLINE_MAX],
    ]);
}

#[test]
fn packed_words_have_the_expected_bytes() {
    assert_eq!(TokenIndex::inline_word(b""), 0);
    assert_eq!(TokenIndex::inline_word(b"ab"), 0x6261);
    assert_eq!(TokenIndex::inline_word(b"abcdefgh"), 0x6867_6665_6463_6261);
    assert_eq!(TokenIndex::padded_word(b""), Some(0xF5F5_F5F5_F5F5_F5F5));
    assert_eq!(TokenIndex::padded_word(b"ab"), Some(0xF5F5_F5F5_F5F5_6261));
    assert_eq!(
        TokenIndex::padded_word(b"abcdefgh"),
        Some(0x6867_6665_6463_6261)
    );
}

/// Distinct storable keys have distinct packed forms.
#[test]
fn packing_is_injective_on_short_keys() {
    let alphabet = [0u8, 1, 0xF4, 0xF6, 0xFF];
    let mut keys: Vec<Vec<u8>> = vec![vec![]];
    let mut grown: Vec<Vec<u8>> = vec![vec![]];
    for _ in 0..3 {
        let mut next = vec![];
        for key in &grown {
            for &b in &alphabet {
                let mut longer = key.clone();
                longer.push(b);
                next.push(longer);
            }
        }
        keys.extend(next.iter().cloned());
        grown = next;
    }
    let mut words: Vec<u64> = keys
        .iter()
        .map(|key| TokenIndex::padded_word(key).unwrap())
        .collect();
    words.sort_unstable();
    let n = words.len();
    words.dedup();
    assert_eq!(words.len(), n);
}

/// Special tokens are found with their ids, also those longer than any token of the vocabulary.
#[test]
fn the_index_holds_the_special_tokens() {
    let table = TokenTableBuilder::new(&single_bytes()).unwrap();
    let specials = vec![
        (b"<|x|>".to_vec(), 300u32),
        (b"<|a longer special|>".to_vec(), 400u32),
    ];
    let index = TokenIndex::build(&table, &specials);
    assert_eq!(index.get(b"<|x|>"), Some(300));
    assert_eq!(index.get(b"<|a longer special|>"), Some(400));
    assert_eq!(index.get(b"<"), Some(u32::from(b'<')));
    assert_eq!(index.get(b"<|y|>"), None);
    assert_eq!(index.get(b""), None);
}
