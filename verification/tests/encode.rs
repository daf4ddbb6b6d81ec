use daac_bpe::utils::FromU32;
use daac_bpe::{Error, IncrementalBpe, IncrementalBpeBuilder};

fn single_bytes() -> Vec<Vec<u8>> {
    (0u8..=255).map(|b| vec![b]).collect()
}

fn with_tokens(more: &[&[u8]]) -> Vec<Vec<u8>> {
    let mut vocab = single_bytes();
    vocab.extend(more.iter().map(|t| t.to_vec()));
    vocab
}

/// Standard merging, one pair at a time: the pair of the smallest rank, the leftmost of these.
fn standard(vocab: &[Vec<u8>], text: &[u8]) -> Vec<u32> {
    let rank = |b: &[u8]| vocab.iter().position(|t| t == b);
    let mut parts: Vec<Vec<u8>> = text.iter().map(|&b| vec![b]).collect();
    loop {
        let best = (1..parts.len())
            .filter_map(|i| rank(&[&parts[i - 1][..], &parts[i][..]].concat()).map(|r| (r, i - 1)))
            .min();
        match best {
            None => break,
            Some((_, i)) => {
                let right = parts.remove(i + 1);
                parts[i].extend_from_slice(&right);
            }
        }
    }
    parts
        .iter()
        .map(|p| u32::try_from(rank(p).unwrap()).unwrap())
        .collect()
}

struct Rng(u64);

impl Rng {
    fn next(&mut self) -> u64 {
        self.0 ^= self.0 << 13;
        self.0 ^= self.0 >> 7;
        self.0 ^= self.0 << 17;
        self.0
    }

    fn below(&mut self, n: usize) -> usize {
        usize::try_from(self.next() % u64::try_from(n).unwrap()).unwrap()
    }
}

/// Random merges over `alphabet`, without those that the builder rejects as not proper.
fn random_vocabulary(seed: u64, alphabet: &[u8]) -> Vec<Vec<u8>> {
    let mut rng = Rng(seed.wrapping_mul(0x9E37_79B9_7F4A_7C15) | 1);
    let mut vocab = single_bytes();
    let mut grown: Vec<Vec<u8>> = alphabet.iter().map(|&b| vec![b]).collect();
    for _ in 0..40 {
        let x = grown[rng.below(grown.len())].clone();
        let y = grown[rng.below(grown.len())].clone();
        let merged = [x, y].concat();
        if merged.len() > 12 || vocab.contains(&merged) {
            continue;
        }
        vocab.push(merged.clone());
        grown.push(merged);
    }
    loop {
        match IncrementalBpe::new(&vocab) {
            Ok(_) => return vocab,
            Err(Error::NotProper { token, .. }) => vocab.retain(|t| *t != token),
            Err(e) => panic!("{}", e.message()),
        }
    }
}

fn encode(bpe: &IncrementalBpe, text: &[u8]) -> Vec<u32> {
    let mut out = vec![];
    bpe.encode(text, &mut out);
    out
}

#[test]
fn a_small_vocabulary_is_merged() {
    let bpe = IncrementalBpe::new(&with_tokens(&[b"ab", b"abc"])).unwrap();
    assert_eq!(encode(&bpe, b"abcab"), [257, 256]);
    assert_eq!(encode(&bpe, b"abc"), [257]);
    assert_eq!(encode(&bpe, b""), []);
    assert_eq!(encode(&bpe, b"cba"), [99, 98, 97]);
}

#[test]
fn single_bytes_are_tokens() {
    let bpe = IncrementalBpe::new(&single_bytes()).unwrap();
    assert_eq!(encode(&bpe, b"hi"), [u32::from(b'h'), u32::from(b'i')]);
    // Not in the index, because it is the padding byte.
    assert_eq!(encode(&bpe, &[0xF5]), [0xF5]);
}

#[test]
fn tokens_are_appended() {
    let bpe = IncrementalBpe::new(&single_bytes()).unwrap();
    let mut out = vec![7, 8];
    bpe.encode(b"hi", &mut out);
    bpe.encode(b"!", &mut out);
    assert_eq!(
        out,
        [7, 8, u32::from(b'h'), u32::from(b'i'), u32::from(b'!')]
    );
}

#[test]
fn encoding_is_standard_merging() {
    for seed in 1..=6 {
        let alphabet = [b'a', b'b', 0xF5];
        let vocab = random_vocabulary(seed, &alphabet);
        let bpe = IncrementalBpe::new(&vocab).unwrap();
        let mut rng = Rng(seed + 77);
        for _ in 0..60 {
            let n = rng.below(60);
            let text: Vec<u8> = (0..n).map(|_| alphabet[rng.below(3)]).collect();
            assert_eq!(encode(&bpe, &text), standard(&vocab, &text));
        }
    }
}

/// The leftmost of equal pairs is merged first, and ranks decide before positions.
#[test]
fn ties_are_broken_from_the_left() {
    let vocab = with_tokens(&[b"aa", b"bc", b"ab"]);
    let bpe = IncrementalBpe::new(&vocab).unwrap();
    assert_eq!(encode(&bpe, b"aaa"), [256, 97]);
    assert_eq!(encode(&bpe, b"abc"), [97, 257]);
    assert_eq!(encode(&bpe, b"aab"), standard(&vocab, b"aab"));
}

/// An entry that standard merging never makes of its own bytes is dropped.
#[test]
fn unreachable_entries_change_nothing() {
    let with = with_tokens(&[b"ab", b"xyz", b"abab"]);
    let bpe = IncrementalBpe::new(&with).unwrap();
    assert_eq!(encode(&bpe, b"xyz"), [120, 121, 122]);
    assert_eq!(encode(&bpe, b"ababab"), [258, 256]);
    let without = with_tokens(&[b"ab", b"abab"]);
    let other = IncrementalBpe::new(&without).unwrap();
    assert_eq!(encode(&other, b"ababab"), [257, 256]);
}

/// The bytes of the tokens, one after the other, are the text.
#[test]
fn the_tokens_spell_the_text() {
    let vocab = random_vocabulary(3, b"abc");
    let specials = vec![(b"<s>".to_vec(), 5000u32)];
    let bpe = IncrementalBpeBuilder::new()
        .special_tokens(&specials)
        .build(&vocab)
        .unwrap();
    let text = b"abcabca<s>bbcac<s><s>acbab";
    let mut spelled = vec![];
    for id in encode(&bpe, text) {
        if id == 5000 {
            spelled.extend_from_slice(b"<s>");
        } else {
            spelled.extend_from_slice(&vocab[usize::from_u32(id)]);
        }
    }
    assert_eq!(spelled, text);
}

#[test]
fn a_special_token_divides_the_text() {
    let specials = vec![(b"<|endoftext|>".to_vec(), 256u32)];
    let bpe = IncrementalBpeBuilder::new()
        .special_tokens(&specials)
        .build(&single_bytes())
        .unwrap();
    assert_eq!(
        encode(&bpe, b"a<|endoftext|>b"),
        [u32::from(b'a'), 256, u32::from(b'b')]
    );
    assert_eq!(encode(&bpe, b"<|endoftext|>"), [256]);
    assert_eq!(encode(&bpe, b"<|endoftext|><|endoftext|>"), [256, 256]);
    assert_eq!(encode(&bpe, b"<|endoftext|>x"), [256, u32::from(b'x')]);
    assert_eq!(encode(&bpe, b"x<|endoftext|>"), [u32::from(b'x'), 256]);
    assert_eq!(encode(&bpe, b"<|end"), [60, 124, 101, 110, 100]);
}

/// No token spans the boundary of a special token, though merging alone would make one.
#[test]
fn no_token_spans_a_special_boundary() {
    let vocab = with_tokens(&[b"ab", b"b#", b"ab#"]);
    let specials = vec![(b"#!".to_vec(), 300u32)];
    let bpe = IncrementalBpeBuilder::new()
        .special_tokens(&specials)
        .build(&vocab)
        .unwrap();
    assert_eq!(encode(&bpe, b"ab#"), standard(&vocab, b"ab#"));
    assert_eq!(encode(&bpe, b"ab#!ab#?"), {
        let mut want = standard(&vocab, b"ab");
        want.push(300);
        want.extend(standard(&vocab, b"ab#?"));
        want
    });
}

#[test]
fn overlapping_occurrences_are_taken_from_the_left() {
    let specials = vec![(b"aba".to_vec(), 300u32)];
    let bpe = IncrementalBpeBuilder::new()
        .special_tokens(&specials)
        .build(&single_bytes())
        .unwrap();
    assert_eq!(encode(&bpe, b"ababa"), [300, 98, 97]);
    assert_eq!(encode(&bpe, b"xaababaz"), [120, 97, 300, 98, 97, 122]);
}

/// A corpus changes the layout, and no result.
#[test]
fn a_corpus_changes_no_result() {
    for seed in 1..=4 {
        let vocab = random_vocabulary(seed, b"ab");
        let plain = IncrementalBpe::new(&vocab).unwrap();
        let corpus: Vec<Vec<u8>> = vec![
            b"abababbbaabab".to_vec(),
            b"bbbbaaaabaab".to_vec(),
            vec![],
            b"a".to_vec(),
        ];
        let specials = vec![(b"zz".to_vec(), 900u32)];
        let tuned = IncrementalBpeBuilder::new()
            .corpus(&corpus)
            .special_tokens(&specials)
            .build(&vocab)
            .unwrap();
        let mut rng = Rng(seed + 5);
        for _ in 0..40 {
            let n = rng.below(50);
            let text: Vec<u8> = (0..n).map(|_| b"ab"[rng.below(2)]).collect();
            assert_eq!(encode(&tuned, &text), encode(&plain, &text));
        }
    }
}

/// A special token inside a chunk of the corpus divides that chunk, and changes no result.
#[test]
fn a_corpus_may_hold_special_tokens() {
    let vocab = with_tokens(&[b"ab", b"ba", b"aba", b"bab"]);
    let specials = vec![(b"<s>".to_vec(), 300u32), (b"#!".to_vec(), 301u32)];
    let corpus: Vec<Vec<u8>> = vec![
        b"abab<s>babab#!ab".to_vec(),
        b"<s>".to_vec(),
        b"<s><s>ab#".to_vec(),
        b"bab<s".to_vec(),
    ];
    let plain = IncrementalBpeBuilder::new()
        .special_tokens(&specials)
        .build(&vocab)
        .unwrap();
    let tuned = IncrementalBpeBuilder::new()
        .corpus(&corpus)
        .special_tokens(&specials)
        .build(&vocab)
        .unwrap();
    for text in &corpus {
        assert_eq!(encode(&tuned, text), encode(&plain, text));
    }
    assert_eq!(encode(&tuned, b"abab<s>babab#!ab"), {
        let mut want = standard(&vocab, b"abab");
        want.push(300);
        want.extend(standard(&vocab, b"babab"));
        want.push(301);
        want.extend(standard(&vocab, b"ab"));
        want
    });
    let mut rng = Rng(11);
    let parts: [&[u8]; 5] = [b"a", b"b", b"<s>", b"#!", b"<s"];
    for _ in 0..40 {
        let n = rng.below(30);
        let text: Vec<u8> = (0..n).flat_map(|_| parts[rng.below(5)].to_vec()).collect();
        assert_eq!(encode(&tuned, &text), encode(&plain, &text));
    }
}

#[test]
fn builder_setters_replace_and_default_is_empty() {
    let corpus: Vec<Vec<u8>> = vec![b"a sample".to_vec(), b" of".to_vec(), b" text".to_vec()];
    let bpe = IncrementalBpeBuilder::default()
        .special_tokens(&[(b"first".to_vec(), 256)])
        .special_tokens(&[(b"second".to_vec(), 256)])
        .corpus(&corpus)
        .build(&single_bytes())
        .unwrap();
    assert_eq!(encode(&bpe, b"second"), [256]);
    assert_eq!(encode(&bpe, b"first").len(), 5);
}

/// Long runs, where the search trees are deep.
#[test]
fn long_runs_are_merged() {
    let mut vocab = single_bytes();
    for e in 1..8 {
        vocab.push(vec![b'a'; 1 << e]);
    }
    let bpe = IncrementalBpe::new(&vocab).unwrap();
    for n in [1usize, 2, 3, 5, 127, 128, 129, 300] {
        let text = vec![b'a'; n];
        assert_eq!(encode(&bpe, &text), standard(&vocab, &text));
    }
    assert_eq!(usize::from_u32(7), 7usize);
}
