use daac_bpe::{Error, IncrementalBpe, IncrementalBpeBuilder};

fn single_bytes() -> Vec<Vec<u8>> {
    (0u8..=255).map(|b| vec![b]).collect()
}

fn rejected(vocab: &[Vec<u8>]) -> Error {
    match IncrementalBpe::new(vocab) {
        Ok(_) => panic!("accepted"),
        Err(e) => e,
    }
}

fn rejected_with(specials: &[(Vec<u8>, u32)], vocab: &[Vec<u8>]) -> Error {
    match IncrementalBpeBuilder::new().special_tokens(specials).build(vocab) {
        Ok(_) => panic!("accepted"),
        Err(e) => e,
    }
}

#[test]
fn an_empty_token_is_rejected() {
    let mut vocab = single_bytes();
    vocab.push(vec![]);
    let e = rejected(&vocab);
    assert!(matches!(e, Error::EmptyToken));
    assert_eq!(e.message(), "An empty token or special token is present");
}

#[test]
fn a_repeated_token_is_rejected() {
    let mut vocab = single_bytes();
    vocab.push(b"ab".to_vec());
    vocab.push(b"cd".to_vec());
    vocab.push(b"ab".to_vec());
    vocab.push(vec![]);
    let e = rejected(&vocab);
    assert!(matches!(
        &e,
        Error::DuplicateToken { token, first: 256, second: 258 } if token == b"ab"
    ));
    assert_eq!(
        e.message(),
        "The token \"ab\" appears twice, at positions 256 and 258"
    );
}

#[test]
fn a_missing_byte_is_rejected() {
    let vocab: Vec<Vec<u8>> = (0u8..=255).filter(|&b| b != 0x0a && b != 0x9b).map(|b| vec![b]).collect();
    let e = rejected(&vocab);
    assert!(matches!(e, Error::MissingByteToken(0x0a)));
    assert_eq!(e.message(), "The single-byte token 0x0a is missing");
    assert!(matches!(rejected(&[]), Error::MissingByteToken(0)));
}

#[test]
fn an_improper_vocabulary_is_rejected() {
    let mut vocab = single_bytes();
    vocab.push(b"ab".to_vec());
    vocab.push(b"abcd".to_vec());
    vocab.push(b"cd".to_vec());
    let e = rejected(&vocab);
    assert!(matches!(
        &e,
        Error::NotProper { token, rank: 257, pre, pre_rank: 256, suc, suc_rank: 258 }
            if token == b"abcd" && pre == b"ab" && suc == b"cd"
    ));
    assert_eq!(
        e.message(),
        "vocabulary is not proper: the canonical rule (\"ab\" [rank 256], \"cd\" [rank 258]) -> \
         \"abcd\" [rank 257] has a component whose rank is not smaller than the merged token's rank"
    );
}

#[test]
fn a_token_that_is_too_long_is_rejected() {
    let mut vocab = single_bytes();
    for e in 1..=16 {
        vocab.push(vec![b'a'; 1 << e]);
    }
    let e = rejected(&vocab);
    assert!(matches!(&e, Error::TokenTooLong { token, len: 65536 } if *token == vec![b'a'; 32]));
    assert_eq!(
        e.message(),
        "the token starting with \"aaaaaaaaaaaaaaaaaaaaaaaaaaaaaaaa\" is 65536 bytes long; the limit \
         is 65535"
    );
}

#[test]
fn too_large_a_vocabulary_has_a_message() {
    let e = Error::VocabTooLarge {
        what: "tokens",
        len: 4_294_967_296,
    };
    assert_eq!(
        e.message(),
        "the vocabulary is too large: 4294967296 tokens do not fit in a u32 index"
    );
}

#[test]
fn empty_and_long_special_tokens_are_rejected() {
    let vocab = single_bytes();
    assert!(matches!(
        rejected_with(&[(vec![], 300)], &vocab),
        Error::EmptyToken
    ));
    let long = vec![(vec![b'x'; 70_000], 300u32)];
    assert!(matches!(
        rejected_with(&long, &vocab),
        Error::TokenTooLong { token, len: 70_000 } if token.len() == 32
    ));
}

#[test]
fn taken_special_ids_are_rejected() {
    let vocab = single_bytes();
    let e = rejected_with(&[(b"<s>".to_vec(), 255)], &vocab);
    assert!(matches!(&e, Error::SpecialIdConflict { token, id: 255 } if token == b"<s>"));
    assert_eq!(
        e.message(),
        "the special token \"<s>\" has id 255, which is already taken by the vocabulary's rank space \
         or by another special token"
    );
    let e = rejected_with(&[(b"<s>".to_vec(), 300), (b"</s>".to_vec(), 300)], &vocab);
    assert!(matches!(e, Error::SpecialIdConflict { token, id: 300 } if token == b"</s>"));
}

#[test]
fn repeated_special_tokens_are_rejected() {
    let vocab = single_bytes();
    let e = rejected_with(
        &[(b"<a>".to_vec(), 300), (b"<b>".to_vec(), 301), (b"<a>".to_vec(), 302)],
        &vocab,
    );
    assert!(matches!(
        e,
        Error::DuplicateToken { token, first: 0, second: 2 } if token == b"<a>"
    ));
}

#[test]
fn special_tokens_inside_others_are_rejected() {
    let mut vocab = single_bytes();
    // A special token that equals a token.
    let e = rejected_with(&[(b"x".to_vec(), 300)], &vocab);
    assert!(matches!(
        &e,
        Error::SpecialTokenNotIsolated { special, container } if special == b"x" && container == b"x"
    ));
    // One inside a token.
    vocab.push(b"ab".to_vec());
    vocab.push(b"abc".to_vec());
    let e = rejected_with(&[(b"bc".to_vec(), 300)], &vocab);
    assert!(matches!(
        &e,
        Error::SpecialTokenNotIsolated { special, container }
            if special == b"bc" && container == b"abc"
    ));
    assert_eq!(
        e.message(),
        "the special token \"bc\" occurs inside \"abc\", so it cannot be detected reliably; no \
         vocabulary token and no other special token may contain a special token"
    );
    // One inside another special token.
    let e = rejected_with(&[(b"<|pad|>".to_vec(), 300), (b"pad".to_vec(), 301)], &vocab);
    assert!(matches!(
        e,
        Error::SpecialTokenNotIsolated { special, container }
            if special == b"pad" && container == b"<|pad|>"
    ));
}

/// A special token inside an entry that is dropped is accepted.
#[test]
fn special_tokens_inside_dropped_entries_are_accepted() {
    let mut vocab = single_bytes();
    vocab.push(b"a<s>".to_vec());
    let bpe = IncrementalBpeBuilder::new()
        .special_tokens(&[(b"<s>".to_vec(), 300)])
        .build(&vocab)
        .unwrap();
    let mut out = vec![];
    bpe.encode(b"a<s>", &mut out);
    assert_eq!(out, [97, 300]);
}

#[test]
fn byte_strings_are_quoted_or_dumped() {
    let shown = |token: &[u8]| {
        Error::DuplicateToken {
            token: token.to_vec(),
            first: 0,
            second: 10,
        }
        .message()
    };
    assert_eq!(
        shown(b"a \"b\" \\ '~"),
        "The token \"a \\\"b\\\" \\\\ '~\" appears twice, at positions 0 and 10"
    );
    assert_eq!(
        shown(b"a\n\xf5"),
        "The token 0x610af5 appears twice, at positions 0 and 10"
    );
    assert_eq!(
        shown(b"\x7f"),
        "The token 0x7f appears twice, at positions 0 and 10"
    );
    assert_eq!(
        shown(b""),
        "The token \"\" appears twice, at positions 0 and 10"
    );
}

#[test]
fn an_automaton_failure_has_a_message() {
    assert_eq!(
        Error::Automaton("too many".to_string()).message(),
        "failed to build the Aho-Corasick automaton: too many"
    );
}
