# daac-bpe

A BPE tokenizer that operates in linear time relative to the input length, verified with Verus.

It follows Shenghu Jiang and Ruihao Gong, *Incremental BPE Tokenization*, ICML 2026,
<https://arxiv.org/abs/2605.30813>.

```rust
use daac_bpe::IncrementalBpe;

let mut vocab: Vec<Vec<u8>> = (0u8..=255).map(|b| vec![b]).collect();
vocab.push(b"ab".to_vec()); // rank 256
vocab.push(b"abc".to_vec()); // rank 257

let bpe = IncrementalBpe::new(&vocab)?;

// Tokens are appended, so one buffer can be reused across chunks.
let mut tokens = vec![];
bpe.encode(b"abcab", &mut tokens);
assert_eq!(tokens, [257, 256]);
```

## What is proved

`merge` defines standard merging: the pair of the smallest rank is merged first, the leftmost of
equal pairs first. `encoding::encoded` says what a chunk is encoded as, special tokens included, and
`IncrementalBpe::encode` is proved to append exactly that. `lexicon::vocab_error`,
`specials::specials_error` and `builder::build_error` say which inputs are rejected, and with which
error. What holds of several parts together is in `laws`, and in the functions named `law_*` of the
other modules.

| module | content |
|---|---|
| `merge`, `successor` | standard merging, and when a token is the last one of a text |
| `lexicon`, `canonical`, `numbering`, `forest`, `vocab` | the canonical tokens and their timestamps |
| `suffixes`, `component`, `listing`, `centroid`, `sufsuc`, `search` | the centroid search trees and the descent |
| `index` | the lookup of whole chunks |
| `encoding`, `specials`, `bpe`, `builder` | the tokenizer and its construction |
| `automaton`, `maps`, `utils`, `error` | the Aho-Corasick automata, hash maps, sorting, errors |

What is taken on trust is stated in `automaton` (of `daachorse`), `maps` (of `hashbrown`), and by
`utils::sort_pairs` and `error` (of the standard library).

`app/` offers the tokenizer behind generic signatures.
