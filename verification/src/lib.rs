//! A BPE tokenizer that operates in linear time relative to the input length.
//!
//! A vocabulary is an ordered list of token byte strings, and a token's rank is its position in the
//! list. All 256 single-byte tokens must be present; the merge rules follow in priority order.
//! [`bpe::IncrementalBpe::encode`] appends exactly the tokens that standard merging makes of a
//! chunk, and [`encoding::encoded`] is the statement of what these are.
//!
//! The method is that of Shenghu Jiang and Ruihao Gong, *Incremental BPE Tokenization*, ICML 2026,
//! <https://arxiv.org/abs/2605.30813>.

pub mod acceptance;
pub mod automaton;
pub mod bpe;
pub mod builder;
pub mod canonical;
pub mod centroid;
pub mod component;
pub mod encoding;
pub mod entry;
pub mod error;
pub mod forest;
pub mod index;
pub mod laws;
pub mod lexicon;
pub mod listing;
pub mod maps;
pub mod merge;
pub mod numbering;
pub mod promises;
pub mod search;
pub mod specials;
pub mod successor;
pub mod suffixes;
pub mod sufsuc;
pub mod utils;
pub mod vocab;

pub use crate::bpe::IncrementalBpe;
pub use crate::builder::IncrementalBpeBuilder;
pub use crate::error::{Error, Result};
