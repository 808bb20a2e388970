//! Subword tokenization core: text normalization with exact offset tracking
//! back to the original input, and tokenization models (byte-pair encoding,
//! greedy longest-match, whole-word lookup, unigram segmentation) that turn
//! normalized words into integer-identified tokens.

pub mod chars;
pub mod edits;
pub mod replace;
pub mod normalizer;
pub mod normalized;
pub mod vocab;
pub mod wordlevel;
pub mod wordpiece;
pub mod bpe;
pub mod unigram;
pub mod model;
pub mod serial;
pub mod persist;
pub mod token;
