//! Tokens produced by the models, and the error kinds of the library.

use vstd::prelude::*;

verus! {

/// A single subword token: its vocabulary id, its text, and the half-open
/// character range it covers in the word it was produced from.
#[derive(Debug)]
pub struct Token {
    pub id: u32,
    pub value: String,
    pub offsets: (usize, usize),
}

impl Token {
    pub fn new(id: u32, value: String, start: usize, end: usize) -> (t: Token)
        ensures
            t.id == id,
            t.value == value,
            t.offsets == (start, end),
    {
        Token { id, value, offsets: (start, end) }
    }

    /// An equal copy of the token.
    pub fn duplicate(&self) -> (t: Token)
        ensures
            t == self,
    {
        Token { id: self.id, value: self.value.clone(), offsets: self.offsets }
    }
}

/// Errors of model construction and tokenization.
#[derive(Clone, Copy, Debug, PartialEq, Eq, Structural)]
pub enum ModelError {
    /// The inputs handed to a model constructor do not form a valid model
    /// (duplicate ids, a merge over symbols the vocabulary lacks, an
    /// out-of-range unknown-token index, and the like).
    Construction,
    /// Tokenization hit a symbol outside the vocabulary and no unknown
    /// token is configured.
    MissingUnkToken,
    /// A persisted model image could not be decoded.
    Serialization,
}

/// Errors of normalizer construction and application.
#[derive(Clone, Copy, Debug, PartialEq, Eq, Structural)]
pub enum NormalizerError {
    /// A replacement pattern did not compile, or was empty.
    InvalidPattern,
    /// A precompiled substitution-table image could not be decoded.
    InvalidPrecompiledMap,
    /// An outside text transform handed back an inconsistent edit stream.
    InvalidTransform,
}

} // verus!
