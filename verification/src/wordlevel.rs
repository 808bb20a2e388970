//! Whole-word lookup model: a word is its own token, unknown words fall
//! back to the configured unknown token.

use vstd::prelude::*;
use crate::vocab::Vocab;
use crate::token::{Token, ModelError};

verus! {

/// Exact whole-word vocabulary lookup.
#[derive(Debug)]
pub struct WordLevel {
    pub vocab: Vocab,
    pub unk_token: String,
}

impl WordLevel {
    pub open spec fn wf(self) -> bool {
        self.vocab.wf()
    }

    /// Builds the model; the vocabulary pairs must be free of duplicates.
    pub fn new(entries: Vec<(String, u32)>, unk_token: String) -> (r: Result<WordLevel, ModelError>)
        ensures
            match r {
                Ok(m) => m.wf() && m.vocab.entries@ == entries@ && m.unk_token == unk_token,
                Err(e) => e == ModelError::Construction
                    && !crate::vocab::spec_entries_distinct(entries@),
            },
    {
        let vocab = Vocab::new_checked(entries)?;
        Ok(WordLevel { vocab, unk_token })
    }

    /// One token per word: the word itself when it is in the vocabulary,
    /// the unknown token otherwise, and an error when neither exists.
    pub fn tokenize(&self, word: &String) -> (r: Result<Vec<Token>, ModelError>)
        requires
            self.wf(),
        ensures
            match r {
                Ok(ts) => ts@.len() == 1 && ts@[0].offsets == (0usize, word@.len() as usize)
                    && (match self.vocab.spec_token_to_id(word@) {
                        Some(id) => ts@[0].id == id && ts@[0].value@ == word@,
                        None => self.vocab.spec_token_to_id(self.unk_token@) == Some(ts@[0].id)
                            && ts@[0].value@ == self.unk_token@,
                    }),
                Err(e) => e == ModelError::MissingUnkToken
                    && self.vocab.spec_token_to_id(word@) is None
                    && self.vocab.spec_token_to_id(self.unk_token@) is None,
            },
    {
        let n = word_char_len(word);
        match self.vocab.token_to_id(word) {
            Some(id) => Ok(make_single(id, word.clone(), n)),
            None => match self.vocab.token_to_id(&self.unk_token) {
                Some(uid) => Ok(make_single(uid, self.unk_token.clone(), n)),
                None => Err(ModelError::MissingUnkToken),
            },
        }
    }

    pub fn token_to_id(&self, token: &String) -> (r: Option<u32>)
        ensures
            r == self.vocab.spec_token_to_id(token@),
    {
        self.vocab.token_to_id(token)
    }

    pub fn id_to_token(&self, id: u32) -> (r: Option<String>)
        ensures
            match r {
                Some(s) => self.vocab.spec_id_to_token(id) == Some(s@),
                None => self.vocab.spec_id_to_token(id) is None,
            },
    {
        self.vocab.id_to_token(id)
    }
}

/// Character count of a string.
pub fn word_char_len(word: &String) -> (n: usize)
    ensures
        n == word@.len(),
{
    word.as_str().unicode_len()
}

/// A one-token result covering the whole word.
fn make_single(id: u32, value: String, len: usize) -> (r: Vec<Token>)
    ensures
        r@.len() == 1,
        r@[0].id == id,
        r@[0].value == value,
        r@[0].offsets == (0usize, len),
{
    let mut v: Vec<Token> = Vec::new();
    v.push(Token::new(id, value, 0, len));
    v
}

} // verus!
