//! The model facade: exactly one tokenization algorithm is active, and all
//! calls dispatch to it. Every operation here takes the model by shared
//! reference, so any number of readers may tokenize concurrently; swapping
//! the model is a full replacement by the single writer.

use vstd::prelude::*;
use crate::token::{Token, ModelError};
use crate::bpe::BPE;
use crate::wordpiece::{WordPiece, tokens_match};
use crate::wordlevel::WordLevel;
use crate::unigram::{Unigram, unigram_cover, spec_sum};
use crate::vocab::Vocab;

verus! {

/// The active tokenization algorithm.
#[derive(Debug)]
pub enum ModelWrapper {
    Bpe(BPE),
    WordPiece(WordPiece),
    WordLevel(WordLevel),
    Unigram(Unigram),
}

impl ModelWrapper {
    pub open spec fn wf(self) -> bool {
        match self {
            ModelWrapper::Bpe(m) => m.wf(),
            ModelWrapper::WordPiece(m) => m.wf(),
            ModelWrapper::WordLevel(m) => m.wf(),
            ModelWrapper::Unigram(m) => m.wf(),
        }
    }

    /// The vocabulary as pairs; a unigram piece's id is its position.
    pub open spec fn spec_vocab(self) -> Seq<(Seq<char>, u32)> {
        match self {
            ModelWrapper::Bpe(m) => m.vocab.entries@.map_values(|e: (String, u32)| (e.0@, e.1)),
            ModelWrapper::WordPiece(m) => m.vocab.entries@.map_values(|e: (String, u32)| (e.0@, e.1)),
            ModelWrapper::WordLevel(m) => m.vocab.entries@.map_values(|e: (String, u32)| (e.0@, e.1)),
            ModelWrapper::Unigram(m) => Seq::new(m.pieces@.len(), |i: int| (m.pieces@[i].0@, i as u32)),
        }
    }

    /// Tokenizes one word with the active algorithm; the per-algorithm
    /// contracts carry over unchanged.
    pub fn tokenize(&self, word: &String) -> (r: Result<Vec<Token>, ModelError>)
        requires
            self.wf(),
        ensures
            match self {
                ModelWrapper::Bpe(m) => match r {
                    Ok(ts) => m.spec_tokenize(word@) is Some
                        && tokens_match(ts@, m.spec_tokenize(word@)->Some_0),
                    Err(e) => e == ModelError::MissingUnkToken && m.spec_tokenize(word@) is None,
                },
                ModelWrapper::WordPiece(m) => match r {
                    Ok(ts) => m.spec_tokenize(word@) is Some
                        && tokens_match(ts@, m.spec_tokenize(word@)->Some_0),
                    Err(e) => e == ModelError::MissingUnkToken && m.spec_tokenize(word@) is None,
                },
                ModelWrapper::WordLevel(m) => match r {
                    Ok(ts) => ts@.len() == 1 && ts@[0].offsets == (0usize, word@.len() as usize)
                        && (match m.vocab.spec_token_to_id(word@) {
                            Some(id) => ts@[0].id == id && ts@[0].value@ == word@,
                            None => m.vocab.spec_token_to_id(m.unk_token@) == Some(ts@[0].id)
                                && ts@[0].value@ == m.unk_token@,
                        }),
                    Err(e) => e == ModelError::MissingUnkToken
                        && m.vocab.spec_token_to_id(word@) is None
                        && m.vocab.spec_token_to_id(m.unk_token@) is None,
                },
                ModelWrapper::Unigram(m) => match r {
                    Ok(ts) => m.spec_dp(word@, word@.len() as int) is Some
                        && unigram_cover(ts@, word@.len() as int)
                        && (forall|i: int| 0 <= i < ts@.len() ==> (#[trigger] ts@[i]).value@
                            == word@.subrange(ts@[i].offsets.0 as int, ts@[i].offsets.1 as int))
                        && (exists|sc: Seq<int>| sc.len() == ts@.len()
                            && spec_sum(sc) == m.spec_dp(word@, word@.len() as int)->Some_0
                            && (forall|i: int| 0 <= i < sc.len()
                                ==> m.valid_tok_score(word@, #[trigger] ts@[i], sc[i]))),
                    Err(e) => e == ModelError::MissingUnkToken
                        && m.spec_dp(word@, word@.len() as int) is None,
                },
            },
    {
        match self {
            ModelWrapper::Bpe(m) => m.tokenize(word),
            ModelWrapper::WordPiece(m) => m.tokenize(word),
            ModelWrapper::WordLevel(m) => m.tokenize(word),
            ModelWrapper::Unigram(m) => m.tokenize(word),
        }
    }

    /// The id of a token string, if the vocabulary holds it.
    pub fn token_to_id(&self, token: &String) -> (r: Option<u32>)
        requires
            self.wf(),
        ensures
            match self {
                ModelWrapper::Bpe(m) => r == m.vocab.spec_token_to_id(token@),
                ModelWrapper::WordPiece(m) => r == m.vocab.spec_token_to_id(token@),
                ModelWrapper::WordLevel(m) => r == m.vocab.spec_token_to_id(token@),
                ModelWrapper::Unigram(m) => match r {
                    Some(id) => crate::unigram::u_lookup_from(m.pieces@, token@, 0)
                        == Some(id as int),
                    None => crate::unigram::u_lookup_from(m.pieces@, token@, 0) is None,
                },
            },
    {
        match self {
            ModelWrapper::Bpe(m) => m.token_to_id(token),
            ModelWrapper::WordPiece(m) => m.token_to_id(token),
            ModelWrapper::WordLevel(m) => m.token_to_id(token),
            ModelWrapper::Unigram(m) => m.token_to_id(token),
        }
    }

    /// The token string of an id, if one carries it.
    pub fn id_to_token(&self, id: u32) -> (r: Option<String>)
        ensures
            match self {
                ModelWrapper::Bpe(m) => match r {
                    Some(s) => m.vocab.spec_id_to_token(id) == Some(s@),
                    None => m.vocab.spec_id_to_token(id) is None,
                },
                ModelWrapper::WordPiece(m) => match r {
                    Some(s) => m.vocab.spec_id_to_token(id) == Some(s@),
                    None => m.vocab.spec_id_to_token(id) is None,
                },
                ModelWrapper::WordLevel(m) => match r {
                    Some(s) => m.vocab.spec_id_to_token(id) == Some(s@),
                    None => m.vocab.spec_id_to_token(id) is None,
                },
                ModelWrapper::Unigram(m) => match r {
                    Some(s) => (id as int) < m.pieces@.len() && s@ == m.pieces@[id as int].0@,
                    None => (id as int) >= m.pieces@.len(),
                },
            },
    {
        match self {
            ModelWrapper::Bpe(m) => m.id_to_token(id),
            ModelWrapper::WordPiece(m) => m.id_to_token(id),
            ModelWrapper::WordLevel(m) => m.id_to_token(id),
            ModelWrapper::Unigram(m) => m.id_to_token(id),
        }
    }

    /// The whole vocabulary as pairs.
    pub fn get_vocab(&self) -> (r: Vec<(String, u32)>)
        requires
            self.wf(),
        ensures
            r@.len() == self.spec_vocab().len(),
            forall|i: int| 0 <= i < r@.len() ==> ((#[trigger] r@[i]).0@, r@[i].1)
                == self.spec_vocab()[i],
    {
        match self {
            ModelWrapper::Bpe(m) => m.vocab.get_vocab(),
            ModelWrapper::WordPiece(m) => m.vocab.get_vocab(),
            ModelWrapper::WordLevel(m) => m.vocab.get_vocab(),
            ModelWrapper::Unigram(m) => {
                let n = m.pieces.len();
                let mut out: Vec<(String, u32)> = Vec::new();
                for i in 0..n
                    invariant
                        n == m.pieces@.len() <= u32::MAX,
                        out@.len() == i,
                        forall|q: int| 0 <= q < i ==> ((#[trigger] out@[q]).0@, out@[q].1)
                            == (m.pieces@[q].0@, q as u32),
                {
                    out.push((m.pieces[i].0.clone(), i as u32));
                }
                out
            },
        }
    }

    /// The number of vocabulary entries.
    pub fn get_vocab_size(&self) -> (r: usize)
        ensures
            r == self.spec_vocab().len(),
    {
        match self {
            ModelWrapper::Bpe(m) => m.vocab.get_vocab_size(),
            ModelWrapper::WordPiece(m) => m.vocab.get_vocab_size(),
            ModelWrapper::WordLevel(m) => m.vocab.get_vocab_size(),
            ModelWrapper::Unigram(m) => m.get_vocab_size(),
        }
    }
}

/// Law: two models with the same tables and configuration tokenize every
/// word alike, whatever their byte-pair caches hold. Memoization only
/// trades time, never output.
pub proof fn lemma_model_cache_transparent(m1: BPE, m2: BPE, word: Seq<char>)
    requires
        m1.vocab == m2.vocab,
        m1.merges@ == m2.merges@,
        m1.unk_token == m2.unk_token,
        m1.continuing_subword_prefix == m2.continuing_subword_prefix,
        m1.end_of_word_suffix == m2.end_of_word_suffix,
        m1.fuse_unk == m2.fuse_unk,
    ensures
        m1.spec_tokenize(word) == m2.spec_tokenize(word),
{
    BPE::lemma_cache_transparent(m1, m2, word);
}

} // verus!
