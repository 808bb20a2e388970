//! Greedy longest-match-first subword model: at each position the longest
//! vocabulary piece wins; a word with no parse, or one that is too long,
//! becomes a single unknown token.

use vstd::prelude::*;
use crate::vocab::Vocab;
use crate::token::{Token, ModelError};
use crate::chars::{chars_of_str, string_from_chars};

verus! {

/// The piece text claimed by a match from `start` to `end`: pieces after
/// the word start carry the continuation prefix.
pub open spec fn piece_of(word: Seq<char>, start: int, end: int, prefix: Seq<char>) -> Seq<char> {
    if start > 0 {
        prefix + word.subrange(start, end)
    } else {
        word.subrange(start, end)
    }
}

/// A produced piece, before it becomes a token: id, text, char range.
pub open spec fn tokens_match(ts: Seq<Token>, m: Seq<(u32, Seq<char>, int, int)>) -> bool {
    ts.len() == m.len() && forall|i: int|
        0 <= i < ts.len() ==> (#[trigger] ts[i]).id == m[i].0 && ts[i].value@ == m[i].1
            && ts[i].offsets.0 == m[i].2 && ts[i].offsets.1 == m[i].3
}

/// Greedy longest-match-first tokenization over a fixed vocabulary.
#[derive(Debug)]
pub struct WordPiece {
    pub vocab: Vocab,
    pub unk_token: String,
    pub continuing_subword_prefix: String,
    pub max_input_chars_per_word: usize,
}

impl WordPiece {
    pub open spec fn wf(self) -> bool {
        self.vocab.wf()
    }

    /// The longest end position in `(start, cap]` whose piece is in the
    /// vocabulary.
    pub open spec fn longest_end(self, word: Seq<char>, start: int, cap: int) -> Option<int>
        decreases cap - start,
    {
        if cap <= start {
            None
        } else if self.vocab.spec_token_to_id(piece_of(word, start, cap, self.continuing_subword_prefix@)) is Some {
            Some(cap)
        } else {
            self.longest_end(word, start, cap - 1)
        }
    }

    /// The greedy piece sequence from `start` on; `None` when some suffix
    /// has no matching piece.
    pub open spec fn wp_pieces(self, word: Seq<char>, start: int) -> Option<Seq<(u32, int, int)>>
        decreases word.len() - start,
    {
        if start >= word.len() {
            Some(Seq::<(u32, int, int)>::empty())
        } else {
            match self.longest_end(word, start, word.len() as int) {
                Some(e) => if start < e <= word.len() {
                    match self.wp_pieces(word, e) {
                        Some(rest) => {
                            let id = self.vocab.spec_token_to_id(
                                piece_of(word, start, e, self.continuing_subword_prefix@),
                            )->Some_0;
                            Some(seq![(id, start, e)] + rest)
                        },
                        None => None,
                    }
                } else {
                    None
                },
                None => None,
            }
        }
    }

    /// What tokenization must produce: the greedy pieces, or one unknown
    /// token over the whole word; `None` when the unknown token itself is
    /// missing from the vocabulary while it is needed.
    pub open spec fn spec_tokenize(self, word: Seq<char>) -> Option<Seq<(u32, Seq<char>, int, int)>> {
        if word.len() > self.max_input_chars_per_word || self.wp_pieces(word, 0) is None {
            match self.vocab.spec_token_to_id(self.unk_token@) {
                Some(uid) => Some(seq![(uid, self.unk_token@, 0int, word.len() as int)]),
                None => None,
            }
        } else {
            let ps = self.wp_pieces(word, 0)->Some_0;
            Some(ps.map(|i: int, p: (u32, int, int)|
                (p.0, piece_of(word, p.1, p.2, self.continuing_subword_prefix@), p.1, p.2)))
        }
    }

    /// Builds the model; the vocabulary pairs must be free of duplicates.
    pub fn new(
        entries: Vec<(String, u32)>,
        unk_token: String,
        continuing_subword_prefix: String,
        max_input_chars_per_word: usize,
    ) -> (r: Result<WordPiece, ModelError>)
        ensures
            match r {
                Ok(m) => m.wf() && m.vocab.entries@ == entries@ && m.unk_token == unk_token
                    && m.continuing_subword_prefix == continuing_subword_prefix
                    && m.max_input_chars_per_word == max_input_chars_per_word,
                Err(e) => e == ModelError::Construction
                    && !crate::vocab::spec_entries_distinct(entries@),
            },
    {
        let vocab = Vocab::new_checked(entries)?;
        Ok(WordPiece { vocab, unk_token, continuing_subword_prefix, max_input_chars_per_word })
    }

    /// The piece text from `start` to `end` as a string.
    fn build_piece(&self, wchars: &Vec<char>, start: usize, end: usize) -> (r: String)
        requires
            start <= end <= wchars@.len(),
        ensures
            r@ == piece_of(wchars@, start as int, end as int, self.continuing_subword_prefix@),
    {
        let mut v: Vec<char> = Vec::new();
        if start > 0 {
            let pc = chars_of_str(self.continuing_subword_prefix.as_str());
            let m = pc.len();
            for i in 0..m
                invariant
                    m == pc@.len(),
                    pc@ == self.continuing_subword_prefix@,
                    v@ =~= pc@.take(i as int),
            {
                v.push(pc[i]);
            }
            proof {
                assert(pc@.take(m as int) =~= pc@);
            }
        }
        let ghost base = v@;
        for i in start..end
            invariant
                start <= end <= wchars@.len(),
                v@ =~= base + wchars@.subrange(start as int, i as int),
        {
            v.push(wchars[i]);
            proof {
                assert(base + wchars@.subrange(start as int, i as int) + seq![wchars@[i as int]]
                    =~= base + wchars@.subrange(start as int, i + 1));
            }
        }
        proof {
            if start > 0 {
                assert(v@ =~= piece_of(wchars@, start as int, end as int,
                    self.continuing_subword_prefix@));
            } else {
                assert(base =~= Seq::<char>::empty());
                assert(v@ =~= piece_of(wchars@, start as int, end as int,
                    self.continuing_subword_prefix@));
            }
        }
        string_from_chars(&v)
    }

    /// Longest vocabulary match starting at `start`.
    fn longest_match(&self, wchars: &Vec<char>, start: usize) -> (r: Option<(usize, u32, String)>)
        requires
            self.wf(),
            start < wchars@.len(),
        ensures
            match r {
                Some(m) => self.longest_end(wchars@, start as int, wchars@.len() as int)
                    == Some(m.0 as int) && start < m.0 <= wchars@.len()
                    && self.vocab.spec_token_to_id(
                        piece_of(wchars@, start as int, m.0 as int, self.continuing_subword_prefix@),
                    ) == Some(m.1)
                    && m.2@ == piece_of(wchars@, start as int, m.0 as int,
                        self.continuing_subword_prefix@),
                None => self.longest_end(wchars@, start as int, wchars@.len() as int) is None,
            },
    {
        let n = wchars.len();
        let mut e = n;
        while e > start
            invariant
                self.wf(),
                start < n == wchars@.len(),
                e <= n,
                self.longest_end(wchars@, start as int, n as int)
                    == self.longest_end(wchars@, start as int, e as int),
            decreases e,
        {
            let piece = self.build_piece(wchars, start, e);
            match self.vocab.token_to_id(&piece) {
                Some(id) => {
                    return Some((e, id, piece));
                },
                None => {
                    e = e - 1;
                },
            }
        }
        None
    }

    /// One unknown token over the whole word, or the error when the
    /// unknown token is not in the vocabulary.
    fn unk_result(&self, len: usize) -> (r: Result<Vec<Token>, ModelError>)
        requires
            self.wf(),
        ensures
            match r {
                Ok(ts) => ts@.len() == 1
                    && self.vocab.spec_token_to_id(self.unk_token@) == Some(ts@[0].id)
                    && ts@[0].value@ == self.unk_token@ && ts@[0].offsets == (0usize, len),
                Err(e) => e == ModelError::MissingUnkToken
                    && self.vocab.spec_token_to_id(self.unk_token@) is None,
            },
    {
        match self.vocab.token_to_id(&self.unk_token) {
            Some(uid) => {
                let mut v: Vec<Token> = Vec::new();
                v.push(Token::new(uid, self.unk_token.clone(), 0, len));
                Ok(v)
            },
            None => Err(ModelError::MissingUnkToken),
        }
    }

    /// Greedy longest-match tokenization: exactly `spec_tokenize`, with
    /// `MissingUnkToken` exactly when that spec has no answer.
    pub fn tokenize(&self, word: &String) -> (r: Result<Vec<Token>, ModelError>)
        requires
            self.wf(),
        ensures
            match r {
                Ok(ts) => self.spec_tokenize(word@) is Some
                    && tokens_match(ts@, self.spec_tokenize(word@)->Some_0),
                Err(e) => e == ModelError::MissingUnkToken && self.spec_tokenize(word@) is None,
            },
    {
        let wchars = chars_of_str(word.as_str());
        let n = wchars.len();
        if n > self.max_input_chars_per_word {
            return self.unk_result(n);
        }
        let mut out: Vec<Token> = Vec::new();
        let ghost mut pieces_done: Seq<(u32, int, int)> = Seq::empty();
        let mut start: usize = 0;
        let mut failed = false;
        while start < n && !failed
            invariant
                self.wf(),
                n == wchars@.len(),
                wchars@ == word@,
                start <= n,
                !failed ==> (match self.wp_pieces(word@, start as int) {
                    Some(rest) => self.wp_pieces(word@, 0) == Some(pieces_done + rest),
                    None => self.wp_pieces(word@, 0) is None,
                }),
                failed ==> self.wp_pieces(word@, 0) is None,
                !failed ==> out@.len() == pieces_done.len(),
                !failed ==> forall|i: int| 0 <= i < out@.len() ==>
                    (#[trigger] out@[i]).id == pieces_done[i].0
                    && out@[i].value@ == piece_of(word@, pieces_done[i].1, pieces_done[i].2,
                        self.continuing_subword_prefix@)
                    && out@[i].offsets.0 == pieces_done[i].1
                    && out@[i].offsets.1 == pieces_done[i].2,
            decreases n - start + (if failed { 0int } else { 1int }),
        {
            match self.longest_match(&wchars, start) {
                Some((e, id, piece)) => {
                    out.push(Token::new(id, piece, start, e));
                    proof {
                        let x = (id, start as int, e as int);
                        if self.wp_pieces(word@, e as int) is Some {
                            let rest = self.wp_pieces(word@, e as int)->Some_0;
                            assert(self.wp_pieces(word@, start as int) == Some(seq![x] + rest));
                            assert(pieces_done + (seq![x] + rest)
                                =~= (pieces_done + seq![x]) + rest);
                        }
                        pieces_done = pieces_done + seq![x];
                    }
                    start = e;
                },
                None => {
                    failed = true;
                },
            }
        }
        if failed {
            return self.unk_result(n);
        }
        proof {
            assert(self.wp_pieces(word@, n as int) == Some(Seq::<(u32, int, int)>::empty()));
            assert(pieces_done + Seq::<(u32, int, int)>::empty() =~= pieces_done);
            assert(self.wp_pieces(word@, 0) == Some(pieces_done));
        }
        Ok(out)
    }

    pub fn token_to_id(&self, token: &String) -> (r: Option<u32>)
        ensures
            r == self.vocab.spec_token_to_id(token@),
    {
        self.vocab.token_to_id(token)
    }

    pub fn id_to_token(&self, id: u32) -> (r: Option<String>)
        ensures
            match r {
                Some(s) => self.vocab.spec_id_to_token(id) == Some(s@),
                None => self.vocab.spec_id_to_token(id) is None,
            },
    {
        self.vocab.id_to_token(id)
    }
}

} // verus!
