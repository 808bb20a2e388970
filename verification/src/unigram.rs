//! Unigram language-model segmentation: dynamic programming over prefix
//! scores picks the piece sequence of maximum total score; a character no
//! piece covers falls back to the unknown id at a penalty below every
//! piece score, so a full cover always exists when an unknown id is set.
//!
//! Scores are fixed-point log-probabilities: integers at a caller-chosen
//! scale, at most zero and at least `-MAX_SCORE_MAG`.

use vstd::prelude::*;
use crate::token::{Token, ModelError};
use crate::chars::{chars_of_str, string_from_chars, eq_chars};

verus! {

/// Largest admitted score magnitude.
pub const MAX_SCORE_MAG: i64 = 4_000_000_000;

/// How far below the worst piece score the unknown fallback sits.
pub const UNK_PENALTY: i64 = 10_000_000;

/// The sum of a score list.
pub open spec fn spec_sum(s: Seq<int>) -> int
    decreases s.len(),
{
    if s.len() == 0 {
        0
    } else {
        s[0] + spec_sum(s.drop_first())
    }
}

/// Larger of two optional scores; `None` is no candidate.
pub open spec fn spec_opt_max(a: Option<int>, b: Option<int>) -> Option<int> {
    match (a, b) {
        (Some(x), Some(y)) => if x >= y { Some(x) } else { Some(y) },
        (Some(x), None) => Some(x),
        (None, Some(y)) => Some(y),
        (None, None) => None,
    }
}

/// First piece with the given text, as an id.
pub open spec fn u_lookup_from(ps: Seq<(String, i64)>, t: Seq<char>, i: int) -> Option<int>
    decreases ps.len() - i,
{
    if i < 0 || i >= ps.len() {
        None
    } else if ps[i].0@ == t {
        Some(i)
    } else {
        u_lookup_from(ps, t, i + 1)
    }
}

/// Left fold of the minimum score.
pub open spec fn min_fold(ps: Seq<(String, i64)>, i: int, acc: i64) -> i64
    decreases ps.len() - i,
{
    if i < 0 || i >= ps.len() {
        acc
    } else {
        min_fold(ps, i + 1, if ps[i].1 < acc { ps[i].1 } else { acc })
    }
}

/// Unigram model: pieces scored by fixed-point log-probability; a piece's
/// id is its position.
#[derive(Debug)]
pub struct Unigram {
    pub pieces: Vec<(String, i64)>,
    pub unk_id: Option<u32>,
    pub min_score: i64,
}

impl Unigram {
    pub open spec fn wf(self) -> bool {
        &&& self.pieces@.len() <= u32::MAX
        &&& (forall|i: int, j: int| #![trigger self.pieces@[i], self.pieces@[j]]
            0 <= i < j < self.pieces@.len() ==> self.pieces@[i].0@ != self.pieces@[j].0@)
        &&& (forall|i: int| 0 <= i < self.pieces@.len()
            ==> -MAX_SCORE_MAG <= (#[trigger] self.pieces@[i]).1 <= 0)
        &&& (match self.unk_id {
            Some(u) => (u as int) < self.pieces@.len(),
            None => true,
        })
        &&& self.min_score == min_fold(self.pieces@, 0, 0)
        &&& -MAX_SCORE_MAG <= self.min_score <= 0
    }

    /// The score of covering one character by the unknown fallback.
    pub open spec fn spec_penalty(self) -> int {
        self.min_score - UNK_PENALTY
    }

    /// The best score of any candidate ending at `j` that uses only the
    /// first `k` pieces or the unknown fallback.
    pub open spec fn spec_cand(self, w: Seq<char>, j: int, k: int) -> Option<int>
        decreases j, k,
    {
        if j <= 0 {
            None
        } else if k <= 0 {
            match self.unk_id {
                Some(_) => match self.spec_dp(w, j - 1) {
                    Some(v) => Some(v + self.spec_penalty()),
                    None => None,
                },
                None => None,
            }
        } else {
            let prev = self.spec_cand(w, j, k - 1);
            let p = self.pieces@[k - 1];
            let len = p.0@.len() as int;
            let this = if 1 <= len <= j && w.subrange(j - len, j) == p.0@ {
                match self.spec_dp(w, j - len) {
                    Some(v) => Some(v + p.1),
                    None => None,
                }
            } else {
                None
            };
            spec_opt_max(prev, this)
        }
    }

    /// The best total score of a segmentation of the first `j` characters;
    /// `None` when no cover exists.
    pub open spec fn spec_dp(self, w: Seq<char>, j: int) -> Option<int>
        decreases j, self.pieces@.len() + 1,
    {
        if j <= 0 {
            Some(0)
        } else {
            self.spec_cand(w, j, self.pieces@.len() as int)
        }
    }

    /// A candidate list never loses its unknown-fallback floor.
    proof fn lemma_cand_ge_base(self, w: Seq<char>, j: int, k: int)
        requires
            j >= 1,
            k >= 0,
            self.spec_cand(w, j, 0) is Some,
        ensures
            self.spec_cand(w, j, k) is Some,
            self.spec_cand(w, j, k)->Some_0 >= self.spec_cand(w, j, 0)->Some_0,
        decreases k,
    {
        if k > 0 {
            self.lemma_cand_ge_base(w, j, k - 1);
        }
    }

    /// Law: with an unknown id set, segmentation always succeeds, and its
    /// total score is at least the score of covering every character by
    /// the unknown fallback alone.
    pub proof fn lemma_dp_floor(self, w: Seq<char>, j: int)
        requires
            self.wf(),
            self.unk_id is Some,
            0 <= j,
        ensures
            self.spec_dp(w, j) is Some,
            self.spec_dp(w, j)->Some_0 >= j * self.spec_penalty(),
        decreases j,
    {
        if j > 0 {
            self.lemma_dp_floor(w, j - 1);
            assert(self.spec_cand(w, j, 0) is Some);
            assert(self.spec_cand(w, j, 0)->Some_0
                >= (j - 1) * self.spec_penalty() + self.spec_penalty());
            self.lemma_cand_ge_base(w, j, self.pieces@.len() as int);
            assert((j - 1) * self.spec_penalty() + self.spec_penalty()
                == j * self.spec_penalty()) by (nonlinear_arith);
        } else {
            assert(j * self.spec_penalty() == 0) by (nonlinear_arith)
                requires j == 0;
        }
    }

    /// Every reachable candidate score lies between the worst possible
    /// cover and zero.
    proof fn lemma_cand_bounds(self, w: Seq<char>, j: int, k: int)
        requires
            self.wf(),
            1 <= j,
            0 <= k <= self.pieces@.len(),
        ensures
            self.spec_cand(w, j, k) is Some ==> j * (-MAX_SCORE_MAG - UNK_PENALTY)
                <= self.spec_cand(w, j, k)->Some_0 <= 0,
        decreases j, k, 0int,
    {
        let lb: int = -MAX_SCORE_MAG - UNK_PENALTY;
        if k == 0 {
            self.lemma_dp_bounds(w, j - 1);
            if self.spec_cand(w, j, 0) is Some {
                assert((j - 1) * lb + lb == j * lb) by (nonlinear_arith);
            }
        } else {
            self.lemma_cand_bounds(w, j, k - 1);
            let p = self.pieces@[k - 1];
            let len = p.0@.len() as int;
            if 1 <= len <= j && w.subrange(j - len, j) == p.0@
                && self.spec_dp(w, j - len) is Some {
                self.lemma_dp_bounds(w, j - len);
                assert((j - len) * lb + lb * len == j * lb) by (nonlinear_arith);
                assert(lb * len <= p.1) by (nonlinear_arith)
                    requires len >= 1 && lb <= -MAX_SCORE_MAG && -MAX_SCORE_MAG <= p.1;
                assert((j - len) * lb <= 0) by (nonlinear_arith)
                    requires j - len >= 0 && lb <= 0;
            }
        }
    }

    /// Every reachable prefix score lies between the worst possible cover
    /// and zero.
    proof fn lemma_dp_bounds(self, w: Seq<char>, j: int)
        requires
            self.wf(),
            0 <= j,
        ensures
            self.spec_dp(w, j) is Some ==> j * (-MAX_SCORE_MAG - UNK_PENALTY)
                <= self.spec_dp(w, j)->Some_0 <= 0,
        decreases j, self.pieces@.len() as int, 1int,
    {
        let lb: int = -MAX_SCORE_MAG - UNK_PENALTY;
        if j == 0 {
            assert(j * lb == 0) by (nonlinear_arith)
                requires j == 0;
        } else {
            self.lemma_cand_bounds(w, j, self.pieces@.len() as int);
        }
    }

    /// The inputs a unigram model accepts: a table that fits the id
    /// space, distinct pieces, scores in range, and an unknown id inside
    /// the table.
    pub open spec fn spec_input_ok(pieces: Seq<(String, i64)>, unk_id: Option<usize>) -> bool {
        &&& pieces.len() <= u32::MAX
        &&& (forall|i: int, j: int| #![trigger pieces[i], pieces[j]]
            0 <= i < j < pieces.len() ==> pieces[i].0@ != pieces[j].0@)
        &&& (forall|i: int| 0 <= i < pieces.len()
            ==> -MAX_SCORE_MAG <= (#[trigger] pieces[i]).1 <= 0)
        &&& (match unk_id {
            Some(u) => (u as int) < pieces.len(),
            None => true,
        })
    }

    /// Builds the model: pieces must be distinct, scores within range, and
    /// the unknown id inside the table; the construction error comes
    /// exactly when one of those fails.
    pub fn new(pieces: Vec<(String, i64)>, unk_id: Option<usize>) -> (r: Result<Unigram, ModelError>)
        ensures
            match r {
                Ok(m) => m.wf() && m.pieces@ == pieces@
                    && (match (m.unk_id, unk_id) {
                        (Some(a), Some(b)) => a as int == b as int,
                        (None, None) => true,
                        _ => false,
                    }),
                Err(e) => e == ModelError::Construction,
            },
            r is Err <==> !Unigram::spec_input_ok(pieces@, unk_id),
    {
        let n = pieces.len();
        if n > u32::MAX as usize {
            return Err(ModelError::Construction);
        }
        for i in 0..n
            invariant
                n == pieces@.len(),
                forall|a: int, b: int| #![trigger pieces@[a], pieces@[b]]
                    0 <= a < b < pieces@.len() && a < i ==> pieces@[a].0@ != pieces@[b].0@,
                forall|a: int| 0 <= a < i ==> -MAX_SCORE_MAG <= (#[trigger] pieces@[a]).1 <= 0,
        {
            if pieces[i].1 > 0 || pieces[i].1 < -MAX_SCORE_MAG {
                proof {
                    assert(!(-MAX_SCORE_MAG <= pieces@[i as int].1 <= 0));
                }
                return Err(ModelError::Construction);
            }
            for j in (i + 1)..n
                invariant
                    n == pieces@.len(),
                    i < n,
                    forall|b: int| #![trigger pieces@[b]]
                        i < b < j ==> pieces@[b].0@ != pieces@[i as int].0@,
            {
                if pieces[i].0 == pieces[j].0 {
                    proof {
                        assert(pieces@[i as int].0@ == pieces@[j as int].0@);
                        assert(!Unigram::spec_input_ok(pieces@, unk_id));
                    }
                    return Err(ModelError::Construction);
                }
            }
        }
        let uk: Option<u32> = match unk_id {
            Some(u) => {
                if u >= n {
                    return Err(ModelError::Construction);
                }
                Some(u as u32)
            },
            None => None,
        };
        let mut ms: i64 = 0;
        for i in 0..n
            invariant
                n == pieces@.len(),
                forall|a: int| 0 <= a < n ==> -MAX_SCORE_MAG <= (#[trigger] pieces@[a]).1 <= 0,
                min_fold(pieces@, 0, 0) == min_fold(pieces@, i as int, ms),
                -MAX_SCORE_MAG <= ms <= 0,
        {
            if pieces[i].1 < ms {
                ms = pieces[i].1;
            }
        }
        Ok(Unigram { pieces, unk_id: uk, min_score: ms })
    }

    pub fn token_to_id(&self, token: &String) -> (r: Option<u32>)
        requires
            self.wf(),
        ensures
            match r {
                Some(id) => u_lookup_from(self.pieces@, token@, 0) == Some(id as int),
                None => u_lookup_from(self.pieces@, token@, 0) is None,
            },
    {
        let n = self.pieces.len();
        for i in 0..n
            invariant
                self.wf(),
                n == self.pieces@.len(),
                u_lookup_from(self.pieces@, token@, 0) == u_lookup_from(self.pieces@, token@, i as int),
        {
            if self.pieces[i].0 == *token {
                return Some(i as u32);
            }
        }
        None
    }

    pub fn id_to_token(&self, id: u32) -> (r: Option<String>)
        ensures
            match r {
                Some(s) => (id as int) < self.pieces@.len() && s@ == self.pieces@[id as int].0@,
                None => (id as int) >= self.pieces@.len(),
            },
    {
        if (id as usize) < self.pieces.len() {
            Some(self.pieces[id as usize].0.clone())
        } else {
            None
        }
    }

    pub fn get_vocab_size(&self) -> (r: usize)
        ensures
            r == self.pieces@.len(),
    {
        self.pieces.len()
    }

    /// A score `s` justifies token `t`: either `t` is a piece with that
    /// score, or it is the unknown fallback over one character.
    pub open spec fn valid_tok_score(self, w: Seq<char>, t: Token, s: int) -> bool {
        ||| (exists|pid: int| 0 <= pid < self.pieces@.len() && t.id == pid
            && (#[trigger] self.pieces@[pid]).0@ == t.value@ && s == self.pieces@[pid].1)
        ||| (self.unk_id == Some(t.id) && s == self.spec_penalty()
            && t.offsets.1 == t.offsets.0 + 1)
    }

    /// A backtrack entry for position `t`: the chosen step from `prev`
    /// carries its score and is a piece match or the unknown fallback.
    pub open spec fn step_ok(self, w: Seq<char>, t: int, prev: int, id: u32, add: int) -> bool {
        &&& 0 <= prev < t
        &&& self.spec_dp(w, prev) is Some
        &&& self.spec_dp(w, t) is Some
        &&& self.spec_dp(w, t)->Some_0 == self.spec_dp(w, prev)->Some_0 + add
        &&& {
            ||| (exists|pid: int| 0 <= pid < self.pieces@.len() && id == pid
                && (#[trigger] self.pieces@[pid]).0@ == w.subrange(prev, t)
                && add == self.pieces@[pid].1)
            ||| (self.unk_id == Some(id) && add == self.spec_penalty() && t - prev == 1)
        }
    }

    /// Reachable prefix scores have a magnitude the machine holds easily.
    proof fn lemma_dp_mag(self, w: Seq<char>, j: int, n: int)
        requires
            self.wf(),
            0 <= j <= n,
            n <= usize::MAX,
            self.spec_dp(w, j) is Some,
        ensures
            -(DP_MAG as int) <= self.spec_dp(w, j)->Some_0 <= 0,
    {
        self.lemma_dp_bounds(w, j);
        let lb: int = -MAX_SCORE_MAG - UNK_PENALTY;
        assert(j * lb >= -(DP_MAG as int)) by (nonlinear_arith)
            requires 0 <= j <= 18_446_744_073_709_551_615int && lb >= -4_010_000_000;
    }

    /// Viterbi segmentation: the returned tokens tile the word without gap
    /// or overlap, each is a vocabulary piece or a one-character unknown
    /// fallback, and their scores add up to the optimal prefix score; the
    /// word has no cover exactly when an unknown id is missing where one
    /// would be needed.
    #[verifier::loop_isolation(false)]
    #[verifier::rlimit(100)]
    pub fn tokenize(&self, word: &String) -> (r: Result<Vec<Token>, ModelError>)
        requires
            self.wf(),
        ensures
            match r {
                Ok(ts) => {
                    &&& self.spec_dp(word@, word@.len() as int) is Some
                    &&& unigram_cover(ts@, word@.len() as int)
                    &&& (forall|i: int| 0 <= i < ts@.len() ==> (#[trigger] ts@[i]).value@
                        == word@.subrange(ts@[i].offsets.0 as int, ts@[i].offsets.1 as int))
                    &&& (exists|sc: Seq<int>| sc.len() == ts@.len()
                        && spec_sum(sc) == self.spec_dp(word@, word@.len() as int)->Some_0
                        && (forall|i: int| 0 <= i < sc.len()
                            ==> self.valid_tok_score(word@, #[trigger] ts@[i], sc[i])))
                },
                Err(e) => e == ModelError::MissingUnkToken
                    && self.spec_dp(word@, word@.len() as int) is None,
            },
    {
        let wchars = chars_of_str(word.as_str());
        let n = wchars.len();
        let np = self.pieces.len();
        let mut pvs: Vec<Vec<char>> = Vec::new();
        for t in 0..np
            invariant
                pvs@.len() == t,
                forall|q: int| 0 <= q < t ==> (#[trigger] pvs@[q])@ == self.pieces@[q].0@,
        {
            pvs.push(chars_of_str(self.pieces[t].0.as_str()));
        }
        let pen64: i64 = self.min_score - UNK_PENALTY;
        let pen: i128 = pen64 as i128;
        proof {
            assert(pen as int == self.spec_penalty());
        }
        let mut dp: Vec<Option<i128>> = Vec::new();
        let mut bp: Vec<(usize, u32, i128)> = Vec::new();
        dp.push(Some(0));
        bp.push((0, 0, 0));
        let mut j: usize = 0;
        while j < n
            invariant
                0 <= j <= n,
                dp@.len() == j + 1,
                bp@.len() == j + 1,
                forall|t: int| 0 <= t <= j ==> (match (#[trigger] dp@[t]) {
                    Some(v) => self.spec_dp(word@, t) == Some(v as int),
                    None => self.spec_dp(word@, t) is None,
                }),
                forall|t: int| 1 <= t <= j && dp@[t] is Some ==> {
                    let e = #[trigger] bp@[t];
                    self.step_ok(word@, t, e.0 as int, e.1, e.2 as int)
                },
            decreases n - j,
        {
            j += 1;
            let mut best: Option<(i128, usize, u32, i128)> = None;
            match self.unk_id {
                Some(uid) => {
                    match dp[j - 1] {
                        Some(v) => {
                            proof {
                                self.lemma_dp_mag(word@, j - 1, n as int);
                            }
                            best = Some((v + pen, j - 1, uid, pen));
                        },
                        None => {},
                    }
                },
                None => {},
            }
            proof {
                assert(match best {
                    Some(b) => self.spec_cand(word@, j as int, 0) == Some(b.0 as int),
                    None => self.spec_cand(word@, j as int, 0) is None,
                });
            }
            let mut k: usize = 0;
            while k < np
                invariant
                    1 <= j <= n,
                    0 <= k <= np,
                    match best {
                        Some(b) => self.spec_cand(word@, j as int, k as int) == Some(b.0 as int)
                            && (b.1 as int) < j
                            && self.spec_dp(word@, b.1 as int) is Some
                            && (b.0 as int) == self.spec_dp(word@, b.1 as int)->Some_0
                                + (b.3 as int)
                            && ((exists|pid: int| 0 <= pid < self.pieces@.len() && b.2 == pid
                                && (#[trigger] self.pieces@[pid]).0@
                                    == word@.subrange(b.1 as int, j as int)
                                && (b.3 as int) == self.pieces@[pid].1)
                                || (self.unk_id == Some(b.2)
                                    && (b.3 as int) == self.spec_penalty()
                                    && j - (b.1 as int) == 1)),
                        None => self.spec_cand(word@, j as int, k as int) is None,
                    },
                decreases np - k,
            {
                k += 1;
                let plen = pvs[k - 1].len();
                if plen >= 1 && plen <= j {
                    if segment_eq(&wchars, j - plen, &pvs[k - 1]) {
                        match dp[j - plen] {
                            Some(v) => {
                                proof {
                                    self.lemma_dp_mag(word@, j - plen, n as int);
                                }
                                let cand: i128 = v + (self.pieces[k - 1].1 as i128);
                                match best {
                                    Some(b) => {
                                        if cand > b.0 {
                                            best = Some((cand, j - plen, k as u32 - 1, self.pieces[k - 1].1 as i128));
                                        }
                                    },
                                    None => {
                                        best = Some((cand, j - plen, k as u32 - 1, self.pieces[k - 1].1 as i128));
                                    },
                                }
                            },
                            None => {},
                        }
                    }
                }
            }
            match best {
                Some(b) => {
                    dp.push(Some(b.0));
                    bp.push((b.1, b.2, b.3));
                },
                None => {
                    dp.push(None);
                    bp.push((0, 0, 0));
                },
            }
        }
        let total = match dp[n] {
            Some(v) => v,
            None => {
                return Err(ModelError::MissingUnkToken);
            },
        };
        let mut rev: Vec<Token> = Vec::new();
        let ghost mut scs: Seq<int> = Seq::empty();
        let mut p: usize = n;
        while p > 0
            invariant
                p <= n,
                dp@[p as int] is Some,
                scs.len() == rev@.len(),
                spec_sum(scs) == self.spec_dp(word@, n as int)->Some_0
                    - self.spec_dp(word@, p as int)->Some_0,
                rev@.len() > 0 ==> rev@[0].offsets.1 == n
                    && rev@[rev@.len() - 1].offsets.0 == p,
                rev@.len() == 0 ==> p == n,
                forall|q: int| 0 <= q < rev@.len() ==> (#[trigger] rev@[q]).offsets.0
                    < rev@[q].offsets.1 <= n,
                forall|q: int| 0 <= q && q + 1 < rev@.len() ==> (#[trigger] rev@[q]).offsets.0
                    == rev@[q + 1].offsets.1,
                forall|q: int| 0 <= q < rev@.len() ==> (#[trigger] rev@[q]).value@
                    == word@.subrange(rev@[q].offsets.0 as int, rev@[q].offsets.1 as int),
                forall|q: int| 0 <= q < rev@.len()
                    ==> self.valid_tok_score(word@, #[trigger] rev@[q],
                        scs[rev@.len() - 1 - q]),
            decreases p,
        {
            let (prev, id, add) = bp[p];
            proof {
                assert(self.step_ok(word@, p as int, prev as int, id, add as int));
            }
            let seg = sub_chars(&wchars, prev, p);
            let val = string_from_chars(&seg);
            rev.push(Token::new(id, val, prev, p));
            proof {
                let a = add as int;
                assert((seq![a] + scs).drop_first() =~= scs);
                assert(spec_sum(seq![a] + scs) == a + spec_sum(scs));
                scs = seq![a] + scs;
            }
            p = prev;
        }
        let m = rev.len();
        let mut out: Vec<Token> = Vec::new();
        for q in 0..m
            invariant
                m == rev@.len(),
                out@.len() == q,
                forall|t: int| 0 <= t < q ==> #[trigger] out@[t] == rev@[m - 1 - t],
        {
            out.push(rev[m - 1 - q].duplicate());
        }
        proof {
            assert forall|i: int| 0 <= i && i + 1 < out@.len() implies
                (#[trigger] out@[i]).offsets.1 == out@[i + 1].offsets.0 by {
                assert(out@[i] == rev@[m - 1 - i]);
                assert(out@[i + 1] == rev@[m - 2 - i]);
                assert(rev@[m - 2 - i].offsets.0 == rev@[m - 1 - i].offsets.1);
            }
            assert forall|i: int| 0 <= i < out@.len() implies
                (#[trigger] out@[i]).offsets.0 < out@[i].offsets.1 <= word@.len()
                && out@[i].value@ == word@.subrange(out@[i].offsets.0 as int,
                    out@[i].offsets.1 as int) by {
                assert(out@[i] == rev@[m - 1 - i]);
            }
            if word@.len() > 0 {
                assert(out@[0] == rev@[m - 1]);
                assert(out@[out@.len() - 1] == rev@[0]);
            }
            assert(unigram_cover(out@, word@.len() as int));
            assert(scs.len() == out@.len());
            assert(spec_sum(scs) == self.spec_dp(word@, word@.len() as int)->Some_0);
            assert forall|i: int| 0 <= i < scs.len() implies
                self.valid_tok_score(word@, #[trigger] out@[i], scs[i]) by {
                assert(out@[i] == rev@[m - 1 - i]);
                assert(self.valid_tok_score(word@, rev@[m - 1 - i],
                    scs[rev@.len() - 1 - (m - 1 - i)]));
            }
        }
        Ok(out)
    }
}

/// Tokens tile the first `n` characters: starts at zero, ends at `n`,
/// neighbours meet exactly, no token is empty.
pub open spec fn unigram_cover(ts: Seq<Token>, n: int) -> bool {
    &&& (n == 0 ==> ts.len() == 0)
    &&& (n > 0 ==> ts.len() > 0 && ts[0].offsets.0 == 0 && ts[ts.len() - 1].offsets.1 == n)
    &&& (forall|i: int| 0 <= i < ts.len() ==> (#[trigger] ts[i]).offsets.0 < ts[i].offsets.1 <= n)
    &&& (forall|i: int| 0 <= i && i + 1 < ts.len() ==> (#[trigger] ts[i]).offsets.1
        == ts[i + 1].offsets.0)
}

/// Largest prefix-score magnitude any word on this machine can reach.
pub const DP_MAG: i128 = 80_000_000_000_000_000_000_000_000_000;

/// Whether the characters of `p` stand in `w` at position `at`.
pub fn segment_eq(w: &Vec<char>, at: usize, p: &Vec<char>) -> (r: bool)
    requires
        at + p@.len() <= w@.len(),
    ensures
        r == (w@.subrange(at as int, at + p@.len()) == p@),
{
    let m = p.len();
    let wn = w.len();
    for i in 0..m
        invariant
            at + m <= wn == w@.len(),
            m == p@.len(),
            forall|q: int| 0 <= q < i ==> w@[at + q] == p@[q],
    {
        if w[at + i] != p[i] {
            proof {
                assert(w@.subrange(at as int, at + p@.len())[i as int] != p@[i as int]);
            }
            return false;
        }
    }
    proof {
        assert(w@.subrange(at as int, at + p@.len()) =~= p@);
    }
    true
}

/// The characters of `v` between `a` and `b`.
fn sub_chars(v: &Vec<char>, a: usize, b: usize) -> (r: Vec<char>)
    requires
        a <= b <= v@.len(),
    ensures
        r@ == v@.subrange(a as int, b as int),
{
    let mut out: Vec<char> = Vec::new();
    let mut i = a;
    while i < b
        invariant
            a <= i <= b <= v@.len(),
            out@ =~= v@.subrange(a as int, i as int),
        decreases b - i,
    {
        out.push(v[i]);
        proof {
            assert(v@.subrange(a as int, i as int) + seq![v@[i as int]]
                =~= v@.subrange(a as int, i + 1));
        }
        i += 1;
    }
    out
}

} // verus!
