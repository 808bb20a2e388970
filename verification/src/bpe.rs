//! Byte-pair encoding: a word is split into one symbol per character,
//! adjacent symbol pairs are merged in rank order (lowest rank first,
//! leftmost on ties), and the final symbols map to vocabulary ids, with an
//! optional unknown-token fallback and a result cache that never changes
//! what tokenization returns.

use vstd::prelude::*;
use crate::vocab::Vocab;
use crate::token::{Token, ModelError};
use crate::chars::{chars_of_str, string_from_chars, eq_chars, copy_chars, starts_with_chars};
use crate::wordpiece::tokens_match;

verus! {

/// One working symbol: its text and the character range of the word it
/// stands for.
#[derive(Debug)]
pub struct Sym {
    pub val: Vec<char>,
    pub start: usize,
    pub end: usize,
}

pub open spec fn sym_model(s: Sym) -> (Seq<char>, int, int) {
    (s.val@, s.start as int, s.end as int)
}

pub open spec fn syms_model(v: Seq<Sym>) -> Seq<(Seq<char>, int, int)> {
    v.map_values(|s: Sym| sym_model(s))
}

/// The text of the symbol a merge produces: the right side loses the
/// continuation prefix it carried.
pub open spec fn merged_val(a: Seq<char>, b: Seq<char>, prefix: Seq<char>) -> Seq<char> {
    if prefix.len() > 0 && b.len() >= prefix.len() && b.take(prefix.len() as int) == prefix {
        a + b.skip(prefix.len() as int)
    } else {
        a + b
    }
}

/// The symbol text of character `i` of a word of length `n`.
pub open spec fn sym_val_at(word: Seq<char>, i: int, prefix: Seq<char>, suffix: Seq<char>) -> Seq<char> {
    let core = if i > 0 { prefix + seq![word[i]] } else { seq![word[i]] };
    if i == word.len() - 1 { core + suffix } else { core }
}

/// The initial symbol list of a word: one symbol per character, continuation
/// prefix on all but the first, end-of-word suffix on the last.
pub open spec fn spec_symbols(word: Seq<char>, prefix: Seq<char>, suffix: Seq<char>) -> Seq<(Seq<char>, int, int)> {
    Seq::new(word.len(), |i: int| (sym_val_at(word, i, prefix, suffix), i, i + 1))
}

/// The rank of a pair: the first merge-table index holding it.
pub open spec fn rank_from(ms: Seq<(Vec<char>, Vec<char>)>, a: Seq<char>, b: Seq<char>, i: int) -> Option<int>
    decreases ms.len() - i,
{
    if i < 0 || i >= ms.len() {
        None
    } else if ms[i].0@ == a && ms[i].1@ == b {
        Some(i)
    } else {
        rank_from(ms, a, b, i + 1)
    }
}

/// The best merge present in the symbol list, folded left to right: lowest
/// rank wins, the leftmost position on ties.
pub open spec fn best_fold(
    syms: Seq<(Seq<char>, int, int)>,
    ms: Seq<(Vec<char>, Vec<char>)>,
    i: int,
    acc: Option<(int, int)>,
) -> Option<(int, int)>
    decreases syms.len() - i,
{
    if i < 0 || i + 1 >= syms.len() {
        acc
    } else {
        let r = rank_from(ms, syms[i].0, syms[i + 1].0, 0);
        let acc2 = match (acc, r) {
            (_, None) => acc,
            (None, Some(rk)) => Some((i, rk)),
            (Some(a0), Some(rk)) => if rk < a0.1 { Some((i, rk)) } else { acc },
        };
        best_fold(syms, ms, i + 1, acc2)
    }
}

pub open spec fn spec_best(syms: Seq<(Seq<char>, int, int)>, ms: Seq<(Vec<char>, Vec<char>)>) -> Option<(int, int)> {
    best_fold(syms, ms, 0, None)
}

/// The symbol list after merging the pair at `i`.
pub open spec fn merge_at(syms: Seq<(Seq<char>, int, int)>, i: int, v: Seq<char>) -> Seq<(Seq<char>, int, int)> {
    syms.take(i) + seq![(v, syms[i].1, syms[i + 1].2)] + syms.skip(i + 2)
}

/// Exhaustive merging: repeat the best present merge until none is left.
pub open spec fn spec_merge_all(
    syms: Seq<(Seq<char>, int, int)>,
    ms: Seq<(Vec<char>, Vec<char>)>,
    prefix: Seq<char>,
) -> Seq<(Seq<char>, int, int)>
    decreases syms.len(),
{
    match spec_best(syms, ms) {
        Some((i, rk)) => if 0 <= i && i + 1 < syms.len() {
            spec_merge_all(merge_at(syms, i, merged_val(syms[i].0, syms[i + 1].0, prefix)), ms, prefix)
        } else {
            syms
        },
        None => syms,
    }
}

/// How many symbols at the head of the list are out of vocabulary.
pub open spec fn unk_run(vocab: Vocab, syms: Seq<(Seq<char>, int, int)>) -> int
    decreases syms.len(),
{
    if syms.len() == 0 || vocab.spec_token_to_id(syms[0].0) is Some {
        0
    } else {
        1 + unk_run(vocab, syms.drop_first())
    }
}

pub proof fn lemma_unk_run_bounds(vocab: Vocab, syms: Seq<(Seq<char>, int, int)>)
    ensures
        0 <= unk_run(vocab, syms) <= syms.len(),
    decreases syms.len(),
{
    if !(syms.len() == 0 || vocab.spec_token_to_id(syms[0].0) is Some) {
        lemma_unk_run_bounds(vocab, syms.drop_first());
    }
}

/// Final symbols to tokens: known symbols take their id, unknown ones the
/// unknown token's id (runs fused into one token when `fuse_unk` is set);
/// `None` when an unknown symbol has no unknown token to fall back to.
pub open spec fn spec_map_ids(
    vocab: Vocab,
    unk: Option<String>,
    fuse: bool,
    syms: Seq<(Seq<char>, int, int)>,
) -> Option<Seq<(u32, Seq<char>, int, int)>>
    decreases syms.len(),
{
    if syms.len() == 0 {
        Some(Seq::<(u32, Seq<char>, int, int)>::empty())
    } else {
        match vocab.spec_token_to_id(syms[0].0) {
            Some(id) => match spec_map_ids(vocab, unk, fuse, syms.drop_first()) {
                Some(rest) => Some(seq![(id, syms[0].0, syms[0].1, syms[0].2)] + rest),
                None => None,
            },
            None => match unk {
                Some(u) => match vocab.spec_token_to_id(u@) {
                    Some(uid) => {
                        let k = if fuse { unk_run(vocab, syms) } else { 1 };
                        if 1 <= k <= syms.len() {
                            match spec_map_ids(vocab, unk, fuse, syms.skip(k)) {
                                Some(rest) => Some(
                                    seq![(uid, u@, syms[0].1, syms[k - 1].2)] + rest,
                                ),
                                None => None,
                            }
                        } else {
                            None
                        }
                    },
                    None => None,
                },
                None => None,
            },
        }
    }
}

/// Every merge rule of an input list speaks of symbols the entry table
/// holds, and produces one.
pub open spec fn spec_merges_admissible(entries: Seq<(String, u32)>, ms: Seq<(String, String)>, prefix: Seq<char>) -> bool {
    forall|i: int| 0 <= i < ms.len() ==> {
        &&& crate::vocab::spec_lookup_id(entries, (#[trigger] ms[i]).0@) is Some
        &&& crate::vocab::spec_lookup_id(entries, ms[i].1@) is Some
        &&& crate::vocab::spec_lookup_id(entries, merged_val(ms[i].0@, ms[i].1@, prefix)) is Some
    }
}

/// Every merge speaks of symbols the vocabulary holds, and produces one.
pub open spec fn spec_merges_closed(ms: Seq<(Vec<char>, Vec<char>)>, vocab: Vocab, prefix: Seq<char>) -> bool {
    forall|i: int| 0 <= i < ms.len() ==> {
        &&& vocab.spec_token_to_id((#[trigger] ms[i]).0@) is Some
        &&& vocab.spec_token_to_id(ms[i].1@) is Some
        &&& vocab.spec_token_to_id(merged_val(ms[i].0@, ms[i].1@, prefix)) is Some
    }
}

/// Byte-pair encoding model.
#[derive(Debug)]
pub struct BPE {
    pub vocab: Vocab,
    pub merges: Vec<(Vec<char>, Vec<char>)>,
    pub unk_token: Option<String>,
    pub continuing_subword_prefix: Option<String>,
    pub end_of_word_suffix: Option<String>,
    pub fuse_unk: bool,
    pub cache: Vec<(String, Vec<Token>)>,
    pub cache_capacity: usize,
}

impl BPE {
    /// The continuation prefix as text.
    pub open spec fn pfx(self) -> Seq<char> {
        match self.continuing_subword_prefix {
            Some(p) => p@,
            None => Seq::<char>::empty(),
        }
    }

    /// The end-of-word suffix as text.
    pub open spec fn sfx(self) -> Seq<char> {
        match self.end_of_word_suffix {
            Some(s) => s@,
            None => Seq::<char>::empty(),
        }
    }

    /// What tokenization returns for a word. It reads the vocabulary, the
    /// merge table and the configuration, never the cache.
    pub open spec fn spec_tokenize(self, word: Seq<char>) -> Option<Seq<(u32, Seq<char>, int, int)>> {
        spec_map_ids(
            self.vocab,
            self.unk_token,
            self.fuse_unk,
            spec_merge_all(spec_symbols(word, self.pfx(), self.sfx()), self.merges@, self.pfx()),
        )
    }

    /// Every cache entry holds exactly what tokenization computes.
    pub open spec fn cache_ok(self) -> bool {
        forall|i: int| 0 <= i < self.cache@.len() ==> {
            &&& self.spec_tokenize((#[trigger] self.cache@[i]).0@) is Some
            &&& tokens_match(self.cache@[i].1@, self.spec_tokenize(self.cache@[i].0@)->Some_0)
        }
    }

    pub open spec fn wf(self) -> bool {
        &&& self.vocab.wf()
        &&& spec_merges_closed(self.merges@, self.vocab, self.pfx())
        &&& self.cache_ok()
    }

    /// The same model with another cache: tokenization agrees. The two
    /// configurations differ only in what is memoized, so the outcome is
    /// pinned by the tables and the word alone.
    pub proof fn lemma_cache_transparent(m1: BPE, m2: BPE, word: Seq<char>)
        requires
            m1.vocab == m2.vocab,
            m1.merges@ == m2.merges@,
            m1.unk_token == m2.unk_token,
            m1.continuing_subword_prefix == m2.continuing_subword_prefix,
            m1.end_of_word_suffix == m2.end_of_word_suffix,
            m1.fuse_unk == m2.fuse_unk,
        ensures
            m1.spec_tokenize(word) == m2.spec_tokenize(word),
    {
    }

    /// Builds the model: the vocabulary must be duplicate-free and every
    /// merge rule must speak of vocabulary symbols and produce one.
    pub fn new_checked(
        entries: Vec<(String, u32)>,
        merges_in: Vec<(String, String)>,
        unk_token: Option<String>,
        continuing_subword_prefix: Option<String>,
        end_of_word_suffix: Option<String>,
        fuse_unk: bool,
        cache_capacity: usize,
    ) -> (r: Result<BPE, ModelError>)
        ensures
            match r {
                Ok(m) => m.wf() && m.vocab.entries@ == entries@
                    && m.unk_token == unk_token
                    && m.continuing_subword_prefix == continuing_subword_prefix
                    && m.end_of_word_suffix == end_of_word_suffix
                    && m.fuse_unk == fuse_unk
                    && m.cache_capacity == cache_capacity
                    && m.cache@.len() == 0
                    && m.merges@.len() == merges_in@.len()
                    && (forall|i: int| 0 <= i < merges_in@.len() ==>
                        (#[trigger] m.merges@[i]).0@ == merges_in@[i].0@
                        && m.merges@[i].1@ == merges_in@[i].1@),
                Err(e) => e == ModelError::Construction,
            },
            r is Err <==> !(crate::vocab::spec_entries_distinct(entries@)
                && spec_merges_admissible(entries@, merges_in@, (match continuing_subword_prefix {
                    Some(p) => p@,
                    None => Seq::<char>::empty(),
                }))),
    {
        let vocab = match Vocab::new_checked(entries) {
            Ok(v) => v,
            Err(e) => {
                return Err(e);
            },
        };
        let pfx_chars: Vec<char> = match &continuing_subword_prefix {
            Some(p) => chars_of_str(p.as_str()),
            None => Vec::new(),
        };
        let mut merges: Vec<(Vec<char>, Vec<char>)> = Vec::new();
        let n = merges_in.len();
        for i in 0..n
            invariant
                n == merges_in@.len(),
                vocab.wf(),
                vocab.entries@ == entries@,
                pfx_chars@ == (match continuing_subword_prefix {
                    Some(p) => p@,
                    None => Seq::<char>::empty(),
                }),
                merges@.len() == i,
                forall|q: int| 0 <= q < i ==> (#[trigger] merges@[q]).0@ == merges_in@[q].0@
                    && merges@[q].1@ == merges_in@[q].1@,
                spec_merges_closed(merges@, vocab, pfx_chars@),
                forall|q: int| 0 <= q < i ==> {
                    &&& crate::vocab::spec_lookup_id(entries@, (#[trigger] merges_in@[q]).0@) is Some
                    &&& crate::vocab::spec_lookup_id(entries@, merges_in@[q].1@) is Some
                    &&& crate::vocab::spec_lookup_id(entries@,
                        merged_val(merges_in@[q].0@, merges_in@[q].1@, pfx_chars@)) is Some
                },
        {
            let a = chars_of_str(merges_in[i].0.as_str());
            let b = chars_of_str(merges_in[i].1.as_str());
            let sa = string_from_chars(&a);
            if vocab.token_to_id(&sa).is_none() {
                proof {
                    assert(crate::vocab::spec_lookup_id(entries@, merges_in@[i as int].0@) is None);
                }
                return Err(ModelError::Construction);
            }
            let sb = string_from_chars(&b);
            if vocab.token_to_id(&sb).is_none() {
                proof {
                    assert(crate::vocab::spec_lookup_id(entries@, merges_in@[i as int].1@) is None);
                }
                return Err(ModelError::Construction);
            }
            let mv = merged_chars(&a, &b, &pfx_chars);
            let sm = string_from_chars(&mv);
            if vocab.token_to_id(&sm).is_none() {
                proof {
                    assert(crate::vocab::spec_lookup_id(entries@, merged_val(
                        merges_in@[i as int].0@, merges_in@[i as int].1@, pfx_chars@)) is None);
                }
                return Err(ModelError::Construction);
            }
            merges.push((a, b));
        }
        Ok(BPE {
            vocab,
            merges,
            unk_token,
            continuing_subword_prefix,
            end_of_word_suffix,
            fuse_unk,
            cache: Vec::new(),
            cache_capacity,
        })
    }

    /// The rank of an adjacent pair, if the merge table holds it.
    fn rank_of(&self, a: &Vec<char>, b: &Vec<char>) -> (r: Option<usize>)
        ensures
            match r {
                Some(rk) => rank_from(self.merges@, a@, b@, 0) == Some(rk as int),
                None => rank_from(self.merges@, a@, b@, 0) is None,
            },
    {
        let n = self.merges.len();
        for i in 0..n
            invariant
                n == self.merges@.len(),
                rank_from(self.merges@, a@, b@, 0) == rank_from(self.merges@, a@, b@, i as int),
        {
            if eq_chars(&self.merges[i].0, a) && eq_chars(&self.merges[i].1, b) {
                return Some(i);
            }
        }
        None
    }

    /// The lowest-rank pair present in the symbol list, leftmost on ties.
    fn find_best(&self, syms: &Vec<Sym>) -> (r: Option<(usize, usize)>)
        ensures
            match r {
                Some(p) => spec_best(syms_model(syms@), self.merges@) == Some((p.0 as int, p.1 as int))
                    && p.0 + 1 < syms@.len(),
                None => spec_best(syms_model(syms@), self.merges@) is None,
            },
    {
        let n = syms.len();
        if n < 1 {
            return None;
        }
        let mut acc: Option<(usize, usize)> = None;
        for i in 0..(n - 1)
            invariant
                n == syms@.len(),
                n >= 1,
                (match acc {
                    Some(p) => best_fold(syms_model(syms@), self.merges@, 0, None)
                        == best_fold(syms_model(syms@), self.merges@, i as int,
                            Some((p.0 as int, p.1 as int))) && p.0 + 1 < n,
                    None => best_fold(syms_model(syms@), self.merges@, 0, None)
                        == best_fold(syms_model(syms@), self.merges@, i as int, None),
                }),
        {
            proof {
                assert(syms_model(syms@)[i as int] == sym_model(syms@[i as int]));
                assert(syms_model(syms@)[i + 1] == sym_model(syms@[i + 1]));
            }
            let r = self.rank_of(&syms[i].val, &syms[i + 1].val);
            match (acc, r) {
                (_, None) => {},
                (None, Some(rk)) => {
                    acc = Some((i, rk));
                },
                (Some(a0), Some(rk)) => {
                    if rk < a0.1 {
                        acc = Some((i, rk));
                    }
                },
            }
        }
        acc
    }

    /// Merging until no table pair remains, tracking character spans.
    #[verifier::loop_isolation(false)]
    fn merge_all(&self, syms: Vec<Sym>) -> (r: Vec<Sym>)
        ensures
            syms_model(r@) == spec_merge_all(syms_model(syms@), self.merges@, self.pfx()),
    {
        let mut cur = syms;
        let ghost goal = spec_merge_all(syms_model(cur@), self.merges@, self.pfx());
        let pfx_chars: Vec<char> = match &self.continuing_subword_prefix {
            Some(p) => chars_of_str(p.as_str()),
            None => Vec::new(),
        };
        loop
            invariant
                pfx_chars@ == self.pfx(),
                spec_merge_all(syms_model(cur@), self.merges@, self.pfx()) == goal,
            decreases cur@.len(),
        {
            match self.find_best(&cur) {
                Some((i, _rk)) => {
                    let n_cur = cur.len();
                    proof {
                        assert(i + 1 < n_cur);
                        assert(syms_model(cur@)[i as int] == sym_model(cur@[i as int]));
                        assert(syms_model(cur@)[i + 1] == sym_model(cur@[i + 1]));
                    }
                    let mv = merged_chars(&cur[i].val, &cur[i + 1].val, &pfx_chars);
                    let ns = Sym { val: mv, start: cur[i].start, end: cur[i + 1].end };
                    let ghost before = syms_model(cur@);
                    cur.set(i, ns);
                    let _removed = cur.remove(i + 1);
                    proof {
                        assert(syms_model(cur@) =~= merge_at(before, i as int,
                            merged_val(before[i as int].0, before[i + 1].0, self.pfx())));
                    }
                },
                None => {
                    return cur;
                },
            }
        }
    }

    /// The starting symbols of a word.
    fn build_symbols(&self, wchars: &Vec<char>) -> (r: Vec<Sym>)
        ensures
            syms_model(r@) == spec_symbols(wchars@, self.pfx(), self.sfx()),
    {
        let n = wchars.len();
        let pfx_chars: Vec<char> = match &self.continuing_subword_prefix {
            Some(p) => chars_of_str(p.as_str()),
            None => Vec::new(),
        };
        let sfx_chars: Vec<char> = match &self.end_of_word_suffix {
            Some(s) => chars_of_str(s.as_str()),
            None => Vec::new(),
        };
        let mut out: Vec<Sym> = Vec::new();
        for i in 0..n
            invariant
                n == wchars@.len(),
                pfx_chars@ == self.pfx(),
                sfx_chars@ == self.sfx(),
                out@.len() == i,
                syms_model(out@) =~= spec_symbols(wchars@, self.pfx(), self.sfx()).take(i as int),
        {
            let mut v: Vec<char> = Vec::new();
            if i > 0 {
                let mut j: usize = 0;
                while j < pfx_chars.len()
                    invariant
                        j <= pfx_chars@.len(),
                        v@ =~= pfx_chars@.take(j as int),
                    decreases pfx_chars@.len() - j,
                {
                    v.push(pfx_chars[j]);
                    j += 1;
                }
                proof {
                    assert(pfx_chars@.take(pfx_chars@.len() as int) =~= pfx_chars@);
                }
            }
            v.push(wchars[i]);
            if i == n - 1 {
                let ghost base = v@;
                let mut j: usize = 0;
                while j < sfx_chars.len()
                    invariant
                        j <= sfx_chars@.len(),
                        v@ =~= base + sfx_chars@.take(j as int),
                    decreases sfx_chars@.len() - j,
                {
                    v.push(sfx_chars[j]);
                    proof {
                        assert(base + sfx_chars@.take(j as int) + seq![sfx_chars@[j as int]]
                            =~= base + sfx_chars@.take(j + 1));
                    }
                    j += 1;
                }
                proof {
                    assert(sfx_chars@.take(sfx_chars@.len() as int) =~= sfx_chars@);
                }
            }
            proof {
                assert(v@ =~= sym_val_at(wchars@, i as int, self.pfx(), self.sfx()));
            }
            out.push(Sym { val: v, start: i, end: i + 1 });
            proof {
                assert(syms_model(out@)
                    =~= spec_symbols(wchars@, self.pfx(), self.sfx()).take(i + 1));
            }
        }
        proof {
            assert(spec_symbols(wchars@, self.pfx(), self.sfx()).take(n as int)
                =~= spec_symbols(wchars@, self.pfx(), self.sfx()));
        }
        out
    }

    /// The end of the unknown-symbol span starting at `p`: the whole run
    /// when unknown symbols fuse, one symbol otherwise.
    #[verifier::loop_isolation(false)]
    fn unk_span(&self, syms: &Vec<Sym>, p: usize) -> (q: usize)
        requires
            self.wf(),
            p < syms@.len(),
            self.vocab.spec_token_to_id(syms_model(syms@)[p as int].0) is None,
        ensures
            p < q <= syms@.len(),
            self.fuse_unk ==> unk_run(self.vocab, syms_model(syms@).skip(p as int)) == q - p,
            !self.fuse_unk ==> q == p + 1,
    {
        let ghost model = syms_model(syms@);
        let n = syms.len();
        if !self.fuse_unk {
            return p + 1;
        }
        proof {
            assert(model.skip(p as int)[0] == model[p as int]);
            assert(model.skip(p as int).drop_first() =~= model.skip(p + 1));
        }
        let mut q = p + 1;
        while q < n
            invariant
                p < q <= n,
                unk_run(self.vocab, model.skip(p as int))
                    == (q - p) + unk_run(self.vocab, model.skip(q as int)),
            decreases n - q,
        {
            proof {
                assert(model.skip(q as int)[0] == sym_model(syms@[q as int]));
                assert(model.skip(q as int).drop_first() =~= model.skip(q + 1));
            }
            let qv = string_from_chars(&syms[q].val);
            if self.vocab.token_to_id(&qv).is_some() {
                proof {
                    assert(unk_run(self.vocab, model.skip(q as int)) == 0);
                }
                return q;
            }
            q += 1;
        }
        proof {
            assert(model.skip(n as int) =~= Seq::<(Seq<char>, int, int)>::empty());
            assert(unk_run(self.vocab, model.skip(n as int)) == 0);
        }
        q
    }

    /// Final symbols to tokens, with the unknown-token fallback and fusing.
    #[verifier::loop_isolation(false)]
    fn map_ids(&self, syms: &Vec<Sym>) -> (r: Result<Vec<Token>, ModelError>)
        requires
            self.wf(),
        ensures
            match r {
                Ok(ts) => spec_map_ids(self.vocab, self.unk_token, self.fuse_unk, syms_model(syms@)) is Some
                    && tokens_match(ts@,
                        spec_map_ids(self.vocab, self.unk_token, self.fuse_unk, syms_model(syms@))->Some_0),
                Err(e) => e == ModelError::MissingUnkToken
                    && spec_map_ids(self.vocab, self.unk_token, self.fuse_unk, syms_model(syms@)) is None,
            },
    {
        let n = syms.len();
        let ghost model = syms_model(syms@);
        let mut out: Vec<Token> = Vec::new();
        let ghost mut done: Seq<(u32, Seq<char>, int, int)> = Seq::empty();
        let mut p: usize = 0;
        proof {
            assert(model.skip(0) =~= model);
        }
        while p < n
            invariant
                self.wf(),
                n == syms@.len(),
                model == syms_model(syms@),
                p <= n,
                (match spec_map_ids(self.vocab, self.unk_token, self.fuse_unk, model.skip(p as int)) {
                    Some(rest) => spec_map_ids(self.vocab, self.unk_token, self.fuse_unk, model)
                        == Some(done + rest),
                    None => spec_map_ids(self.vocab, self.unk_token, self.fuse_unk, model) is None,
                }),
                out@.len() == done.len(),
                forall|q: int| 0 <= q < out@.len() ==> (#[trigger] out@[q]).id == done[q].0
                    && out@[q].value@ == done[q].1 && out@[q].offsets.0 == done[q].2
                    && out@[q].offsets.1 == done[q].3,
            decreases n - p,
        {
            proof {
                assert(model.skip(p as int)[0] == sym_model(syms@[p as int]));
            }
            let sv = string_from_chars(&syms[p].val);
            match self.vocab.token_to_id(&sv) {
                Some(id) => {
                    out.push(Token::new(id, sv, syms[p].start, syms[p].end));
                    proof {
                        let x = (id, model[p as int].0, model[p as int].1, model[p as int].2);
                        assert(model.skip(p as int).drop_first() =~= model.skip(p + 1));
                        if spec_map_ids(self.vocab, self.unk_token, self.fuse_unk, model.skip(p + 1)) is Some {
                            let rest = spec_map_ids(self.vocab, self.unk_token, self.fuse_unk,
                                model.skip(p + 1))->Some_0;
                            assert(done + (seq![x] + rest) =~= (done + seq![x]) + rest);
                        }
                        done = done + seq![x];
                    }
                    p += 1;
                },
                None => {
                    match &self.unk_token {
                        None => {
                            return Err(ModelError::MissingUnkToken);
                        },
                        Some(u) => {
                            let uid = match self.vocab.token_to_id(u) {
                                Some(uid) => uid,
                                None => {
                                    return Err(ModelError::MissingUnkToken);
                                },
                            };
                            let q = self.unk_span(syms, p);
                            let ghost k = q - p;
                            proof {
                                if self.fuse_unk {
                                    assert(unk_run(self.vocab, model.skip(p as int)) == k);
                                }
                            }
                            out.push(Token::new(uid, u.clone(), syms[p].start, syms[q - 1].end));
                            proof {
                                let ghost sk = model.skip(p as int);
                                assert(sk[k - 1] == sym_model(syms@[q - 1]));
                                assert(model.skip(p as int).skip(k as int) =~= model.skip(q as int));
                                let x = (uid, u@, sk[0].1, sk[k - 1].2);
                                if spec_map_ids(self.vocab, self.unk_token, self.fuse_unk,
                                    model.skip(q as int)) is Some {
                                    let rest = spec_map_ids(self.vocab, self.unk_token,
                                        self.fuse_unk, model.skip(q as int))->Some_0;
                                    assert(done + (seq![x] + rest) =~= (done + seq![x]) + rest);
                                }
                                done = done + seq![x];
                            }
                            p = q;
                        },
                    }
                },
            }
        }
        proof {
            assert(model.skip(n as int) =~= Seq::<(Seq<char>, int, int)>::empty());
            assert(done + Seq::<(u32, Seq<char>, int, int)>::empty() =~= done);
        }
        Ok(out)
    }

    /// Tokenizes a word, reading the cache but never writing it. The
    /// result is exactly `spec_tokenize`, whatever the cache holds.
    pub fn tokenize(&self, word: &String) -> (r: Result<Vec<Token>, ModelError>)
        requires
            self.wf(),
        ensures
            match r {
                Ok(ts) => self.spec_tokenize(word@) is Some
                    && tokens_match(ts@, self.spec_tokenize(word@)->Some_0),
                Err(e) => e == ModelError::MissingUnkToken && self.spec_tokenize(word@) is None,
            },
    {
        if let Some(ts) = self.cache_get(word) {
            return Ok(ts);
        }
        self.compute(word)
    }

    /// Tokenizes without the cache.
    fn compute(&self, word: &String) -> (r: Result<Vec<Token>, ModelError>)
        requires
            self.wf(),
        ensures
            match r {
                Ok(ts) => self.spec_tokenize(word@) is Some
                    && tokens_match(ts@, self.spec_tokenize(word@)->Some_0),
                Err(e) => e == ModelError::MissingUnkToken && self.spec_tokenize(word@) is None,
            },
    {
        let wchars = chars_of_str(word.as_str());
        let syms = self.build_symbols(&wchars);
        let merged = self.merge_all(syms);
        self.map_ids(&merged)
    }

    /// The cached result of a word, if the cache holds the word.
    fn cache_get(&self, word: &String) -> (r: Option<Vec<Token>>)
        requires
            self.wf(),
        ensures
            match r {
                Some(ts) => self.spec_tokenize(word@) is Some
                    && tokens_match(ts@, self.spec_tokenize(word@)->Some_0),
                None => true,
            },
    {
        let n = self.cache.len();
        for i in 0..n
            invariant
                self.wf(),
                n == self.cache@.len(),
        {
            if self.cache[i].0 == *word {
                return Some(copy_tokens(&self.cache[i].1));
            }
        }
        None
    }

    /// Tokenizes and memoizes the result, evicting the stalest entry when
    /// the cache is full. The tokens returned are the same as `tokenize`
    /// gives: the cache only trades time.
    pub fn tokenize_and_cache(&mut self, word: &String) -> (r: Result<Vec<Token>, ModelError>)
        requires
            old(self).wf(),
        ensures
            final(self).wf(),
            final(self).vocab == old(self).vocab,
            final(self).merges == old(self).merges,
            final(self).unk_token == old(self).unk_token,
            final(self).continuing_subword_prefix == old(self).continuing_subword_prefix,
            final(self).end_of_word_suffix == old(self).end_of_word_suffix,
            final(self).fuse_unk == old(self).fuse_unk,
            final(self).cache_capacity == old(self).cache_capacity,
            match r {
                Ok(ts) => old(self).spec_tokenize(word@) is Some
                    && tokens_match(ts@, old(self).spec_tokenize(word@)->Some_0),
                Err(e) => e == ModelError::MissingUnkToken
                    && old(self).spec_tokenize(word@) is None,
            },
    {
        let computed = match self.tokenize(word) {
            Ok(ts) => ts,
            Err(e) => {
                return Err(e);
            },
        };
        if self.cache_capacity > 0 {
            if self.cache.len() >= self.cache_capacity {
                let _evicted = self.cache.remove(0);
            }
            let stored = copy_tokens(&computed);
            self.cache.push((word.clone(), stored));
        }
        Ok(computed)
    }

    pub fn token_to_id(&self, token: &String) -> (r: Option<u32>)
        ensures
            r == self.vocab.spec_token_to_id(token@),
    {
        self.vocab.token_to_id(token)
    }

    pub fn id_to_token(&self, id: u32) -> (r: Option<String>)
        ensures
            match r {
                Some(s) => self.vocab.spec_id_to_token(id) == Some(s@),
                None => self.vocab.spec_id_to_token(id) is None,
            },
    {
        self.vocab.id_to_token(id)
    }
}

/// The merged text of two symbols under a continuation prefix.
fn merged_chars(a: &Vec<char>, b: &Vec<char>, prefix: &Vec<char>) -> (r: Vec<char>)
    ensures
        r@ == merged_val(a@, b@, prefix@),
{
    let mut out = copy_chars(a);
    let from: usize = if prefix.len() > 0 && starts_with_chars(b, prefix) {
        prefix.len()
    } else {
        0
    };
    let ghost base = out@;
    let n = b.len();
    let mut j = from;
    while j < n
        invariant
            from <= j <= n,
            n == b@.len(),
            out@ =~= base + b@.subrange(from as int, j as int),
        decreases n - j,
    {
        out.push(b[j]);
        proof {
            assert(base + b@.subrange(from as int, j as int) + seq![b@[j as int]]
                =~= base + b@.subrange(from as int, j + 1));
        }
        j += 1;
    }
    proof {
        if prefix@.len() > 0 && b@.len() >= prefix@.len() && b@.take(prefix@.len() as int) == prefix@ {
            assert(b@.subrange(prefix@.len() as int, b@.len() as int) =~= b@.skip(prefix@.len() as int));
            assert(out@ =~= merged_val(a@, b@, prefix@));
        } else {
            assert(b@.subrange(0, b@.len() as int) =~= b@);
            assert(out@ =~= merged_val(a@, b@, prefix@));
        }
    }
    out
}

/// An equal copy of a token list.
pub fn copy_tokens(ts: &Vec<Token>) -> (r: Vec<Token>)
    ensures
        r@ == ts@,
{
    let mut out: Vec<Token> = Vec::new();
    let n = ts.len();
    for i in 0..n
        invariant
            n == ts@.len(),
            out@ =~= ts@.take(i as int),
    {
        out.push(ts[i].duplicate());
    }
    proof {
        assert(ts@.take(n as int) =~= ts@);
    }
    out
}

} // verus!
