//! A text buffer that keeps the original input alongside the normalized
//! text, with one original-range per normalized character. Every rewrite
//! goes through `apply_edits`, which keeps the correspondence table
//! well-formed: ranges stay inside the original, never move backwards, and
//! always cover the whole input from the first to the last character.

use vstd::prelude::*;
use crate::edits::{Edit, edits_take_sum, edits_output, lemma_take_sum_prefix_bound,
    lemma_output_prefix_step, lemma_take_sum_nonneg};
use crate::chars::{push_char, chars_of_str, string_from_chars};

verus! {

/// Every range is ordered and inside the original text.
pub open spec fn ranges_valid(al: Seq<(usize, usize)>, olen: int) -> bool {
    forall|q: int| 0 <= q < al.len() ==> (#[trigger] al[q]).0 <= al[q].1 <= olen
}

/// Neighbouring ranges never move backwards, in start nor in end.
pub open spec fn ranges_monotone(al: Seq<(usize, usize)>) -> bool {
    forall|q: int|
        0 <= q && q + 1 < al.len() ==> (#[trigger] al[q]).0 <= al[q + 1].0 && al[q].1 <= al[q + 1].1
}

/// A non-empty table starts at the first original character and ends at
/// the last: nothing of the input escapes the correspondence.
pub open spec fn ranges_cover(al: Seq<(usize, usize)>, olen: int) -> bool {
    al.len() > 0 ==> al[0].0 == 0 && al[al.len() - 1].1 == olen
}

/// Monotonicity carries over any distance, not only to the neighbour.
pub proof fn lemma_monotone_chain(al: Seq<(usize, usize)>, i: int, j: int)
    requires
        ranges_monotone(al),
        0 <= i <= j < al.len(),
    ensures
        al[i].0 <= al[j].0,
        al[i].1 <= al[j].1,
    decreases j - i,
{
    if i < j {
        lemma_monotone_chain(al, i, j - 1);
    }
}

/// A text under normalization: the untouched original, the current
/// normalized text, and one original-range per normalized character.
#[derive(Debug)]
pub struct NormalizedString {
    pub original: Vec<char>,
    pub normalized: Vec<char>,
    pub alignments: Vec<(usize, usize)>,
}

impl NormalizedString {
    /// The correspondence table is complete, ordered and covering.
    pub open spec fn wf(self) -> bool {
        &&& self.alignments@.len() == self.normalized@.len()
        &&& ranges_valid(self.alignments@, self.original@.len() as int)
        &&& ranges_monotone(self.alignments@)
        &&& ranges_cover(self.alignments@, self.original@.len() as int)
    }

    /// The normalized text, as a string.
    pub fn get(&self) -> (r: String)
        ensures
            r@ == self.normalized@,
    {
        string_from_chars(&self.normalized)
    }

    /// The original text, as a string.
    pub fn get_original_str(&self) -> (r: String)
        ensures
            r@ == self.original@,
    {
        string_from_chars(&self.original)
    }

    /// The whole normalized text as a character range.
    pub fn full_range(&self) -> (r: (usize, usize))
        ensures
            r == (0usize, self.normalized@.len() as usize),
    {
        (0, self.normalized.len())
    }

    /// The original-text range a normalized range derives from. The whole
    /// normalized text always maps back to the whole original.
    pub fn original_range_for(&self, range: (usize, usize)) -> (r: (usize, usize))
        requires
            self.wf(),
            range.0 <= range.1 <= self.normalized@.len(),
        ensures
            r.0 <= r.1 <= self.original@.len(),
            range.0 < range.1 ==> r == (
                self.alignments@[range.0 as int].0,
                self.alignments@[range.1 - 1].1,
            ),
            range.0 == 0 && range.1 == self.normalized@.len() ==> r == (
                0usize,
                self.original@.len() as usize,
            ),
    {
        if range.0 < range.1 {
            let s = self.alignments[range.0].0;
            let e = self.alignments[range.1 - 1].1;
            proof {
                lemma_monotone_chain(self.alignments@, range.0 as int, range.1 - 1);
            }
            (s, e)
        } else if self.normalized.len() == 0 {
            (0, self.original.len())
        } else if range.0 < self.normalized.len() {
            let s = self.alignments[range.0].0;
            (s, s)
        } else {
            (self.original.len(), self.original.len())
        }
    }

    /// Applies an edit stream that consumes exactly the current normalized
    /// text, rewriting the text and the correspondence table together.
    #[verifier::rlimit(100)]
    pub fn apply_edits(&mut self, edits: &Vec<Edit>)
        requires
            old(self).wf(),
            edits_take_sum(edits@) == old(self).normalized@.len(),
        ensures
            final(self).wf(),
            final(self).original@ == old(self).original@,
            final(self).normalized@ == edits_output(edits@),
    {
        let olen = self.original.len();
        let oldn = self.normalized.len();
        let m = edits.len();
        let mut out: Vec<char> = Vec::new();
        let mut al: Vec<(usize, usize)> = Vec::new();
        let mut pos: usize = 0;
        let mut has_pend = false;
        let mut pend_s: usize = 0;
        let mut pend_e: usize = 0;
        proof {
            assert(edits@.take(0) =~= Seq::<Edit>::empty());
        }
        for k in 0..m
            invariant
                m == edits@.len(),
                olen == self.original@.len(),
                oldn == self.normalized@.len(),
                self.wf(),
                edits_take_sum(edits@) == oldn,
                al@.len() == out@.len(),
                pos == edits_take_sum(edits@.take(k as int)),
                pos <= oldn,
                out@ == edits_output(edits@.take(k as int)),
                ranges_valid(al@, olen as int),
                ranges_monotone(al@),
                al@.len() > 0 ==> al@[0].0 == 0,
                has_pend ==> pend_s <= pend_e <= olen,
                has_pend ==> pos > 0 && pend_e == self.alignments@[pos - 1].1,
                has_pend && al@.len() > 0 ==> al@[al@.len() - 1].0 <= pend_s
                    && al@[al@.len() - 1].1 <= pend_e,
                has_pend && al@.len() == 0 ==> pend_s == 0,
                !has_pend && al@.len() > 0 && pos > 0 ==> al@[al@.len() - 1].1
                    == self.alignments@[pos - 1].1,
                pos > 0 ==> al@.len() > 0 || has_pend,
                pos < oldn && al@.len() > 0 ==> al@[al@.len() - 1].0 <= self.alignments@[pos as int].0
                    && al@[al@.len() - 1].1 <= self.alignments@[pos as int].1,
                pos < oldn && has_pend ==> pend_s <= self.alignments@[pos as int].0
                    && pend_e <= self.alignments@[pos as int].1,
                oldn == 0 && al@.len() > 0 ==> al@[al@.len() - 1].1 == olen,
        {
            proof {
                lemma_take_sum_prefix_bound(edits@, k as int);
                lemma_output_prefix_step(edits@, k as int);
            }
            let e = &edits[k];
            if e.take > 0 {
                proof {
                    lemma_monotone_chain(self.alignments@, pos as int, pos + e.take - 1);
                }
                let s0 = self.alignments[pos].0;
                let e0 = self.alignments[pos + e.take - 1].1;
                if e.emit.len() > 0 {
                    let st = if has_pend { pend_s } else { s0 };
                    let ghost al_before = al@;
                    push_emitted(&mut out, &mut al, &e.emit, (st, e0));
                    proof {
                        lemma_appended_block(al_before, al@, e.emit@.len() as int, (st, e0));
                    }
                    has_pend = false;
                } else {
                    if has_pend {
                        pend_e = e0;
                    } else {
                        has_pend = true;
                        pend_s = s0;
                        pend_e = e0;
                    }
                }
                proof {
                    if pos + e.take < oldn {
                        lemma_monotone_chain(self.alignments@, pos + e.take - 1, pos + e.take);
                    }
                }
                pos = pos + e.take;
            } else {
                if e.emit.len() > 0 {
                    let r = if has_pend {
                        (pend_s, pend_e)
                    } else if al.len() > 0 {
                        al[al.len() - 1]
                    } else if oldn == 0 {
                        (0usize, olen)
                    } else {
                        (0usize, 0usize)
                    };
                    let ghost al_before = al@;
                    push_emitted(&mut out, &mut al, &e.emit, r);
                    proof {
                        lemma_appended_block(al_before, al@, e.emit@.len() as int, r);
                    }
                    has_pend = false;
                } else {
                    proof {
                        assert(out@ + e.emit@ =~= out@);
                    }
                }
            }
        }
        proof {
            assert(edits@.take(m as int) =~= edits@);
        }
        if has_pend {
            if al.len() > 0 {
                let last = al.len() - 1;
                let prev = al[last];
                al.set(last, (prev.0, pend_e));
            }
        }
        self.normalized = out;
        self.alignments = al;
    }
}

/// Ranges appended as one block: everything old is kept, everything new
/// equals the block's range.
proof fn lemma_appended_block(
    before: Seq<(usize, usize)>,
    after: Seq<(usize, usize)>,
    n: int,
    r: (usize, usize),
)
    requires
        n >= 0,
        after == before + Seq::new(n as nat, |q: int| r),
    ensures
        after.len() == before.len() + n,
        forall|q: int| 0 <= q < before.len() ==> #[trigger] after[q] == before[q],
        forall|q: int| before.len() <= q < after.len() ==> #[trigger] after[q] == r,
{
}

/// Pushes the emitted characters, each aligned to the same original range.
fn push_emitted(
    out: &mut Vec<char>,
    al: &mut Vec<(usize, usize)>,
    emit: &Vec<char>,
    r: (usize, usize),
)
    ensures
        final(out)@ == old(out)@ + emit@,
        final(al)@ == old(al)@ + Seq::new(emit@.len(), |q: int| r),
{
    let n = emit.len();
    for t in 0..n
        invariant
            n == emit@.len(),
            out@ =~= old(out)@ + emit@.take(t as int),
            al@ =~= old(al)@ + Seq::new(t as nat, |q: int| r),
    {
        out.push(emit[t]);
        al.push(r);
        proof {
            assert(old(out)@ + emit@.take(t as int) + seq![emit@[t as int]]
                =~= old(out)@ + emit@.take(t + 1));
            assert(old(al)@ + Seq::new(t as nat, |q: int| r) + seq![r]
                =~= old(al)@ + Seq::new((t + 1) as nat, |q: int| r));
        }
    }
    proof {
        assert(old(out)@ + emit@.take(n as int) =~= old(out)@ + emit@);
    }
}

/// Wraps a fresh text: the normalized side starts equal to the original,
/// each character aligned to itself.
pub fn normalized_string(text: &str) -> (r: NormalizedString)
    ensures
        r.wf(),
        r.original@ == text@,
        r.normalized@ == text@,
        r.alignments@.len() == text@.len(),
        forall|i: int| 0 <= i < text@.len() ==> (#[trigger] r.alignments@[i]).0 == i
            && r.alignments@[i].1 == i + 1,
{
    let chars = chars_of_str(text);
    let n = chars.len();
    let mut al: Vec<(usize, usize)> = Vec::new();
    for i in 0..n
        invariant
            n == chars@.len(),
            al@.len() == i,
            forall|q: int| 0 <= q < i ==> (#[trigger] al@[q]).0 == q && al@[q].1 == q + 1,
    {
        al.push((i, i + 1));
    }
    let original = chars_of_str(text);
    NormalizedString { original, normalized: chars, alignments: al }
}

/// The normalized text of a buffer.
pub fn get_normalized(normalized: &NormalizedString) -> (r: String)
    ensures
        r@ == normalized.normalized@,
{
    normalized.get()
}

/// The original text of a buffer.
pub fn get_original(normalized: &NormalizedString) -> (r: String)
    ensures
        r@ == normalized.original@,
{
    normalized.get_original_str()
}

} // verus!
