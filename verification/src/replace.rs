//! Substring substitution: literal patterns with exact leftmost,
//! non-overlapping semantics; regular-expression patterns through the
//! regex crate, validated before any edit is applied; and precompiled
//! substitution tables applying the longest matching rule at each
//! position.

use vstd::prelude::*;
use crate::edits::{Edit, edits_take_sum, edits_output};
use crate::chars::copy_chars;
use crate::unigram::segment_eq;

verus! {

/// Literal replacement: scan left to right; at a match, emit the
/// replacement and continue after the matched text. The empty pattern
/// matches at every position, so the replacement lands between all
/// characters and at both ends.
pub open spec fn spec_replace_lit(s: Seq<char>, pat: Seq<char>, repl: Seq<char>) -> Seq<char>
    decreases s.len(),
{
    if pat.len() == 0 {
        if s.len() == 0 {
            repl
        } else {
            repl + seq![s[0]] + spec_replace_lit(s.drop_first(), pat, repl)
        }
    } else if s.len() == 0 {
        Seq::<char>::empty()
    } else if 1 <= pat.len() <= s.len() && s.take(pat.len() as int) == pat {
        repl + spec_replace_lit(s.skip(pat.len() as int), pat, repl)
    } else {
        seq![s[0]] + spec_replace_lit(s.drop_first(), pat, repl)
    }
}

/// The edits of a literal replacement over the whole text.
#[verifier::loop_isolation(false)]
pub fn replace_lit_edits(s: &Vec<char>, pat: &Vec<char>, repl: &Vec<char>) -> (r: Vec<Edit>)
    ensures
        edits_take_sum(r@) == s@.len(),
        edits_output(r@) == spec_replace_lit(s@, pat@, repl@),
{
    let n = s.len();
    let m = pat.len();
    let mut out: Vec<Edit> = Vec::new();
    let mut i: usize = 0;
    proof {
        assert(s@.skip(0) =~= s@);
    }
    if m == 0 {
        while i < n
            invariant
                i <= n,
                edits_take_sum(out@) == i,
                edits_output(out@) + spec_replace_lit(s@.skip(i as int), pat@, repl@)
                    == spec_replace_lit(s@, pat@, repl@),
            decreases n - i,
        {
            let ghost tail = s@.skip(i as int);
            let ghost before = out@;
            out.push(Edit::replacing(0, copy_chars(repl)));
            out.push(Edit::keeping(s[i]));
            proof {
                crate::edits::lemma_take_sum_push(before, out@[out@.len() - 2]);
                crate::edits::lemma_output_push(before, out@[out@.len() - 2]);
                crate::edits::lemma_take_sum_push(out@.drop_last(), out@[out@.len() - 1]);
                crate::edits::lemma_output_push(out@.drop_last(), out@[out@.len() - 1]);
                assert(out@.drop_last().drop_last() =~= before);
                assert(out@.drop_last() =~= before.push(out@[out@.len() - 2]));
                assert(out@.drop_last().push(out@[out@.len() - 1]) =~= out@);
                assert(tail.drop_first() =~= s@.skip(i + 1));
                assert(tail[0] == s@[i as int]);
                assert((edits_output(before) + repl@ + seq![s@[i as int]])
                    + spec_replace_lit(s@.skip(i + 1), pat@, repl@)
                    =~= edits_output(before)
                        + (repl@ + seq![s@[i as int]]
                            + spec_replace_lit(s@.skip(i + 1), pat@, repl@)));
            }
            i += 1;
        }
        let ghost before = out@;
        out.push(Edit::replacing(0, copy_chars(repl)));
        proof {
            crate::edits::lemma_take_sum_push(before, out@[out@.len() - 1]);
            crate::edits::lemma_output_push(before, out@[out@.len() - 1]);
            assert(out@.drop_last() =~= before);
            assert(s@.skip(n as int) =~= Seq::<char>::empty());
            assert(spec_replace_lit(s@.skip(n as int), pat@, repl@) == repl@);
        }
        return out;
    }
    while i < n
        invariant
            i <= n,
            edits_take_sum(out@) == i,
            edits_output(out@) + spec_replace_lit(s@.skip(i as int), pat@, repl@)
                == spec_replace_lit(s@, pat@, repl@),
        decreases n - i,
    {
        let ghost tail = s@.skip(i as int);
        let hit = if m <= n - i { segment_eq(s, i, pat) } else { false };
        proof {
            if m <= n - i {
                assert(s@.subrange(i as int, i + pat@.len()) =~= tail.take(pat@.len() as int));
            }
        }
        let ghost before = out@;
        if hit {
            out.push(Edit::replacing(m, copy_chars(repl)));
            proof {
                crate::edits::lemma_take_sum_push(before, out@[out@.len() - 1]);
                crate::edits::lemma_output_push(before, out@[out@.len() - 1]);
                assert(out@.drop_last() =~= before);
                assert(tail.skip(pat@.len() as int) =~= s@.skip(i + pat@.len()));
                assert((edits_output(before) + repl@)
                    + spec_replace_lit(s@.skip(i + m), pat@, repl@)
                    =~= edits_output(before)
                        + (repl@ + spec_replace_lit(s@.skip(i + m), pat@, repl@)));
            }
            i += m;
        } else {
            out.push(Edit::keeping(s[i]));
            proof {
                crate::edits::lemma_take_sum_push(before, out@[out@.len() - 1]);
                crate::edits::lemma_output_push(before, out@[out@.len() - 1]);
                assert(out@.drop_last() =~= before);
                assert(tail.drop_first() =~= s@.skip(i + 1));
                assert(tail[0] == s@[i as int]);
                assert((edits_output(before) + seq![s@[i as int]])
                    + spec_replace_lit(s@.skip(i + 1), pat@, repl@)
                    =~= edits_output(before)
                        + (seq![s@[i as int]] + spec_replace_lit(s@.skip(i + 1), pat@, repl@)));
            }
            i += 1;
        }
    }
    proof {
        assert(s@.skip(n as int) =~= Seq::<char>::empty());
        assert(edits_output(out@) + Seq::<char>::empty() =~= edits_output(out@));
    }
    out
}

/// Ordered, non-overlapping spans inside a text of length `n`.
pub open spec fn spans_wf(spans: Seq<(usize, usize)>, n: int) -> bool {
    &&& (forall|q: int| 0 <= q < spans.len() ==> (#[trigger] spans[q]).0 <= spans[q].1 <= n)
    &&& (forall|q: int| 0 <= q && q + 1 < spans.len() ==> (#[trigger] spans[q]).1
        <= spans[q + 1].0)
}

/// The text after replacing each span by the replacement, left to right
/// from the cursor.
pub open spec fn spec_splice(s: Seq<char>, spans: Seq<(usize, usize)>, repl: Seq<char>, cur: int) -> Seq<char>
    decreases spans.len(),
{
    if spans.len() == 0 {
        s.skip(cur)
    } else {
        let a = spans[0].0 as int;
        let b = spans[0].1 as int;
        if cur <= a && a <= b && b <= s.len() {
            s.subrange(cur, a) + repl + spec_splice(s, spans.drop_first(), repl, b)
        } else {
            s.skip(cur)
        }
    }
}

/// Whether a pattern compiles as a regular expression: a function of the
/// pattern alone.
pub uninterp spec fn regex_pattern_ok(p: Seq<char>) -> bool;

/// The byte ranges of the successive non-overlapping matches of a pattern
/// in a text: a function of the pattern and the text alone.
pub uninterp spec fn regex_spans_of(p: Seq<char>, t: Seq<char>) -> Seq<(usize, usize)>;

/// Relies on regex::Regex::new and Regex::find_iter: compilation succeeds
/// or fails on the pattern alone; the returned pairs are the byte ranges
/// of the successive non-overlapping matches, a function of pattern and
/// text alone.
#[verifier::external_body]
pub fn regex_find_spans(pattern: &str, text: &str) -> (r: Option<Vec<(usize, usize)>>)
    ensures
        r is Some <==> regex_pattern_ok(pattern@),
        r is Some ==> r->Some_0@ == regex_spans_of(pattern@, text@),
{
    match regex::Regex::new(pattern) {
        Ok(re) => Some(re.find_iter(text).map(|m| (m.start(), m.end())).collect()),
        Err(_) => None,
    }
}

/// The character index sitting at a UTF-8 byte offset, if the offset
/// falls on a character boundary.
pub open spec fn spec_b2c(s: Seq<char>, b: int) -> Option<int>
    decreases s.len(),
{
    if b == 0 {
        Some(0)
    } else if s.len() == 0 || b < 0 {
        None
    } else {
        match spec_b2c(s.drop_first(), b - crate::chars::spec_utf8_len(s[0])) {
            Some(i) => Some(i + 1),
            None => None,
        }
    }
}

/// Byte spans as character spans, each boundary on a character start and
/// the spans in order; `None` on anything else.
pub open spec fn spec_conv(s: Seq<char>, bs: Seq<(usize, usize)>, prev_end: int) -> Option<Seq<(usize, usize)>>
    decreases bs.len(),
{
    if bs.len() == 0 {
        Some(Seq::<(usize, usize)>::empty())
    } else {
        match (spec_b2c(s, bs[0].0 as int), spec_b2c(s, bs[0].1 as int)) {
            (Some(a), Some(b)) => if prev_end <= a && a <= b && b <= s.len() {
                match spec_conv(s, bs.drop_first(), b) {
                    Some(rest) => Some(seq![(a as usize, b as usize)] + rest),
                    None => None,
                }
            } else {
                None
            },
            _ => None,
        }
    }
}

/// A found character index is a position in the text.
pub proof fn lemma_b2c_le(s: Seq<char>, b: int)
    ensures
        spec_b2c(s, b) is Some ==> 0 <= spec_b2c(s, b)->Some_0 <= s.len(),
    decreases s.len(),
{
    if !(b == 0) && s.len() > 0 && b >= 0 {
        lemma_b2c_le(s.drop_first(), b - crate::chars::spec_utf8_len(s[0]));
    }
}

/// Byte spans to character spans, exactly as `spec_conv` reads them.
#[verifier::loop_isolation(false)]
pub fn convert_spans(s: &Vec<char>, bspans: &Vec<(usize, usize)>) -> (r: Option<Vec<(usize, usize)>>)
    ensures
        match r {
            Some(cs) => spans_wf(cs@, s@.len() as int)
                && spec_conv(s@, bspans@, 0) == Some(cs@),
            None => spec_conv(s@, bspans@, 0) is None,
        },
{
    let n = s.len();
    let mut out: Vec<(usize, usize)> = Vec::new();
    let mut prev_end: usize = 0;
    let k = bspans.len();
    proof {
        assert(bspans@.skip(0) =~= bspans@);
        if spec_conv(s@, bspans@, 0) is Some {
            assert(Seq::<(usize, usize)>::empty() + spec_conv(s@, bspans@, 0)->Some_0
                =~= spec_conv(s@, bspans@, 0)->Some_0);
        }
    }
    for q in 0..k
        invariant
            k == bspans@.len(),
            out@.len() == q,
            prev_end <= n,
            spans_wf(out@, s@.len() as int),
            out@.len() > 0 ==> out@[out@.len() - 1].1 == prev_end,
            (match spec_conv(s@, bspans@.skip(q as int), prev_end as int) {
                Some(rest) => spec_conv(s@, bspans@, 0) == Some(out@ + rest),
                None => spec_conv(s@, bspans@, 0) is None,
            }),
        {
        proof {
            assert(bspans@.skip(q as int)[0] == bspans@[q as int]);
            assert(bspans@.skip(q as int).drop_first() =~= bspans@.skip(q + 1));
        }
        let a = match byte_to_char(s, bspans[q].0) {
            Some(x) => x,
            None => {
                return None;
            },
        };
        let b = match byte_to_char(s, bspans[q].1) {
            Some(x) => x,
            None => {
                return None;
            },
        };
        if !(prev_end <= a && a <= b && b <= n) {
            return None;
        }
        proof {
            if spec_conv(s@, bspans@.skip(q + 1), b as int) is Some {
                let rest = spec_conv(s@, bspans@.skip(q + 1), b as int)->Some_0;
                assert(out@ + (seq![(a, b)] + rest) =~= (out@ + seq![(a, b)]) + rest);
            }
        }
        out.push((a, b));
        prev_end = b;
    }
    proof {
        assert(bspans@.skip(k as int) =~= Seq::<(usize, usize)>::empty());
        assert(out@ + Seq::<(usize, usize)>::empty() =~= out@);
    }
    Some(out)
}

/// The character index whose UTF-8 byte offset is `byte`, exactly as
/// `spec_b2c` finds it.
#[verifier::loop_isolation(false)]
pub fn byte_to_char(s: &Vec<char>, byte: usize) -> (r: Option<usize>)
    ensures
        match r {
            Some(i) => spec_b2c(s@, byte as int) == Some(i as int) && i <= s@.len(),
            None => spec_b2c(s@, byte as int) is None,
        },
{
    let n = s.len();
    let mut i: usize = 0;
    let mut acc: usize = 0;
    proof {
        assert(s@.skip(0) =~= s@);
    }
    loop
        invariant
            i <= n,
            n == s@.len(),
            acc <= byte,
            (match spec_b2c(s@.skip(i as int), byte - acc) {
                Some(t) => spec_b2c(s@, byte as int) == Some(t + i),
                None => spec_b2c(s@, byte as int) is None,
            }),
        decreases n - i,
    {
        proof {
            if i < n {
                assert(s@.skip(i as int)[0] == s@[i as int]);
                assert(s@.skip(i as int).drop_first() =~= s@.skip(i + 1));
            }
        }
        if acc == byte {
            return Some(i);
        }
        if i >= n {
            return None;
        }
        let w = crate::chars::utf8_len_of(s[i]);
        if byte - acc < w {
            proof {
                lemma_b2c_neg(s@.skip(i + 1), byte - acc - w);
            }
            return None;
        }
        acc += w;
        i += 1;
    }
}

/// No character starts at a negative byte offset.
proof fn lemma_b2c_neg(s: Seq<char>, b: int)
    requires
        b < 0,
    ensures
        spec_b2c(s, b) is None,
{
}

/// The edits of replacing each span by the replacement.
#[verifier::loop_isolation(false)]
pub fn splice_edits(s: &Vec<char>, cspans: &Vec<(usize, usize)>, repl: &Vec<char>) -> (r: Vec<Edit>)
    requires
        spans_wf(cspans@, s@.len() as int),
    ensures
        edits_take_sum(r@) == s@.len(),
        edits_output(r@) == spec_splice(s@, cspans@, repl@, 0),
{
    let n = s.len();
    let k = cspans.len();
    let mut out: Vec<Edit> = Vec::new();
    let mut cur: usize = 0;
    proof {
        assert(cspans@.skip(0) =~= cspans@);
        assert(edits_output(out@) + spec_splice(s@, cspans@, repl@, 0)
            =~= spec_splice(s@, cspans@, repl@, 0));
    }
    for q in 0..k
        invariant
            k == cspans@.len(),
            cur <= n,
            q < k ==> cur <= cspans@[q as int].0,
            edits_take_sum(out@) == cur,
            edits_output(out@) + spec_splice(s@, cspans@.skip(q as int), repl@, cur as int)
                == spec_splice(s@, cspans@, repl@, 0),
    {
        let (a, b) = cspans[q];
        let ghost before_span = out@;
        push_keeps(&mut out, s, cur, a);
        let ghost before_rep = out@;
        out.push(Edit::replacing(b - a, copy_chars(repl)));
        proof {
            crate::edits::lemma_take_sum_push(before_rep, out@[out@.len() - 1]);
            crate::edits::lemma_output_push(before_rep, out@[out@.len() - 1]);
            assert(out@.drop_last() =~= before_rep);
            assert(cspans@.skip(q as int)[0] == cspans@[q as int]);
            assert(cspans@.skip(q as int).drop_first() =~= cspans@.skip(q + 1));
            assert((edits_output(before_span) + s@.subrange(cur as int, a as int))
                + repl@ + spec_splice(s@, cspans@.skip(q + 1), repl@, b as int)
                =~= edits_output(before_span)
                    + (s@.subrange(cur as int, a as int) + repl@
                        + spec_splice(s@, cspans@.skip(q + 1), repl@, b as int)));
            if q + 1 < k {
                assert(cspans@[q as int].1 <= cspans@[q + 1].0);
            }
        }
        cur = b;
    }
    let ghost before_tail = out@;
    push_keeps(&mut out, s, cur, n);
    proof {
        assert(cspans@.skip(k as int) =~= Seq::<(usize, usize)>::empty());
        assert(s@.subrange(cur as int, n as int) =~= s@.skip(cur as int));
    }
    out
}

/// Keep-edits for the characters from `from` to `to`.
#[verifier::loop_isolation(false)]
pub fn push_keeps(out: &mut Vec<Edit>, s: &Vec<char>, from: usize, to: usize)
    requires
        from <= to <= s@.len(),
    ensures
        edits_take_sum(final(out)@) == edits_take_sum(old(out)@) + (to - from),
        edits_output(final(out)@) == edits_output(old(out)@)
            + s@.subrange(from as int, to as int),
{
    let mut t = from;
    while t < to
        invariant
            from <= t <= to,
            edits_take_sum(out@) == edits_take_sum(old(out)@) + (t - from),
            edits_output(out@) == edits_output(old(out)@) + s@.subrange(from as int, t as int),
        decreases to - t,
    {
        let ghost before = out@;
        out.push(Edit::keeping(s[t]));
        proof {
            crate::edits::lemma_take_sum_push(before, out@[out@.len() - 1]);
            crate::edits::lemma_output_push(before, out@[out@.len() - 1]);
            assert(out@.drop_last() =~= before);
            assert((edits_output(old(out)@) + s@.subrange(from as int, t as int))
                + seq![s@[t as int]]
                =~= edits_output(old(out)@) + s@.subrange(from as int, t + 1));
        }
        t += 1;
    }
    proof {
        assert(edits_output(out@) =~= edits_output(old(out)@)
            + s@.subrange(from as int, to as int));
    }
}

/// One rule of a precompiled substitution table.
#[derive(Debug)]
pub struct SubstRule {
    pub pattern: Vec<char>,
    pub content: Vec<char>,
}

/// The longest rule matching at the head of `t`; the first such rule on
/// equal lengths.
pub open spec fn best_rule_fold(rules: Seq<SubstRule>, t: Seq<char>, i: int, acc: Option<int>) -> Option<int>
    decreases rules.len() - i,
{
    if i < 0 || i >= rules.len() {
        acc
    } else {
        let pl = rules[i].pattern@.len() as int;
        let hit = 1 <= pl <= t.len() && t.take(pl) == rules[i].pattern@;
        let acc2 = if hit {
            match acc {
                None => Some(i),
                Some(a) => if 0 <= a < rules.len()
                    && pl > rules[a].pattern@.len() { Some(i) } else { acc },
            }
        } else {
            acc
        };
        best_rule_fold(rules, t, i + 1, acc2)
    }
}

/// The table applied left to right, longest match first.
pub open spec fn spec_precompiled(rules: Seq<SubstRule>, s: Seq<char>) -> Seq<char>
    decreases s.len(),
{
    if s.len() == 0 {
        Seq::<char>::empty()
    } else {
        match best_rule_fold(rules, s, 0, None) {
            Some(ri) => {
                if 0 <= ri < rules.len() && 1 <= rules[ri].pattern@.len() <= s.len() {
                    rules[ri].content@
                        + spec_precompiled(rules, s.skip(rules[ri].pattern@.len() as int))
                } else {
                    seq![s[0]] + spec_precompiled(rules, s.drop_first())
                }
            },
            None => seq![s[0]] + spec_precompiled(rules, s.drop_first()),
        }
    }
}

/// The best rule at position `pos`, by the fold above.
#[verifier::loop_isolation(false)]
fn best_rule_at(rules: &Vec<SubstRule>, s: &Vec<char>, pos: usize) -> (r: Option<usize>)
    requires
        pos <= s@.len(),
    ensures
        match r {
            Some(ri) => best_rule_fold(rules@, s@.skip(pos as int), 0, None) == Some(ri as int)
                && ri < rules@.len()
                && 1 <= rules@[ri as int].pattern@.len() <= s@.len() - pos,
            None => best_rule_fold(rules@, s@.skip(pos as int), 0, None) is None,
        },
{
    let ghost tail = s@.skip(pos as int);
    let nr = rules.len();
    let n = s.len();
    let mut acc: Option<usize> = None;
    for i in 0..nr
        invariant
            nr == rules@.len(),
            (match acc {
                Some(a) => best_rule_fold(rules@, tail, 0, None)
                    == best_rule_fold(rules@, tail, i as int, Some(a as int))
                    && a < nr && 1 <= rules@[a as int].pattern@.len() <= n - pos,
                None => best_rule_fold(rules@, tail, 0, None)
                    == best_rule_fold(rules@, tail, i as int, None),
            }),
    {
        let pl = rules[i].pattern.len();
        let hit = if pl >= 1 && pl <= n - pos {
            segment_eq(s, pos, &rules[i].pattern)
        } else {
            false
        };
        proof {
            if pl >= 1 && pl <= n - pos {
                assert(s@.subrange(pos as int, pos + pl) =~= tail.take(pl as int));
            }
        }
        if hit {
            match acc {
                None => {
                    acc = Some(i);
                },
                Some(a) => {
                    if pl > rules[a].pattern.len() {
                        acc = Some(i);
                    }
                },
            }
        }
    }
    acc
}

/// The edits of one pass of the substitution table.
#[verifier::loop_isolation(false)]
pub fn precompiled_edits(rules: &Vec<SubstRule>, s: &Vec<char>) -> (r: Vec<Edit>)
    ensures
        edits_take_sum(r@) == s@.len(),
        edits_output(r@) == spec_precompiled(rules@, s@),
{
    let n = s.len();
    let mut out: Vec<Edit> = Vec::new();
    let mut i: usize = 0;
    proof {
        assert(s@.skip(0) =~= s@);
    }
    while i < n
        invariant
            i <= n,
            edits_take_sum(out@) == i,
            edits_output(out@) + spec_precompiled(rules@, s@.skip(i as int))
                == spec_precompiled(rules@, s@),
        decreases n - i,
    {
        let ghost tail = s@.skip(i as int);
        let ghost before = out@;
        match best_rule_at(rules, s, i) {
            Some(ri) => {
                let pl = rules[ri].pattern.len();
                out.push(Edit::replacing(pl, copy_chars(&rules[ri].content)));
                proof {
                    crate::edits::lemma_take_sum_push(before, out@[out@.len() - 1]);
                    crate::edits::lemma_output_push(before, out@[out@.len() - 1]);
                    assert(out@.drop_last() =~= before);
                    assert(tail.skip(pl as int) =~= s@.skip(i + pl));
                    assert((edits_output(before) + rules@[ri as int].content@)
                        + spec_precompiled(rules@, s@.skip(i + pl))
                        =~= edits_output(before)
                            + (rules@[ri as int].content@
                                + spec_precompiled(rules@, s@.skip(i + pl))));
                }
                i += pl;
            },
            None => {
                out.push(Edit::keeping(s[i]));
                proof {
                    crate::edits::lemma_take_sum_push(before, out@[out@.len() - 1]);
                    crate::edits::lemma_output_push(before, out@[out@.len() - 1]);
                    assert(out@.drop_last() =~= before);
                    assert(tail.drop_first() =~= s@.skip(i + 1));
                    assert(tail[0] == s@[i as int]);
                    assert((edits_output(before) + seq![s@[i as int]])
                        + spec_precompiled(rules@, s@.skip(i + 1))
                        =~= edits_output(before)
                            + (seq![s@[i as int]] + spec_precompiled(rules@, s@.skip(i + 1))));
                }
                i += 1;
            },
        }
    }
    proof {
        assert(s@.skip(n as int) =~= Seq::<char>::empty());
        assert(edits_output(out@) + Seq::<char>::empty() =~= edits_output(out@));
    }
    out
}

} // verus!
