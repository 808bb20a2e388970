//! The normalizers: in-place rewrites of a `NormalizedString`, each with
//! an exact statement of the text it produces. Composition is a normalizer
//! itself, and every step keeps the offset-correspondence table valid.

use vstd::prelude::*;
use crate::normalized::NormalizedString;
use crate::edits::{Edit, edits_take_sum, edits_output, lemma_take_sum_push, lemma_output_push};
use crate::chars::{lower_of_char, lower_char, spec_combining_mark, is_combining_mark_char,
    spec_is_whitespace, is_whitespace_char, spec_is_control, is_control_char, spec_is_cjk,
    is_cjk_char, spec_nmt_removed, is_nmt_removed, spec_nmt_spaced, is_nmt_spaced,
    nfd_pairs_of, nfkd_pairs_of, nfc_pairs_of, nfkc_pairs_of, nfd_pairs, nfkd_pairs, nfc_pairs,
    nfkc_pairs, string_from_chars, chars_of_str};
use crate::replace::{SubstRule, spec_replace_lit, replace_lit_edits, spec_splice, spans_wf,
    regex_pattern_ok, regex_spans_of, spec_conv, regex_find_spans, convert_spans, splice_edits,
    spec_precompiled, precompiled_edits};
use crate::token::NormalizerError;
use crate::serial::{dec_u64, dec_str, enc_u64, enc_str};

verus! {

/// How the Bert normalizer decides accent stripping: explicitly, or by
/// following the lowercasing flag.
#[derive(Clone, Copy, Debug, PartialEq, Eq, Structural)]
pub enum BertStripAccents {
    DeterminedByLowercase,
    False,
    True,
}

/// A replacement pattern: a fixed string or a regular expression.
#[derive(Debug)]
pub enum ReplacePattern {
    Literal(String),
    Regex(String),
}

/// One text-rewriting step.
#[derive(Debug)]
pub enum Normalizer {
    Bert { clean_text: bool, handle_chinese_chars: bool, strip_accents: bool, lowercase: bool },
    Strip { left: bool, right: bool },
    StripAccents,
    Nfc,
    Nfd,
    Nfkc,
    Nfkd,
    Lowercase,
    Nmt,
    Precompiled { rules: Vec<SubstRule> },
    Replace { pattern: ReplacePattern, content: String },
    Sequence { items: Vec<Normalizer> },
}

/// Lowercasing: each character becomes its case mapping.
pub open spec fn spec_lower_from(s: Seq<char>, i: int) -> Seq<char>
    decreases s.len() - i,
{
    if i < 0 || i >= s.len() {
        Seq::<char>::empty()
    } else {
        lower_of_char(s[i]) + spec_lower_from(s, i + 1)
    }
}

/// Accent stripping: combining marks vanish.
pub open spec fn spec_marks_from(s: Seq<char>, i: int) -> Seq<char>
    decreases s.len() - i,
{
    if i < 0 || i >= s.len() {
        Seq::<char>::empty()
    } else {
        (if spec_combining_mark(s[i]) { Seq::<char>::empty() } else { seq![s[i]] })
            + spec_marks_from(s, i + 1)
    }
}

/// The machine-translation cleanup: some characters vanish, some become
/// plain spaces.
pub open spec fn spec_nmt_from(s: Seq<char>, i: int) -> Seq<char>
    decreases s.len() - i,
{
    if i < 0 || i >= s.len() {
        Seq::<char>::empty()
    } else {
        (if spec_nmt_removed(s[i]) {
            Seq::<char>::empty()
        } else if spec_nmt_spaced(s[i]) {
            seq![' ']
        } else {
            seq![s[i]]
        }) + spec_nmt_from(s, i + 1)
    }
}

/// Ideograph spacing: a space on both sides of every CJK character.
pub open spec fn spec_cjk_from(s: Seq<char>, i: int) -> Seq<char>
    decreases s.len() - i,
{
    if i < 0 || i >= s.len() {
        Seq::<char>::empty()
    } else {
        (if spec_is_cjk(s[i]) { seq![' ', s[i], ' '] } else { seq![s[i]] })
            + spec_cjk_from(s, i + 1)
    }
}

/// A character text cleanup drops outright.
pub open spec fn spec_clean_dropped(c: char) -> bool {
    c as u32 == 0 || c as u32 == 0xFFFD || (spec_is_control(c) && !spec_is_whitespace(c))
}

/// Text cleanup: dropped characters vanish, whitespace runs collapse to
/// one plain space. `prev` says whether a space was just emitted.
pub open spec fn spec_clean_from(s: Seq<char>, i: int, prev: bool) -> Seq<char>
    decreases s.len() - i,
{
    if i < 0 || i >= s.len() {
        Seq::<char>::empty()
    } else if spec_clean_dropped(s[i]) {
        spec_clean_from(s, i + 1, prev)
    } else if spec_is_whitespace(s[i]) {
        if prev {
            spec_clean_from(s, i + 1, true)
        } else {
            seq![' '] + spec_clean_from(s, i + 1, true)
        }
    } else {
        seq![s[i]] + spec_clean_from(s, i + 1, false)
    }
}

/// The characters a normalization-pair stream emits.
pub open spec fn spec_pairs_from(ps: Seq<(char, i64)>, i: int) -> Seq<char>
    decreases ps.len() - i,
{
    if i < 0 || i >= ps.len() {
        Seq::<char>::empty()
    } else {
        seq![ps[i].0] + spec_pairs_from(ps, i + 1)
    }
}

/// Leading whitespace run from position `i`.
pub open spec fn spec_ws_run(s: Seq<char>, i: int) -> int
    decreases s.len() - i,
{
    if i < 0 || i >= s.len() || !spec_is_whitespace(s[i]) {
        0
    } else {
        1 + spec_ws_run(s, i + 1)
    }
}

/// Trailing whitespace run ending just before position `j`.
pub open spec fn spec_ws_back(s: Seq<char>, j: int) -> int
    decreases j,
{
    if j <= 0 || j > s.len() || !spec_is_whitespace(s[j - 1]) {
        0
    } else {
        1 + spec_ws_back(s, j - 1)
    }
}

pub proof fn lemma_ws_run_le(s: Seq<char>, i: int)
    requires
        0 <= i <= s.len(),
    ensures
        0 <= spec_ws_run(s, i) <= s.len() - i,
    decreases s.len() - i,
{
    if i < s.len() && spec_is_whitespace(s[i]) {
        lemma_ws_run_le(s, i + 1);
    }
}

pub proof fn lemma_ws_back_le(s: Seq<char>, j: int)
    requires
        0 <= j <= s.len(),
    ensures
        0 <= spec_ws_back(s, j) <= j,
    decreases j,
{
    if j > 0 && spec_is_whitespace(s[j - 1]) {
        lemma_ws_back_le(s, j - 1);
    }
}

/// Whitespace trimming: the text between the trimmed runs.
pub open spec fn spec_strip_trim(s: Seq<char>, left: bool, right: bool) -> Seq<char> {
    let a = if left { spec_ws_run(s, 0) } else { 0 };
    let b = if right { spec_ws_back(s, s.len() as int) } else { 0 };
    if a + b <= s.len() {
        s.subrange(a, s.len() - b)
    } else {
        Seq::<char>::empty()
    }
}

/// What each normalizer turns a text into when it succeeds. For a
/// regular-expression replacement the matches are the named spans of the
/// regex engine, converted to character positions and spliced.
pub open spec fn norm_content(n: Normalizer, s: Seq<char>) -> Seq<char>
    decreases n,
{
    match n {
        Normalizer::Bert { clean_text, handle_chinese_chars, strip_accents, lowercase } => {
            let s1 = if clean_text { spec_clean_from(s, 0, false) } else { s };
            let s2 = if handle_chinese_chars { spec_cjk_from(s1, 0) } else { s1 };
            let s3 = if strip_accents {
                spec_marks_from(spec_pairs_from(nfd_pairs_of(s2), 0), 0)
            } else {
                s2
            };
            if lowercase { spec_lower_from(s3, 0) } else { s3 }
        },
        Normalizer::Strip { left, right } => spec_strip_trim(s, left, right),
        Normalizer::StripAccents => spec_marks_from(s, 0),
        Normalizer::Nfc => spec_pairs_from(nfc_pairs_of(s), 0),
        Normalizer::Nfd => spec_pairs_from(nfd_pairs_of(s), 0),
        Normalizer::Nfkc => spec_pairs_from(nfkc_pairs_of(s), 0),
        Normalizer::Nfkd => spec_pairs_from(nfkd_pairs_of(s), 0),
        Normalizer::Lowercase => spec_lower_from(s, 0),
        Normalizer::Nmt => spec_nmt_from(s, 0),
        Normalizer::Precompiled { rules } => spec_precompiled(rules@, s),
        Normalizer::Replace { pattern, content } => match pattern {
            ReplacePattern::Literal(p) => spec_replace_lit(s, p@, content@),
            ReplacePattern::Regex(p) => match spec_conv(s, regex_spans_of(p@, s), 0) {
                Some(cs) => spec_splice(s, cs, content@, 0),
                None => s,
            },
        },
        Normalizer::Sequence { items } => seq_content(items@, s, 0),
    }
}

/// The members of a sequence applied in order, from member `i` on.
pub open spec fn seq_content(items: Seq<Normalizer>, s: Seq<char>, i: int) -> Seq<char>
    decreases items, items.len() - i,
{
    if i < 0 || i >= items.len() {
        s
    } else {
        seq_content(items, norm_content(items[i], s), i + 1)
    }
}

/// When a normalizer succeeds: always, except for a regular-expression
/// replacement whose pattern does not compile or whose match boundaries
/// do not fall on character starts, and a sequence with a failing member.
pub open spec fn norm_ok(n: Normalizer, s: Seq<char>) -> bool
    decreases n,
{
    match n {
        Normalizer::Replace { pattern, content } => match pattern {
            ReplacePattern::Regex(p) => regex_pattern_ok(p@)
                && spec_conv(s, regex_spans_of(p@, s), 0) is Some,
            ReplacePattern::Literal(_) => true,
        },
        Normalizer::Sequence { items } => seq_ok(items@, s, 0),
        _ => true,
    }
}

pub open spec fn seq_ok(items: Seq<Normalizer>, s: Seq<char>, i: int) -> bool
    decreases items, items.len() - i,
{
    if i < 0 || i >= items.len() {
        true
    } else {
        norm_ok(items[i], s) && seq_ok(items, norm_content(items[i], s), i + 1)
    }
}

/// The error a failing normalizer reports: a bad pattern, or an edit
/// stream the buffer cannot take; a sequence reports its first failing
/// member's error.
pub open spec fn norm_err(n: Normalizer, s: Seq<char>) -> NormalizerError
    decreases n,
{
    match n {
        Normalizer::Replace { pattern, content } => match pattern {
            ReplacePattern::Regex(p) => if !regex_pattern_ok(p@) {
                NormalizerError::InvalidPattern
            } else {
                NormalizerError::InvalidTransform
            },
            ReplacePattern::Literal(_) => NormalizerError::InvalidTransform,
        },
        Normalizer::Sequence { items } => seq_err(items@, s, 0),
        _ => NormalizerError::InvalidTransform,
    }
}

pub open spec fn seq_err(items: Seq<Normalizer>, s: Seq<char>, i: int) -> NormalizerError
    decreases items, items.len() - i,
{
    if i < 0 || i >= items.len() {
        NormalizerError::InvalidTransform
    } else if !norm_ok(items[i], s) {
        norm_err(items[i], s)
    } else {
        seq_err(items, norm_content(items[i], s), i + 1)
    }
}

/// The text after the call, success or failure: the content on success; a
/// failing normalizer leaves the text as it was, except a sequence, which
/// keeps what its successful prefix produced.
pub open spec fn norm_state(n: Normalizer, s: Seq<char>) -> Seq<char>
    decreases n,
{
    match n {
        Normalizer::Sequence { items } => seq_state(items@, s, 0),
        _ => if norm_ok(n, s) {
            norm_content(n, s)
        } else {
            s
        },
    }
}

pub open spec fn seq_state(items: Seq<Normalizer>, s: Seq<char>, i: int) -> Seq<char>
    decreases items, items.len() - i,
{
    if i < 0 || i >= items.len() {
        s
    } else if !norm_ok(items[i], s) {
        norm_state(items[i], s)
    } else {
        seq_state(items, norm_content(items[i], s), i + 1)
    }
}

/// Law: applying canonical decomposition and then the mark stripper is the
/// accent-stripping step of the Bert normalizer: both leave exactly the
/// non-mark characters of the decomposed text, and both always succeed.
pub proof fn lemma_nfd_then_strip_is_bert_accent_strip(s: Seq<char>)
    ensures
        seq_ok(seq![Normalizer::Nfd, Normalizer::StripAccents], s, 0),
        norm_ok(
            Normalizer::Bert {
                clean_text: false,
                handle_chinese_chars: false,
                strip_accents: true,
                lowercase: false,
            },
            s,
        ),
        seq_content(seq![Normalizer::Nfd, Normalizer::StripAccents], s, 0)
            == norm_content(
            Normalizer::Bert {
                clean_text: false,
                handle_chinese_chars: false,
                strip_accents: true,
                lowercase: false,
            },
            s,
        ),
{
    let items = seq![Normalizer::Nfd, Normalizer::StripAccents];
    let s1 = spec_pairs_from(nfd_pairs_of(s), 0);
    assert(items.len() == 2);
    assert(items[0] == Normalizer::Nfd);
    assert(items[1] == Normalizer::StripAccents);
    assert(norm_content(items[0], s) == s1);
    assert(seq_content(items, s, 0) == seq_content(items, s1, 1));
    assert(norm_content(items[1], s1) == spec_marks_from(s1, 0));
    assert(seq_content(items, s1, 1) == seq_content(items, spec_marks_from(s1, 0), 2));
    assert(seq_content(items, spec_marks_from(s1, 0), 2) == spec_marks_from(s1, 0));
    assert(norm_ok(items[0], s) && norm_ok(items[1], s1));
    assert(seq_ok(items, spec_marks_from(s1, 0), 2));
    assert(seq_ok(items, s1, 1));
    assert(seq_ok(items, s, 0));
}

/// Per-character edits for lowercasing.
#[verifier::loop_isolation(false)]
fn lower_edits(s: &Vec<char>) -> (r: Vec<Edit>)
    ensures
        edits_take_sum(r@) == s@.len(),
        edits_output(r@) == spec_lower_from(s@, 0),
{
    let n = s.len();
    let mut out: Vec<Edit> = Vec::new();
    for i in 0..n
        invariant
            n == s@.len(),
            edits_take_sum(out@) == i,
            edits_output(out@) + spec_lower_from(s@, i as int) == spec_lower_from(s@, 0),
    {
        let ghost before = out@;
        out.push(Edit::replacing(1, lower_char(s[i])));
        proof {
            lemma_take_sum_push(before, out@[out@.len() - 1]);
            lemma_output_push(before, out@[out@.len() - 1]);
            assert(out@.drop_last() =~= before);
            assert((edits_output(before) + lower_of_char(s@[i as int]))
                + spec_lower_from(s@, i + 1)
                =~= edits_output(before)
                    + (lower_of_char(s@[i as int]) + spec_lower_from(s@, i + 1)));
        }
    }
    proof {
        assert(edits_output(out@) + Seq::<char>::empty() =~= edits_output(out@));
    }
    out
}

/// Per-character edits for mark stripping.
#[verifier::loop_isolation(false)]
fn marks_edits(s: &Vec<char>) -> (r: Vec<Edit>)
    ensures
        edits_take_sum(r@) == s@.len(),
        edits_output(r@) == spec_marks_from(s@, 0),
{
    let n = s.len();
    let mut out: Vec<Edit> = Vec::new();
    for i in 0..n
        invariant
            n == s@.len(),
            edits_take_sum(out@) == i,
            edits_output(out@) + spec_marks_from(s@, i as int) == spec_marks_from(s@, 0),
    {
        let ghost before = out@;
        if is_combining_mark_char(s[i]) {
            out.push(Edit::deleting());
        } else {
            out.push(Edit::keeping(s[i]));
        }
        proof {
            lemma_take_sum_push(before, out@[out@.len() - 1]);
            lemma_output_push(before, out@[out@.len() - 1]);
            assert(out@.drop_last() =~= before);
            let piece = if spec_combining_mark(s@[i as int]) {
                Seq::<char>::empty()
            } else {
                seq![s@[i as int]]
            };
            assert((edits_output(before) + piece) + spec_marks_from(s@, i + 1)
                =~= edits_output(before) + (piece + spec_marks_from(s@, i + 1)));
        }
    }
    proof {
        assert(edits_output(out@) + Seq::<char>::empty() =~= edits_output(out@));
    }
    out
}

/// Per-character edits for the machine-translation cleanup.
#[verifier::loop_isolation(false)]
fn nmt_edits(s: &Vec<char>) -> (r: Vec<Edit>)
    ensures
        edits_take_sum(r@) == s@.len(),
        edits_output(r@) == spec_nmt_from(s@, 0),
{
    let n = s.len();
    let mut out: Vec<Edit> = Vec::new();
    for i in 0..n
        invariant
            n == s@.len(),
            edits_take_sum(out@) == i,
            edits_output(out@) + spec_nmt_from(s@, i as int) == spec_nmt_from(s@, 0),
    {
        let ghost before = out@;
        if is_nmt_removed(s[i]) {
            out.push(Edit::deleting());
        } else if is_nmt_spaced(s[i]) {
            let mut e: Vec<char> = Vec::new();
            e.push(' ');
            out.push(Edit::replacing(1, e));
        } else {
            out.push(Edit::keeping(s[i]));
        }
        proof {
            lemma_take_sum_push(before, out@[out@.len() - 1]);
            lemma_output_push(before, out@[out@.len() - 1]);
            assert(out@.drop_last() =~= before);
            let piece = if spec_nmt_removed(s@[i as int]) {
                Seq::<char>::empty()
            } else if spec_nmt_spaced(s@[i as int]) {
                seq![' ']
            } else {
                seq![s@[i as int]]
            };
            assert(out@[out@.len() - 1].emit@ =~= piece);
            assert((edits_output(before) + piece) + spec_nmt_from(s@, i + 1)
                =~= edits_output(before) + (piece + spec_nmt_from(s@, i + 1)));
        }
    }
    proof {
        assert(edits_output(out@) + Seq::<char>::empty() =~= edits_output(out@));
    }
    out
}

/// Per-character edits for ideograph spacing.
#[verifier::loop_isolation(false)]
fn cjk_edits(s: &Vec<char>) -> (r: Vec<Edit>)
    ensures
        edits_take_sum(r@) == s@.len(),
        edits_output(r@) == spec_cjk_from(s@, 0),
{
    let n = s.len();
    let mut out: Vec<Edit> = Vec::new();
    for i in 0..n
        invariant
            n == s@.len(),
            edits_take_sum(out@) == i,
            edits_output(out@) + spec_cjk_from(s@, i as int) == spec_cjk_from(s@, 0),
    {
        let ghost before = out@;
        if is_cjk_char(s[i]) {
            let mut e: Vec<char> = Vec::new();
            e.push(' ');
            e.push(s[i]);
            e.push(' ');
            out.push(Edit::replacing(1, e));
        } else {
            out.push(Edit::keeping(s[i]));
        }
        proof {
            lemma_take_sum_push(before, out@[out@.len() - 1]);
            lemma_output_push(before, out@[out@.len() - 1]);
            assert(out@.drop_last() =~= before);
            let piece = if spec_is_cjk(s@[i as int]) {
                seq![' ', s@[i as int], ' ']
            } else {
                seq![s@[i as int]]
            };
            assert(out@[out@.len() - 1].emit@ =~= piece);
            assert((edits_output(before) + piece) + spec_cjk_from(s@, i + 1)
                =~= edits_output(before) + (piece + spec_cjk_from(s@, i + 1)));
        }
    }
    proof {
        assert(edits_output(out@) + Seq::<char>::empty() =~= edits_output(out@));
    }
    out
}

/// Per-character edits for text cleanup, collapsing whitespace runs.
#[verifier::loop_isolation(false)]
fn clean_edits(s: &Vec<char>) -> (r: Vec<Edit>)
    ensures
        edits_take_sum(r@) == s@.len(),
        edits_output(r@) == spec_clean_from(s@, 0, false),
{
    let n = s.len();
    let mut out: Vec<Edit> = Vec::new();
    let mut prev = false;
    for i in 0..n
        invariant
            n == s@.len(),
            edits_take_sum(out@) == i,
            edits_output(out@) + spec_clean_from(s@, i as int, prev)
                == spec_clean_from(s@, 0, false),
    {
        let ghost before = out@;
        let ghost prev0 = prev;
        let c = s[i];
        if c as u32 == 0 || c as u32 == 0xFFFD || (is_control_char(c) && !is_whitespace_char(c)) {
            out.push(Edit::deleting());
        } else if is_whitespace_char(c) {
            if prev {
                out.push(Edit::deleting());
            } else {
                let mut e: Vec<char> = Vec::new();
                e.push(' ');
                out.push(Edit::replacing(1, e));
            }
            prev = true;
        } else {
            out.push(Edit::keeping(c));
            prev = false;
        }
        proof {
            lemma_take_sum_push(before, out@[out@.len() - 1]);
            lemma_output_push(before, out@[out@.len() - 1]);
            assert(out@.drop_last() =~= before);
            let piece = if spec_clean_dropped(s@[i as int]) {
                Seq::<char>::empty()
            } else if spec_is_whitespace(s@[i as int]) {
                if prev0 {
                    Seq::<char>::empty()
                } else {
                    seq![' ']
                }
            } else {
                seq![s@[i as int]]
            };
            assert(out@[out@.len() - 1].emit@ =~= piece);
            assert((edits_output(before) + piece) + spec_clean_from(s@, i + 1, prev)
                =~= edits_output(before) + (piece + spec_clean_from(s@, i + 1, prev)));
        }
    }
    proof {
        assert(edits_output(out@) + Seq::<char>::empty() =~= edits_output(out@));
    }
    out
}

/// Edits of a well-tagged normalization-pair stream.
#[verifier::loop_isolation(false)]
fn pairs_edits(ps: &Vec<(char, i64)>, total: usize) -> (r: Vec<Edit>)
    requires
        crate::chars::pairs_valid(ps@, total as int),
    ensures
        edits_take_sum(r@) == total,
        edits_output(r@) == spec_pairs_from(ps@, 0),
{
    let n = ps.len();
    let mut out: Vec<Edit> = Vec::new();
    let mut remaining = total;
    for i in 0..n
        invariant
            n == ps@.len(),
            remaining <= total,
            remaining == crate::chars::pairs_consumed(ps@, i as int),
            edits_take_sum(out@) == total - remaining,
            edits_output(out@) + spec_pairs_from(ps@, i as int) == spec_pairs_from(ps@, 0),
    {
        proof {
            lemma_pairs_consumed_nonneg(ps@, i + 1);
        }
        let (c, ch) = ps[i];
        let take: usize = if ch == 1 {
            0
        } else {
            let t: i128 = 1 - (ch as i128);
            proof {
                assert(t as int == crate::chars::pair_take(ps@[i as int].1));
                assert(t <= remaining as i128);
            }
            t as usize
        };
        remaining = remaining - take;
        let ghost before = out@;
        let mut e: Vec<char> = Vec::new();
        e.push(c);
        out.push(Edit::replacing(take, e));
        proof {
            lemma_take_sum_push(before, out@[out@.len() - 1]);
            lemma_output_push(before, out@[out@.len() - 1]);
            assert(out@.drop_last() =~= before);
            assert(out@[out@.len() - 1].emit@ =~= seq![ps@[i as int].0]);
            assert((edits_output(before) + seq![ps@[i as int].0]) + spec_pairs_from(ps@, i + 1)
                =~= edits_output(before) + (seq![ps@[i as int].0] + spec_pairs_from(ps@, i + 1)));
        }
    }
    proof {
        assert(crate::chars::pairs_consumed(ps@, n as int) == 0);
        assert(edits_output(out@) + Seq::<char>::empty() =~= edits_output(out@));
    }
    out
}

/// Consumption counts are never negative while no tag exceeds one.
proof fn lemma_pairs_consumed_nonneg(ps: Seq<(char, i64)>, i: int)
    requires
        forall|q: int| 0 <= q < ps.len() ==> (#[trigger] ps[q]).1 <= 1,
    ensures
        crate::chars::pairs_consumed(ps, i) >= 0,
    decreases ps.len() - i,
{
    if 0 <= i && i < ps.len() {
        lemma_pairs_consumed_nonneg(ps, i + 1);
    }
}

/// Edits trimming whitespace at the chosen ends.
#[verifier::loop_isolation(false)]
fn strip_edits(s: &Vec<char>, left: bool, right: bool) -> (r: Vec<Edit>)
    ensures
        edits_take_sum(r@) == s@.len(),
        edits_output(r@) == spec_strip_trim(s@, left, right),
{
    let n = s.len();
    let a: usize = if left {
        let mut i: usize = 0;
        while i < n && is_whitespace_char(s[i])
            invariant
                i <= n,
                spec_ws_run(s@, 0) == i + spec_ws_run(s@, i as int),
            decreases n - i,
        {
            i += 1;
        }
        proof {
            assert(spec_ws_run(s@, i as int) == 0);
        }
        i
    } else {
        0
    };
    let b: usize = if right {
        let mut j: usize = n;
        while j > 0 && is_whitespace_char(s[j - 1])
            invariant
                j <= n,
                spec_ws_back(s@, n as int) == (n - j) + spec_ws_back(s@, j as int),
            decreases j,
        {
            j -= 1;
        }
        proof {
            assert(spec_ws_back(s@, j as int) == 0);
        }
        n - j
    } else {
        0
    };
    proof {
        lemma_ws_run_le(s@, 0);
        lemma_ws_back_le(s@, n as int);
    }
    let keep_from = a;
    let keep_to = if n - b >= a { n - b } else { a };
    let mut out: Vec<Edit> = Vec::new();
    if keep_from > 0 {
        let ghost before = out@;
        out.push(Edit::replacing(keep_from, Vec::new()));
        proof {
            lemma_take_sum_push(before, out@[out@.len() - 1]);
            lemma_output_push(before, out@[out@.len() - 1]);
            assert(out@.drop_last() =~= before);
        }
    }
    crate::replace::push_keeps(&mut out, s, keep_from, keep_to);
    if keep_to < n {
        let ghost before = out@;
        out.push(Edit::replacing(n - keep_to, Vec::new()));
        proof {
            lemma_take_sum_push(before, out@[out@.len() - 1]);
            lemma_output_push(before, out@[out@.len() - 1]);
            assert(out@.drop_last() =~= before);
        }
    }
    proof {
        assert(edits_output(out@) =~= s@.subrange(keep_from as int, keep_to as int));
        if a + b <= s@.len() {
            assert(keep_to == n - b);
            assert(edits_output(out@) =~= spec_strip_trim(s@, left, right));
        } else {
            assert(keep_to == keep_from);
            assert(edits_output(out@) =~= spec_strip_trim(s@, left, right));
        }
    }
    out
}

impl Normalizer {
    /// Applies the normalizer in place. The correspondence table stays
    /// well-formed and the original text untouched; success comes exactly
    /// when `norm_ok` holds, the produced text is then exactly
    /// `norm_content`, a failure reports `norm_err`, and in every case the
    /// final text is `norm_state` (a failing step leaves its input as it
    /// was; a failing sequence keeps its successful prefix's work).
    pub fn normalize(&self, ns: &mut NormalizedString) -> (r: Result<(), NormalizerError>)
        requires
            old(ns).wf(),
        ensures
            final(ns).wf(),
            final(ns).original@ == old(ns).original@,
            r is Ok <==> norm_ok(*self, old(ns).normalized@),
            r is Ok ==> final(ns).normalized@ == norm_content(*self, old(ns).normalized@),
            r is Err ==> r->Err_0 == norm_err(*self, old(ns).normalized@),
            final(ns).normalized@ == norm_state(*self, old(ns).normalized@),
        decreases *self,
    {
        match self {
            Normalizer::Bert { clean_text, handle_chinese_chars, strip_accents, lowercase } => {
                if *clean_text {
                    let ed = clean_edits(&ns.normalized);
                    ns.apply_edits(&ed);
                }
                if *handle_chinese_chars {
                    let ed = cjk_edits(&ns.normalized);
                    ns.apply_edits(&ed);
                }
                if *strip_accents {
                    let ps = nfd_pairs(&ns.normalized);
                    let ed = pairs_edits(&ps, ns.normalized.len());
                    ns.apply_edits(&ed);
                    let ed2 = marks_edits(&ns.normalized);
                    ns.apply_edits(&ed2);
                }
                if *lowercase {
                    let ed = lower_edits(&ns.normalized);
                    ns.apply_edits(&ed);
                }
                Ok(())
            },
            Normalizer::Strip { left, right } => {
                let ed = strip_edits(&ns.normalized, *left, *right);
                ns.apply_edits(&ed);
                Ok(())
            },
            Normalizer::StripAccents => {
                let ed = marks_edits(&ns.normalized);
                ns.apply_edits(&ed);
                Ok(())
            },
            Normalizer::Nfc => {
                let ps = nfc_pairs(&ns.normalized);
                let ed = pairs_edits(&ps, ns.normalized.len());
                ns.apply_edits(&ed);
                Ok(())
            },
            Normalizer::Nfd => {
                let ps = nfd_pairs(&ns.normalized);
                let ed = pairs_edits(&ps, ns.normalized.len());
                ns.apply_edits(&ed);
                Ok(())
            },
            Normalizer::Nfkc => {
                let ps = nfkc_pairs(&ns.normalized);
                let ed = pairs_edits(&ps, ns.normalized.len());
                ns.apply_edits(&ed);
                Ok(())
            },
            Normalizer::Nfkd => {
                let ps = nfkd_pairs(&ns.normalized);
                let ed = pairs_edits(&ps, ns.normalized.len());
                ns.apply_edits(&ed);
                Ok(())
            },
            Normalizer::Lowercase => {
                let ed = lower_edits(&ns.normalized);
                ns.apply_edits(&ed);
                Ok(())
            },
            Normalizer::Nmt => {
                let ed = nmt_edits(&ns.normalized);
                ns.apply_edits(&ed);
                Ok(())
            },
            Normalizer::Precompiled { rules } => {
                let ed = precompiled_edits(rules, &ns.normalized);
                ns.apply_edits(&ed);
                Ok(())
            },
            Normalizer::Replace { pattern, content } => {
                let repl = chars_of_str(content.as_str());
                match pattern {
                    ReplacePattern::Literal(p) => {
                        let pc = chars_of_str(p.as_str());
                        let ed = replace_lit_edits(&ns.normalized, &pc, &repl);
                        ns.apply_edits(&ed);
                        Ok(())
                    },
                    ReplacePattern::Regex(p) => {
                        let text = ns.get();
                        match regex_find_spans(p.as_str(), text.as_str()) {
                            None => Err(NormalizerError::InvalidPattern),
                            Some(bs) => match convert_spans(&ns.normalized, &bs) {
                                None => Err(NormalizerError::InvalidTransform),
                                Some(cs) => {
                                    let ed = splice_edits(&ns.normalized, &cs, &repl);
                                    ns.apply_edits(&ed);
                                    Ok(())
                                },
                            },
                        }
                    },
                }
            },
            Normalizer::Sequence { items } => seq_normalize(items, ns),
        }
    }
}

/// Applies each member in order; each sees the text the one before left.
#[verifier::loop_isolation(false)]
fn seq_normalize(items: &Vec<Normalizer>, ns: &mut NormalizedString) -> (r: Result<(), NormalizerError>)
    requires
        old(ns).wf(),
    ensures
        final(ns).wf(),
        final(ns).original@ == old(ns).original@,
        r is Ok <==> seq_ok(items@, old(ns).normalized@, 0),
        r is Ok ==> final(ns).normalized@ == seq_content(items@, old(ns).normalized@, 0),
        r is Err ==> r->Err_0 == seq_err(items@, old(ns).normalized@, 0),
        final(ns).normalized@ == seq_state(items@, old(ns).normalized@, 0),
    decreases items@, 0int,
{
    let ghost s0 = ns.normalized@;
    let m = items.len();
    for i in 0..m
        invariant
            m == items@.len(),
            ns.wf(),
            ns.original@ == old(ns).original@,
            seq_ok(items@, s0, 0) == seq_ok(items@, ns.normalized@, i as int),
            seq_content(items@, s0, 0) == seq_content(items@, ns.normalized@, i as int),
            seq_err(items@, s0, 0) == seq_err(items@, ns.normalized@, i as int),
            seq_state(items@, s0, 0) == seq_state(items@, ns.normalized@, i as int),
    {
        let ghost cur = ns.normalized@;
        match items[i].normalize(ns) {
            Ok(()) => {
                proof {
                    assert(norm_ok(items@[i as int], cur));
                    assert(ns.normalized@ == norm_content(items@[i as int], cur));
                }
            },
            Err(e) => {
                proof {
                    assert(!norm_ok(items@[i as int], cur));
                    assert(e == norm_err(items@[i as int], cur));
                    assert(ns.normalized@ == norm_state(items@[i as int], cur));
                    assert(!seq_ok(items@, cur, i as int));
                    assert(seq_err(items@, cur, i as int) == norm_err(items@[i as int], cur));
                    assert(seq_state(items@, cur, i as int) == norm_state(items@[i as int], cur));
                }
                return Err(e);
            },
        }
    }
    Ok(())
}

/// Applies a normalizer to a buffer.
pub fn normalize(normalizer: &Normalizer, normalized: &mut NormalizedString) -> (r: Result<(), NormalizerError>)
    requires
        old(normalized).wf(),
    ensures
        final(normalized).wf(),
        final(normalized).original@ == old(normalized).original@,
        r is Ok <==> norm_ok(*normalizer, old(normalized).normalized@),
        r is Ok ==> final(normalized).normalized@
            == norm_content(*normalizer, old(normalized).normalized@),
        r is Err ==> r->Err_0 == norm_err(*normalizer, old(normalized).normalized@),
        final(normalized).normalized@ == norm_state(*normalizer, old(normalized).normalized@),
{
    normalizer.normalize(normalized)
}

/// The Bert text normalizer; an unspecified accent choice follows the
/// lowercasing flag.
pub fn bert_normalizer(
    clean_text: bool,
    handle_chinese_chars: bool,
    strip_accents: BertStripAccents,
    lowercase: bool,
) -> (r: Normalizer)
    ensures
        r == (Normalizer::Bert {
            clean_text,
            handle_chinese_chars,
            strip_accents: (match strip_accents {
                BertStripAccents::True => true,
                BertStripAccents::False => false,
                BertStripAccents::DeterminedByLowercase => lowercase,
            }),
            lowercase,
        }),
{
    let sa = match strip_accents {
        BertStripAccents::True => true,
        BertStripAccents::False => false,
        BertStripAccents::DeterminedByLowercase => lowercase,
    };
    Normalizer::Bert { clean_text, handle_chinese_chars, strip_accents: sa, lowercase }
}

pub fn strip_normalizer(strip_left: bool, strip_right: bool) -> (r: Normalizer)
    ensures
        r == (Normalizer::Strip { left: strip_left, right: strip_right }),
{
    Normalizer::Strip { left: strip_left, right: strip_right }
}

pub fn strip_accents_normalizer() -> (r: Normalizer)
    ensures
        r == Normalizer::StripAccents,
{
    Normalizer::StripAccents
}

pub fn nfc_normalizer() -> (r: Normalizer)
    ensures
        r == Normalizer::Nfc,
{
    Normalizer::Nfc
}

pub fn nfd_normalizer() -> (r: Normalizer)
    ensures
        r == Normalizer::Nfd,
{
    Normalizer::Nfd
}

pub fn nfkc_normalizer() -> (r: Normalizer)
    ensures
        r == Normalizer::Nfkc,
{
    Normalizer::Nfkc
}

pub fn nfkd_normalizer() -> (r: Normalizer)
    ensures
        r == Normalizer::Nfkd,
{
    Normalizer::Nfkd
}

pub fn lowercase_normalizer() -> (r: Normalizer)
    ensures
        r == Normalizer::Lowercase,
{
    Normalizer::Lowercase
}

pub fn nmt_normalizer() -> (r: Normalizer)
    ensures
        r == Normalizer::Nmt,
{
    Normalizer::Nmt
}

/// A literal replacement. Construction always succeeds: a literal cannot
/// fail to compile, and the empty pattern means insertion at every
/// position.
pub fn replace_literal_normalizer(pattern: &str, content: &str) -> (r: Result<Normalizer, NormalizerError>)
    ensures
        r is Ok,
        (r->Ok_0 matches Normalizer::Replace { pattern: ReplacePattern::Literal(p), content: c }
            && p@ == pattern@ && c@ == content@),
{
    let pc = chars_of_str(pattern);
    let p = string_from_chars(&pc);
    let c = chars_of_str(content);
    let cs = string_from_chars(&c);
    Ok(Normalizer::Replace { pattern: ReplacePattern::Literal(p), content: cs })
}

/// A regular-expression replacement; a pattern that does not compile is
/// rejected, exactly when the regex engine rejects it.
pub fn replace_regex_normalizer(pattern: &str, content: &str) -> (r: Result<Normalizer, NormalizerError>)
    ensures
        match r {
            Ok(n) => regex_pattern_ok(pattern@)
                && (n matches Normalizer::Replace { pattern: ReplacePattern::Regex(p), content: c }
                    && p@ == pattern@ && c@ == content@),
            Err(e) => e == NormalizerError::InvalidPattern && !regex_pattern_ok(pattern@),
        },
{
    let probe = String::new();
    match regex_find_spans(pattern, probe.as_str()) {
        Some(_) => {
            let pc = chars_of_str(pattern);
            let p = string_from_chars(&pc);
            let c = chars_of_str(content);
            let cs = string_from_chars(&c);
            Ok(Normalizer::Replace { pattern: ReplacePattern::Regex(p), content: cs })
        },
        None => Err(NormalizerError::InvalidPattern),
    }
}

/// A sequence of normalizers, applied in order.
pub fn sequence_normalizer(normalizers: Vec<Normalizer>) -> (r: Normalizer)
    ensures
        r == (Normalizer::Sequence { items: normalizers }),
{
    Normalizer::Sequence { items: normalizers }
}

/// A decoded substitution table: a rule count, then each rule's pattern
/// (non-empty) and replacement as length-prefixed strings, filling the
/// image exactly; `None` on anything else.
pub open spec fn spec_dec_rules_items(b: Seq<u8>, pos: int, count: int) -> Option<(Seq<(Seq<char>, Seq<char>)>, int)>
    decreases count,
{
    if count <= 0 {
        Some((Seq::<(Seq<char>, Seq<char>)>::empty(), pos))
    } else {
        match crate::serial::spec_dec_str(b, pos) {
            Some((p, p2)) => if p.len() >= 1 {
                match crate::serial::spec_dec_str(b, p2) {
                    Some((c, p3)) => match spec_dec_rules_items(b, p3, count - 1) {
                        Some((rest, p4)) => Some((seq![(p, c)] + rest, p4)),
                        None => None,
                    },
                    None => None,
                }
            } else {
                None
            },
            None => None,
        }
    }
}

pub open spec fn spec_dec_rules(b: Seq<u8>) -> Option<Seq<(Seq<char>, Seq<char>)>> {
    match crate::serial::spec_dec_u64(b, 0) {
        Some((count, p)) => match spec_dec_rules_items(b, p, count as int) {
            Some((rs, p2)) => if p2 == b.len() {
                Some(rs)
            } else {
                None
            },
            None => None,
        },
        None => None,
    }
}

/// The rules of a table, as plain pairs.
pub open spec fn rules_image(rules: Seq<SubstRule>) -> Seq<(Seq<char>, Seq<char>)> {
    rules.map_values(|r: SubstRule| (r.pattern@, r.content@))
}

/// A successful rule decode consumes at least sixteen bytes per rule.
proof fn lemma_dec_rules_floor(b: Seq<u8>, pos: int, count: int)
    requires
        0 <= count,
        spec_dec_rules_items(b, pos, count) is Some,
    ensures
        count > 0 ==> pos + 16 * count <= b.len() && pos >= 0,
        spec_dec_rules_items(b, pos, count)->Some_0.1 >= pos,
    decreases count,
{
    if count > 0 {
        let (p, p2) = crate::serial::spec_dec_str(b, pos)->Some_0;
        crate::serial::lemma_dec_str_advance(b, pos);
        let (c, p3) = crate::serial::spec_dec_str(b, p2)->Some_0;
        crate::serial::lemma_dec_str_advance(b, p2);
        lemma_dec_rules_floor(b, p3, count - 1);
        assert(16 * count == 16 * (count - 1) + 16) by (nonlinear_arith);
    }
}

/// A substitution table from its byte image: exactly the rules
/// `spec_dec_rules` reads, and the serialization error exactly when the
/// image is malformed (truncated, trailing bytes, an empty pattern, an
/// invalid character).
#[verifier::loop_isolation(false)]
pub fn precompiled_normalizer(precompiled_charsmap: &Vec<u8>) -> (r: Result<Normalizer, NormalizerError>)
    ensures
        match r {
            Ok(n) => spec_dec_rules(precompiled_charsmap@) is Some
                && (n matches Normalizer::Precompiled { rules }
                    && rules_image(rules@) == spec_dec_rules(precompiled_charsmap@)->Some_0),
            Err(e) => e == NormalizerError::InvalidPrecompiledMap
                && spec_dec_rules(precompiled_charsmap@) is None,
        },
{
    let b = precompiled_charsmap;
    let (count, start) = match dec_u64(b, 0) {
        Some(x) => x,
        None => {
            return Err(NormalizerError::InvalidPrecompiledMap);
        },
    };
    let bn = b.len();
    if count > (usize::MAX as u64) / 16 {
        proof {
            if spec_dec_rules_items(b@, start as int, count as int) is Some {
                lemma_dec_rules_floor(b@, start as int, count as int);
                assert(16 * (count as int) > usize::MAX) by (nonlinear_arith)
                    requires count as int > (usize::MAX as u64 / 16) as int;
            }
        }
        return Err(NormalizerError::InvalidPrecompiledMap);
    }
    let count = count as usize;
    let mut pos = start;
    let mut rules: Vec<SubstRule> = Vec::new();
    let mut done: usize = 0;
    proof {
        if spec_dec_rules_items(b@, start as int, count as int) is Some {
            let r0 = spec_dec_rules_items(b@, start as int, count as int)->Some_0;
            assert(Seq::<(Seq<char>, Seq<char>)>::empty() + r0.0 =~= r0.0);
        }
    }
    while done < count
        invariant
            done <= count,
            (match spec_dec_rules_items(b@, pos as int, (count - done) as int) {
                Some(rest) => spec_dec_rules_items(b@, start as int, count as int)
                    == Some((rules_image(rules@) + rest.0, rest.1)),
                None => spec_dec_rules_items(b@, start as int, count as int) is None,
            }),
        decreases count - done,
    {
        let (p, pos2) = match dec_str(b, pos) {
            Some(x) => x,
            None => {
                return Err(NormalizerError::InvalidPrecompiledMap);
            },
        };
        let (c, pos3) = match dec_str(b, pos2) {
            Some(x) => x,
            None => {
                return Err(NormalizerError::InvalidPrecompiledMap);
            },
        };
        let pv = chars_of_str(p.as_str());
        if pv.len() == 0 {
            return Err(NormalizerError::InvalidPrecompiledMap);
        }
        let cv = chars_of_str(c.as_str());
        proof {
            if spec_dec_rules_items(b@, pos3 as int, (count - done - 1) as int) is Some {
                let r2 = spec_dec_rules_items(b@, pos3 as int, (count - done - 1) as int)->Some_0;
                assert(rules_image(rules@) + (seq![(p@, c@)] + r2.0)
                    =~= (rules_image(rules@) + seq![(p@, c@)]) + r2.0);
            }
        }
        let ghost before = rules@;
        rules.push(SubstRule { pattern: pv, content: cv });
        proof {
            assert(rules_image(rules@) =~= rules_image(before) + seq![(p@, c@)]);
        }
        pos = pos3;
        done += 1;
    }
    proof {
        assert(spec_dec_rules_items(b@, pos as int, 0)
            == Some((Seq::<(Seq<char>, Seq<char>)>::empty(), pos as int)));
        assert(rules_image(rules@) + Seq::<(Seq<char>, Seq<char>)>::empty()
            =~= rules_image(rules@));
    }
    if pos != b.len() {
        return Err(NormalizerError::InvalidPrecompiledMap);
    }
    Ok(Normalizer::Precompiled { rules })
}

/// The byte image of a substitution table, as `precompiled_normalizer`
/// reads it.
pub fn precompiled_blob(rules: &Vec<(String, String)>) -> (r: Vec<u8>)
    ensures
        true,
{
    let mut out: Vec<u8> = Vec::new();
    let n = rules.len();
    enc_u64(&mut out, n as u64);
    for i in 0..n
        invariant
            n == rules@.len(),
    {
        enc_str(&mut out, &rules[i].0);
        enc_str(&mut out, &rules[i].1);
    }
    out
}

} // verus!
