//! Character classification and the small trusted boundary to std's case
//! mapping and the Unicode normalization crate.

use vstd::prelude::*;
use unicode_normalization_alignments::UnicodeNormalization;

verus! {

/// Unicode `White_Space` code points.
pub open spec fn spec_is_whitespace(c: char) -> bool {
    let v = c as u32;
    (0x09 <= v && v <= 0x0D) || v == 0x20 || v == 0x85 || v == 0xA0 || v == 0x1680
        || (0x2000 <= v && v <= 0x200A) || v == 0x2028 || v == 0x2029 || v == 0x202F
        || v == 0x205F || v == 0x3000
}

pub fn is_whitespace_char(c: char) -> (r: bool)
    ensures
        r == spec_is_whitespace(c),
{
    let v = c as u32;
    (0x09 <= v && v <= 0x0D) || v == 0x20 || v == 0x85 || v == 0xA0 || v == 0x1680
        || (0x2000 <= v && v <= 0x200A) || v == 0x2028 || v == 0x2029 || v == 0x202F
        || v == 0x205F || v == 0x3000
}

/// Unicode `Cc` control code points.
pub open spec fn spec_is_control(c: char) -> bool {
    let v = c as u32;
    v < 0x20 || v == 0x7F || (0x80 <= v && v <= 0x9F)
}

pub fn is_control_char(c: char) -> (r: bool)
    ensures
        r == spec_is_control(c),
{
    let v = c as u32;
    v < 0x20 || v == 0x7F || (0x80 <= v && v <= 0x9F)
}

/// CJK ideograph blocks, as the Bert normalizer spaces them out.
pub open spec fn spec_is_cjk(c: char) -> bool {
    let v = c as u32;
    (0x4E00 <= v && v <= 0x9FFF) || (0x3400 <= v && v <= 0x4DBF)
        || (0x20000 <= v && v <= 0x2A6DF) || (0x2A700 <= v && v <= 0x2B73F)
        || (0x2B740 <= v && v <= 0x2B81F) || (0x2B820 <= v && v <= 0x2CEAF)
        || (0xF900 <= v && v <= 0xFAFF) || (0x2F800 <= v && v <= 0x2FA1F)
}

pub fn is_cjk_char(c: char) -> (r: bool)
    ensures
        r == spec_is_cjk(c),
{
    let v = c as u32;
    (0x4E00 <= v && v <= 0x9FFF) || (0x3400 <= v && v <= 0x4DBF)
        || (0x20000 <= v && v <= 0x2A6DF) || (0x2A700 <= v && v <= 0x2B73F)
        || (0x2B740 <= v && v <= 0x2B81F) || (0x2B820 <= v && v <= 0x2CEAF)
        || (0xF900 <= v && v <= 0xFAFF) || (0x2F800 <= v && v <= 0x2FA1F)
}

/// Code points the machine-translation normalizer removes outright.
pub open spec fn spec_nmt_removed(c: char) -> bool {
    let v = c as u32;
    (0x0001 <= v && v <= 0x0008) || v == 0x000B || (0x000E <= v && v <= 0x001F) || v == 0x007F
        || v == 0x008F || v == 0x009F
}

pub fn is_nmt_removed(c: char) -> (r: bool)
    ensures
        r == spec_nmt_removed(c),
{
    let v = c as u32;
    (0x0001 <= v && v <= 0x0008) || v == 0x000B || (0x000E <= v && v <= 0x001F) || v == 0x007F
        || v == 0x008F || v == 0x009F
}

/// Code points the machine-translation normalizer turns into plain spaces.
pub open spec fn spec_nmt_spaced(c: char) -> bool {
    let v = c as u32;
    v == 0x0009 || v == 0x000A || v == 0x000C || v == 0x000D || v == 0x1680
        || (0x200B <= v && v <= 0x200F) || v == 0x2028 || v == 0x2029 || v == 0x2581
        || v == 0xFEFF || v == 0xFFFD
}

pub fn is_nmt_spaced(c: char) -> (r: bool)
    ensures
        r == spec_nmt_spaced(c),
{
    let v = c as u32;
    v == 0x0009 || v == 0x000A || v == 0x000C || v == 0x000D || v == 0x1680
        || (0x200B <= v && v <= 0x200F) || v == 0x2028 || v == 0x2029 || v == 0x2581
        || v == 0xFEFF || v == 0xFFFD
}

/// Byte length of a character's UTF-8 encoding.
pub open spec fn spec_utf8_len(c: char) -> int {
    let v = c as u32;
    if v < 0x80 {
        1
    } else if v < 0x800 {
        2
    } else if v < 0x10000 {
        3
    } else {
        4
    }
}

pub fn utf8_len_of(c: char) -> (r: usize)
    ensures
        r == spec_utf8_len(c),
{
    let v = c as u32;
    if v < 0x80 {
        1
    } else if v < 0x800 {
        2
    } else if v < 0x10000 {
        3
    } else {
        4
    }
}

/// Byte length of the UTF-8 encoding of a character sequence.
pub open spec fn spec_utf8_len_seq(s: Seq<char>) -> int
    decreases s.len(),
{
    if s.len() == 0 {
        0
    } else {
        spec_utf8_len(s[0]) + spec_utf8_len_seq(s.drop_first())
    }
}

/// The lowercase mapping of one character, as std's Unicode case folding
/// yields it.
pub uninterp spec fn lower_of_char(c: char) -> Seq<char>;

/// Relies on char::to_lowercase: the mapping depends on the character
/// alone, and yields at least the character itself when no mapping exists.
#[verifier::external_body]
pub fn lower_char(c: char) -> (r: Vec<char>)
    ensures
        r@ == lower_of_char(c),
        r@.len() >= 1,
{
    c.to_lowercase().collect()
}

/// Whether a character is a Unicode combining mark (category M).
pub uninterp spec fn spec_combining_mark(c: char) -> bool;

/// Relies on unicode_normalization_alignments::char::is_combining_mark,
/// a pure table lookup of the character's category.
#[verifier::external_body]
pub fn is_combining_mark_char(c: char) -> (r: bool)
    ensures
        r == spec_combining_mark(c),
{
    unicode_normalization_alignments::char::is_combining_mark(c)
}

/// How many input characters a tagged item consumes: a tag of one marks
/// an inserted character, a tag `t <= 0` an item standing for `1 - t`
/// input characters.
pub open spec fn pair_take(t: i64) -> int {
    if t == 1 {
        0
    } else {
        1 - t
    }
}

/// Input characters consumed by the stream from item `i` on.
pub open spec fn pairs_consumed(ps: Seq<(char, i64)>, i: int) -> int
    decreases ps.len() - i,
{
    if i < 0 || i >= ps.len() {
        0
    } else {
        pair_take(ps[i].1) + pairs_consumed(ps, i + 1)
    }
}

/// A well-tagged stream over a text of `n` characters: no tag exceeds
/// one, and the tags account for each input character exactly once.
pub open spec fn pairs_valid(ps: Seq<(char, i64)>, n: int) -> bool {
    &&& forall|q: int| 0 <= q < ps.len() ==> (#[trigger] ps[q]).1 <= 1
    &&& pairs_consumed(ps, 0) == n
}

/// The canonical-decomposition stream of a text: each item is an output
/// character with its consumption tag (1 = inserted, n <= 0 = the item
/// replaces 1 - n input characters).
pub uninterp spec fn nfd_pairs_of(s: Seq<char>) -> Seq<(char, i64)>;

/// Relies on UnicodeNormalization::nfd: a pure function of the character
/// sequence. Its decomposition tags one item per input character with
/// zero and the extra items with one, so no tag exceeds one and the tags
/// account for each input character exactly once.
#[verifier::external_body]
pub fn nfd_pairs(s: &Vec<char>) -> (r: Vec<(char, i64)>)
    ensures
        r@ == nfd_pairs_of(s@),
        pairs_valid(r@, s@.len() as int),
{
    s.iter().cloned().nfd().map(|(c, n)| (c, n as i64)).collect()
}

/// The compatibility-decomposition stream of a text, tagged as in
/// `nfd_pairs_of`.
pub uninterp spec fn nfkd_pairs_of(s: Seq<char>) -> Seq<(char, i64)>;

/// Relies on UnicodeNormalization::nfkd: a pure function of the character
/// sequence, tagged as the canonical form is.
#[verifier::external_body]
pub fn nfkd_pairs(s: &Vec<char>) -> (r: Vec<(char, i64)>)
    ensures
        r@ == nfkd_pairs_of(s@),
        pairs_valid(r@, s@.len() as int),
{
    s.iter().cloned().nfkd().map(|(c, n)| (c, n as i64)).collect()
}

/// The canonical-composition stream of a text, tagged as in `nfd_pairs_of`.
pub uninterp spec fn nfc_pairs_of(s: Seq<char>) -> Seq<(char, i64)>;

/// Relies on UnicodeNormalization::nfc: a pure function of the character
/// sequence. Composition adds the tags of the items it merges (minus one
/// per merge), which keeps every tag at most one and the total
/// consumption equal to the input length.
#[verifier::external_body]
pub fn nfc_pairs(s: &Vec<char>) -> (r: Vec<(char, i64)>)
    ensures
        r@ == nfc_pairs_of(s@),
        pairs_valid(r@, s@.len() as int),
{
    s.iter().cloned().nfc().map(|(c, n)| (c, n as i64)).collect()
}

/// The compatibility-composition stream of a text, tagged as in
/// `nfd_pairs_of`.
pub uninterp spec fn nfkc_pairs_of(s: Seq<char>) -> Seq<(char, i64)>;

/// Relies on UnicodeNormalization::nfkc: a pure function of the character
/// sequence, tagged as the canonical composition is.
#[verifier::external_body]
pub fn nfkc_pairs(s: &Vec<char>) -> (r: Vec<(char, i64)>)
    ensures
        r@ == nfkc_pairs_of(s@),
        pairs_valid(r@, s@.len() as int),
{
    s.iter().cloned().nfkc().map(|(c, n)| (c, n as i64)).collect()
}

/// Relies on String::push: appends exactly the given character.
#[verifier::external_body]
pub fn push_char(s: &mut String, c: char)
    ensures
        final(s)@ == old(s)@.push(c),
{
    s.push(c);
}

/// Builds a string holding exactly the given characters.
pub fn string_from_chars(v: &Vec<char>) -> (r: String)
    ensures
        r@ == v@,
{
    let mut s = String::new();
    let n = v.len();
    for i in 0..n
        invariant
            n == v.len(),
            s@ =~= v@.take(i as int),
    {
        push_char(&mut s, v[i]);
    }
    proof {
        assert(v@.take(n as int) =~= v@);
    }
    s
}

/// Whether two character vectors hold the same text.
pub fn eq_chars(a: &Vec<char>, b: &Vec<char>) -> (r: bool)
    ensures
        r == (a@ == b@),
{
    if a.len() != b.len() {
        proof {
            assert(a@ != b@);
        }
        return false;
    }
    let n = a.len();
    for i in 0..n
        invariant
            n == a@.len() == b@.len(),
            forall|q: int| 0 <= q < i ==> a@[q] == b@[q],
    {
        if a[i] != b[i] {
            return false;
        }
    }
    proof {
        assert(a@ =~= b@);
    }
    true
}

/// An equal copy of a character vector.
pub fn copy_chars(v: &Vec<char>) -> (r: Vec<char>)
    ensures
        r@ == v@,
{
    let mut out: Vec<char> = Vec::new();
    let n = v.len();
    for i in 0..n
        invariant
            n == v@.len(),
            out@ =~= v@.take(i as int),
    {
        out.push(v[i]);
    }
    proof {
        assert(v@.take(n as int) =~= v@);
    }
    out
}

/// Whether `v` starts with the text of `p`.
pub fn starts_with_chars(v: &Vec<char>, p: &Vec<char>) -> (r: bool)
    ensures
        r == (v@.len() >= p@.len() && v@.take(p@.len() as int) == p@),
{
    if v.len() < p.len() {
        return false;
    }
    let m = p.len();
    for i in 0..m
        invariant
            m == p@.len() <= v@.len(),
            forall|q: int| 0 <= q < i ==> v@[q] == p@[q],
    {
        if v[i] != p[i] {
            proof {
                assert(v@.take(p@.len() as int)[i as int] != p@[i as int]);
            }
            return false;
        }
    }
    proof {
        assert(v@.take(m as int) =~= p@);
    }
    true
}

/// The characters of a string, in order.
pub fn chars_of_str(s: &str) -> (r: Vec<char>)
    ensures
        r@ == s@,
{
    let n = s.unicode_len();
    let mut v: Vec<char> = Vec::new();
    for i in 0..n
        invariant
            n == s@.len(),
            v@ =~= s@.take(i as int),
    {
        v.push(s.get_char(i));
    }
    proof {
        assert(s@.take(n as int) =~= s@);
    }
    v
}

} // verus!
