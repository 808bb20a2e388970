//! Persistence of models as bytes. The encoding is length-prefixed and
//! fixed-width: counts as eight little-endian bytes, ids and characters as
//! four, scores as eight. Decoding validates everything it reads; loading
//! re-validates the model itself. Saving and loading round-trip exactly.

use vstd::prelude::*;

verus! {

pub open spec fn spec_enc_u64(v: u64) -> Seq<u8> {
    seq![
        (v & 0xff) as u8,
        ((v >> 8) & 0xff) as u8,
        ((v >> 16) & 0xff) as u8,
        ((v >> 24) & 0xff) as u8,
        ((v >> 32) & 0xff) as u8,
        ((v >> 40) & 0xff) as u8,
        ((v >> 48) & 0xff) as u8,
        ((v >> 56) & 0xff) as u8,
    ]
}

pub open spec fn spec_comb_u64(b: Seq<u8>, pos: int) -> u64 {
    (b[pos] as u64) | (b[pos + 1] as u64) << 8 | (b[pos + 2] as u64) << 16
        | (b[pos + 3] as u64) << 24 | (b[pos + 4] as u64) << 32 | (b[pos + 5] as u64) << 40
        | (b[pos + 6] as u64) << 48 | (b[pos + 7] as u64) << 56
}

pub open spec fn spec_dec_u64(b: Seq<u8>, pos: int) -> Option<(u64, int)> {
    if 0 <= pos && pos + 8 <= b.len() {
        Some((spec_comb_u64(b, pos), pos + 8))
    } else {
        None
    }
}

/// Combining the eight encoded bytes gives the value back.
pub proof fn lemma_u64_round_trip(v: u64)
    ensures
        spec_comb_u64(spec_enc_u64(v), 0) == v,
{
    assert((v & 0xff) as u8 as u64 | (((v >> 8) & 0xff) as u8 as u64) << 8
        | (((v >> 16) & 0xff) as u8 as u64) << 16 | (((v >> 24) & 0xff) as u8 as u64) << 24
        | (((v >> 32) & 0xff) as u8 as u64) << 32 | (((v >> 40) & 0xff) as u8 as u64) << 40
        | (((v >> 48) & 0xff) as u8 as u64) << 48 | (((v >> 56) & 0xff) as u8 as u64) << 56
        == v) by (bit_vector);
}

/// Decoding at an encoded value yields that value.
pub proof fn lemma_dec_enc_u64(b: Seq<u8>, pos: int, v: u64)
    requires
        0 <= pos,
        pos + 8 <= b.len(),
        b.subrange(pos, pos + 8) == spec_enc_u64(v),
    ensures
        spec_dec_u64(b, pos) == Some((v, pos + 8)),
{
    lemma_u64_round_trip(v);
    assert forall|k: int| 0 <= k < 8 implies b[pos + k] == spec_enc_u64(v)[k] by {
        assert(b.subrange(pos, pos + 8)[k] == b[pos + k]);
    }
    assert(spec_comb_u64(b, pos) == spec_comb_u64(spec_enc_u64(v), 0));
}

pub fn enc_u64(out: &mut Vec<u8>, v: u64)
    ensures
        final(out)@ == old(out)@ + spec_enc_u64(v),
{
    out.push((v & 0xff) as u8);
    out.push(((v >> 8) & 0xff) as u8);
    out.push(((v >> 16) & 0xff) as u8);
    out.push(((v >> 24) & 0xff) as u8);
    out.push(((v >> 32) & 0xff) as u8);
    out.push(((v >> 40) & 0xff) as u8);
    out.push(((v >> 48) & 0xff) as u8);
    out.push(((v >> 56) & 0xff) as u8);
    proof {
        assert(final(out)@ =~= old(out)@ + spec_enc_u64(v));
    }
}

pub fn dec_u64(b: &Vec<u8>, pos: usize) -> (r: Option<(u64, usize)>)
    ensures
        match r {
            Some(p) => spec_dec_u64(b@, pos as int) == Some((p.0, p.1 as int)),
            None => spec_dec_u64(b@, pos as int) is None,
        },
{
    let n = b.len();
    if pos >= n || n - pos < 8 {
        return None;
    }
    let v = (b[pos] as u64) | (b[pos + 1] as u64) << 8 | (b[pos + 2] as u64) << 16
        | (b[pos + 3] as u64) << 24 | (b[pos + 4] as u64) << 32 | (b[pos + 5] as u64) << 40
        | (b[pos + 6] as u64) << 48 | (b[pos + 7] as u64) << 56;
    Some((v, pos + 8))
}

/// A character is stored as its code point.
pub open spec fn spec_enc_char(c: char) -> Seq<u8> {
    spec_enc_u64(c as u32 as u64)
}

pub open spec fn spec_dec_char(b: Seq<u8>, pos: int) -> Option<(char, int)> {
    match spec_dec_u64(b, pos) {
        Some((v, p2)) => if v <= 0x10FFFF && !(0xD800 <= v && v <= 0xDFFF) {
            Some(((v as u32) as char, p2))
        } else {
            None
        },
        None => None,
    }
}

pub proof fn lemma_dec_enc_char(b: Seq<u8>, pos: int, c: char)
    requires
        0 <= pos,
        pos + 8 <= b.len(),
        b.subrange(pos, pos + 8) == spec_enc_char(c),
    ensures
        spec_dec_char(b, pos) == Some((c, pos + 8)),
{
    lemma_dec_enc_u64(b, pos, c as u32 as u64);
    vstd::utf8::char_is_scalar(c);
    vstd::utf8::char_u32_cast(c, c as u32);
}

pub fn enc_char(out: &mut Vec<u8>, c: char)
    ensures
        final(out)@ == old(out)@ + spec_enc_char(c),
{
    enc_u64(out, c as u64);
    proof {
        assert(c as u64 == c as u32 as u64);
    }
}

pub fn dec_char(b: &Vec<u8>, pos: usize) -> (r: Option<(char, usize)>)
    ensures
        match r {
            Some(p) => spec_dec_char(b@, pos as int) == Some((p.0, p.1 as int)),
            None => spec_dec_char(b@, pos as int) is None,
        },
{
    match dec_u64(b, pos) {
        Some((v, p2)) => {
            if v <= 0x10FFFF && !(0xD800 <= v && v <= 0xDFFF) {
                match char_from_u32(v as u32) {
                    Some(c) => {
                        proof {
                            vstd::utf8::char_u32_cast(c, c as u32);
                        }
                        Some((c, p2))
                    },
                    None => None,
                }
            } else {
                None
            }
        },
        None => None,
    }
}

/// A code point in range, as a character.
pub open spec fn spec_valid_scalar(v: u32) -> bool {
    v <= 0x10FFFF && !(0xD800 <= v && v <= 0xDFFF)
}

/// Relies on char::from_u32: `Some` exactly on Unicode scalar values, and
/// the returned character carries the given code point.
#[verifier::external_body]
pub fn char_from_u32(v: u32) -> (r: Option<char>)
    ensures
        r is Some <==> spec_valid_scalar(v),
        r is Some ==> r->Some_0 as u32 == v,
{
    char::from_u32(v)
}

/// The characters of a text, one after another.
pub open spec fn spec_enc_chars(s: Seq<char>, i: int) -> Seq<u8>
    decreases s.len() - i,
{
    if i < 0 || i >= s.len() {
        Seq::<u8>::empty()
    } else {
        spec_enc_char(s[i]) + spec_enc_chars(s, i + 1)
    }
}

pub open spec fn spec_dec_chars(b: Seq<u8>, pos: int, count: int) -> Option<(Seq<char>, int)>
    decreases count,
{
    if count <= 0 {
        Some((Seq::<char>::empty(), pos))
    } else {
        match spec_dec_char(b, pos) {
            Some((c, p2)) => match spec_dec_chars(b, p2, count - 1) {
                Some((rest, p3)) => Some((seq![c] + rest, p3)),
                None => None,
            },
            None => None,
        }
    }
}

pub proof fn lemma_enc_chars_len(s: Seq<char>, i: int)
    requires
        0 <= i <= s.len(),
    ensures
        spec_enc_chars(s, i).len() == (s.len() - i) * 8,
    decreases s.len() - i,
{
    if i < s.len() {
        lemma_enc_chars_len(s, i + 1);
        assert((s.len() - i) * 8 == (s.len() - (i + 1)) * 8 + 8) by (nonlinear_arith);
    } else {
        assert((s.len() - i) * 8 == 0) by (nonlinear_arith)
            requires i == s.len();
    }
}

pub proof fn lemma_dec_enc_chars(b: Seq<u8>, pos: int, s: Seq<char>, i: int)
    requires
        0 <= pos,
        0 <= i <= s.len(),
        pos + spec_enc_chars(s, i).len() <= b.len(),
        b.subrange(pos, pos + spec_enc_chars(s, i).len()) == spec_enc_chars(s, i),
    ensures
        spec_dec_chars(b, pos, s.len() - i) == Some((s.skip(i), pos + spec_enc_chars(s, i).len())),
    decreases s.len() - i,
{
    lemma_enc_chars_len(s, i);
    if i >= s.len() {
        assert(s.skip(i) =~= Seq::<char>::empty());
    } else {
        lemma_enc_chars_len(s, i + 1);
        let head = spec_enc_char(s[i]);
        let whole = spec_enc_chars(s, i);
        assert(whole == head + spec_enc_chars(s, i + 1));
        assert(b.subrange(pos, pos + 8) =~= whole.subrange(0, 8));
        assert(whole.subrange(0, 8) =~= head);
        lemma_dec_enc_char(b, pos, s[i]);
        assert(b.subrange(pos + 8, pos + 8 + spec_enc_chars(s, i + 1).len())
            =~= whole.subrange(8, whole.len() as int));
        assert(whole.subrange(8, whole.len() as int) =~= spec_enc_chars(s, i + 1));
        lemma_dec_enc_chars(b, pos + 8, s, i + 1);
        assert(seq![s[i]] + s.skip(i + 1) =~= s.skip(i));
    }
}

/// A string: its character count, then its characters.
pub open spec fn spec_enc_str(s: Seq<char>) -> Seq<u8> {
    spec_enc_u64(s.len() as u64) + spec_enc_chars(s, 0)
}

pub open spec fn spec_dec_str(b: Seq<u8>, pos: int) -> Option<(Seq<char>, int)> {
    match spec_dec_u64(b, pos) {
        Some((count, p2)) => spec_dec_chars(b, p2, count as int),
        None => None,
    }
}

pub proof fn lemma_dec_enc_str(b: Seq<u8>, pos: int, s: Seq<char>)
    requires
        0 <= pos,
        s.len() <= u64::MAX,
        pos + spec_enc_str(s).len() <= b.len(),
        b.subrange(pos, pos + spec_enc_str(s).len()) == spec_enc_str(s),
    ensures
        spec_dec_str(b, pos) == Some((s, pos + spec_enc_str(s).len())),
{
    lemma_enc_chars_len(s, 0);
    let whole = spec_enc_str(s);
    assert(b.subrange(pos, pos + 8) =~= whole.subrange(0, 8));
    assert(whole.subrange(0, 8) =~= spec_enc_u64(s.len() as u64));
    lemma_dec_enc_u64(b, pos, s.len() as u64);
    assert(b.subrange(pos + 8, pos + 8 + spec_enc_chars(s, 0).len())
        =~= whole.subrange(8, whole.len() as int));
    assert(whole.subrange(8, whole.len() as int) =~= spec_enc_chars(s, 0));
    lemma_dec_enc_chars(b, pos + 8, s, 0);
    assert(s.skip(0) =~= s);
}

/// Appends a string's encoding.
pub fn enc_str(out: &mut Vec<u8>, s: &String)
    ensures
        final(out)@ == old(out)@ + spec_enc_str(s@),
{
    let cs = crate::chars::chars_of_str(s.as_str());
    let n = cs.len();
    enc_u64(out, n as u64);
    let ghost base = out@;
    for i in 0..n
        invariant
            n == cs@.len(),
            cs@ == s@,
            out@ + spec_enc_chars(s@, i as int) =~= base + spec_enc_chars(s@, 0),
    {
        let ghost prev = out@;
        enc_char(out, cs[i]);
        proof {
            assert(spec_enc_char(s@[i as int]) + spec_enc_chars(s@, i + 1)
                == spec_enc_chars(s@, i as int));
            assert(out@ + spec_enc_chars(s@, i + 1)
                =~= prev + spec_enc_chars(s@, i as int));
        }
    }
    proof {
        assert(spec_enc_chars(s@, n as int) =~= Seq::<u8>::empty());
        assert(out@ + Seq::<u8>::empty() =~= out@);
        assert(base =~= old(out)@ + spec_enc_u64(s@.len() as u64));
    }
}

/// Reads a string's encoding.
#[verifier::loop_isolation(false)]
pub fn dec_str(b: &Vec<u8>, pos: usize) -> (r: Option<(String, usize)>)
    ensures
        match r {
            Some(p) => spec_dec_str(b@, pos as int) == Some((p.0@, p.1 as int)),
            None => spec_dec_str(b@, pos as int) is None,
        },
{
    let (count, mut p) = match dec_u64(b, pos) {
        Some(x) => x,
        None => {
            return None;
        },
    };
    let bn = b.len();
    if count > (usize::MAX as u64) {
        proof {
            if spec_dec_chars(b@, p as int, count as int) is Some {
                lemma_dec_chars_some_len(b@, p as int, count as int);
                assert(8 * (count as int) > usize::MAX) by (nonlinear_arith)
                    requires count as int > usize::MAX;
            }
        }
        return None;
    }
    let count = count as usize;
    let mut cs: Vec<char> = Vec::new();
    let mut done: usize = 0;
    proof {
        if spec_dec_chars(b@, p as int, count as int) is Some {
            let r0 = spec_dec_chars(b@, p as int, count as int)->Some_0;
            assert(Seq::<char>::empty() + r0.0 =~= r0.0);
        }
    }
    while done < count
        invariant
            done <= count,
            p <= b@.len(),
            (match spec_dec_chars(b@, p as int, (count - done) as int) {
                Some(rest) => spec_dec_chars(b@, spec_dec_str_start(b@, pos as int),
                    count as int) == Some((cs@ + rest.0, rest.1)),
                None => spec_dec_chars(b@, spec_dec_str_start(b@, pos as int),
                    count as int) is None,
            }),
        decreases count - done,
    {
        match dec_char(b, p) {
            Some((c, p2)) => {
                proof {
                    let rest_old = spec_dec_chars(b@, p as int, (count - done) as int);
                    assert(spec_dec_chars(b@, p as int, (count - done) as int)
                        == (match spec_dec_chars(b@, p2 as int, (count - done - 1) as int) {
                            Some(r2) => Some((seq![c] + r2.0, r2.1)),
                            None => None::<(Seq<char>, int)>,
                        }));
                    if spec_dec_chars(b@, p2 as int, (count - done - 1) as int) is Some {
                        let r2 = spec_dec_chars(b@, p2 as int, (count - done - 1) as int)->Some_0;
                        assert(cs@ + (seq![c] + r2.0) =~= (cs@ + seq![c]) + r2.0);
                    }
                }
                cs.push(c);
                p = p2;
                proof {
                    assert(p2 <= b@.len());
                }
            },
            None => {
                proof {
                    assert(spec_dec_chars(b@, p as int, (count - done) as int) is None);
                }
                return None;
            },
        }
        done += 1;
    }
    proof {
        assert(spec_dec_chars(b@, p as int, 0) == Some((Seq::<char>::empty(), p as int)));
        assert(cs@ + Seq::<char>::empty() =~= cs@);
    }
    let s = crate::chars::string_from_chars(&cs);
    Some((s, p))
}

/// Where a string's characters begin: right after its count.
pub open spec fn spec_dec_str_start(b: Seq<u8>, pos: int) -> int {
    pos + 8
}

/// A list of string/number pairs: the pair count, then each pair as a
/// string and an eight-byte number.
pub open spec fn spec_enc_pairs_from(ps: Seq<(Seq<char>, u64)>, i: int) -> Seq<u8>
    decreases ps.len() - i,
{
    if i < 0 || i >= ps.len() {
        Seq::<u8>::empty()
    } else {
        spec_enc_str(ps[i].0) + spec_enc_u64(ps[i].1) + spec_enc_pairs_from(ps, i + 1)
    }
}

pub open spec fn spec_enc_pairs(ps: Seq<(Seq<char>, u64)>) -> Seq<u8> {
    spec_enc_u64(ps.len() as u64) + spec_enc_pairs_from(ps, 0)
}

pub open spec fn spec_dec_pairs_items(b: Seq<u8>, pos: int, count: int) -> Option<(Seq<(Seq<char>, u64)>, int)>
    decreases count,
{
    if count <= 0 {
        Some((Seq::<(Seq<char>, u64)>::empty(), pos))
    } else {
        match spec_dec_str(b, pos) {
            Some((s, p2)) => match spec_dec_u64(b, p2) {
                Some((v, p3)) => match spec_dec_pairs_items(b, p3, count - 1) {
                    Some((rest, p4)) => Some((seq![(s, v)] + rest, p4)),
                    None => None,
                },
                None => None,
            },
            None => None,
        }
    }
}

pub open spec fn spec_dec_pairs(b: Seq<u8>, pos: int) -> Option<(Seq<(Seq<char>, u64)>, int)> {
    match spec_dec_u64(b, pos) {
        Some((count, p2)) => spec_dec_pairs_items(b, p2, count as int),
        None => None,
    }
}

/// All strings of a pair list are short enough to carry their length in
/// eight bytes.
pub open spec fn pairs_bounded(ps: Seq<(Seq<char>, u64)>) -> bool {
    ps.len() <= u64::MAX && forall|q: int| 0 <= q < ps.len()
        ==> (#[trigger] ps[q]).0.len() <= u64::MAX
}

/// Decoding at an encoded pair list yields that list.
pub proof fn lemma_dec_enc_pairs_items(b: Seq<u8>, pos: int, ps: Seq<(Seq<char>, u64)>, i: int)
    requires
        0 <= pos,
        0 <= i <= ps.len(),
        pairs_bounded(ps),
        pos + spec_enc_pairs_from(ps, i).len() <= b.len(),
        b.subrange(pos, pos + spec_enc_pairs_from(ps, i).len()) == spec_enc_pairs_from(ps, i),
    ensures
        spec_dec_pairs_items(b, pos, ps.len() - i)
            == Some((ps.skip(i), pos + spec_enc_pairs_from(ps, i).len())),
    decreases ps.len() - i,
{
    if i >= ps.len() {
        assert(ps.skip(i) =~= Seq::<(Seq<char>, u64)>::empty());
    } else {
        let s = ps[i].0;
        let v = ps[i].1;
        let e1 = spec_enc_str(s);
        let e2 = spec_enc_u64(v);
        let e3 = spec_enc_pairs_from(ps, i + 1);
        let whole = spec_enc_pairs_from(ps, i);
        assert(whole == e1 + e2 + e3);
        lemma_enc_chars_len(s, 0);
        assert(b.subrange(pos, pos + e1.len() as int) =~= whole.subrange(0, e1.len() as int));
        assert(whole.subrange(0, e1.len() as int) =~= e1);
        lemma_dec_enc_str(b, pos, s);
        let p2 = pos + e1.len();
        assert(b.subrange(p2, p2 + 8) =~= whole.subrange(e1.len() as int, e1.len() as int + 8));
        assert(whole.subrange(e1.len() as int, e1.len() as int + 8) =~= e2);
        lemma_dec_enc_u64(b, p2, v);
        let p3 = p2 + 8;
        assert(b.subrange(p3, p3 + e3.len() as int)
            =~= whole.subrange(e1.len() as int + 8, whole.len() as int));
        assert(whole.subrange(e1.len() as int + 8, whole.len() as int) =~= e3);
        lemma_dec_enc_pairs_items(b, p3, ps, i + 1);
        assert(seq![(s, v)] + ps.skip(i + 1) =~= ps.skip(i));
    }
}

pub proof fn lemma_dec_enc_pairs(b: Seq<u8>, pos: int, ps: Seq<(Seq<char>, u64)>)
    requires
        0 <= pos,
        pairs_bounded(ps),
        pos + spec_enc_pairs(ps).len() <= b.len(),
        b.subrange(pos, pos + spec_enc_pairs(ps).len()) == spec_enc_pairs(ps),
    ensures
        spec_dec_pairs(b, pos) == Some((ps, pos + spec_enc_pairs(ps).len())),
{
    let whole = spec_enc_pairs(ps);
    assert(b.subrange(pos, pos + 8) =~= whole.subrange(0, 8));
    assert(whole.subrange(0, 8) =~= spec_enc_u64(ps.len() as u64));
    lemma_dec_enc_u64(b, pos, ps.len() as u64);
    assert(b.subrange(pos + 8, pos + 8 + spec_enc_pairs_from(ps, 0).len())
        =~= whole.subrange(8, whole.len() as int));
    assert(whole.subrange(8, whole.len() as int) =~= spec_enc_pairs_from(ps, 0));
    lemma_dec_enc_pairs_items(b, pos + 8, ps, 0);
    assert(ps.skip(0) =~= ps);
}

/// Appends an encoded pair list, handed over as strings and numbers.
#[verifier::loop_isolation(false)]
pub fn enc_pairs(out: &mut Vec<u8>, ps: &Vec<(String, u64)>)
    ensures
        final(out)@ == old(out)@
            + spec_enc_pairs(ps@.map_values(|e: (String, u64)| (e.0@, e.1))),
{
    let ghost model = ps@.map_values(|e: (String, u64)| (e.0@, e.1));
    let n = ps.len();
    enc_u64(out, n as u64);
    let ghost base = out@;
    for i in 0..n
        invariant
            n == ps@.len(),
            out@ + spec_enc_pairs_from(model, i as int) =~= base + spec_enc_pairs_from(model, 0),
    {
        let ghost prev = out@;
        enc_str(out, &ps[i].0);
        enc_u64(out, ps[i].1);
        proof {
            assert(model[i as int] == (ps@[i as int].0@, ps@[i as int].1));
            assert(spec_enc_str(model[i as int].0) + spec_enc_u64(model[i as int].1)
                + spec_enc_pairs_from(model, i + 1) == spec_enc_pairs_from(model, i as int));
            assert(out@ + spec_enc_pairs_from(model, i + 1)
                =~= prev + spec_enc_pairs_from(model, i as int));
        }
    }
    proof {
        assert(out@ + Seq::<u8>::empty() =~= out@);
        assert(base =~= old(out)@ + spec_enc_u64(model.len() as u64));
    }
}

/// Reads an encoded pair list.
#[verifier::loop_isolation(false)]
pub fn dec_pairs(b: &Vec<u8>, pos: usize) -> (r: Option<(Vec<(String, u64)>, usize)>)
    ensures
        match r {
            Some(p) => spec_dec_pairs(b@, pos as int)
                == Some((p.0@.map_values(|e: (String, u64)| (e.0@, e.1)), p.1 as int)),
            None => spec_dec_pairs(b@, pos as int) is None,
        },
{
    let (count, mut p) = match dec_u64(b, pos) {
        Some(x) => x,
        None => {
            return None;
        },
    };
    let bn = b.len();
    if count > (usize::MAX as u64) {
        proof {
            if spec_dec_pairs_items(b@, p as int, count as int) is Some {
                lemma_dec_pairs_floor(b@, p as int, count as int);
                assert(8 * (count as int) > usize::MAX) by (nonlinear_arith)
                    requires count as int > usize::MAX;
            }
        }
        return None;
    }
    let count = count as usize;
    let mut out: Vec<(String, u64)> = Vec::new();
    let mut done: usize = 0;
    proof {
        if spec_dec_pairs_items(b@, p as int, count as int) is Some {
            let r0 = spec_dec_pairs_items(b@, p as int, count as int)->Some_0;
            assert(Seq::<(Seq<char>, u64)>::empty() + r0.0 =~= r0.0);
        }
    }
    while done < count
        invariant
            done <= count,
            (match spec_dec_pairs_items(b@, p as int, (count - done) as int) {
                Some(rest) => spec_dec_pairs_items(b@, spec_dec_str_start(b@, pos as int),
                    count as int)
                    == Some((out@.map_values(|e: (String, u64)| (e.0@, e.1)) + rest.0, rest.1)),
                None => spec_dec_pairs_items(b@, spec_dec_str_start(b@, pos as int),
                    count as int) is None,
            }),
        decreases count - done,
    {
        let (s, p2) = match dec_str(b, p) {
            Some(x) => x,
            None => {
                return None;
            },
        };
        let (v, p3) = match dec_u64(b, p2) {
            Some(x) => x,
            None => {
                return None;
            },
        };
        proof {
            let ghost m_old = out@.map_values(|e: (String, u64)| (e.0@, e.1));
            if spec_dec_pairs_items(b@, p3 as int, (count - done - 1) as int) is Some {
                let r2 = spec_dec_pairs_items(b@, p3 as int, (count - done - 1) as int)->Some_0;
                assert(m_old + (seq![(s@, v)] + r2.0) =~= (m_old + seq![(s@, v)]) + r2.0);
            }
        }
        let ghost m_before = out@;
        out.push((s, v));
        proof {
            assert(out@.map_values(|e: (String, u64)| (e.0@, e.1))
                =~= m_before.map_values(|e: (String, u64)| (e.0@, e.1))
                    + seq![(out@[out@.len() - 1].0@, out@[out@.len() - 1].1)]);
        }
        p = p3;
        done += 1;
    }
    proof {
        assert(spec_dec_pairs_items(b@, p as int, 0)
            == Some((Seq::<(Seq<char>, u64)>::empty(), p as int)));
        assert(out@.map_values(|e: (String, u64)| (e.0@, e.1)) + Seq::<(Seq<char>, u64)>::empty()
            =~= out@.map_values(|e: (String, u64)| (e.0@, e.1)));
    }
    Some((out, p))
}

/// A successful pair-list decode consumes at least eight bytes per pair.
proof fn lemma_dec_pairs_floor(b: Seq<u8>, pos: int, count: int)
    requires
        0 <= count,
        spec_dec_pairs_items(b, pos, count) is Some,
    ensures
        count > 0 ==> pos + 8 * count <= b.len() && pos >= 0,
        spec_dec_pairs_items(b, pos, count)->Some_0.1 >= pos,
    decreases count,
{
    if count > 0 {
        let (s, p2) = spec_dec_str(b, pos)->Some_0;
        lemma_dec_str_advance(b, pos);
        let p3 = spec_dec_u64(b, p2)->Some_0.1;
        lemma_dec_pairs_floor(b, p3, count - 1);
        assert(8 * count == 8 * (count - 1) + 8) by (nonlinear_arith);
    }
}

/// A successful string decode starts inside the buffer and moves forward
/// by at least its count field.
pub proof fn lemma_dec_str_advance(b: Seq<u8>, pos: int)
    requires
        spec_dec_str(b, pos) is Some,
    ensures
        0 <= pos,
        pos + 8 <= b.len(),
        spec_dec_str(b, pos)->Some_0.1 >= pos + 8,
{
    let count = spec_dec_u64(b, pos)->Some_0.0;
    lemma_dec_chars_some_len(b, pos + 8, count as int);
}

/// A successful character-list decode sits entirely inside the buffer:
/// eight bytes per character.
proof fn lemma_dec_chars_some_len(b: Seq<u8>, pos: int, count: int)
    requires
        0 <= count,
        spec_dec_chars(b, pos, count) is Some,
    ensures
        count > 0 ==> pos + 8 * count <= b.len() && pos >= 0,
        spec_dec_chars(b, pos, count)->Some_0.1 == if count > 0 { pos + 8 * count } else { pos },
    decreases count,
{
    if count > 0 {
        let p2 = spec_dec_char(b, pos)->Some_0.1;
        assert(p2 == pos + 8);
        lemma_dec_chars_some_len(b, p2, count - 1);
        assert(8 * count == 8 * (count - 1) + 8) by (nonlinear_arith);
        if count - 1 == 0 {
            assert(pos + 8 <= b.len());
        }
    }
}

} // verus!
