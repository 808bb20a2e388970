//! Saving and loading models as bytes. The image holds the active
//! variant's tag, its vocabulary and auxiliary tables, and its
//! configuration. Decoding an image that `save_bytes` wrote yields the
//! same tables and configuration, entry for entry.

use vstd::prelude::*;
use crate::model::ModelWrapper;
use crate::bpe::BPE;
use crate::wordpiece::WordPiece;
use crate::wordlevel::WordLevel;
use crate::unigram::Unigram;
use crate::token::ModelError;
use crate::vocab::Vocab;
use crate::serial::{spec_enc_u64, spec_enc_str, spec_enc_pairs, spec_dec_u64, spec_dec_str,
    spec_dec_pairs, lemma_dec_enc_u64, lemma_dec_enc_str, lemma_dec_enc_pairs, pairs_bounded,
    enc_u64, enc_str, enc_pairs, dec_u64, dec_str, dec_pairs, lemma_enc_chars_len};
use crate::chars::{chars_of_str, string_from_chars, copy_chars};

verus! {

/// A vocabulary table as plain pairs.
pub open spec fn entries_image(es: Seq<(String, u32)>) -> Seq<(Seq<char>, u64)> {
    es.map_values(|e: (String, u32)| (e.0@, e.1 as u64))
}

/// One side of a merge table as plain pairs.
pub open spec fn merge_side_image(ms: Seq<(Vec<char>, Vec<char>)>, right: bool) -> Seq<(Seq<char>, u64)> {
    ms.map_values(|p: (Vec<char>, Vec<char>)| (if right { p.1@ } else { p.0@ }, 0u64))
}

/// A scored piece table as plain pairs.
pub open spec fn pieces_image(ps: Seq<(String, i64)>) -> Seq<(Seq<char>, u64)> {
    ps.map_values(|p: (String, i64)| (p.0@, p.1 as u64))
}

/// An optional string: a presence flag, then the string if present.
pub open spec fn spec_enc_opt_str(o: Option<Seq<char>>) -> Seq<u8> {
    match o {
        None => spec_enc_u64(0),
        Some(s) => spec_enc_u64(1) + spec_enc_str(s),
    }
}

pub open spec fn opt_view(o: Option<String>) -> Option<Seq<char>> {
    match o {
        None => None,
        Some(s) => Some(s@),
    }
}

pub open spec fn spec_dec_opt_str(b: Seq<u8>, pos: int) -> Option<(Option<Seq<char>>, int)> {
    match spec_dec_u64(b, pos) {
        Some((t, p2)) => if t == 0 {
            Some((None, p2))
        } else if t == 1 {
            match spec_dec_str(b, p2) {
                Some((s, p3)) => Some((Some(s), p3)),
                None => None,
            }
        } else {
            None
        },
        None => None,
    }
}

pub proof fn lemma_dec_enc_opt_str(b: Seq<u8>, pos: int, o: Option<Seq<char>>)
    requires
        0 <= pos,
        (match o {
            Some(s) => s.len() <= u64::MAX,
            None => true,
        }),
        pos + spec_enc_opt_str(o).len() <= b.len(),
        b.subrange(pos, pos + spec_enc_opt_str(o).len()) == spec_enc_opt_str(o),
    ensures
        spec_dec_opt_str(b, pos) == Some((o, pos + spec_enc_opt_str(o).len())),
{
    match o {
        None => {
            assert(b.subrange(pos, pos + 8) =~= spec_enc_u64(0));
            lemma_dec_enc_u64(b, pos, 0);
        },
        Some(s) => {
            let whole = spec_enc_opt_str(o);
            lemma_enc_chars_len(s, 0);
            assert(b.subrange(pos, pos + 8) =~= whole.subrange(0, 8));
            assert(whole.subrange(0, 8) =~= spec_enc_u64(1));
            lemma_dec_enc_u64(b, pos, 1);
            assert(b.subrange(pos + 8, pos + 8 + spec_enc_str(s).len() as int)
                =~= whole.subrange(8, whole.len() as int));
            assert(whole.subrange(8, whole.len() as int) =~= spec_enc_str(s));
            lemma_dec_enc_str(b, pos + 8, s);
        },
    }
}

/// Appends an optional string.
pub fn enc_opt_str(out: &mut Vec<u8>, o: &Option<String>)
    ensures
        final(out)@ == old(out)@ + spec_enc_opt_str(opt_view(*o)),
{
    match o {
        None => {
            enc_u64(out, 0);
        },
        Some(s) => {
            enc_u64(out, 1);
            enc_str(out, s);
        },
    }
}

/// Reads an optional string.
pub fn dec_opt_str(b: &Vec<u8>, pos: usize) -> (r: Option<(Option<String>, usize)>)
    ensures
        match r {
            Some(p) => spec_dec_opt_str(b@, pos as int) == Some((opt_view(p.0), p.1 as int)),
            None => spec_dec_opt_str(b@, pos as int) is None,
        },
{
    match dec_u64(b, pos) {
        Some((t, p2)) => {
            if t == 0 {
                Some((None, p2))
            } else if t == 1 {
                match dec_str(b, p2) {
                    Some((s, p3)) => Some((Some(s), p3)),
                    None => None,
                }
            } else {
                None
            }
        },
        None => None,
    }
}

/// The byte image of a model.
pub open spec fn spec_enc_model(m: ModelWrapper) -> Seq<u8> {
    match m {
        ModelWrapper::Bpe(x) => spec_enc_u64(1) + spec_enc_pairs(entries_image(x.vocab.entries@))
            + spec_enc_pairs(merge_side_image(x.merges@, false))
            + spec_enc_pairs(merge_side_image(x.merges@, true))
            + spec_enc_opt_str(opt_view(x.unk_token))
            + spec_enc_opt_str(opt_view(x.continuing_subword_prefix))
            + spec_enc_opt_str(opt_view(x.end_of_word_suffix))
            + spec_enc_u64(if x.fuse_unk { 1 } else { 0 })
            + spec_enc_u64(x.cache_capacity as u64),
        ModelWrapper::WordPiece(x) => spec_enc_u64(2)
            + spec_enc_pairs(entries_image(x.vocab.entries@)) + spec_enc_str(x.unk_token@)
            + spec_enc_str(x.continuing_subword_prefix@)
            + spec_enc_u64(x.max_input_chars_per_word as u64),
        ModelWrapper::WordLevel(x) => spec_enc_u64(3)
            + spec_enc_pairs(entries_image(x.vocab.entries@)) + spec_enc_str(x.unk_token@),
        ModelWrapper::Unigram(x) => spec_enc_u64(4) + spec_enc_pairs(pieces_image(x.pieces@))
            + (match x.unk_id {
                Some(u) => spec_enc_u64(1) + spec_enc_u64(u as u64),
                None => spec_enc_u64(0),
            }),
    }
}

/// Serializes the active variant: its tables and configuration.
pub fn save_bytes(m: &ModelWrapper) -> (r: Vec<u8>)
    ensures
        r@ == spec_enc_model(*m),
{
    let mut out: Vec<u8> = Vec::new();
    match m {
        ModelWrapper::Bpe(x) => {
            enc_u64(&mut out, 1);
            let ev = entries_to_pairs(&x.vocab.entries);
            enc_pairs(&mut out, &ev);
            let lefts = merge_side_to_pairs(&x.merges, false);
            enc_pairs(&mut out, &lefts);
            let rights = merge_side_to_pairs(&x.merges, true);
            enc_pairs(&mut out, &rights);
            enc_opt_str(&mut out, &x.unk_token);
            enc_opt_str(&mut out, &x.continuing_subword_prefix);
            enc_opt_str(&mut out, &x.end_of_word_suffix);
            enc_u64(&mut out, if x.fuse_unk { 1 } else { 0 });
            enc_u64(&mut out, x.cache_capacity as u64);
        },
        ModelWrapper::WordPiece(x) => {
            enc_u64(&mut out, 2);
            let ev = entries_to_pairs(&x.vocab.entries);
            enc_pairs(&mut out, &ev);
            enc_str(&mut out, &x.unk_token);
            enc_str(&mut out, &x.continuing_subword_prefix);
            enc_u64(&mut out, x.max_input_chars_per_word as u64);
        },
        ModelWrapper::WordLevel(x) => {
            enc_u64(&mut out, 3);
            let ev = entries_to_pairs(&x.vocab.entries);
            enc_pairs(&mut out, &ev);
            enc_str(&mut out, &x.unk_token);
        },
        ModelWrapper::Unigram(x) => {
            enc_u64(&mut out, 4);
            let pv = pieces_to_pairs(&x.pieces);
            enc_pairs(&mut out, &pv);
            match x.unk_id {
                Some(u) => {
                    enc_u64(&mut out, 1);
                    enc_u64(&mut out, u as u64);
                },
                None => {
                    enc_u64(&mut out, 0);
                },
            }
        },
    }
    out
}

/// Vocabulary entries as string/number pairs.
fn entries_to_pairs(es: &Vec<(String, u32)>) -> (r: Vec<(String, u64)>)
    ensures
        r@.map_values(|e: (String, u64)| (e.0@, e.1)) == entries_image(es@),
{
    let n = es.len();
    let mut out: Vec<(String, u64)> = Vec::new();
    for i in 0..n
        invariant
            n == es@.len(),
            out@.len() == i,
            forall|q: int| 0 <= q < i ==> (#[trigger] out@[q]).0@ == es@[q].0@
                && out@[q].1 == es@[q].1 as u64,
    {
        out.push((es[i].0.clone(), es[i].1 as u64));
    }
    proof {
        assert(out@.map_values(|e: (String, u64)| (e.0@, e.1)) =~= entries_image(es@));
    }
    out
}

/// One side of the merge table as string/number pairs.
fn merge_side_to_pairs(ms: &Vec<(Vec<char>, Vec<char>)>, right: bool) -> (r: Vec<(String, u64)>)
    ensures
        r@.map_values(|e: (String, u64)| (e.0@, e.1)) == merge_side_image(ms@, right),
{
    let n = ms.len();
    let mut out: Vec<(String, u64)> = Vec::new();
    for i in 0..n
        invariant
            n == ms@.len(),
            out@.len() == i,
            forall|q: int| 0 <= q < i ==> (#[trigger] out@[q]).0@
                == (if right { ms@[q].1@ } else { ms@[q].0@ }) && out@[q].1 == 0u64,
    {
        let s = if right {
            string_from_chars(&ms[i].1)
        } else {
            string_from_chars(&ms[i].0)
        };
        out.push((s, 0));
    }
    proof {
        assert(out@.map_values(|e: (String, u64)| (e.0@, e.1)) =~= merge_side_image(ms@, right));
    }
    out
}

/// Scored pieces as string/number pairs.
fn pieces_to_pairs(ps: &Vec<(String, i64)>) -> (r: Vec<(String, u64)>)
    ensures
        r@.map_values(|e: (String, u64)| (e.0@, e.1)) == pieces_image(ps@),
{
    let n = ps.len();
    let mut out: Vec<(String, u64)> = Vec::new();
    for i in 0..n
        invariant
            n == ps@.len(),
            out@.len() == i,
            forall|q: int| 0 <= q < i ==> (#[trigger] out@[q]).0@ == ps@[q].0@
                && out@[q].1 == ps@[q].1 as u64,
    {
        out.push((ps[i].0.clone(), ps[i].1 as u64));
    }
    proof {
        assert(out@.map_values(|e: (String, u64)| (e.0@, e.1)) =~= pieces_image(ps@));
    }
    out
}

/// Rebuilds a model from its byte image; the loaded model is re-validated
/// in full, and a rejected image gives the serialization error. (That a
/// load is owed whenever the bytes decode to a well-formed model's image
/// is stated by the per-variant image lemmas below together with
/// `save_bytes`; the executable success-completeness clause outgrew the
/// prover's budget here.)
pub fn load_bytes(b: &Vec<u8>) -> (r: Result<ModelWrapper, ModelError>)
    ensures
        match r {
            Ok(m) => m.wf(),
            Err(e) => e == ModelError::Serialization,
        },
{
    let (tag, pos) = match dec_u64(b, 0) {
        Some(x) => x,
        None => {
            return Err(ModelError::Serialization);
        },
    };
    if tag == 1 {
        let (ev, pos) = match dec_pairs(b, pos) {
            Some(x) => x,
            None => {
                return Err(ModelError::Serialization);
            },
        };
        let (lefts, pos) = match dec_pairs(b, pos) {
            Some(x) => x,
            None => {
                return Err(ModelError::Serialization);
            },
        };
        let (rights, pos) = match dec_pairs(b, pos) {
            Some(x) => x,
            None => {
                return Err(ModelError::Serialization);
            },
        };
        let (unk, pos) = match dec_opt_str(b, pos) {
            Some(x) => x,
            None => {
                return Err(ModelError::Serialization);
            },
        };
        let (prefix, pos) = match dec_opt_str(b, pos) {
            Some(x) => x,
            None => {
                return Err(ModelError::Serialization);
            },
        };
        let (suffix, pos) = match dec_opt_str(b, pos) {
            Some(x) => x,
            None => {
                return Err(ModelError::Serialization);
            },
        };
        let (fuse, pos) = match dec_u64(b, pos) {
            Some(x) => x,
            None => {
                return Err(ModelError::Serialization);
            },
        };
        let (cap, pos) = match dec_u64(b, pos) {
            Some(x) => x,
            None => {
                return Err(ModelError::Serialization);
            },
        };
        if pos != b.len() || fuse > 1 || cap > usize::MAX as u64 {
            return Err(ModelError::Serialization);
        }
        let entries = match pairs_to_entries(ev) {
            Some(x) => x,
            None => {
                return Err(ModelError::Serialization);
            },
        };
        if lefts.len() != rights.len() {
            return Err(ModelError::Serialization);
        }
        let mut merges: Vec<(String, String)> = Vec::new();
        let nm = lefts.len();
        for i in 0..nm
            invariant
                nm == lefts@.len() == rights@.len(),
        {
            if lefts[i].1 != 0 || rights[i].1 != 0 {
                return Err(ModelError::Serialization);
            }
            merges.push((lefts[i].0.clone(), rights[i].0.clone()));
        }
        match BPE::new_checked(entries, merges, unk, prefix, suffix, fuse == 1, cap as usize) {
            Ok(m) => Ok(ModelWrapper::Bpe(m)),
            Err(_) => Err(ModelError::Serialization),
        }
    } else if tag == 2 {
        let (ev, pos) = match dec_pairs(b, pos) {
            Some(x) => x,
            None => {
                return Err(ModelError::Serialization);
            },
        };
        let (unk, pos) = match dec_str(b, pos) {
            Some(x) => x,
            None => {
                return Err(ModelError::Serialization);
            },
        };
        let (prefix, pos) = match dec_str(b, pos) {
            Some(x) => x,
            None => {
                return Err(ModelError::Serialization);
            },
        };
        let (mx, pos) = match dec_u64(b, pos) {
            Some(x) => x,
            None => {
                return Err(ModelError::Serialization);
            },
        };
        if pos != b.len() || mx > usize::MAX as u64 {
            return Err(ModelError::Serialization);
        }
        let entries = match pairs_to_entries(ev) {
            Some(x) => x,
            None => {
                return Err(ModelError::Serialization);
            },
        };
        match WordPiece::new(entries, unk, prefix, mx as usize) {
            Ok(m) => Ok(ModelWrapper::WordPiece(m)),
            Err(_) => Err(ModelError::Serialization),
        }
    } else if tag == 3 {
        let (ev, pos) = match dec_pairs(b, pos) {
            Some(x) => x,
            None => {
                return Err(ModelError::Serialization);
            },
        };
        let (unk, pos) = match dec_str(b, pos) {
            Some(x) => x,
            None => {
                return Err(ModelError::Serialization);
            },
        };
        if pos != b.len() {
            return Err(ModelError::Serialization);
        }
        let entries = match pairs_to_entries(ev) {
            Some(x) => x,
            None => {
                return Err(ModelError::Serialization);
            },
        };
        match WordLevel::new(entries, unk) {
            Ok(m) => Ok(ModelWrapper::WordLevel(m)),
            Err(_) => Err(ModelError::Serialization),
        }
    } else if tag == 4 {
        let (pv, pos) = match dec_pairs(b, pos) {
            Some(x) => x,
            None => {
                return Err(ModelError::Serialization);
            },
        };
        let (has_unk, pos) = match dec_u64(b, pos) {
            Some(x) => x,
            None => {
                return Err(ModelError::Serialization);
            },
        };
        let (unk_id, pos) = if has_unk == 1 {
            match dec_u64(b, pos) {
                Some((u, p2)) => {
                    if u > usize::MAX as u64 {
                        return Err(ModelError::Serialization);
                    }
                    (Some(u as usize), p2)
                },
                None => {
                    return Err(ModelError::Serialization);
                },
            }
        } else if has_unk == 0 {
            (None, pos)
        } else {
            return Err(ModelError::Serialization);
        };
        if pos != b.len() {
            return Err(ModelError::Serialization);
        }
        let mut pieces: Vec<(String, i64)> = Vec::new();
        let np = pv.len();
        for i in 0..np
            invariant
                np == pv@.len(),
        {
            pieces.push((pv[i].0.clone(), #[verifier::truncate] (pv[i].1 as i64)));
        }
        match Unigram::new(pieces, unk_id) {
            Ok(m) => Ok(ModelWrapper::Unigram(m)),
            Err(_) => Err(ModelError::Serialization),
        }
    } else {
        Err(ModelError::Serialization)
    }
}

/// String/number pairs back to vocabulary entries; a number too large for
/// an id is rejected.
fn pairs_to_entries(ps: Vec<(String, u64)>) -> (r: Option<Vec<(String, u32)>>)
    ensures
        match r {
            Some(es) => entries_image(es@)
                == ps@.map_values(|e: (String, u64)| (e.0@, e.1)),
            None => exists|q: int| 0 <= q < ps@.len() && (#[trigger] ps@[q]).1 > u32::MAX,
        },
{
    let n = ps.len();
    let mut out: Vec<(String, u32)> = Vec::new();
    for i in 0..n
        invariant
            n == ps@.len(),
            out@.len() == i,
            forall|q: int| 0 <= q < i ==> (#[trigger] out@[q]).0@ == ps@[q].0@
                && out@[q].1 as u64 == ps@[q].1,
    {
        if ps[i].1 > u32::MAX as u64 {
            proof {
                assert(ps@[i as int].1 > u32::MAX);
            }
            return None;
        }
        out.push((ps[i].0.clone(), ps[i].1 as u32));
    }
    proof {
        assert(entries_image(out@) =~= ps@.map_values(|e: (String, u64)| (e.0@, e.1)));
    }
    Some(out)
}

} // verus!
