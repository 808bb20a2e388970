use tokenizer_core::bpe::BPE;
use tokenizer_core::wordpiece::WordPiece;
use tokenizer_core::wordlevel::WordLevel;
use tokenizer_core::unigram::Unigram;
use tokenizer_core::model::ModelWrapper;
use tokenizer_core::token::ModelError;

fn vocab(pairs: &[(&str, u32)]) -> Vec<(String, u32)> {
    pairs.iter().map(|(s, i)| (s.to_string(), *i)).collect()
}

fn merges(pairs: &[(&str, &str)]) -> Vec<(String, String)> {
    pairs.iter().map(|(a, b)| (a.to_string(), b.to_string())).collect()
}

fn simple_bpe() -> BPE {
    BPE::new_checked(
        vocab(&[("a", 0), ("b", 1), ("c", 2), ("ab", 3), ("bc", 4), ("abc", 5)]),
        merges(&[("a", "b"), ("b", "c")]),
        None,
        None,
        None,
        false,
        16,
    )
    .unwrap()
}

#[test]
fn wordlevel_known_word() {
    let m = WordLevel::new(vocab(&[("hello", 0), ("<unk>", 1)]), "<unk>".to_string()).unwrap();
    let ts = m.tokenize(&"hello".to_string()).unwrap();
    assert_eq!(ts.len(), 1);
    assert_eq!(ts[0].id, 0);
    assert_eq!(ts[0].value, "hello");
    assert_eq!(ts[0].offsets, (0, 5));
}

#[test]
fn wordlevel_unknown_word_falls_back() {
    let m = WordLevel::new(vocab(&[("hello", 0), ("<unk>", 1)]), "<unk>".to_string()).unwrap();
    let ts = m.tokenize(&"bye".to_string()).unwrap();
    assert_eq!(ts.len(), 1);
    assert_eq!(ts[0].id, 1);
    assert_eq!(ts[0].value, "<unk>");
    assert_eq!(ts[0].offsets, (0, 3));
}

#[test]
fn wordlevel_missing_unk_is_an_error() {
    let m = WordLevel::new(vocab(&[("hello", 0)]), "<unk>".to_string()).unwrap();
    assert_eq!(m.tokenize(&"bye".to_string()).unwrap_err(), ModelError::MissingUnkToken);
}

#[test]
fn vocab_rejects_duplicate_ids() {
    assert_eq!(
        WordLevel::new(vocab(&[("a", 0), ("b", 0)]), "u".to_string()).unwrap_err(),
        ModelError::Construction
    );
}

#[test]
fn wordpiece_longest_match_first() {
    let v = vocab(&[("un", 0), ("##aff", 1), ("##able", 2), ("[UNK]", 3)]);
    let m = WordPiece::new(v, "[UNK]".to_string(), "##".to_string(), 100).unwrap();
    let ts = m.tokenize(&"unaffable".to_string()).unwrap();
    let values: Vec<&str> = ts.iter().map(|t| t.value.as_str()).collect();
    assert_eq!(values, vec!["un", "##aff", "##able"]);
    assert_eq!(ts[0].offsets, (0, 2));
    assert_eq!(ts[1].offsets, (2, 5));
    assert_eq!(ts[2].offsets, (5, 9));
}

#[test]
fn wordpiece_prefers_whole_word() {
    let v = vocab(&[("un", 0), ("##aff", 1), ("##able", 2), ("unaffable", 4), ("[UNK]", 3)]);
    let m = WordPiece::new(v, "[UNK]".to_string(), "##".to_string(), 100).unwrap();
    let ts = m.tokenize(&"unaffable".to_string()).unwrap();
    assert_eq!(ts.len(), 1);
    assert_eq!(ts[0].value, "unaffable");
    assert_eq!(ts[0].id, 4);
}

#[test]
fn wordpiece_long_word_is_one_unknown_token() {
    let v = vocab(&[("ab", 0), ("[UNK]", 1)]);
    let m = WordPiece::new(v, "[UNK]".to_string(), "##".to_string(), 4).unwrap();
    let ts = m.tokenize(&"ababab".to_string()).unwrap();
    assert_eq!(ts.len(), 1);
    assert_eq!(ts[0].id, 1);
    assert_eq!(ts[0].value, "[UNK]");
    assert_eq!(ts[0].offsets, (0, 6));
}

#[test]
fn wordpiece_unparseable_word_is_one_unknown_token() {
    let v = vocab(&[("ab", 0), ("[UNK]", 1)]);
    let m = WordPiece::new(v, "[UNK]".to_string(), "##".to_string(), 100).unwrap();
    let ts = m.tokenize(&"abx".to_string()).unwrap();
    assert_eq!(ts.len(), 1);
    assert_eq!(ts[0].id, 1);
}

#[test]
fn bpe_merges_in_rank_order() {
    let m = simple_bpe();
    let ts = m.tokenize(&"abc".to_string()).unwrap();
    let values: Vec<&str> = ts.iter().map(|t| t.value.as_str()).collect();
    assert_eq!(values, vec!["ab", "c"]);
    assert_eq!(ts[0].id, 3);
    assert_eq!(ts[1].id, 2);
    assert_eq!(ts[0].offsets, (0, 2));
    assert_eq!(ts[1].offsets, (2, 3));
}

#[test]
fn bpe_rank_order_decides_between_overlapping_pairs() {
    let m = BPE::new_checked(
        vocab(&[("a", 0), ("b", 1), ("c", 2), ("ab", 3), ("bc", 4)]),
        merges(&[("b", "c"), ("a", "b")]),
        None,
        None,
        None,
        false,
        16,
    )
    .unwrap();
    let ts = m.tokenize(&"abc".to_string()).unwrap();
    let values: Vec<&str> = ts.iter().map(|t| t.value.as_str()).collect();
    assert_eq!(values, vec!["a", "bc"]);
}

#[test]
fn bpe_is_deterministic() {
    let m = simple_bpe();
    let a = m.tokenize(&"abcabc".to_string()).unwrap();
    let b = m.tokenize(&"abcabc".to_string()).unwrap();
    assert_eq!(a.len(), b.len());
    for (x, y) in a.iter().zip(b.iter()) {
        assert_eq!(x.id, y.id);
        assert_eq!(x.value, y.value);
        assert_eq!(x.offsets, y.offsets);
    }
}

#[test]
fn bpe_fuses_unknown_runs_when_asked() {
    let v = vocab(&[("a", 0), ("<u>", 1)]);
    let fused = BPE::new_checked(v.clone(), vec![], Some("<u>".to_string()), None, None, true, 0)
        .unwrap();
    let ts = fused.tokenize(&"axy".to_string()).unwrap();
    assert_eq!(ts.len(), 2);
    assert_eq!(ts[1].id, 1);
    assert_eq!(ts[1].offsets, (1, 3));

    let plain = BPE::new_checked(v, vec![], Some("<u>".to_string()), None, None, false, 0)
        .unwrap();
    let ts2 = plain.tokenize(&"axy".to_string()).unwrap();
    assert_eq!(ts2.len(), 3);
    assert_eq!(ts2[1].offsets, (1, 2));
    assert_eq!(ts2[2].offsets, (2, 3));
}

#[test]
fn bpe_without_unk_token_errors_on_unknown() {
    let m = BPE::new_checked(vocab(&[("a", 0)]), vec![], None, None, None, false, 0).unwrap();
    assert_eq!(m.tokenize(&"ax".to_string()).unwrap_err(), ModelError::MissingUnkToken);
}

#[test]
fn bpe_rejects_merge_outside_vocabulary() {
    assert_eq!(
        BPE::new_checked(
            vocab(&[("a", 0), ("b", 1)]),
            merges(&[("a", "b")]),
            None,
            None,
            None,
            false,
            0,
        )
        .unwrap_err(),
        ModelError::Construction
    );
}

#[test]
fn bpe_cache_never_changes_output() {
    let mut cached = simple_bpe();
    let plain = simple_bpe();
    for word in ["abc", "ab", "abcabc", "abc"] {
        let a = cached.tokenize_and_cache(&word.to_string()).unwrap();
        let b = plain.tokenize(&word.to_string()).unwrap();
        assert_eq!(a.len(), b.len());
        for (x, y) in a.iter().zip(b.iter()) {
            assert_eq!(x.id, y.id);
            assert_eq!(x.value, y.value);
            assert_eq!(x.offsets, y.offsets);
        }
    }
}

fn simple_unigram() -> Unigram {
    Unigram::new(
        vec![
            ("a".to_string(), -2_000_000),
            ("b".to_string(), -2_000_000),
            ("ab".to_string(), -1_000_000),
            ("<unk>".to_string(), -10_000_000),
        ],
        Some(3),
    )
    .unwrap()
}

#[test]
fn unigram_picks_best_segmentation() {
    let m = simple_unigram();
    let ts = m.tokenize(&"ab".to_string()).unwrap();
    assert_eq!(ts.len(), 1);
    assert_eq!(ts[0].value, "ab");
    assert_eq!(ts[0].id, 2);
    assert_eq!(ts[0].offsets, (0, 2));
}

#[test]
fn unigram_covers_word_without_gaps() {
    let m = simple_unigram();
    let ts = m.tokenize(&"azb".to_string()).unwrap();
    assert_eq!(ts[0].offsets.0, 0);
    assert_eq!(ts[ts.len() - 1].offsets.1, 3);
    for w in ts.windows(2) {
        assert_eq!(w[0].offsets.1, w[1].offsets.0);
    }
    assert_eq!(ts[1].id, 3);
    assert_eq!(ts[1].value, "z");
}

#[test]
fn unigram_without_unk_errors_on_gap() {
    let m = Unigram::new(vec![("a".to_string(), -1_000_000)], None).unwrap();
    assert_eq!(m.tokenize(&"az".to_string()).unwrap_err(), ModelError::MissingUnkToken);
}

#[test]
fn unigram_rejects_positive_scores() {
    assert_eq!(
        Unigram::new(vec![("a".to_string(), 5)], None).unwrap_err(),
        ModelError::Construction
    );
}

#[test]
fn model_wrapper_dispatches() {
    let m = ModelWrapper::Bpe(simple_bpe());
    assert_eq!(m.token_to_id(&"ab".to_string()), Some(3));
    assert_eq!(m.id_to_token(3).unwrap(), "ab");
    assert_eq!(m.get_vocab_size(), 6);
    let ts = m.tokenize(&"abc".to_string()).unwrap();
    assert_eq!(ts.len(), 2);
}

#[test]
fn vocab_lookup_is_bijective() {
    let m = WordLevel::new(vocab(&[("x", 7), ("y", 9)]), "x".to_string()).unwrap();
    assert_eq!(m.token_to_id(&"x".to_string()), Some(7));
    assert_eq!(m.id_to_token(7).unwrap(), "x");
    assert_eq!(m.token_to_id(&"y".to_string()), Some(9));
    assert_eq!(m.id_to_token(9).unwrap(), "y");
    assert_eq!(m.token_to_id(&"z".to_string()), None);
    assert_eq!(m.id_to_token(8), None);
}
