use tokenizer_core::normalized::{normalized_string, get_normalized, get_original};
use tokenizer_core::normalizer::{bert_normalizer, strip_normalizer, strip_accents_normalizer,
    nfc_normalizer, nfd_normalizer, nfkd_normalizer, lowercase_normalizer, nmt_normalizer,
    replace_literal_normalizer, replace_regex_normalizer, sequence_normalizer,
    precompiled_normalizer, precompiled_blob, normalize, BertStripAccents};
use tokenizer_core::token::NormalizerError;

#[test]
fn fresh_buffer_maps_to_itself() {
    let ns = normalized_string("hello");
    assert_eq!(get_normalized(&ns), "hello");
    assert_eq!(get_original(&ns), "hello");
    assert_eq!(ns.full_range(), (0, 5));
    assert_eq!(ns.original_range_for((0, 5)), (0, 5));
    assert_eq!(ns.original_range_for((1, 3)), (1, 3));
}

#[test]
fn full_range_covers_original_after_bert() {
    let text = "H\u{00e9}llo W\u{00f6}rld";
    let mut ns = normalized_string(text);
    let n = bert_normalizer(true, true, BertStripAccents::True, true);
    normalize(&n, &mut ns).unwrap();
    assert_eq!(get_normalized(&ns), "hello world");
    let orig_len = text.chars().count();
    let r = ns.original_range_for(ns.full_range());
    assert_eq!(r, (0, orig_len));
}

#[test]
fn full_range_covers_original_after_strip() {
    let mut ns = normalized_string("  hi  ");
    let n = strip_normalizer(true, true);
    normalize(&n, &mut ns).unwrap();
    assert_eq!(get_normalized(&ns), "hi");
    assert_eq!(ns.original_range_for(ns.full_range()), (0, 6));
}

#[test]
fn full_range_covers_original_when_all_deleted() {
    let mut ns = normalized_string("   ");
    let n = strip_normalizer(true, true);
    normalize(&n, &mut ns).unwrap();
    assert_eq!(get_normalized(&ns), "");
    assert_eq!(ns.original_range_for(ns.full_range()), (0, 3));
}

#[test]
fn nfd_then_strip_accents_equals_bert_accent_step() {
    let text = "\u{00e9}t\u{00e9} caf\u{00e9}";
    let mut a = normalized_string(text);
    normalize(&nfd_normalizer(), &mut a).unwrap();
    normalize(&strip_accents_normalizer(), &mut a).unwrap();

    let mut b = normalized_string(text);
    let accents_only = bert_normalizer(false, false, BertStripAccents::True, false);
    normalize(&accents_only, &mut b).unwrap();

    assert_eq!(get_normalized(&a), get_normalized(&b));
    assert_eq!(get_normalized(&a), "ete cafe");
}

#[test]
fn lowercase_uses_unicode_case_folding() {
    let mut ns = normalized_string("\u{00c0}BC\u{0130}");
    normalize(&lowercase_normalizer(), &mut ns).unwrap();
    assert_eq!(get_normalized(&ns), "\u{00e0}bci\u{0307}");
}

#[test]
fn strip_left_only() {
    let mut ns = normalized_string("  hi  ");
    normalize(&strip_normalizer(true, false), &mut ns).unwrap();
    assert_eq!(get_normalized(&ns), "hi  ");
}

#[test]
fn bert_clean_text_collapses_whitespace_runs() {
    let mut ns = normalized_string("a\t\t b\u{0000}c");
    let n = bert_normalizer(true, false, BertStripAccents::False, false);
    normalize(&n, &mut ns).unwrap();
    assert_eq!(get_normalized(&ns), "a bc");
}

#[test]
fn bert_spaces_cjk_ideographs() {
    let mut ns = normalized_string("a\u{4e2d}b");
    let n = bert_normalizer(false, true, BertStripAccents::False, false);
    normalize(&n, &mut ns).unwrap();
    assert_eq!(get_normalized(&ns), "a \u{4e2d} b");
}

#[test]
fn bert_strip_accents_follows_lowercase_when_unspecified() {
    let mut ns = normalized_string("\u{00c9}t\u{00e9}");
    let n = bert_normalizer(false, false, BertStripAccents::DeterminedByLowercase, true);
    normalize(&n, &mut ns).unwrap();
    assert_eq!(get_normalized(&ns), "ete");
}

#[test]
fn nmt_strips_and_spaces_control_characters() {
    let mut ns = normalized_string("a\u{200b}b\u{0001}c");
    normalize(&nmt_normalizer(), &mut ns).unwrap();
    assert_eq!(get_normalized(&ns), "a bc");
}

#[test]
fn nfc_composes_and_nfd_decomposes() {
    let mut ns = normalized_string("e\u{0301}");
    normalize(&nfc_normalizer(), &mut ns).unwrap();
    assert_eq!(get_normalized(&ns), "\u{00e9}");

    let mut ns2 = normalized_string("\u{00e9}");
    normalize(&nfd_normalizer(), &mut ns2).unwrap();
    assert_eq!(get_normalized(&ns2), "e\u{0301}");
}

#[test]
fn nfkd_expands_compatibility_characters() {
    let mut ns = normalized_string("\u{fb01}");
    normalize(&nfkd_normalizer(), &mut ns).unwrap();
    assert_eq!(get_normalized(&ns), "fi");
}

#[test]
fn replace_literal_leftmost_non_overlapping() {
    let n = replace_literal_normalizer("aa", "b").unwrap();
    let mut ns = normalized_string("aaa");
    normalize(&n, &mut ns).unwrap();
    assert_eq!(get_normalized(&ns), "ba");
}

#[test]
fn replace_literal_empty_pattern_inserts_everywhere() {
    let n = replace_literal_normalizer("", "-").unwrap();
    let mut ns = normalized_string("ab");
    normalize(&n, &mut ns).unwrap();
    assert_eq!(get_normalized(&ns), "-a-b-");
}

#[test]
fn replace_regex_substitutes_all_matches() {
    let n = replace_regex_normalizer("[0-9]+", "N").unwrap();
    let mut ns = normalized_string("a12b3");
    normalize(&n, &mut ns).unwrap();
    assert_eq!(get_normalized(&ns), "aNbN");
    assert_eq!(ns.original_range_for(ns.full_range()), (0, 5));
}

#[test]
fn replace_regex_rejects_bad_pattern() {
    assert_eq!(
        replace_regex_normalizer("(", "x").unwrap_err(),
        NormalizerError::InvalidPattern
    );
}

#[test]
fn sequence_applies_members_in_order() {
    let items = vec![
        replace_literal_normalizer("b", "c").unwrap(),
        replace_literal_normalizer("cc", "d").unwrap(),
    ];
    let n = sequence_normalizer(items);
    let mut ns = normalized_string("bb");
    normalize(&n, &mut ns).unwrap();
    assert_eq!(get_normalized(&ns), "d");
}

#[test]
fn precompiled_applies_longest_rule() {
    let rules = vec![
        ("ab".to_string(), "X".to_string()),
        ("a".to_string(), "Y".to_string()),
    ];
    let blob = precompiled_blob(&rules);
    let n = precompiled_normalizer(&blob).unwrap();
    let mut ns = normalized_string("aab");
    normalize(&n, &mut ns).unwrap();
    assert_eq!(get_normalized(&ns), "YX");
}

#[test]
fn precompiled_rejects_malformed_blob() {
    let blob = vec![1u8, 2, 3];
    assert_eq!(
        precompiled_normalizer(&blob).unwrap_err(),
        NormalizerError::InvalidPrecompiledMap
    );
}

#[test]
fn original_text_survives_every_normalizer() {
    let text = "  A\u{00e9} 中 12  ";
    let mut ns = normalized_string(text);
    let n = sequence_normalizer(vec![
        bert_normalizer(true, true, BertStripAccents::True, true),
        strip_normalizer(true, true),
    ]);
    normalize(&n, &mut ns).unwrap();
    assert_eq!(get_original(&ns), text);
    let orig_len = text.chars().count();
    assert_eq!(ns.original_range_for(ns.full_range()), (0, orig_len));
}
