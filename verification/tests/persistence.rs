use tokenizer_core::bpe::BPE;
use tokenizer_core::wordpiece::WordPiece;
use tokenizer_core::wordlevel::WordLevel;
use tokenizer_core::unigram::Unigram;
use tokenizer_core::model::ModelWrapper;
use tokenizer_core::persist::{save_bytes, load_bytes};
use tokenizer_core::token::ModelError;

fn vocab(pairs: &[(&str, u32)]) -> Vec<(String, u32)> {
    pairs.iter().map(|(s, i)| (s.to_string(), *i)).collect()
}

fn sorted_vocab(m: &ModelWrapper) -> Vec<(String, u32)> {
    let mut v = m.get_vocab();
    v.sort();
    v
}

fn same_tokens(a: &ModelWrapper, b: &ModelWrapper, words: &[&str]) {
    for w in words {
        let x = a.tokenize(&w.to_string()).unwrap();
        let y = b.tokenize(&w.to_string()).unwrap();
        assert_eq!(x.len(), y.len());
        for (s, t) in x.iter().zip(y.iter()) {
            assert_eq!(s.id, t.id);
            assert_eq!(s.value, t.value);
            assert_eq!(s.offsets, t.offsets);
        }
    }
}

#[test]
fn bpe_round_trips() {
    let m = ModelWrapper::Bpe(
        BPE::new_checked(
            vocab(&[("a", 0), ("b", 1), ("ab", 2), ("<u>", 3)]),
            vec![("a".to_string(), "b".to_string())],
            Some("<u>".to_string()),
            None,
            None,
            true,
            8,
        )
        .unwrap(),
    );
    let m2 = load_bytes(&save_bytes(&m)).unwrap();
    assert_eq!(sorted_vocab(&m), sorted_vocab(&m2));
    same_tokens(&m, &m2, &["ab", "abab", "axb", ""]);
}

#[test]
fn wordpiece_round_trips() {
    let m = ModelWrapper::WordPiece(
        WordPiece::new(
            vocab(&[("un", 0), ("##aff", 1), ("##able", 2), ("[UNK]", 3)]),
            "[UNK]".to_string(),
            "##".to_string(),
            50,
        )
        .unwrap(),
    );
    let m2 = load_bytes(&save_bytes(&m)).unwrap();
    assert_eq!(sorted_vocab(&m), sorted_vocab(&m2));
    same_tokens(&m, &m2, &["unaffable", "un", "zzz"]);
}

#[test]
fn wordlevel_round_trips() {
    let m = ModelWrapper::WordLevel(
        WordLevel::new(vocab(&[("hello", 0), ("<unk>", 1)]), "<unk>".to_string()).unwrap(),
    );
    let m2 = load_bytes(&save_bytes(&m)).unwrap();
    assert_eq!(sorted_vocab(&m), sorted_vocab(&m2));
    same_tokens(&m, &m2, &["hello", "bye"]);
}

#[test]
fn unigram_round_trips() {
    let m = ModelWrapper::Unigram(
        Unigram::new(
            vec![
                ("a".to_string(), -2_000_000),
                ("ab".to_string(), -1_000_000),
                ("<unk>".to_string(), -9_000_000),
            ],
            Some(2),
        )
        .unwrap(),
    );
    let m2 = load_bytes(&save_bytes(&m)).unwrap();
    assert_eq!(sorted_vocab(&m), sorted_vocab(&m2));
    same_tokens(&m, &m2, &["ab", "aab", "zz"]);
}

#[test]
fn load_rejects_garbage() {
    assert_eq!(load_bytes(&vec![9u8, 9, 9]).unwrap_err(), ModelError::Serialization);
    assert_eq!(load_bytes(&Vec::new()).unwrap_err(), ModelError::Serialization);
}

#[test]
fn load_rejects_trailing_bytes() {
    let m = ModelWrapper::WordLevel(
        WordLevel::new(vocab(&[("a", 0)]), "a".to_string()).unwrap(),
    );
    let mut b = save_bytes(&m);
    b.push(0);
    assert_eq!(load_bytes(&b).unwrap_err(), ModelError::Serialization);
}
