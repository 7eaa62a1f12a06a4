use qzt::corpus::{generate_validation_corpus, CorpusKind, ValidationCorpusOptions};
use qzt::error::QztError;

#[test]
fn validation_corpora_are_utf8_and_within_three_bytes_of_their_target() {
    for kind in CorpusKind::all() {
        for target in [1usize, 2, 3, 4, 5, 7, 31, 64, 257, 1000, 4096] {
            let options = ValidationCorpusOptions { seed: 0x1234, target_bytes: target };
            let corpus = generate_validation_corpus(kind, options).expect("corpus");
            assert!(std::str::from_utf8(&corpus).is_ok());
            assert!(corpus.len() <= target);
            assert!(corpus.len() >= target.saturating_sub(3).max(1));
            assert_eq!(generate_validation_corpus(kind, options).expect("corpus"), corpus);
        }
    }
}

#[test]
fn validation_corpus_refuses_a_zero_target() {
    let options = ValidationCorpusOptions { seed: 1, target_bytes: 0 };
    assert_eq!(generate_validation_corpus(CorpusKind::C3Prose, options), Err(QztError::ResourceLimitExceeded));
}
