use mg_tokens::codec::{detokenize, detokenize_batch};
use mg_tokens::vocab::TokenMap;

#[test]
fn default_vocabulary_holds_the_four_control_words() {
    let vocab = TokenMap::default();
    assert_eq!(vocab.len(), 4);
    assert_eq!(vocab.id_of("[SOS]"), Some(0));
    assert_eq!(vocab.id_of("[EOS]"), Some(1));
    assert_eq!(vocab.id_of("[PAD]"), Some(2));
    assert_eq!(vocab.id_of("[AFFIX]"), Some(3));
    assert_eq!(vocab.word_of(0), Some("[SOS]".to_string()));
    assert_eq!(vocab.word_of(3), Some("[AFFIX]".to_string()));
    assert_eq!(vocab.word_of(4), None);
}

#[test]
fn add_word_assigns_dense_ids_and_is_idempotent() {
    let mut vocab = TokenMap::default();
    vocab.add_word("walk");
    vocab.add_word("s");
    assert_eq!(vocab.id_of("walk"), Some(4));
    assert_eq!(vocab.id_of("s"), Some(5));
    assert_eq!(vocab.len(), 6);
    vocab.add_word("walk");
    assert_eq!(vocab.len(), 6);
    assert_eq!(vocab.id_of("walk"), Some(4));
    vocab.add_word("[PAD]");
    assert_eq!(vocab.len(), 6);
    assert_eq!(vocab.id_of("jump"), None);
}

#[test]
fn the_word_table_lists_words_in_id_order() {
    let mut vocab = TokenMap::default();
    vocab.add_word("walk");
    assert_eq!(
        vocab.words(),
        &vec![
            "[SOS]".to_string(),
            "[EOS]".to_string(),
            "[PAD]".to_string(),
            "[AFFIX]".to_string(),
            "walk".to_string(),
        ]
    );
}

#[test]
fn detokenize_is_lenient_and_total() {
    let mut vocab = TokenMap::default();
    vocab.add_word("a");
    let words = detokenize(&vocab, &vec![0, 4, 1, 99]);
    assert_eq!(
        words,
        vec![
            "[SOS]".to_string(),
            "a".to_string(),
            "[EOS]".to_string(),
            "[OOV]".to_string(),
        ]
    );
}

#[test]
fn detokenize_batch_maps_each_row() {
    let mut vocab = TokenMap::default();
    vocab.add_word("a");
    let rows = detokenize_batch(&vocab, &vec![vec![4], vec![7, 2]]);
    assert_eq!(
        rows,
        vec![
            vec!["a".to_string()],
            vec!["[OOV]".to_string(), "[PAD]".to_string()],
        ]
    );
}
