use mg_tokens::codec::{to_phon_content, tokens, CodecError};
use mg_tokens::items::LexicalItem;
use mg_tokens::vocab::TokenMap;

fn small_vocab() -> TokenMap {
    let mut vocab = TokenMap::default();
    vocab.add_word("a");
    vocab.add_word("b");
    vocab
}

fn normal(w: &str) -> LexicalItem {
    LexicalItem::Normal(w.to_string())
}

fn affixed(ws: &[&str]) -> LexicalItem {
    LexicalItem::Affixed(ws.iter().map(|w| w.to_string()).collect())
}

#[test]
fn decoding_start_and_end_alone_gives_the_empty_sequence() {
    let vocab = TokenMap::default();
    assert_eq!(to_phon_content(&vec![0, 1], &vocab), Ok(vec![]));
}

#[test]
fn end_before_start_is_a_missing_start_symbol() {
    let vocab = TokenMap::default();
    assert_eq!(
        to_phon_content(&vec![1, 0], &vocab),
        Err(CodecError::MissingStartSymbol)
    );
}

#[test]
fn start_without_end_is_a_missing_end_symbol() {
    let vocab = TokenMap::default();
    assert_eq!(
        to_phon_content(&vec![0], &vocab),
        Err(CodecError::MissingEndSymbol)
    );
}

#[test]
fn no_tokens_at_all_is_empty_input() {
    let vocab = TokenMap::default();
    assert_eq!(to_phon_content(&vec![], &vocab), Err(CodecError::EmptyInput));
}

#[test]
fn an_unassigned_id_is_out_of_vocabulary() {
    let vocab = small_vocab();
    assert_eq!(
        to_phon_content(&vec![0, 9, 1], &vocab),
        Err(CodecError::OutOfVocabularyToken)
    );
}

#[test]
fn a_bare_join_marker_is_a_malformed_affix_run() {
    let vocab = small_vocab();
    assert_eq!(
        to_phon_content(&vec![0, 3, 1], &vocab),
        Err(CodecError::MalformedAffixRun)
    );
}

#[test]
fn a_trailing_join_marker_is_a_malformed_affix_run() {
    let vocab = small_vocab();
    assert_eq!(
        to_phon_content(&vec![0, 4, 3, 1], &vocab),
        Err(CodecError::MalformedAffixRun)
    );
}

#[test]
fn encoding_interleaves_affixed_words_and_frames_the_body() {
    let vocab = small_vocab();
    let seq = vec![normal("a"), affixed(&["a", "b"])];
    assert_eq!(tokens(&seq, &vocab), Ok(vec![0, 4, 4, 3, 5, 1]));
}

#[test]
fn decoding_recovers_the_encoded_sequence() {
    let vocab = small_vocab();
    let seq = vec![normal("a"), affixed(&["a", "b"])];
    assert_eq!(to_phon_content(&vec![0, 4, 4, 3, 5, 1], &vocab), Ok(seq));
}

#[test]
fn an_unregistered_word_fails_the_encode() {
    let vocab = small_vocab();
    assert_eq!(
        tokens(&vec![normal("c")], &vocab),
        Err(CodecError::UnknownWord)
    );
}

#[test]
fn round_trip_survives_padding_and_control_lookalike_words() {
    let mut vocab = small_vocab();
    vocab.add_word("stem");
    vocab.add_word("suffix");
    let seq = vec![
        affixed(&["stem", "suffix", "b"]),
        normal("[PAD]"),
        normal("a"),
    ];
    let mut encoded = tokens(&seq, &vocab).unwrap();
    assert_eq!(encoded, vec![0, 6, 3, 7, 3, 5, 2, 4, 1]);
    encoded.push(2);
    encoded.push(2);
    assert_eq!(to_phon_content(&encoded, &vocab), Ok(seq));
}
