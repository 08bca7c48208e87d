use mg_tokens::items::{Continuation, LexicalItem};
use mg_tokens::mask::{continuation_queries, token_continuations, MaskError};
use mg_tokens::vocab::TokenMap;
use mg_tokens::{AFFIX, EOS, PAD, SOS};

fn small_vocab() -> TokenMap {
    let mut vocab = TokenMap::default();
    vocab.add_word("a");
    vocab.add_word("b");
    vocab
}

fn word(w: &str) -> Continuation {
    Continuation::Word(w.to_string())
}

fn affixed_word(ws: &[&str]) -> Continuation {
    Continuation::AffixedWord(ws.iter().map(|w| w.to_string()).collect())
}

fn cell(mask: &[bool], v: usize, p: usize, t: usize) -> bool {
    mask[p * v + t]
}

#[test]
fn an_empty_shape_fails_the_whole_call() {
    let vocab = small_vocab();
    assert_eq!(
        continuation_queries(&vocab, &vec![], &vec![]),
        Err(MaskError::EmptyShape)
    );
    assert_eq!(
        token_continuations(&vocab, &vec![], &vec![], &vec![]),
        Err(MaskError::EmptyShape)
    );
}

#[test]
fn a_zero_sized_batch_fails_the_whole_call() {
    let vocab = small_vocab();
    assert_eq!(
        continuation_queries(&vocab, &vec![], &vec![0, 3]),
        Err(MaskError::ZeroSizedBatch)
    );
    assert_eq!(
        token_continuations(&vocab, &vec![], &vec![0, 3], &vec![]),
        Err(MaskError::ZeroSizedBatch)
    );
}

#[test]
fn the_query_plan_stops_at_the_end_marker() {
    let vocab = small_vocab();
    let data = vec![SOS, 4, EOS, PAD, PAD];
    let shape = vec![1, 5];
    let plans = continuation_queries(&vocab, &data, &shape).unwrap();
    assert_eq!(plans.len(), 1);
    assert_eq!(
        plans[0],
        vec![vec![], vec![LexicalItem::Normal("a".to_string())]]
    );
}

#[test]
fn the_query_plan_accumulates_affixed_groups() {
    let vocab = small_vocab();
    let data = vec![SOS, 4, AFFIX, 5, EOS];
    let shape = vec![1, 5];
    let plans = continuation_queries(&vocab, &data, &shape).unwrap();
    let group_open = vec![LexicalItem::Affixed(vec!["a".to_string()])];
    let group_closed = vec![LexicalItem::Affixed(vec!["a".to_string(), "b".to_string()])];
    assert_eq!(
        plans[0],
        vec![
            vec![],
            group_open.clone(),
            group_open,
            group_closed,
        ]
    );
}

#[test]
fn a_misplaced_start_marker_truncates_the_row_silently() {
    let vocab = small_vocab();
    let data = vec![SOS, 4, SOS, 4, 4];
    let shape = vec![1, 5];
    let plans = continuation_queries(&vocab, &data, &shape).unwrap();
    assert_eq!(plans[0].len(), 2);
}

#[test]
fn truncated_positions_stay_all_false() {
    let vocab = small_vocab();
    let v = vocab.len();
    let data = vec![SOS, 4, EOS, PAD, PAD];
    let shape = vec![1, 5];
    let answers = vec![vec![
        vec![word("a"), word("b")],
        vec![Continuation::EndOfSentence, affixed_word(&["a", "b"])],
    ]];
    let mask = token_continuations(&vocab, &data, &shape, &answers).unwrap();
    assert_eq!(mask.len(), 5 * v);
    // position 0 holds exactly the first answer's admitted tokens
    for t in 0..v {
        assert_eq!(cell(&mask, v, 0, t), t == 4 || t == 5);
    }
    // the affixed path from position 1 diverges at once: s[2] is EOS, not "a"
    for t in 0..v {
        assert_eq!(cell(&mask, v, 1, t), t == EOS || t == 4);
    }
    // every position from the end marker on stays false
    for p in 2..5 {
        for t in 0..v {
            assert!(!cell(&mask, v, p, t));
        }
    }
}

#[test]
fn an_affixed_continuation_marks_its_path_while_the_row_follows_it() {
    let vocab = small_vocab();
    let v = vocab.len();
    let data = vec![SOS, 4, AFFIX, 5, EOS];
    let shape = vec![1, 5];
    let answers = vec![vec![
        vec![affixed_word(&["a", "b"])],
        vec![],
        vec![],
        vec![Continuation::EndOfSentence],
    ]];
    let mask = token_continuations(&vocab, &data, &shape, &answers).unwrap();
    // the path a, AFFIX, b is marked at offsets 0, 1, 2 from position 0
    assert!(cell(&mask, v, 0, 4));
    assert!(cell(&mask, v, 1, AFFIX));
    assert!(cell(&mask, v, 2, 5));
    // and the end marker is admitted after the whole affixed word
    assert!(cell(&mask, v, 3, EOS));
    assert!(!cell(&mask, v, 0, 5));
    assert!(!cell(&mask, v, 4, EOS));
}

#[test]
fn a_diverging_affixed_continuation_marks_only_its_first_id() {
    let vocab = small_vocab();
    let v = vocab.len();
    let data = vec![SOS, 5, EOS];
    let shape = vec![1, 3];
    let answers = vec![vec![vec![affixed_word(&["a", "b"])], vec![]]];
    let mask = token_continuations(&vocab, &data, &shape, &answers).unwrap();
    assert!(cell(&mask, v, 0, 4));
    for t in 0..v {
        assert!(!cell(&mask, v, 1, t));
        assert!(!cell(&mask, v, 2, t));
    }
}

#[test]
fn identical_inputs_give_bit_identical_masks() {
    let vocab = small_vocab();
    let data = vec![SOS, 4, EOS, SOS, 5, EOS];
    let shape = vec![2, 3];
    let answers = vec![
        vec![vec![word("a")], vec![Continuation::EndOfSentence]],
        vec![vec![word("b")], vec![Continuation::EndOfSentence]],
    ];
    let first = token_continuations(&vocab, &data, &shape, &answers).unwrap();
    let second = token_continuations(&vocab, &data, &shape, &answers).unwrap();
    assert_eq!(first, second);
}

#[test]
fn leading_batch_dimensions_are_flattened_row_major() {
    let vocab = small_vocab();
    let v = vocab.len();
    let data = vec![SOS, 4, EOS, SOS, 5, EOS];
    let shape = vec![2, 1, 3];
    let answers = vec![
        vec![vec![word("a")], vec![]],
        vec![vec![word("b")], vec![]],
    ];
    let mask = token_continuations(&vocab, &data, &shape, &answers).unwrap();
    assert_eq!(mask.len(), 6 * v);
    // row 0 admits "a" at its first position, row 1 admits "b"
    assert!(mask[0 * v + 4]);
    assert!(!mask[0 * v + 5]);
    assert!(mask[(3 * v) + 5]);
    assert!(!mask[(3 * v) + 4]);
}

#[test]
fn a_continuation_word_with_no_id_marks_nothing() {
    let vocab = small_vocab();
    let v = vocab.len();
    let data = vec![SOS, EOS];
    let shape = vec![1, 2];
    let answers = vec![vec![vec![word("missing"), word("a")]]];
    let mask = token_continuations(&vocab, &data, &shape, &answers).unwrap();
    for t in 0..v {
        assert_eq!(cell(&mask, v, 0, t), t == 4);
    }
}
