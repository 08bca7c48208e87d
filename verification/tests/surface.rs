use mg_tokens::codec::{continuation_surface, map_string, surface_string};
use mg_tokens::items::{Continuation, LexicalItem};

fn normal(w: &str) -> LexicalItem {
    LexicalItem::Normal(w.to_string())
}

#[test]
fn a_blank_string_parses_to_no_items() {
    assert_eq!(map_string(""), vec![]);
    assert_eq!(map_string("   "), vec![]);
    assert_eq!(map_string(" \t\n"), vec![]);
}

#[test]
fn spaces_separate_words_and_hyphens_join_morphemes() {
    assert_eq!(
        map_string("the dog-s run"),
        vec![
            normal("the"),
            LexicalItem::Affixed(vec!["dog".to_string(), "s".to_string()]),
            normal("run"),
        ]
    );
}

#[test]
fn a_single_word_is_one_normal_item() {
    assert_eq!(map_string("walk"), vec![normal("walk")]);
}

#[test]
fn doubled_spaces_keep_empty_words() {
    assert_eq!(
        map_string("a  b"),
        vec![normal("a"), normal(""), normal("b")]
    );
}

#[test]
fn rendering_joins_words_with_spaces_and_morphemes_with_hyphens() {
    let items = vec![
        normal("the"),
        LexicalItem::Affixed(vec!["dog".to_string(), "s".to_string()]),
        normal("run"),
    ];
    assert_eq!(surface_string(&items), "the dog-s run");
    assert_eq!(surface_string(&vec![]), "");
    assert_eq!(map_string(&surface_string(&items)), items);
}

#[test]
fn continuations_render_to_their_surface_forms() {
    assert_eq!(
        continuation_surface(&Continuation::Word("walk".to_string())),
        "walk"
    );
    assert_eq!(
        continuation_surface(&Continuation::AffixedWord(vec![
            "dog".to_string(),
            "s".to_string()
        ])),
        "dog-s"
    );
    assert_eq!(continuation_surface(&Continuation::eos()), "[EOS]");
}

#[test]
fn the_end_marker_surface_form_names_the_end_continuation() {
    assert_eq!(Continuation::new("[EOS]"), Continuation::eos());
    assert!(Continuation::new("[EOS]").is_end_of_string());
    assert_eq!(
        Continuation::new("walk"),
        Continuation::Word("walk".to_string())
    );
    assert!(Continuation::new("walk").is_word());
    assert!(!Continuation::new("walk").is_end_of_string());
}
