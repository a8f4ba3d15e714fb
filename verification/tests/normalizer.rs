use indexer::kwparser::{
    get_keywords_from_text, get_lemma_from_glaff, is_short_word, is_stopword, split_keywords,
    Glaff,
};

#[test]
fn accented_tokens_fold_to_same_keyword() {
    let r = get_keywords_from_text("Café, CAFÉ!", &[], &None);
    assert_eq!(r, vec!["café".to_string(), "café".to_string()]);
}

#[test]
fn short_words_always_dropped() {
    // "go" and "ab" are two characters long and are dropped even though
    // they are not stopwords; "abc" survives.
    let r = get_keywords_from_text("go ab abc", &[], &None);
    assert_eq!(r, vec!["abc".to_string()]);
}

#[test]
fn stopwords_dropped() {
    let stops = vec!["the".to_string()];
    let r = get_keywords_from_text("the cat", &stops, &None);
    assert_eq!(r, vec!["cat".to_string()]);
}

#[test]
fn lemma_resolution_applies_after_lowercasing() {
    let mut glaff = Glaff::new();
    glaff.insert("chats".to_string(), "chat".to_string());
    let r = get_keywords_from_text("Chats", &[], &Some(glaff));
    assert_eq!(r, vec!["chat".to_string()]);
}

#[test]
fn lemma_lookup_identity_when_absent() {
    let mut glaff = Glaff::new();
    glaff.insert("chats".to_string(), "chat".to_string());
    let g = Some(glaff);
    assert_eq!(get_lemma_from_glaff("chats".to_string(), &g), "chat");
    assert_eq!(get_lemma_from_glaff("chien".to_string(), &g), "chien");
    assert_eq!(get_lemma_from_glaff("chats".to_string(), &None), "chats");
}

#[test]
fn split_keywords_on_commas_and_spaces() {
    let r = split_keywords("rust, verus proof,,  ");
    assert_eq!(
        r,
        vec!["rust".to_string(), "verus".to_string(), "proof".to_string()]
    );
}

#[test]
fn short_word_predicate() {
    assert!(is_short_word(&"je".to_string()));
    assert!(!is_short_word(&"bonjour".to_string()));
}

#[test]
fn stopword_predicate() {
    let stops = vec!["de".to_string(), "la".to_string()];
    assert!(is_stopword(&"la".to_string(), &stops));
    assert!(!is_stopword(&"chat".to_string(), &stops));
}

#[test]
fn punctuation_splits_tokens() {
    let r = get_keywords_from_text("rust/verus—proof", &[], &None);
    assert_eq!(
        r,
        vec!["rust".to_string(), "verus".to_string(), "proof".to_string()]
    );
}
