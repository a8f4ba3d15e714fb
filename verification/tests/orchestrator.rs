use indexer::kwparser::Glaff;
use indexer::models::{Document, DocumentType};
use indexer::server::{normalize_query, search_query, spelling_word, suggest_terms};
use indexer::spelling::Dictionary;
use indexer::store::KeywordIndex;

fn indexed(names_words: &[(&str, &str)]) -> KeywordIndex {
    let mut index = KeywordIndex::new();
    for (name, word) in names_words {
        index
            .create_document(&Document {
                name: (*name).to_string(),
                title: (*name).to_string(),
                doctype: DocumentType::Online,
                description: String::new(),
            })
            .unwrap();
        index.insert_word(word, name, None).unwrap();
    }
    index
}

fn chat_dictionary() -> Option<Dictionary> {
    let mut d = Dictionary::new();
    d.insert("chat".to_string(), 10);
    Some(d)
}

#[test]
fn empty_query_short_circuits() {
    let index = indexed(&[("d1", "chat")]);
    let r = search_query("", &index, &chat_dictionary(), &None);
    assert!(r.results.is_empty());
    assert!(r.spelling_suggestion.is_none());
    assert!(!r.using_suggestion);
}

#[test]
fn matching_query_never_uses_suggestion() {
    // A correction for "chat" could exist, but the initial search
    // succeeds, so the suggestion must not be used.
    let index = indexed(&[("d1", "chat")]);
    let r = search_query("chat", &index, &chat_dictionary(), &None);
    assert_eq!(r.results.len(), 1);
    assert_eq!(r.results[0].doc, "d1");
    assert!(!r.using_suggestion);
    assert!(r.spelling_suggestion.is_none());
}

#[test]
fn misspelled_query_falls_back_to_suggestion() {
    // "chwt" matches nothing; its correction "chat" differs, so the
    // index is queried again with the corrected terms and the result is
    // tagged as coming from the suggestion.
    let index = indexed(&[("d1", "chat")]);
    let r = search_query("chwt", &index, &chat_dictionary(), &None);
    assert!(r.using_suggestion);
    assert_eq!(r.spelling_suggestion, Some("chat".to_string()));
    assert_eq!(r.results.len(), 1);
    assert_eq!(r.results[0].doc, "d1");
}

#[test]
fn suggested_result_returned_even_when_empty() {
    // The correction differs but matches nothing either: the empty
    // second result is returned, still tagged, with no third attempt.
    let index = indexed(&[("d1", "chien")]);
    let r = search_query("chwt", &index, &chat_dictionary(), &None);
    assert!(r.using_suggestion);
    assert_eq!(r.spelling_suggestion, Some("chat".to_string()));
    assert!(r.results.is_empty());
}

#[test]
fn unchanged_suggestion_never_triggers_fallback() {
    // Nothing matches, but no correction exists either: the empty
    // result comes back untagged.
    let index = indexed(&[("d1", "chat")]);
    let r = search_query("zzzz", &index, &None, &None);
    assert!(r.results.is_empty());
    assert!(!r.using_suggestion);
    assert!(r.spelling_suggestion.is_none());
}

#[test]
fn queries_are_lowercased_and_lemma_resolved() {
    let mut glaff = Glaff::new();
    glaff.insert("chats".to_string(), "chat".to_string());
    let index = indexed(&[("d1", "chat")]);
    let r = search_query("Chats", &index, &None, &Some(glaff));
    assert_eq!(r.results.len(), 1);
    assert!(!r.using_suggestion);
}

#[test]
fn query_terms_keep_short_words_and_stopwords() {
    // Unlike indexed content, queries are only split and canonicalized.
    let terms = normalize_query("Le  chat", &None);
    assert_eq!(terms, vec!["le".to_string(), "chat".to_string()]);
}

#[test]
fn suggestions_are_joined_with_spaces() {
    let index = indexed(&[("d1", "chien")]);
    let r = search_query("chwt chwt", &index, &chat_dictionary(), &None);
    assert!(r.using_suggestion);
    assert_eq!(r.spelling_suggestion, Some("chat chat".to_string()));
}

#[test]
fn corrected_terms_are_canonicalized_again() {
    // The corrector proposes "chats"; lemma resolution then maps the
    // corrected surface form to "chat".
    let mut d = Dictionary::new();
    d.insert("chats".to_string(), 10);
    let mut glaff = Glaff::new();
    glaff.insert("chats".to_string(), "chat".to_string());
    let suggested = suggest_terms(&vec!["chwts".to_string()], &Some(d), &Some(glaff));
    assert_eq!(suggested, vec!["chat".to_string()]);
}

#[test]
fn single_word_spelling_endpoint() {
    assert_eq!(
        spelling_word("chwt".to_string(), &chat_dictionary()),
        "chat"
    );
    assert_eq!(spelling_word("chat".to_string(), &chat_dictionary()), "chat");
}
