use indexer::spelling::{alphabet, correct, edits, Dictionary};

fn dict(entries: &[(&str, usize)]) -> Dictionary {
    let mut d = Dictionary::new();
    for (w, f) in entries {
        d.insert((*w).to_string(), *f);
    }
    d
}

#[test]
fn known_word_unchanged() {
    let d = Some(dict(&[("chat", 10), ("chien", 3)]));
    assert_eq!(correct("chat".to_string(), &d), "chat");
    assert_eq!(correct("chien".to_string(), &d), "chien");
}

#[test]
fn no_dictionary_unchanged() {
    assert_eq!(correct("chwt".to_string(), &None), "chwt");
}

#[test]
fn distance_one_preferred_over_distance_two() {
    // "chat" is one alteration away from "chwt"; "chats" would be two
    // edits away. The distance-one candidate must win even though both
    // are dictionary words.
    let d = Some(dict(&[("chat", 10), ("chats", 1)]));
    assert_eq!(correct("chwt".to_string(), &d), "chat");
}

#[test]
fn highest_frequency_wins_at_same_distance() {
    // Both "chat" and "char" are one alteration from "chaz"; the more
    // frequent one is proposed.
    let d = Some(dict(&[("chat", 10), ("char", 20)]));
    assert_eq!(correct("chaz".to_string(), &d), "char");
}

#[test]
fn distance_two_found_when_distance_one_fails() {
    let d = Some(dict(&[("chat", 10)]));
    // "chwx" needs two alterations to reach "chat".
    assert_eq!(correct("chwx".to_string(), &d), "chat");
}

#[test]
fn no_candidate_returns_word() {
    let d = Some(dict(&[("bonjour", 5)]));
    assert_eq!(correct("xqzt".to_string(), &d), "xqzt");
}

#[test]
fn edits_contains_the_four_kinds() {
    let e = edits("chat");
    // deletion of the first character
    assert!(e.contains(&"hat".to_string()));
    // transposition of the first two characters
    assert!(e.contains(&"hcat".to_string()));
    // alteration drawn from the alphabet
    assert!(e.contains(&"chut".to_string()));
    // insertion drawn from the alphabet
    assert!(e.contains(&"cahat".to_string()));
    // the word itself is produced too (altering a letter to itself)
    assert!(e.contains(&"chat".to_string()));
}

#[test]
fn edits_count_matches_construction() {
    // for each of the 4 positions: one deletion, one transposition for
    // the first 3 positions, and one alteration plus one insertion per
    // alphabet letter.
    let e = edits("chat");
    let a = alphabet().len();
    assert_eq!(e.len(), 4 + 3 + 4 * 2 * a);
}

#[test]
fn accented_alphabet_reaches_accented_words() {
    let d = Some(dict(&[("café", 7)]));
    assert_eq!(correct("cafe".to_string(), &d), "café");
}
