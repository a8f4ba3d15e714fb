use indexer::fileparse::ParsedDocument;
use indexer::models::{Document, DocumentType};
use indexer::store::{IndexError, KeywordIndex};

fn doc(name: &str, doctype: DocumentType) -> Document {
    Document {
        name: name.to_string(),
        title: format!("title of {}", name),
        doctype,
        description: format!("about {}", name),
    }
}

#[test]
fn weights_accumulate_in_one_record() {
    let mut index = KeywordIndex::new();
    index.create_document(&doc("d1", DocumentType::Online)).unwrap();
    index.insert_word("chat", "d1", Some(2)).unwrap();
    index.insert_word("chat", "d1", Some(1)).unwrap();
    // one record with count 3, not two records
    assert_eq!(index.get_occurrence("chat", "d1"), Some(3));
    let listed = index.doc_list_keywords("d1");
    assert_eq!(listed.len(), 1);
    assert_eq!(listed[0].keyword, "chat");
    assert_eq!(listed[0].rank, 3);
}

#[test]
fn default_weight_is_one() {
    let mut index = KeywordIndex::new();
    index.create_document(&doc("d1", DocumentType::Online)).unwrap();
    index.insert_word("chat", "d1", None).unwrap();
    assert_eq!(index.get_occurrence("chat", "d1"), Some(1));
}

#[test]
fn insert_into_missing_document_refused() {
    let mut index = KeywordIndex::new();
    assert_eq!(
        index.insert_word("chat", "nowhere", None),
        Err(IndexError::DocumentMissing)
    );
}

#[test]
fn duplicate_document_refused() {
    let mut index = KeywordIndex::new();
    index.create_document(&doc("d1", DocumentType::Online)).unwrap();
    assert_eq!(
        index.create_document(&doc("d1", DocumentType::Offline)),
        Err(IndexError::DocumentExists)
    );
}

#[test]
fn empty_search_returns_nothing() {
    let mut index = KeywordIndex::new();
    index.create_document(&doc("d1", DocumentType::Online)).unwrap();
    index.insert_word("chat", "d1", None).unwrap();
    let r = index.keywords_search(&[]);
    assert!(r.is_empty());
}

#[test]
fn search_totals_add_across_terms() {
    let mut index = KeywordIndex::new();
    index.create_document(&doc("d1", DocumentType::Online)).unwrap();
    index.insert_word("alpha", "d1", Some(3)).unwrap();
    index.insert_word("beta", "d1", Some(5)).unwrap();
    let r = index.keywords_search(&["alpha".to_string(), "beta".to_string()]);
    assert_eq!(r.len(), 1);
    assert_eq!(r[0].doc, "d1");
    assert_eq!(r[0].hits, 8);
    assert_eq!(r[0].title, "title of d1");
    assert_eq!(r[0].description, "about d1");
}

#[test]
fn search_ranks_descending_with_deterministic_ties() {
    let mut index = KeywordIndex::new();
    index.create_document(&doc("zeta", DocumentType::Online)).unwrap();
    index.create_document(&doc("alpha", DocumentType::Online)).unwrap();
    index.create_document(&doc("mid", DocumentType::Online)).unwrap();
    index.insert_word("chat", "zeta", Some(2)).unwrap();
    index.insert_word("chat", "alpha", Some(2)).unwrap();
    index.insert_word("chat", "mid", Some(7)).unwrap();
    let r = index.keywords_search(&["chat".to_string()]);
    assert_eq!(r.len(), 3);
    assert_eq!(r[0].doc, "mid");
    // equal totals come in lexicographic order of the identifier
    assert_eq!(r[1].doc, "alpha");
    assert_eq!(r[2].doc, "zeta");
}

#[test]
fn unmatched_document_absent_not_zero() {
    let mut index = KeywordIndex::new();
    index.create_document(&doc("d1", DocumentType::Online)).unwrap();
    index.create_document(&doc("d2", DocumentType::Online)).unwrap();
    index.insert_word("chat", "d1", None).unwrap();
    let r = index.keywords_search(&["chat".to_string()]);
    assert_eq!(r.len(), 1);
    assert_eq!(r[0].doc, "d1");
}

#[test]
fn deletion_cascades_to_occurrences() {
    let mut index = KeywordIndex::new();
    index.create_document(&doc("d1", DocumentType::Online)).unwrap();
    index.create_document(&doc("d2", DocumentType::Online)).unwrap();
    index.insert_word("chat", "d1", Some(2)).unwrap();
    index.insert_word("chat", "d2", Some(1)).unwrap();
    index.delete_document("d1").unwrap();
    assert!(!index.document_exists("d1"));
    assert!(index.document_exists("d2"));
    assert_eq!(index.get_occurrence("chat", "d1"), None);
    let occs = index.find_occurrences("chat");
    assert_eq!(occs.len(), 1);
    assert_eq!(occs[0].0, "d2");
    let listed = index.doc_list_keywords("d1");
    assert!(listed.is_empty());
}

#[test]
fn keywords_listing_sorted_by_weight() {
    let mut index = KeywordIndex::new();
    index.create_document(&doc("d1", DocumentType::Online)).unwrap();
    index.insert_word("rare", "d1", Some(1)).unwrap();
    index.insert_word("common", "d1", Some(9)).unwrap();
    index.insert_word("even", "d1", Some(9)).unwrap();
    let listed = index.doc_list_keywords("d1");
    assert_eq!(listed.len(), 3);
    assert_eq!(listed[0].keyword, "common");
    assert_eq!(listed[0].rank, 9);
    assert_eq!(listed[1].keyword, "even");
    assert_eq!(listed[2].keyword, "rare");
}

#[test]
fn add_document_applies_weighting_policy() {
    let mut index = KeywordIndex::new();
    let d = doc("d1", DocumentType::Offline);
    let content = ParsedDocument {
        title: "t".to_string(),
        keywords: vec!["rust".to_string()],
        content: vec!["rust".to_string(), "verus".to_string()],
        description: "d".to_string(),
    };
    index.add_document(&d, &content).unwrap();
    // declared keyword weight 2 plus one body occurrence
    assert_eq!(index.get_occurrence("rust", "d1"), Some(3));
    assert_eq!(index.get_occurrence("verus", "d1"), Some(1));
}

#[test]
fn documents_are_listed_and_found() {
    let mut index = KeywordIndex::new();
    index.create_document(&doc("d1", DocumentType::Online)).unwrap();
    index.create_document(&doc("d2", DocumentType::Offline)).unwrap();
    let all = index.list_documents();
    assert_eq!(all.len(), 2);
    assert_eq!(all[0].name, "d1");
    let found = index.get_document("d2").unwrap();
    assert_eq!(found.title, "title of d2");
    assert!(index.get_document("d3").is_none());
}

#[test]
fn s3_filename_only_for_online_documents() {
    let mut index = KeywordIndex::new();
    index.create_document(&doc("web", DocumentType::Online)).unwrap();
    index.create_document(&doc("file", DocumentType::Offline)).unwrap();
    assert_eq!(index.get_s3_filename("web"), Some("web".to_string()));
    assert_eq!(index.get_s3_filename("file"), None);
    assert_eq!(index.get_s3_filename("none"), None);
}
