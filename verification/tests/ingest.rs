use indexer::fileparse::{
    compose_document, detect_document_kind, make_document_id, DocumentKind, FileParsingError,
};

#[test]
fn document_id_is_digest_dash_filename() {
    // SHA-256 of the three bytes "abc", as hexadecimal
    let id = make_document_id(b"abc", "notes.pdf");
    assert_eq!(
        id,
        "ba7816bf8f01cfea414140de5dae2223b00361a396177a9cb410ff61f20015ad-notes.pdf"
    );
}

#[test]
fn pdf_magic_detected() {
    let data = b"%PDF-1.4 some pdf content";
    assert_eq!(detect_document_kind(data).unwrap(), DocumentKind::Pdf);
}

#[test]
fn html_detected() {
    let data = b"<!DOCTYPE html><html><head></head><body>hello</body></html>";
    assert_eq!(detect_document_kind(data).unwrap(), DocumentKind::Html);
}

#[test]
fn unknown_bytes_refused() {
    let data = [0u8, 1, 2, 3];
    assert!(detect_document_kind(&data).is_err());
}

#[test]
fn compose_normalizes_body_and_keeps_subject() {
    let d = compose_document(
        "A title".to_string(),
        vec!["rust".to_string()],
        "the cat sat",
        Some("given description".to_string()),
        &["the".to_string()],
        &None,
    );
    assert_eq!(d.title, "A title");
    assert_eq!(d.keywords, vec!["rust".to_string()]);
    assert_eq!(d.content, vec!["cat".to_string(), "sat".to_string()]);
    assert_eq!(d.description, "given description");
}

#[test]
fn missing_description_falls_back_to_body_start() {
    let d = compose_document(
        "t".to_string(),
        vec![],
        "line one\nline two",
        None,
        &[],
        &None,
    );
    assert_eq!(d.description, "line one line two");
}

#[test]
fn long_body_description_is_truncated() {
    let body: String = "x".repeat(300);
    let d = compose_document("t".to_string(), vec![], &body, None, &[], &None);
    assert_eq!(d.description.chars().count(), 120);
}

#[test]
fn parsing_error_keeps_its_message() {
    let e = FileParsingError::new("broken file".to_string());
    assert_eq!(e.message, "broken file");
}
