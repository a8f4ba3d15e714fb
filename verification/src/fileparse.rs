//! What ingestion consumes: the extraction collaborator hands over a
//! document's title, declared keywords, body text and optional
//! description as plain strings; this module turns them into the record
//! the index stores, and identifies what kind of file some raw bytes are.

use vstd::prelude::*;

use crate::kwparser::{get_keywords_from_text, spec_keywords_from_text, Glaff};
use crate::text::string_from_chars;

verus! {

/// The hexadecimal SHA-256 digest that `sha256::digest` computes for a
/// byte sequence; a function of the bytes alone.
pub uninterp spec fn sha256_hex_of(bytes: Seq<u8>) -> Seq<char>;

/// Relies on `sha256::digest`: the lowercase hexadecimal SHA-256 digest
/// of the bytes, which depends on the bytes alone.
#[verifier::external_body]
fn sha256_hex(data: &[u8]) -> (r: String)
    ensures
        r@ == sha256_hex_of(data@),
{
    sha256::digest(data)
}

/// The MIME type that `infer::get` detects from a byte sequence's
/// leading magic numbers, if any; a function of the bytes alone.
pub uninterp spec fn mime_of(bytes: Seq<u8>) -> Option<Seq<char>>;

/// Relies on `infer::get`: MIME type detection from a buffer's magic
/// numbers, which depends on the bytes alone.
#[verifier::external_body]
fn detect_mime(data: &[u8]) -> (r: Option<String>)
    ensures
        (match r {
            Some(s) => Some(s@),
            None => None,
        }) == mime_of(data@),
{
    infer::get(data).map(|t| t.mime_type().to_owned())
}

/// An error met while parsing a file into text.
#[derive(Debug)]
pub struct FileParsingError {
    pub message: String,
}

impl FileParsingError {
    pub fn new(error: String) -> (r: Self)
        ensures
            r.message == error,
    {
        Self { message: error }
    }
}

/// A document ready to be indexed: its title and description, the
/// keywords its author declared, and the normalized keywords of its body.
#[derive(Debug)]
pub struct ParsedDocument {
    pub title: String,
    pub keywords: Vec<String>,
    pub content: Vec<String>,
    pub description: String,
}

/// The file formats the indexer can extract text from.
#[derive(Clone, Copy, PartialEq, Eq, Structural, Debug)]
pub enum DocumentKind {
    Pdf,
    Html,
}

/// Decide what kind of file some raw bytes are, from their detected MIME
/// type: a PDF or an HTML page is accepted, anything else (or bytes with
/// no recognizable type at all) is refused.
pub fn detect_document_kind(data: &[u8]) -> (r: Result<DocumentKind, FileParsingError>)
    ensures
        match mime_of(data@) {
            None => r is Err,
            Some(m) => if m == "application/pdf"@ {
                r == Ok::<DocumentKind, FileParsingError>(DocumentKind::Pdf)
            } else if m == "text/html"@ {
                r == Ok::<DocumentKind, FileParsingError>(DocumentKind::Html)
            } else {
                r is Err
            },
        },
{
    match detect_mime(data) {
        None => Err(FileParsingError::new(String::from_str("No mime type detected"))),
        Some(mime) => {
            if crate::text::str_eq(mime.as_str(), "application/pdf") {
                Ok(DocumentKind::Pdf)
            } else if crate::text::str_eq(mime.as_str(), "text/html") {
                Ok(DocumentKind::Html)
            } else {
                Err(FileParsingError::new(String::from_str("Mime type not supported")))
            }
        },
    }
}

/// How many characters of a body stand in for a missing description.
pub open spec fn description_limit() -> int {
    120
}

/// The fallback description drawn from a body: its leading characters,
/// at most the limit, with newlines turned into spaces.
pub open spec fn description_of(body: Seq<char>) -> Seq<char> {
    let cut = if body.len() <= description_limit() {
        body
    } else {
        body.take(description_limit())
    };
    cut.map_values(|c: char| if c == '\n' { ' ' } else { c })
}

/// Assemble the record to index from what the extraction collaborator
/// supplied: the body text is normalized into keywords, and a document
/// with no declared description gets the start of its body, newlines
/// flattened, in its place.
pub fn compose_document(
    title: String,
    keywords: Vec<String>,
    body: &str,
    subject: Option<String>,
    stop_words: &[String],
    glaff: &Option<Glaff>,
) -> (r: ParsedDocument)
    ensures
        r.title == title,
        r.keywords == keywords,
        r.content.deep_view() == spec_keywords_from_text(body@, stop_words.deep_view(), *glaff),
        r.description@ == (match subject {
            Some(s) => s@,
            None => description_of(body@),
        }),
{
    let content = get_keywords_from_text(body, stop_words, glaff);
    let description = match subject {
        Some(s) => s,
        None => {
            let n = body.unicode_len();
            let limit: usize = if n <= 120 {
                n
            } else {
                120
            };
            let mut cleaned: Vec<char> = Vec::new();
            let mut i: usize = 0;
            while i < limit
                invariant
                    limit <= body@.len(),
                    limit == (if body@.len() <= description_limit() {
                        body@.len() as int
                    } else {
                        description_limit()
                    }),
                    i <= limit,
                    cleaned@ =~= description_of(body@).take(i as int),
                decreases limit - i,
            {
                let c = body.get_char(i);
                cleaned.push(
                    if c == '\n' {
                        ' '
                    } else {
                        c
                    },
                );
                proof {
                    assert(cleaned@ =~= description_of(body@).take(i + 1));
                }
                i = i + 1;
            }
            proof {
                assert(description_of(body@).take(limit as int) =~= description_of(body@));
            }
            string_from_chars(&cleaned)
        },
    };
    ParsedDocument { title, keywords, content, description }
}

/// A document's unique identifier when it is uploaded as a file: the
/// hexadecimal SHA-256 digest of its bytes, a dash, and its filename.
pub fn make_document_id(data: &[u8], filename: &str) -> (r: String)
    ensures
        r@ == sha256_hex_of(data@) + "-"@ + filename@,
{
    let digest = sha256_hex(data);
    digest.concat("-").concat(filename)
}

} // verus!
