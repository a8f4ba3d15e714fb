//! The data model: indexed documents and the transient ranked records
//! that searches produce.

use vstd::prelude::*;

verus! {

/// Where an indexed document came from: fetched from a URL or uploaded
/// as a file.
#[derive(Clone, Copy, PartialEq, Eq, Structural, Debug)]
pub enum DocumentType {
    Online,
    Offline,
}

/// An indexed document: a unique identifier (a URL or a content hash),
/// its title and description, and its origin. Created once on ingestion
/// and immutable except for deletion, which cascades to the document's
/// keyword occurrence records.
#[derive(Debug)]
pub struct Document {
    pub name: String,
    pub title: String,
    pub doctype: DocumentType,
    pub description: String,
}

impl Clone for Document {
    fn clone(&self) -> (r: Self)
        ensures
            r == *self,
    {
        Document {
            name: self.name.clone(),
            title: self.title.clone(),
            doctype: self.doctype,
            description: self.description.clone(),
        }
    }
}

/// A document returned by a search, with the total number of hits the
/// query's terms scored against it.
#[derive(Debug)]
pub struct RankedDoc {
    pub doc: String,
    pub title: String,
    pub description: String,
    pub hits: u64,
}

impl Clone for RankedDoc {
    fn clone(&self) -> (r: Self)
        ensures
            r == *self,
    {
        RankedDoc {
            doc: self.doc.clone(),
            title: self.title.clone(),
            description: self.description.clone(),
            hits: self.hits,
        }
    }
}

/// A keyword of one document, with its accumulated occurrence weight.
#[derive(Debug)]
pub struct RankedKeyword {
    pub keyword: String,
    pub rank: u64,
}

impl Clone for RankedKeyword {
    fn clone(&self) -> (r: Self)
        ensures
            r == *self,
    {
        RankedKeyword { keyword: self.keyword.clone(), rank: self.rank }
    }
}

/// Whether the two-phase search ended up querying with the spelling
/// suggestion instead of the original terms.
#[derive(Clone, Copy, PartialEq, Eq, Structural, Debug)]
pub enum UseSpellingSuggestion {
    Yes,
    No,
}

/// What a query returns: the ranked documents, the suggested spelling of
/// the query when one was tried, and whether the results come from that
/// suggestion rather than from the original terms.
#[derive(Debug)]
pub struct QueryResult {
    pub spelling_suggestion: Option<String>,
    pub results: Vec<RankedDoc>,
    pub using_suggestion: bool,
}

impl QueryResult {
    pub fn new(
        results: Vec<RankedDoc>,
        spelling_suggestion: Option<String>,
        using_suggestion: &UseSpellingSuggestion,
    ) -> (r: Self)
        ensures
            r.results == results,
            r.spelling_suggestion == spelling_suggestion,
            r.using_suggestion == (*using_suggestion == UseSpellingSuggestion::Yes),
    {
        Self {
            results,
            spelling_suggestion,
            using_suggestion: match using_suggestion {
                UseSpellingSuggestion::Yes => true,
                UseSpellingSuggestion::No => false,
            },
        }
    }
}

impl Default for QueryResult {
    /// The result of an empty query: no documents, no suggestion.
    fn default() -> (r: Self)
        ensures
            r.results@.len() == 0,
            r.spelling_suggestion is None,
            !r.using_suggestion,
    {
        QueryResult { spelling_suggestion: None, results: Vec::new(), using_suggestion: false }
    }
}

} // verus!
