//! The keyword index: the store of (document, word, occurrence-weight)
//! facts, with weighted insertion and ranked multi-term search. It is the
//! in-memory model of the small CRUD interface the surrounding service's
//! relational store must provide; the algorithms that combine its
//! operations live here and are verified against it.

use vstd::prelude::*;

use crate::fileparse::ParsedDocument;
use crate::models::{Document, DocumentType, RankedDoc, RankedKeyword};
use crate::text::{lex_le, str_eq};

verus! {

/// A keyword occurrence record: `word` occurs in `document` with an
/// accumulated weight of `occurrences`.
#[derive(Debug)]
pub struct Keyword {
    pub word: String,
    pub document: String,
    pub occurrences: u64,
}

impl Clone for Keyword {
    fn clone(&self) -> (r: Self)
        ensures
            r == *self,
    {
        Keyword {
            word: self.word.clone(),
            document: self.document.clone(),
            occurrences: self.occurrences,
        }
    }
}

/// Why an index operation was refused.
#[derive(Clone, Copy, PartialEq, Eq, Structural, Debug)]
pub enum IndexError {
    /// An occurrence was inserted for a document the index does not hold.
    DocumentMissing,
    /// A document was created under an identifier already in use.
    DocumentExists,
}

/// First-match lookup of a document by name.
pub open spec fn doc_lookup(docs: Seq<Document>, name: Seq<char>) -> Option<Document>
    decreases docs.len(),
{
    if docs.len() == 0 {
        None
    } else if docs.first().name@ == name {
        Some(docs.first())
    } else {
        doc_lookup(docs.drop_first(), name)
    }
}

/// Whether a document with this name is indexed.
pub open spec fn has_doc(docs: Seq<Document>, name: Seq<char>) -> bool {
    doc_lookup(docs, name) is Some
}

/// Whether a record is the occurrence of `w` in `d`.
pub open spec fn occ_matches(k: Keyword, w: Seq<char>, d: Seq<char>) -> bool {
    k.word@ == w && k.document@ == d
}

/// The occurrence count recorded for `w` in `d`; zero when there is no
/// record.
pub open spec fn occ_count(occs: Seq<Keyword>, w: Seq<char>, d: Seq<char>) -> u64
    decreases occs.len(),
{
    if occs.len() == 0 {
        0
    } else if occ_matches(occs.first(), w, d) {
        occs.first().occurrences
    } else {
        occ_count(occs.drop_first(), w, d)
    }
}

/// Occurrence counts accumulate and saturate at the integer limit rather
/// than overflow.
pub open spec fn bump(c: u64, w: u64) -> u64 {
    if c + w <= u64::MAX {
        (c + w) as u64
    } else {
        u64::MAX
    }
}

/// The weight an insertion credits: the given one, or one by default.
pub open spec fn weight_value(weight: Option<u32>) -> u32 {
    match weight {
        None => 1,
        Some(w) => w,
    }
}

/// The keyword index: the indexed documents and their occurrence
/// records. `wf` is its invariant: document names are unique, at most
/// one record exists per (word, document) pair, every record points to
/// an indexed document, and every recorded count is positive.
pub struct KeywordIndex {
    pub docs: Vec<Document>,
    pub occs: Vec<Keyword>,
}

impl KeywordIndex {
    /// Well-formedness: the invariant every operation preserves.
    pub open spec fn wf(self) -> bool {
        &&& forall|i: int, j: int|
            0 <= i < j < self.docs@.len() ==> (#[trigger] self.docs@[i]).name@ != (
            #[trigger] self.docs@[j]).name@
        &&& forall|i: int, j: int|
            0 <= i < j < self.occs@.len() ==> !occ_matches(
                #[trigger] self.occs@[i],
                (#[trigger] self.occs@[j]).word@,
                self.occs@[j].document@,
            )
        &&& forall|i: int|
            0 <= i < self.occs@.len() ==> has_doc(self.docs@, (#[trigger] self.occs@[i]).document@)
                && self.occs@[i].occurrences >= 1
    }

    /// An empty index.
    pub fn new() -> (r: KeywordIndex)
        ensures
            r.wf(),
            r.docs@.len() == 0,
            r.occs@.len() == 0,
    {
        KeywordIndex { docs: Vec::new(), occs: Vec::new() }
    }

    /// Whether the index holds a document under this identifier.
    pub fn document_exists(&self, id: &str) -> (r: bool)
        ensures
            r == has_doc(self.docs@, id@),
    {
        let mut i: usize = 0;
        proof {
            assert(self.docs@.skip(0) =~= self.docs@);
        }
        while i < self.docs.len()
            invariant
                i <= self.docs@.len(),
                doc_lookup(self.docs@, id@) == doc_lookup(self.docs@.skip(i as int), id@),
            decreases self.docs@.len() - i,
        {
            proof {
                assert(self.docs@.skip(i as int).first() == self.docs@[i as int]);
                assert(self.docs@.skip(i as int).drop_first() =~= self.docs@.skip(i + 1));
            }
            if str_eq(self.docs[i].name.as_str(), id) {
                return true;
            }
            i = i + 1;
        }
        proof {
            assert(self.docs@.skip(self.docs@.len() as int) =~= Seq::<Document>::empty());
        }
        false
    }

    /// Get a specific document by name, as stored.
    pub fn get_document(&self, id: &str) -> (r: Option<Document>)
        ensures
            match r {
                Some(d) => doc_lookup(self.docs@, id@) == Some(d),
                None => doc_lookup(self.docs@, id@) is None,
            },
    {
        let mut i: usize = 0;
        proof {
            assert(self.docs@.skip(0) =~= self.docs@);
        }
        while i < self.docs.len()
            invariant
                i <= self.docs@.len(),
                doc_lookup(self.docs@, id@) == doc_lookup(self.docs@.skip(i as int), id@),
            decreases self.docs@.len() - i,
        {
            proof {
                assert(self.docs@.skip(i as int).first() == self.docs@[i as int]);
                assert(self.docs@.skip(i as int).drop_first() =~= self.docs@.skip(i + 1));
            }
            if str_eq(self.docs[i].name.as_str(), id) {
                return Some(self.docs[i].clone());
            }
            i = i + 1;
        }
        proof {
            assert(self.docs@.skip(self.docs@.len() as int) =~= Seq::<Document>::empty());
        }
        None
    }

    /// List the indexed documents, in insertion order.
    pub fn list_documents(&self) -> (r: Vec<Document>)
        ensures
            r@ == self.docs@,
    {
        let mut r: Vec<Document> = Vec::new();
        let mut i: usize = 0;
        while i < self.docs.len()
            invariant
                i <= self.docs@.len(),
                r@ == self.docs@.take(i as int),
            decreases self.docs@.len() - i,
        {
            r.push(self.docs[i].clone());
            proof {
                assert(r@ =~= self.docs@.take(i + 1));
            }
            i = i + 1;
        }
        proof {
            assert(self.docs@.take(self.docs@.len() as int) =~= self.docs@);
        }
        r
    }

    /// Retrieve the remote-storage filename of a document: its own
    /// identifier when the document exists and was fetched online,
    /// nothing otherwise.
    pub fn get_s3_filename(&self, id: &str) -> (r: Option<String>)
        ensures
            (r is Some) == (match doc_lookup(self.docs@, id@) {
                Some(d) => d.doctype == DocumentType::Online,
                None => false,
            }),
            match r {
                Some(s) => s@ == id@,
                None => true,
            },
    {
        match self.get_document(id) {
            Some(document) => {
                if document.doctype == DocumentType::Online {
                    proof {
                        assert(doc_lookup(self.docs@, id@) == Some(document));
                        lemma_doc_lookup_found(self.docs@, id@);
                    }
                    Some(document.name)
                } else {
                    None
                }
            },
            None => None,
        }
    }

    /// Record a new document. Refused when the identifier is already in
    /// use: a document is created once and never overwritten.
    pub fn create_document(&mut self, document: &Document) -> (r: Result<(), IndexError>)
        requires
            old(self).wf(),
        ensures
            final(self).wf(),
            final(self).occs@ == old(self).occs@,
            match r {
                Ok(()) => !has_doc(old(self).docs@, document.name@) && final(self).docs@ == old(
                    self,
                ).docs@.push(*document) && forall|n: Seq<char>|
                    doc_lookup(final(self).docs@, n) == (if n == document.name@ {
                        Some(*document)
                    } else {
                        doc_lookup(old(self).docs@, n)
                    }),
                Err(IndexError::DocumentExists) => has_doc(old(self).docs@, document.name@)
                    && final(self).docs@ == old(self).docs@,
                Err(IndexError::DocumentMissing) => false,
            },
    {
        if self.document_exists(document.name.as_str()) {
            return Err(IndexError::DocumentExists);
        }
        let ghost old_docs = self.docs@;
        self.docs.push(document.clone());
        proof {
            assert forall|n: Seq<char>|
                doc_lookup(self.docs@, n) == (if n == document.name@ {
                    Some(*document)
                } else {
                    doc_lookup(old_docs, n)
                }) by {
                lemma_doc_lookup_push(old_docs, *document, n);
                if n == document.name@ {
                    lemma_doc_lookup_none_absent(old_docs, n);
                }
            }
            assert forall|i: int, j: int| 0 <= i < j < self.docs@.len() implies (
            #[trigger] self.docs@[i]).name@ != (#[trigger] self.docs@[j]).name@ by {
                if j == self.docs@.len() - 1 {
                    lemma_doc_lookup_none_absent(old_docs, document.name@);
                    assert(self.docs@[i] == old_docs[i]);
                }
            }
            assert forall|i: int| 0 <= i < self.occs@.len() implies has_doc(
                self.docs@,
                (#[trigger] self.occs@[i]).document@,
            ) && self.occs@[i].occurrences >= 1 by {
                lemma_doc_lookup_push(old_docs, *document, self.occs@[i].document@);
            }
        }
        Ok(())
    }

    /// The position of the record for (word, doc), if one exists.
    fn find_occ_index(&self, word: &str, doc: &str) -> (r: Option<usize>)
        ensures
            match r {
                Some(i) => i < self.occs@.len() && occ_matches(self.occs@[i as int], word@, doc@),
                None => forall|i: int|
                    0 <= i < self.occs@.len() ==> !occ_matches(
                        #[trigger] self.occs@[i],
                        word@,
                        doc@,
                    ),
            },
    {
        let mut i: usize = 0;
        while i < self.occs.len()
            invariant
                i <= self.occs@.len(),
                forall|k: int| 0 <= k < i ==> !occ_matches(#[trigger] self.occs@[k], word@, doc@),
            decreases self.occs@.len() - i,
        {
            if str_eq(self.occs[i].word.as_str(), word) && str_eq(
                self.occs[i].document.as_str(),
                doc,
            ) {
                return Some(i);
            }
            i = i + 1;
        }
        None
    }

    /// The occurrence count recorded for `word` in `doc`, if a record
    /// exists.
    pub fn get_occurrence(&self, word: &str, doc: &str) -> (r: Option<u64>)
        requires
            self.wf(),
        ensures
            match r {
                Some(c) => occ_count(self.occs@, word@, doc@) == c && c >= 1,
                None => occ_count(self.occs@, word@, doc@) == 0,
            },
    {
        match self.find_occ_index(word, doc) {
            Some(i) => {
                proof {
                    lemma_occ_at(self.occs@, i as int);
                }
                Some(self.occs[i].occurrences)
            },
            None => {
                proof {
                    lemma_occ_absent(self.occs@, word@, doc@);
                }
                None
            },
        }
    }

    /// Insert the keyword `word` for the document `doc`, crediting
    /// `weight` (one when unspecified). A record already present has the
    /// weight added to its count; a fresh pair gets a new record with the
    /// weight as its count. The document must already be indexed.
    pub fn insert_word(&mut self, word: &str, doc: &str, weight: Option<u32>) -> (r: Result<
        (),
        IndexError,
    >)
        requires
            old(self).wf(),
            weight matches Some(w0) ==> w0 >= 1,
        ensures
            final(self).wf(),
            final(self).docs@ == old(self).docs@,
            match r {
                Ok(()) => has_doc(old(self).docs@, doc@) && forall|w: Seq<char>, d: Seq<char>|
                    #[trigger] occ_count(final(self).occs@, w, d) == (if w == word@ && d == doc@ {
                        bump(occ_count(old(self).occs@, w, d), weight_value(weight) as u64)
                    } else {
                        occ_count(old(self).occs@, w, d)
                    }),
                Err(IndexError::DocumentMissing) => !has_doc(old(self).docs@, doc@)
                    && final(self).occs@ == old(self).occs@,
                Err(IndexError::DocumentExists) => false,
            },
    {
        if !self.document_exists(doc) {
            return Err(IndexError::DocumentMissing);
        }
        let w_val: u32 = match weight {
            Some(w) => w,
            None => 1,
        };
        let ghost old_occs = self.occs@;
        match self.find_occ_index(word, doc) {
            Some(i) => {
                let new_count = self.occs[i].occurrences.saturating_add(w_val as u64);
                let replacement = Keyword {
                    word: self.occs[i].word.clone(),
                    document: self.occs[i].document.clone(),
                    occurrences: new_count,
                };
                proof {
                    lemma_occ_at(old_occs, i as int);
                }
                self.occs.set(i, replacement);
                proof {
                    assert forall|w: Seq<char>, d: Seq<char>|
                        #[trigger] occ_count(self.occs@, w, d) == (if w == word@ && d == doc@ {
                            bump(occ_count(old_occs, w, d), w_val as u64)
                        } else {
                            occ_count(old_occs, w, d)
                        }) by {
                        lemma_occ_update(
                            old_occs,
                            i as int,
                            Keyword {
                                word: old_occs[i as int].word,
                                document: old_occs[i as int].document,
                                occurrences: bump(old_occs[i as int].occurrences, w_val as u64),
                            },
                            w,
                            d,
                        );
                        assert(self.occs@ =~= old_occs.update(
                            i as int,
                            Keyword {
                                word: old_occs[i as int].word,
                                document: old_occs[i as int].document,
                                occurrences: bump(old_occs[i as int].occurrences, w_val as u64),
                            },
                        ));
                    }
                    assert(self.wf());
                }
                Ok(())
            },
            None => {
                proof {
                    lemma_occ_absent(old_occs, word@, doc@);
                }
                let record = Keyword {
                    word: word.to_owned(),
                    document: doc.to_owned(),
                    occurrences: w_val as u64,
                };
                let ghost krec = record;
                self.occs.push(record);
                proof {
                    assert forall|w: Seq<char>, d: Seq<char>|
                        #[trigger] occ_count(self.occs@, w, d) == (if w == word@ && d == doc@ {
                            bump(occ_count(old_occs, w, d), w_val as u64)
                        } else {
                            occ_count(old_occs, w, d)
                        }) by {
                        lemma_occ_push(old_occs, krec, w, d);
                    }
                    assert(self.wf());
                }
                Ok(())
            },
        }
    }

    /// Delete the document `document` from the index, cascading to every
    /// keyword occurrence record it owns. Deleting an identifier that is
    /// not indexed is a no-op, not an error.
    pub fn delete_document(&mut self, document: &str) -> (r: Result<(), IndexError>)
        requires
            old(self).wf(),
        ensures
            final(self).wf(),
            r is Ok,
            forall|n: Seq<char>|
                #[trigger] doc_lookup(final(self).docs@, n) == (if n == document@ {
                    None
                } else {
                    doc_lookup(old(self).docs@, n)
                }),
            forall|w: Seq<char>, d: Seq<char>|
                #[trigger] occ_count(final(self).occs@, w, d) == (if d == document@ {
                    0
                } else {
                    occ_count(old(self).occs@, w, d)
                }),
    {
        let ghost odocs = self.docs@;
        let ghost ooccs = self.occs@;
        let mut docs2: Vec<Document> = Vec::new();
        let mut i: usize = 0;
        while i < self.docs.len()
            invariant
                odocs == self.docs@,
                old(self).wf(),
                ooccs == self.occs@,
                i <= odocs.len(),
                forall|j: int|
                    0 <= j < docs2@.len() ==> exists|k: int|
                        0 <= k < i && #[trigger] docs2@[j] == odocs[k] && docs2@[j].name@
                            != document@,
                forall|j1: int, j2: int|
                    0 <= j1 < j2 < docs2@.len() ==> (#[trigger] docs2@[j1]).name@ != (
                    #[trigger] docs2@[j2]).name@,
                forall|n: Seq<char>|
                    #[trigger] doc_lookup(docs2@, n) == (if n == document@ {
                        None::<Document>
                    } else {
                        doc_lookup(odocs.take(i as int), n)
                    }),
            decreases odocs.len() - i,
        {
            let ghost pre = docs2@;
            proof {
                assert(odocs.take(i + 1) =~= odocs.take(i as int).push(odocs[i as int]));
            }
            if !str_eq(self.docs[i].name.as_str(), document) {
                docs2.push(self.docs[i].clone());
                proof {
                    assert(docs2@ == pre.push(odocs[i as int]));
                    assert forall|j: int| 0 <= j < pre.len() implies (#[trigger] pre[j]).name@
                        != odocs[i as int].name@ by {
                        let k = choose|k: int|
                            0 <= k < i && #[trigger] pre[j] == odocs[k] && pre[j].name@
                                != document@;
                        assert(odocs[k].name@ != odocs[i as int].name@);
                    }
                    assert forall|n: Seq<char>|
                        #[trigger] doc_lookup(docs2@, n) == (if n == document@ {
                            None::<Document>
                        } else {
                            doc_lookup(odocs.take(i + 1), n)
                        }) by {
                        lemma_doc_lookup_push(pre, odocs[i as int], n);
                        lemma_doc_lookup_push(odocs.take(i as int), odocs[i as int], n);
                    }
                }
            } else {
                proof {
                    assert forall|n: Seq<char>|
                        #[trigger] doc_lookup(docs2@, n) == (if n == document@ {
                            None::<Document>
                        } else {
                            doc_lookup(odocs.take(i + 1), n)
                        }) by {
                        lemma_doc_lookup_push(odocs.take(i as int), odocs[i as int], n);
                    }
                }
            }
            i = i + 1;
        }
        proof {
            assert(odocs.take(odocs.len() as int) =~= odocs);
        }
        let mut occs2: Vec<Keyword> = Vec::new();
        let mut i: usize = 0;
        while i < self.occs.len()
            invariant
                odocs == self.docs@,
                ooccs == self.occs@,
                old(self).wf(),
                i <= ooccs.len(),
                forall|j: int|
                    0 <= j < occs2@.len() ==> exists|k: int|
                        0 <= k < i && #[trigger] occs2@[j] == ooccs[k] && occs2@[j].document@
                            != document@,
                forall|j1: int, j2: int|
                    0 <= j1 < j2 < occs2@.len() ==> !occ_matches(
                        #[trigger] occs2@[j1],
                        (#[trigger] occs2@[j2]).word@,
                        occs2@[j2].document@,
                    ),
                forall|w: Seq<char>, d: Seq<char>|
                    #[trigger] occ_count(occs2@, w, d) == (if d == document@ {
                        0
                    } else {
                        occ_count(ooccs.take(i as int), w, d)
                    }),
            decreases ooccs.len() - i,
        {
            let ghost pre = occs2@;
            let ghost cur = ooccs[i as int];
            proof {
                assert(ooccs.take(i + 1) =~= ooccs.take(i as int).push(cur));
                assert forall|k: int| 0 <= k < i implies !occ_matches(
                    #[trigger] ooccs.take(i as int)[k],
                    cur.word@,
                    cur.document@,
                ) by {
                    assert(ooccs.take(i as int)[k] == ooccs[k]);
                }
                assert forall|j: int| 0 <= j < pre.len() implies !occ_matches(
                    #[trigger] pre[j],
                    cur.word@,
                    cur.document@,
                ) by {
                    let k = choose|k: int|
                        0 <= k < i && #[trigger] pre[j] == ooccs[k] && pre[j].document@
                            != document@;
                }
            }
            if !str_eq(self.occs[i].document.as_str(), document) {
                occs2.push(self.occs[i].clone());
                proof {
                    assert(occs2@ == pre.push(cur));
                    assert forall|w: Seq<char>, d: Seq<char>|
                        #[trigger] occ_count(occs2@, w, d) == (if d == document@ {
                            0
                        } else {
                            occ_count(ooccs.take(i + 1), w, d)
                        }) by {
                        lemma_occ_push(pre, cur, w, d);
                        lemma_occ_push(ooccs.take(i as int), cur, w, d);
                    }
                }
            } else {
                proof {
                    assert forall|w: Seq<char>, d: Seq<char>|
                        #[trigger] occ_count(occs2@, w, d) == (if d == document@ {
                            0
                        } else {
                            occ_count(ooccs.take(i + 1), w, d)
                        }) by {
                        lemma_occ_push(ooccs.take(i as int), cur, w, d);
                    }
                }
            }
            i = i + 1;
        }
        proof {
            assert(ooccs.take(ooccs.len() as int) =~= ooccs);
        }
        self.docs = docs2;
        self.occs = occs2;
        proof {
            assert forall|i1: int| 0 <= i1 < self.occs@.len() implies has_doc(
                self.docs@,
                (#[trigger] self.occs@[i1]).document@,
            ) && self.occs@[i1].occurrences >= 1 by {
                let k1 = choose|k: int|
                    0 <= k < ooccs.len() && #[trigger] self.occs@[i1] == ooccs[k]
                        && self.occs@[i1].document@ != document@;
                assert(has_doc(odocs, ooccs[k1].document@) && ooccs[k1].occurrences >= 1);
            }
        }
        Ok(())
    }

    /// All documents `word` occurs in, each with its recorded count.
    pub fn find_occurrences(&self, word: &str) -> (r: Vec<(String, u64)>)
        requires
            self.wf(),
        ensures
            forall|j: int|
                0 <= j < r@.len() ==> occ_count(self.occs@, word@, (#[trigger] r@[j]).0@)
                    == r@[j].1 && r@[j].1 >= 1,
            forall|j1: int, j2: int|
                0 <= j1 < j2 < r@.len() ==> (#[trigger] r@[j1]).0@ != (#[trigger] r@[j2]).0@,
            forall|d: Seq<char>|
                #[trigger] occ_count(self.occs@, word@, d) > 0 ==> exists|j: int|
                    0 <= j < r@.len() && (#[trigger] r@[j]).0@ == d,
    {
        let mut r: Vec<(String, u64)> = Vec::new();
        let mut i: usize = 0;
        while i < self.occs.len()
            invariant
                self.wf(),
                i <= self.occs@.len(),
                forall|j: int|
                    0 <= j < r@.len() ==> exists|k: int|
                        0 <= k < i && occ_matches(
                            #[trigger] self.occs@[k],
                            word@,
                            (#[trigger] r@[j]).0@,
                        ) && r@[j].1 == self.occs@[k].occurrences,
                forall|j1: int, j2: int|
                    0 <= j1 < j2 < r@.len() ==> (#[trigger] r@[j1]).0@ != (#[trigger] r@[j2]).0@,
                forall|k: int, d: Seq<char>|
                    0 <= k < i && #[trigger] occ_matches(self.occs@[k], word@, d) ==> exists|j: int|
                        0 <= j < r@.len() && (#[trigger] r@[j]).0@ == d,
            decreases self.occs@.len() - i,
        {
            let ghost pre = r@;
            if str_eq(self.occs[i].word.as_str(), word) {
                proof {
                    assert forall|j: int| 0 <= j < pre.len() implies (#[trigger] pre[j]).0@ != self
                        .occs@[i as int].document@ by {
                        let k = choose|k: int|
                            0 <= k < i && occ_matches(#[trigger] self.occs@[k], word@, pre[j].0@)
                                && pre[j].1 == self.occs@[k].occurrences;
                        if pre[j].0@ == self.occs@[i as int].document@ {
                            assert(!occ_matches(
                                self.occs@[k],
                                self.occs@[i as int].word@,
                                self.occs@[i as int].document@,
                            ));
                        }
                    }
                }
                r.push((self.occs[i].document.clone(), self.occs[i].occurrences));
                proof {
                    assert(r@ == pre.push(
                        (self.occs@[i as int].document, self.occs@[i as int].occurrences),
                    ));
                    assert forall|k: int, d: Seq<char>|
                        0 <= k < i + 1 && #[trigger] occ_matches(self.occs@[k], word@, d) implies
                        exists|j: int| 0 <= j < r@.len() && (#[trigger] r@[j]).0@ == d by {
                        if k < i {
                            let j0 = choose|j: int| 0 <= j < pre.len() && (#[trigger] pre[j]).0@
                                == d;
                            assert(r@[j0].0@ == d);
                        } else {
                            assert(r@[pre.len() as int].0@ == d);
                        }
                    }
                }
            } else {
                proof {
                    assert forall|k: int, d: Seq<char>|
                        0 <= k < i + 1 && #[trigger] occ_matches(self.occs@[k], word@, d) implies
                        exists|j: int| 0 <= j < r@.len() && (#[trigger] r@[j]).0@ == d by {
                        assert(k < i);
                    }
                }
            }
            i = i + 1;
        }
        proof {
            assert forall|j: int| 0 <= j < r@.len() implies occ_count(
                self.occs@,
                word@,
                (#[trigger] r@[j]).0@,
            ) == r@[j].1 && r@[j].1 >= 1 by {
                let k = choose|k: int|
                    0 <= k < self.occs@.len() && occ_matches(
                        #[trigger] self.occs@[k],
                        word@,
                        r@[j].0@,
                    ) && r@[j].1 == self.occs@[k].occurrences;
                lemma_occ_at(self.occs@, k);
            }
            assert forall|d: Seq<char>| #[trigger] occ_count(self.occs@, word@, d) > 0 implies
                exists|j: int| 0 <= j < r@.len() && (#[trigger] r@[j]).0@ == d by {
                if forall|k: int|
                    0 <= k < self.occs@.len() ==> !occ_matches(#[trigger] self.occs@[k], word@, d) {
                    lemma_occ_absent(self.occs@, word@, d);
                } else {
                    let k = choose|k: int|
                        0 <= k < self.occs@.len() && occ_matches(
                            #[trigger] self.occs@[k],
                            word@,
                            d,
                        );
                }
            }
        }
        r
    }
}

/// Inserting an element between the entries it belongs among keeps a
/// list sorted.
proof fn lemma_insert_sorted<T>(pre: Seq<T>, e: T, p: int, leq: spec_fn(T, T) -> bool)
    requires
        0 <= p <= pre.len(),
        forall|j1: int, j2: int| 0 <= j1 < j2 < pre.len() ==> #[trigger] leq(pre[j1], pre[j2]),
        forall|q: int| 0 <= q < p ==> #[trigger] leq(pre[q], e),
        forall|q: int| p <= q < pre.len() ==> #[trigger] leq(e, pre[q]),
    ensures
        forall|j1: int, j2: int|
            0 <= j1 < j2 < pre.insert(p, e).len() ==> #[trigger] leq(
                pre.insert(p, e)[j1],
                pre.insert(p, e)[j2],
            ),
{
    pre.insert_ensures(p, e);
    let post = pre.insert(p, e);
    assert forall|j1: int, j2: int| 0 <= j1 < j2 < post.len() implies #[trigger] leq(
        post[j1],
        post[j2],
    ) by {
        if j2 < p {
            assert(post[j1] == pre[j1] && post[j2] == pre[j2]);
        } else if j1 < p && j2 == p {
            assert(post[j1] == pre[j1] && post[j2] == e);
        } else if j1 < p && j2 > p {
            assert(post[j1] == pre[j1] && post[j2] == pre[j2 - 1]);
        } else if j1 == p {
            assert(post[j1] == e && post[j2] == pre[j2 - 1]);
        } else {
            assert(post[j1] == pre[j1 - 1] && post[j2] == pre[j2 - 1]);
        }
    }
}

/// What a list holds after an insertion: the inserted element and what it
/// held before.
proof fn lemma_insert_contains<T>(pre: Seq<T>, e: T, p: int)
    requires
        0 <= p <= pre.len(),
    ensures
        forall|x: T| #[trigger] pre.insert(p, e).contains(x) <==> (pre.contains(x) || x == e),
{
    pre.insert_ensures(p, e);
    let post = pre.insert(p, e);
    assert forall|x: T| #[trigger] post.contains(x) implies (pre.contains(x) || x == e) by {
        let j = choose|j: int| 0 <= j < post.len() && post[j] == x;
        if j < p {
            assert(pre[j] == x);
        } else if j > p {
            assert(pre[j - 1] == x);
        }
    }
    assert forall|x: T| (pre.contains(x) || x == e) implies #[trigger] post.contains(x) by {
        if pre.contains(x) {
            let j = choose|j: int| 0 <= j < pre.len() && pre[j] == x;
            if j < p {
                assert(post[j] == x);
            } else {
                assert(post[j + 1] == x);
            }
        } else {
            assert(post[p] == x);
        }
    }
}

/// What one more element adds to a growing prefix.
proof fn lemma_take_step<T>(s: Seq<T>, i: int)
    requires
        0 <= i < s.len(),
    ensures
        forall|x: T| #[trigger] s.take(i + 1).contains(x) <==> (s.take(i).contains(x) || x == s[i]),
{
    let t = s.take(i + 1);
    let u = s.take(i);
    assert forall|x: T| #[trigger] t.contains(x) implies (u.contains(x) || x == s[i]) by {
        let j = choose|j: int| 0 <= j < t.len() && #[trigger] t[j] == x;
        if j < i {
            assert(u[j] == x);
        }
    }
    assert forall|x: T| (u.contains(x) || x == s[i]) implies #[trigger] t.contains(x) by {
        if u.contains(x) {
            let j = choose|j: int| 0 <= j < u.len() && #[trigger] u[j] == x;
            assert(t[j] == x);
        } else {
            assert(t[i] == x);
        }
    }
}

/// When the source elements carry pairwise distinct keys, so does a list
/// of elements drawn from a source prefix after inserting the next one.
proof fn lemma_insert_distinct_keys<T>(
    pre: Seq<T>,
    e: T,
    p: int,
    src: Seq<T>,
    i: int,
    key: spec_fn(T) -> Seq<char>,
)
    requires
        0 <= p <= pre.len(),
        0 <= i < src.len(),
        e == src[i],
        forall|k1: int, k2: int|
            0 <= k1 < k2 < src.len() ==> #[trigger] key(src[k1]) != #[trigger] key(src[k2]),
        forall|j: int| 0 <= j < pre.len() ==> src.take(i).contains(#[trigger] pre[j]),
        forall|j1: int, j2: int|
            0 <= j1 < j2 < pre.len() ==> #[trigger] key(pre[j1]) != #[trigger] key(pre[j2]),
    ensures
        forall|j1: int, j2: int|
            0 <= j1 < j2 < pre.insert(p, e).len() ==> #[trigger] key(pre.insert(p, e)[j1])
                != #[trigger] key(pre.insert(p, e)[j2]),
{
    pre.insert_ensures(p, e);
    let post = pre.insert(p, e);
    assert forall|j: int| 0 <= j < pre.len() implies #[trigger] key(pre[j]) != key(e) by {
        let k = choose|k: int| 0 <= k < src.take(i).len() && src.take(i)[k] == pre[j];
        assert(src.take(i)[k] == src[k]);
        assert(key(src[k]) != key(src[i]));
    }
    assert forall|j1: int, j2: int| 0 <= j1 < j2 < post.len() implies #[trigger] key(post[j1])
        != #[trigger] key(post[j2]) by {
        if j2 < p {
            assert(post[j1] == pre[j1] && post[j2] == pre[j2]);
        } else if j1 < p && j2 == p {
            assert(post[j1] == pre[j1] && post[j2] == e);
        } else if j1 < p && j2 > p {
            assert(post[j1] == pre[j1] && post[j2] == pre[j2 - 1]);
        } else if j1 == p {
            assert(post[j1] == e && post[j2] == pre[j2 - 1]);
        } else {
            assert(post[j1] == pre[j1 - 1] && post[j2] == pre[j2 - 1]);
        }
    }
}

/// The order search results come in: more hits first; among equal hit
/// counts, documents in lexicographic order of their identifiers, so that
/// ranking is deterministic.
pub open spec fn rank_le(a: RankedDoc, b: RankedDoc) -> bool {
    a.hits > b.hits || (a.hits == b.hits && lex_le(a.doc@, b.doc@))
}

fn rank_le_exec(a: &RankedDoc, b: &RankedDoc) -> (r: bool)
    ensures
        r == rank_le(*a, *b),
{
    if a.hits > b.hits {
        true
    } else if a.hits == b.hits {
        crate::text::str_lex_le(a.doc.as_str(), b.doc.as_str())
    } else {
        false
    }
}

proof fn lemma_rank_le_total(a: RankedDoc, b: RankedDoc)
    ensures
        rank_le(a, b) || rank_le(b, a),
{
    crate::text::lemma_lex_le_total(a.doc@, b.doc@);
}

proof fn lemma_rank_le_trans(a: RankedDoc, b: RankedDoc, c: RankedDoc)
    requires
        rank_le(a, b),
        rank_le(b, c),
    ensures
        rank_le(a, c),
{
    if a.hits == b.hits && b.hits == c.hits {
        crate::text::lemma_lex_le_trans(a.doc@, b.doc@, c.doc@);
    }
}

/// Sort search results: descending by hits, ascending by document
/// identifier among equals. The result holds exactly the given records.
fn sort_ranked_docs(v: &Vec<RankedDoc>) -> (r: Vec<RankedDoc>)
    requires
        forall|k1: int, k2: int|
            0 <= k1 < k2 < v@.len() ==> (#[trigger] v@[k1]).doc@ != (#[trigger] v@[k2]).doc@,
    ensures
        forall|j1: int, j2: int|
            0 <= j1 < j2 < r@.len() ==> rank_le(#[trigger] r@[j1], #[trigger] r@[j2]),
        forall|j1: int, j2: int|
            0 <= j1 < j2 < r@.len() ==> (#[trigger] r@[j1]).doc@ != (#[trigger] r@[j2]).doc@,
        forall|k: int| 0 <= k < v@.len() ==> r@.contains(#[trigger] v@[k]),
        forall|j: int| 0 <= j < r@.len() ==> v@.contains(#[trigger] r@[j]),
        r@.len() == v@.len(),
{
    let ghost leq = |a: RankedDoc, b: RankedDoc| rank_le(a, b);
    let ghost key = |a: RankedDoc| a.doc@;
    let mut out: Vec<RankedDoc> = Vec::new();
    let mut i: usize = 0;
    while i < v.len()
        invariant
            i <= v@.len(),
            out@.len() == i,
            leq == (|a: RankedDoc, b: RankedDoc| rank_le(a, b)),
            key == (|a: RankedDoc| a.doc@),
            forall|k1: int, k2: int|
                0 <= k1 < k2 < v@.len() ==> (#[trigger] v@[k1]).doc@ != (#[trigger] v@[k2]).doc@,
            forall|j1: int, j2: int|
                0 <= j1 < j2 < out@.len() ==> #[trigger] leq(out@[j1], out@[j2]),
            forall|k: int| 0 <= k < i ==> out@.contains(#[trigger] v@[k]),
            forall|j: int| 0 <= j < out@.len() ==> v@.take(i as int).contains(#[trigger] out@[j]),
            forall|j1: int, j2: int|
                0 <= j1 < j2 < out@.len() ==> #[trigger] key(out@[j1]) != #[trigger] key(out@[j2]),
        decreases v@.len() - i,
    {
        let e = v[i].clone();
        let mut p: usize = 0;
        while p < out.len() && rank_le_exec(&out[p], &e)
            invariant
                p <= out@.len(),
                e == v@[i as int],
                forall|q: int| 0 <= q < p ==> rank_le(#[trigger] out@[q], e),
            decreases out@.len() - p,
        {
            p = p + 1;
        }
        let ghost pre = out@;
        proof {
            if p < pre.len() {
                lemma_rank_le_total(pre[p as int], e);
            }
            assert forall|q: int| p <= q < pre.len() implies rank_le(e, #[trigger] pre[q]) by {
                if p < q {
                    assert(leq(pre[p as int], pre[q]));
                    lemma_rank_le_trans(e, pre[p as int], pre[q]);
                }
            }
            assert forall|q: int| 0 <= q < p implies #[trigger] leq(pre[q], e) by {}
            assert forall|q: int| p <= q < pre.len() implies #[trigger] leq(e, pre[q]) by {}
        }
        out.insert(p, e);
        proof {
            assert(out@ == pre.insert(p as int, v@[i as int]));
            lemma_insert_sorted(pre, v@[i as int], p as int, leq);
            lemma_insert_contains(pre, v@[i as int], p as int);
            lemma_take_step(v@, i as int);
            assert forall|k1: int, k2: int| 0 <= k1 < k2 < v@.len() implies #[trigger] key(v@[k1])
                != #[trigger] key(v@[k2]) by {}
            lemma_insert_distinct_keys(pre, v@[i as int], p as int, v@, i as int, key);
        }
        i = i + 1;
    }
    proof {
        assert(v@.take(v@.len() as int) =~= v@);
        assert forall|j1: int, j2: int| 0 <= j1 < j2 < out@.len() implies rank_le(
            #[trigger] out@[j1],
            #[trigger] out@[j2],
        ) by {
            assert(leq(out@[j1], out@[j2]));
        }
        assert forall|j1: int, j2: int| 0 <= j1 < j2 < out@.len() implies (
        #[trigger] out@[j1]).doc@ != (#[trigger] out@[j2]).doc@ by {
            assert(key(out@[j1]) != key(out@[j2]));
        }
    }
    out
}

/// The order a document\'s keyword list comes in: heavier keywords first;
/// among equal weights, keywords in lexicographic order.
pub open spec fn keyword_rank_le(a: RankedKeyword, b: RankedKeyword) -> bool {
    a.rank > b.rank || (a.rank == b.rank && lex_le(a.keyword@, b.keyword@))
}

fn keyword_rank_le_exec(a: &RankedKeyword, b: &RankedKeyword) -> (r: bool)
    ensures
        r == keyword_rank_le(*a, *b),
{
    if a.rank > b.rank {
        true
    } else if a.rank == b.rank {
        crate::text::str_lex_le(a.keyword.as_str(), b.keyword.as_str())
    } else {
        false
    }
}

proof fn lemma_keyword_rank_le_total(a: RankedKeyword, b: RankedKeyword)
    ensures
        keyword_rank_le(a, b) || keyword_rank_le(b, a),
{
    crate::text::lemma_lex_le_total(a.keyword@, b.keyword@);
}

proof fn lemma_keyword_rank_le_trans(a: RankedKeyword, b: RankedKeyword, c: RankedKeyword)
    requires
        keyword_rank_le(a, b),
        keyword_rank_le(b, c),
    ensures
        keyword_rank_le(a, c),
{
    if a.rank == b.rank && b.rank == c.rank {
        crate::text::lemma_lex_le_trans(a.keyword@, b.keyword@, c.keyword@);
    }
}

/// Sort a document\'s keywords: descending by rank, ascending by keyword
/// among equals. The result holds exactly the given records.
fn sort_ranked_keywords(v: &Vec<RankedKeyword>) -> (r: Vec<RankedKeyword>)
    requires
        forall|k1: int, k2: int|
            0 <= k1 < k2 < v@.len() ==> (#[trigger] v@[k1]).keyword@ != (
            #[trigger] v@[k2]).keyword@,
    ensures
        forall|j1: int, j2: int|
            0 <= j1 < j2 < r@.len() ==> keyword_rank_le(#[trigger] r@[j1], #[trigger] r@[j2]),
        forall|j1: int, j2: int|
            0 <= j1 < j2 < r@.len() ==> (#[trigger] r@[j1]).keyword@ != (
            #[trigger] r@[j2]).keyword@,
        forall|k: int| 0 <= k < v@.len() ==> r@.contains(#[trigger] v@[k]),
        forall|j: int| 0 <= j < r@.len() ==> v@.contains(#[trigger] r@[j]),
        r@.len() == v@.len(),
{
    let ghost leq = |a: RankedKeyword, b: RankedKeyword| keyword_rank_le(a, b);
    let ghost key = |a: RankedKeyword| a.keyword@;
    let mut out: Vec<RankedKeyword> = Vec::new();
    let mut i: usize = 0;
    while i < v.len()
        invariant
            i <= v@.len(),
            out@.len() == i,
            leq == (|a: RankedKeyword, b: RankedKeyword| keyword_rank_le(a, b)),
            key == (|a: RankedKeyword| a.keyword@),
            forall|k1: int, k2: int|
                0 <= k1 < k2 < v@.len() ==> (#[trigger] v@[k1]).keyword@ != (
                #[trigger] v@[k2]).keyword@,
            forall|j1: int, j2: int|
                0 <= j1 < j2 < out@.len() ==> #[trigger] leq(out@[j1], out@[j2]),
            forall|k: int| 0 <= k < i ==> out@.contains(#[trigger] v@[k]),
            forall|j: int| 0 <= j < out@.len() ==> v@.take(i as int).contains(#[trigger] out@[j]),
            forall|j1: int, j2: int|
                0 <= j1 < j2 < out@.len() ==> #[trigger] key(out@[j1]) != #[trigger] key(out@[j2]),
        decreases v@.len() - i,
    {
        let e = v[i].clone();
        let mut p: usize = 0;
        while p < out.len() && keyword_rank_le_exec(&out[p], &e)
            invariant
                p <= out@.len(),
                e == v@[i as int],
                forall|q: int| 0 <= q < p ==> keyword_rank_le(#[trigger] out@[q], e),
            decreases out@.len() - p,
        {
            p = p + 1;
        }
        let ghost pre = out@;
        proof {
            if p < pre.len() {
                lemma_keyword_rank_le_total(pre[p as int], e);
            }
            assert forall|q: int| p <= q < pre.len() implies keyword_rank_le(
                e,
                #[trigger] pre[q],
            ) by {
                if p < q {
                    assert(leq(pre[p as int], pre[q]));
                    lemma_keyword_rank_le_trans(e, pre[p as int], pre[q]);
                }
            }
            assert forall|q: int| 0 <= q < p implies #[trigger] leq(pre[q], e) by {}
            assert forall|q: int| p <= q < pre.len() implies #[trigger] leq(e, pre[q]) by {}
        }
        out.insert(p, e);
        proof {
            assert(out@ == pre.insert(p as int, v@[i as int]));
            lemma_insert_sorted(pre, v@[i as int], p as int, leq);
            lemma_insert_contains(pre, v@[i as int], p as int);
            lemma_take_step(v@, i as int);
            assert forall|k1: int, k2: int| 0 <= k1 < k2 < v@.len() implies #[trigger] key(v@[k1])
                != #[trigger] key(v@[k2]) by {}
            lemma_insert_distinct_keys(pre, v@[i as int], p as int, v@, i as int, key);
        }
        i = i + 1;
    }
    proof {
        assert(v@.take(v@.len() as int) =~= v@);
        assert forall|j1: int, j2: int| 0 <= j1 < j2 < out@.len() implies keyword_rank_le(
            #[trigger] out@[j1],
            #[trigger] out@[j2],
        ) by {
            assert(leq(out@[j1], out@[j2]));
        }
        assert forall|j1: int, j2: int| 0 <= j1 < j2 < out@.len() implies (
        #[trigger] out@[j1]).keyword@ != (#[trigger] out@[j2]).keyword@ by {
            assert(key(out@[j1]) != key(out@[j2]));
        }
    }
    out
}

/// The total hits a document scores against a list of query terms: the
/// saturating sum, term by term, of the document's occurrence count for
/// each term. A term given twice counts twice.
pub open spec fn total_hits(occs: Seq<Keyword>, terms: Seq<Seq<char>>, d: Seq<char>) -> u64
    decreases terms.len(),
{
    if terms.len() == 0 {
        0
    } else {
        bump(total_hits(occs, terms.drop_last(), d), occ_count(occs, terms.last(), d))
    }
}

/// Whether one of the first `j` listed occurrence pairs names document
/// `d`.
spec fn listed_before(m: Seq<(String, u64)>, j: int, d: Seq<char>) -> bool {
    exists|q: int| 0 <= q < j && (#[trigger] m[q]).0@ == d
}

/// The count a word accumulates over a stream of insertions with a fixed
/// weight: one bump per occurrence of the word in the stream.
pub open spec fn insert_fold(start: u64, words: Seq<Seq<char>>, w: Seq<char>, weight: u64) -> u64
    decreases words.len(),
{
    if words.len() == 0 {
        start
    } else {
        let prev = insert_fold(start, words.drop_last(), w, weight);
        if words.last() == w {
            bump(prev, weight)
        } else {
            prev
        }
    }
}

/// What a freshly ingested document records for a word: weight two per
/// occurrence among the document's declared keywords, then weight one per
/// occurrence in its body stream.
pub open spec fn weighted_count(w: Seq<char>, signal: Seq<Seq<char>>, body: Seq<Seq<char>>) -> u64 {
    insert_fold(insert_fold(0, signal, w, 2), body, w, 1)
}

/// What a ranked search result is: every listed document scores its
/// total hits over the terms and matches at least one of them, carries
/// its stored title and description, appears once, and the list is sorted
/// with more hits first and ties in identifier order; every document with
/// a positive total is listed.
pub open spec fn is_ranked_result(
    index: KeywordIndex,
    terms: Seq<Seq<char>>,
    rs: Seq<RankedDoc>,
) -> bool {
    &&& forall|j: int|
        0 <= j < rs.len() ==> {
            let e = #[trigger] rs[j];
            &&& e.hits == total_hits(index.occs@, terms, e.doc@)
            &&& e.hits >= 1
            &&& match doc_lookup(index.docs@, e.doc@) {
                Some(doc) => e.title@ == doc.title@ && e.description@ == doc.description@,
                None => false,
            }
        }
    &&& forall|j1: int, j2: int|
        0 <= j1 < j2 < rs.len() ==> rank_le(#[trigger] rs[j1], #[trigger] rs[j2])
    &&& forall|j1: int, j2: int|
        0 <= j1 < j2 < rs.len() ==> (#[trigger] rs[j1]).doc@ != (#[trigger] rs[j2]).doc@
    &&& forall|d: Seq<char>|
        #[trigger] total_hits(index.occs@, terms, d) >= 1 ==> exists|j: int|
            0 <= j < rs.len() && (#[trigger] rs[j]).doc@ == d
}

impl KeywordIndex {
    /// The position of the entry ranking `doc`, if the accumulator holds
    /// one.
    fn find_acc_entry(acc: &Vec<RankedDoc>, doc: &str) -> (r: Option<usize>)
        ensures
            match r {
                Some(k) => k < acc@.len() && acc@[k as int].doc@ == doc@,
                None => forall|k: int| 0 <= k < acc@.len() ==> (#[trigger] acc@[k]).doc@ != doc@,
            },
    {
        let mut k: usize = 0;
        while k < acc.len()
            invariant
                k <= acc@.len(),
                forall|q: int| 0 <= q < k ==> (#[trigger] acc@[q]).doc@ != doc@,
            decreases acc@.len() - k,
        {
            if str_eq(acc[k].doc.as_str(), doc) {
                return Some(k);
            }
            k = k + 1;
        }
        None
    }

    /// Search the index: every document matching at least one of the
    /// query terms, credited with the sum of its occurrence counts over
    /// the terms, in descending order of that total (documents with equal
    /// totals come in lexicographic order of their identifiers). An empty
    /// term list yields an empty result without consulting any record.
    #[verifier::rlimit(30)]
    pub fn keywords_search(&self, words: &[String]) -> (r: Vec<RankedDoc>)
        requires
            self.wf(),
        ensures
            forall|j: int|
                0 <= j < r@.len() ==> {
                    let e = #[trigger] r@[j];
                    &&& e.hits == total_hits(self.occs@, words.deep_view(), e.doc@)
                    &&& e.hits >= 1
                    &&& match doc_lookup(self.docs@, e.doc@) {
                        Some(doc) => e.title@ == doc.title@ && e.description@ == doc.description@,
                        None => false,
                    }
                },
            forall|j1: int, j2: int|
                0 <= j1 < j2 < r@.len() ==> rank_le(#[trigger] r@[j1], #[trigger] r@[j2]),
            forall|j1: int, j2: int|
                0 <= j1 < j2 < r@.len() ==> (#[trigger] r@[j1]).doc@ != (#[trigger] r@[j2]).doc@,
            forall|d: Seq<char>|
                #[trigger] total_hits(self.occs@, words.deep_view(), d) >= 1 ==> exists|j: int|
                    0 <= j < r@.len() && (#[trigger] r@[j]).doc@ == d,
            is_ranked_result(*self, words.deep_view(), r@),
            words.deep_view().len() == 0 ==> r@.len() == 0,
    {
        let ghost tv = words.deep_view();
        let mut acc: Vec<RankedDoc> = Vec::new();
        let mut i: usize = 0;
        while i < words.len()
            invariant
                self.wf(),
                tv == words.deep_view(),
                i <= tv.len(),
                forall|k: int|
                    0 <= k < acc@.len() ==> {
                        let e = #[trigger] acc@[k];
                        &&& e.hits == total_hits(self.occs@, tv.take(i as int), e.doc@)
                        &&& e.hits >= 1
                        &&& match doc_lookup(self.docs@, e.doc@) {
                            Some(doc) => e.title@ == doc.title@ && e.description@
                                == doc.description@,
                            None => false,
                        }
                    },
                forall|k1: int, k2: int|
                    0 <= k1 < k2 < acc@.len() ==> (#[trigger] acc@[k1]).doc@ != (
                    #[trigger] acc@[k2]).doc@,
                forall|d: Seq<char>|
                    #[trigger] total_hits(self.occs@, tv.take(i as int), d) >= 1 ==> exists|k: int|
                        0 <= k < acc@.len() && (#[trigger] acc@[k]).doc@ == d,
                tv.len() == 0 ==> acc@.len() == 0,
            decreases tv.len() - i,
        {
            let m = self.find_occurrences(&words[i]);
            let ghost wv = words@[i as int]@;
            proof {
                assert(tv[i as int] == wv);
            }
            let mut j: usize = 0;
            while j < m.len()
                invariant
                    self.wf(),
                    tv == words.deep_view(),
                    i < tv.len(),
                    wv == tv[i as int],
                    j <= m@.len(),
                    forall|q: int|
                        0 <= q < m@.len() ==> occ_count(self.occs@, wv, (#[trigger] m@[q]).0@)
                            == m@[q].1 && m@[q].1 >= 1,
                    forall|q1: int, q2: int|
                        0 <= q1 < q2 < m@.len() ==> (#[trigger] m@[q1]).0@ != (
                        #[trigger] m@[q2]).0@,
                    forall|d: Seq<char>|
                        #[trigger] occ_count(self.occs@, wv, d) >= 1 ==> exists|q: int|
                            0 <= q < m@.len() && (#[trigger] m@[q]).0@ == d,
                    forall|k: int|
                        0 <= k < acc@.len() ==> {
                            let e = #[trigger] acc@[k];
                            &&& e.hits == (if listed_before(m@, j as int, e.doc@) {
                                bump(
                                    total_hits(self.occs@, tv.take(i as int), e.doc@),
                                    occ_count(self.occs@, wv, e.doc@),
                                )
                            } else {
                                total_hits(self.occs@, tv.take(i as int), e.doc@)
                            })
                            &&& e.hits >= 1
                            &&& match doc_lookup(self.docs@, e.doc@) {
                                Some(doc) => e.title@ == doc.title@ && e.description@
                                    == doc.description@,
                                None => false,
                            }
                        },
                    forall|k1: int, k2: int|
                        0 <= k1 < k2 < acc@.len() ==> (#[trigger] acc@[k1]).doc@ != (
                        #[trigger] acc@[k2]).doc@,
                    forall|d: Seq<char>|
                        #[trigger] total_hits(self.occs@, tv.take(i as int), d) >= 1
                            || listed_before(m@, j as int, d) ==> exists|k: int|
                            0 <= k < acc@.len() && (#[trigger] acc@[k]).doc@ == d,
                decreases m@.len() - j,
            {
                let ghost pre = acc@;
                let cnt = m[j].1;
                let ghost dv = m@[j as int].0@;
                proof {
                    assert(occ_count(self.occs@, wv, dv) == cnt && cnt >= 1);
                    assert forall|q: int| 0 <= q < j implies (#[trigger] m@[q]).0@ != dv by {}
                    assert(!listed_before(m@, j as int, dv));
                }
                match Self::find_acc_entry(&acc, m[j].0.as_str()) {
                    Some(k) => {
                        let updated = RankedDoc {
                            doc: acc[k].doc.clone(),
                            title: acc[k].title.clone(),
                            description: acc[k].description.clone(),
                            hits: acc[k].hits.saturating_add(cnt),
                        };
                        acc.set(k, updated);
                        proof {
                            assert(acc@ == pre.update(
                                k as int,
                                RankedDoc {
                                    doc: pre[k as int].doc,
                                    title: pre[k as int].title,
                                    description: pre[k as int].description,
                                    hits: bump(pre[k as int].hits, cnt),
                                },
                            ));
                            assert forall|d: Seq<char>| #[trigger] listed_before(m@, j + 1, d)
                                implies listed_before(m@, j as int, d) || d == dv by {
                                let q0 = choose|q: int| 0 <= q < j + 1 && (#[trigger] m@[q]).0@
                                    == d;
                                if q0 < j {
                                    assert(listed_before(m@, j as int, d));
                                }
                            }
                            assert(listed_before(m@, j + 1, dv));
                            assert forall|q: int| 0 <= q < acc@.len() implies (
                            #[trigger] acc@[q]).doc@ == pre[q].doc@ by {}
                            assert forall|d: Seq<char>|
                                total_hits(self.occs@, tv.take(i as int), d) >= 1
                                    || listed_before(m@, j + 1, d) implies exists|k2: int|
                                0 <= k2 < acc@.len() && (#[trigger] acc@[k2]).doc@ == d by {
                                if listed_before(m@, j + 1, d) && !listed_before(
                                    m@,
                                    j as int,
                                    d,
                                ) {
                                    assert(acc@[k as int].doc@ == dv);
                                } else {
                                    let k0 = choose|k2: int|
                                        0 <= k2 < pre.len() && (#[trigger] pre[k2]).doc@ == d;
                                    assert(acc@[k0].doc@ == d);
                                }
                            }
                        }
                    },
                    None => {
                        proof {
                            if total_hits(self.occs@, tv.take(i as int), dv) >= 1 {
                                let k0 = choose|k: int|
                                    0 <= k < acc@.len() && (#[trigger] acc@[k]).doc@ == dv;
                            }
                            assert(total_hits(self.occs@, tv.take(i as int), dv) == 0);
                            if forall|q: int|
                                0 <= q < self.occs@.len() ==> !occ_matches(
                                    #[trigger] self.occs@[q],
                                    wv,
                                    dv,
                                ) {
                                lemma_occ_absent(self.occs@, wv, dv);
                            }
                            let q0 = choose|q: int|
                                0 <= q < self.occs@.len() && occ_matches(
                                    #[trigger] self.occs@[q],
                                    wv,
                                    dv,
                                );
                            assert(has_doc(self.docs@, dv));
                        }
                        match self.get_document(m[j].0.as_str()) {
                            Some(meta) => {
                                acc.push(
                                    RankedDoc {
                                        doc: m[j].0.clone(),
                                        title: meta.title,
                                        description: meta.description,
                                        hits: cnt,
                                    },
                                );
                                proof {
                                    lemma_doc_lookup_found(self.docs@, dv);
                                    assert(acc@ == pre.push(acc@[pre.len() as int]));
                                    assert(acc@[pre.len() as int].doc@ == dv);
                                    assert forall|d: Seq<char>|
                                        #[trigger] listed_before(m@, j + 1, d) implies
                                        listed_before(m@, j as int, d) || d == dv by {
                                        let q0 = choose|q: int|
                                            0 <= q < j + 1 && (#[trigger] m@[q]).0@ == d;
                                        if q0 < j {
                                            assert(listed_before(m@, j as int, d));
                                        }
                                    }
                                    assert(listed_before(m@, j + 1, dv));
                                    assert forall|d: Seq<char>|
                                        total_hits(self.occs@, tv.take(i as int), d) >= 1
                                            || listed_before(m@, j + 1, d) implies exists|k2: int|
                                        0 <= k2 < acc@.len() && (#[trigger] acc@[k2]).doc@
                                            == d by {
                                        if listed_before(m@, j + 1, d) && !listed_before(
                                            m@,
                                            j as int,
                                            d,
                                        ) {
                                            assert(acc@[pre.len() as int].doc@ == dv);
                                        } else {
                                            let k0 = choose|k2: int|
                                                0 <= k2 < pre.len() && (#[trigger] pre[k2]).doc@
                                                    == d;
                                            assert(acc@[k0].doc@ == d);
                                        }
                                    }
                                }
                            },
                            None => {
                                proof {
                                    assert(false);
                                }
                            },
                        }
                    },
                }
                j = j + 1;
            }
            proof {
                assert(tv.take(i + 1).drop_last() =~= tv.take(i as int));
                assert(tv.take(i + 1).last() == tv[i as int]);
                assert forall|d: Seq<char>| #[trigger] total_hits(self.occs@, tv.take(i + 1), d)
                    == bump(
                    total_hits(self.occs@, tv.take(i as int), d),
                    occ_count(self.occs@, wv, d),
                ) by {}
                assert forall|k: int| 0 <= k < acc@.len() implies {
                    let e = #[trigger] acc@[k];
                    e.hits == total_hits(self.occs@, tv.take(i + 1), e.doc@)
                } by {
                    let e = acc@[k];
                    if !listed_before(m@, m@.len() as int, e.doc@) {
                        if occ_count(self.occs@, wv, e.doc@) >= 1 {
                            let q0 = choose|q: int|
                                0 <= q < m@.len() && (#[trigger] m@[q]).0@ == e.doc@;
                        }
                        assert(occ_count(self.occs@, wv, e.doc@) == 0);
                    }
                }
                assert forall|d: Seq<char>|
                    #[trigger] total_hits(self.occs@, tv.take(i + 1), d) >= 1 implies exists|k: int|
                    0 <= k < acc@.len() && (#[trigger] acc@[k]).doc@ == d by {
                    if total_hits(self.occs@, tv.take(i as int), d) == 0 && occ_count(
                        self.occs@,
                        wv,
                        d,
                    ) >= 1 {
                        assert(listed_before(m@, m@.len() as int, d));
                    }
                }
            }
            i = i + 1;
        }
        proof {
            assert(tv.take(tv.len() as int) =~= tv);
        }
        let r = sort_ranked_docs(&acc);
        proof {
            assert forall|j: int| 0 <= j < r@.len() implies {
                let e = #[trigger] r@[j];
                &&& e.hits == total_hits(self.occs@, tv, e.doc@)
                &&& e.hits >= 1
                &&& match doc_lookup(self.docs@, e.doc@) {
                    Some(doc) => e.title@ == doc.title@ && e.description@ == doc.description@,
                    None => false,
                }
            } by {
                assert(acc@.contains(r@[j]));
                let k = choose|k: int| 0 <= k < acc@.len() && #[trigger] acc@[k] == r@[j];
            }
            assert forall|d: Seq<char>| #[trigger] total_hits(self.occs@, tv, d) >= 1 implies
                exists|j: int| 0 <= j < r@.len() && (#[trigger] r@[j]).doc@ == d by {
                let k = choose|k: int| 0 <= k < acc@.len() && (#[trigger] acc@[k]).doc@ == d;
                assert(r@.contains(acc@[k]));
                let j0 = choose|j: int| 0 <= j < r@.len() && #[trigger] r@[j] == acc@[k];
                assert(r@[j0].doc@ == d);
            }
        }
        r
    }

    /// List the keywords recorded for one document with their accumulated
    /// weights, heaviest first (keywords with equal weights come in
    /// lexicographic order).
    pub fn doc_list_keywords(&self, document: &str) -> (r: Vec<RankedKeyword>)
        requires
            self.wf(),
        ensures
            forall|j: int|
                0 <= j < r@.len() ==> occ_count(
                    self.occs@,
                    (#[trigger] r@[j]).keyword@,
                    document@,
                ) == r@[j].rank && r@[j].rank >= 1,
            forall|j1: int, j2: int|
                0 <= j1 < j2 < r@.len() ==> keyword_rank_le(#[trigger] r@[j1], #[trigger] r@[j2]),
            forall|j1: int, j2: int|
                0 <= j1 < j2 < r@.len() ==> (#[trigger] r@[j1]).keyword@ != (
                #[trigger] r@[j2]).keyword@,
            forall|w: Seq<char>|
                #[trigger] occ_count(self.occs@, w, document@) >= 1 ==> exists|j: int|
                    0 <= j < r@.len() && (#[trigger] r@[j]).keyword@ == w,
    {
        let mut acc: Vec<RankedKeyword> = Vec::new();
        let mut i: usize = 0;
        while i < self.occs.len()
            invariant
                self.wf(),
                i <= self.occs@.len(),
                forall|j: int|
                    0 <= j < acc@.len() ==> exists|k: int|
                        0 <= k < i && occ_matches(
                            #[trigger] self.occs@[k],
                            (#[trigger] acc@[j]).keyword@,
                            document@,
                        ) && acc@[j].rank == self.occs@[k].occurrences,
                forall|j1: int, j2: int|
                    0 <= j1 < j2 < acc@.len() ==> (#[trigger] acc@[j1]).keyword@ != (
                    #[trigger] acc@[j2]).keyword@,
                forall|k: int, w: Seq<char>|
                    0 <= k < i && #[trigger] occ_matches(self.occs@[k], w, document@) ==> exists|
                        j: int,
                    |
                        0 <= j < acc@.len() && (#[trigger] acc@[j]).keyword@ == w,
            decreases self.occs@.len() - i,
        {
            let ghost pre = acc@;
            if str_eq(self.occs[i].document.as_str(), document) {
                proof {
                    assert forall|j: int| 0 <= j < pre.len() implies (#[trigger] pre[j]).keyword@
                        != self.occs@[i as int].word@ by {
                        let k = choose|k: int|
                            0 <= k < i && occ_matches(
                                #[trigger] self.occs@[k],
                                pre[j].keyword@,
                                document@,
                            ) && pre[j].rank == self.occs@[k].occurrences;
                        if pre[j].keyword@ == self.occs@[i as int].word@ {
                            assert(!occ_matches(
                                self.occs@[k],
                                self.occs@[i as int].word@,
                                self.occs@[i as int].document@,
                            ));
                        }
                    }
                }
                acc.push(
                    RankedKeyword {
                        keyword: self.occs[i].word.clone(),
                        rank: self.occs[i].occurrences,
                    },
                );
                proof {
                    assert(acc@ == pre.push(
                        RankedKeyword {
                            keyword: self.occs@[i as int].word,
                            rank: self.occs@[i as int].occurrences,
                        },
                    ));
                    assert forall|k: int, w: Seq<char>|
                        0 <= k < i + 1 && #[trigger] occ_matches(self.occs@[k], w, document@)
                        implies exists|j: int|
                        0 <= j < acc@.len() && (#[trigger] acc@[j]).keyword@ == w by {
                        if k < i {
                            let j0 = choose|j: int|
                                0 <= j < pre.len() && (#[trigger] pre[j]).keyword@ == w;
                            assert(acc@[j0].keyword@ == w);
                        } else {
                            assert(acc@[pre.len() as int].keyword@ == w);
                        }
                    }
                }
            } else {
                proof {
                    assert forall|k: int, w: Seq<char>|
                        0 <= k < i + 1 && #[trigger] occ_matches(self.occs@[k], w, document@)
                        implies exists|j: int|
                        0 <= j < acc@.len() && (#[trigger] acc@[j]).keyword@ == w by {
                        assert(k < i);
                    }
                }
            }
            i = i + 1;
        }
        let r = sort_ranked_keywords(&acc);
        proof {
            assert forall|j: int| 0 <= j < acc@.len() implies occ_count(
                self.occs@,
                (#[trigger] acc@[j]).keyword@,
                document@,
            ) == acc@[j].rank && acc@[j].rank >= 1 by {
                let k = choose|k: int|
                    0 <= k < self.occs@.len() && occ_matches(
                        #[trigger] self.occs@[k],
                        acc@[j].keyword@,
                        document@,
                    ) && acc@[j].rank == self.occs@[k].occurrences;
                lemma_occ_at(self.occs@, k);
            }
            assert forall|j: int| 0 <= j < r@.len() implies occ_count(
                self.occs@,
                (#[trigger] r@[j]).keyword@,
                document@,
            ) == r@[j].rank && r@[j].rank >= 1 by {
                assert(acc@.contains(r@[j]));
                let k = choose|k: int| 0 <= k < acc@.len() && #[trigger] acc@[k] == r@[j];
            }
            assert forall|w: Seq<char>| #[trigger] occ_count(self.occs@, w, document@) >= 1 implies
                exists|j: int| 0 <= j < r@.len() && (#[trigger] r@[j]).keyword@ == w by {
                if forall|k: int|
                    0 <= k < self.occs@.len() ==> !occ_matches(
                        #[trigger] self.occs@[k],
                        w,
                        document@,
                    ) {
                    lemma_occ_absent(self.occs@, w, document@);
                }
                let k = choose|k: int|
                    0 <= k < self.occs@.len() && occ_matches(#[trigger] self.occs@[k], w, document@);
                let j0 = choose|j: int|
                    0 <= j < acc@.len() && (#[trigger] acc@[j]).keyword@ == w;
                assert(r@.contains(acc@[j0]));
                let j1 = choose|j: int| 0 <= j < r@.len() && #[trigger] r@[j] == acc@[j0];
                assert(r@[j1].keyword@ == w);
            }
        }
        r
    }

    /// Add a document to the index together with its keywords: the
    /// document record first, then its declared keywords with weight two
    /// and its body keywords with weight one. Refused, leaving the index
    /// unchanged, when the identifier is already in use.
    pub fn add_document(&mut self, document: &Document, content: &ParsedDocument) -> (r: Result<
        (),
        IndexError,
    >)
        requires
            old(self).wf(),
        ensures
            final(self).wf(),
            match r {
                Ok(()) => {
                    &&& !has_doc(old(self).docs@, document.name@)
                    &&& forall|n: Seq<char>|
                        #[trigger] doc_lookup(final(self).docs@, n) == (if n == document.name@ {
                            Some(*document)
                        } else {
                            doc_lookup(old(self).docs@, n)
                        })
                    &&& forall|w: Seq<char>, d: Seq<char>|
                        #[trigger] occ_count(final(self).occs@, w, d) == (if d == document.name@ {
                            weighted_count(
                                w,
                                content.keywords.deep_view(),
                                content.content.deep_view(),
                            )
                        } else {
                            occ_count(old(self).occs@, w, d)
                        })
                },
                Err(IndexError::DocumentExists) => has_doc(old(self).docs@, document.name@)
                    && final(self).docs@ == old(self).docs@ && final(self).occs@ == old(self).occs@,
                Err(IndexError::DocumentMissing) => false,
            },
    {
        let ghost name = document.name@;
        let ghost old_occs = self.occs@;
        match self.create_document(document) {
            Err(e) => {
                return Err(e);
            },
            Ok(()) => {},
        }
        proof {
            lemma_no_doc_no_occs(*old(self), name);
        }
        let ghost base_docs = self.docs@;
        let ghost kv = content.keywords.deep_view();
        let ghost cv = content.content.deep_view();
        let mut i: usize = 0;
        while i < content.keywords.len()
            invariant
                self.wf(),
                kv == content.keywords.deep_view(),
                cv == content.content.deep_view(),
                i <= kv.len(),
                name == document.name@,
                self.docs@ == base_docs,
                has_doc(self.docs@, name),
                forall|w: Seq<char>|
                    #[trigger] occ_count(self.occs@, w, name) == insert_fold(
                        0,
                        kv.take(i as int),
                        w,
                        2,
                    ),
                forall|w: Seq<char>, d: Seq<char>|
                    d != name ==> #[trigger] occ_count(self.occs@, w, d) == occ_count(old_occs, w, d),
            decreases kv.len() - i,
        {
            proof {
                assert(kv.take(i + 1).drop_last() =~= kv.take(i as int));
                assert(kv.take(i + 1).last() == kv[i as int]);
                assert(kv[i as int] == content.keywords@[i as int]@);
            }
            match self.insert_word(content.keywords[i].as_str(), document.name.as_str(), Some(2)) {
                Ok(()) => {},
                Err(_) => {
                    proof {
                        assert(false);
                    }
                    return Err(IndexError::DocumentMissing);
                },
            }
            i = i + 1;
        }
        proof {
            assert(kv.take(kv.len() as int) =~= kv);
        }
        let ghost sig_done = self.occs@;
        let mut i: usize = 0;
        while i < content.content.len()
            invariant
                self.wf(),
                kv == content.keywords.deep_view(),
                cv == content.content.deep_view(),
                i <= cv.len(),
                name == document.name@,
                self.docs@ == base_docs,
                has_doc(self.docs@, name),
                forall|w: Seq<char>|
                    #[trigger] occ_count(self.occs@, w, name) == insert_fold(
                        insert_fold(0, kv, w, 2),
                        cv.take(i as int),
                        w,
                        1,
                    ),
                forall|w: Seq<char>, d: Seq<char>|
                    d != name ==> #[trigger] occ_count(self.occs@, w, d) == occ_count(old_occs, w, d),
            decreases cv.len() - i,
        {
            proof {
                assert(cv.take(i + 1).drop_last() =~= cv.take(i as int));
                assert(cv.take(i + 1).last() == cv[i as int]);
                assert(cv[i as int] == content.content@[i as int]@);
            }
            match self.insert_word(content.content[i].as_str(), document.name.as_str(), None) {
                Ok(()) => {},
                Err(_) => {
                    proof {
                        assert(false);
                    }
                    return Err(IndexError::DocumentMissing);
                },
            }
            i = i + 1;
        }
        proof {
            assert(cv.take(cv.len() as int) =~= cv);
        }
        Ok(())
    }
}

/// Search additivity: over a two-term query, a document scores the
/// saturating sum of its occurrence counts for each term.
pub proof fn lemma_search_additivity(occs: Seq<Keyword>, a: Seq<char>, b: Seq<char>, d: Seq<char>)
    ensures
        total_hits(occs, seq![a, b], d) == bump(occ_count(occs, a, d), occ_count(occs, b, d)),
{
    assert(seq![a, b].drop_last() =~= seq![a]);
    assert(seq![a].drop_last() =~= Seq::<Seq<char>>::empty());
    assert(seq![a, b].last() == b);
    assert(seq![a].last() == a);
    assert(total_hits(occs, Seq::<Seq<char>>::empty(), d) == 0);
    assert(total_hits(occs, seq![a], d) == bump(0, occ_count(occs, a, d)));
    assert(bump(0, occ_count(occs, a, d)) == occ_count(occs, a, d));
    assert(total_hits(occs, seq![a, b], d) == bump(
        total_hits(occs, seq![a], d),
        occ_count(occs, b, d),
    ));
}

/// Accumulation never splits a record: inserting the same pair with
/// weight two and then weight one leaves one count, the original plus
/// three, as long as the sum stays within range.
pub proof fn lemma_weights_accumulate(c: u64)
    requires
        c + 3 <= u64::MAX,
    ensures
        bump(bump(c, 2), 1) == c + 3,
{
}

/// Deletion cascades: once every count for a document is zero, a listing
/// that reports only positive recorded counts can never mention that
/// document again.
pub proof fn lemma_delete_cascades(
    occs: Seq<Keyword>,
    d: Seq<char>,
    listing: Seq<(String, u64)>,
    w: Seq<char>,
)
    requires
        forall|word: Seq<char>| #[trigger] occ_count(occs, word, d) == 0,
        forall|j: int|
            0 <= j < listing.len() ==> occ_count(occs, w, (#[trigger] listing[j]).0@)
                == listing[j].1 && listing[j].1 >= 1,
    ensures
        forall|j: int| 0 <= j < listing.len() ==> (#[trigger] listing[j]).0@ != d,
{
    assert forall|j: int| 0 <= j < listing.len() implies (#[trigger] listing[j]).0@ != d by {
        if listing[j].0@ == d {
            assert(occ_count(occs, w, d) == listing[j].1);
        }
    }
}

/// When no record matches the pair, its count is zero.
proof fn lemma_occ_absent(occs: Seq<Keyword>, w: Seq<char>, d: Seq<char>)
    requires
        forall|i: int| 0 <= i < occs.len() ==> !occ_matches(#[trigger] occs[i], w, d),
    ensures
        occ_count(occs, w, d) == 0,
    decreases occs.len(),
{
    if occs.len() > 0 {
        assert(occs[0] == occs.first());
        assert forall|i: int| 0 <= i < occs.drop_first().len() implies !occ_matches(
            #[trigger] occs.drop_first()[i],
            w,
            d,
        ) by {
            assert(occs.drop_first()[i] == occs[i + 1]);
        }
        lemma_occ_absent(occs.drop_first(), w, d);
    }
}

/// The count of a pair whose only matching record is at `i` is that
/// record's count.
proof fn lemma_occ_at(occs: Seq<Keyword>, i: int)
    requires
        0 <= i < occs.len(),
        forall|j: int|
            0 <= j < occs.len() && j != i ==> !occ_matches(
                #[trigger] occs[j],
                occs[i].word@,
                occs[i].document@,
            ),
    ensures
        occ_count(occs, occs[i].word@, occs[i].document@) == occs[i].occurrences,
    decreases occs.len(),
{
    assert(occs[0] == occs.first());
    if i > 0 {
        assert(forall|j: int|
            0 <= j < occs.drop_first().len() ==> (#[trigger] occs.drop_first()[j]) == occs[j + 1]);
        lemma_occ_at(occs.drop_first(), i - 1);
    }
}

/// Replacing the record at `i` with one for the same pair changes that
/// pair's count to the new record's and no other, provided no other
/// record matches the pair.
proof fn lemma_occ_update(occs: Seq<Keyword>, i: int, x: Keyword, w: Seq<char>, d: Seq<char>)
    requires
        0 <= i < occs.len(),
        x.word@ == occs[i].word@,
        x.document@ == occs[i].document@,
        forall|j: int|
            0 <= j < occs.len() && j != i ==> !occ_matches(
                #[trigger] occs[j],
                occs[i].word@,
                occs[i].document@,
            ),
    ensures
        occ_count(occs.update(i, x), w, d) == (if w == x.word@ && d == x.document@ {
            x.occurrences
        } else {
            occ_count(occs, w, d)
        }),
    decreases occs.len(),
{
    assert(occs[0] == occs.first());
    if i == 0 {
        assert(occs.update(0, x).first() == x);
        assert(occs.update(0, x).drop_first() =~= occs.drop_first());
        if w == x.word@ && d == x.document@ {
            // the head matches on both sides of the comparison
        } else {
            assert(!occ_matches(occs.first(), w, d) || occ_count(occs, w, d)
                == occs.first().occurrences);
        }
    } else {
        assert(occs.update(i, x).first() == occs.first());
        assert(occs.update(i, x).drop_first() =~= occs.drop_first().update(i - 1, x));
        assert(forall|j: int|
            0 <= j < occs.drop_first().len() ==> (#[trigger] occs.drop_first()[j]) == occs[j + 1]);
        lemma_occ_update(occs.drop_first(), i - 1, x, w, d);
        if occ_matches(occs.first(), w, d) {
            assert(!(w == x.word@ && d == x.document@));
        }
    }
}

/// Appending a record for a pair no existing record matches adds that
/// pair's count and changes no other.
proof fn lemma_occ_push(occs: Seq<Keyword>, x: Keyword, w: Seq<char>, d: Seq<char>)
    requires
        forall|j: int|
            0 <= j < occs.len() ==> !occ_matches(#[trigger] occs[j], x.word@, x.document@),
    ensures
        occ_count(occs.push(x), w, d) == (if w == x.word@ && d == x.document@ {
            x.occurrences
        } else {
            occ_count(occs, w, d)
        }),
    decreases occs.len(),
{
    if occs.len() == 0 {
        assert(occs.push(x).len() == 1);
        assert(occs.push(x).first() == x);
        let rest = occs.push(x).drop_first();
        assert(rest =~= Seq::<Keyword>::empty());
        assert(occ_count(rest, w, d) == 0);
        if occ_matches(x, w, d) {
            assert(occ_count(occs.push(x), w, d) == x.occurrences);
        } else {
            assert(occ_count(occs.push(x), w, d) == occ_count(rest, w, d));
        }
        assert(occ_count(occs, w, d) == 0);
    } else {
        assert(occs[0] == occs.first());
        assert(occs.push(x).len() == occs.len() + 1);
        assert(occs.push(x).first() == occs.first());
        assert(occs.push(x).drop_first() =~= occs.drop_first().push(x));
        assert(forall|j: int|
            0 <= j < occs.drop_first().len() ==> (#[trigger] occs.drop_first()[j]) == occs[j + 1]);
        lemma_occ_push(occs.drop_first(), x, w, d);
        if occ_matches(occs.first(), w, d) {
            assert(!(w == x.word@ && d == x.document@));
            assert(occ_count(occs.push(x), w, d) == occs.first().occurrences);
            assert(occ_count(occs, w, d) == occs.first().occurrences);
        } else {
            assert(occ_count(occs.push(x), w, d) == occ_count(occs.drop_first().push(x), w, d));
            assert(occ_count(occs, w, d) == occ_count(occs.drop_first(), w, d));
        }
    }
}

/// A well-formed index holds no occurrence for a document it does not
/// hold.
proof fn lemma_no_doc_no_occs(index: KeywordIndex, d: Seq<char>)
    requires
        index.wf(),
        !has_doc(index.docs@, d),
    ensures
        forall|w: Seq<char>| occ_count(index.occs@, w, d) == 0,
{
    assert forall|w: Seq<char>| occ_count(index.occs@, w, d) == 0 by {
        assert forall|i: int| 0 <= i < index.occs@.len() implies !occ_matches(
            #[trigger] index.occs@[i],
            w,
            d,
        ) by {
            if index.occs@[i].document@ == d {
                assert(has_doc(index.docs@, d));
            }
        }
        lemma_occ_absent(index.occs@, w, d);
    }
}

/// A successful lookup returns a document bearing the looked-up name.
proof fn lemma_doc_lookup_found(docs: Seq<Document>, name: Seq<char>)
    ensures
        match doc_lookup(docs, name) {
            Some(d) => d.name@ == name,
            None => true,
        },
    decreases docs.len(),
{
    if docs.len() > 0 && docs.first().name@ != name {
        lemma_doc_lookup_found(docs.drop_first(), name);
    }
}

/// Looking up in a sequence extended at the end finds the old entry
/// first.
proof fn lemma_doc_lookup_push(docs: Seq<Document>, x: Document, n: Seq<char>)
    ensures
        doc_lookup(docs.push(x), n) == (match doc_lookup(docs, n) {
            Some(d) => Some(d),
            None => if x.name@ == n {
                Some(x)
            } else {
                None
            },
        }),
    decreases docs.len(),
{
    if docs.len() == 0 {
        assert(docs.push(x).len() == 1);
        assert(docs.push(x).first() == x);
        let rest = docs.push(x).drop_first();
        assert(rest =~= Seq::<Document>::empty());
        assert(doc_lookup(rest, n) is None);
        if x.name@ == n {
            assert(doc_lookup(docs.push(x), n) == Some(x));
        } else {
            assert(doc_lookup(docs.push(x), n) == doc_lookup(rest, n));
        }
        assert(doc_lookup(docs, n) is None);
    } else {
        assert(docs.push(x).len() == docs.len() + 1);
        assert(docs.push(x).first() == docs.first());
        assert(docs.push(x).drop_first() =~= docs.drop_first().push(x));
        lemma_doc_lookup_push(docs.drop_first(), x, n);
        if docs.first().name@ == n {
            assert(doc_lookup(docs.push(x), n) == Some(docs.first()));
            assert(doc_lookup(docs, n) == Some(docs.first()));
        } else {
            assert(doc_lookup(docs.push(x), n) == doc_lookup(docs.drop_first().push(x), n));
            assert(doc_lookup(docs, n) == doc_lookup(docs.drop_first(), n));
        }
    }
}

/// When lookup finds nothing, no entry bears the name.
proof fn lemma_doc_lookup_none_absent(docs: Seq<Document>, name: Seq<char>)
    requires
        doc_lookup(docs, name) is None,
    ensures
        forall|i: int| 0 <= i < docs.len() ==> (#[trigger] docs[i]).name@ != name,
    decreases docs.len(),
{
    if docs.len() > 0 {
        lemma_doc_lookup_none_absent(docs.drop_first(), name);
        assert forall|i: int| 0 <= i < docs.len() implies (#[trigger] docs[i]).name@ != name by {
            if i > 0 {
                assert(docs.drop_first()[i - 1] == docs[i]);
            }
        }
    }
}

} // verus!
