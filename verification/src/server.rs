//! The query orchestrator: a two-phase search-with-fallback protocol.
//! A raw query is split on whitespace and each term lowercased and
//! lemma-resolved (queries see no stopword or short-word filtering); a
//! spelling suggestion is computed for every term. The index is searched
//! with the normalized terms; only when that yields nothing and the
//! suggestion differs is the index searched once more with the suggested
//! terms, and the result tagged as coming from the suggestion. There is
//! no third attempt.

use vstd::prelude::*;

use crate::kwparser::{
    get_lemma_from_glaff, spec_lemma_from_glaff, split_runs, word_runs, Glaff,
};
use crate::models::{QueryResult, UseSpellingSuggestion};
use crate::spelling::{correct, spec_correct, Dictionary};
use crate::store::{is_ranked_result, total_hits, KeywordIndex};
use crate::text::{
    char_is_whitespace, is_whitespace_char, lower_of, lowercase, push_char, str_chars, str_eq,
};

verus! {

/// Which characters of a query are part of a term: everything that is
/// not whitespace.
pub open spec fn query_flags(s: Seq<char>) -> Seq<bool> {
    s.map_values(|c: char| !is_whitespace_char(c))
}

/// The normalized terms of a raw query: its whitespace-separated words,
/// each lowercased and lemma-resolved.
pub open spec fn spec_query_terms(q: Seq<char>, glaff: Option<Glaff>) -> Seq<Seq<char>> {
    word_runs(q, query_flags(q)).map_values(
        |t: Seq<char>| spec_lemma_from_glaff(lower_of(t), glaff),
    )
}

/// Split a raw query on whitespace and normalize each term: lowercase
/// it, then resolve its lemma. No stopword or short-word filtering is
/// applied to queries, only to indexed content.
pub fn normalize_query(query: &str, glaff: &Option<Glaff>) -> (r: Vec<String>)
    ensures
        r.deep_view() == spec_query_terms(query@, *glaff),
{
    let chars = str_chars(query);
    let mut flags: Vec<bool> = Vec::new();
    let mut i: usize = 0;
    while i < chars.len()
        invariant
            chars@ == query@,
            i <= chars@.len(),
            flags@ =~= query_flags(query@).take(i as int),
        decreases chars@.len() - i,
    {
        flags.push(!char_is_whitespace(chars[i]));
        proof {
            assert(flags@ =~= query_flags(query@).take(i + 1));
        }
        i = i + 1;
    }
    proof {
        assert(query_flags(query@).take(chars@.len() as int) =~= query_flags(query@));
    }
    let toks = split_runs(&chars, &flags);
    let ghost tv = toks.deep_view();
    let mut out: Vec<String> = Vec::new();
    let mut i: usize = 0;
    while i < toks.len()
        invariant
            tv == toks.deep_view(),
            i <= tv.len(),
            out.deep_view().len() == i,
            forall|k: int|
                0 <= k < i ==> out.deep_view()[k] == spec_lemma_from_glaff(
                    lower_of(#[trigger] tv[k]),
                    *glaff,
                ),
        decreases tv.len() - i,
    {
        let low = lowercase(toks[i].as_str());
        let word = get_lemma_from_glaff(low, glaff);
        out.push(word);
        i = i + 1;
    }
    proof {
        assert(out.deep_view() =~= spec_query_terms(query@, *glaff));
    }
    out
}

/// The suggested spelling of normalized terms: each term corrected
/// against the dictionary, and the correction lemma-resolved in turn so
/// that a corrected surface form is itself canonical.
pub open spec fn spec_suggested_terms(
    terms: Seq<Seq<char>>,
    dictionary: Option<Dictionary>,
    glaff: Option<Glaff>,
) -> Seq<Seq<char>> {
    terms.map_values(|t: Seq<char>| spec_lemma_from_glaff(spec_correct(t, dictionary), glaff))
}

/// Run the spelling corrector on every term independently, then resolve
/// each corrected term's lemma.
pub fn suggest_terms(
    terms: &Vec<String>,
    dictionary: &Option<Dictionary>,
    glaff: &Option<Glaff>,
) -> (r: Vec<String>)
    ensures
        r.deep_view() == spec_suggested_terms(terms.deep_view(), *dictionary, *glaff),
{
    let ghost tv = terms.deep_view();
    let mut out: Vec<String> = Vec::new();
    let mut i: usize = 0;
    while i < terms.len()
        invariant
            tv == terms.deep_view(),
            i <= tv.len(),
            out.deep_view().len() == i,
            forall|k: int|
                0 <= k < i ==> out.deep_view()[k] == spec_lemma_from_glaff(
                    spec_correct(#[trigger] tv[k], *dictionary),
                    *glaff,
                ),
        decreases tv.len() - i,
    {
        let corrected = correct(terms[i].clone(), dictionary);
        let word = get_lemma_from_glaff(corrected, glaff);
        out.push(word);
        i = i + 1;
    }
    proof {
        assert(out.deep_view() =~= spec_suggested_terms(tv, *dictionary, *glaff));
    }
    out
}

/// Terms joined by single spaces: the shape a suggested query is shown
/// in.
pub open spec fn join_spaces(terms: Seq<Seq<char>>) -> Seq<char>
    decreases terms.len(),
{
    if terms.len() == 0 {
        Seq::empty()
    } else if terms.len() == 1 {
        terms.last()
    } else {
        join_spaces(terms.drop_last()) + seq![' '] + terms.last()
    }
}

/// Join terms into one query string, separated by single spaces.
pub fn join_query(terms: &Vec<String>) -> (r: String)
    ensures
        r@ == join_spaces(terms.deep_view()),
{
    let ghost tv = terms.deep_view();
    let mut r = String::new();
    let mut i: usize = 0;
    while i < terms.len()
        invariant
            tv == terms.deep_view(),
            i <= tv.len(),
            r@ == join_spaces(tv.take(i as int)),
        decreases tv.len() - i,
    {
        proof {
            assert(tv.take(i + 1).drop_last() =~= tv.take(i as int));
            assert(tv.take(i + 1).last() == tv[i as int]);
        }
        if i > 0 {
            push_char(&mut r, ' ');
        }
        r.append(terms[i].as_str());
        proof {
            if i == 0 {
                assert(r@ =~= join_spaces(tv.take(1)));
            } else {
                assert(r@ =~= join_spaces(tv.take(i + 1)));
            }
        }
        i = i + 1;
    }
    proof {
        assert(tv.take(tv.len() as int) =~= tv);
    }
    r
}

/// Whether two term lists hold the same words.
fn terms_equal(a: &Vec<String>, b: &Vec<String>) -> (r: bool)
    ensures
        r == (a.deep_view() == b.deep_view()),
{
    if a.len() != b.len() {
        proof {
            assert(a.deep_view().len() != b.deep_view().len());
        }
        return false;
    }
    let mut i: usize = 0;
    while i < a.len()
        invariant
            a@.len() == b@.len(),
            i <= a@.len(),
            forall|k: int| 0 <= k < i ==> a.deep_view()[k] == b.deep_view()[k],
        decreases a@.len() - i,
    {
        if !str_eq(a[i].as_str(), b[i].as_str()) {
            proof {
                assert(a.deep_view()[i as int] == a@[i as int]@);
                assert(b.deep_view()[i as int] == b@[i as int]@);
            }
            return false;
        }
        i = i + 1;
    }
    proof {
        assert(a.deep_view() =~= b.deep_view());
    }
    true
}

/// Whether any indexed document scores against these terms.
pub open spec fn any_hit(index: KeywordIndex, terms: Seq<Seq<char>>) -> bool {
    exists|d: Seq<char>| #[trigger] total_hits(index.occs@, terms, d) >= 1
}

/// What the two-phase protocol must return for a normalized query and
/// its suggestion: when the original terms score, or the suggestion is no
/// different, the original terms' ranked result with no suggestion flag;
/// otherwise the suggested terms' ranked result (even when empty), tagged
/// with the suggestion and the joined suggested query. There is no third
/// attempt.
pub open spec fn is_query_outcome(
    index: KeywordIndex,
    qv: Seq<Seq<char>>,
    sv: Seq<Seq<char>>,
    r: QueryResult,
) -> bool {
    if any_hit(index, qv) || qv == sv {
        &&& !r.using_suggestion
        &&& r.spelling_suggestion is None
        &&& is_ranked_result(index, qv, r.results@)
    } else {
        &&& r.using_suggestion
        &&& match r.spelling_suggestion {
            Some(s) => s@ == join_spaces(sv),
            None => false,
        }
        &&& is_ranked_result(index, sv, r.results@)
    }
}

/// Search the index with a normalized query, falling back once to its
/// spelling suggestion when the query matches nothing and the suggestion
/// differs.
pub fn search_document_by_keyword(
    index: &KeywordIndex,
    query: &Vec<String>,
    spelling_suggestion: &Vec<String>,
    using_suggestion: &UseSpellingSuggestion,
) -> (r: QueryResult)
    requires
        index.wf(),
    ensures
        *using_suggestion == UseSpellingSuggestion::No ==> is_query_outcome(
            *index,
            query.deep_view(),
            spelling_suggestion.deep_view(),
            r,
        ),
        *using_suggestion == UseSpellingSuggestion::Yes ==> {
            &&& r.using_suggestion
            &&& match r.spelling_suggestion {
                Some(s) => s@ == join_spaces(spelling_suggestion.deep_view()),
                None => false,
            }
            &&& is_ranked_result(*index, spelling_suggestion.deep_view(), r.results@)
        },
{
    match using_suggestion {
        // If we are already using the spelling suggestion, return what
        // we have.
        UseSpellingSuggestion::Yes => {
            let sug = spelling_suggestion.as_slice();
            proof {
                assert(sug.deep_view() =~= spelling_suggestion.deep_view());
            }
            let results = index.keywords_search(sug);
            QueryResult::new(results, Some(join_query(spelling_suggestion)), using_suggestion)
        },
        // If we are not using the spelling suggestion yet, only try.
        UseSpellingSuggestion::No => {
            let q = query.as_slice();
            let ghost qv = query.deep_view();
            proof {
                assert(q.deep_view() =~= qv);
            }
            let results = index.keywords_search(q);
            // If the results are not empty, or if the spelling
            // suggestion bears no difference with the initial query,
            // return what we have.
            if results.len() > 0 || terms_equal(query, spelling_suggestion) {
                proof {
                    if results@.len() > 0 {
                        assert(results@[0].hits == total_hits(index.occs@, qv, results@[0].doc@));
                        assert(any_hit(*index, qv));
                    }
                }
                QueryResult::new(results, None, using_suggestion)
            } else {
                // Otherwise search once more with the suggestion, and
                // tag the result as coming from it.
                proof {
                    if any_hit(*index, qv) {
                        let d = choose|d: Seq<char>|
                            #[trigger] total_hits(index.occs@, qv, d) >= 1;
                        assert(exists|j: int|
                            0 <= j < results@.len() && (#[trigger] results@[j]).doc@ == d);
                    }
                }
                let sug = spelling_suggestion.as_slice();
                proof {
                    assert(sug.deep_view() =~= spelling_suggestion.deep_view());
                }
                let results2 = index.keywords_search(sug);
                QueryResult::new(
                    results2,
                    Some(join_query(spelling_suggestion)),
                    &UseSpellingSuggestion::Yes,
                )
            }
        },
    }
}

/// Search documents matching the keywords in `query`.
///
/// The raw query is normalized, a spelling suggestion is computed for
/// it, and the index is searched; when the normalized query matches
/// nothing and the suggestion differs, the index is searched once more
/// with the suggestion. An empty raw query yields an empty result
/// without touching the index.
pub fn search_query(
    query: &str,
    index: &KeywordIndex,
    dictionary: &Option<Dictionary>,
    glaff: &Option<Glaff>,
) -> (r: QueryResult)
    requires
        index.wf(),
    ensures
        query@.len() == 0 ==> r.results@.len() == 0 && r.spelling_suggestion is None
            && !r.using_suggestion,
        query@.len() > 0 ==> is_query_outcome(
            *index,
            spec_query_terms(query@, *glaff),
            spec_suggested_terms(spec_query_terms(query@, *glaff), *dictionary, *glaff),
            r,
        ),
{
    // Filter out empty queries.
    if query.is_empty() {
        return QueryResult::default();
    }
    // Normalize the query.
    let query_vec = normalize_query(query, glaff);
    // Spellcheck the query.
    let spelling_suggestion = suggest_terms(&query_vec, dictionary, glaff);
    // Execute the query.
    search_document_by_keyword(index, &query_vec, &spelling_suggestion, &UseSpellingSuggestion::No)
}

/// Propose a spelling for a single word against the loaded dictionary.
pub fn spelling_word(word: String, dictionary: &Option<Dictionary>) -> (r: String)
    ensures
        r@ == spec_correct(word@, *dictionary),
{
    correct(word, dictionary)
}

} // verus!
