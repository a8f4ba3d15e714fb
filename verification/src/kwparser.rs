//! The normalizer: turns raw text into the canonical keyword stream that
//! gets indexed. Tokens are maximal runs of alphabetic characters; each is
//! lowercased, replaced by its canonical lemma when a lemma table is
//! supplied, and dropped when it is short (two characters or fewer) or a
//! stopword.

use vstd::prelude::*;

use crate::text::{
    char_is_alphabetic, is_alphabetic_char, lower_of, lowercase, str_eq, string_from_chars,
    str_chars,
};

verus! {

/// The lemma table: a word-to-canonical-form mapping, looked up by the
/// normalizer. Lookup takes the first entry whose word matches, so an
/// entry inserted later shadows an older one for the same word.
pub struct Glaff {
    pub entries: Vec<(String, String)>,
}

/// First-match lookup of a word in a sequence of (word, lemma) entries.
pub open spec fn glaff_lookup(entries: Seq<(String, String)>, w: Seq<char>) -> Option<Seq<char>>
    decreases entries.len(),
{
    if entries.len() == 0 {
        None
    } else if entries.first().0@ == w {
        Some(entries.first().1@)
    } else {
        glaff_lookup(entries.drop_first(), w)
    }
}

impl Glaff {
    /// An empty lemma table.
    pub fn new() -> (r: Glaff)
        ensures
            r.entries@.len() == 0,
    {
        Glaff { entries: Vec::new() }
    }

    /// Record that `word` has canonical form `lemma`, shadowing any
    /// earlier entry for the same word.
    pub fn insert(&mut self, word: String, lemma: String)
        ensures
            forall|w: Seq<char>|
                glaff_lookup(final(self).entries@, w) == if w == word@ {
                    Some(lemma@)
                } else {
                    glaff_lookup(old(self).entries@, w)
                },
    {
        let ghost w0 = word@;
        let ghost l0 = lemma@;
        self.entries.insert(0, (word, lemma));
        proof {
            assert(self.entries@.first().0@ == w0);
            assert(self.entries@.first().1@ == l0);
            assert(self.entries@.drop_first() =~= old(self).entries@);
        }
    }

    /// The lemma recorded for `word`, if any.
    pub fn get(&self, word: &str) -> (r: Option<&String>)
        ensures
            match r {
                Some(l) => glaff_lookup(self.entries@, word@) == Some(l@),
                None => glaff_lookup(self.entries@, word@) is None,
            },
    {
        let mut i: usize = 0;
        proof {
            assert(self.entries@.skip(0) =~= self.entries@);
        }
        while i < self.entries.len()
            invariant
                i <= self.entries@.len(),
                glaff_lookup(self.entries@, word@) == glaff_lookup(
                    self.entries@.skip(i as int),
                    word@,
                ),
            decreases self.entries@.len() - i,
        {
            proof {
                assert(self.entries@.skip(i as int).first() == self.entries@[i as int]);
                assert(self.entries@.skip(i as int).drop_first() =~= self.entries@.skip(i + 1));
            }
            if str_eq(self.entries[i].0.as_str(), word) {
                return Some(&self.entries[i].1);
            }
            i = i + 1;
        }
        proof {
            assert(self.entries@.skip(self.entries@.len() as int) =~= Seq::<(
                String,
                String,
            )>::empty());
        }
        None
    }
}

/// The canonical form of a word under an optional lemma table: the table's
/// entry when one exists, the word itself otherwise.
pub open spec fn spec_lemma_from_glaff(word: Seq<char>, glaff: Option<Glaff>) -> Seq<char> {
    match glaff {
        None => word,
        Some(g) => match glaff_lookup(g.entries@, word) {
            Some(l) => l,
            None => word,
        },
    }
}

/// Get a lemma from the GLAFF; the word itself when the table is absent
/// or has no entry for it.
pub fn get_lemma_from_glaff(word: String, glaff: &Option<Glaff>) -> (r: String)
    ensures
        r@ == spec_lemma_from_glaff(word@, *glaff),
{
    match glaff {
        None => word,
        Some(collection) => match collection.get(word.as_str()) {
            Some(lemme) => lemme.clone(),
            None => word,
        },
    }
}

/// Whether a word is one of the stopwords.
pub open spec fn spec_is_stopword(word: Seq<char>, stop_words: Seq<Seq<char>>) -> bool {
    exists|i: int| 0 <= i < stop_words.len() && stop_words[i] == word
}

/// Determine if a word is a stopword.
pub fn is_stopword(word: &String, stop_words: &[String]) -> (r: bool)
    ensures
        r == spec_is_stopword(word@, stop_words.deep_view()),
{
    let mut i: usize = 0;
    while i < stop_words.len()
        invariant
            i <= stop_words@.len(),
            forall|k: int| 0 <= k < i ==> stop_words.deep_view()[k] != word@,
        decreases stop_words@.len() - i,
    {
        if str_eq(stop_words[i].as_str(), word.as_str()) {
            assert(stop_words.deep_view()[i as int] == word@);
            return true;
        }
        i = i + 1;
    }
    false
}

/// A word of two characters or fewer carries no indexing signal and is
/// always dropped by the normalizer, whether or not it is a stopword.
pub open spec fn spec_is_short_word(word: Seq<char>) -> bool {
    word.len() <= 2
}

/// Determine if a word is a short word.
pub fn is_short_word(word: &String) -> (r: bool)
    ensures
        r == spec_is_short_word(word@),
{
    word.as_str().unicode_len() <= 2
}

/// The maximal runs of characters marked `true` in `keep`, in order: the
/// tokens of `s` when every character marked `false` is a separator.
/// Separators and empty tokens never appear in the result.
pub open spec fn word_runs(s: Seq<char>, keep: Seq<bool>) -> Seq<Seq<char>>
    recommends
        s.len() == keep.len(),
    decreases s.len(),
{
    if s.len() == 0 {
        Seq::empty()
    } else {
        let prev = word_runs(s.drop_last(), keep.drop_last());
        if !keep.last() {
            prev
        } else if s.len() >= 2 && keep[s.len() - 2] {
            prev.update(prev.len() - 1, prev.last().push(s.last()))
        } else {
            prev.push(seq![s.last()])
        }
    }
}

/// A run is only open while the previous character was kept, so the token
/// list of a prefix ending in a kept character is never empty.
proof fn lemma_word_runs_nonempty(s: Seq<char>, keep: Seq<bool>)
    requires
        s.len() == keep.len(),
        s.len() > 0,
        keep.last(),
    ensures
        word_runs(s, keep).len() > 0,
    decreases s.len(),
{
    if s.len() >= 2 && keep[s.len() - 2] {
        lemma_word_runs_nonempty(s.drop_last(), keep.drop_last());
    }
}

/// Split `chars` into its maximal kept runs, one string per run.
pub(crate) fn split_runs(chars: &Vec<char>, flags: &Vec<bool>) -> (r: Vec<String>)
    requires
        flags@.len() == chars@.len(),
    ensures
        r.deep_view() == word_runs(chars@, flags@),
{
    let ghost s = chars@;
    let ghost keep = flags@;
    let mut out: Vec<String> = Vec::new();
    let mut cur: Vec<char> = Vec::new();
    let mut i: usize = 0;
    while i < chars.len()
        invariant
            s == chars@,
            keep == flags@,
            keep.len() == s.len(),
            i <= s.len(),
            cur@.len() == 0 <==> (i == 0 || !keep[i as int - 1]),
            cur@.len() > 0 ==> word_runs(s.take(i as int), keep.take(i as int))
                == out.deep_view().push(cur@),
            cur@.len() == 0 ==> word_runs(s.take(i as int), keep.take(i as int))
                == out.deep_view(),
        decreases s.len() - i,
    {
        let ghost pre_out = out.deep_view();
        let ghost pre_cur = cur@;
        proof {
            assert(s.take(i + 1).drop_last() =~= s.take(i as int));
            assert(keep.take(i + 1).drop_last() =~= keep.take(i as int));
            assert(s.take(i + 1).last() == s[i as int]);
            assert(keep.take(i + 1).last() == keep[i as int]);
        }
        if flags[i] {
            if cur.len() == 0 {
                cur.push(chars[i]);
                proof {
                    assert(cur@ =~= seq![s[i as int]]);
                    assert(word_runs(s.take(i + 1), keep.take(i + 1)) == pre_out.push(cur@));
                }
            } else {
                cur.push(chars[i]);
                proof {
                    let prev = word_runs(s.take(i as int), keep.take(i as int));
                    assert(prev == pre_out.push(pre_cur));
                    assert(prev.last() == pre_cur);
                    assert(prev.update(prev.len() - 1, pre_cur.push(s[i as int])) =~= pre_out.push(
                        pre_cur.push(s[i as int]),
                    ));
                    assert(word_runs(s.take(i + 1), keep.take(i + 1)) == pre_out.push(cur@));
                }
            }
        } else {
            if cur.len() > 0 {
                let token = string_from_chars(&cur);
                out.push(token);
                cur = Vec::new();
                proof {
                    assert(out.deep_view() =~= pre_out.push(pre_cur));
                    assert(word_runs(s.take(i + 1), keep.take(i + 1)) == out.deep_view());
                }
            } else {
                proof {
                    assert(word_runs(s.take(i + 1), keep.take(i + 1)) == out.deep_view());
                }
            }
        }
        i = i + 1;
    }
    proof {
        assert(s.take(s.len() as int) =~= s);
        assert(keep.take(keep.len() as int) =~= keep);
    }
    if cur.len() > 0 {
        let token = string_from_chars(&cur);
        let ghost pre_out = out.deep_view();
        let ghost pre_cur = cur@;
        out.push(token);
        proof {
            assert(out.deep_view() =~= pre_out.push(pre_cur));
        }
    }
    out
}

/// Which characters of `s` are alphabetic: the token alphabet of the
/// content normalizer.
pub open spec fn alpha_flags(s: Seq<char>) -> Seq<bool> {
    s.map_values(|c: char| is_alphabetic_char(c))
}

/// The raw tokens of a text: its maximal runs of alphabetic characters.
pub fn split_alphabetic(text: &str) -> (r: Vec<String>)
    ensures
        r.deep_view() == word_runs(text@, alpha_flags(text@)),
{
    let chars = str_chars(text);
    let mut flags: Vec<bool> = Vec::new();
    let mut i: usize = 0;
    while i < chars.len()
        invariant
            chars@ == text@,
            i <= chars@.len(),
            flags@ =~= alpha_flags(text@).take(i as int),
        decreases chars@.len() - i,
    {
        flags.push(char_is_alphabetic(chars[i]));
        proof {
            assert(flags@ =~= alpha_flags(text@).take(i + 1));
        }
        i = i + 1;
    }
    proof {
        assert(alpha_flags(text@).take(chars@.len() as int) =~= alpha_flags(text@));
    }
    split_runs(&chars, &flags)
}

/// Which characters separate entries of a declared keyword list: commas
/// and spaces.
pub open spec fn keyword_flags(s: Seq<char>) -> Seq<bool> {
    s.map_values(|c: char| c != ',' && c != ' ')
}

/// Split a document's declared keyword string on commas and spaces,
/// discarding empty pieces.
pub fn split_keywords(keywords: &str) -> (r: Vec<String>)
    ensures
        r.deep_view() == word_runs(keywords@, keyword_flags(keywords@)),
{
    let chars = str_chars(keywords);
    let mut flags: Vec<bool> = Vec::new();
    let mut i: usize = 0;
    while i < chars.len()
        invariant
            chars@ == keywords@,
            i <= chars@.len(),
            flags@ =~= keyword_flags(keywords@).take(i as int),
        decreases chars@.len() - i,
    {
        let c = chars[i];
        flags.push(c != ',' && c != ' ');
        proof {
            assert(flags@ =~= keyword_flags(keywords@).take(i + 1));
        }
        i = i + 1;
    }
    proof {
        assert(keyword_flags(keywords@).take(chars@.len() as int) =~= keyword_flags(keywords@));
    }
    split_runs(&chars, &flags)
}

/// Whether a normalized word survives filtering: it is neither short nor
/// a stopword.
pub open spec fn keep_word(w: Seq<char>, stop_words: Seq<Seq<char>>) -> bool {
    !spec_is_short_word(w) && !spec_is_stopword(w, stop_words)
}

/// The normalized keyword stream obtained from raw tokens: each token is
/// lowercased and lemma-resolved, then dropped if short or a stopword.
pub open spec fn normalize_tokens(
    toks: Seq<Seq<char>>,
    stop_words: Seq<Seq<char>>,
    glaff: Option<Glaff>,
) -> Seq<Seq<char>>
    decreases toks.len(),
{
    if toks.len() == 0 {
        Seq::empty()
    } else {
        let w = spec_lemma_from_glaff(lower_of(toks.last()), glaff);
        let prev = normalize_tokens(toks.drop_last(), stop_words, glaff);
        if keep_word(w, stop_words) {
            prev.push(w)
        } else {
            prev
        }
    }
}

/// What normalizing a whole text yields.
pub open spec fn spec_keywords_from_text(
    text: Seq<char>,
    stop_words: Seq<Seq<char>>,
    glaff: Option<Glaff>,
) -> Seq<Seq<char>> {
    normalize_tokens(word_runs(text, alpha_flags(text)), stop_words, glaff)
}

/// Normalize a text into its keyword stream: split on non-alphabetic
/// characters, lowercase, resolve lemmas, and drop short words and
/// stopwords.
pub fn get_keywords_from_text(
    text: &str,
    stop_words: &[String],
    lemmes: &Option<Glaff>,
) -> (r: Vec<String>)
    ensures
        r.deep_view() == spec_keywords_from_text(text@, stop_words.deep_view(), *lemmes),
{
    let toks = split_alphabetic(text);
    let ghost tv = toks.deep_view();
    let mut out: Vec<String> = Vec::new();
    let mut i: usize = 0;
    while i < toks.len()
        invariant
            tv == toks.deep_view(),
            i <= tv.len(),
            out.deep_view() == normalize_tokens(tv.take(i as int), stop_words.deep_view(), *lemmes),
        decreases tv.len() - i,
    {
        proof {
            assert(tv.take(i + 1).drop_last() =~= tv.take(i as int));
            assert(tv.take(i + 1).last() == tv[i as int]);
        }
        let ghost pre_out = out.deep_view();
        let low = lowercase(toks[i].as_str());
        let word = get_lemma_from_glaff(low, lemmes);
        if !is_short_word(&word) && !is_stopword(&word, stop_words) {
            out.push(word);
            proof {
                assert(out.deep_view() =~= pre_out.push(word@));
            }
        }
        i = i + 1;
    }
    proof {
        assert(tv.take(tv.len() as int) =~= tv);
    }
    out
}

/// Every word the normalizer emits is significant: longer than two
/// characters and not a stopword. In particular a short token is dropped
/// even when it is not a stopword.
pub proof fn lemma_normalized_tokens_significant(
    toks: Seq<Seq<char>>,
    stop_words: Seq<Seq<char>>,
    glaff: Option<Glaff>,
)
    ensures
        forall|k: int|
            0 <= k < normalize_tokens(toks, stop_words, glaff).len() ==> {
                let w = #[trigger] normalize_tokens(toks, stop_words, glaff)[k];
                w.len() > 2 && !spec_is_stopword(w, stop_words)
            },
    decreases toks.len(),
{
    if toks.len() > 0 {
        lemma_normalized_tokens_significant(toks.drop_last(), stop_words, glaff);
        let w = spec_lemma_from_glaff(lower_of(toks.last()), glaff);
        let prev = normalize_tokens(toks.drop_last(), stop_words, glaff);
        let cur = normalize_tokens(toks, stop_words, glaff);
        if keep_word(w, stop_words) {
            assert forall|k: int| 0 <= k < cur.len() implies {
                cur[k].len() > 2 && !spec_is_stopword(cur[k], stop_words)
            } by {
                if k < prev.len() {
                    assert(cur[k] == prev[k]);
                } else {
                    assert(cur[k] == w);
                }
            }
        }
    }
}

} // verus!
