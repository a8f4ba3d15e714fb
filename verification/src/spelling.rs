//! The fuzzy spelling corrector: given a word and a word-frequency
//! dictionary, propose the most plausible in-dictionary spelling at edit
//! distance one, then two; a word already in the dictionary, or one with
//! no candidate at either distance, comes back unchanged.
//!
//! The best candidate is tracked by an explicit maximum fold: a later
//! candidate replaces the current best only when its frequency is strictly
//! greater, so on equal frequencies the candidate generated first wins and
//! the result is deterministic.

use vstd::prelude::*;

use crate::text::{str_chars, string_from_chars};

verus! {

/// All characters used in the languages stored in the index; alterations
/// and insertions draw their letters from here.
pub open spec fn alphabet_spec() -> Seq<char> {
    seq![
        'a', 'à', 'â', 'b', 'c', 'd', 'e', 'é', 'è', 'ë', 'ê', 'f', 'g', 'h', 'i', 'î', 'ï',
        'j', 'k', 'l', 'm', 'n', 'o', 'ô', 'p', 'q', 'r', 's', 't', 'u', 'û', 'ü', 'v', 'w',
        'x', 'y', 'ÿ', 'z',
    ]
}

/// The alphabet as a vector of characters.
pub fn alphabet() -> (r: Vec<char>)
    ensures
        r@ == alphabet_spec(),
{
    let r: Vec<char> = vec![
        'a', 'à', 'â', 'b', 'c', 'd', 'e', 'é', 'è', 'ë', 'ê', 'f', 'g', 'h', 'i', 'î', 'ï',
        'j', 'k', 'l', 'm', 'n', 'o', 'ô', 'p', 'q', 'r', 's', 't', 'u', 'û', 'ü', 'v', 'w',
        'x', 'y', 'ÿ', 'z',
    ];
    proof {
        assert(r@ =~= alphabet_spec());
    }
    r
}

/// The word-frequency dictionary the corrector consults: each word is
/// paired with a usage-frequency score. Lookup takes the first entry whose
/// word matches, so an entry inserted later shadows an older one. `n` is
/// the total number of word occurrences counted when the dictionary was
/// trained, and `edits` is a scratch list kept by the trainer; neither
/// takes part in correction.
pub struct Dictionary {
    pub n: usize,
    pub words: Vec<(String, usize)>,
    pub edits: Vec<String>,
}

/// First-match lookup of a word's frequency.
pub open spec fn word_freq(words: Seq<(String, usize)>, w: Seq<char>) -> Option<usize>
    decreases words.len(),
{
    if words.len() == 0 {
        None
    } else if words.first().0@ == w {
        Some(words.first().1)
    } else {
        word_freq(words.drop_first(), w)
    }
}

impl Dictionary {
    /// An empty dictionary.
    pub fn new() -> (r: Dictionary)
        ensures
            r.n == 0,
            r.words@.len() == 0,
            r.edits@.len() == 0,
    {
        Dictionary { n: 0, words: Vec::new(), edits: Vec::new() }
    }

    /// Record `word` with frequency `freq`, shadowing any earlier entry
    /// for the same word.
    pub fn insert(&mut self, word: String, freq: usize)
        ensures
            final(self).n == old(self).n,
            final(self).edits@ == old(self).edits@,
            forall|w: Seq<char>|
                word_freq(final(self).words@, w) == if w == word@ {
                    Some(freq)
                } else {
                    word_freq(old(self).words@, w)
                },
    {
        let ghost w0 = word@;
        self.words.insert(0, (word, freq));
        proof {
            assert(self.words@.first().0@ == w0);
            assert(self.words@.first().1 == freq);
            assert(self.words@.drop_first() =~= old(self).words@);
        }
    }

    /// The frequency recorded for `word`, if any.
    pub fn freq_of(&self, word: &str) -> (r: Option<usize>)
        ensures
            r == word_freq(self.words@, word@),
    {
        let mut i: usize = 0;
        proof {
            assert(self.words@.skip(0) =~= self.words@);
        }
        while i < self.words.len()
            invariant
                i <= self.words@.len(),
                word_freq(self.words@, word@) == word_freq(self.words@.skip(i as int), word@),
            decreases self.words@.len() - i,
        {
            proof {
                assert(self.words@.skip(i as int).first() == self.words@[i as int]);
                assert(self.words@.skip(i as int).drop_first() =~= self.words@.skip(i + 1));
            }
            if crate::text::str_eq(self.words[i].0.as_str(), word) {
                return Some(self.words[i].1);
            }
            i = i + 1;
        }
        proof {
            assert(self.words@.skip(self.words@.len() as int) =~= Seq::<(String, usize)>::empty());
        }
        None
    }

    /// Whether `word` is a key of the dictionary.
    pub fn contains_key(&self, word: &str) -> (r: bool)
        ensures
            r == (word_freq(self.words@, word@) is Some),
    {
        self.freq_of(word).is_some()
    }
}

// The four single-edit forms of a word, at split position `i`.

/// The word with the character at `i` removed.
pub open spec fn deletion(w: Seq<char>, i: int) -> Seq<char>
    recommends
        0 <= i < w.len(),
{
    w.subrange(0, i) + w.subrange(i + 1, w.len() as int)
}

/// The word with the characters at `i` and `i + 1` exchanged.
pub open spec fn transposition(w: Seq<char>, i: int) -> Seq<char>
    recommends
        0 <= i < w.len() - 1,
{
    w.update(i, w[i + 1]).update(i + 1, w[i])
}

/// The word with the character at `i` replaced by `c`.
pub open spec fn alteration(w: Seq<char>, i: int, c: char) -> Seq<char>
    recommends
        0 <= i < w.len(),
{
    w.update(i, c)
}

/// The word with `c` inserted before position `i`.
pub open spec fn insertion(w: Seq<char>, i: int, c: char) -> Seq<char>
    recommends
        0 <= i <= w.len(),
{
    w.subrange(0, i) + seq![c] + w.subrange(i, w.len() as int)
}

/// The alterations and insertions of `w` at position `i`, one pair per
/// letter of `cs`, in order.
pub open spec fn alpha_edits(w: Seq<char>, i: int, cs: Seq<char>) -> Seq<Seq<char>>
    decreases cs.len(),
{
    if cs.len() == 0 {
        Seq::empty()
    } else {
        alpha_edits(w, i, cs.drop_last()) + seq![
            alteration(w, i, cs.last()),
            insertion(w, i, cs.last()),
        ]
    }
}

/// The edits produced at split position `i`: the deletion, the
/// transposition when a pair remains to exchange, then the alterations
/// and insertions over the whole alphabet.
pub open spec fn edit_block(w: Seq<char>, i: int) -> Seq<Seq<char>> {
    (if i < w.len() - 1 {
        seq![deletion(w, i), transposition(w, i)]
    } else {
        seq![deletion(w, i)]
    }) + alpha_edits(w, i, alphabet_spec())
}

/// The edits produced at split positions `0` to `k - 1`, concatenated.
pub open spec fn edits_prefix(w: Seq<char>, k: int) -> Seq<Seq<char>>
    decreases k,
{
    if k <= 0 {
        Seq::empty()
    } else {
        edits_prefix(w, k - 1) + edit_block(w, k - 1)
    }
}

/// Every single-edit variation of `w`: deletions, transpositions,
/// alterations and insertions over the alphabet, at every split position.
pub open spec fn edits_seq(w: Seq<char>) -> Seq<Seq<char>> {
    edits_prefix(w, w.len() as int)
}

/// Concatenation preserves membership from either side.
proof fn lemma_concat_contains(a: Seq<Seq<char>>, b: Seq<Seq<char>>, x: Seq<char>)
    requires
        a.contains(x) || b.contains(x),
    ensures
        (a + b).contains(x),
{
    if a.contains(x) {
        let i = choose|i: int| 0 <= i < a.len() && a[i] == x;
        assert((a + b)[i] == x);
    } else {
        let i = choose|i: int| 0 <= i < b.len() && b[i] == x;
        assert((a + b)[a.len() + i] == x);
    }
}

/// The alteration and insertion drawn from any letter of `cs` are among
/// the edits built over `cs`.
proof fn lemma_alpha_edits_complete(w: Seq<char>, i: int, cs: Seq<char>, c: char)
    requires
        cs.contains(c),
    ensures
        alpha_edits(w, i, cs).contains(alteration(w, i, c)),
        alpha_edits(w, i, cs).contains(insertion(w, i, c)),
    decreases cs.len(),
{
    let tail = seq![alteration(w, i, cs.last()), insertion(w, i, cs.last())];
    assert(alpha_edits(w, i, cs) == alpha_edits(w, i, cs.drop_last()) + tail);
    if cs.last() == c {
        assert(tail[0] == alteration(w, i, c) && tail[1] == insertion(w, i, c));
        lemma_concat_contains(alpha_edits(w, i, cs.drop_last()), tail, alteration(w, i, c));
        lemma_concat_contains(alpha_edits(w, i, cs.drop_last()), tail, insertion(w, i, c));
    } else {
        let j = choose|j: int| 0 <= j < cs.len() && cs[j] == c;
        assert(cs.drop_last()[j] == c);
        lemma_alpha_edits_complete(w, i, cs.drop_last(), c);
        lemma_concat_contains(alpha_edits(w, i, cs.drop_last()), tail, alteration(w, i, c));
        lemma_concat_contains(alpha_edits(w, i, cs.drop_last()), tail, insertion(w, i, c));
    }
}

/// Every edit block up to `k` lies in the prefix concatenation.
proof fn lemma_edits_prefix_complete(w: Seq<char>, k: int, i: int, x: Seq<char>)
    requires
        0 <= i < k,
        edit_block(w, i).contains(x),
    ensures
        edits_prefix(w, k).contains(x),
    decreases k,
{
    if i == k - 1 {
        lemma_concat_contains(edits_prefix(w, k - 1), edit_block(w, k - 1), x);
    } else {
        lemma_edits_prefix_complete(w, k - 1, i, x);
        lemma_concat_contains(edits_prefix(w, k - 1), edit_block(w, k - 1), x);
    }
}

/// The edit candidates are complete: at every split position the
/// deletion, the transposition where one exists, and the alteration and
/// insertion for every alphabet letter all appear among a word's edits.
pub proof fn lemma_edits_complete(w: Seq<char>, i: int, c: char)
    requires
        0 <= i < w.len(),
        alphabet_spec().contains(c),
    ensures
        edits_seq(w).contains(deletion(w, i)),
        i < w.len() - 1 ==> edits_seq(w).contains(transposition(w, i)),
        edits_seq(w).contains(alteration(w, i, c)),
        edits_seq(w).contains(insertion(w, i, c)),
{
    let head = if i < w.len() - 1 {
        seq![deletion(w, i), transposition(w, i)]
    } else {
        seq![deletion(w, i)]
    };
    assert(head[0] == deletion(w, i));
    lemma_concat_contains(head, alpha_edits(w, i, alphabet_spec()), deletion(w, i));
    lemma_edits_prefix_complete(w, w.len() as int, i, deletion(w, i));
    if i < w.len() - 1 {
        assert(head[1] == transposition(w, i));
        lemma_concat_contains(head, alpha_edits(w, i, alphabet_spec()), transposition(w, i));
        lemma_edits_prefix_complete(w, w.len() as int, i, transposition(w, i));
    }
    lemma_alpha_edits_complete(w, i, alphabet_spec(), c);
    lemma_concat_contains(head, alpha_edits(w, i, alphabet_spec()), alteration(w, i, c));
    lemma_edits_prefix_complete(w, w.len() as int, i, alteration(w, i, c));
    lemma_concat_contains(head, alpha_edits(w, i, alphabet_spec()), insertion(w, i, c));
    lemma_edits_prefix_complete(w, w.len() as int, i, insertion(w, i, c));
}

/// The characters of `v` with the one at `i` removed.
fn vec_deletion(v: &Vec<char>, i: usize) -> (r: Vec<char>)
    requires
        i < v@.len(),
    ensures
        r@ == deletion(v@, i as int),
{
    let mut r: Vec<char> = Vec::new();
    let mut k: usize = 0;
    while k < i
        invariant
            i < v@.len(),
            k <= i,
            r@ == v@.subrange(0, k as int),
        decreases i - k,
    {
        r.push(v[k]);
        proof {
            assert(r@ =~= v@.subrange(0, k + 1));
        }
        k = k + 1;
    }
    let n = v.len();
    let mut k: usize = i + 1;
    while k < n
        invariant
            n == v@.len(),
            i < v@.len(),
            i + 1 <= k <= v@.len(),
            r@ == v@.subrange(0, i as int) + v@.subrange(i + 1, k as int),
        decreases v@.len() - k,
    {
        r.push(v[k]);
        proof {
            assert(r@ =~= v@.subrange(0, i as int) + v@.subrange(i + 1, k + 1));
        }
        k = k + 1;
    }
    r
}

/// The characters of `v` with the ones at `i` and `i + 1` exchanged.
fn vec_transposition(v: &Vec<char>, i: usize) -> (r: Vec<char>)
    requires
        i + 1 < v@.len(),
    ensures
        r@ == transposition(v@, i as int),
{
    let n = v.len();
    let mut r = vec_copy(v);
    let a = v[i];
    let b = v[i + 1];
    r.set(i, b);
    r.set(i + 1, a);
    r
}

/// The characters of `v` with the one at `i` replaced by `c`.
fn vec_alteration(v: &Vec<char>, i: usize, c: char) -> (r: Vec<char>)
    requires
        i < v@.len(),
    ensures
        r@ == alteration(v@, i as int, c),
{
    let mut r = vec_copy(v);
    r.set(i, c);
    r
}

/// The characters of `v` with `c` inserted before position `i`.
fn vec_insertion(v: &Vec<char>, i: usize, c: char) -> (r: Vec<char>)
    requires
        i <= v@.len(),
    ensures
        r@ == insertion(v@, i as int, c),
{
    let mut r: Vec<char> = Vec::new();
    let mut k: usize = 0;
    while k < i
        invariant
            i <= v@.len(),
            k <= i,
            r@ == v@.subrange(0, k as int),
        decreases i - k,
    {
        r.push(v[k]);
        proof {
            assert(r@ =~= v@.subrange(0, k + 1));
        }
        k = k + 1;
    }
    r.push(c);
    let mut k: usize = i;
    while k < v.len()
        invariant
            i <= k <= v@.len(),
            r@ == v@.subrange(0, i as int) + seq![c] + v@.subrange(i as int, k as int),
        decreases v@.len() - k,
    {
        r.push(v[k]);
        proof {
            assert(r@ =~= v@.subrange(0, i as int) + seq![c] + v@.subrange(i as int, k + 1));
        }
        k = k + 1;
    }
    r
}

/// A copy of a character vector.
fn vec_copy(v: &Vec<char>) -> (r: Vec<char>)
    ensures
        r@ == v@,
{
    let mut r: Vec<char> = Vec::new();
    let mut k: usize = 0;
    while k < v.len()
        invariant
            k <= v@.len(),
            r@ == v@.subrange(0, k as int),
        decreases v@.len() - k,
    {
        r.push(v[k]);
        proof {
            assert(r@ =~= v@.subrange(0, k + 1));
        }
        k = k + 1;
    }
    proof {
        assert(v@.subrange(0, v@.len() as int) =~= v@);
    }
    r
}

/// Create possible alterations of a word: every deletion, transposition,
/// alteration and insertion of a single character, the latter two drawing
/// their letters from the alphabet.
pub fn edits(word: &str) -> (r: Vec<String>)
    ensures
        r.deep_view() == edits_seq(word@),
{
    let word_vec = str_chars(word);
    let n = word_vec.len();
    let a = alphabet();
    let mut results: Vec<String> = Vec::new();
    let mut i: usize = 0;
    while i < n
        invariant
            word_vec@ == word@,
            n == word@.len(),
            a@ == alphabet_spec(),
            i <= n,
            results.deep_view() == edits_prefix(word@, i as int),
        decreases n - i,
    {
        let ghost head_start = results.deep_view();
        let del = vec_deletion(&word_vec, i);
        let ghost pre = results.deep_view();
        results.push(string_from_chars(&del));
        proof {
            assert(results.deep_view() =~= pre.push(deletion(word@, i as int)));
        }
        if i + 1 < n {
            let tr = vec_transposition(&word_vec, i);
            let ghost pre = results.deep_view();
            results.push(string_from_chars(&tr));
            proof {
                assert(results.deep_view() =~= pre.push(transposition(word@, i as int)));
            }
        }
        proof {
            if i + 1 < n {
                assert(results.deep_view() =~= head_start + seq![
                    deletion(word@, i as int),
                    transposition(word@, i as int),
                ]);
            } else {
                assert(results.deep_view() =~= head_start + seq![deletion(word@, i as int)]);
            }
            assert(alpha_edits(word@, i as int, alphabet_spec().take(0)) =~= Seq::<
                Seq<char>,
            >::empty());
            assert(results.deep_view() =~= head_start + (if i < word@.len() - 1 {
                seq![deletion(word@, i as int), transposition(word@, i as int)]
            } else {
                seq![deletion(word@, i as int)]
            }) + alpha_edits(word@, i as int, alphabet_spec().take(0)));
        }
        let mut j: usize = 0;
        while j < a.len()
            invariant
                word_vec@ == word@,
                n == word@.len(),
                a@ == alphabet_spec(),
                i < n,
                j <= a@.len(),
                results.deep_view() =~= head_start + (if i < word@.len() - 1 {
                    seq![deletion(word@, i as int), transposition(word@, i as int)]
                } else {
                    seq![deletion(word@, i as int)]
                }) + alpha_edits(word@, i as int, alphabet_spec().take(j as int)),
            decreases a@.len() - j,
        {
            let c = a[j];
            let alt = vec_alteration(&word_vec, i, c);
            let ghost pre = results.deep_view();
            results.push(string_from_chars(&alt));
            proof {
                assert(results.deep_view() =~= pre.push(alteration(word@, i as int, c)));
            }
            let ins = vec_insertion(&word_vec, i, c);
            let ghost pre2 = results.deep_view();
            results.push(string_from_chars(&ins));
            proof {
                assert(results.deep_view() =~= pre2.push(insertion(word@, i as int, c)));
                assert(alphabet_spec().take(j + 1).drop_last() =~= alphabet_spec().take(j as int));
                assert(alphabet_spec().take(j + 1).last() == alphabet_spec()[j as int]);
                assert(alpha_edits(word@, i as int, alphabet_spec().take(j + 1)) =~= alpha_edits(
                    word@,
                    i as int,
                    alphabet_spec().take(j as int),
                ) + seq![alteration(word@, i as int, c), insertion(word@, i as int, c)]);
            }
            j = j + 1;
        }
        proof {
            assert(alphabet_spec().take(alphabet_spec().len() as int) =~= alphabet_spec());
            assert(results.deep_view() =~= edits_prefix(word@, i as int) + edit_block(
                word@,
                i as int,
            ));
            assert(results.deep_view() =~= edits_prefix(word@, i + 1));
        }
        i = i + 1;
    }
    results
}

/// A candidate fold state: the best in-dictionary candidate seen so far,
/// with its frequency.
pub open spec fn better(
    st: Option<(Seq<char>, usize)>,
    c: Seq<char>,
    f: usize,
) -> Option<(Seq<char>, usize)> {
    match st {
        None => Some((c, f)),
        Some(p) => if f > p.1 {
            Some((c, f))
        } else {
            st
        },
    }
}

/// One fold step: a candidate absent from the dictionary changes nothing;
/// one present replaces the best only when strictly more frequent.
pub open spec fn best_step(
    words: Seq<(String, usize)>,
    st: Option<(Seq<char>, usize)>,
    c: Seq<char>,
) -> Option<(Seq<char>, usize)> {
    match word_freq(words, c) {
        None => st,
        Some(f) => better(st, c, f),
    }
}

/// The maximum fold over a candidate list, started from `st`.
pub open spec fn best_from(
    words: Seq<(String, usize)>,
    st: Option<(Seq<char>, usize)>,
    cands: Seq<Seq<char>>,
) -> Option<(Seq<char>, usize)>
    decreases cands.len(),
{
    if cands.len() == 0 {
        st
    } else {
        best_step(words, best_from(words, st, cands.drop_last()), cands.last())
    }
}

/// Folding over a concatenation folds over the parts in turn.
proof fn lemma_best_from_concat(
    words: Seq<(String, usize)>,
    st: Option<(Seq<char>, usize)>,
    a: Seq<Seq<char>>,
    b: Seq<Seq<char>>,
)
    ensures
        best_from(words, st, a + b) == best_from(words, best_from(words, st, a), b),
    decreases b.len(),
{
    if b.len() == 0 {
        assert(a + b =~= a);
    } else {
        assert((a + b).drop_last() =~= a + b.drop_last());
        assert((a + b).last() == b.last());
        lemma_best_from_concat(words, st, a, b.drop_last());
    }
}

/// The single-edit variations of every candidate, concatenated in order:
/// the candidate set at edit distance two.
pub open spec fn edits_of_each(cands: Seq<Seq<char>>) -> Seq<Seq<char>>
    decreases cands.len(),
{
    if cands.len() == 0 {
        Seq::empty()
    } else {
        edits_of_each(cands.drop_last()) + edits_seq(cands.last())
    }
}

/// What correction returns: the word itself when no dictionary is given
/// or the word is already known; otherwise the most frequent in-dictionary
/// candidate at edit distance one, then at distance two; the word itself
/// when neither distance yields one.
pub open spec fn spec_correct(word: Seq<char>, dictionary: Option<Dictionary>) -> Seq<char> {
    match dictionary {
        None => word,
        Some(d) => if word_freq(d.words@, word) is Some {
            word
        } else {
            match best_from(d.words@, None, edits_seq(word)) {
                Some(p) => p.0,
                None => match best_from(d.words@, None, edits_of_each(edits_seq(word))) {
                    Some(p) => p.0,
                    None => word,
                },
            }
        },
    }
}

/// The view of an exec fold state.
pub open spec fn best_view(st: Option<(String, usize)>) -> Option<(Seq<char>, usize)> {
    match st {
        None => None,
        Some(p) => Some((p.0@, p.1)),
    }
}

/// Fold one candidate into the running best.
fn consider(dict: &Dictionary, best: Option<(String, usize)>, cand: &String) -> (r: Option<
    (String, usize),
>)
    ensures
        best_view(r) == best_step(dict.words@, best_view(best), cand@),
{
    match dict.freq_of(cand.as_str()) {
        None => best,
        Some(f) => {
            let replace = match &best {
                None => true,
                Some(p) => f > p.1,
            };
            if replace {
                Some((cand.clone(), f))
            } else {
                best
            }
        },
    }
}

/// Propose the most plausible spelling of `word`: the word itself when it
/// is already in the dictionary or no dictionary is supplied, otherwise
/// the most frequent dictionary word at edit distance one, then two, and
/// the word unchanged when there is none.
pub fn correct(word: String, dictionary: &Option<Dictionary>) -> (r: String)
    ensures
        r@ == spec_correct(word@, *dictionary),
{
    match dictionary {
        None => word,
        Some(dict) => {
            if dict.contains_key(word.as_str()) {
                return word;
            }
            let edits_w = edits(word.as_str());
            let ghost es = edits_seq(word@);

            // Try to find an edit of the current word in the dictionary.
            let mut best: Option<(String, usize)> = None;
            let mut i: usize = 0;
            while i < edits_w.len()
                invariant
                    edits_w.deep_view() == es,
                    i <= es.len(),
                    best_view(best) == best_from(dict.words@, None, es.take(i as int)),
                decreases es.len() - i,
            {
                proof {
                    assert(es.take(i + 1).drop_last() =~= es.take(i as int));
                    assert(es.take(i + 1).last() == es[i as int]);
                }
                best = consider(dict, best, &edits_w[i]);
                i = i + 1;
            }
            proof {
                assert(es.take(es.len() as int) =~= es);
            }
            // Return the most likely word among possible variations.
            if let Some(p) = best {
                return p.0;
            }

            // Try to find the correct word among the edits of the edits.
            let mut best2: Option<(String, usize)> = None;
            let mut i: usize = 0;
            while i < edits_w.len()
                invariant
                    edits_w.deep_view() == es,
                    i <= es.len(),
                    best_view(best2) == best_from(
                        dict.words@,
                        None,
                        edits_of_each(es.take(i as int)),
                    ),
                decreases es.len() - i,
            {
                let second = edits(edits_w[i].as_str());
                let ghost es2 = edits_seq(es[i as int]);
                let ghost start = best_view(best2);
                let mut j: usize = 0;
                while j < second.len()
                    invariant
                        second.deep_view() == es2,
                        j <= es2.len(),
                        best_view(best2) == best_from(dict.words@, start, es2.take(j as int)),
                    decreases es2.len() - j,
                {
                    proof {
                        assert(es2.take(j + 1).drop_last() =~= es2.take(j as int));
                        assert(es2.take(j + 1).last() == es2[j as int]);
                    }
                    best2 = consider(dict, best2, &second[j]);
                    j = j + 1;
                }
                proof {
                    assert(es2.take(es2.len() as int) =~= es2);
                    assert(es.take(i + 1).drop_last() =~= es.take(i as int));
                    assert(es.take(i + 1).last() == es[i as int]);
                    assert(edits_of_each(es.take(i + 1)) == edits_of_each(es.take(i as int))
                        + es2);
                    lemma_best_from_concat(
                        dict.words@,
                        None,
                        edits_of_each(es.take(i as int)),
                        es2,
                    );
                }
                i = i + 1;
            }
            proof {
                assert(es.take(es.len() as int) =~= es);
            }
            if let Some(p) = best2 {
                return p.0;
            }

            // Can't find anything, return the word itself.
            word
        },
    }
}

/// A word already in the dictionary is never changed by correction.
pub proof fn lemma_correct_known_word(word: Seq<char>, dict: Dictionary)
    requires
        word_freq(dict.words@, word) is Some,
    ensures
        spec_correct(word, Some(dict)) == word,
{
}

} // verus!
