//! The text-to-tokens pipeline shared by indexing and querying:
//! tokenization, optional case folding, stopword removal.

use vstd::prelude::*;
use vstd::hash_set::StringHashSet;
use crate::chars::lowercase_of;
use crate::tokenizer::{
    lemma_tokens_are_words, lemma_tokens_of_concat, lemma_tokens_of_word, tokenize, tokens_of,
};

verus! {

/// A set of words that are left out of the index and of queries.
pub struct Stopwords {
    words: StringHashSet,
}

impl View for Stopwords {
    type V = Set<Seq<char>>;

    closed spec fn view(&self) -> Set<Seq<char>> {
        self.words@
    }
}

impl Stopwords {
    /// The empty set: nothing is a stopword.
    pub fn new() -> (stopwords: Self)
        ensures
            stopwords@ == Set::<Seq<char>>::empty(),
    {
        Stopwords { words: StringHashSet::new() }
    }

    /// The set that holds exactly the given words.
    pub fn from_words(words: &Vec<String>) -> (stopwords: Self)
        ensures
            stopwords@ == words.deep_view().to_set(),
    {
        let mut set = StringHashSet::new();
        let mut i: usize = 0;
        assert(words.deep_view().take(0).to_set() =~= Set::<Seq<char>>::empty());
        while i < words.len()
            invariant
                i <= words.len(),
                set@ == words.deep_view().take(i as int).to_set(),
            decreases words.len() - i,
        {
            let word = words[i].clone();
            proof {
                let all = words.deep_view();
                assert(all.take(i + 1) =~= all.take(i as int).push(word@));
                all.take(i as int).lemma_push_to_set_commute(word@);
            }
            set.insert(word);
            i += 1;
        }
        assert(words.deep_view().take(words.len() as int) =~= words.deep_view());
        Stopwords { words: set }
    }

    /// Adds one word to the set.
    pub fn insert(&mut self, word: &str)
        ensures
            final(self)@ == old(self)@.insert(word@),
    {
        self.words.insert(word.to_owned());
    }

    /// Whether `word` is a stopword. Only an exact match counts.
    pub fn contains(&self, word: &str) -> (found: bool)
        ensures
            found == self@.contains(word@),
    {
        self.words.contains(word)
    }
}

/// The tokens that are no stopword, in their order.
pub open spec fn without_stopwords(tokens: Seq<Seq<char>>, stopwords: Set<Seq<char>>) -> Seq<
    Seq<char>,
> {
    tokens.filter(|t: Seq<char>| !stopwords.contains(t))
}

/// The tokens as they enter the index: lowercased where case is folded,
/// unchanged where it is not.
pub open spec fn normalized(tokens: Seq<Seq<char>>, fold_case: bool) -> Seq<Seq<char>> {
    if fold_case {
        tokens.map_values(|t: Seq<char>| lowercase_of(t))
    } else {
        tokens
    }
}

/// The token sequence of a text under a configuration: tokenize, fold case
/// if asked to, then drop the stopwords.
pub open spec fn analysis(text: Seq<char>, stopwords: Set<Seq<char>>, fold_case: bool) -> Seq<
    Seq<char>,
> {
    without_stopwords(normalized(tokens_of(text), fold_case), stopwords)
}

/// The analysis of two texts joined by a space is the analysis of the
/// first followed by the analysis of the second.
pub proof fn lemma_analysis_concat(
    a: Seq<char>,
    b: Seq<char>,
    stopwords: Set<Seq<char>>,
    fold_case: bool,
)
    ensures
        analysis(a + seq![' '] + b, stopwords, fold_case) == analysis(a, stopwords, fold_case)
            + analysis(b, stopwords, fold_case),
{
    lemma_tokens_of_concat(a, b);
    let ta = tokens_of(a);
    let tb = tokens_of(b);
    assert(normalized(ta + tb, fold_case) =~= normalized(ta, fold_case) + normalized(
        tb,
        fold_case,
    ));
    Seq::filter_distributes_over_add(
        normalized(ta, fold_case),
        normalized(tb, fold_case),
        |t: Seq<char>| !stopwords.contains(t),
    );
}

/// Without case folding, a token of a text that is no stopword survives
/// the analysis of that text, and is, read as a text of its own, analyzed
/// to itself alone.
pub proof fn lemma_analysis_of_token(text: Seq<char>, token: Seq<char>, stopwords: Set<Seq<char>>)
    requires
        tokens_of(text).contains(token),
        !stopwords.contains(token),
    ensures
        analysis(text, stopwords, false).contains(token),
        analysis(token, stopwords, false) == seq![token],
{
    let keep = |t: Seq<char>| !stopwords.contains(t);
    let k = choose|k: int| 0 <= k < tokens_of(text).len() && tokens_of(text)[k] == token;
    tokens_of(text).lemma_filter_contains(keep, k);
    lemma_tokens_are_words(text);
    lemma_tokens_of_word(token);
    assert(seq![token].filter(keep) =~= seq![token]) by {
        reveal(Seq::filter);
        assert(seq![token].drop_last() =~= Seq::<Seq<char>>::empty());
        assert(seq![token].last() == token);
        assert(Seq::<Seq<char>>::empty().filter(keep) =~= Seq::<Seq<char>>::empty());
    }
}

/// Removes every token that is a stopword and keeps the others in order.
pub fn stopword_filter(tokens: &Vec<String>, stop_words: &Stopwords) -> (kept: Vec<String>)
    ensures
        kept.deep_view() == without_stopwords(tokens.deep_view(), stop_words@),
{
    let mut kept: Vec<String> = Vec::new();
    let mut i: usize = 0;
    let ghost all = tokens.deep_view();
    let ghost pred = |t: Seq<char>| !stop_words@.contains(t);
    assert(all.take(0) =~= Seq::<Seq<char>>::empty());
    assert(kept.deep_view() =~= Seq::<Seq<char>>::empty());
    while i < tokens.len()
        invariant
            i <= tokens.len(),
            all == tokens.deep_view(),
            pred == (|t: Seq<char>| !stop_words@.contains(t)),
            kept.deep_view() == all.take(i as int).filter(pred),
        decreases tokens.len() - i,
    {
        let ghost before = kept.deep_view();
        proof {
            assert(all.take(i + 1) =~= all.take(i as int).push(tokens[i as int]@));
            all.take(i as int).lemma_filter_push(tokens[i as int]@, pred);
        }
        if !stop_words.contains(tokens[i].as_str()) {
            kept.push(tokens[i].clone());
            assert(kept.deep_view() =~= before.push(tokens[i as int]@));
        }
        i += 1;
    }
    assert(all.take(tokens.len() as int) =~= all);
    kept
}

/// Lowercases every token.
fn lowercase_all(tokens: &Vec<String>) -> (folded: Vec<String>)
    ensures
        folded.deep_view() == normalized(tokens.deep_view(), true),
{
    let mut folded: Vec<String> = Vec::new();
    let mut i: usize = 0;
    while i < tokens.len()
        invariant
            i <= tokens.len(),
            folded.len() == i,
            forall|k: int| 0 <= k < i ==> (#[trigger] folded[k])@ == lowercase_of(tokens[k]@),
        decreases tokens.len() - i,
    {
        folded.push(tokens[i].as_str().to_lowercase());
        i += 1;
    }
    assert(folded.deep_view() =~= normalized(tokens.deep_view(), true));
    folded
}

/// The tokens of `text` that are no stopword, case left as it is.
pub fn analyze(text: &str, stop_words: &Stopwords) -> (tokens: Vec<String>)
    ensures
        tokens.deep_view() == analysis(text@, stop_words@, false),
{
    let tokens = tokenize(text);
    stopword_filter(&tokens, stop_words)
}

/// The configuration of the pipeline: which words are stopwords, and
/// whether case is folded. An index analyzes documents and queries with the
/// same `Analyzer`, so a word gives the same token in both.
pub struct Analyzer {
    stopwords: Stopwords,
    fold_case: bool,
}

impl Analyzer {
    /// The stopwords this analyzer removes.
    pub closed spec fn stopwords(&self) -> Set<Seq<char>> {
        self.stopwords@
    }

    /// Whether tokens are lowercased.
    pub closed spec fn folds_case(&self) -> bool {
        self.fold_case
    }

    /// The tokens this analyzer gives for `text`.
    pub open spec fn analyzed(&self, text: Seq<char>) -> Seq<Seq<char>> {
        analysis(text, self.stopwords(), self.folds_case())
    }

    /// A case-sensitive analyzer with the given stopwords.
    pub fn new(stopwords: Stopwords) -> (analyzer: Self)
        ensures
            analyzer.stopwords() == stopwords@,
            !analyzer.folds_case(),
    {
        Analyzer { stopwords, fold_case: false }
    }

    /// An analyzer with the given stopwords that lowercases every token
    /// before the stopwords are removed.
    pub fn with_case_folding(stopwords: Stopwords) -> (analyzer: Self)
        ensures
            analyzer.stopwords() == stopwords@,
            analyzer.folds_case(),
    {
        Analyzer { stopwords, fold_case: true }
    }

    /// Whether this analyzer lowercases tokens.
    pub fn is_case_folding(&self) -> (fold: bool)
        ensures
            fold == self.folds_case(),
    {
        self.fold_case
    }

    /// Whether `word` is one of this analyzer's stopwords.
    pub fn is_stopword(&self, word: &str) -> (found: bool)
        ensures
            found == self.stopwords().contains(word@),
    {
        self.stopwords.contains(word)
    }

    /// Turns `text` into tokens: tokenize, fold case if configured, drop
    /// the stopwords.
    pub fn analyze(&self, text: &str) -> (tokens: Vec<String>)
        ensures
            tokens.deep_view() == self.analyzed(text@),
    {
        let tokens = tokenize(text);
        if self.fold_case {
            let folded = lowercase_all(&tokens);
            stopword_filter(&folded, &self.stopwords)
        } else {
            stopword_filter(&tokens, &self.stopwords)
        }
    }
}

} // verus!
