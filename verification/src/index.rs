//! The index: an analyzer and a postings store behind the two operations
//! that callers use, `insert` and `search`.

use vstd::prelude::*;
use crate::analyzer::{analysis, Analyzer, Stopwords};
use crate::postings::{
    is_ascending, lemma_with_postings, postings_of, well_formed, with_postings, PostingsStore,
};
use crate::query::{conjunction, evaluate, matches_all, Query};

verus! {

/// A unit of text to index. The id is chosen by the caller and is what a
/// search returns; the index reads nothing of a document but its text.
#[derive(Debug, Clone)]
pub struct Document {
    pub id: usize,
    pub text: String,
}

/// The store after each of `docs` was analyzed and recorded, first to
/// last, under the given configuration.
pub open spec fn with_documents(
    store: Map<Seq<char>, Seq<usize>>,
    docs: Seq<Document>,
    stopwords: Set<Seq<char>>,
    fold_case: bool,
) -> Map<Seq<char>, Seq<usize>>
    decreases docs.len(),
{
    if docs.len() == 0 {
        store
    } else {
        with_postings(
            with_documents(store, docs.drop_last(), stopwords, fold_case),
            analysis(docs.last().text@, stopwords, fold_case),
            docs.last().id,
        )
    }
}

/// Whether one of `docs` has the id `id` and gives the token `token`.
pub open spec fn posted_by(
    docs: Seq<Document>,
    stopwords: Set<Seq<char>>,
    fold_case: bool,
    token: Seq<char>,
    id: usize,
) -> bool {
    exists|k: int|
        #![trigger docs[k]]
        0 <= k < docs.len() && docs[k].id == id && analysis(
            docs[k].text@,
            stopwords,
            fold_case,
        ).contains(token)
}

/// Indexing a batch keeps the store well formed. Afterwards a list holds
/// an id exactly when it held it before or a document of the batch with
/// that id gives the token.
pub proof fn lemma_with_documents(
    store: Map<Seq<char>, Seq<usize>>,
    docs: Seq<Document>,
    stopwords: Set<Seq<char>>,
    fold_case: bool,
)
    requires
        well_formed(store),
    ensures
        well_formed(with_documents(store, docs, stopwords, fold_case)),
        forall|t: Seq<char>, x: usize|
            #![trigger postings_of(with_documents(store, docs, stopwords, fold_case), t).contains(x)]
            postings_of(with_documents(store, docs, stopwords, fold_case), t).contains(x)
                <==> postings_of(store, t).contains(x) || posted_by(
                docs,
                stopwords,
                fold_case,
                t,
                x,
            ),
    decreases docs.len(),
{
    let after = with_documents(store, docs, stopwords, fold_case);
    if docs.len() > 0 {
        let front = docs.drop_last();
        let mid = with_documents(store, front, stopwords, fold_case);
        let tokens = analysis(docs.last().text@, stopwords, fold_case);
        lemma_with_documents(store, front, stopwords, fold_case);
        lemma_with_postings(mid, tokens, docs.last().id);
        assert forall|t: Seq<char>, x: usize|
            #![trigger postings_of(after, t).contains(x)]
            postings_of(after, t).contains(x) <==> postings_of(store, t).contains(x) || posted_by(
                docs,
                stopwords,
                fold_case,
                t,
                x,
            ) by {
            assert(postings_of(after, t).contains(x) <==> postings_of(mid, t).contains(x) || (
            tokens.contains(t) && x == docs.last().id));
            assert(postings_of(mid, t).contains(x) <==> postings_of(store, t).contains(x)
                || posted_by(front, stopwords, fold_case, t, x));
            if posted_by(front, stopwords, fold_case, t, x) {
                let k = choose|k: int|
                    #![trigger front[k]]
                    0 <= k < front.len() && front[k].id == x && analysis(
                        front[k].text@,
                        stopwords,
                        fold_case,
                    ).contains(t);
                assert(docs[k] == front[k]);
            }
            if tokens.contains(t) && x == docs.last().id {
                assert(docs[docs.len() - 1] == docs.last());
            }
            if posted_by(docs, stopwords, fold_case, t, x) {
                let k = choose|k: int|
                    #![trigger docs[k]]
                    0 <= k < docs.len() && docs[k].id == x && analysis(
                        docs[k].text@,
                        stopwords,
                        fold_case,
                    ).contains(t);
                if k < front.len() {
                    assert(front[k] == docs[k]);
                }
            }
        }
    } else {
        assert forall|t: Seq<char>, x: usize| !posted_by(docs, stopwords, fold_case, t, x) by {}
    }
}

/// An inverted index: for every token the ascending list of the documents
/// that hold it. Documents and queries pass through the same analyzer.
pub struct InvertedIndex {
    analyzer: Analyzer,
    store: PostingsStore,
}

impl View for InvertedIndex {
    type V = Map<Seq<char>, Seq<usize>>;

    closed spec fn view(&self) -> Map<Seq<char>, Seq<usize>> {
        self.store@
    }
}

impl InvertedIndex {
    /// The stopwords of this index.
    pub closed spec fn stopwords(&self) -> Set<Seq<char>> {
        self.analyzer.stopwords()
    }

    /// Whether this index folds case.
    pub closed spec fn folds_case(&self) -> bool {
        self.analyzer.folds_case()
    }

    /// The tokens that this index gives for `text`, a document's or a
    /// query's alike.
    pub open spec fn analyzed(&self, text: Seq<char>) -> Seq<Seq<char>> {
        analysis(text, self.stopwords(), self.folds_case())
    }

    /// What a search for `query` returns on this index.
    pub open spec fn found(&self, query: Seq<char>) -> Seq<usize> {
        conjunction(self@, self.analyzed(query))
    }

    /// An empty index that is case-sensitive and has no stopwords.
    pub fn new() -> (index: Self)
        ensures
            index@ == Map::<Seq<char>, Seq<usize>>::empty(),
            index.stopwords() == Set::<Seq<char>>::empty(),
            !index.folds_case(),
    {
        InvertedIndex { analyzer: Analyzer::new(Stopwords::new()), store: PostingsStore::new() }
    }

    /// An empty index that analyzes text with `analyzer`.
    pub fn with_analyzer(analyzer: Analyzer) -> (index: Self)
        ensures
            index@ == Map::<Seq<char>, Seq<usize>>::empty(),
            index.stopwords() == analyzer.stopwords(),
            index.folds_case() == analyzer.folds_case(),
    {
        InvertedIndex { analyzer, store: PostingsStore::new() }
    }

    /// The analyzer of this index.
    pub fn analyzer(&self) -> (analyzer: &Analyzer)
        ensures
            analyzer.stopwords() == self.stopwords(),
            analyzer.folds_case() == self.folds_case(),
    {
        &self.analyzer
    }

    /// The list stored for `token`, or `None` where no document gave that
    /// token.
    pub fn lookup(&self, token: &str) -> (found: Option<&Vec<usize>>)
        ensures
            match found {
                Some(list) => self@.contains_key(token@) && list@ == self@[token@] && list@.len()
                    > 0 && is_ascending(list@),
                None => !self@.contains_key(token@),
            },
            well_formed(self@),
    {
        self.store.lookup(token)
    }

    /// Indexes a batch: each document is analyzed, and its id goes into the
    /// list of each of its tokens. Ids may come in any order; a document
    /// that is indexed again changes nothing; a document without tokens adds
    /// nothing.
    pub fn insert(&mut self, docs: Vec<Document>)
        ensures
            final(self)@ == with_documents(
                old(self)@,
                docs@,
                old(self).stopwords(),
                old(self).folds_case(),
            ),
            final(self).stopwords() == old(self).stopwords(),
            final(self).folds_case() == old(self).folds_case(),
            well_formed(final(self)@),
            forall|t: Seq<char>, x: usize|
                #![trigger postings_of(final(self)@, t).contains(x)]
                postings_of(final(self)@, t).contains(x) <==> postings_of(old(self)@, t).contains(
                    x,
                ) || posted_by(docs@, old(self).stopwords(), old(self).folds_case(), t, x),
    {
        let ghost stopwords = self.stopwords();
        let ghost fold_case = self.folds_case();
        proof {
            use_type_invariant(&self.store);
            lemma_with_documents(self@, docs@, stopwords, fold_case);
        }
        let mut k: usize = 0;
        assert(docs@.take(0) =~= Seq::<Document>::empty());
        while k < docs.len()
            invariant
                k <= docs.len(),
                self.analyzer == old(self).analyzer,
                stopwords == old(self).stopwords(),
                fold_case == old(self).folds_case(),
                self@ == with_documents(old(self)@, docs@.take(k as int), stopwords, fold_case),
            decreases docs.len() - k,
        {
            proof {
                assert(docs@.take(k + 1).drop_last() =~= docs@.take(k as int));
                assert(docs@.take(k + 1).last() == docs[k as int]);
            }
            let tokens = self.analyzer.analyze(docs[k].text.as_str());
            self.store.add_all(&tokens, docs[k].id);
            k += 1;
        }
        assert(docs@.take(docs.len() as int) =~= docs@);
    }

    /// The documents that hold every token of `query`, ascending by id and
    /// each once. A query without tokens, and a query with a token that no
    /// document holds, finds nothing.
    pub fn search(&self, query: &str) -> (ids: Vec<usize>)
        ensures
            ids@ == self.found(query@),
            is_ascending(ids@),
            ids@.no_duplicates(),
            forall|id: usize| ids@.contains(id) <==> matches_all(self@, self.analyzed(query@), id),
    {
        let tokens = self.analyzer.analyze(query);
        evaluate(&self.store, &tokens)
    }
}

/// An inverted index that carries a name.
pub struct Index {
    name: String,
    index: InvertedIndex,
}

impl Index {
    /// The name given at construction.
    pub closed spec fn label(&self) -> Seq<char> {
        self.name@
    }

    /// The index behind the name.
    pub closed spec fn inner(&self) -> InvertedIndex {
        self.index
    }

    /// An empty index called `name`, case-sensitive and without stopwords.
    pub fn new(name: &str) -> (index: Self)
        ensures
            index.label() == name@,
            index.inner()@ == Map::<Seq<char>, Seq<usize>>::empty(),
            index.inner().stopwords() == Set::<Seq<char>>::empty(),
            !index.inner().folds_case(),
    {
        Index { name: name.to_owned(), index: InvertedIndex::new() }
    }

    /// An empty index called `name` that analyzes text with `analyzer`.
    pub fn with_analyzer(name: &str, analyzer: Analyzer) -> (index: Self)
        ensures
            index.label() == name@,
            index.inner()@ == Map::<Seq<char>, Seq<usize>>::empty(),
            index.inner().stopwords() == analyzer.stopwords(),
            index.inner().folds_case() == analyzer.folds_case(),
    {
        Index { name: name.to_owned(), index: InvertedIndex::with_analyzer(analyzer) }
    }

    /// The name of this index.
    pub fn name(&self) -> (name: &str)
        ensures
            name@ == self.label(),
    {
        self.name.as_str()
    }

    /// Indexes a batch of documents, as `InvertedIndex::insert` does.
    pub fn insert(&mut self, docs: Vec<Document>)
        ensures
            final(self).label() == old(self).label(),
            final(self).inner()@ == with_documents(
                old(self).inner()@,
                docs@,
                old(self).inner().stopwords(),
                old(self).inner().folds_case(),
            ),
            final(self).inner().stopwords() == old(self).inner().stopwords(),
            final(self).inner().folds_case() == old(self).inner().folds_case(),
            well_formed(final(self).inner()@),
    {
        self.index.insert(docs);
    }

    /// The documents that hold every token of the query's text, ascending
    /// by id.
    pub fn search(&self, query: Query) -> (ids: Vec<usize>)
        ensures
            ids@ == self.inner().found(query.text@),
            is_ascending(ids@),
            ids@.no_duplicates(),
            forall|id: usize|
                ids@.contains(id) <==> matches_all(
                    self.inner()@,
                    self.inner().analyzed(query.text@),
                    id,
                ),
    {
        self.index.search(query.text.as_str())
    }
}

} // verus!
