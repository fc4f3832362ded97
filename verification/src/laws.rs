//! What holds of the index as a whole, stated over the store's view and
//! proved from the definitions.

use vstd::prelude::*;
use crate::analyzer::{analysis, lemma_analysis_concat, lemma_analysis_of_token};
use crate::index::{lemma_with_documents, with_documents, Document};
use crate::postings::{
    is_ascending, lemma_ascending_no_duplicates, lemma_ascending_unique, lemma_with_posting,
    postings_of, well_formed, with_postings,
};
use crate::query::{
    conjunction, lemma_conjunction_ascending, lemma_conjunction_matches,
    lemma_conjunction_unknown_token, matches_all,
};
use crate::tokenizer::{all_word_chars, lemma_tokens_of_word, tokens_of};

verus! {

/// A search returns an ascending list without duplicates, whatever the
/// query.
pub proof fn law_search_is_ascending(store: Map<Seq<char>, Seq<usize>>, tokens: Seq<Seq<char>>)
    requires
        well_formed(store),
    ensures
        is_ascending(conjunction(store, tokens)),
        conjunction(store, tokens).no_duplicates(),
{
    lemma_conjunction_ascending(store, tokens);
    lemma_ascending_no_duplicates(conjunction(store, tokens));
}

/// After a document was indexed, every query that has a token, and whose
/// tokens are all tokens of the document, finds the document.
pub proof fn law_indexed_document_matches(
    store: Map<Seq<char>, Seq<usize>>,
    doc: Document,
    stopwords: Set<Seq<char>>,
    fold_case: bool,
    query: Seq<Seq<char>>,
)
    requires
        well_formed(store),
        query.len() > 0,
        forall|k: int|
            0 <= k < query.len() ==> analysis(doc.text@, stopwords, fold_case).contains(
                #[trigger] query[k],
            ),
    ensures
        conjunction(with_documents(store, seq![doc], stopwords, fold_case), query).contains(doc.id),
{
    let docs = seq![doc];
    let after = with_documents(store, docs, stopwords, fold_case);
    lemma_with_documents(store, docs, stopwords, fold_case);
    assert forall|k: int| 0 <= k < query.len() implies postings_of(
        after,
        #[trigger] query[k],
    ).contains(doc.id) by {
        assert(docs[0] == doc);
        assert(postings_of(after, query[k]).contains(doc.id) <==> postings_of(
            store,
            query[k],
        ).contains(doc.id) || crate::index::posted_by(
            docs,
            stopwords,
            fold_case,
            query[k],
            doc.id,
        ));
    }
    lemma_conjunction_matches(after, query, doc.id);
}

/// Without case folding: where the text of a document holds the token
/// `word`, and `word` is no stopword, a search for `word` finds the
/// document once it is indexed.
pub proof fn law_indexed_document_is_found(
    store: Map<Seq<char>, Seq<usize>>,
    doc: Document,
    stopwords: Set<Seq<char>>,
    word: Seq<char>,
)
    requires
        well_formed(store),
        tokens_of(doc.text@).contains(word),
        !stopwords.contains(word),
    ensures
        conjunction(
            with_documents(store, seq![doc], stopwords, false),
            analysis(word, stopwords, false),
        ).contains(doc.id),
{
    lemma_analysis_of_token(doc.text@, word, stopwords);
    let query = analysis(word, stopwords, false);
    assert(query[0] == word);
    law_indexed_document_matches(store, doc, stopwords, false, query);
}

/// For two queries that each have a token, a search for the two joined by
/// a space finds exactly the documents that both searches find: it finds
/// no document that either of them misses.
pub proof fn law_joined_query_narrows(
    store: Map<Seq<char>, Seq<usize>>,
    stopwords: Set<Seq<char>>,
    fold_case: bool,
    a: Seq<char>,
    b: Seq<char>,
    id: usize,
)
    requires
        analysis(a, stopwords, fold_case).len() > 0,
        analysis(b, stopwords, fold_case).len() > 0,
    ensures
        conjunction(store, analysis(a + seq![' '] + b, stopwords, fold_case)).contains(id) <==> (
        conjunction(store, analysis(a, stopwords, fold_case)).contains(id) && conjunction(
            store,
            analysis(b, stopwords, fold_case),
        ).contains(id)),
{
    let ta = analysis(a, stopwords, fold_case);
    let tb = analysis(b, stopwords, fold_case);
    let both = ta + tb;
    lemma_analysis_concat(a, b, stopwords, fold_case);
    lemma_conjunction_matches(store, both, id);
    lemma_conjunction_matches(store, ta, id);
    lemma_conjunction_matches(store, tb, id);
    if matches_all(store, both, id) {
        assert forall|k: int| 0 <= k < ta.len() implies postings_of(store, #[trigger] ta[k]).contains(
            id,
        ) by {
            assert(both[k] == ta[k]);
        }
        assert forall|k: int| 0 <= k < tb.len() implies postings_of(store, #[trigger] tb[k]).contains(
            id,
        ) by {
            assert(both[ta.len() + k] == tb[k]);
        }
    }
    if matches_all(store, ta, id) && matches_all(store, tb, id) {
        assert forall|k: int| 0 <= k < both.len() implies postings_of(
            store,
            #[trigger] both[k],
        ).contains(id) by {
            if k < ta.len() {
                assert(both[k] == ta[k]);
            } else {
                assert(both[k] == tb[k - ta.len()]);
            }
        }
    }
}

/// Two queries with the same tokens, in whatever order and however often
/// repeated, have the same result.
pub proof fn law_token_order_is_irrelevant(
    store: Map<Seq<char>, Seq<usize>>,
    first: Seq<Seq<char>>,
    second: Seq<Seq<char>>,
)
    requires
        well_formed(store),
        forall|t: Seq<char>| first.contains(t) <==> second.contains(t),
    ensures
        conjunction(store, first) == conjunction(store, second),
{
    let r1 = conjunction(store, first);
    let r2 = conjunction(store, second);
    lemma_conjunction_ascending(store, first);
    lemma_conjunction_ascending(store, second);
    if first.len() > 0 {
        assert(first.contains(first[0]));
        assert(second.contains(first[0]));
    }
    if second.len() > 0 {
        assert(second.contains(second[0]));
        assert(first.contains(second[0]));
    }
    assert forall|id: usize| r1.contains(id) <==> r2.contains(id) by {
        lemma_conjunction_matches(store, first, id);
        lemma_conjunction_matches(store, second, id);
        if matches_all(store, first, id) {
            assert forall|k: int| 0 <= k < second.len() implies postings_of(
                store,
                #[trigger] second[k],
            ).contains(id) by {
                assert(second.contains(second[k]));
                let j = choose|j: int| 0 <= j < first.len() && first[j] == second[k];
                assert(postings_of(store, first[j]).contains(id));
            }
        }
        if matches_all(store, second, id) {
            assert forall|k: int| 0 <= k < first.len() implies postings_of(
                store,
                #[trigger] first[k],
            ).contains(id) by {
                assert(first.contains(first[k]));
                let j = choose|j: int| 0 <= j < second.len() && second[j] == first[k];
                assert(postings_of(store, second[j]).contains(id));
            }
        }
    }
    lemma_ascending_unique(r1, r2);
}

/// A query whose tokens are a rearrangement of another query's tokens has
/// the same result.
pub proof fn law_permuted_query(
    store: Map<Seq<char>, Seq<usize>>,
    first: Seq<Seq<char>>,
    second: Seq<Seq<char>>,
)
    requires
        well_formed(store),
        first.to_multiset() == second.to_multiset(),
    ensures
        conjunction(store, first) == conjunction(store, second),
{
    first.to_multiset_ensures();
    second.to_multiset_ensures();
    assert forall|t: Seq<char>| first.contains(t) <==> second.contains(t) by {
        assert(first.contains(t) <==> first.to_multiset().count(t) > 0);
        assert(second.contains(t) <==> second.to_multiset().count(t) > 0);
    }
    law_token_order_is_irrelevant(store, first, second);
}

/// Swapping the two halves of a query written with a space between them
/// does not change what is found.
pub proof fn law_swapped_query(
    store: Map<Seq<char>, Seq<usize>>,
    stopwords: Set<Seq<char>>,
    fold_case: bool,
    a: Seq<char>,
    b: Seq<char>,
)
    requires
        well_formed(store),
    ensures
        conjunction(store, analysis(a + seq![' '] + b, stopwords, fold_case)) == conjunction(
            store,
            analysis(b + seq![' '] + a, stopwords, fold_case),
        ),
{
    let ta = analysis(a, stopwords, fold_case);
    let tb = analysis(b, stopwords, fold_case);
    lemma_analysis_concat(a, b, stopwords, fold_case);
    lemma_analysis_concat(b, a, stopwords, fold_case);
    assert forall|t: Seq<char>| (ta + tb).contains(t) <==> (tb + ta).contains(t) by {
        vstd::seq_lib::lemma_seq_concat_contains_all_elements(ta, tb, t);
        vstd::seq_lib::lemma_seq_concat_contains_all_elements(tb, ta, t);
    }
    law_token_order_is_irrelevant(store, ta + tb, tb + ta);
}

/// Recording a document under tokens that all list it already changes
/// nothing.
pub proof fn law_known_postings_change_nothing(
    store: Map<Seq<char>, Seq<usize>>,
    tokens: Seq<Seq<char>>,
    id: usize,
)
    requires
        well_formed(store),
        forall|k: int| 0 <= k < tokens.len() ==> postings_of(store, #[trigger] tokens[k]).contains(id),
    ensures
        with_postings(store, tokens, id) == store,
    decreases tokens.len(),
{
    if tokens.len() > 0 {
        let front = tokens.drop_last();
        assert forall|k: int| 0 <= k < front.len() implies postings_of(
            store,
            #[trigger] front[k],
        ).contains(id) by {
            assert(front[k] == tokens[k]);
        }
        law_known_postings_change_nothing(store, front, id);
        assert(tokens.last() == tokens[tokens.len() - 1]);
        lemma_with_posting(store, tokens.last(), id);
    }
}

/// Indexing a batch a second time changes no postings list.
pub proof fn law_reinsert_changes_nothing(
    store: Map<Seq<char>, Seq<usize>>,
    docs: Seq<Document>,
    stopwords: Set<Seq<char>>,
    fold_case: bool,
)
    requires
        well_formed(store),
    ensures
        with_documents(
            with_documents(store, docs, stopwords, fold_case),
            docs,
            stopwords,
            fold_case,
        ) == with_documents(store, docs, stopwords, fold_case),
{
    let once = with_documents(store, docs, stopwords, fold_case);
    lemma_with_documents(store, docs, stopwords, fold_case);
    assert forall|k: int, t: Seq<char>|
        0 <= k < docs.len() && analysis(
            (#[trigger] docs[k]).text@,
            stopwords,
            fold_case,
        ).contains(t) implies #[trigger] postings_of(once, t).contains(docs[k].id) by {
        assert(crate::index::posted_by(docs, stopwords, fold_case, t, docs[k].id));
    }
    lemma_listed_batch_changes_nothing(once, docs, docs.len() as int, stopwords, fold_case);
    assert(docs.take(docs.len() as int) =~= docs);
}

/// Indexing the first `n` documents of a batch whose postings the store
/// holds already changes nothing.
proof fn lemma_listed_batch_changes_nothing(
    store: Map<Seq<char>, Seq<usize>>,
    docs: Seq<Document>,
    n: int,
    stopwords: Set<Seq<char>>,
    fold_case: bool,
)
    requires
        well_formed(store),
        0 <= n <= docs.len(),
        forall|k: int, t: Seq<char>|
            0 <= k < docs.len() && analysis(
                (#[trigger] docs[k]).text@,
                stopwords,
                fold_case,
            ).contains(t) ==> #[trigger] postings_of(store, t).contains(docs[k].id),
    ensures
        with_documents(store, docs.take(n), stopwords, fold_case) == store,
    decreases n,
{
    if n > 0 {
        lemma_listed_batch_changes_nothing(store, docs, n - 1, stopwords, fold_case);
        let part = docs.take(n);
        assert(part.drop_last() =~= docs.take(n - 1));
        assert(part.last() == docs[n - 1]);
        let tokens = analysis(docs[n - 1].text@, stopwords, fold_case);
        assert forall|k: int| 0 <= k < tokens.len() implies postings_of(
            store,
            #[trigger] tokens[k],
        ).contains(docs[n - 1].id) by {
            assert(tokens.contains(tokens[k]));
        }
        law_known_postings_change_nothing(store, tokens, docs[n - 1].id);
    }
}

/// Indexing one document a second time changes no postings list.
pub proof fn law_reinsert_document_changes_nothing(
    store: Map<Seq<char>, Seq<usize>>,
    doc: Document,
    stopwords: Set<Seq<char>>,
    fold_case: bool,
)
    requires
        well_formed(store),
    ensures
        with_documents(
            with_documents(store, seq![doc], stopwords, fold_case),
            seq![doc],
            stopwords,
            fold_case,
        ) == with_documents(store, seq![doc], stopwords, fold_case),
{
    law_reinsert_changes_nothing(store, seq![doc], stopwords, fold_case);
}

/// A query with a token that the store never saw finds nothing.
pub proof fn law_unseen_token_finds_nothing(
    store: Map<Seq<char>, Seq<usize>>,
    tokens: Seq<Seq<char>>,
    k: int,
)
    requires
        0 <= k < tokens.len(),
        !store.contains_key(tokens[k]),
    ensures
        conjunction(store, tokens) == Seq::<usize>::empty(),
{
    lemma_conjunction_unknown_token(store, tokens, k);
}

/// A search for a single token that the store never saw finds nothing.
pub proof fn law_unseen_word_finds_nothing(store: Map<Seq<char>, Seq<usize>>, token: Seq<char>)
    requires
        !store.contains_key(token),
    ensures
        conjunction(store, seq![token]) == Seq::<usize>::empty(),
{
    lemma_conjunction_unknown_token(store, seq![token], 0);
}

/// Without case folding: a search for a word that the store never saw as
/// a token finds nothing.
pub proof fn law_unseen_word_search_finds_nothing(
    store: Map<Seq<char>, Seq<usize>>,
    stopwords: Set<Seq<char>>,
    word: Seq<char>,
)
    requires
        word.len() > 0,
        all_word_chars(word),
        !store.contains_key(word),
    ensures
        conjunction(store, analysis(word, stopwords, false)) == Seq::<usize>::empty(),
{
    lemma_tokens_of_word(word);
    let query = analysis(word, stopwords, false);
    if query.len() > 0 {
        assert(query.contains(query[0]));
        seq![word].lemma_filter_contains_rev(|t: Seq<char>| !stopwords.contains(t), query[0]);
        let k = choose|k: int| 0 <= k < seq![word].len() && seq![word][k] == query[0];
        lemma_conjunction_unknown_token(store, query, 0);
    }
}

/// A query without tokens finds nothing.
pub proof fn law_empty_query_finds_nothing(store: Map<Seq<char>, Seq<usize>>)
    ensures
        conjunction(store, Seq::<Seq<char>>::empty()) == Seq::<usize>::empty(),
{
}

/// Indexing a document without tokens changes nothing.
pub proof fn law_document_without_tokens(
    store: Map<Seq<char>, Seq<usize>>,
    doc: Document,
    stopwords: Set<Seq<char>>,
    fold_case: bool,
)
    requires
        analysis(doc.text@, stopwords, fold_case).len() == 0,
    ensures
        with_documents(store, seq![doc], stopwords, fold_case) == store,
{
    let docs = seq![doc];
    assert(docs.last() == doc);
    assert(docs.drop_last() =~= Seq::<Document>::empty());
    assert(with_documents(store, docs.drop_last(), stopwords, fold_case) == store);
    assert(with_postings(store, analysis(doc.text@, stopwords, fold_case), doc.id) == store);
}

/// Indexing only adds: every id a list held before, it holds afterwards.
pub proof fn law_index_grows(
    store: Map<Seq<char>, Seq<usize>>,
    docs: Seq<Document>,
    stopwords: Set<Seq<char>>,
    fold_case: bool,
    token: Seq<char>,
    id: usize,
)
    requires
        well_formed(store),
        postings_of(store, token).contains(id),
    ensures
        postings_of(with_documents(store, docs, stopwords, fold_case), token).contains(id),
        well_formed(with_documents(store, docs, stopwords, fold_case)),
{
    lemma_with_documents(store, docs, stopwords, fold_case);
    let after = with_documents(store, docs, stopwords, fold_case);
    assert(postings_of(after, token).contains(id) <==> postings_of(store, token).contains(id)
        || crate::index::posted_by(docs, stopwords, fold_case, token, id));
}

} // verus!
