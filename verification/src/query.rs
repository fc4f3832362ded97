//! Conjunctive query evaluation: the documents that hold every token of a
//! query, found by intersecting the tokens' postings lists.

use vstd::prelude::*;
use crate::postings::{
    common, intersection, is_ascending, lemma_ascending_no_duplicates, lemma_common_ascending,
    lemma_common_contains, postings_of, well_formed, PostingsStore,
};

verus! {

/// A search request: the text whose tokens a document must all hold.
#[derive(Debug, Clone)]
pub struct Query {
    pub text: String,
}

/// Whether document `id` stands in the list of every one of `tokens`. No
/// document matches an empty query.
pub open spec fn matches_all(
    store: Map<Seq<char>, Seq<usize>>,
    tokens: Seq<Seq<char>>,
    id: usize,
) -> bool {
    tokens.len() > 0 && forall|k: int|
        #![trigger tokens[k]]
        0 <= k < tokens.len() ==> postings_of(store, tokens[k]).contains(id)
}

/// The result of a query: the list of the first token, intersected with
/// the list of each further token in turn; empty for a query without
/// tokens.
pub open spec fn conjunction(store: Map<Seq<char>, Seq<usize>>, tokens: Seq<Seq<char>>) -> Seq<
    usize,
>
    decreases tokens.len(),
{
    if tokens.len() == 0 {
        Seq::empty()
    } else if tokens.len() == 1 {
        postings_of(store, tokens[0])
    } else {
        common(conjunction(store, tokens.drop_last()), postings_of(store, tokens.last()))
    }
}

/// A document is in the result exactly when it matches every token.
pub proof fn lemma_conjunction_matches(
    store: Map<Seq<char>, Seq<usize>>,
    tokens: Seq<Seq<char>>,
    id: usize,
)
    ensures
        conjunction(store, tokens).contains(id) <==> matches_all(store, tokens, id),
    decreases tokens.len(),
{
    if tokens.len() == 0 {
        let none = conjunction(store, tokens);
        if none.contains(id) {
            let k = choose|k: int| 0 <= k < none.len() && none[k] == id;
        }
    } else if tokens.len() == 1 {
        if matches_all(store, tokens, id) {
            assert(postings_of(store, tokens[0]).contains(id));
        }
    } else {
        let front = tokens.drop_last();
        lemma_conjunction_matches(store, front, id);
        lemma_common_contains(conjunction(store, front), postings_of(store, tokens.last()), id);
        if matches_all(store, tokens, id) {
            assert forall|k: int| 0 <= k < front.len() implies postings_of(
                store,
                #[trigger] front[k],
            ).contains(id) by {
                assert(front[k] == tokens[k]);
            }
            assert(tokens.last() == tokens[tokens.len() - 1]);
        }
        if matches_all(store, front, id) && postings_of(store, tokens.last()).contains(id) {
            assert forall|k: int| 0 <= k < tokens.len() implies postings_of(
                store,
                #[trigger] tokens[k],
            ).contains(id) by {
                if k < front.len() {
                    assert(front[k] == tokens[k]);
                }
            }
        }
    }
}

/// The result of a query on a well-formed store is ascending.
pub proof fn lemma_conjunction_ascending(store: Map<Seq<char>, Seq<usize>>, tokens: Seq<Seq<char>>)
    requires
        well_formed(store),
    ensures
        is_ascending(conjunction(store, tokens)),
    decreases tokens.len(),
{
    if tokens.len() >= 2 {
        lemma_conjunction_ascending(store, tokens.drop_last());
        lemma_common_ascending(
            conjunction(store, tokens.drop_last()),
            postings_of(store, tokens.last()),
        );
    }
}

/// A query with a token that the store never saw has no result.
pub proof fn lemma_conjunction_unknown_token(
    store: Map<Seq<char>, Seq<usize>>,
    tokens: Seq<Seq<char>>,
    k: int,
)
    requires
        0 <= k < tokens.len(),
        !store.contains_key(tokens[k]),
    ensures
        conjunction(store, tokens) == Seq::<usize>::empty(),
{
    let result = conjunction(store, tokens);
    if result.len() > 0 {
        assert(result.contains(result[0]));
        lemma_conjunction_matches(store, tokens, result[0]);
        let list = postings_of(store, tokens[k]);
        assert(list.contains(result[0]));
        let i = choose|i: int| 0 <= i < list.len() && list[i] == result[0];
    }
    assert(result =~= Seq::<usize>::empty());
}

/// Evaluates a conjunctive query. No tokens give no result. Otherwise the
/// result starts as the list of the first token and is intersected with the
/// list of each further token; a token without a list ends the evaluation
/// at once with an empty result.
pub fn evaluate(store: &PostingsStore, tokens: &Vec<String>) -> (ids: Vec<usize>)
    ensures
        ids@ == conjunction(store@, tokens.deep_view()),
        is_ascending(ids@),
        ids@.no_duplicates(),
        forall|id: usize| ids@.contains(id) <==> matches_all(store@, tokens.deep_view(), id),
{
    let ghost all = tokens.deep_view();
    proof {
        assert forall|id: usize|
            conjunction(store@, all).contains(id) <==> matches_all(store@, all, id) by {
            lemma_conjunction_matches(store@, all, id);
        }
    }
    if tokens.len() == 0 {
        return Vec::new();
    }
    let mut running: Vec<usize> = match store.lookup(tokens[0].as_str()) {
        Some(list) => list.clone(),
        None => {
            proof {
                lemma_conjunction_unknown_token(store@, all, 0);
            }
            return Vec::new();
        },
    };
    assert(all.take(1)[0] == all[0]);
    assert(running@ =~= conjunction(store@, all.take(1)));
    let mut k: usize = 1;
    while k < tokens.len()
        invariant
            1 <= k <= tokens.len(),
            all == tokens.deep_view(),
            running@ == conjunction(store@, all.take(k as int)),
            is_ascending(running@),
            forall|id: usize|
                conjunction(store@, all).contains(id) <==> matches_all(store@, all, id),
        decreases tokens.len() - k,
    {
        match store.lookup(tokens[k].as_str()) {
            Some(list) => {
                proof {
                    assert(all.take(k + 1).drop_last() =~= all.take(k as int));
                    assert(all.take(k + 1).last() == all[k as int]);
                }
                running = intersection(&running, list);
            },
            None => {
                proof {
                    lemma_conjunction_unknown_token(store@, all, k as int);
                }
                return Vec::new();
            },
        }
        k += 1;
    }
    assert(all.take(tokens.len() as int) =~= all);
    proof {
        lemma_ascending_no_duplicates(running@);
    }
    running
}

} // verus!
