use buscador::analyzer::{Analyzer, Stopwords};
use buscador::index::{Document, Index, InvertedIndex};
use buscador::query::Query;

fn doc(id: usize, text: &str) -> Document {
    Document { id, text: text.to_string() }
}

fn the_index() -> InvertedIndex {
    let stopwords = Stopwords::from_words(&vec!["the".to_string()]);
    let mut index = InvertedIndex::with_analyzer(Analyzer::new(stopwords));
    index.insert(vec![doc(1, "the quick fox"), doc(2, "the lazy fox")]);
    index
}

fn is_strictly_ascending(ids: &[usize]) -> bool {
    ids.windows(2).all(|pair| pair[0] < pair[1])
}

#[test]
fn scenario_search_fox() {
    assert_eq!(the_index().search("fox"), vec![1, 2]);
}

#[test]
fn scenario_search_quick() {
    assert_eq!(the_index().search("quick"), vec![1]);
}

#[test]
fn scenario_search_fox_lazy() {
    assert_eq!(the_index().search("fox lazy"), vec![2]);
}

#[test]
fn scenario_search_dog() {
    assert_eq!(the_index().search("dog"), Vec::<usize>::new());
}

#[test]
fn scenario_search_empty_query() {
    assert_eq!(the_index().search(""), Vec::<usize>::new());
}

#[test]
fn search_for_stopword_only_finds_nothing() {
    assert_eq!(the_index().search("the"), Vec::<usize>::new());
    assert_eq!(the_index().search("the the"), Vec::<usize>::new());
}

#[test]
fn stopwords_in_a_query_are_ignored() {
    assert_eq!(the_index().search("the fox"), vec![1, 2]);
    assert_eq!(the_index().search("lazy the fox"), vec![2]);
}

#[test]
fn search_without_alphanumeric_content_finds_nothing() {
    assert_eq!(the_index().search("?! ..."), Vec::<usize>::new());
    assert_eq!(the_index().search("   "), Vec::<usize>::new());
}

#[test]
fn new_index_has_no_stopwords_and_finds_nothing() {
    let mut index = InvertedIndex::new();
    assert_eq!(index.search("the"), Vec::<usize>::new());
    assert_eq!(index.lookup("the"), None);
    assert!(!index.analyzer().is_case_folding());
    assert!(!index.analyzer().is_stopword("the"));
    index.insert(vec![doc(3, "the end")]);
    assert_eq!(index.search("the"), vec![3]);
    assert_eq!(index.search("the end"), vec![3]);
}

#[test]
fn inserted_document_is_found_by_each_of_its_tokens() {
    let stopwords = Stopwords::from_words(&vec!["the".to_string()]);
    let analyzer = Analyzer::new(stopwords);
    let text = "the quick-brown fox, 42 times: über!";
    let tokens = analyzer.analyze(text);
    assert_eq!(tokens.len(), 5);
    let mut index = InvertedIndex::with_analyzer(analyzer);
    index.insert(vec![doc(10, "other words"), doc(7, text)]);
    for token in tokens {
        assert!(index.search(&token).contains(&7));
    }
}

#[test]
fn search_results_are_ascending_and_unique() {
    let mut index = InvertedIndex::new();
    index.insert(vec![doc(9, "a b c"), doc(3, "a b"), doc(5, "a a a c"), doc(3, "a b")]);
    index.insert(vec![doc(1, "c b a"), doc(9, "a")]);
    for query in ["a", "b", "c", "a b", "b c", "a c", "a b c", "c c", "z", ""] {
        assert!(is_strictly_ascending(&index.search(query)));
    }
    assert_eq!(index.search("a"), vec![1, 3, 5, 9]);
    assert_eq!(index.search("b"), vec![1, 3, 9]);
    assert_eq!(index.search("c"), vec![1, 5, 9]);
    assert_eq!(index.search("b c"), vec![1, 9]);
}

#[test]
fn ids_may_arrive_in_any_order() {
    let mut index = InvertedIndex::new();
    index.insert(vec![doc(30, "fox"), doc(10, "fox")]);
    index.insert(vec![doc(20, "fox")]);
    index.insert(vec![doc(0, "fox"), doc(usize::MAX, "fox")]);
    assert_eq!(index.lookup("fox"), Some(&vec![0, 10, 20, 30, usize::MAX]));
    assert_eq!(index.search("fox"), vec![0, 10, 20, 30, usize::MAX]);
}

#[test]
fn joined_query_is_subset_of_each_single_query() {
    let mut index = InvertedIndex::new();
    index.insert(vec![doc(1, "a b"), doc(2, "a"), doc(3, "b"), doc(4, "b a c")]);
    let a = index.search("a");
    let b = index.search("b");
    let both = index.search("a b");
    assert_eq!(both, vec![1, 4]);
    for id in &both {
        assert!(a.contains(id));
        assert!(b.contains(id));
    }
    for id in &a {
        assert_eq!(both.contains(id), b.contains(id));
    }
}

#[test]
fn token_order_in_a_query_is_irrelevant() {
    let mut index = InvertedIndex::new();
    index.insert(vec![doc(1, "x y z"), doc(2, "x y"), doc(3, "z y x w"), doc(4, "z")]);
    let expected = vec![1, 3];
    for query in ["x y z", "x z y", "y x z", "y z x", "z x y", "z y x"] {
        assert_eq!(index.search(query), expected);
    }
    assert_eq!(index.search("y x"), index.search("x y"));
    assert_eq!(index.search("x y"), vec![1, 2, 3]);
}

#[test]
fn repeated_query_token_is_idempotent() {
    let index = the_index();
    assert_eq!(index.search("fox fox"), index.search("fox"));
    assert_eq!(index.search("lazy fox lazy"), vec![2]);
}

#[test]
fn reinserting_a_document_changes_nothing() {
    let mut index = the_index();
    let tokens = ["the", "quick", "lazy", "fox", "dog"];
    let before: Vec<Option<Vec<usize>>> =
        tokens.iter().map(|t| index.lookup(t).cloned()).collect();
    index.insert(vec![doc(1, "the quick fox")]);
    index.insert(vec![doc(2, "the lazy fox"), doc(1, "the quick fox")]);
    let after: Vec<Option<Vec<usize>>> =
        tokens.iter().map(|t| index.lookup(t).cloned()).collect();
    assert_eq!(before, after);
    assert_eq!(index.search("fox"), vec![1, 2]);
}

#[test]
fn repeated_token_in_a_document_is_listed_once() {
    let mut index = InvertedIndex::new();
    index.insert(vec![doc(4, "fox fox fox, fox!")]);
    assert_eq!(index.lookup("fox"), Some(&vec![4]));
}

#[test]
fn unseen_token_finds_nothing() {
    let index = the_index();
    assert_eq!(index.search("wolf"), Vec::<usize>::new());
    assert_eq!(index.search("fox wolf"), Vec::<usize>::new());
    assert_eq!(index.search("wolf fox"), Vec::<usize>::new());
    assert_eq!(index.lookup("wolf"), None);
}

#[test]
fn lookup_tells_absence_from_a_list() {
    let index = the_index();
    assert_eq!(index.lookup("fox"), Some(&vec![1, 2]));
    assert_eq!(index.lookup("quick"), Some(&vec![1]));
    assert_eq!(index.lookup("the"), None);
    assert_eq!(index.lookup("dog"), None);
}

#[test]
fn empty_document_adds_nothing() {
    let mut index = the_index();
    index.insert(vec![doc(8, ""), doc(9, "?!"), doc(10, "the the")]);
    index.insert(vec![]);
    assert_eq!(index.search("fox"), vec![1, 2]);
    assert_eq!(index.lookup(""), None);
    assert_eq!(index.lookup("the"), None);
}

#[test]
fn search_is_case_sensitive_by_default() {
    let mut index = InvertedIndex::new();
    index.insert(vec![doc(1, "Some data string")]);
    assert_eq!(index.search("Some"), vec![1]);
    assert_eq!(index.search("some"), Vec::<usize>::new());
}

#[test]
fn case_folding_index_matches_any_case() {
    let stopwords = Stopwords::from_words(&vec!["the".to_string()]);
    let mut index = InvertedIndex::with_analyzer(Analyzer::with_case_folding(stopwords));
    index.insert(vec![doc(1, "The Quick FOX"), doc(2, "the lazy fox")]);
    assert_eq!(index.search("fox"), vec![1, 2]);
    assert_eq!(index.search("FOX"), vec![1, 2]);
    assert_eq!(index.search("Quick"), vec![1]);
    assert_eq!(index.search("THE"), Vec::<usize>::new());
    assert_eq!(index.lookup("FOX"), None);
    assert_eq!(index.lookup("fox"), Some(&vec![1, 2]));
}

#[test]
fn indexes_with_different_stopwords_coexist() {
    let mut plain = InvertedIndex::new();
    let mut filtered = the_index();
    plain.insert(vec![doc(1, "the quick fox")]);
    filtered.insert(vec![doc(3, "the")]);
    assert_eq!(plain.search("the"), vec![1]);
    assert_eq!(filtered.search("the"), Vec::<usize>::new());
}

#[test]
fn named_index_keeps_its_name() {
    let index = Index::new("test");
    assert_eq!(index.name(), "test");
}

#[test]
fn named_index_inserts_and_searches() {
    let docs = vec![
        doc(1, "fn tokenize(text: &str) -> Vec<String> {"),
        doc(2, "    if text.is_empty() {"),
    ];
    let mut index = Index::new("test");
    index.insert(docs.to_vec());
    assert_eq!(index.search(Query { text: "token".to_string() }), Vec::<usize>::new());
    assert_eq!(index.search(Query { text: "fn".to_string() }), vec![1]);
    assert_eq!(index.search(Query { text: "if".to_string() }), vec![2]);
    assert_eq!(index.search(Query { text: "".to_string() }), Vec::<usize>::new());
}

#[test]
fn named_index_with_analyzer() {
    let stopwords = Stopwords::from_words(&vec!["the".to_string()]);
    let mut index = Index::with_analyzer("docs", Analyzer::new(stopwords));
    index.insert(vec![doc(1, "the quick fox"), doc(2, "the lazy fox")]);
    assert_eq!(index.name(), "docs");
    assert_eq!(index.search(Query { text: "fox lazy".to_string() }), vec![2]);
    assert_eq!(index.search(Query { text: "the".to_string() }), Vec::<usize>::new());
}
