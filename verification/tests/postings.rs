use buscador::postings::{insert_sorted, intersection, PostingsStore};
use buscador::query::evaluate;

fn strings(words: &[&str]) -> Vec<String> {
    words.iter().map(|w| w.to_string()).collect()
}

#[test]
fn intersection_of_overlapping_lists() {
    assert_eq!(intersection(&vec![1, 2, 3, 5, 8], &vec![2, 3, 4, 8, 9]), vec![2, 3, 8]);
}

#[test]
fn intersection_has_no_zero_prefix() {
    assert_eq!(intersection(&vec![1, 2], &vec![2, 3, 4]), vec![2]);
}

#[test]
fn intersection_of_disjoint_lists_is_empty() {
    assert_eq!(intersection(&vec![1, 3, 5], &vec![2, 4, 6]), Vec::<usize>::new());
}

#[test]
fn intersection_with_empty_list_is_empty() {
    assert_eq!(intersection(&vec![], &vec![1, 2]), Vec::<usize>::new());
    assert_eq!(intersection(&vec![1, 2], &vec![]), Vec::<usize>::new());
    assert_eq!(intersection(&vec![], &vec![]), Vec::<usize>::new());
}

#[test]
fn intersection_with_itself_is_itself() {
    let list = vec![0, 4, 7, usize::MAX];
    assert_eq!(intersection(&list, &list), list);
}

#[test]
fn intersection_is_commutative() {
    let a = vec![1, 4, 6, 9, 12];
    let b = vec![0, 4, 5, 9, 10, 12, 40];
    assert_eq!(intersection(&a, &b), intersection(&b, &a));
    assert_eq!(intersection(&a, &b), vec![4, 9, 12]);
}

#[test]
fn intersection_is_associative() {
    let a = vec![1, 2, 3, 4, 5, 6];
    let b = vec![2, 4, 6, 8];
    let c = vec![3, 4, 6, 9];
    assert_eq!(
        intersection(&intersection(&a, &b), &c),
        intersection(&a, &intersection(&b, &c))
    );
    assert_eq!(intersection(&intersection(&a, &b), &c), vec![4, 6]);
}

#[test]
fn intersection_where_one_list_ends_early() {
    assert_eq!(intersection(&vec![1, 2, 3], &vec![3, 4, 5, 6, 7]), vec![3]);
    assert_eq!(intersection(&vec![5, 6, 7, 8], &vec![1, 5]), vec![5]);
}

#[test]
fn insert_sorted_into_empty_list() {
    let mut list = vec![];
    insert_sorted(&mut list, 7);
    assert_eq!(list, vec![7]);
}

#[test]
fn insert_sorted_keeps_order() {
    let mut list = vec![1, 5, 9];
    insert_sorted(&mut list, 3);
    assert_eq!(list, vec![1, 3, 5, 9]);
    insert_sorted(&mut list, 0);
    assert_eq!(list, vec![0, 1, 3, 5, 9]);
    insert_sorted(&mut list, 10);
    assert_eq!(list, vec![0, 1, 3, 5, 9, 10]);
}

#[test]
fn insert_sorted_skips_known_id() {
    let mut list = vec![1, 5, 9];
    insert_sorted(&mut list, 5);
    assert_eq!(list, vec![1, 5, 9]);
    insert_sorted(&mut list, 1);
    insert_sorted(&mut list, 9);
    assert_eq!(list, vec![1, 5, 9]);
}

#[test]
fn insert_sorted_in_descending_order_of_arrival() {
    let mut list = vec![];
    for id in [9, 7, 5, 3, 1, 5, 9] {
        insert_sorted(&mut list, id);
    }
    assert_eq!(list, vec![1, 3, 5, 7, 9]);
}

#[test]
fn store_starts_empty() {
    let store = PostingsStore::new();
    assert_eq!(store.lookup("fox"), None);
    assert_eq!(store.lookup(""), None);
}

#[test]
fn store_add_creates_and_extends_lists() {
    let mut store = PostingsStore::new();
    store.add("fox", 2);
    assert_eq!(store.lookup("fox"), Some(&vec![2]));
    store.add("fox", 1);
    assert_eq!(store.lookup("fox"), Some(&vec![1, 2]));
    store.add("fox", 2);
    assert_eq!(store.lookup("fox"), Some(&vec![1, 2]));
    assert_eq!(store.lookup("dog"), None);
    assert_eq!(store.lookup("Fox"), None);
}

#[test]
fn store_add_all_records_each_token_once() {
    let mut store = PostingsStore::new();
    store.add_all(&strings(&["a", "b", "a", "a"]), 4);
    store.add_all(&strings(&["b"]), 3);
    store.add_all(&strings(&[]), 9);
    assert_eq!(store.lookup("a"), Some(&vec![4]));
    assert_eq!(store.lookup("b"), Some(&vec![3, 4]));
}

#[test]
fn evaluate_without_tokens_finds_nothing() {
    let mut store = PostingsStore::new();
    store.add("a", 1);
    assert_eq!(evaluate(&store, &strings(&[])), Vec::<usize>::new());
}

#[test]
fn evaluate_intersects_all_lists() {
    let mut store = PostingsStore::new();
    for id in [1, 2, 3, 4] {
        store.add("a", id);
    }
    for id in [2, 3, 4] {
        store.add("b", id);
    }
    for id in [3, 4, 5] {
        store.add("c", id);
    }
    assert_eq!(evaluate(&store, &strings(&["a"])), vec![1, 2, 3, 4]);
    assert_eq!(evaluate(&store, &strings(&["a", "b"])), vec![2, 3, 4]);
    assert_eq!(evaluate(&store, &strings(&["a", "b", "c"])), vec![3, 4]);
    assert_eq!(evaluate(&store, &strings(&["c", "a", "b"])), vec![3, 4]);
    assert_eq!(evaluate(&store, &strings(&["a", "a"])), vec![1, 2, 3, 4]);
}

#[test]
fn evaluate_with_unknown_token_finds_nothing() {
    let mut store = PostingsStore::new();
    store.add("a", 1);
    assert_eq!(evaluate(&store, &strings(&["z"])), Vec::<usize>::new());
    assert_eq!(evaluate(&store, &strings(&["z", "a"])), Vec::<usize>::new());
    assert_eq!(evaluate(&store, &strings(&["a", "z"])), Vec::<usize>::new());
    assert_eq!(evaluate(&store, &strings(&["a", "z", "a"])), Vec::<usize>::new());
}
