use covering_sets::set_trie::{AlphaIterator, SetTrie};

#[test]
fn test_insert_not_crash() {
    let mut t = SetTrie::new();
    t.insert(vec![1, 2]);
    t.insert(vec![1, 2, 3]);
    t.insert(vec![1, 2, 4]);
    assert!(true)
}

#[test]
fn test_exists_superset_simple() {
    let mut t = SetTrie::new();
    t.insert(vec![1, 2]);
    t.insert(vec![1, 2, 3]);
    t.insert(vec![1, 2, 4]);
    assert!(t.exists_superset(vec![1, 2]))
}

#[test]
fn test_insert_longer() {
    let mut t = SetTrie::new();
    t.insert(vec![1, 2]);
    t.insert(vec![1, 2, 3]);
    t.insert(vec![1, 2, 3, 4]);
    t.insert(vec![1, 2, 3, 4, 5]);
    t.insert(vec![2]);
    t.insert(vec![2, 3]);
    t.insert(vec![2, 6, 7]);
    t.insert(vec![2, 4, 5]);
    assert!(true)
}

#[test]
fn alpha_iterator_walks_and_stops() {
    let mut it = AlphaIterator::new(vec![2, 5, 9], 10);
    assert_eq!(it.current(), Some(2));
    assert_eq!(it.next(), Some(5));
    assert_eq!(it.current(), Some(5));
    assert_eq!(it.next(), Some(9));
    assert_eq!(it.next(), None);
    assert_eq!(it.current(), None);
    assert_eq!(it.next(), None);
    assert_eq!(it.sentinel, 10);
}

#[test]
fn alpha_iterator_empty() {
    let it = AlphaIterator::new(vec![], 1);
    assert_eq!(it.current(), None);
}

#[test]
fn exists_superset_finds_only_stored_supersets() {
    let mut t = SetTrie::new();
    t.insert(vec![1, 2, 3, 4, 5]);
    t.insert(vec![2, 3]);
    t.insert(vec![2, 6, 7]);
    t.insert(vec![2, 4, 5]);
    assert!(t.exists_superset(vec![3, 5]));
    assert!(t.exists_superset(vec![7, 2]));
    assert!(t.exists_superset(vec![6]));
    assert!(t.exists_superset(vec![]));
    assert!(!t.exists_superset(vec![6, 3]));
    assert!(!t.exists_superset(vec![9]));
    assert!(t.exists_superset(vec![4, 4, 5]));
}

#[test]
fn exists_superset_in_empty_trie() {
    let t = SetTrie::new();
    assert!(!t.exists_superset(vec![]));
    assert!(!t.exists_superset(vec![1]));
}

#[test]
fn insert_in_any_order() {
    let mut t = SetTrie::new();
    t.insert(vec![5, 1, 3]);
    assert!(t.exists_superset(vec![1, 5]));
    assert!(t.exists_superset(vec![3, 1, 5]));
    assert!(!t.exists_superset(vec![1, 2]));
}

#[test]
fn alpha_iterator_peek_and_first() {
    let mut it = AlphaIterator::new(vec![4, 8], 9);
    assert_eq!(it.peek(), Some(8));
    assert_eq!(it.next(), Some(8));
    assert_eq!(it.peek(), None);
    assert_eq!(it.first(), Some(4));
    assert_eq!(it.current(), Some(4));
}
