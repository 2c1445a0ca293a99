use covering_sets::bitset::{Bitset, BitsetBuilder};
use covering_sets::corpus::KnownLength;

#[test]
fn test_builder() {
    let mut builder = BitsetBuilder::new();
    let set = builder.add(vec![1, 2, 3]);
    assert_eq!(set.lane_words(), vec![7, 0, 0, 0]);
    assert_eq!(set.len(), 3);
}

#[test]
fn builder_sorts_before_numbering() {
    let mut builder = BitsetBuilder::new();
    let first = builder.add(vec![30, 10, 20]);
    assert_eq!(first.lane_words(), vec![7, 0, 0, 0]);
    // 10, 20 and 30 got 0, 1 and 2; 5 is new and gets 3.
    let second = builder.add(vec![20, 5]);
    assert_eq!(second.lane_words(), vec![0b1010, 0, 0, 0]);
}

#[test]
fn builder_collapses_duplicates() {
    let mut builder = BitsetBuilder::new();
    let set = builder.add(vec![4, 4, 4, 9]);
    assert_eq!(set.len(), 2);
    assert_eq!(set.lane_words(), vec![3, 0, 0, 0]);
}

#[test]
fn mark_grows_blocks_on_demand() {
    let mut set = Bitset::new();
    assert_eq!(set.lane_words(), Vec::<u64>::new());
    set.mark(300);
    assert_eq!(set.lane_words(), vec![0, 0, 0, 0, 1 << 44, 0, 0, 0]);
    set.mark(65);
    assert_eq!(set.lane_words(), vec![0, 2, 0, 0, 1 << 44, 0, 0, 0]);
    assert_eq!(set.len(), 2);
    set.mark(65);
    assert_eq!(set.len(), 2);
}

#[test]
fn bitset_subset_by_bits() {
    let mut builder = BitsetBuilder::new();
    let small = builder.add(vec![1, 2]);
    let big = builder.add(vec![1, 2, 3, 5]);
    let other = builder.add(vec![1, 3, 5]);
    assert!(small.is_subset(&big));
    assert!(!big.is_subset(&small));
    assert!(!small.is_subset(&other));
    assert!(other.is_subset(&big));
    assert!(small.is_subset(&small));
}

#[test]
fn bitset_subset_fails_on_fewer_blocks() {
    let mut a = Bitset::new();
    a.mark(3);
    a.mark(400);
    let mut b = Bitset::new();
    b.mark(3);
    b.mark(4);
    b.mark(5);
    assert!(!a.is_subset(&b));
    assert!(!b.is_subset(&a));
    let empty = Bitset::new();
    assert!(empty.is_subset(&a));
}

#[test]
fn rebuilding_gives_the_same_set() {
    let mut builder = BitsetBuilder::new();
    let _ = builder.add(vec![8, 1]);
    let first = builder.add(vec![3, 8, 2]);
    let again = builder.add(vec![2, 3, 8, 8]);
    assert!(first.is_subset(&again));
    assert!(again.is_subset(&first));
    assert_eq!(first.lane_words(), again.lane_words());
}

#[test]
fn builder_repeats_collapse_to_least_blocks() {
    let mut b = BitsetBuilder::new();
    let set = b.add(vec![1, 1, 2]);
    assert_eq!(set.len(), 2);
    assert_eq!(set.lane_words(), vec![3, 0, 0, 0]);
}

#[test]
fn permuted_record_same_bitset() {
    let mut b1 = BitsetBuilder::new();
    let mut b2 = BitsetBuilder::new();
    let x = b1.add(vec![9, 4, 7]);
    let y = b2.add(vec![7, 9, 4, 4]);
    assert_eq!(x.lane_words(), y.lane_words());
    assert_eq!(b1.add(vec![4, 10]).lane_words(), b2.add(vec![10, 4]).lane_words());
}
