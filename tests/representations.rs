use covering_sets::almost_set::AlmostSet;
use covering_sets::bitset::BitsetBuilder;
use covering_sets::corpus::{hash_set_of, KnownLength, SubsetTest};

#[test]
fn almost_set_sorts_and_dedups() {
    let s = AlmostSet::new(vec![5, 1, 3, 1]);
    assert_eq!(s.elements(), &vec![1, 3, 5]);
    assert_eq!(s.len(), 3);
}

#[test]
fn almost_set_subset_by_elements() {
    let a = AlmostSet::new(vec![2, 3]);
    let b = AlmostSet::new(vec![1, 2, 3, 4]);
    assert!(a.is_subset(&b));
    assert!(!b.is_subset(&a));
    assert!(AlmostSet::new(vec![1, 2]).is_subset(&AlmostSet::new(vec![1, 2, 3, 5])));
    assert!(AlmostSet::new(vec![1, 3]).is_subset(&AlmostSet::new(vec![1, 2, 3])));
    assert!(AlmostSet::new(vec![2, 4]).is_subset(&AlmostSet::new(vec![1, 2, 3, 4])));
}

#[test]
fn almost_set_rejects_missing_elements() {
    let b = AlmostSet::new(vec![1, 2, 3]);
    assert!(!AlmostSet::new(vec![2, 3]).is_subset(&AlmostSet::new(vec![1, 2])));
    assert!(!AlmostSet::new(vec![3, 4]).is_subset(&b));
    assert!(!AlmostSet::new(vec![7]).is_subset(&b));
    assert!(!AlmostSet::new(vec![1, 4, 5]).is_subset(&AlmostSet::new(vec![1, 2, 3, 5, 6])));
    assert!(!AlmostSet::new(vec![0, 1]).is_subset(&b));
    assert!(AlmostSet::new(vec![]).is_subset(&b));
    assert!(AlmostSet::new(vec![]).is_subset(&AlmostSet::new(vec![])));
}

#[test]
fn hash_set_subset() {
    let a = hash_set_of(&vec![3, 1, 3]);
    let b = hash_set_of(&vec![1, 2, 3]);
    assert_eq!(a.len(), 2);
    assert!(SubsetTest::is_subset(&a, &b));
    assert!(!SubsetTest::is_subset(&b, &a));
}

#[test]
fn representations_agree_on_pairs() {
    let raws: Vec<Vec<u32>> = vec![
        vec![1, 2],
        vec![2, 3],
        vec![1, 2, 3],
        vec![3, 2, 1, 4],
        vec![5],
        vec![],
        vec![4, 2],
    ];
    let mut builder = BitsetBuilder::new();
    let bits: Vec<_> = raws.iter().map(|r| builder.add(r.clone())).collect();
    let hashed: Vec<_> = raws.iter().map(hash_set_of).collect();
    let sorted: Vec<_> = raws.iter().map(|r| AlmostSet::new(r.clone())).collect();
    for i in 0..raws.len() {
        for j in 0..raws.len() {
            let h = SubsetTest::is_subset(&hashed[i], &hashed[j]);
            assert_eq!(bits[i].is_subset(&bits[j]), h, "{} {}", i, j);
            assert_eq!(sorted[i].is_subset(&sorted[j]), h, "{} {}", i, j);
        }
    }
    assert!(SubsetTest::is_subset(&hashed[6], &hashed[3]));
    assert!(sorted[6].is_subset(&sorted[3]));
    assert!(bits[6].is_subset(&bits[3]));
}

#[test]
fn almost_set_text() {
    assert_eq!(AlmostSet::new(vec![3, 1, 2]).to_string(), "1, 2, 3");
    assert_eq!(AlmostSet::new(vec![]).to_string(), "");
}
