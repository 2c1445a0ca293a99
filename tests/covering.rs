use covering_sets::bitset::{Bitset, BitsetBuilder};
use covering_sets::corpus::{Corpus, KnownLength, Position, SubsetTest};
use covering_sets::covering::{get_minimum_edges, get_minimum_edges_for, get_supersets};
use covering_sets::string_wrapped::StringWrapped;

fn build(records: &[&[u32]]) -> Corpus<StringWrapped<Bitset>> {
    let mut builder = BitsetBuilder::new();
    let mut corpus = Corpus::new();
    for r in records {
        let text = r.iter().map(|x| x.to_string()).collect::<Vec<_>>().join(", ");
        corpus.add(StringWrapped { payload: text, internal: builder.add(r.to_vec()) });
    }
    corpus
}

fn texts(corpus: &Corpus<StringWrapped<Bitset>>, ps: &[Position]) -> Vec<String> {
    ps.iter().map(|p| corpus.get(*p).to_string()).collect()
}

fn sample() -> Corpus<StringWrapped<Bitset>> {
    build(&[&[1, 2], &[1, 2, 3], &[1, 2, 4], &[1, 2, 3, 4], &[1, 2, 3, 4, 5], &[2], &[2, 3]])
}

#[test]
fn supersets_of_two_in_length_order() {
    let corpus = sample();
    let query = corpus.get((0, 0));
    assert_eq!(query.to_string(), "2");
    let s = get_supersets(&corpus, query);
    assert_eq!(
        texts(&corpus, &s),
        vec!["1, 2", "2, 3", "1, 2, 3", "1, 2, 4", "1, 2, 3, 4", "1, 2, 3, 4, 5"]
    );
}

#[test]
fn covering_edges_of_two_are_the_length_two_supersets() {
    let corpus = sample();
    let query = corpus.get((0, 0));
    let c = get_minimum_edges_for(&corpus, query);
    assert_eq!(texts(&corpus, &c), vec!["1, 2", "2, 3"]);
}

#[test]
fn prefix_query_finds_all_longer_supersets() {
    let corpus = build(&[&[1, 2, 3, 5], &[1, 2, 3, 5, 11], &[1, 2, 3, 5, 16, 17]]);
    let mut builder = BitsetBuilder::new();
    let _ = builder.add(vec![1, 2, 3, 5]);
    let query = StringWrapped { payload: String::from("1, 2"), internal: builder.add(vec![1, 2]) };
    let s = get_supersets(&corpus, &query);
    assert_eq!(texts(&corpus, &s), vec!["1, 2, 3, 5", "1, 2, 3, 5, 11", "1, 2, 3, 5, 16, 17"]);
    let c = get_minimum_edges_for(&corpus, &query);
    assert_eq!(texts(&corpus, &c), vec!["1, 2, 3, 5"]);
}

#[test]
fn all_edges_of_sample() {
    let corpus = sample();
    let edges = get_minimum_edges(&corpus);
    let shown: Vec<(String, String)> = edges
        .iter()
        .map(|(a, b)| (corpus.get(*a).to_string(), corpus.get(*b).to_string()))
        .collect();
    let expected = vec![
        ("2", "1, 2"),
        ("2", "2, 3"),
        ("1, 2", "1, 2, 3"),
        ("1, 2", "1, 2, 4"),
        ("2, 3", "1, 2, 3"),
        ("1, 2, 3", "1, 2, 3, 4"),
        ("1, 2, 4", "1, 2, 3, 4"),
        ("1, 2, 3, 4", "1, 2, 3, 4, 5"),
    ];
    let expected: Vec<(String, String)> =
        expected.into_iter().map(|(a, b)| (a.to_string(), b.to_string())).collect();
    assert_eq!(shown, expected);
}

#[test]
fn edges_are_longer_supersets_of_least_length() {
    let corpus = sample();
    for (a, b) in get_minimum_edges(&corpus) {
        assert_ne!(a, b);
        let sa = corpus.get(a);
        let sb = corpus.get(b);
        assert!(sb.len() > sa.len());
        assert!(sa.is_subset(sb));
        for q in get_supersets(&corpus, sa) {
            assert!(corpus.get(q).len() >= sb.len());
        }
    }
}

#[test]
fn corpus_buckets_by_length() {
    let corpus = sample();
    assert_eq!(corpus.bucket_count(), 5);
    assert_eq!(corpus.bucket_len(0), 1);
    assert_eq!(corpus.bucket_len(1), 2);
    assert_eq!(corpus.bucket_len(2), 2);
    assert_eq!(corpus.get((1, 1)).to_string(), "2, 3");
    assert_eq!(corpus.get_above(3), vec![(3, 0), (4, 0)]);
    assert_eq!(corpus.get_above(5), vec![]);
    assert_eq!(corpus.get_above(9), vec![]);
}

#[test]
fn corpus_keeps_empty_buckets() {
    let mut corpus: Corpus<Vec<u32>> = Corpus::new();
    corpus.add(vec![1, 2, 3]);
    assert_eq!(corpus.bucket_count(), 3);
    assert_eq!(corpus.bucket_len(0), 0);
    assert_eq!(corpus.get_above(0), vec![(2, 0)]);
}

#[test]
fn no_edges_in_empty_corpus() {
    let corpus: Corpus<StringWrapped<Bitset>> = Corpus::new();
    assert!(get_minimum_edges(&corpus).is_empty());
}

#[test]
fn set_without_supersets_has_no_edges() {
    let corpus = build(&[&[1], &[2, 3]]);
    let query = corpus.get((0, 0));
    assert!(get_supersets(&corpus, query).is_empty());
    assert!(get_minimum_edges_for(&corpus, query).is_empty());
}
