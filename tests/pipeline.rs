use covering_sets::corpus::KnownLength;
use covering_sets::covering::get_minimum_edges;
use covering_sets::generate::{corpus_of_lengths, counting_record, make_random_corpus};
use covering_sets::parse::parse_edges;
use covering_sets::pipeline::{file_records, read_into_corpus, write_edges};

fn lines(text: &str) -> Vec<String> {
    text.lines().map(|l| l.to_string()).collect()
}

fn texted(records: Vec<Vec<u32>>) -> Vec<(String, Vec<u32>)> {
    records.into_iter().map(|r| (covering_sets::text::format_record(&r), r)).collect()
}

#[test]
fn read_files_sets_by_length() {
    let corpus = read_into_corpus(&lines("1 2\n1 2 3\n2\n2 3")).unwrap();
    assert_eq!(corpus.bucket_count(), 3);
    assert_eq!(corpus.bucket_len(0), 1);
    assert_eq!(corpus.bucket_len(1), 2);
    assert_eq!(corpus.get((1, 1)).to_string(), "2 3");
    assert_eq!(corpus.get((0, 0)).len(), 1);
}

#[test]
fn read_reports_first_bad_line() {
    assert_eq!(read_into_corpus(&lines("1 2\n3 x\n\n")).err(), Some(1));
    assert_eq!(read_into_corpus(&lines("1\n\n2")).err(), Some(1));
}

#[test]
fn read_duplicates_collapse() {
    let corpus = read_into_corpus(&lines("4 4 4")).unwrap();
    assert_eq!(corpus.bucket_count(), 1);
    assert_eq!(corpus.get((0, 0)).to_string(), "4 4 4");
    assert_eq!(corpus.get((0, 0)).len(), 1);
}

#[test]
fn write_edges_of_read_corpus() {
    let corpus = read_into_corpus(&lines("1 2\n1 2 3\n1 2 4\n2")).unwrap();
    let edges = get_minimum_edges(&corpus);
    let text = write_edges(&corpus, &edges);
    assert_eq!(text, "2->1, 2\n1, 2->1, 2, 3\n1, 2->1, 2, 4\n");
    let chars: Vec<char> = text.chars().collect();
    assert_eq!(
        parse_edges(&chars),
        Some(vec![(vec![2], vec![1, 2]), (vec![1, 2], vec![1, 2, 3]), (vec![1, 2], vec![1, 2, 4])])
    );
}

#[test]
fn counting_record_text() {
    assert_eq!(counting_record(3), (vec![0, 1, 2], String::from("0, 1, 2")));
    assert_eq!(counting_record(0), (vec![], String::new()));
}

#[test]
fn random_corpus_shape() {
    let corpus = make_random_corpus(4, 20);
    assert!(corpus.bucket_count() <= 4);
    let mut total = 0;
    for b in 0..corpus.bucket_count() {
        for i in 0..corpus.bucket_len(b) {
            let item = corpus.get((b, i));
            assert_eq!(item.len(), b + 1);
            let expected: Vec<String> = (0..=b).map(|x| x.to_string()).collect();
            assert_eq!(item.to_string(), expected.join(", "));
            total += 1;
        }
    }
    assert_eq!(total, 20);
}

#[test]
fn file_records_in_order_by_length() {
    let corpus = file_records(&texted(vec![vec![5, 6], vec![1], vec![7, 7, 8], vec![2]]));
    assert_eq!(corpus.bucket_count(), 2);
    assert_eq!(corpus.get((0, 0)).to_string(), "1");
    assert_eq!(corpus.get((0, 1)).to_string(), "2");
    assert_eq!(corpus.get((1, 0)).to_string(), "5, 6");
    assert_eq!(corpus.get((1, 1)).to_string(), "7, 7, 8");
    // 5, 6, 1, 7, 8, 2 got indices 0 to 5 in that order.
    assert_eq!(corpus.get((1, 1)).internal.lane_words(), vec![0b11000, 0, 0, 0]);
    assert_eq!(corpus.get((0, 1)).internal.lane_words(), vec![0b100000, 0, 0, 0]);
}

#[test]
fn corpus_of_lengths_counts_up() {
    let corpus = corpus_of_lengths(&vec![2, 1, 3, 2]);
    assert_eq!(corpus.bucket_count(), 3);
    assert_eq!(corpus.bucket_len(1), 2);
    assert_eq!(corpus.get((1, 1)).to_string(), "0, 1");
    assert_eq!(corpus.get((2, 0)).to_string(), "0, 1, 2");
    assert_eq!(corpus.get((2, 0)).internal.lane_words(), vec![7, 0, 0, 0]);
    assert_eq!(corpus.get((0, 0)).internal.lane_words(), vec![1, 0, 0, 0]);
}

#[test]
fn read_keeps_line_text() {
    let corpus = read_into_corpus(&lines("+3 007 2")).unwrap();
    assert_eq!(corpus.get((2, 0)).to_string(), "+3 007 2");
}

#[test]
fn write_edges_adds_commas_once() {
    let corpus = file_records(&vec![
        (String::from("2"), vec![2]),
        (String::from("1 2"), vec![1, 2]),
        (String::from("1, 2, 3"), vec![1, 2, 3]),
    ]);
    let edges = get_minimum_edges(&corpus);
    let text = write_edges(&corpus, &edges);
    assert_eq!(text, "2->1, 2\n1, 2->1, 2, 3\n");
    let chars: Vec<char> = text.chars().collect();
    assert_eq!(
        parse_edges(&chars),
        Some(vec![(vec![2], vec![1, 2]), (vec![1, 2], vec![1, 2, 3])])
    );
}

#[test]
fn written_random_corpus_reads_back() {
    let corpus = corpus_of_lengths(&vec![1, 2]);
    let edges = get_minimum_edges(&corpus);
    let text = write_edges(&corpus, &edges);
    assert_eq!(text, "0->0, 1\n");
}
