use covering_sets::parse::{parse_edges, parse_number, parse_record, split_chars};
use covering_sets::text::{format_edges, format_record};

fn chars(s: &str) -> Vec<char> {
    s.chars().collect()
}

#[test]
fn format_record_joins_decimals() {
    assert_eq!(format_record(&vec![1, 2, 3]), "1, 2, 3");
    assert_eq!(format_record(&vec![]), "");
    assert_eq!(format_record(&vec![0, 4294967295, 10]), "0, 4294967295, 10");
}

#[test]
fn format_edges_one_line_each() {
    let edges = vec![(vec![2], vec![1, 2]), (vec![2], vec![2, 3])];
    assert_eq!(format_edges(&edges), "2->1, 2\n2->2, 3\n");
    assert_eq!(format_edges(&vec![]), "");
}

#[test]
fn split_keeps_empty_parts() {
    let parts = split_chars(&chars("a,,b,"), ',');
    assert_eq!(parts, vec![chars("a"), chars(""), chars("b"), chars("")]);
    assert_eq!(split_chars(&chars(""), ','), vec![chars("")]);
}

#[test]
fn parse_number_like_str_parse() {
    assert_eq!(parse_number(&chars("42")), Some(42));
    assert_eq!(parse_number(&chars("+7")), Some(7));
    assert_eq!(parse_number(&chars("007")), Some(7));
    assert_eq!(parse_number(&chars("4294967295")), Some(4294967295));
    assert_eq!(parse_number(&chars("4294967296")), None);
    assert_eq!(parse_number(&chars("")), None);
    assert_eq!(parse_number(&chars("+")), None);
    assert_eq!(parse_number(&chars("-1")), None);
    assert_eq!(parse_number(&chars("1a")), None);
}

#[test]
fn parse_record_space_separated() {
    assert_eq!(parse_record(&chars("1 2 3")), Some(vec![1, 2, 3]));
    assert_eq!(parse_record(&chars("5")), Some(vec![5]));
    assert_eq!(parse_record(&chars("1  2")), None);
    assert_eq!(parse_record(&chars("")), None);
    assert_eq!(parse_record(&chars("1, 2")), None);
}

#[test]
fn edges_round_trip() {
    let edges = vec![
        (vec![2], vec![1, 2]),
        (vec![1, 2], vec![1, 2, 3]),
        (vec![4294967295, 0], vec![7, 4294967295, 0]),
        (vec![], vec![9]),
    ];
    let text = format_edges(&edges);
    assert_eq!(parse_edges(&chars(&text)), Some(edges));
    assert_eq!(parse_edges(&chars("")), Some(vec![]));
}

#[test]
fn parse_edges_rejects_malformed_text() {
    assert_eq!(parse_edges(&chars("1->2")), None);
    assert_eq!(parse_edges(&chars("1-2\n")), None);
    assert_eq!(parse_edges(&chars("1,2->3\n")), None);
    assert_eq!(parse_edges(&chars("1->2->3\n")), None);
    assert_eq!(parse_edges(&chars("1->x\n")), None);
    assert_eq!(parse_edges(&chars("1, 2->3\n")), Some(vec![(vec![1, 2], vec![3])]));
}
