use covering_sets::dyn_tree::{indent, Node};

fn sample() -> Node {
    let mut tree = Node { payload: -1, children: vec![] };
    tree.add(&vec![1, 2]);
    tree.add(&vec![1, 2, 3]);
    tree.add(&vec![1, 2, 3, 4]);
    tree.add(&vec![1, 2, 3, 4, 5]);
    tree.add(&vec![2]);
    tree.add(&vec![2, 3]);
    tree
}

#[test]
fn tree_shares_prefixes() {
    let tree = sample();
    assert_eq!(tree.children.len(), 2);
    assert_eq!(tree.children[0].payload, 1);
    assert_eq!(tree.children[0].children.len(), 1);
    assert_eq!(tree.children[1].payload, 2);
    assert_eq!(tree.children[1].children[0].payload, 3);
}

#[test]
fn tree_text_indents_by_depth() {
    let tree = sample();
    assert_eq!(
        tree.as_string(),
        "-1\n----1\n--------2\n------------3\n----------------4\n--------------------5\n----2\n--------3"
    );
}

#[test]
fn single_node_text() {
    let leaf = Node { payload: 42, children: vec![] };
    assert_eq!(leaf.as_string(), "42");
    let low = Node { payload: i64::MIN, children: vec![] };
    assert_eq!(low.as_string(), i64::MIN.to_string());
}

#[test]
fn indent_every_line() {
    assert_eq!(indent(String::from("a\nb"), String::from("--")), "\n--a\n--b");
    assert_eq!(indent(String::new(), String::from("xy")), "\nxy");
}

#[test]
fn adding_empty_path_changes_nothing() {
    let mut tree = Node { payload: 0, children: vec![] };
    tree.add(&vec![]);
    assert!(tree.children.is_empty());
    tree.add(&vec![7, 7]);
    tree.add(&vec![7]);
    assert_eq!(tree.as_string(), "0\n----7\n--------7");
}
