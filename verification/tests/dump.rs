use yaml_peg::Anchors;
use yaml_peg::dumper::{dump, is_dumpable, Dumper, Root, NL};
use yaml_peg::parse;
use yaml_peg::yaml::{Node, Yaml};

fn node(y: Yaml) -> Node {
    Node::new(y, 0, "", "")
}

fn s(x: &str) -> Node {
    node(Yaml::Str(x.to_string()))
}

fn seq(v: Vec<Node>) -> Node {
    node(Yaml::Array(v))
}

fn map(v: Vec<(Node, Node)>) -> Node {
    node(Yaml::Mapping(v))
}

#[test]
fn dump_doc_example() {
    let doc = dump(&[map(vec![(s("a"), s("b")), (s("c"), s("d"))])], &[]);
    let ans = "\
a: b
c: d
";
    assert_eq!(doc, ans.replace('\n', NL));
}

#[test]
fn dump_scalars() {
    let n = map(vec![
        (s("n"), node(Yaml::Null)),
        (s("t"), node(Yaml::Bool(true))),
        (s("f"), node(Yaml::Bool(false))),
        (s("i"), node(Yaml::Int("0x1F".to_string()))),
        (s("x"), node(Yaml::Float("1.5".to_string()))),
        (s("a"), node(Yaml::Alias("k".to_string()))),
    ]);
    assert_eq!(dump(&[n], &[]), "n: null\nt: true\nf: false\ni: 0x1F\nx: 1.5\na: *k\n");
}

#[test]
fn dump_nested_sequence() {
    let n = seq(vec![s("a"), seq(vec![s("b"), s("c")]), map(vec![(s("d"), s("e"))])]);
    assert_eq!(dump(&[n], &[]), "\n- a\n- \n  - b\n  - c\n- d: e\n");
}

#[test]
fn dump_nested_map() {
    let n = map(vec![(s("a"), map(vec![(s("b"), s("c"))])), (s("d"), seq(vec![s("e")]))]);
    assert_eq!(dump(&[n], &[]), "a:\n  b: c\nd:\n  - e\n");
}

#[test]
fn dump_collection_key() {
    let n = map(vec![(seq(vec![s("a")]), s("b"))]);
    assert_eq!(dump(&[n], &[]), "?  \n\n  - a\n: b\n");
}

#[test]
fn dump_literal_block() {
    let n = map(vec![(s("a"), s("x  \ny\n"))]);
    assert_eq!(dump(&[n], &[]), "a: |\n  x\n  y\n");
}

#[test]
fn dump_quoted_strings() {
    let n = map(vec![(s("a"), s("#x")), (s("b"), s(":")), (s("c"), s("")), (s("d"), s("x: y"))]);
    assert_eq!(dump(&[n], &[]), "a: \"#x\"\nb: \":\"\nc: \"\"\nd: x: y\n");
}

#[test]
fn dump_tags() {
    let n = seq(vec![
        Node::new(Yaml::Str("a".to_string()), 0, "foo", ""),
        Node::new(Yaml::Str("b".to_string()), 0, "-x", ""),
        Node::new(Yaml::Str("c".to_string()), 0, "tag:yaml.org,2002:str", ""),
    ]);
    assert_eq!(dump(&[n], &[]), "\n- !foo a\n- !<-x> b\n- c\n");
}

#[test]
fn dump_documents() {
    assert_eq!(dump(&[s("a"), s("b")], &[]), "a\n---\nb\n");
}

#[test]
fn dump_with_anchors() {
    let (nodes, anchors) = parse("a: &x b\nc: *x\n").unwrap();
    assert_eq!(dump(&nodes, &[anchors]), "a: &x b\nc: &x b\n");
}

#[test]
fn dumper_single_node() {
    let anchors: Anchors = ritelinked::LinkedHashMap::new();
    let n = map(vec![(s("k"), s("v"))]);
    let d = Dumper::new(&n, &anchors);
    assert_eq!(d.dump(), "k: v");
}

#[test]
fn dumpable_check() {
    assert!(!is_dumpable(&map(vec![]), Root::Scalar, 0));
    assert!(is_dumpable(&map(vec![(s("d"), map(vec![]))]), Root::Scalar, 0));
    assert!(is_dumpable(&seq(vec![]), Root::Scalar, 0));
}
