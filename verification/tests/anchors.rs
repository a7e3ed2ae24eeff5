use yaml_peg::anchors::{anchor_resolve, anchor_visit, anchors_entries};
use yaml_peg::{parse, parse_cyclic};
use yaml_peg::yaml::{Node, Yaml};

fn node(y: Yaml) -> Node {
    Node::new(y, 0, "", "")
}

fn s(x: &str) -> Node {
    node(Yaml::Str(x.to_string()))
}

fn seq(v: Vec<Node>) -> Node {
    node(Yaml::Array(v))
}

fn map(v: Vec<(Node, Node)>) -> Node {
    node(Yaml::Mapping(v))
}

#[test]
fn visit_in_document_order() {
    let n = seq(vec![
        Node::new(Yaml::Str("a".to_string()), 0, "", "x"),
        Node::new(Yaml::Str("b".to_string()), 0, "", "y"),
        Node::new(Yaml::Str("c".to_string()), 0, "", "x"),
    ]);
    let v = anchor_visit(&n);
    let e = anchors_entries(&v);
    assert_eq!(e.len(), 2);
    assert_eq!(e[0].0, "y");
    assert_eq!(e[0].1, s("b"));
    assert_eq!(e[1].0, "x");
    assert_eq!(e[1].1, s("c"));
}

#[test]
fn visit_matches_parser() {
    let (nodes, anchors) = parse("- &a 1\n- b: &c [2]\n").unwrap();
    let v = anchor_visit(&nodes[0]);
    let e1 = anchors_entries(&v);
    let e2 = anchors_entries(&anchors);
    assert_eq!(e1.len(), 2);
    assert_eq!(e1.len(), e2.len());
    for i in 0..e1.len() {
        assert_eq!(e1[i].0, e2[i].0);
        assert_eq!(e1[i].1, e2[i].1);
    }
}

#[test]
fn replace_anchor_found_and_missing() {
    let (nodes, anchors) = parse_cyclic("- &x {a: b}\n- *x\n").unwrap();
    assert_eq!(nodes[0], seq(vec![map(vec![(s("a"), s("b"))]), node(Yaml::Alias("x".to_string()))]));
    let r = nodes[0].replace_anchor(&anchors).unwrap();
    assert_eq!(r, seq(vec![map(vec![(s("a"), s("b"))]), map(vec![(s("a"), s("b"))])]));
    let missing = seq(vec![node(Yaml::Alias("nope".to_string()))]);
    assert!(missing.replace_anchor(&anchors).is_none());
}

#[test]
fn anchor_resolve_doc_example() {
    let doc = "
- &seq
  - a: &sub b
  - a: *sub
- *seq
";
    let (mut ans, anchor) = parse_cyclic(doc).unwrap();
    let anchor = anchor_resolve(&anchor, 1).unwrap();
    let n = ans.remove(0).replace_anchor(&anchor).unwrap();
    let ab = map(vec![(s("a"), s("b"))]);
    assert_eq!(
        n,
        seq(vec![
            seq(vec![ab.clone(), map(vec![(s("a"), s("b"))])]),
            seq(vec![map(vec![(s("a"), s("b"))]), ab]),
        ])
    );
    assert!(anchor.get("sub").is_some());
}

#[test]
fn anchor_resolve_missing() {
    let (_, anchor) = parse_cyclic("- &x [*y]\n").unwrap();
    assert!(anchor_resolve(&anchor, 1).is_none());
}

#[test]
fn resolving_parsed_anchors_changes_nothing() {
    let (nodes, anchors) = parse("- &a {x: [1, 2]}\n- *a\n- &b c\n").unwrap();
    let resolved = anchor_resolve(&anchors, 2).unwrap();
    let e1 = anchors_entries(&anchors);
    let e2 = anchors_entries(&resolved);
    assert_eq!(e1.len(), 2);
    assert_eq!(e1.len(), e2.len());
    for i in 0..e1.len() {
        assert_eq!(e1[i].0, e2[i].0);
        assert_eq!(e1[i].1, e2[i].1);
    }
    assert_eq!(nodes[0].replace_anchor(&anchors).unwrap(), nodes[0]);
}
