use yaml_peg::parser::parse;
use yaml_peg::yaml::{Node, Yaml};

const TEST_JSON: &str = r#"
{
    "a": "b",
    "c": [123, 321, 1234567],
    "d": {}
}
"#;

fn node(y: Yaml) -> Node {
    Node::new(y, 0, "", "")
}

fn s(x: &str) -> Node {
    node(Yaml::Str(x.to_string()))
}

fn integer(x: &str) -> Node {
    node(Yaml::Int(x.to_string()))
}

fn seq(v: Vec<Node>) -> Node {
    node(Yaml::Array(v))
}

fn map(v: Vec<(Node, Node)>) -> Node {
    node(Yaml::Mapping(v))
}

fn ab() -> Node {
    map(vec![(s("a"), s("b"))])
}

#[test]
fn tests_test_json() {
    let (ans, _) = parse(TEST_JSON).unwrap_or_else(|e| panic!("{}", e));
    assert_eq!(
        ans[0],
        map(vec![
            (s("a"), s("b")),
            (s("c"), seq(vec![integer("123"), integer("321"), integer("1234567")])),
            (s("d"), map(vec![])),
        ])
    );
    let n = ans[0].get(&s("a")).unwrap();
    assert_eq!(n, &s("b"));
}

const ANCHOR_DOC: &str = "\
- &x
  a: b
- *x
- &y {a: b}
- *y
- &s
  - *x
  - *y
- *s
";

#[test]
fn test_anchor() {
    let (mut root, _) = parse(ANCHOR_DOC).unwrap_or_else(|e| panic!("{}", e));
    let node = root.remove(0);
    assert_eq!(
        node,
        seq(vec![
            ab(),
            ab(),
            ab(),
            ab(),
            seq(vec![ab(), ab()]),
            seq(vec![ab(), ab()]),
        ])
    );
}

#[test]
fn readme_parse_scenario() {
    let doc = "
---
name: Bob
married: true
age: 46
";
    let (n, anchors) = parse(doc).unwrap();
    assert_eq!(anchors.len(), 0);
    assert_eq!(
        n,
        vec![map(vec![
            (s("name"), s("Bob")),
            (s("married"), node(Yaml::Bool(true))),
            (s("age"), integer("46")),
        ])]
    );
}
