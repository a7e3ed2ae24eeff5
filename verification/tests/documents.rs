use yaml_peg::yaml::{Node, Yaml};
use yaml_peg::{dump, parse, parse_cyclic};

fn node(y: Yaml) -> Node {
    Node::new(y, 0, "", "")
}

fn s(x: &str) -> Node {
    node(Yaml::Str(x.to_string()))
}

fn integer(x: &str) -> Node {
    node(Yaml::Int(x.to_string()))
}

fn float(x: &str) -> Node {
    node(Yaml::Float(x.to_string()))
}

fn seq(v: Vec<Node>) -> Node {
    node(Yaml::Array(v))
}

fn map(v: Vec<(Node, Node)>) -> Node {
    node(Yaml::Mapping(v))
}

const TEST_YAML: &str = r#"
---
a0 bb: val
::a1: &x  # Test comment after wrapped! (1)
  b1: 4.
  b2:
    - c1
-a2: !!t1 4.03  # Test comment after normal scalars~
?  # Test comment after wrapped! (2)
  - q
  - r  # Test comment after plain string...
  - s
: {1: 2, 3: 4}  # Test comment after wrapped! (3)
?a3: !t2
  - [d1, 中文]
  - ~
a4: *x
"#;

#[test]
fn tests_test_yaml() {
    let (ans, _) = parse_cyclic(TEST_YAML).unwrap_or_else(|e| panic!("{}", e));
    assert_eq!(
        ans[0],
        map(vec![
            (s("a0 bb"), s("val")),
            (
                s("::a1"),
                map(vec![(s("b1"), float("4.")), (s("b2"), seq(vec![s("c1")]))]),
            ),
            (s("-a2"), float("4.03")),
            (
                seq(vec![s("q"), s("r"), s("s")]),
                map(vec![(integer("1"), integer("2")), (integer("3"), integer("4"))]),
            ),
            (s("?a3"), seq(vec![seq(vec![s("d1"), s("中文")]), node(Yaml::Null)])),
            (s("a4"), node(Yaml::Alias("x".to_string()))),
        ])
    );
}

const JSON_COMPATIBILITY: &str = r#"{
  "a": "b",
  "c": [123, 321, 1234567],
  "d": {},
  "e:f": "g"
}
"#;

#[test]
fn mod_test_json() {
    let (mut root, _) = parse(JSON_COMPATIBILITY).unwrap_or_else(|e| panic!("{}", e));
    let n = root.remove(0);
    assert_eq!(
        n,
        map(vec![
            (s("a"), s("b")),
            (s("c"), seq(vec![integer("123"), integer("321"), integer("1234567")])),
            (s("d"), map(vec![])),
            (s("e:f"), s("g")),
        ])
    );
    let v = n.get(&s("a")).unwrap();
    assert_eq!(v, &s("b"));
}

const DUMP_RESULT: &str = "\
a: b
c:
  - d: e
  - f:
      g: h
  - i:
    - j
---
- a
- b
";

#[test]
fn test_dump() {
    let nodes = [
        map(vec![
            (s("a"), s("b")),
            (
                s("c"),
                seq(vec![
                    map(vec![(s("d"), s("e"))]),
                    map(vec![(s("f"), map(vec![(s("g"), s("h"))]))]),
                    map(vec![(s("i"), seq(vec![s("j")]))]),
                ]),
            ),
        ]),
        seq(vec![s("a"), s("b")]),
    ];
    let doc = dump(&nodes, &[]);
    assert_eq!(doc.replace("\r\n", "\n"), DUMP_RESULT.replace("\r\n", "\n"));
}

const INDENT: &str = "\
version: 2
models:
  - name: orders
    columns:
      - name: c_custkey
        tests:
          - not_null
map:
  - a
  - b
  - c
---
!normal-sequence
- a1
- true of
- a2
";

#[test]
fn test_indent() {
    let (mut root, _) = parse(INDENT).unwrap_or_else(|e| panic!("{}", e));
    let node1 = root.remove(0);
    let node2 = root.remove(0);
    assert_eq!(
        node1,
        map(vec![
            (s("version"), integer("2")),
            (
                s("models"),
                seq(vec![map(vec![
                    (s("name"), s("orders")),
                    (
                        s("columns"),
                        seq(vec![map(vec![
                            (s("name"), s("c_custkey")),
                            (s("tests"), seq(vec![s("not_null")])),
                        ])]),
                    ),
                ])]),
            ),
            (s("map"), seq(vec![s("a"), s("b"), s("c")])),
        ])
    );
    assert_eq!(node2.tag(), "normal-sequence");
    assert_eq!(node2, seq(vec![s("a1"), s("true of"), s("a2")]));
}

const COMPLETE_DOC: &str = r#"%YAML 1.2
%TAG ! tag:test.prefix:
%TAG !x! tag:test.x.prefix:
%TAG !my! tag:my.tag.prefix:
---
!x!root
a0 bb: !x!foo .val.
::a1: &x  # comment after a map key
  b1: 4.
  b2:
    - 50%
    - 8
    - 16
    - 2e-4
    - .NaN
    - -.inf
    - -.infs
    - 2001-11-23 15:01:42 -5
-a2: !t1 4.03  # comment after a scalar
?
  - q
  - r
  - s
: {1: 2, 3: 4}
?a3: !my!tt
  - [d1🀄🃏, 中文]
  - ~
  - null
  -
? {a4: }
: -30
? {a4: ~}
: b3, b4
test multiline:
  - folded: >
      aaa{}[]
      bbb
      ccc

      ddd

      # eee
    literal: |
      aaa{}[]
      bbb
        ccc

        ddd

      # eee
  - plain: aaa{}[] "bbb" 'ccc', ddd\n

      eee
      fff
    single quoted: 'aaa{}[] "bbb" ''ccc'', ddd\n

      eee
      fff

      # ggg'
    double quoted: "aaa{}[] \"bbb\" 'ccc', ddd\\n

      eee
      fff

      # ggg"
  - |+
    literal

  - |-
    literal
"#;

#[test]
fn mod_test_yaml() {
    let (mut root, _) = parse(COMPLETE_DOC).unwrap_or_else(|e| panic!("{}", e));
    let n = root.remove(0);
    let a4 = map(vec![(s("a4"), node(Yaml::Null))]);
    assert_eq!(
        n,
        map(vec![
            (s("a0 bb"), s(".val.")),
            (
                s("::a1"),
                map(vec![
                    (s("b1"), float("4.")),
                    (
                        s("b2"),
                        seq(vec![
                            s("50%"),
                            integer("8"),
                            integer("16"),
                            float("0.0002"),
                            float("NaN"),
                            float("-inf"),
                            s("-.infs"),
                            s("2001-11-23 15:01:42 -5"),
                        ]),
                    ),
                ]),
            ),
            (s("-a2"), float("4.03")),
            (
                seq(vec![s("q"), s("r"), s("s")]),
                map(vec![(integer("1"), integer("2")), (integer("3"), integer("4"))]),
            ),
            (
                s("?a3"),
                seq(vec![
                    seq(vec![s("d1🀄🃏"), s("中文")]),
                    node(Yaml::Null),
                    node(Yaml::Null),
                    node(Yaml::Null),
                ]),
            ),
            (a4, s("b3, b4")),
            (
                s("test multiline"),
                seq(vec![
                    map(vec![
                        (s("folded"), s("aaa{}[] bbb ccc\nddd\n# eee\n")),
                        (s("literal"), s("aaa{}[]\nbbb\n  ccc\n\n  ddd\n\n# eee\n")),
                    ]),
                    map(vec![
                        (s("plain"), s("aaa{}[] \"bbb\" 'ccc', ddd\\n\neee fff")),
                        (s("single quoted"), s("aaa{}[] \"bbb\" 'ccc', ddd\\n\neee fff\n# ggg")),
                        (s("double quoted"), s("aaa{}[] \"bbb\" 'ccc', ddd\\n\neee fff\n# ggg")),
                    ]),
                    s("literal\n\n"),
                    s("literal"),
                ]),
            ),
        ])
    );
    assert_eq!(n.tag(), "tag:test.x.prefix:root");
    assert_eq!(n.get(&s("a0 bb")).unwrap().tag(), "tag:test.x.prefix:foo");
    assert_eq!(n.get(&s("-a2")).unwrap().tag(), "tag:test.prefix:t1");
    assert_eq!(n.get(&s("?a3")).unwrap().tag(), "tag:my.tag.prefix:tt");
}

#[test]
fn map_keys_go_by_their_texts() {
    let k = |s: &str| Node::new(Yaml::Int(s.to_string()), 0, "", "");
    let v = |s: &str| Node::new(Yaml::Str(s.to_string()), 0, "", "");
    let mut m: Vec<(Node, Node)> = Vec::new();
    yaml_peg::yaml::map_insert(&mut m, k("0x10"), v("a"));
    yaml_peg::yaml::map_insert(&mut m, k("16"), v("b"));
    assert_eq!(m.len(), 2);
    yaml_peg::yaml::map_insert(&mut m, k("0x10"), v("c"));
    assert_eq!(m.len(), 2);
    assert!(matches!(m[1].0.yaml, Yaml::Int(ref s) if s == "0x10"));
    assert!(matches!(m[1].1.yaml, Yaml::Str(ref s) if s == "c"));
    assert!(Yaml::Int("0x10".to_string()) == Yaml::Int("16".to_string()));
}
