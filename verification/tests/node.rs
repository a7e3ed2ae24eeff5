use yaml_peg::indicator::{indicated_msg, indicated_msg_file};
use yaml_peg::node::Ind;
use yaml_peg::number::to_i64;
use yaml_peg::parse;
use yaml_peg::yaml::{Node, Yaml};

fn node(y: Yaml) -> Node {
    Node::new(y, 0, "", "")
}

fn s(x: &str) -> Node {
    node(Yaml::Str(x.to_string()))
}

fn float(x: &str) -> Node {
    node(Yaml::Float(x.to_string()))
}

fn integer(x: &str) -> Node {
    node(Yaml::Int(x.to_string()))
}

#[test]
fn indicated_msg_doc_example() {
    let doc = indicated_msg("{\"a\": \n[\"b\", \"c\", \"d\"]}", 13);
    assert_eq!(doc, "2:7\n[\"b\", \"c\", \"d\"]}\n      ^");
}

#[test]
fn indicated_msg_with_path() {
    let doc = indicated_msg_file("f.yaml", "ab\ncd", 4);
    assert_eq!(doc, "f.yaml:2:2\ncd\n ^");
    assert_eq!(indicated_msg("ab", 2), "1:3\nab\n  ^");
}

#[test]
fn integer_texts() {
    assert_eq!(to_i64("0x1F"), Some(31));
    assert_eq!(to_i64("0o17"), Some(15));
    assert_eq!(to_i64("-12"), Some(-12));
    assert_eq!(to_i64("+7"), Some(7));
    assert_eq!(to_i64("abc"), None);
    assert_eq!(to_i64("99999999999999999999"), None);
}

#[test]
fn equality_ignores_position_tag_anchor() {
    let a = Node::new(Yaml::Str("a".to_string()), 3, "t", "x");
    assert_eq!(a, s("a"));
    assert_ne!(s("a"), s("b"));
    assert_eq!(float("NaN"), float("NaN"));
    assert_eq!(float("1.0"), float("1.00"));
    assert_ne!(float("1.0"), float("1.5"));
    assert_eq!(integer("0x10"), integer("16"));
    assert_ne!(integer("1"), float("1"));
}

#[test]
fn node_getters() {
    let n = node(Yaml::Mapping(vec![
        (s("a"), integer("0x10")),
        (s("b"), node(Yaml::Bool(true))),
        (s("c"), node(Yaml::Array(vec![s("x"), s("y")]))),
    ]));
    assert_eq!(n.get(&s("a")).unwrap().as_int(), Err(0));
    assert_eq!(integer("60").as_int(), Ok(60));
    assert_eq!(integer("-7").as_int(), Ok(-7));
    assert_eq!(n.get(&s("b")).unwrap().as_bool(), Ok(true));
    assert_eq!(n.get(&s("b")).unwrap().as_value(), Ok("true"));
    let c = n.get(&s("c")).unwrap();
    assert_eq!(c.get_ind(Ind(1)).unwrap(), &s("y"));
    assert_eq!(c.get_ind(Ind(2)), Err(0));
    assert_eq!(n.get(&s("z")), Err(0));
    assert_eq!(s("a").tag(), "tag:yaml.org,2002:str");
    assert_eq!(node(Yaml::Null).tag(), "tag:yaml.org,2002:null");
    assert_eq!(Node::new(Yaml::Null, 5, "my", "").tag(), "my");
    assert!(node(Yaml::Null).is_null());
    assert_eq!(node(Yaml::Null).as_str(), Ok(""));
    assert_eq!(s("q").as_str(), Ok("q"));
    assert_eq!(Node::new(Yaml::Null, 9, "", "").as_bool(), Err(9));
    assert_eq!(n.get_default(&s("z"), 5i64, |v| v.as_int()), Ok(5));
    assert_eq!(n.get_default(&s("a"), 5i64, |v| v.as_int()), Err(0));
}

#[test]
fn parse_documents_and_errors() {
    let (v, _) = parse("a\n---\nb\n").unwrap();
    assert_eq!(v, vec![s("a"), s("b")]);
    let e = parse("[a, b").unwrap_err();
    assert!(e.starts_with("invalid "));
    let (v, _) = parse("[1, 2.5, ~, true, .nan]").unwrap();
    assert_eq!(
        v[0],
        node(Yaml::Array(vec![integer("1"), float("2.5"), node(Yaml::Null), node(Yaml::Bool(true)), float("NaN")]))
    );
}

#[test]
fn from_conversions() {
    assert_eq!(Yaml::from(()), Yaml::Null);
    assert_eq!(Yaml::from(true), Yaml::Bool(true));
    assert_eq!(Yaml::from("s".to_string()), Yaml::Str("s".to_string()));
    assert_eq!(Yaml::from(vec![s("a")]), Yaml::Array(vec![s("a")]));
    assert_eq!(Yaml::from(vec![(s("a"), s("b"))]), Yaml::Mapping(vec![(s("a"), s("b"))]));
}

#[test]
fn message_with_path_is_path_and_message() {
    let doc = "{\"a\": \n[\"b\", \"c\", \"d\"]}";
    let with_path = indicated_msg_file("my/file.yaml", doc, 13);
    assert_eq!(with_path, format!("{}:{}", "my/file.yaml", indicated_msg(doc, 13)));
}
