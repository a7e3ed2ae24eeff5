use yaml_peg::parser::strings::Chomp;
use yaml_peg::parser::{PError, Parser, TakeOpt};
use yaml_peg::Yaml;

#[test]
fn plain_stops_at_key_indicator() {
    let mut p = Parser::new(b"key  : value");
    assert_eq!(p.string_plain(0, false).unwrap(), "key");
    assert_eq!(p.pos, 5);
    let mut p = Parser::new(b"a,b]");
    assert_eq!(p.string_plain(0, true).unwrap(), "a");
    assert_eq!(p.pos, 1);
    let mut p = Parser::new(b"x #c");
    assert_eq!(p.string_plain(0, false).unwrap(), "x");
    let mut p = Parser::new(b": x");
    assert!(matches!(p.string_plain(0, false), Err(PError::Mismatch)));
    assert_eq!(p.pos, 0);
}

#[test]
fn quoted_simple_content() {
    let mut p = Parser::new(b"'abc' x");
    assert_eq!(p.string_quoted(b'\'', b"''").unwrap(), "abc");
    assert_eq!(p.pos, 5);
    let mut p = Parser::new(b"'it''s'");
    assert_eq!(p.string_quoted(b'\'', b"''").unwrap(), "it's");
    let mut p = Parser::new(b"'open");
    assert!(p.string_quoted(b'\'', b"''").is_err());
    assert_eq!(p.pos, 0);
}

#[test]
fn lexical_atoms() {
    let mut p = Parser::new(b"&anc rest");
    assert_eq!(p.anchor().unwrap(), "anc");
    let mut p = Parser::new(b"*ali");
    assert_eq!(p.alias().unwrap(), "ali");
    let mut p = Parser::new(b"-12 ");
    assert_eq!(p.integer().unwrap(), "-12");
    let mut p = Parser::new(b"3.5,");
    assert_eq!(p.float().unwrap(), "3.5");
    let mut p = Parser::new(b"1e-3");
    assert_eq!(p.sci_float().unwrap(), "1e-3");
    let mut p = Parser::new(b"-.INF");
    assert_eq!(p.inf().unwrap(), false);
    let mut p = Parser::new(b"--- x");
    assert!(p.at_doc_marker());
}

#[test]
fn chomp_indicators() {
    let mut p = Parser::new(b"-\n");
    assert!(matches!(p.chomp(), Chomp::Strip));
    assert_eq!(p.pos, 1);
    let mut p = Parser::new(b"+\n");
    assert!(matches!(p.chomp(), Chomp::Keep));
    assert_eq!(p.pos, 1);
    let mut p = Parser::new(b"\n");
    assert!(matches!(p.chomp(), Chomp::Clip));
    assert_eq!(p.pos, 0);
}

#[test]
fn verbatim_tag_and_mismatch() {
    let mut p = Parser::new(b"!<tag:x> a");
    assert_eq!(p.tag().unwrap(), "tag:x");
    assert_eq!(p.pos, 8);
    let mut p = Parser::new(b"x");
    assert!(matches!(p.tag(), Err(PError::Mismatch)));
    let mut p = Parser::new(b"!<> a");
    assert!(matches!(p.tag(), Err(PError::Mismatch)));
    assert_eq!(p.pos, 0);
}

#[test]
fn directives_read() {
    let mut p = Parser::new(b"%FOO bar\n---");
    assert!(p.directive().is_ok());
    let mut p = Parser::new(b"%YAML 1.2\n%YAML 1.1\n");
    assert!(p.directive().is_ok());
    assert!(p.version_checked);
    assert!(matches!(p.directive(), Err(PError::Terminate { .. })));
    let mut p = Parser::new(b"%TAG ! tag:x\n");
    assert!(p.directive().is_ok());
    assert_eq!(p.tag_prefix_of(b"!"), Some(b"tag:x".to_vec()));
    let mut p = Parser::new(b"a");
    assert!(matches!(p.directive(), Err(PError::Mismatch)));
}

#[test]
fn structures_on_simple_input() {
    let mut p = Parser::new(b"abc");
    assert!(matches!(p.map(0, false, false), Ok(Yaml::Str(ref s)) if s == "abc"));
    assert_eq!(p.pos, 3);
    let mut p = Parser::new(b"abc");
    assert!(matches!(p.map(0, true, false), Err(PError::Mismatch)));
    let mut p = Parser::new(b"- a");
    assert!(matches!(p.seq(0, false), Ok(Yaml::Array(ref v)) if v.len() == 1));
    assert_eq!(p.pos, 3);
    let mut p = Parser::new(b"x");
    assert!(matches!(p.seq(0, false), Err(PError::Mismatch)));
    let mut p = Parser::new(b"[ ]");
    assert!(matches!(p.seq_flow(0), Ok(Yaml::Array(ref v)) if v.is_empty()));
    assert_eq!(p.pos, 3);
    let mut p = Parser::new(b"{\n}");
    assert!(matches!(p.map_flow(0), Ok(Yaml::Mapping(ref m)) if m.is_empty()));
    assert_eq!(p.pos, 3);
    let mut p = Parser::new(b"]");
    assert!(matches!(p.scalar_term(0, false), Ok(Yaml::Null)));
    assert_eq!(p.pos, 0);
    let mut p = Parser::new(b"]");
    assert!(matches!(p.scalar(0, false, false), Ok(ref n) if matches!(n.yaml, Yaml::Null)));
    assert_eq!(p.pos, 0);
    let mut p = Parser::new(b"");
    assert!(matches!(p.doc(), Ok(ref n) if matches!(n.yaml, Yaml::Null)));
    let mut p = Parser::new(b"word");
    assert!(p.doc().is_ok());
    assert_eq!(p.pos, 4);
}

#[test]
fn wrapped_lines_keep_blank_line() {
    let mut p = Parser::new(b"\n\nx");
    let s = p.string_wrapped(0, b'\n', true).unwrap();
    assert!(s.starts_with('\n') && s.ends_with('\n') && s.len() >= 2);
    let mut p = Parser::new(b"x");
    assert_eq!(p.string_wrapped(0, b'\n', true).unwrap(), "\n");
    assert_eq!(p.pos, 0);
}

#[test]
fn terms_and_one_entry_map() {
    let mut p = Parser::new(b"*x rest");
    p.keep_alias = true;
    assert!(matches!(p.scalar_term(0, false), Ok(Yaml::Alias(ref a)) if a == "x"));
    assert_eq!(p.pos, 2);
    let mut p = Parser::new(b"'ab' x");
    assert!(matches!(p.scalar_term(0, false), Ok(Yaml::Str(ref s)) if s == "ab"));
    assert_eq!(p.pos, 4);
    let mut p = Parser::new(b"k: v");
    assert!(matches!(p.map(0, false, false), Ok(Yaml::Mapping(ref m)) if m.len() == 1));
    assert_eq!(p.pos, 4);
    let mut p = Parser::new(b"key");
    assert!(matches!(p.scalar_flow(0, false), Ok(ref n) if matches!(n.yaml, Yaml::Str(ref s) if s == "key")));
    assert_eq!(p.pos, 3);
}

#[test]
fn secondary_tag_handle() {
    let mut p = Parser::new(b"!!str x");
    assert_eq!(p.tag().unwrap(), "tag:yaml.org,2002:str");
    assert_eq!(p.pos, 5);
}

#[test]
fn take_while_bounds() {
    let f = |c: &u8| *c == b'a';
    let mut p = Parser::new(b"aab");
    assert!(p.take_while(f, TakeOpt::More(1)).is_ok());
    assert_eq!(p.pos, 2);
    let mut q = Parser::new(b"aab");
    assert!(matches!(q.take_while(f, TakeOpt::More(3)), Err(PError::Mismatch)));
    assert_eq!(q.pos, 0);
    let mut r = Parser::new(b"aab");
    assert!(r.take_while(f, TakeOpt::Range(0, 1)).is_ok());
    assert_eq!(r.pos, 1);
    let mut s = Parser::new(b"aab");
    assert!(s.take_while(|c: &u8| *c == b'b', TakeOpt::One).is_err());
    assert_eq!(s.pos, 0);
    let mut t = Parser::new(b"aa");
    assert!(t.take_while(f, TakeOpt::Range(0, 0)).is_ok());
    assert_eq!(t.pos, 0);
}

#[test]
fn gap_counts_lines() {
    let mut p = Parser::new(b"\n\n x");
    assert_eq!(p.gap(false).unwrap(), 2);
    assert_eq!(p.pos, 2);
    let mut p = Parser::new(b"x");
    assert!(p.gap(true).is_err());
}

#[test]
fn quoted_folded_lines() {
    let mut q = Parser::new(b"'a\n  b'");
    assert_eq!(q.string_quoted(b'\'', b"''").unwrap(), "a b");
    let mut r = Parser::new(b"'a\n\n  b'");
    assert_eq!(r.string_quoted(b'\'', b"''").unwrap(), "a\nb");
    let mut p = Parser::new(b"'it''s'");
    assert_eq!(p.string_quoted(b'\'', b"''").unwrap(), "it's");
    assert_eq!(p.pos, 7);
}

#[test]
fn wrapped_and_block_text() {
    let mut p = Parser::new(b"\n  a\n  b\n");
    assert_eq!(p.string_wrapped(1, b'\n', true).unwrap(), "a\nb\n");
    assert_eq!(p.pos, 8);
    let mut q = Parser::new(b"\n  a\n  b\n");
    assert_eq!(q.string_wrapped(1, b' ', false).unwrap(), "a b\n");
    let mut l = Parser::new(b"|\n  a\n");
    assert_eq!(l.string_literal(1).unwrap(), "a\n");
    assert_eq!(l.pos, 5);
    let mut x = Parser::new(b"x");
    assert!(matches!(x.string_literal(1), Err(PError::Mismatch)));
}

#[test]
fn plain_keeps_inner_colon() {
    let mut p = Parser::new(b"e:f");
    assert_eq!(p.string_plain(1, false).unwrap(), "e:f");
    let mut p = Parser::new(b"a\n b: c");
    assert_eq!(p.string_plain(0, false).unwrap(), "a b");
}

#[test]
fn number_and_name_scanners() {
    let mut p = Parser::new(b"12 ");
    assert_eq!(p.integer().unwrap(), "12");
    assert_eq!(p.pos, 3);
    let mut p = Parser::new(b"12x");
    assert!(p.integer().is_err());
    assert_eq!(p.pos, 0);
    let mut p = Parser::new(b"-1.5]");
    assert_eq!(p.float().unwrap(), "-1.5");
    assert_eq!(p.pos, 4);
    let mut p = Parser::new(b"2E+10");
    assert_eq!(p.sci_float().unwrap(), "2E+10");
    let mut p = Parser::new(b".NaN");
    assert!(p.nan().is_ok());
    let mut p = Parser::new(b"-.inf");
    assert_eq!(p.inf().unwrap(), false);
    let mut p = Parser::new(b"&a-1 x");
    assert_eq!(p.anchor().unwrap(), "a-1");
    assert_eq!(p.pos, 4);
    let mut p = Parser::new(b"? k");
    assert!(p.complex_mapping().is_ok());
    assert_eq!(p.pos, 2);
    let mut p = Parser::new(b"?k");
    assert!(p.complex_mapping().is_err());
}

#[test]
fn terms_give_typed_numbers() {
    let mut p = Parser::new(b"12");
    assert!(matches!(p.scalar_term(0, false), Ok(Yaml::Int(ref s)) if s == "12"));
    let mut p = Parser::new(b"1.5");
    assert!(matches!(p.scalar_term(0, false), Ok(Yaml::Float(ref s)) if s == "1.5"));
    let mut p = Parser::new(b"null");
    assert!(matches!(p.scalar_term(0, false), Ok(Yaml::Null)));
    let mut p = Parser::new(b"nulls");
    assert!(matches!(p.scalar_term(0, false), Ok(Yaml::Str(ref s)) if s == "nulls"));
}

#[test]
fn whole_documents_of_one_word() {
    let (v, _) = yaml_peg::parse("").unwrap();
    assert_eq!(v.len(), 1);
    assert!(matches!(v[0].yaml, Yaml::Null));
    let (v, _) = yaml_peg::parse("true").unwrap();
    assert!(matches!(v[0].yaml, Yaml::Bool(true)));
}

#[test]
fn map_equality_keeps_order() {
    let s = |x: &str| yaml_peg::Node::new(Yaml::Str(x.to_string()), 0, "", "");
    let ab = Yaml::Mapping(vec![(s("a"), s("1")), (s("b"), s("2"))]);
    let ab2 = Yaml::Mapping(vec![(s("a"), s("1")), (s("b"), s("2"))]);
    let ba = Yaml::Mapping(vec![(s("b"), s("2")), (s("a"), s("1"))]);
    assert!(ab == ab2);
    assert!(ab != ba);
}

#[test]
fn flow_lists_of_words() {
    let mut p = Parser::new(b"[a, b ,c]");
    match p.seq_flow(0) {
        Ok(Yaml::Array(v)) => {
            assert_eq!(v.len(), 3);
            assert!(matches!(v[1].yaml, Yaml::Str(ref s) if s == "b"));
        },
        _ => panic!("not a sequence"),
    }
    assert_eq!(p.pos, 9);
    let mut p = Parser::new(b"{a}");
    assert!(matches!(p.map_flow(0), Err(PError::Terminate { name: "flow map splitter", .. })));
}

#[test]
fn directive_error_names() {
    let mut p = Parser::new(b"%YAML 1.3\n");
    assert!(matches!(p.directive(), Err(PError::Terminate { name: "version", .. })));
    let mut p = Parser::new(b"%YAML 1.1\n");
    assert!(matches!(p.directive(), Err(PError::Terminate { name: "version", .. })));
    let mut p = Parser::new(b"%YAML 1.2\n%YAML 1.2\n");
    assert!(p.directive().is_ok());
    assert!(matches!(p.directive(), Err(PError::Terminate { name: "checked version", .. })));
}

#[test]
fn aliases_and_anchors() {
    let (v, _) = yaml_peg::parse("- &x a\n- *x\n").unwrap();
    match &v[0].yaml {
        Yaml::Array(items) => assert!(matches!(items[1].yaml, Yaml::Str(ref s) if s == "a")),
        _ => panic!("not a sequence"),
    }
    let mut p = Parser::new(b"*y");
    assert!(matches!(p.scalar_term(0, false), Err(PError::Terminate { name: "anchor", .. })));
}

#[test]
fn lone_alias_documents() {
    let (v, _) = yaml_peg::parse_cyclic("*x").unwrap();
    assert_eq!(v.len(), 1);
    assert!(matches!(v[0].yaml, Yaml::Alias(ref a) if a == "x"));
    let e = yaml_peg::parse("*x").unwrap_err();
    assert!(e.starts_with("invalid anchor"));
}

#[test]
fn block_sequence_of_numbers() {
    let mut p = Parser::new(b"- 1\n- 2\n");
    match p.seq(0, false) {
        Ok(Yaml::Array(v)) => {
            assert_eq!(v.len(), 2);
            assert!(matches!(v[0].yaml, Yaml::Int(ref s) if s == "1"));
            assert!(matches!(v[1].yaml, Yaml::Int(ref s) if s == "2"));
        },
        _ => panic!("not a sequence"),
    }
    assert_eq!(p.pos, 7);
}

#[test]
fn block_map_of_numbers() {
    let mut p = Parser::new(b"a: 1\nb: 2\n");
    match p.map(0, false, false) {
        Ok(Yaml::Mapping(m)) => {
            assert_eq!(m.len(), 2);
            assert!(matches!(m[0].0.yaml, Yaml::Str(ref s) if s == "a"));
            assert!(matches!(m[1].1.yaml, Yaml::Int(ref s) if s == "2"));
        },
        _ => panic!("not a map"),
    }
    assert_eq!(p.pos, 9);
    let mut p = Parser::new(b"a: 1\nc");
    assert!(matches!(p.map(0, false, false), Err(PError::Terminate { name: "map splitter", .. })));
}

#[test]
fn document_of_numbers() {
    let (v, _) = yaml_peg::parse("- 1\n- 2\n").unwrap();
    assert_eq!(v.len(), 1);
    match &v[0].yaml {
        Yaml::Array(items) => {
            assert_eq!(items.len(), 2);
            assert!(matches!(items[1].yaml, Yaml::Int(ref s) if s == "2"));
        },
        _ => panic!("not a sequence"),
    }
}

#[test]
fn flow_map_of_numbers() {
    let mut p = Parser::new(b"{1: 2, 3: 4}");
    match p.map_flow(0) {
        Ok(Yaml::Mapping(m)) => {
            assert_eq!(m.len(), 2);
            assert!(matches!(m[0].0.yaml, Yaml::Int(ref s) if s == "1"));
            assert!(matches!(m[0].1.yaml, Yaml::Int(ref s) if s == "2"));
            assert!(matches!(m[1].0.yaml, Yaml::Int(ref s) if s == "3"));
            assert!(matches!(m[1].1.yaml, Yaml::Int(ref s) if s == "4"));
        },
        _ => panic!("not a map"),
    }
    assert_eq!(p.pos, 12);
    let mut p = Parser::new(b"{a}");
    assert!(matches!(p.map_flow(0), Err(PError::Terminate { name: "flow map splitter", .. })));
}

#[test]
fn named_tag_handle_directive() {
    let mut p = Parser::new(b"%TAG !x! pre:\n!x!foo");
    assert!(p.directive().is_ok());
    assert_eq!(p.tag_prefix_of(b"x"), Some(b"pre:".to_vec()));
    assert_eq!(p.tag().unwrap(), "pre:foo");
}

#[test]
fn term_keywords() {
    for w in ["~", "null", "Null", "NULL"] {
        let mut p = Parser::new(w.as_bytes());
        assert!(matches!(p.scalar_term(1, false), Ok(Yaml::Null)), "{}", w);
    }
    for w in ["true", "True", "TRUE"] {
        let mut p = Parser::new(w.as_bytes());
        assert!(matches!(p.scalar_term(1, false), Ok(Yaml::Bool(true))), "{}", w);
    }
    let mut p = Parser::new(b"False");
    assert!(matches!(p.scalar_term(1, false), Ok(Yaml::Bool(false))));
    let mut p = Parser::new(b".nan");
    assert!(matches!(p.scalar_term(1, false), Ok(Yaml::Float(ref s)) if s == "NaN"));
    let mut p = Parser::new(b".inf");
    assert!(matches!(p.scalar_term(1, false), Ok(Yaml::Float(ref s)) if s == "inf"));
    let mut p = Parser::new(b"-.inf");
    assert!(matches!(p.scalar_term(1, false), Ok(Yaml::Float(ref s)) if s == "-inf"));
    let mut p = Parser::new(b"nulls");
    assert!(matches!(p.scalar_term(1, false), Ok(Yaml::Str(ref s)) if s == "nulls"));
    let mut p = Parser::new(b"'it''s'");
    assert!(matches!(p.scalar_term(1, false), Ok(Yaml::Str(ref s)) if s == "it's"));
    assert_eq!(p.pos, 7);
}

#[test]
fn flow_lists_of_numbers() {
    let mut p = Parser::new(b"[1, 2]");
    match p.seq_flow(0) {
        Ok(Yaml::Array(v)) => {
            assert_eq!(v.len(), 2);
            assert!(matches!(v[0].yaml, Yaml::Int(ref s) if s == "1"));
            assert!(matches!(v[1].yaml, Yaml::Int(ref s) if s == "2"));
        },
        _ => panic!("not a sequence"),
    }
    assert_eq!(p.pos, 6);
    let mut p = Parser::new(b"[1, 2, ]");
    match p.seq_flow(0) {
        Ok(Yaml::Array(v)) => assert_eq!(v.len(), 2),
        _ => panic!("not a sequence"),
    }
    assert_eq!(p.pos, 8);
    let mut p = Parser::new(b"[]");
    assert!(matches!(p.seq_flow(0), Ok(Yaml::Array(ref v)) if v.is_empty()));
}

#[test]
fn anchored_number() {
    let mut p = Parser::new(b"&x 1\n");
    let n = p.scalar_flow(1, false).unwrap();
    assert!(matches!(n.yaml, Yaml::Int(ref s) if s == "1"));
    assert_eq!(n.anchor, "x");
    assert_eq!(n.pos, 3);
    assert_eq!(p.pos, 4);
    assert!(matches!(p.anchors.get("x"), Some(a) if matches!(a.yaml, Yaml::Int(ref s) if s == "1")));
}

#[test]
fn documents_in_order() {
    let (v, _) = yaml_peg::parse("- 1\n---\n- 2\n").unwrap();
    assert_eq!(v.len(), 2);
    assert!(matches!(&v[0].yaml, Yaml::Array(items) if matches!(items[0].yaml, Yaml::Int(ref s) if s == "1")));
    assert!(matches!(&v[1].yaml, Yaml::Array(items) if matches!(items[0].yaml, Yaml::Int(ref s) if s == "2")));
    let e = yaml_peg::parse("- 1\nfoo").unwrap_err();
    assert!(e.starts_with("invalid document splitter"));
    let mut p = Parser::new(b"- 1\nfoo");
    assert!(matches!(p.parse(), Err(PError::Terminate { name: "document splitter", .. })));
}

#[test]
fn block_map_keeps_insertion_order() {
    let mut p = Parser::new(b"a: 1\nb: 2\na: 3\n");
    match p.map(0, false, false) {
        Ok(Yaml::Mapping(m)) => {
            assert_eq!(m.len(), 2);
            assert!(matches!(m[0].0.yaml, Yaml::Str(ref s) if s == "b"));
            assert!(matches!(m[1].0.yaml, Yaml::Str(ref s) if s == "a"));
            assert!(matches!(m[1].1.yaml, Yaml::Int(ref s) if s == "3"));
        },
        _ => panic!("not a map"),
    }
}

#[test]
fn map_splitter_after_word_value() {
    let mut p = Parser::new(b"a: b\nc");
    assert!(matches!(p.map(0, false, false), Err(PError::Terminate { name: "map splitter", .. })));
}

#[test]
fn block_map_of_words_and_keywords() {
    let mut p = Parser::new(b"name: Bob\nmarried: true\nage: 46\n");
    match p.map(0, false, false) {
        Ok(Yaml::Mapping(m)) => {
            assert_eq!(m.len(), 3);
            assert!(matches!(m[0].1.yaml, Yaml::Str(ref s) if s == "Bob"));
            assert!(matches!(m[1].1.yaml, Yaml::Bool(true)));
            assert!(matches!(m[2].1.yaml, Yaml::Int(ref s) if s == "46"));
        },
        _ => panic!("not a map"),
    }
    assert_eq!(p.pos, 31);
}

#[test]
fn readme_document() {
    let (v, anchors) = yaml_peg::parse("\n---\nname: Bob\nmarried: true\nage: 46\n").unwrap();
    assert_eq!(anchors.len(), 0);
    assert_eq!(v.len(), 1);
    match &v[0].yaml {
        Yaml::Mapping(m) => {
            assert_eq!(m.len(), 3);
            assert!(matches!(m[0].0.yaml, Yaml::Str(ref s) if s == "name"));
            assert!(matches!(m[0].1.yaml, Yaml::Str(ref s) if s == "Bob"));
            assert!(matches!(m[1].1.yaml, Yaml::Bool(true)));
            assert!(matches!(m[2].1.yaml, Yaml::Int(ref s) if s == "46"));
        },
        _ => panic!("not a map"),
    }
}

#[test]
fn block_sequence_of_words() {
    let mut p = Parser::new(b"- a\n- true\n- 3\n");
    match p.seq(0, false) {
        Ok(Yaml::Array(v)) => {
            assert_eq!(v.len(), 3);
            assert!(matches!(v[0].yaml, Yaml::Str(ref s) if s == "a"));
            assert!(matches!(v[1].yaml, Yaml::Bool(true)));
            assert!(matches!(v[2].yaml, Yaml::Int(ref s) if s == "3"));
        },
        _ => panic!("not a sequence"),
    }
    assert_eq!(p.pos, 14);
    let (docs, _) = yaml_peg::parse("- a\n- b\n").unwrap();
    assert_eq!(docs.len(), 1);
    assert!(matches!(&docs[0].yaml, Yaml::Array(v) if v.len() == 2 && matches!(v[1].yaml, Yaml::Str(ref s) if s == "b")));
    let e = yaml_peg::parse("- a\nfoo").unwrap_err();
    assert!(e.starts_with("invalid document splitter"));
}

#[test]
fn document_after_start_marker() {
    let (docs, _) = yaml_peg::parse("---\n- 1\n- x\n").unwrap();
    assert_eq!(docs.len(), 1);
    match &docs[0].yaml {
        Yaml::Array(v) => {
            assert_eq!(v.len(), 2);
            assert!(matches!(v[0].yaml, Yaml::Int(ref s) if s == "1"));
            assert!(matches!(v[1].yaml, Yaml::Str(ref s) if s == "x"));
        },
        _ => panic!("not a sequence"),
    }
}
