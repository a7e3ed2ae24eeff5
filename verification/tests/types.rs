use yaml_peg::serde::{Foreign, InlineList, Optional, SerdeError};

#[test]
fn inline_list_queries() {
    let l: InlineList<u8> = InlineList::List(vec![1, 2]);
    assert_eq!(l.len(), 2);
    assert!(!l.is_empty());
    assert!(!l.is_single());
    let items: Vec<u8> = l.iter().into_iter().copied().collect();
    assert_eq!(items, vec![1, 2]);
    let i = InlineList::Inline(7u8);
    assert_eq!(i.len(), 1);
    assert!(i.is_single());
    assert!(!i.is_empty());
    assert_eq!(i.into_vec(), vec![7]);
    let e: InlineList<u8> = InlineList::default();
    assert!(e.is_empty());
    assert_eq!(e.len(), 0);
    let one: InlineList<u8> = InlineList::List(vec![3]);
    assert!(one.is_single());
}

#[derive(Default)]
struct Img {
    src: String,
}

#[test]
fn optional_doc_example() {
    let disabled: Optional<Img> = Optional::Bool(false);
    let default: Optional<Img> = Optional::Bool(true);
    let enabled = Optional::Custom(Img { src: "img/1.png".to_string() });
    let mut doc = String::new();
    disabled.ok(|img| doc += &img.src);
    doc += ":";
    default.ok_instead(|img| doc += &img.src, &Img { src: "~/img/.desktop.png".to_string() });
    doc += ":";
    enabled.ok(|img| doc += &img.src);
    assert_eq!(":~/img/.desktop.png:img/1.png", doc);
}

#[test]
fn optional_ok_or() {
    let disabled: Optional<u8> = Optional::Bool(false);
    let default: Optional<u8> = Optional::Bool(true);
    let custom = Optional::Custom(5u8);
    assert_eq!(disabled.ok_or(|x| *x as i32, || -1), -1);
    assert_eq!(default.ok_or(|x| *x as i32, || -1), 0);
    assert_eq!(custom.ok_or(|x| *x as i32, || -1), 5);
    assert_eq!(default.ok_or_instead(|x| *x as i32, &9, || -1), 9);
    assert_eq!(disabled.ok_or_instead(|x| *x as i32, &9, || -1), -1);
    assert_eq!(custom.ok_or_instead(|x| *x as i32, &9, || -1), 5);
    assert!(matches!(Optional::<u8>::default(), Optional::Bool(true)));
}

#[test]
fn serde_error_fields() {
    let e = SerdeError::from("missing anchor".to_string());
    assert_eq!(e.msg, "missing anchor");
    assert_eq!(e.pos, 0);
    let e = e.pos(20);
    assert_eq!(e.pos, 20);
    assert_eq!(e.msg, "missing anchor");
}

#[test]
fn foreign_constructors() {
    assert!(matches!(Foreign::data(3u8), Foreign::Data(3)));
    match Foreign::<u8>::anchor("my-anchor") {
        Foreign::Anchor { anchor } => assert_eq!(anchor, "my-anchor"),
        _ => panic!("not an anchor"),
    }
    assert!(matches!(Foreign::<u8>::default(), Foreign::Data(0)));
}
