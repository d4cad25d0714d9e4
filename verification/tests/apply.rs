use oatie::apply::{apply_add, apply_add_inner, apply_delete, apply_operation};
use oatie::doc::AddElement::{AddChars, AddGroup, AddSkip, AddStyles, AddWithGroup};
use oatie::doc::DelElement::{DelChars, DelGroup, DelSkip, DelWithGroup};
use oatie::doc::DocElement::{DocChars, DocGroup};
use oatie::doc::{Attrs, DocElement, DocString, StyleMap};
use oatie::place::{doc_place, doc_place_all};

fn text(s: &str) -> DocString {
    DocString::from_str(s)
}

fn tag(t: &str) -> Attrs {
    Attrs::new().with("tag", t)
}

fn bold() -> StyleMap {
    let mut s = StyleMap::new();
    s.bold = true;
    s
}

#[test]
fn delete_skips_and_drops() {
    let doc = vec![DocChars(text("Hello world!"))];
    assert_eq!(
        apply_delete(&doc, &vec![DelSkip(5), DelChars(1), DelSkip(6)]),
        vec![DocChars(text("Helloworld!"))]
    );
    assert_eq!(apply_delete(&doc, &vec![DelChars(12)]), vec![]);
    assert_eq!(apply_delete(&doc, &vec![]), doc);
    assert_eq!(apply_delete(&doc, &vec![DelSkip(3)]), doc);
}

#[test]
fn delete_counts_scalar_values() {
    let doc = vec![DocChars(text("añ😀b"))];
    assert_eq!(apply_delete(&doc, &vec![DelSkip(1), DelChars(2)]), vec![DocChars(text("ab"))]);
}

#[test]
fn delete_descends_and_unwraps() {
    let doc = vec![
        DocGroup(tag("p"), vec![DocChars(text("abc"))]),
        DocChars(text("xyz")),
    ];
    assert_eq!(
        apply_delete(&doc, &vec![DelWithGroup(vec![DelSkip(1), DelChars(1)]), DelChars(1)]),
        vec![DocGroup(tag("p"), vec![DocChars(text("ac"))]), DocChars(text("yz"))]
    );
    assert_eq!(
        apply_delete(&doc, &vec![DelGroup(vec![DelChars(1)])]),
        vec![DocChars(text("bcxyz"))]
    );
    assert_eq!(
        apply_delete(&doc, &vec![DelSkip(2)]),
        doc
    );
}

#[test]
fn add_inserts_and_skips() {
    let doc = vec![DocChars(text("Hello world!"))];
    assert_eq!(
        apply_add(&doc, &vec![AddSkip(5), AddChars(text(","))]),
        vec![DocChars(text("Hello, world!"))]
    );
    assert_eq!(
        apply_add(&doc, &vec![AddChars(text(">> "))]),
        vec![DocChars(text(">> Hello world!"))]
    );
    assert_eq!(apply_add(&doc, &vec![]), doc);
}

#[test]
fn add_inner_gives_leftover() {
    let doc = vec![DocChars(text("abcdef"))];
    let (produced, leftover) = apply_add_inner(&doc, &vec![AddSkip(2), AddChars(text("X"))]);
    assert_eq!(produced, vec![DocChars(text("abX"))]);
    assert_eq!(leftover, vec![DocChars(text("cdef"))]);
}

#[test]
fn add_group_wraps_part_of_the_input() {
    let doc = vec![DocChars(text("abcdef"))];
    assert_eq!(
        apply_add(&doc, &vec![AddSkip(1), AddGroup(tag("b"), vec![AddSkip(2)]), AddSkip(1), AddChars(text("!"))]),
        vec![
            DocChars(text("a")),
            DocGroup(tag("b"), vec![DocChars(text("bc"))]),
            DocChars(text("d!ef")),
        ]
    );
}

#[test]
fn add_with_group_edits_children() {
    let doc = vec![DocGroup(tag("p"), vec![DocChars(text("abc"))]), DocChars(text("z"))];
    assert_eq!(
        apply_add(&doc, &vec![AddWithGroup(vec![AddSkip(3), AddChars(text("d"))])]),
        vec![DocGroup(tag("p"), vec![DocChars(text("abcd"))]), DocChars(text("z"))]
    );
}

#[test]
fn add_styles_overlays() {
    let doc = vec![DocChars(text("abcdef"))];
    let styled = |s: &str| DocChars(DocString::from_str_styled(s, bold()));
    assert_eq!(
        apply_add(&doc, &vec![AddSkip(2), AddStyles(2, bold())]),
        vec![DocChars(text("ab")), styled("cd"), DocChars(text("ef"))]
    );
    let mixed = vec![styled("ab"), DocChars(text("cd"))];
    assert_eq!(apply_add(&mixed, &vec![AddSkip(2), AddStyles(2, bold())]), vec![styled("abcd")]);
}

#[test]
fn styles_merge_with_right_bias() {
    let mut left = StyleMap::new();
    left.italic = true;
    left.link = Some("a".to_string());
    let mut right = StyleMap::new();
    right.bold = true;
    right.link = Some("b".to_string());
    left.extend(&right);
    assert!(left.bold && left.italic && !left.selected);
    assert_eq!(left.link, Some("b".to_string()));
    let mut keep = StyleMap::new();
    keep.link = Some("a".to_string());
    keep.extend(&StyleMap::new());
    assert_eq!(keep.link, Some("a".to_string()));
}

#[test]
fn operation_deletes_then_adds() {
    let doc = vec![DocChars(text("Hello world!"))];
    let op = (vec![DelSkip(6), DelChars(5)], vec![AddSkip(6), AddChars(text("there"))]);
    assert_eq!(apply_operation(&doc, &op), vec![DocChars(text("Hello there!"))]);
}

#[test]
fn place_merges_runs_of_the_same_styles() {
    let mut span: Vec<DocElement> = vec![];
    doc_place(&mut span, &DocChars(text("ab")));
    doc_place(&mut span, &DocChars(text("")));
    doc_place(&mut span, &DocChars(text("cd")));
    doc_place(&mut span, &DocChars(DocString::from_str_styled("ef", bold())));
    doc_place(&mut span, &DocGroup(tag("p"), vec![]));
    doc_place_all(&mut span, &vec![DocChars(text("g")), DocChars(text("h"))]);
    assert_eq!(
        span,
        vec![
            DocChars(text("abcd")),
            DocChars(DocString::from_str_styled("ef", bold())),
            DocGroup(tag("p"), vec![]),
            DocChars(text("gh")),
        ]
    );
}

#[test]
fn doc_string_splits_on_scalar_values() {
    let s = text("añ😀b");
    assert_eq!(s.char_len(), 4);
    let (l, r) = s.split_at(2);
    assert_eq!(l.as_str(), "añ");
    assert_eq!(r.as_str(), "😀b");
}
