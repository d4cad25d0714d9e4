use oatie::caret::caret_attrs;
use oatie::doc::DocElement::{DocChars, DocGroup};
use oatie::doc::{Attrs, CurElement, DocElement, DocString};
use oatie::stepper::{CurStepper, DocStepper};
use oatie::walkers::{is_block, is_caret, Pos, Walker};

fn text(s: &str) -> DocString {
    DocString::from_str(s)
}

fn tag(t: &str) -> Attrs {
    Attrs::new().with("tag", t)
}

fn sample() -> Vec<DocElement> {
    vec![
        DocGroup(tag("h1"), vec![DocChars(text("Hi"))]),
        DocGroup(
            tag("p"),
            vec![DocChars(text("ab")), DocGroup(caret_attrs("c", true), vec![]), DocChars(text("cd"))],
        ),
    ]
}

#[test]
fn attributes_are_looked_up() {
    let a = Attrs::new().with("tag", "span").with("class", "bold").with("tag", "p");
    assert_eq!(a.get("tag"), Some(&"p".to_string()));
    assert_eq!(a.get("class"), Some(&"bold".to_string()));
    assert_eq!(a.get("id"), None);
    assert!(a.has("class", "bold"));
    assert!(a.has("tag", "p"));
    assert!(!a.has("tag", "span"));
    assert!(is_block(&tag("h3")));
    assert!(is_block(&tag("pre")));
    assert!(!is_block(&tag("span")));
    assert!(is_caret(&caret_attrs("x", false)));
    assert!(!is_caret(&tag("p")));
}

#[test]
fn doc_stepper_steps_over_units() {
    let doc = sample();
    let mut s = DocStepper::new(&doc);
    assert!(!s.is_done());
    s.skip(1);
    assert_eq!((s.index, s.offset), (1, 0));
    s.enter();
    assert_eq!(s.path, vec![1]);
    s.skip(1);
    assert_eq!((s.index, s.offset), (0, 1));
    assert_eq!(s.head(), Some(DocChars(text("b"))));
    assert_eq!(s.unhead(), Some(DocChars(text("a"))));
    s.skip(3);
    assert_eq!((s.index, s.offset), (2, 1));
    s.skip(1);
    assert!(s.at_end());
    assert_eq!(s.head(), None);
    s.exit();
    assert!(s.is_done());
    assert_eq!((s.index, s.offset), (2, 0));
}

#[test]
fn cur_stepper_enters_and_leaves() {
    let cur = vec![CurElement::CurSkip(1), CurElement::CurWithGroup(vec![CurElement::CurChar])];
    let mut s = CurStepper::new(&cur);
    assert_eq!(s.get_head(), CurElement::CurSkip(1));
    s.next();
    s.enter();
    assert_eq!(s.get_head(), CurElement::CurChar);
    s.next();
    assert!(!s.has_head());
    assert!(!s.is_done());
    s.exit();
    assert!(s.is_done());
}

#[test]
fn walker_counts_caret_positions() {
    let doc = sample();
    let mut w = Walker::new(&doc);
    assert_eq!(w.caret_pos, -1);
    assert!(w.goto_pos(0));
    assert_eq!((w.stepper.path.clone(), w.stepper.index, w.stepper.offset), (vec![0], 0, 0));
    assert!(w.goto_pos(3));
    assert_eq!((w.stepper.path.clone(), w.stepper.index, w.stepper.offset), (vec![1], 0, 0));
    assert!(w.next_char());
    assert_eq!(w.caret_pos, 4);
    assert_eq!((w.stepper.index, w.stepper.offset), (0, 1));
    assert!(w.back_char());
    assert_eq!(w.caret_pos, 3);
    assert!(w.back_char());
    assert_eq!(w.caret_pos, 2);
    assert_eq!((w.stepper.path.clone(), w.stepper.index, w.stepper.offset), (vec![0], 1, 0));
    assert!(!w.goto_pos(40));
    assert!(w.stepper.is_done());
}

#[test]
fn walker_stays_at_the_edges() {
    let doc = sample();
    let mut w = Walker::new(&doc);
    assert!(!w.back_char());
    assert_eq!(w.caret_pos, -1);
    assert_eq!((w.stepper.path.clone(), w.stepper.index), (vec![], 0));
    w.goto_end();
    assert_eq!(w.caret_pos, 8);
    assert_eq!((w.stepper.path.clone(), w.stepper.index, w.stepper.offset), (vec![1], 3, 0));
    assert!(!w.next_char());
    assert_eq!(w.caret_pos, 8);
    assert_eq!((w.stepper.path.clone(), w.stepper.index, w.stepper.offset), (vec![1], 3, 0));
}

#[test]
fn walker_moves_by_blocks() {
    let doc = sample();
    let mut w = Walker::new(&doc);
    assert!(!w.back_block());
    assert!(w.next_block());
    assert_eq!(w.stepper.path, vec![0]);
    assert!(w.next_block());
    assert_eq!((w.stepper.path.clone(), w.stepper.index), (vec![1], 0));
    assert!(!w.next_block());
    assert_eq!((w.stepper.path.clone(), w.stepper.index), (vec![1], 0));
    assert!(w.next_char());
    assert!(w.back_block());
    assert_eq!((w.stepper.path.clone(), w.stepper.index, w.caret_pos), (vec![1], 0, 3));
    assert!(w.back_block());
    assert_eq!((w.stepper.path.clone(), w.stepper.index, w.caret_pos), (vec![0], 0, 0));
}

#[test]
fn walker_finds_carets() {
    let doc = sample();
    let w = Walker::to_caret(&doc, "c", Pos::Focus).unwrap();
    assert_eq!((w.stepper.path.clone(), w.stepper.index, w.caret_pos), (vec![1], 1, 5));
    assert!(Walker::to_caret(&doc, "c", Pos::Anchor).is_err());
    assert!(Walker::to_caret(&doc, "d", Pos::Focus).is_err());
}

#[test]
fn walker_follows_a_cursor_path() {
    let doc = sample();
    let cur = vec![
        CurElement::CurSkip(1),
        CurElement::CurWithGroup(vec![CurElement::CurSkip(3), CurElement::CurChar]),
    ];
    let w = Walker::to_cursor(&doc, &cur);
    assert_eq!((w.stepper.path.clone(), w.stepper.index, w.stepper.offset), (vec![1], 2, 0));
    assert_eq!(w.caret_pos, 6);

    let inside = vec![CurElement::CurWithGroup(vec![CurElement::CurSkip(1), CurElement::CurChar])];
    let w = Walker::to_cursor(&doc, &inside);
    assert_eq!((w.stepper.path.clone(), w.stepper.index, w.stepper.offset), (vec![0], 0, 1));
    assert_eq!(w.caret_pos, 1);

    let w = Walker::to_cursor(&doc, &vec![]);
    assert_eq!((w.stepper.path.clone(), w.stepper.index, w.caret_pos), (vec![], 0, -1));

    let w = Walker::to_cursor(&doc, &vec![CurElement::CurSkip(2)]);
    assert!(w.stepper.is_done());
    assert_eq!(w.caret_pos, 8);

    let w = Walker::to_cursor(&doc, &vec![CurElement::CurSkip(1), CurElement::CurGroup]);
    assert_eq!((w.stepper.path.clone(), w.stepper.index), (vec![], 1));
}

#[test]
fn walker_skips_whole_groups() {
    let doc = sample();
    let mut w = Walker::new(&doc);
    w.skip_unit();
    assert_eq!((w.stepper.path.clone(), w.stepper.index, w.caret_pos), (vec![], 1, 2));
    assert!(w.step_next());
    w.skip_units(3);
    assert_eq!((w.stepper.path.clone(), w.stepper.index, w.stepper.offset), (vec![1], 2, 0));
    assert!(w.step_prev());
    assert_eq!((w.stepper.path.clone(), w.stepper.index), (vec![1, 1], 0));
    assert!(!w.is_valid_caret_pos());
    assert!(!w.is_block_start());
}

#[test]
fn attributes_compare_as_maps() {
    let a = Attrs::new().with("tag", "span").with("class", "bold");
    let b = Attrs::new().with("class", "bold").with("tag", "span");
    assert_eq!(a, b);
    assert!(a.same(&b));
    let c = Attrs::new().with("tag", "p").with("tag", "span").with("class", "bold");
    assert_eq!(a, c);
    assert_eq!(c, a);
    assert_ne!(a, Attrs::new().with("tag", "span"));
    assert_ne!(Attrs::new().with("tag", "span"), a);
    assert_ne!(a, Attrs::new().with("tag", "span").with("class", "thin"));
    assert_ne!(a, Attrs::new().with("tag", "span").with("id", "bold"));
    assert_ne!(Attrs::new(), a);
    assert_eq!(Attrs::new(), Attrs::new());
    assert_eq!(DocGroup(a, vec![DocChars(text("x"))]), DocGroup(b, vec![DocChars(text("x"))]));
}
