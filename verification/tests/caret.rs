use oatie::apply::apply_operation;
use oatie::caret::{
    caret_attrs, caret_block_move_steps, caret_clear, caret_clear_inner, caret_clear_or_pass,
    caret_insert_inner, caret_move_steps, caret_select_all_steps, cur_to_caret_steps, init_caret,
    ActionContext, CaretError,
};
use oatie::doc::CurElement::{CurSkip, CurWithGroup};
use oatie::doc::AddElement::{AddGroup, AddSkip, AddWithGroup};
use oatie::doc::DelElement::{DelGroup, DelSkip, DelWithGroup};
use oatie::doc::DocElement::{DocChars, DocGroup};
use oatie::doc::{Attrs, DocElement, DocString};
use oatie::walkers::{Pos, Walker};

fn text(s: &str) -> DocString {
    DocString::from_str(s)
}

fn tag(t: &str) -> Attrs {
    Attrs::new().with("tag", t)
}

fn sample() -> Vec<DocElement> {
    vec![
        DocGroup(tag("h1"), vec![DocChars(text("Hi"))]),
        DocGroup(
            tag("p"),
            vec![DocChars(text("ab")), DocGroup(caret_attrs("c", true), vec![]), DocChars(text("cd"))],
        ),
    ]
}

#[test]
fn caret_attrs_name_the_client() {
    assert_eq!(
        caret_attrs("left", true),
        Attrs::new().with("tag", "caret").with("client", "left").with("focus", "true")
    );
    assert_eq!(
        caret_attrs("left", false),
        Attrs::new().with("tag", "caret").with("client", "left").with("focus", "false")
    );
}

#[test]
fn clear_removes_the_group_at_the_walker() {
    let doc = vec![DocGroup(
        tag("p"),
        vec![DocChars(text("ab")), DocGroup(caret_attrs("c", true), vec![]), DocChars(text("cd"))],
    )];
    let mut walker = Walker::new(&doc);
    walker.stepper.enter();
    walker.stepper.skip(2);
    let op = caret_clear_inner(walker).unwrap();
    assert_eq!(
        op,
        (
            vec![DelWithGroup(vec![DelSkip(2), DelGroup(vec![]), DelSkip(2)])],
            vec![AddWithGroup(vec![AddSkip(4)])],
        )
    );
    assert_eq!(apply_operation(&doc, &op), vec![DocGroup(tag("p"), vec![DocChars(text("abcd"))])]);
}

#[test]
fn clear_finds_the_caret_of_the_client() {
    let ctx = ActionContext { doc: sample(), client_id: "c".to_string() };
    let op = caret_clear(&ctx, Pos::Focus).unwrap();
    assert_eq!(
        op,
        (
            vec![DelSkip(1), DelWithGroup(vec![DelSkip(2), DelGroup(vec![]), DelSkip(2)])],
            vec![AddSkip(1), AddWithGroup(vec![AddSkip(4)])],
        )
    );
    assert_eq!(
        apply_operation(&ctx.doc, &op),
        vec![
            DocGroup(tag("h1"), vec![DocChars(text("Hi"))]),
            DocGroup(tag("p"), vec![DocChars(text("abcd"))]),
        ]
    );
    assert_eq!(caret_clear(&ctx, Pos::Anchor), Err(CaretError::NoCaret));
}

#[test]
fn init_inserts_both_carets_at_the_first_position() {
    let ctx = ActionContext { doc: sample(), client_id: "me".to_string() };
    let doc = sample();
    let op = init_caret(ctx).unwrap();
    assert_eq!(
        op,
        (
            vec![DelWithGroup(vec![DelSkip(2)]), DelSkip(1)],
            vec![
                AddWithGroup(vec![
                    AddGroup(caret_attrs("me", true), vec![]),
                    AddGroup(caret_attrs("me", false), vec![]),
                    AddSkip(2),
                ]),
                AddSkip(1),
            ],
        )
    );
    let after = apply_operation(&doc, &op);
    assert_eq!(
        after[0],
        DocGroup(
            tag("h1"),
            vec![
                DocGroup(caret_attrs("me", true), vec![]),
                DocGroup(caret_attrs("me", false), vec![]),
                DocChars(text("Hi")),
            ]
        )
    );
}

#[test]
fn init_needs_a_place_for_a_caret() {
    let ctx = ActionContext { doc: vec![DocGroup(tag("ul"), vec![])], client_id: "me".to_string() };
    assert_eq!(init_caret(ctx), Err(CaretError::NoPosition));
}

#[test]
fn errors_have_words() {
    assert_eq!(CaretError::NoPosition.message(), "Could not insert first caret");
    assert_eq!(CaretError::NoCaret.message(), "Caret not found");
}

fn caret(client: &str, focus: bool) -> DocElement {
    DocGroup(caret_attrs(client, focus), vec![])
}

#[test]
fn clear_passes_where_there_is_no_caret() {
    let ctx = ActionContext { doc: sample(), client_id: "c".to_string() };
    assert_eq!(caret_clear_or_pass(&ctx, false), (vec![], vec![]));
    assert_eq!(caret_clear_or_pass(&ctx, true), caret_clear(&ctx, Pos::Focus).unwrap());
}

#[test]
fn insert_writes_a_caret_at_the_walker() {
    let doc = sample();
    let mut walker = Walker::new(&doc);
    assert!(walker.goto_pos(1));
    let op = caret_insert_inner(&walker, "me", false);
    assert_eq!(
        op,
        (
            vec![DelWithGroup(vec![DelSkip(2)]), DelSkip(1)],
            vec![
                AddWithGroup(vec![AddSkip(1), AddGroup(caret_attrs("me", false), vec![]), AddSkip(1)]),
                AddSkip(1),
            ],
        )
    );
}

#[test]
fn cursor_steps_remove_and_insert() {
    let ctx = ActionContext { doc: sample(), client_id: "c".to_string() };
    let cur = vec![CurSkip(1), CurWithGroup(vec![CurSkip(1)])];
    let (clear, insert) = cur_to_caret_steps(&ctx, &cur, Pos::Focus);
    assert_eq!(clear, caret_clear(&ctx, Pos::Focus).unwrap());
    assert_eq!(
        apply_operation(&ctx.doc, &insert)[1],
        DocGroup(
            tag("p"),
            vec![
                DocChars(text("a")),
                caret("c", true),
                DocChars(text("b")),
                caret("c", true),
                DocChars(text("cd")),
            ]
        )
    );
    let (clear, insert) = cur_to_caret_steps(&ctx, &cur, Pos::Anchor);
    assert_eq!(clear, (vec![], vec![]));
    assert_eq!(
        apply_operation(&ctx.doc, &insert)[1],
        DocGroup(
            tag("p"),
            vec![
                DocChars(text("a")),
                caret("c", false),
                DocChars(text("b")),
                caret("c", true),
                DocChars(text("cd")),
            ]
        )
    );
}

#[test]
fn select_all_steps_reach_both_ends() {
    let ctx = ActionContext { doc: sample(), client_id: "c".to_string() };
    let ((focus_clear, anchor_clear), (anchor, focus)) = caret_select_all_steps(&ctx);
    assert_eq!(focus_clear, caret_clear(&ctx, Pos::Focus).unwrap());
    assert_eq!(anchor_clear, (vec![], vec![]));
    assert_eq!(
        apply_operation(&ctx.doc, &anchor)[0],
        DocGroup(tag("h1"), vec![caret("c", false), DocChars(text("Hi"))])
    );
    assert_eq!(
        apply_operation(&ctx.doc, &focus)[1],
        DocGroup(
            tag("p"),
            vec![DocChars(text("ab")), caret("c", true), DocChars(text("cd")), caret("c", true)]
        )
    );
}

#[test]
fn block_steps_go_to_the_start_of_a_block() {
    let ctx = ActionContext { doc: sample(), client_id: "c".to_string() };
    assert_eq!(caret_block_move_steps(&ctx, true), None);
    let (clear, insert) = caret_block_move_steps(&ctx, false).unwrap();
    assert_eq!(clear, caret_clear(&ctx, Pos::Focus).unwrap());
    assert_eq!(
        apply_operation(&ctx.doc, &insert)[0],
        DocGroup(tag("h1"), vec![caret("c", false), caret("c", true), DocChars(text("Hi"))])
    );

    let doc = vec![
        DocGroup(tag("h1"), vec![DocChars(text("H")), caret("x", true), DocChars(text("i"))]),
        DocGroup(tag("p"), vec![DocChars(text("ab"))]),
    ];
    let ctx = ActionContext { doc, client_id: "x".to_string() };
    let (clear, insert) = caret_block_move_steps(&ctx, true).unwrap();
    assert_eq!(
        apply_operation(&ctx.doc, &clear)[0],
        DocGroup(tag("h1"), vec![DocChars(text("Hi"))])
    );
    assert_eq!(
        apply_operation(&ctx.doc, &insert)[1],
        DocGroup(tag("p"), vec![caret("x", false), caret("x", true), DocChars(text("ab"))])
    );
    let (_, insert) = caret_block_move_steps(&ctx, false).unwrap();
    assert_eq!(
        apply_operation(&ctx.doc, &insert)[0],
        DocGroup(
            tag("h1"),
            vec![
                caret("x", false),
                caret("x", true),
                DocChars(text("H")),
                caret("x", true),
                DocChars(text("i")),
            ]
        )
    );
}

#[test]
fn move_steps_go_one_position() {
    let ctx = ActionContext { doc: sample(), client_id: "c".to_string() };
    let (clear, insert) = caret_move_steps(&ctx, true, true).unwrap();
    assert_eq!(clear, caret_clear(&ctx, Pos::Focus).unwrap());
    assert_eq!(
        apply_operation(&ctx.doc, &insert)[1],
        DocGroup(
            tag("p"),
            vec![DocChars(text("ab")), caret("c", true), caret("c", true), DocChars(text("cd"))]
        )
    );
    let (_, insert) = caret_move_steps(&ctx, false, false).unwrap();
    assert_eq!(
        apply_operation(&ctx.doc, &insert)[1],
        DocGroup(
            tag("p"),
            vec![
                DocChars(text("a")),
                caret("c", false),
                caret("c", true),
                DocChars(text("b")),
                caret("c", true),
                DocChars(text("cd")),
            ]
        )
    );
    let other = ActionContext { doc: sample(), client_id: "zz".to_string() };
    assert_eq!(caret_move_steps(&other, true, true), Err(CaretError::NoCaret));
}
