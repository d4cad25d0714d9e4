use oatie::doc::AddElement::{AddChars, AddGroup, AddSkip, AddWithGroup};
use oatie::doc::DelElement::{DelChars, DelGroup, DelSkip, DelWithGroup};
use oatie::doc::{Attrs, DocString, Op};
use oatie::normalize::{normalize, normalize_add_span, normalize_del_span};
use oatie::place::{add_place_any, del_place_any};

fn text(s: &str) -> DocString {
    DocString::from_str(s)
}

#[test]
fn normalize_trims_and_collapses() {
    let op: Op = (
        vec![DelSkip(1), DelSkip(2), DelWithGroup(vec![DelSkip(4)]), DelChars(1), DelChars(2), DelSkip(7)],
        vec![AddWithGroup(vec![AddChars(text("a")), AddChars(text("b")), AddSkip(3)]), AddSkip(2)],
    );
    assert_eq!(
        normalize(op),
        (
            vec![DelSkip(4), DelChars(3)],
            vec![AddWithGroup(vec![AddChars(text("ab"))])],
        )
    );
}

#[test]
fn normalize_keeps_skips_inside_new_and_removed_groups() {
    assert_eq!(
        normalize_del_span(&vec![DelGroup(vec![DelSkip(2)]), DelSkip(1)], true),
        vec![DelGroup(vec![DelSkip(2)])]
    );
    assert_eq!(
        normalize_add_span(&vec![AddGroup(Attrs::new().with("tag", "p"), vec![AddSkip(2)]), AddSkip(1)], false),
        vec![AddGroup(Attrs::new().with("tag", "p"), vec![AddSkip(2)]), AddSkip(1)]
    );
}

#[test]
fn normalize_is_idempotent_on_an_example() {
    let op: Op = (
        vec![DelWithGroup(vec![DelWithGroup(vec![DelSkip(1)]), DelSkip(2)]), DelSkip(1), DelChars(2)],
        vec![AddSkip(1), AddWithGroup(vec![AddSkip(1)]), AddSkip(1), AddChars(text("x")), AddSkip(5)],
    );
    let once = normalize(op);
    let again = normalize((once.0.clone(), once.1.clone()));
    assert_eq!(once, again);
    assert_eq!(once, (vec![DelSkip(2), DelChars(2)], vec![AddSkip(3), AddChars(text("x"))]));
}

#[test]
fn place_merges_like_atoms() {
    let mut del = vec![];
    del_place_any(&mut del, &DelSkip(1));
    del_place_any(&mut del, &DelSkip(2));
    del_place_any(&mut del, &DelChars(3));
    del_place_any(&mut del, &DelChars(4));
    del_place_any(&mut del, &DelGroup(vec![]));
    del_place_any(&mut del, &DelGroup(vec![]));
    assert_eq!(del, vec![DelSkip(3), DelChars(7), DelGroup(vec![]), DelGroup(vec![])]);
    let mut add = vec![];
    add_place_any(&mut add, &AddChars(text("a")));
    add_place_any(&mut add, &AddChars(text("b")));
    add_place_any(&mut add, &AddSkip(1));
    add_place_any(&mut add, &AddSkip(1));
    assert_eq!(add, vec![AddChars(text("ab")), AddSkip(2)]);
}
