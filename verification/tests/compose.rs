use oatie::apply::{apply_add, apply_delete, apply_operation};
use oatie::compose::{compose, compose_add_add, compose_add_del, compose_del_del};
use oatie::doc::AddElement::{AddChars, AddSkip, AddWithGroup};
use oatie::doc::DelElement::{DelChars, DelGroup, DelSkip, DelWithGroup};
use oatie::doc::DocElement::{DocChars, DocGroup};
use oatie::doc::{AddElement, Attrs, DelElement, DocElement, DocString, Op, StyleMap};
use oatie::random::{random_add_span, random_del_span, random_op};

fn text(s: &str) -> DocString {
    DocString::from_str(s)
}

#[test]
fn test_compose_del_del() {
    assert_eq!(
        compose_del_del(&vec![DelSkip(6), DelChars(6)], &vec![DelChars(3)]),
        vec![DelChars(3), DelSkip(3), DelChars(6)]
    );

    assert_eq!(
        compose_del_del(&vec![DelSkip(6), DelChars(6)], &vec![DelChars(6)]),
        vec![DelChars(12)]
    );

    assert_eq!(
        compose_del_del(&vec![DelWithGroup(vec![DelChars(6)])], &vec![DelGroup(vec![])]),
        vec![DelGroup(vec![])]
    );

    assert_eq!(
        compose_del_del(
            &vec![DelWithGroup(vec![DelChars(6)])],
            &vec![DelWithGroup(vec![DelChars(6)])]
        ),
        vec![DelWithGroup(vec![DelChars(12)])]
    );

    assert_eq!(
        compose_del_del(
            &vec![DelSkip(2), DelChars(6), DelSkip(1), DelChars(2), DelSkip(1)],
            &vec![DelSkip(1), DelChars(1), DelSkip(1)]
        ),
        vec![DelSkip(1), DelChars(7), DelSkip(1), DelChars(2), DelSkip(1)]
    );
}

#[test]
fn test_compose_add_add() {
    assert_eq!(
        compose_add_add(&vec![AddChars(text("World!"))], &vec![AddChars(text("Hello "))]),
        vec![AddChars(text("Hello World!"))]
    );

    assert_eq!(
        compose_add_add(
            &vec![AddChars(text("edef"))],
            &vec![
                AddChars(text("d")),
                AddSkip(1),
                AddChars(text("a")),
                AddSkip(1),
                AddChars(text("b")),
                AddSkip(1),
                AddChars(text("e")),
                AddSkip(1),
            ]
        ),
        vec![AddChars(text("deadbeef"))]
    );

    assert_eq!(
        compose_add_add(
            &vec![AddSkip(10), AddChars(text("h"))],
            &vec![AddSkip(11), AddChars(text("i"))]
        ),
        vec![AddSkip(10), AddChars(text("hi"))]
    );

    assert_eq!(
        compose_add_add(
            &vec![
                AddSkip(5),
                AddChars(text("yEH")),
                AddSkip(1),
                AddChars(text("GlG5")),
                AddSkip(4),
                AddChars(text("nnG")),
                AddSkip(1),
                AddChars(text("ra8c")),
                AddSkip(1)
            ],
            &vec![AddSkip(10), AddChars(text("Eh")), AddSkip(16)]
        ),
        vec![
            AddSkip(5),
            AddChars(text("yEH")),
            AddSkip(1),
            AddChars(text("GEhlG5")),
            AddSkip(4),
            AddChars(text("nnG")),
            AddSkip(1),
            AddChars(text("ra8c")),
            AddSkip(1)
        ]
    );
}

#[test]
fn monkey_add_add() {
    for _ in 0..1000 {
        let start = vec![DocChars(text("Hello world!"))];

        let a = random_add_span(&start);
        let middle = apply_add(&start, &a);
        let b = random_add_span(&middle);
        let end = apply_add(&middle, &b);

        let composed = compose_add_add(&a, &b);
        let otherend = apply_add(&start, &composed);

        assert_eq!(end, otherend);
    }
}

#[test]
fn monkey_del_del() {
    for _ in 0..1000 {
        let start = vec![DocChars(text("Hello world!"))];

        let a = random_del_span(&start);
        let middle = apply_delete(&start, &a);
        let b = random_del_span(&middle);
        let end = apply_delete(&middle, &b);

        let composed = compose_del_del(&a, &b);
        let otherend = apply_delete(&start, &composed);

        assert_eq!(end, otherend);
    }
}

#[test]
fn test_compose_add_del() {
    assert_eq!(
        compose_add_del(
            &vec![
                AddSkip(4),
                AddChars(text("0O")),
                AddSkip(5),
                AddChars(text("mnc")),
                AddSkip(3),
                AddChars(text("gbL")),
            ],
            &vec![
                DelSkip(1),
                DelChars(1),
                DelSkip(3),
                DelChars(2),
                DelSkip(2),
                DelChars(9),
                DelSkip(1),
                DelChars(1),
            ]
        ),
        (
            vec![DelSkip(1), DelChars(1), DelSkip(2), DelChars(1), DelSkip(2), DelChars(5)],
            vec![AddSkip(3), AddChars(text("0")), AddSkip(2), AddChars(text("b"))]
        )
    );
}

#[test]
fn monkey_add_del() {
    for _ in 0..1000 {
        let start = vec![DocChars(text("Hello world!"))];

        let a = random_add_span(&start);
        let middle = apply_add(&start, &a);
        let b = random_del_span(&middle);
        let end = apply_delete(&middle, &b);

        let (dela, addb) = compose_add_del(&a, &b);
        let middle2 = apply_delete(&start, &dela);
        let otherend = apply_add(&middle2, &addb);

        assert_eq!(end, otherend);
    }
}

#[test]
fn monkey_compose() {
    for _ in 0..1000 {
        let start = vec![DocChars(text("Hello world!"))];

        let a = random_op(&start);
        let middle = apply_operation(&start, &a);
        let b = random_op(&middle);
        let end = apply_operation(&middle, &b);

        let composed = compose(&a, &b);
        let otherend = apply_operation(&start, &composed);

        assert_eq!(end, otherend);
    }
}

#[test]
fn compose_add_del_annihilates() {
    let s = "héllo wörld";
    let n = s.chars().count();
    assert_eq!(
        compose_add_del(&vec![AddChars(text(s))], &vec![DelChars(n)]),
        (vec![], vec![])
    );
}

#[test]
fn compose_add_add_descends_together() {
    let a: Vec<AddElement> = vec![AddWithGroup(vec![AddSkip(2), AddChars(text("x"))]), AddSkip(1)];
    let b: Vec<AddElement> = vec![AddWithGroup(vec![AddSkip(3), AddChars(text("y"))])];
    assert_eq!(
        compose_add_add(&a, &b),
        vec![AddWithGroup(vec![AddSkip(2), AddChars(text("xy"))]), AddSkip(1)]
    );
}

#[test]
fn compose_add_add_skip_counts_group() {
    let a: Vec<AddElement> = vec![AddWithGroup(vec![AddChars(text("x"))]), AddSkip(2)];
    let b: Vec<AddElement> = vec![AddSkip(2), AddChars(text("z"))];
    assert_eq!(
        compose_add_add(&a, &b),
        vec![AddWithGroup(vec![AddChars(text("x"))]), AddSkip(1), AddChars(text("z")), AddSkip(1)]
    );
}

#[test]
fn compose_with_empty_operations() {
    let op: Op = (vec![DelSkip(2), DelChars(1)], vec![AddSkip(1), AddChars(text("a"))]);
    let empty: Op = (vec![], vec![]);
    assert_eq!(compose(&op, &empty), (vec![DelSkip(2), DelChars(1)], vec![AddSkip(1), AddChars(text("a"))]));
    let doc: Vec<DocElement> = vec![DocChars(text("abc"))];
    assert_eq!(apply_operation(&doc, &empty), doc);
}

#[test]
fn compose_del_del_places_skips() {
    assert_eq!(compose_del_del(&vec![DelSkip(3)], &vec![DelSkip(1)]), vec![DelSkip(3)]);
    assert_eq!(compose_del_del(&vec![DelSkip(1), DelSkip(2)], &vec![]), vec![DelSkip(3)]);
    assert_eq!(compose_del_del(&vec![DelSkip(5)], &vec![DelSkip(2), DelSkip(3)]), vec![DelSkip(5)]);
    assert_eq!(
        compose_del_del(&vec![DelSkip(2)], &vec![DelSkip(1), DelChars(1), DelSkip(4)]),
        vec![DelSkip(1), DelChars(1), DelSkip(4)]
    );
}

#[test]
fn compose_add_add_places_skips() {
    assert_eq!(compose_add_add(&vec![AddSkip(3)], &vec![AddSkip(1), AddSkip(2)]), vec![AddSkip(3)]);
    assert_eq!(compose_add_add(&vec![AddSkip(1), AddSkip(2)], &vec![AddSkip(3)]), vec![AddSkip(3)]);
}

fn del_coalesced(span: &Vec<DelElement>) -> bool {
    span.windows(2).all(|w| match (&w[0], &w[1]) {
        (DelSkip(_), DelSkip(_)) | (DelChars(_), DelChars(_)) => false,
        _ => true,
    })
}

fn add_coalesced(span: &Vec<AddElement>) -> bool {
    span.windows(2).all(|w| match (&w[0], &w[1]) {
        (AddSkip(_), AddSkip(_)) => false,
        (AddChars(x), AddChars(y)) => x.styles != y.styles,
        _ => true,
    })
}

#[test]
fn composed_spans_are_coalesced() {
    for _ in 0..200 {
        let start = vec![DocChars(text("Hello world!"))];
        let a = random_op(&start);
        let middle = apply_operation(&start, &a);
        let b = random_op(&middle);
        assert!(add_coalesced(&a.1));

        let composed = compose(&a, &b);
        assert!(del_coalesced(&composed.0));
        assert!(add_coalesced(&composed.1));

        let (mdel, madd) = compose_add_del(&a.1, &b.0);
        assert!(del_coalesced(&mdel));
        assert!(add_coalesced(&madd));
        assert!(del_coalesced(&compose_del_del(&a.0, &mdel)));
        assert!(add_coalesced(&compose_add_add(&madd, &b.1)));
    }
}

#[test]
fn delete_composition_behind_a_removed_group() {
    let doc = vec![
        DocGroup(Attrs::new().with("tag", "p"), vec![DocChars(text("xy"))]),
        DocChars(text("zw")),
    ];
    let a = vec![DelGroup(vec![])];
    let b = vec![DelSkip(2)];
    let composed = compose_del_del(&a, &b);
    assert_eq!(composed, vec![DelGroup(vec![]), DelSkip(2)]);
    assert_eq!(apply_delete(&doc, &composed), apply_delete(&apply_delete(&doc, &a), &b));
    assert_eq!(apply_delete(&doc, &composed), vec![DocChars(text("xyzw"))]);
}

#[test]
fn composition_behind_a_descent_that_is_skipped() {
    let doc = vec![
        DocGroup(Attrs::new().with("tag", "p"), vec![DocChars(text("ab"))]),
        DocChars(text("cd")),
    ];
    let a: Op = (vec![], vec![AddWithGroup(vec![AddChars(text("x"))]), AddSkip(2)]);
    let b: Op = (vec![DelSkip(3)], vec![]);
    let composed = compose(&a, &b);
    assert_eq!(
        apply_operation(&doc, &composed),
        apply_operation(&apply_operation(&doc, &a), &b)
    );
}

fn bold() -> StyleMap {
    let mut s = StyleMap::new();
    s.bold = true;
    s
}

#[test]
fn random_delete_spans_cut_every_run() {
    for _ in 0..200 {
        let doc = vec![
            DocChars(text("Hello world!")),
            DocChars(DocString::from_str_styled("abc", bold())),
            DocChars(text("x")),
        ];
        let del = random_del_span(&doc);
        let mut reach = 0;
        let mut cuts = 0;
        for (i, atom) in del.iter().enumerate() {
            match atom {
                DelSkip(n) => {
                    assert!(*n >= 1);
                    reach += n;
                }
                DelChars(n) => {
                    assert!(*n >= 1);
                    assert!(i > 0);
                    assert!(match &del[i - 1] {
                        DelSkip(_) => true,
                        _ => false,
                    });
                    reach += n;
                    cuts += 1;
                }
                _ => panic!("a group atom"),
            }
        }
        assert_eq!(reach, 16);
        assert!(cuts >= 2);
        assert_eq!(del[del.len() - 1], DelSkip(1));
        let left = apply_delete(&doc, &del);
        assert_eq!(left.len(), 3);
    }
}

#[test]
fn random_add_spans_pass_over_every_run() {
    for _ in 0..200 {
        let doc = vec![
            DocChars(text("Hello world!")),
            DocChars(DocString::from_str_styled("abc", bold())),
        ];
        let add = random_add_span(&doc);
        let mut reach = 0;
        for (i, atom) in add.iter().enumerate() {
            match atom {
                AddSkip(n) => {
                    assert!(*n >= 1);
                    reach += n;
                }
                AddChars(t) => {
                    let n = t.as_str().chars().count();
                    assert!(1 <= n && n <= 4);
                    assert!(t.as_str().chars().all(|c| c.is_ascii_alphanumeric()));
                    assert!(i > 0);
                    assert!(match &add[i - 1] {
                        AddSkip(_) => true,
                        _ => false,
                    });
                }
                _ => panic!("a group atom"),
            }
        }
        assert_eq!(reach, 15);
    }
}

#[test]
fn random_operations_pass_over_the_whole_document() {
    for _ in 0..200 {
        let doc = vec![DocChars(text("Hello world!"))];
        let (del, add) = random_op(&doc);
        let mut passed = 0;
        let mut kept = 0;
        for atom in del.iter() {
            match atom {
                DelSkip(n) => {
                    passed += n;
                    kept += n;
                }
                DelChars(n) => passed += n,
                _ => panic!("a group atom"),
            }
        }
        assert_eq!(passed, 12);
        let mut reach = 0;
        for atom in add.iter() {
            if let AddSkip(n) = atom {
                reach += n;
            }
        }
        assert_eq!(reach, kept);
        assert!(kept < 12);
    }
}
