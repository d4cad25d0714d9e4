use oatie::doc::AddElement::{AddChars, AddGroup, AddSkip, AddStyles, AddWithGroup};
use oatie::doc::DelElement::{DelChars, DelGroup, DelSkip, DelWithGroup};
use oatie::doc::{Attrs, DocString, StyleMap};
use oatie::writer::{add_span_reach, del_span_reach, del_span_yield, AddWriter, DelWriter, OpWriter};

fn text(s: &str) -> DocString {
    DocString::from_str(s)
}

#[test]
fn del_writer_nests_groups() {
    let mut w = DelWriter::new();
    w.skip(2);
    w.skip(1);
    w.begin();
    w.chars(4);
    w.begin();
    w.close();
    w.exit();
    w.place(&DelChars(1));
    assert_eq!(
        w.result(),
        vec![DelSkip(3), DelWithGroup(vec![DelChars(4), DelGroup(vec![])]), DelChars(1)]
    );
}

#[test]
fn add_writer_nests_groups() {
    let mut w = AddWriter::new();
    w.chars(text("ab"));
    w.chars(text("cd"));
    w.begin();
    w.skip(1);
    w.close(Attrs::new().with("tag", "b"));
    w.begin();
    w.place(&AddSkip(2));
    w.exit();
    assert_eq!(
        w.result(),
        vec![
            AddChars(text("abcd")),
            AddGroup(Attrs::new().with("tag", "b"), vec![AddSkip(1)]),
            AddWithGroup(vec![AddSkip(2)]),
        ]
    );
}

#[test]
fn spans_are_measured() {
    let del = vec![DelSkip(2), DelChars(3), DelWithGroup(vec![DelChars(9)]), DelGroup(vec![DelSkip(4), DelChars(1)])];
    assert_eq!(del_span_reach(&del), 7);
    assert_eq!(del_span_yield(&del), 7);
    let add = vec![
        AddSkip(2),
        AddChars(text("xyz")),
        AddStyles(3, StyleMap::new()),
        AddWithGroup(vec![AddSkip(8)]),
        AddGroup(Attrs::new(), vec![AddSkip(2), AddChars(text("q"))]),
    ];
    assert_eq!(add_span_reach(&add), 8);
    assert_eq!(del_span_reach(&vec![DelSkip(usize::MAX), DelSkip(5)]), usize::MAX);
}

#[test]
fn exit_result_pads_every_level() {
    let mut del = DelWriter::new();
    let mut add = AddWriter::new();
    del.skip(1);
    add.skip(1);
    del.begin();
    add.begin();
    del.skip(2);
    add.skip(2);
    del.chars(1);
    add.chars(text("x"));
    let writer = OpWriter { del, add, totals: vec![3, 6] };
    assert_eq!(
        writer.exit_result(),
        (
            vec![DelSkip(1), DelWithGroup(vec![DelSkip(2), DelChars(1), DelSkip(3)]), DelSkip(1)],
            vec![AddSkip(1), AddWithGroup(vec![AddSkip(2), AddChars(text("x")), AddSkip(3)]), AddSkip(1)],
        )
    );
}

#[test]
fn exit_result_leaves_full_spans_alone() {
    let mut del = DelWriter::new();
    let add = AddWriter::new();
    del.skip(4);
    let writer = OpWriter { del, add, totals: vec![3] };
    assert_eq!(writer.exit_result(), (vec![DelSkip(4)], vec![AddSkip(4)]));
}
