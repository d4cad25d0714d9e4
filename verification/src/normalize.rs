//! Rewriting an operation into its canonical form.

use crate::doc::{
    group_views, AddElement, AddNode, AddSpan, DelElement, DelNode, DelSpan, Op,
};
use crate::place::{
    add_node_weight, add_place_any, add_weight, del_node_weight, del_place_any, del_weight,
    lemma_place_add_weight, lemma_place_del_weight, place_add, place_del,
};
use vstd::prelude::*;

verus! {

broadcast use {vstd::group_vstd_default, group_views};

/// The canonical form of a delete atom. A group atom holds the canonical
/// form of its inner span: that of a descent loses a skip at its end, and
/// a descent that is left with nothing becomes a skip of one unit.
pub open spec fn normalize_del_node(n: DelNode) -> DelNode
    decreases n,
{
    match n {
        DelNode::Group(inner) => DelNode::Group(normalize_del_seq(inner, false)),
        DelNode::WithGroup(inner) => {
            let s = normalize_del_seq(inner, true);
            if s.len() == 0 {
                DelNode::Skip(1)
            } else {
                DelNode::WithGroup(s)
            }
        },
        _ => n,
    }
}

/// The canonical forms of the atoms of `s`, placed one after the other.
pub open spec fn normalize_del_placed(s: Seq<DelNode>) -> Seq<DelNode>
    decreases s, 0nat,
{
    if s.len() == 0 {
        Seq::empty()
    } else {
        place_del(normalize_del_placed(s.drop_last()), normalize_del_node(s.last()))
    }
}

/// A span without the skip at its end, if it ends with one.
pub open spec fn trim_del(s: Seq<DelNode>) -> Seq<DelNode> {
    if s.len() > 0 && s.last() is Skip {
        s.drop_last()
    } else {
        s
    }
}

/// The canonical form of a delete span: the canonical forms of its atoms,
/// placed one after the other, and, where `trim` is set, without a skip at
/// the end.
pub open spec fn normalize_del_seq(s: Seq<DelNode>, trim: bool) -> Seq<DelNode>
    decreases s, 1nat,
{
    if trim {
        trim_del(normalize_del_placed(s))
    } else {
        normalize_del_placed(s)
    }
}

/// The canonical form of an add atom. A group atom holds the canonical
/// form of its inner span: that of a descent loses a skip at its end, and
/// a descent that is left with nothing becomes a skip of one unit.
pub open spec fn normalize_add_node(n: AddNode) -> AddNode
    decreases n,
{
    match n {
        AddNode::Group(attrs, inner) => AddNode::Group(attrs, normalize_add_seq(inner, false)),
        AddNode::WithGroup(inner) => {
            let s = normalize_add_seq(inner, true);
            if s.len() == 0 {
                AddNode::Skip(1)
            } else {
                AddNode::WithGroup(s)
            }
        },
        _ => n,
    }
}

/// The canonical forms of the atoms of `s`, placed one after the other.
pub open spec fn normalize_add_placed(s: Seq<AddNode>) -> Seq<AddNode>
    decreases s, 0nat,
{
    if s.len() == 0 {
        Seq::empty()
    } else {
        place_add(normalize_add_placed(s.drop_last()), normalize_add_node(s.last()))
    }
}

/// A span without the skip at its end, if it ends with one.
pub open spec fn trim_add(s: Seq<AddNode>) -> Seq<AddNode> {
    if s.len() > 0 && s.last() is Skip {
        s.drop_last()
    } else {
        s
    }
}

/// The canonical form of an add span: the canonical forms of its atoms,
/// placed one after the other, and, where `trim` is set, without a skip at
/// the end.
pub open spec fn normalize_add_seq(s: Seq<AddNode>, trim: bool) -> Seq<AddNode>
    decreases s, 1nat,
{
    if trim {
        trim_add(normalize_add_placed(s))
    } else {
        normalize_add_placed(s)
    }
}

/// The canonical form of an operation: that of its two spans, each
/// without a skip at its end.
pub open spec fn normalize_spec(op: (Seq<DelNode>, Seq<AddNode>)) -> (
    Seq<DelNode>,
    Seq<AddNode>,
) {
    (normalize_del_seq(op.0, true), normalize_add_seq(op.1, true))
}

/// The weight of a span is at least that of the span without its last
/// atom.
proof fn lemma_del_weight_drop_last(s: Seq<DelNode>)
    requires
        s.len() > 0,
    ensures
        del_weight(s.drop_last()) <= del_weight(s),
{
}

/// The weight of a span is at least that of the span without its last
/// atom.
proof fn lemma_add_weight_drop_last(s: Seq<AddNode>)
    requires
        s.len() > 0,
    ensures
        add_weight(s.drop_last()) <= add_weight(s),
{
}

/// Puts a delete atom into canonical form.
pub fn normalize_del_element(elem: &DelElement) -> (res: DelElement)
    requires
        del_node_weight(elem.deep_view()) <= usize::MAX,
    ensures
        res.deep_view() == normalize_del_node(elem.deep_view()),
        del_node_weight(res.deep_view()) <= del_node_weight(elem.deep_view()),
        del_node_normal(res.deep_view()),
    decreases elem,
{
    proof {
        lemma_normalize_del_node_normal(elem.deep_view());
    }
    match elem {
        DelElement::DelGroup(span) => {
            let span = normalize_del_span(span, false);
            DelElement::DelGroup(span)
        },
        DelElement::DelWithGroup(span) => {
            let span = normalize_del_span(span, true);
            if span.len() == 0 {
                DelElement::DelSkip(1)
            } else {
                DelElement::DelWithGroup(span)
            }
        },
        _ => elem.clone(),
    }
}

/// Puts a delete span into canonical form; `trim_last` removes a skip at
/// its end.
pub fn normalize_del_span(del: &DelSpan, trim_last: bool) -> (res: DelSpan)
    requires
        del_weight(del.deep_view()) <= usize::MAX,
    ensures
        res.deep_view() == normalize_del_seq(del.deep_view(), trim_last),
        del_weight(res.deep_view()) <= del_weight(del.deep_view()),
        del_normal(res.deep_view(), trim_last),
    decreases del,
{
    let ghost dv = del.deep_view();
    let mut ret: Vec<DelElement> = Vec::new();
    let mut i: usize = 0;
    proof {
        assert(dv.take(0) =~= Seq::<DelNode>::empty());
        assert(ret.deep_view() =~= Seq::<DelNode>::empty());
    }
    while i < del.len()
        invariant
            i <= del.len(),
            dv == del.deep_view(),
            del_weight(dv) <= usize::MAX,
            ret.deep_view() == normalize_del_placed(dv.take(i as int)),
            del_weight(ret.deep_view()) <= del_weight(dv.take(i as int)),
            del_weight(dv.take(i as int)) <= del_weight(dv),
        decreases del.len() - i,
    {
        proof {
            let t = dv.take(i + 1);
            assert(t.drop_last() =~= dv.take(i as int));
            assert(t.last() == del@[i as int].deep_view());
            lemma_del_weight_take(dv, i + 1);
        }
        let elem = normalize_del_element(&del[i]);
        proof {
            lemma_place_del_weight(ret.deep_view(), elem.deep_view());
        }
        del_place_any(&mut ret, &elem);
        i = i + 1;
    }
    proof {
        assert(dv.take(i as int) =~= dv);
    }
    if trim_last {
        let n = ret.len();
        if n > 0 {
            let skip = match &ret[n - 1] {
                DelElement::DelSkip(_) => true,
                _ => false,
            };
            if skip {
                let ghost before = ret.deep_view();
                ret.pop();
                proof {
                    assert(ret.deep_view() =~= before.drop_last());
                    lemma_del_weight_drop_last(before);
                }
            }
        }
    }
    proof {
        lemma_normalize_del_seq_normal(del.deep_view(), trim_last);
    }
    ret
}

/// The weight of the front of a span is at most that of the span.
proof fn lemma_del_weight_take(s: Seq<DelNode>, k: int)
    requires
        0 <= k <= s.len(),
    ensures
        del_weight(s.take(k)) <= del_weight(s),
    decreases s.len() - k,
{
    if k < s.len() {
        lemma_del_weight_take(s, k + 1);
        assert(s.take(k + 1).drop_last() =~= s.take(k));
    } else {
        assert(s.take(k) =~= s);
    }
}

/// The weight of the front of a span is at most that of the span.
proof fn lemma_add_weight_take(s: Seq<AddNode>, k: int)
    requires
        0 <= k <= s.len(),
    ensures
        add_weight(s.take(k)) <= add_weight(s),
    decreases s.len() - k,
{
    if k < s.len() {
        lemma_add_weight_take(s, k + 1);
        assert(s.take(k + 1).drop_last() =~= s.take(k));
    } else {
        assert(s.take(k) =~= s);
    }
}

/// Puts an add atom into canonical form.
pub fn normalize_add_element(elem: &AddElement) -> (res: AddElement)
    requires
        add_node_weight(elem.deep_view()) <= usize::MAX,
    ensures
        res.deep_view() == normalize_add_node(elem.deep_view()),
        add_node_weight(res.deep_view()) <= add_node_weight(elem.deep_view()),
        add_node_normal(res.deep_view()),
    decreases elem,
{
    proof {
        lemma_normalize_add_node_normal(elem.deep_view());
    }
    match elem {
        AddElement::AddGroup(attrs, span) => {
            let span = normalize_add_span(span, false);
            AddElement::AddGroup(attrs.clone(), span)
        },
        AddElement::AddWithGroup(span) => {
            let span = normalize_add_span(span, true);
            if span.len() == 0 {
                AddElement::AddSkip(1)
            } else {
                AddElement::AddWithGroup(span)
            }
        },
        _ => elem.clone(),
    }
}

/// Puts an add span into canonical form; `trim_last` removes a skip at
/// its end.
pub fn normalize_add_span(add: &AddSpan, trim_last: bool) -> (res: AddSpan)
    requires
        add_weight(add.deep_view()) <= usize::MAX,
    ensures
        res.deep_view() == normalize_add_seq(add.deep_view(), trim_last),
        add_weight(res.deep_view()) <= add_weight(add.deep_view()),
        add_normal(res.deep_view(), trim_last),
    decreases add,
{
    let ghost av = add.deep_view();
    let mut ret: Vec<AddElement> = Vec::new();
    let mut i: usize = 0;
    proof {
        assert(av.take(0) =~= Seq::<AddNode>::empty());
        assert(ret.deep_view() =~= Seq::<AddNode>::empty());
    }
    while i < add.len()
        invariant
            i <= add.len(),
            av == add.deep_view(),
            add_weight(av) <= usize::MAX,
            ret.deep_view() == normalize_add_placed(av.take(i as int)),
            add_weight(ret.deep_view()) <= add_weight(av.take(i as int)),
            add_weight(av.take(i as int)) <= add_weight(av),
        decreases add.len() - i,
    {
        proof {
            let t = av.take(i + 1);
            assert(t.drop_last() =~= av.take(i as int));
            assert(t.last() == add@[i as int].deep_view());
            lemma_add_weight_take(av, i + 1);
        }
        let elem = normalize_add_element(&add[i]);
        proof {
            lemma_place_add_weight(ret.deep_view(), elem.deep_view());
        }
        add_place_any(&mut ret, &elem);
        i = i + 1;
    }
    proof {
        assert(av.take(i as int) =~= av);
    }
    if trim_last {
        let n = ret.len();
        if n > 0 {
            let skip = match &ret[n - 1] {
                AddElement::AddSkip(_) => true,
                _ => false,
            };
            if skip {
                let ghost before = ret.deep_view();
                ret.pop();
                proof {
                    assert(ret.deep_view() =~= before.drop_last());
                    lemma_add_weight_drop_last(before);
                }
            }
        }
    }
    proof {
        lemma_normalize_add_seq_normal(add.deep_view(), trim_last);
    }
    ret
}

/// Puts an operation into canonical form: no two neighbours in its spans
/// would merge, at any depth, and no span of the operation or of a
/// descent ends with a skip.
pub fn normalize(op: Op) -> (res: Op)
    requires
        del_weight(op.0.deep_view()) <= usize::MAX,
        add_weight(op.1.deep_view()) <= usize::MAX,
    ensures
        (res.0.deep_view(), res.1.deep_view()) == normalize_spec(
            (op.0.deep_view(), op.1.deep_view()),
        ),
        op_normal((res.0.deep_view(), res.1.deep_view())),
        normalize_spec((res.0.deep_view(), res.1.deep_view())) == (
            res.0.deep_view(),
            res.1.deep_view(),
        ),
        del_weight(res.0.deep_view()) <= del_weight(op.0.deep_view()),
        add_weight(res.1.deep_view()) <= add_weight(op.1.deep_view()),
{
    proof {
        lemma_normalize_idempotent((op.0.deep_view(), op.1.deep_view()));
    }
    (normalize_del_span(&op.0, true), normalize_add_span(&op.1, true))
}


/// Whether two neighbouring delete atoms would merge when placed: two
/// skips, or two character deletes.
pub open spec fn del_mergeable(a: DelNode, b: DelNode) -> bool {
    (a is Skip && b is Skip) || (a is Chars && b is Chars)
}

/// Whether a delete atom is in canonical form: the inner span of a group
/// atom is, and that of a descent is not empty and ends with no skip.
pub open spec fn del_node_normal(n: DelNode) -> bool
    decreases n,
{
    match n {
        DelNode::Group(inner) => del_normal(inner, false),
        DelNode::WithGroup(inner) => inner.len() > 0 && del_normal(inner, true),
        _ => true,
    }
}

/// Whether a delete span is in canonical form: no two neighbours would
/// merge, every atom is in canonical form, and, where `trim` is set, the
/// span ends with no skip.
pub open spec fn del_normal(s: Seq<DelNode>, trim: bool) -> bool
    decreases s,
{
    &&& forall|i: int| 0 <= i < s.len() - 1 ==> !del_mergeable(#[trigger] s[i], s[i + 1])
    &&& forall|i: int| 0 <= i < s.len() ==> del_node_normal(#[trigger] s[i])
    &&& (trim && s.len() > 0 ==> !(s.last() is Skip))
}

/// Placing an atom in canonical form keeps a span free of neighbours that
/// would merge, and its atoms in canonical form.
proof fn lemma_place_del_normal(s: Seq<DelNode>, n: DelNode)
    requires
        del_normal(s, false),
        del_node_normal(n),
    ensures
        del_normal(place_del(s, n), false),
{
    let r = place_del(s, n);
    assert forall|i: int| 0 <= i < r.len() - 1 implies !del_mergeable(#[trigger] r[i], r[i + 1]) by {
        if i < s.len() - 1 {
            assert(!del_mergeable(s[i], s[i + 1]));
        }
    }
    assert forall|i: int| 0 <= i < r.len() implies del_node_normal(#[trigger] r[i]) by {
        if i < s.len() {
            assert(del_node_normal(s[i]));
        }
    }
}

/// The canonical form of an atom is in canonical form.
pub proof fn lemma_normalize_del_node_normal(n: DelNode)
    ensures
        del_node_normal(normalize_del_node(n)),
    decreases n,
{
    match n {
        DelNode::Group(inner) => {
            lemma_normalize_del_seq_normal(inner, false);
        },
        DelNode::WithGroup(inner) => {
            lemma_normalize_del_seq_normal(inner, true);
        },
        _ => {},
    }
}

/// The atoms of a span, put into canonical form and placed, make a span
/// in canonical form.
pub proof fn lemma_normalize_del_placed_normal(s: Seq<DelNode>)
    ensures
        del_normal(normalize_del_placed(s), false),
    decreases s, 0nat,
{
    if s.len() > 0 {
        lemma_normalize_del_placed_normal(s.drop_last());
        lemma_normalize_del_node_normal(s.last());
        lemma_place_del_normal(normalize_del_placed(s.drop_last()), normalize_del_node(s.last()));
    }
}

/// The canonical form of a span is in canonical form: no canonical span
/// holds two neighbours that would merge, at any depth.
pub proof fn lemma_normalize_del_seq_normal(s: Seq<DelNode>, trim: bool)
    ensures
        del_normal(normalize_del_seq(s, trim), trim),
    decreases s, 1nat,
{
    lemma_normalize_del_placed_normal(s);
    let p = normalize_del_placed(s);
    if trim && p.len() > 0 && p.last() is Skip {
        let t = p.drop_last();
        assert forall|i: int| 0 <= i < t.len() - 1 implies !del_mergeable(
            #[trigger] t[i],
            t[i + 1],
        ) by {
            assert(!del_mergeable(p[i], p[i + 1]));
        }
        assert forall|i: int| 0 <= i < t.len() implies del_node_normal(#[trigger] t[i]) by {
            assert(del_node_normal(p[i]));
        }
        if t.len() > 0 {
            assert(!del_mergeable(p[t.len() - 1], p[t.len() - 1 + 1]));
        }
    }
}

/// An atom in canonical form is its own canonical form.
pub proof fn lemma_del_node_normal_fixed(n: DelNode)
    requires
        del_node_normal(n),
    ensures
        normalize_del_node(n) == n,
    decreases n,
{
    match n {
        DelNode::Group(inner) => {
            lemma_del_normal_fixed(inner, false);
        },
        DelNode::WithGroup(inner) => {
            lemma_del_normal_fixed(inner, true);
        },
        _ => {},
    }
}

/// The atoms of a span in canonical form stay as they are when they are
/// put into canonical form and placed.
pub proof fn lemma_del_placed_fixed(s: Seq<DelNode>)
    requires
        del_normal(s, false),
    ensures
        normalize_del_placed(s) == s,
    decreases s, 0nat,
{
    if s.len() > 0 {
        let front = s.drop_last();
        assert forall|i: int| 0 <= i < front.len() - 1 implies !del_mergeable(
            #[trigger] front[i],
            front[i + 1],
        ) by {
            assert(!del_mergeable(s[i], s[i + 1]));
        }
        assert forall|i: int| 0 <= i < front.len() implies del_node_normal(#[trigger] front[i]) by {
            assert(del_node_normal(s[i]));
        }
        lemma_del_placed_fixed(front);
        assert(del_node_normal(s[s.len() - 1]));
        lemma_del_node_normal_fixed(s.last());
        if front.len() > 0 {
            assert(!del_mergeable(s[front.len() - 1], s[front.len() - 1 + 1]));
        }
        assert(place_del(front, s.last()) =~= s);
    }
}

/// A span in canonical form is its own canonical form.
pub proof fn lemma_del_normal_fixed(s: Seq<DelNode>, trim: bool)
    requires
        del_normal(s, trim),
    ensures
        normalize_del_seq(s, trim) == s,
    decreases s, 1nat,
{
    lemma_del_placed_fixed(s);
}

/// Whether two neighbouring add atoms would merge when placed: two
/// skips, or two insertions of text of the same styles.
pub open spec fn add_mergeable(a: AddNode, b: AddNode) -> bool {
    (a is Skip && b is Skip) || (a is Chars && b is Chars && a->Chars_0.styles
        == b->Chars_0.styles)
}

/// Whether a add atom is in canonical form: the inner span of a group
/// atom is, and that of a descent is not empty and ends with no skip.
pub open spec fn add_node_normal(n: AddNode) -> bool
    decreases n,
{
    match n {
        AddNode::Group(_, inner) => add_normal(inner, false),
        AddNode::WithGroup(inner) => inner.len() > 0 && add_normal(inner, true),
        _ => true,
    }
}

/// Whether a add span is in canonical form: no two neighbours would
/// merge, every atom is in canonical form, and, where `trim` is set, the
/// span ends with no skip.
pub open spec fn add_normal(s: Seq<AddNode>, trim: bool) -> bool
    decreases s,
{
    &&& forall|i: int| 0 <= i < s.len() - 1 ==> !add_mergeable(#[trigger] s[i], s[i + 1])
    &&& forall|i: int| 0 <= i < s.len() ==> add_node_normal(#[trigger] s[i])
    &&& (trim && s.len() > 0 ==> !(s.last() is Skip))
}

/// Placing an atom in canonical form keeps a span free of neighbours that
/// would merge, and its atoms in canonical form.
proof fn lemma_place_add_normal(s: Seq<AddNode>, n: AddNode)
    requires
        add_normal(s, false),
        add_node_normal(n),
    ensures
        add_normal(place_add(s, n), false),
{
    let r = place_add(s, n);
    assert forall|i: int| 0 <= i < r.len() - 1 implies !add_mergeable(#[trigger] r[i], r[i + 1]) by {
        if i < s.len() - 1 {
            assert(!add_mergeable(s[i], s[i + 1]));
        }
    }
    assert forall|i: int| 0 <= i < r.len() implies add_node_normal(#[trigger] r[i]) by {
        if i < s.len() {
            assert(add_node_normal(s[i]));
        }
    }
}

/// The canonical form of an atom is in canonical form.
pub proof fn lemma_normalize_add_node_normal(n: AddNode)
    ensures
        add_node_normal(normalize_add_node(n)),
    decreases n,
{
    match n {
        AddNode::Group(_, inner) => {
            lemma_normalize_add_seq_normal(inner, false);
        },
        AddNode::WithGroup(inner) => {
            lemma_normalize_add_seq_normal(inner, true);
        },
        _ => {},
    }
}

/// The atoms of a span, put into canonical form and placed, make a span
/// in canonical form.
pub proof fn lemma_normalize_add_placed_normal(s: Seq<AddNode>)
    ensures
        add_normal(normalize_add_placed(s), false),
    decreases s, 0nat,
{
    if s.len() > 0 {
        lemma_normalize_add_placed_normal(s.drop_last());
        lemma_normalize_add_node_normal(s.last());
        lemma_place_add_normal(normalize_add_placed(s.drop_last()), normalize_add_node(s.last()));
    }
}

/// The canonical form of a span is in canonical form: no canonical span
/// holds two neighbours that would merge, at any depth.
pub proof fn lemma_normalize_add_seq_normal(s: Seq<AddNode>, trim: bool)
    ensures
        add_normal(normalize_add_seq(s, trim), trim),
    decreases s, 1nat,
{
    lemma_normalize_add_placed_normal(s);
    let p = normalize_add_placed(s);
    if trim && p.len() > 0 && p.last() is Skip {
        let t = p.drop_last();
        assert forall|i: int| 0 <= i < t.len() - 1 implies !add_mergeable(
            #[trigger] t[i],
            t[i + 1],
        ) by {
            assert(!add_mergeable(p[i], p[i + 1]));
        }
        assert forall|i: int| 0 <= i < t.len() implies add_node_normal(#[trigger] t[i]) by {
            assert(add_node_normal(p[i]));
        }
        if t.len() > 0 {
            assert(!add_mergeable(p[t.len() - 1], p[t.len() - 1 + 1]));
        }
    }
}

/// An atom in canonical form is its own canonical form.
pub proof fn lemma_add_node_normal_fixed(n: AddNode)
    requires
        add_node_normal(n),
    ensures
        normalize_add_node(n) == n,
    decreases n,
{
    match n {
        AddNode::Group(_, inner) => {
            lemma_add_normal_fixed(inner, false);
        },
        AddNode::WithGroup(inner) => {
            lemma_add_normal_fixed(inner, true);
        },
        _ => {},
    }
}

/// The atoms of a span in canonical form stay as they are when they are
/// put into canonical form and placed.
pub proof fn lemma_add_placed_fixed(s: Seq<AddNode>)
    requires
        add_normal(s, false),
    ensures
        normalize_add_placed(s) == s,
    decreases s, 0nat,
{
    if s.len() > 0 {
        let front = s.drop_last();
        assert forall|i: int| 0 <= i < front.len() - 1 implies !add_mergeable(
            #[trigger] front[i],
            front[i + 1],
        ) by {
            assert(!add_mergeable(s[i], s[i + 1]));
        }
        assert forall|i: int| 0 <= i < front.len() implies add_node_normal(#[trigger] front[i]) by {
            assert(add_node_normal(s[i]));
        }
        lemma_add_placed_fixed(front);
        assert(add_node_normal(s[s.len() - 1]));
        lemma_add_node_normal_fixed(s.last());
        if front.len() > 0 {
            assert(!add_mergeable(s[front.len() - 1], s[front.len() - 1 + 1]));
        }
        assert(place_add(front, s.last()) =~= s);
    }
}

/// A span in canonical form is its own canonical form.
pub proof fn lemma_add_normal_fixed(s: Seq<AddNode>, trim: bool)
    requires
        add_normal(s, trim),
    ensures
        normalize_add_seq(s, trim) == s,
    decreases s, 1nat,
{
    lemma_add_placed_fixed(s);
}

/// Whether an operation is in canonical form.
pub open spec fn op_normal(op: (Seq<DelNode>, Seq<AddNode>)) -> bool {
    del_normal(op.0, true) && add_normal(op.1, true)
}

/// Putting an operation into canonical form a second time changes
/// nothing.
pub proof fn lemma_normalize_idempotent(op: (Seq<DelNode>, Seq<AddNode>))
    ensures
        normalize_spec(normalize_spec(op)) == normalize_spec(op),
        op_normal(normalize_spec(op)),
{
    lemma_normalize_del_seq_normal(op.0, true);
    lemma_normalize_add_seq_normal(op.1, true);
    lemma_del_normal_fixed(normalize_del_seq(op.0, true), true);
    lemma_add_normal_fixed(normalize_add_seq(op.1, true), true);
}

/// An operation in canonical form is its own canonical form.
pub proof fn lemma_normal_fixed(op: (Seq<DelNode>, Seq<AddNode>))
    requires
        op_normal(op),
    ensures
        normalize_spec(op) == op,
{
    lemma_del_normal_fixed(op.0, true);
    lemma_add_normal_fixed(op.1, true);
}

} // verus!
