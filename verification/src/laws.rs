//! Laws of the algebra of operations.

use crate::apply::{add_inner_units, delete_applies, delete_units, op_applies, op_units};
use crate::compose::{
    add_count, add_del_defined, add_head, compose_add_add_spec, compose_add_del_defined,
    compose_add_del_onto, compose_add_del_spec, compose_defined, compose_del_del_onto,
    compose_spec, del_count, del_del_defined,
};
use crate::add_del_laws::{
    add_del_faithful, lemma_add_del_composition, lemma_add_del_composition_plain,
};
use crate::add_laws::lemma_add_composition;
use crate::compose_laws::{
    del_del_faithful, lemma_delete_composition, lemma_delete_composition_plain,
    lemma_delete_one_style,
};
use crate::doc::{AddNode, DelNode, StyleBag, Text};
use crate::units::one_style;
use crate::normalize::{
    del_mergeable, del_node_normal, lemma_add_normal_fixed, lemma_del_node_normal_fixed,
    lemma_normal_fixed, lemma_normalize_idempotent, normalize_del_placed, normalize_spec,
    op_normal,
};
use crate::place::{place_add, place_del};
use crate::units::Unit;
use vstd::prelude::*;

verus! {

broadcast use vstd::group_vstd_default;

/// The operation that does nothing: two empty spans.
pub open spec fn empty_op() -> (Seq<DelNode>, Seq<AddNode>) {
    (Seq::empty(), Seq::empty())
}

/// Text that is inserted and then deleted, character for character,
/// leaves nothing to do: the composition of the insertion with the delete
/// is a pair of empty spans.
pub proof fn lemma_add_del_annihilate(t: Text)
    ensures
        compose_add_del_defined(seq![AddNode::Chars(t)], seq![DelNode::Chars(t.chars.len())]),
        compose_add_del_spec(seq![AddNode::Chars(t)], seq![DelNode::Chars(t.chars.len())])
            == empty_op(),
{
    let a = seq![AddNode::Chars(t)];
    let b = seq![DelNode::Chars(t.chars.len())];
    reveal_with_fuel(compose_add_del_onto, 2);
    reveal_with_fuel(add_del_defined, 2);
    assert(a.skip(1) =~= Seq::<AddNode>::empty());
    assert(b.skip(1) =~= Seq::<DelNode>::empty());
}

/// The empty operation fits every document and leaves it as it is.
pub proof fn lemma_apply_empty(u: Seq<Unit>)
    ensures
        op_applies(u, empty_op()),
        op_units(u, empty_op()) == u,
{
    assert(add_inner_units(u, Seq::<AddNode>::empty()).0 + u =~= u);
}

/// With nothing left of the second span, the composition of two delete
/// spans writes what is left of the first as it stands, as long as no two
/// atoms that would merge come to stand side by side.
proof fn lemma_del_del_rest(res: Seq<DelNode>, a: Seq<DelNode>)
    requires
        forall|i: int| 0 <= i < a.len() - 1 ==> !del_mergeable(#[trigger] a[i], a[i + 1]),
        res.len() > 0 && a.len() > 0 ==> !del_mergeable(res.last(), a[0]),
    ensures
        del_del_defined(a, del_count(a), Seq::empty(), 0),
        compose_del_del_onto(res, a, del_count(a), Seq::empty(), 0) == res + a,
    decreases a.len(),
{
    if a.len() == 0 {
        assert(res + a =~= res);
    } else {
        let ar = a.skip(1);
        let res1 = res.push(a[0]);
        assert forall|i: int| 0 <= i < ar.len() - 1 implies !del_mergeable(
            #[trigger] ar[i],
            ar[i + 1],
        ) by {
            assert(ar[i] == a[i + 1]);
            assert(ar[i + 1] == a[i + 1 + 1]);
            assert(!del_mergeable(a[i + 1], a[i + 1 + 1]));
        }
        if ar.len() > 0 {
            assert(ar[0] == a[1]);
            assert(!del_mergeable(a[0], a[0int + 1]));
        }
        lemma_del_del_rest(res1, ar);
        assert(res1 + ar =~= res + a);
        match a[0] {
            DelNode::Chars(k) => {
                assert(place_del(res, DelNode::Chars(k)) == res1);
            },
            DelNode::Skip(k) => {
                assert(place_del(res, DelNode::Skip(k)) == res1);
            },
            _ => {},
        }
    }
}

/// Composing an operation in canonical form with the empty operation
/// gives the operation itself, which is its own canonical form.
pub proof fn lemma_compose_empty(op: (Seq<DelNode>, Seq<AddNode>))
    requires
        op_normal(op),
    ensures
        compose_defined(op, empty_op()),
        compose_spec(op, empty_op()) == normalize_spec(op),
{
    lemma_normal_fixed(op);
    let e = Seq::<DelNode>::empty();
    let m = compose_add_del_spec(op.1, e);
    assert(m == (Seq::<DelNode>::empty(), op.1)) by {
        if op.1.len() > 0 {
            lemma_add_head_whole(op.1);
            assert(place_add(Seq::<AddNode>::empty(), op.1[0]) + op.1.skip(1) =~= op.1);
        }
    }
    lemma_del_del_rest(Seq::empty(), op.0);
    assert(Seq::<DelNode>::empty() + op.0 =~= op.0);
    assert(compose_add_add_spec(op.1, Seq::empty()) == op.1) by {
        if op.1.len() > 0 {
            lemma_add_head_whole(op.1);
            assert(place_add(Seq::<AddNode>::empty(), op.1[0]) + op.1.skip(1) =~= op.1);
        }
    }
}

/// The atoms of `a`, placed one after the other behind `res`.
pub open spec fn del_placed_onto(res: Seq<DelNode>, a: Seq<DelNode>) -> Seq<DelNode>
    decreases a.len(),
{
    if a.len() == 0 {
        res
    } else {
        place_del(del_placed_onto(res, a.drop_last()), a.last())
    }
}

/// Whether every atom of a delete span is in canonical form.
pub open spec fn del_nodes_normal(s: Seq<DelNode>) -> bool {
    forall|i: int| 0 <= i < s.len() ==> del_node_normal(#[trigger] s[i])
}

/// Placing the first atom and then the others is placing them all.
proof fn lemma_placed_onto_front(res: Seq<DelNode>, a: Seq<DelNode>)
    requires
        a.len() > 0,
    ensures
        del_placed_onto(place_del(res, a[0]), a.skip(1)) == del_placed_onto(res, a),
    decreases a.len(),
{
    let t = a.skip(1);
    let f = a.drop_last();
    if a.len() == 1 {
        assert(del_placed_onto(res, f) == res);
        assert(del_placed_onto(place_del(res, a[0]), t) == place_del(res, a[0]));
    } else {
        assert(t.drop_last() =~= f.skip(1));
        assert(t.last() == a.last());
        assert(f[0] == a[0]);
        lemma_placed_onto_front(res, f);
    }
}

/// With nothing left of the second span, the composition of two delete
/// spans places what is left of the first, atom by atom.
proof fn lemma_del_del_placed(res: Seq<DelNode>, a: Seq<DelNode>)
    ensures
        del_del_defined(a, del_count(a), Seq::empty(), 0),
        compose_del_del_onto(res, a, del_count(a), Seq::empty(), 0) == del_placed_onto(res, a),
    decreases a.len(),
{
    if a.len() > 0 {
        let ar = a.skip(1);
        lemma_del_del_placed(place_del(res, a[0]), ar);
        lemma_placed_onto_front(res, a);
        match a[0] {
            DelNode::Skip(k) => {
                assert(place_del(res, DelNode::Skip(del_count(a))) == place_del(res, a[0]));
            },
            DelNode::Chars(k) => {
                assert(place_del(res, DelNode::Chars(del_count(a))) == place_del(res, a[0]));
            },
            _ => {
                assert(res.push(a[0]) == place_del(res, a[0]));
            },
        }
    }
}

/// Where the atoms of a span, placed behind another, are all in canonical
/// form, so were the atoms of both spans.
proof fn lemma_placed_nodes(res: Seq<DelNode>, a: Seq<DelNode>)
    requires
        del_nodes_normal(del_placed_onto(res, a)),
    ensures
        del_nodes_normal(a),
        del_nodes_normal(res),
    decreases a.len(),
{
    if a.len() > 0 {
        let f = a.drop_last();
        let q = del_placed_onto(res, f);
        let x = a.last();
        let p = place_del(q, x);
        assert forall|i: int| 0 <= i < q.len() implies del_node_normal(#[trigger] q[i]) by {
            if i < q.len() - 1 {
                assert(p[i] == q[i]);
                assert(del_node_normal(p[i]));
            } else if p.len() == q.len() + 1 {
                assert(p[i] == q[i]);
                assert(del_node_normal(p[i]));
            }
        }
        assert(del_node_normal(x)) by {
            assert(del_node_normal(p[p.len() - 1]));
        }
        lemma_placed_nodes(res, f);
        assert forall|i: int| 0 <= i < a.len() implies del_node_normal(#[trigger] a[i]) by {
            if i < f.len() {
                assert(a[i] == f[i]);
                assert(del_node_normal(f[i]));
            }
        }
    }
}

/// Atoms that are in canonical form are placed as they are when their
/// span is put into canonical form.
proof fn lemma_normal_placed(a: Seq<DelNode>)
    requires
        del_nodes_normal(a),
    ensures
        normalize_del_placed(a) == del_placed_onto(Seq::empty(), a),
    decreases a.len(),
{
    if a.len() > 0 {
        let f = a.drop_last();
        assert forall|i: int| 0 <= i < f.len() implies del_node_normal(#[trigger] f[i]) by {
            assert(f[i] == a[i]);
        }
        lemma_normal_placed(f);
        assert(del_node_normal(a[a.len() - 1]));
        lemma_del_node_normal_fixed(a.last());
    }
}

/// Composing an operation with the empty operation is defined, and gives
/// the canonical form of the operation exactly where what it gives is in
/// canonical form. It places the atoms of the delete span and leaves the
/// add span as it is: it neither removes a skip at the end of a span nor
/// changes the inner span of a group atom.
pub proof fn lemma_compose_empty_exact(op: (Seq<DelNode>, Seq<AddNode>))
    ensures
        compose_defined(op, empty_op()),
        compose_spec(op, empty_op()) == (del_placed_onto(Seq::empty(), op.0), op.1),
        (compose_spec(op, empty_op()) == normalize_spec(op)) == op_normal(
            compose_spec(op, empty_op()),
        ),
{
    let e = Seq::<DelNode>::empty();
    let m = compose_add_del_spec(op.1, e);
    assert(m == (Seq::<DelNode>::empty(), op.1)) by {
        if op.1.len() > 0 {
            lemma_add_head_whole(op.1);
            assert(place_add(Seq::<AddNode>::empty(), op.1[0]) + op.1.skip(1) =~= op.1);
        }
    }
    assert(compose_add_add_spec(op.1, Seq::empty()) == op.1) by {
        if op.1.len() > 0 {
            lemma_add_head_whole(op.1);
            assert(place_add(Seq::<AddNode>::empty(), op.1[0]) + op.1.skip(1) =~= op.1);
        }
    }
    lemma_del_del_placed(Seq::empty(), op.0);
    let c = compose_spec(op, empty_op());
    lemma_normalize_idempotent(op);
    if op_normal(c) {
        lemma_placed_nodes(Seq::empty(), op.0);
        lemma_normal_placed(op.0);
        lemma_add_normal_fixed(op.1, true);
    }
}

/// The first atom of an add span, with all of it still to be served, is
/// that atom.
pub proof fn lemma_add_head_whole(a: Seq<AddNode>)
    requires
        a.len() > 0,
    ensures
        add_head(a[0], add_count(a)) == a[0],
{
    match a[0] {
        AddNode::Chars(t) => {
            assert(t.chars.skip(0) =~= t.chars);
        },
        _ => {},
    }
}


/// Whether the composition of the operations `a` and `b` loses nothing on
/// the units `u`: neither where the delete span of `b` is taken through
/// the add span of `a`, nor where what comes out is composed with the
/// delete span of `a`.
pub open spec fn compose_faithful(
    u: Seq<Unit>,
    a: (Seq<DelNode>, Seq<AddNode>),
    b: (Seq<DelNode>, Seq<AddNode>),
) -> bool {
    let m = compose_add_del_spec(a.1, b.0);
    &&& add_del_faithful(a.1, add_count(a.1), b.0, del_count(b.0))
    &&& del_del_faithful(u, a.0, del_count(a.0), m.0, del_count(m.0))
}

/// Whether the delete spans that the composition of `a` and `b` makes fit
/// where they are applied: the delete span of `b`, taken through the add
/// span of `a`, fits what the delete span of `a` leaves of `u`, and the
/// delete span of the composition fits `u`.
pub open spec fn compose_fits(
    u: Seq<Unit>,
    a: (Seq<DelNode>, Seq<AddNode>),
    b: (Seq<DelNode>, Seq<AddNode>),
) -> bool {
    let m = compose_add_del_spec(a.1, b.0);
    &&& delete_applies(delete_units(u, a.0), m.0)
    &&& delete_applies(u, compose_spec(a, b).0)
}

/// The composition law: where the operations `a` and `b` fit a document
/// one after the other, and their composition is defined, loses nothing
/// and makes delete spans that fit, the composed operation fits the
/// document, and applying it gives what applying `a` and then `b` gives.
pub proof fn lemma_composition(
    u: Seq<Unit>,
    a: (Seq<DelNode>, Seq<AddNode>),
    b: (Seq<DelNode>, Seq<AddNode>),
)
    requires
        op_applies(u, a),
        op_applies(op_units(u, a), b),
        compose_defined(a, b),
        compose_faithful(u, a, b),
        compose_fits(u, a, b),
    ensures
        op_applies(u, compose_spec(a, b)),
        op_units(u, compose_spec(a, b)) == op_units(op_units(u, a), b),
{
    let v = delete_units(u, a.0);
    let m = compose_add_del_spec(a.1, b.0);
    lemma_add_del_composition(v, a.1, b.0);
    let w = delete_units(v, m.0);
    lemma_add_composition(w, m.1, b.1);
    lemma_delete_composition(u, a.0, m.0);
}


/// The composition law in a document of one style: where the operations
/// `a` and `b` fit the document one after the other, and their
/// composition is defined and loses nothing, the composed operation fits
/// the document, and applying it gives what applying `a` and then `b`
/// gives.
pub proof fn lemma_composition_plain(
    u: Seq<Unit>,
    s: StyleBag,
    a: (Seq<DelNode>, Seq<AddNode>),
    b: (Seq<DelNode>, Seq<AddNode>),
)
    requires
        one_style(u, s),
        op_applies(u, a),
        op_applies(op_units(u, a), b),
        compose_defined(a, b),
        compose_faithful(u, a, b),
    ensures
        op_applies(u, compose_spec(a, b)),
        op_units(u, compose_spec(a, b)) == op_units(op_units(u, a), b),
{
    let v = delete_units(u, a.0);
    let m = compose_add_del_spec(a.1, b.0);
    lemma_delete_one_style(u, s, a.0);
    lemma_add_del_composition_plain(v, s, a.1, b.0);
    let w = delete_units(v, m.0);
    lemma_add_composition(w, m.1, b.1);
    lemma_delete_composition_plain(u, s, a.0, m.0);
}

} // verus!
