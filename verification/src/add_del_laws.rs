//! That taking a delete span through the add span before it keeps what
//! the two do: applying the delete span and the add span that come out
//! gives what applying the add span and then the delete span gives.

use crate::add_laws::{
    add_cons, add_count_ok, add_rest, lemma_add_cons, lemma_add_onto_step, lemma_add_place_merge,
    lemma_add_rest_whole,
};
use crate::apply::{add_applies, add_units, delete_applies, delete_units, lemma_delete_chars_part};
use crate::compose::{
    add_chars_front, add_count, add_del_defined, add_head, compose_add_del_defined,
    compose_add_del_onto, compose_add_del_spec, del_count, min_count,
};
use crate::compose_laws::{
    del_cons, del_idle, del_positive, del_rest, lemma_applies_positive, lemma_cons_chars,
    lemma_cons_skip, lemma_del_rest_whole, lemma_idle_longer, lemma_idle_same, lemma_onto_step,
    lemma_place_merge, lemma_positive_grow, lemma_positive_rest,
};
use crate::doc::{AddNode, DelNode, StyleBag, Text};
use crate::place::{place_add, place_del};
use crate::units::{chars_units, lemma_chars_units_concat, one_style, Unit};
use vstd::prelude::*;

verus! {

broadcast use vstd::group_vstd_default;

/// The atoms that the composition of an add span with a delete span
/// writes to the delete span and to the add span, one after the other,
/// before any of them is merged into its neighbour.
pub open spec fn add_del_atoms(a: Seq<AddNode>, ac: nat, b: Seq<DelNode>, bc: nat) -> (
    Seq<DelNode>,
    Seq<AddNode>,
)
    decreases b, a,
{
    if b.len() == 0 {
        (Seq::empty(), add_rest(a, ac))
    } else if a.len() == 0 {
        (Seq::empty(), Seq::empty())
    } else {
        let ar = a.skip(1);
        let an = add_count(ar);
        let br = b.skip(1);
        let bn = del_count(br);
        match b[0] {
            DelNode::Chars(_) => match a[0] {
                AddNode::Chars(_) => if bc < ac {
                    add_del_atoms(a, (ac - bc) as nat, br, bn)
                } else if bc > ac {
                    add_del_atoms(ar, an, b, (bc - ac) as nat)
                } else {
                    add_del_atoms(ar, an, br, bn)
                },
                AddNode::Skip(_) => if bc < ac {
                    let r = add_del_atoms(a, (ac - bc) as nat, br, bn);
                    (del_cons(DelNode::Chars(bc), r.0), r.1)
                } else if bc > ac {
                    let r = add_del_atoms(ar, an, b, (bc - ac) as nat);
                    (del_cons(DelNode::Chars(ac), r.0), r.1)
                } else {
                    let r = add_del_atoms(ar, an, br, bn);
                    (del_cons(DelNode::Chars(bc), r.0), r.1)
                },
                _ => (Seq::empty(), Seq::empty()),
            },
            DelNode::Skip(_) => match a[0] {
                AddNode::Chars(_) => if bc < ac {
                    let r = add_del_atoms(a, (ac - bc) as nat, br, bn);
                    (r.0, add_cons(add_chars_front(add_head(a[0], ac), bc), r.1))
                } else if bc > ac {
                    let r = add_del_atoms(ar, an, b, (bc - ac) as nat);
                    (r.0, add_cons(add_head(a[0], ac), r.1))
                } else {
                    let r = add_del_atoms(ar, an, br, bn);
                    (r.0, add_cons(add_head(a[0], ac), r.1))
                },
                AddNode::Skip(_) => if ac > bc {
                    let r = add_del_atoms(a, (ac - bc) as nat, br, bn);
                    (del_cons(DelNode::Skip(bc), r.0), add_cons(AddNode::Skip(bc), r.1))
                } else if ac < bc {
                    let r = add_del_atoms(ar, an, b, (bc - ac) as nat);
                    (del_cons(DelNode::Skip(ac), r.0), add_cons(AddNode::Skip(ac), r.1))
                } else {
                    let r = add_del_atoms(ar, an, br, bn);
                    (del_cons(DelNode::Skip(ac), r.0), add_cons(AddNode::Skip(ac), r.1))
                },
                AddNode::WithGroup(_) => if bc > 1 {
                    let r = add_del_atoms(ar, an, b, (bc - 1) as nat);
                    (r.0, add_cons(a[0], r.1))
                } else {
                    let r = add_del_atoms(ar, an, br, bn);
                    (r.0, add_cons(a[0], r.1))
                },
                _ => (Seq::empty(), Seq::empty()),
            },
            _ => (Seq::empty(), Seq::empty()),
        }
    }
}

/// Whether the composition of an add span with a delete span loses
/// nothing. It does where a skip of `b` passes over a group that `a`
/// descends into and a delete atom other than a skip is written later,
/// for the delete span that comes out does not pass over that group.
pub open spec fn add_del_faithful(a: Seq<AddNode>, ac: nat, b: Seq<DelNode>, bc: nat) -> bool
    decreases b, a,
{
    if b.len() == 0 || a.len() == 0 {
        true
    } else {
        let ar = a.skip(1);
        let an = add_count(ar);
        let br = b.skip(1);
        let bn = del_count(br);
        match (b[0], a[0]) {
            (DelNode::Chars(_), AddNode::Chars(_))
            | (DelNode::Chars(_), AddNode::Skip(_))
            | (DelNode::Skip(_), AddNode::Chars(_))
            | (DelNode::Skip(_), AddNode::Skip(_)) => if bc < ac {
                add_del_faithful(a, (ac - bc) as nat, br, bn)
            } else if bc > ac {
                add_del_faithful(ar, an, b, (bc - ac) as nat)
            } else {
                add_del_faithful(ar, an, br, bn)
            },
            (DelNode::Skip(_), AddNode::WithGroup(_)) => if bc > 1 {
                del_idle(add_del_atoms(ar, an, b, (bc - 1) as nat).0) && add_del_faithful(
                    ar,
                    an,
                    b,
                    (bc - 1) as nat,
                )
            } else {
                del_idle(add_del_atoms(ar, an, br, bn).0) && add_del_faithful(ar, an, br, bn)
            },
            _ => true,
        }
    }
}

/// One step of the walk. The spans `x` and `y` are what is left of `a`
/// and `b` before the step on the units `u`, `x2` and `y2` what is left
/// after it on the units `u2`; `d` and `dt` are the delete atoms written
/// from this step on and after it, `s` and `st` the add atoms. The delete
/// atoms from this step on fit where those after it do; and where what is
/// written after the step does what the spans left do in turn, so does
/// what is written from this step on.
pub open spec fn ad_step_keeps(
    u: Seq<Unit>,
    x: Seq<AddNode>,
    y: Seq<DelNode>,
    d: Seq<DelNode>,
    s: Seq<AddNode>,
    u2: Seq<Unit>,
    x2: Seq<AddNode>,
    y2: Seq<DelNode>,
    dt: Seq<DelNode>,
    st: Seq<AddNode>,
) -> bool {
    &&& add_applies(u2, x2)
    &&& delete_applies(add_units(u2, x2), y2)
    &&& delete_applies(u, d) == delete_applies(u2, dt)
    &&& (add_applies(delete_units(u2, dt), st) && add_units(delete_units(u2, dt), st)
        == delete_units(add_units(u2, x2), y2) ==> add_applies(delete_units(u, d), s)
        && add_units(delete_units(u, d), s) == delete_units(add_units(u, x), y))
}

/// A character delete of `b` takes away the front of text that `a` has
/// inserted.
proof fn lemma_ad_text_chars_lt(
    u: Seq<Unit>,
    txt: Text,
    bc: nat,
    ar: Seq<AddNode>,
    br: Seq<DelNode>,
    dt: Seq<DelNode>,
    st: Seq<AddNode>,
)
    requires
        bc < txt.chars.len(),
        add_applies(u, add_cons(AddNode::Chars(txt), ar)),
        delete_applies(
            add_units(u, add_cons(AddNode::Chars(txt), ar)),
            del_cons(DelNode::Chars(bc), br),
        ),
    ensures
        ad_step_keeps(
            u,
            add_cons(AddNode::Chars(txt), ar),
            del_cons(DelNode::Chars(bc), br),
            dt,
            st,
            u,
            add_cons(
                AddNode::Chars(Text { chars: txt.chars.skip(bc as int), styles: txt.styles }),
                ar,
            ),
            br,
            dt,
            st,
        ),
{
    let back = AddNode::Chars(Text { chars: txt.chars.skip(bc as int), styles: txt.styles });
    let v = add_units(u, add_cons(AddNode::Chars(txt), ar));
    lemma_add_cons(u, AddNode::Chars(txt), ar);
    lemma_add_cons(u, back, ar);
    lemma_cons_chars(v, bc, br);
    lemma_chars_units_concat(txt.chars.take(bc as int), txt.chars.skip(bc as int), txt.styles);
    assert(txt.chars.take(bc as int) + txt.chars.skip(bc as int) =~= txt.chars);
    assert(v.skip(bc as int) =~= chars_units(txt.chars.skip(bc as int), txt.styles) + add_units(
        u,
        ar,
    ));
}

/// A character delete of `b` takes away all of the text that `a` has
/// inserted, and goes on.
proof fn lemma_ad_text_chars_gt(
    u: Seq<Unit>,
    txt: Text,
    bc: nat,
    ar: Seq<AddNode>,
    br: Seq<DelNode>,
    dt: Seq<DelNode>,
    st: Seq<AddNode>,
)
    requires
        bc > txt.chars.len(),
        add_applies(u, add_cons(AddNode::Chars(txt), ar)),
        delete_applies(
            add_units(u, add_cons(AddNode::Chars(txt), ar)),
            del_cons(DelNode::Chars(bc), br),
        ),
    ensures
        ad_step_keeps(
            u,
            add_cons(AddNode::Chars(txt), ar),
            del_cons(DelNode::Chars(bc), br),
            dt,
            st,
            u,
            ar,
            del_cons(DelNode::Chars((bc - txt.chars.len()) as nat), br),
            dt,
            st,
        ),
{
    let n = txt.chars.len();
    let v = add_units(u, add_cons(AddNode::Chars(txt), ar));
    let w = add_units(u, ar);
    lemma_add_cons(u, AddNode::Chars(txt), ar);
    assert(v.skip(n as int) =~= w);
    if n > 0 {
        lemma_delete_chars_part(v, bc, n, br);
    } else {
        assert(v =~= w);
    }
}

/// A character delete of `b` takes away just the text that `a` has
/// inserted.
proof fn lemma_ad_text_chars_eq(
    u: Seq<Unit>,
    txt: Text,
    ar: Seq<AddNode>,
    br: Seq<DelNode>,
    dt: Seq<DelNode>,
    st: Seq<AddNode>,
)
    requires
        add_applies(u, add_cons(AddNode::Chars(txt), ar)),
        delete_applies(
            add_units(u, add_cons(AddNode::Chars(txt), ar)),
            del_cons(DelNode::Chars(txt.chars.len()), br),
        ),
    ensures
        ad_step_keeps(
            u,
            add_cons(AddNode::Chars(txt), ar),
            del_cons(DelNode::Chars(txt.chars.len()), br),
            dt,
            st,
            u,
            ar,
            br,
            dt,
            st,
        ),
{
    let n = txt.chars.len();
    let v = add_units(u, add_cons(AddNode::Chars(txt), ar));
    lemma_add_cons(u, AddNode::Chars(txt), ar);
    lemma_cons_chars(v, n, br);
    assert(v.skip(n as int) =~= add_units(u, ar));
}

/// A character delete of `b` falls on the front of what `a` skips.
proof fn lemma_ad_skip_chars_lt(
    u: Seq<Unit>,
    ac: nat,
    bc: nat,
    ar: Seq<AddNode>,
    br: Seq<DelNode>,
    dt: Seq<DelNode>,
    st: Seq<AddNode>,
)
    requires
        bc < ac,
        add_applies(u, add_cons(AddNode::Skip(ac), ar)),
        delete_applies(
            add_units(u, add_cons(AddNode::Skip(ac), ar)),
            del_cons(DelNode::Chars(bc), br),
        ),
    ensures
        ad_step_keeps(
            u,
            add_cons(AddNode::Skip(ac), ar),
            del_cons(DelNode::Chars(bc), br),
            del_cons(DelNode::Chars(bc), dt),
            st,
            u.skip(bc as int),
            add_cons(AddNode::Skip((ac - bc) as nat), ar),
            br,
            dt,
            st,
        ),
{
    let u2 = u.skip(bc as int);
    let x2 = add_cons(AddNode::Skip((ac - bc) as nat), ar);
    let v = add_units(u, add_cons(AddNode::Skip(ac), ar));
    lemma_add_cons(u, AddNode::Skip(ac), ar);
    lemma_add_cons(u2, AddNode::Skip((ac - bc) as nat), ar);
    lemma_cons_chars(v, bc, br);
    lemma_cons_chars(u, bc, dt);
    assert(u2.skip(ac - bc) =~= u.skip(ac as int));
    assert(v.skip(bc as int) =~= add_units(u2, x2));
    assert forall|i: int| 0 <= i < bc implies #[trigger] u[i] is Char && u[i]->Char_0.1
        == u[0]->Char_0.1 by {
        assert(u[i] == v[i]);
        assert(u[0] == v[0]);
    }
}

/// A character delete of `b` falls on all of what `a` skips, and goes on.
proof fn lemma_ad_skip_chars_gt(
    u: Seq<Unit>,
    ac: nat,
    bc: nat,
    ar: Seq<AddNode>,
    br: Seq<DelNode>,
    dt: Seq<DelNode>,
    st: Seq<AddNode>,
)
    requires
        bc > ac,
        add_applies(u, add_cons(AddNode::Skip(ac), ar)),
        delete_applies(
            add_units(u, add_cons(AddNode::Skip(ac), ar)),
            del_cons(DelNode::Chars(bc), br),
        ),
    ensures
        ad_step_keeps(
            u,
            add_cons(AddNode::Skip(ac), ar),
            del_cons(DelNode::Chars(bc), br),
            del_cons(DelNode::Chars(ac), dt),
            st,
            u.skip(ac as int),
            ar,
            del_cons(DelNode::Chars((bc - ac) as nat), br),
            dt,
            st,
        ),
{
    let u2 = u.skip(ac as int);
    let v = add_units(u, add_cons(AddNode::Skip(ac), ar));
    lemma_add_cons(u, AddNode::Skip(ac), ar);
    lemma_cons_chars(u, ac, dt);
    lemma_cons_chars(v, bc, br);
    lemma_delete_chars_part(v, bc, ac, br);
    assert(v.skip(ac as int) =~= add_units(u2, ar));
    assert forall|i: int| 0 <= i < ac implies #[trigger] u[i] is Char && u[i]->Char_0.1
        == u[0]->Char_0.1 by {
        assert(u[i] == v[i]);
        assert(u[0] == v[0]);
    }
}

/// A character delete of `b` falls on just what `a` skips.
proof fn lemma_ad_skip_chars_eq(
    u: Seq<Unit>,
    ac: nat,
    ar: Seq<AddNode>,
    br: Seq<DelNode>,
    dt: Seq<DelNode>,
    st: Seq<AddNode>,
)
    requires
        add_applies(u, add_cons(AddNode::Skip(ac), ar)),
        delete_applies(
            add_units(u, add_cons(AddNode::Skip(ac), ar)),
            del_cons(DelNode::Chars(ac), br),
        ),
    ensures
        ad_step_keeps(
            u,
            add_cons(AddNode::Skip(ac), ar),
            del_cons(DelNode::Chars(ac), br),
            del_cons(DelNode::Chars(ac), dt),
            st,
            u.skip(ac as int),
            ar,
            br,
            dt,
            st,
        ),
{
    let u2 = u.skip(ac as int);
    let v = add_units(u, add_cons(AddNode::Skip(ac), ar));
    lemma_add_cons(u, AddNode::Skip(ac), ar);
    lemma_cons_chars(v, ac, br);
    lemma_cons_chars(u, ac, dt);
    assert(v.skip(ac as int) =~= add_units(u2, ar));
    assert forall|i: int| 0 <= i < ac implies #[trigger] u[i] is Char && u[i]->Char_0.1
        == u[0]->Char_0.1 by {
        assert(u[i] == v[i]);
        assert(u[0] == v[0]);
    }
}

/// A skip of `b` keeps the front of text that `a` has inserted.
proof fn lemma_ad_text_skip_lt(
    u: Seq<Unit>,
    txt: Text,
    bc: nat,
    ar: Seq<AddNode>,
    br: Seq<DelNode>,
    dt: Seq<DelNode>,
    st: Seq<AddNode>,
)
    requires
        bc < txt.chars.len(),
        add_applies(u, add_cons(AddNode::Chars(txt), ar)),
        delete_applies(
            add_units(u, add_cons(AddNode::Chars(txt), ar)),
            del_cons(DelNode::Skip(bc), br),
        ),
    ensures
        ad_step_keeps(
            u,
            add_cons(AddNode::Chars(txt), ar),
            del_cons(DelNode::Skip(bc), br),
            dt,
            add_cons(add_chars_front(AddNode::Chars(txt), bc), st),
            u,
            add_cons(
                AddNode::Chars(Text { chars: txt.chars.skip(bc as int), styles: txt.styles }),
                ar,
            ),
            br,
            dt,
            st,
        ),
{
    let front = add_chars_front(AddNode::Chars(txt), bc);
    let back = AddNode::Chars(Text { chars: txt.chars.skip(bc as int), styles: txt.styles });
    let v = add_units(u, add_cons(AddNode::Chars(txt), ar));
    lemma_add_cons(u, AddNode::Chars(txt), ar);
    lemma_add_cons(u, back, ar);
    lemma_add_cons(delete_units(u, dt), front, st);
    lemma_cons_skip(v, bc, br);
    lemma_chars_units_concat(txt.chars.take(bc as int), txt.chars.skip(bc as int), txt.styles);
    assert(txt.chars.take(bc as int) + txt.chars.skip(bc as int) =~= txt.chars);
    assert(v.take(bc as int) =~= chars_units(txt.chars.take(bc as int), txt.styles));
    assert(v.skip(bc as int) =~= chars_units(txt.chars.skip(bc as int), txt.styles) + add_units(
        u,
        ar,
    ));
}

/// A skip of `b` keeps all of the text that `a` has inserted, and goes
/// on.
proof fn lemma_ad_text_skip_gt(
    u: Seq<Unit>,
    txt: Text,
    bc: nat,
    ar: Seq<AddNode>,
    br: Seq<DelNode>,
    dt: Seq<DelNode>,
    st: Seq<AddNode>,
)
    requires
        bc > txt.chars.len(),
        add_applies(u, add_cons(AddNode::Chars(txt), ar)),
        delete_applies(
            add_units(u, add_cons(AddNode::Chars(txt), ar)),
            del_cons(DelNode::Skip(bc), br),
        ),
    ensures
        ad_step_keeps(
            u,
            add_cons(AddNode::Chars(txt), ar),
            del_cons(DelNode::Skip(bc), br),
            dt,
            add_cons(AddNode::Chars(txt), st),
            u,
            ar,
            del_cons(DelNode::Skip((bc - txt.chars.len()) as nat), br),
            dt,
            st,
        ),
{
    let n = txt.chars.len();
    let v = add_units(u, add_cons(AddNode::Chars(txt), ar));
    let w = add_units(u, ar);
    let y2 = del_cons(DelNode::Skip((bc - n) as nat), br);
    lemma_add_cons(u, AddNode::Chars(txt), ar);
    lemma_add_cons(delete_units(u, dt), AddNode::Chars(txt), st);
    lemma_cons_skip(v, bc, br);
    lemma_cons_skip(w, (bc - n) as nat, br);
    assert(v.skip(n as int) =~= w);
    assert(w.skip(bc - n) =~= v.skip(bc as int));
    assert(v.take(bc as int) =~= chars_units(txt.chars, txt.styles) + w.take(bc - n));
    if add_applies(delete_units(u, dt), st) && add_units(delete_units(u, dt), st) == delete_units(
        w,
        y2,
    ) {
        assert(add_units(delete_units(u, dt), add_cons(AddNode::Chars(txt), st)) =~= delete_units(
            v,
            del_cons(DelNode::Skip(bc), br),
        ));
    }
}

/// A skip of `b` keeps just the text that `a` has inserted.
proof fn lemma_ad_text_skip_eq(
    u: Seq<Unit>,
    txt: Text,
    ar: Seq<AddNode>,
    br: Seq<DelNode>,
    dt: Seq<DelNode>,
    st: Seq<AddNode>,
)
    requires
        add_applies(u, add_cons(AddNode::Chars(txt), ar)),
        delete_applies(
            add_units(u, add_cons(AddNode::Chars(txt), ar)),
            del_cons(DelNode::Skip(txt.chars.len()), br),
        ),
    ensures
        ad_step_keeps(
            u,
            add_cons(AddNode::Chars(txt), ar),
            del_cons(DelNode::Skip(txt.chars.len()), br),
            dt,
            add_cons(AddNode::Chars(txt), st),
            u,
            ar,
            br,
            dt,
            st,
        ),
{
    let n = txt.chars.len();
    let v = add_units(u, add_cons(AddNode::Chars(txt), ar));
    lemma_add_cons(u, AddNode::Chars(txt), ar);
    lemma_add_cons(delete_units(u, dt), AddNode::Chars(txt), st);
    lemma_cons_skip(v, n, br);
    assert(v.skip(n as int) =~= add_units(u, ar));
    assert(v.take(n as int) =~= chars_units(txt.chars, txt.styles));
}

/// A skip of `a` meets a shorter skip of `b`.
proof fn lemma_ad_skip_skip_gt(
    u: Seq<Unit>,
    ac: nat,
    bc: nat,
    ar: Seq<AddNode>,
    br: Seq<DelNode>,
    dt: Seq<DelNode>,
    st: Seq<AddNode>,
)
    requires
        ac > bc,
        add_applies(u, add_cons(AddNode::Skip(ac), ar)),
        delete_applies(
            add_units(u, add_cons(AddNode::Skip(ac), ar)),
            del_cons(DelNode::Skip(bc), br),
        ),
    ensures
        ad_step_keeps(
            u,
            add_cons(AddNode::Skip(ac), ar),
            del_cons(DelNode::Skip(bc), br),
            del_cons(DelNode::Skip(bc), dt),
            add_cons(AddNode::Skip(bc), st),
            u.skip(bc as int),
            add_cons(AddNode::Skip((ac - bc) as nat), ar),
            br,
            dt,
            st,
        ),
{
    let u2 = u.skip(bc as int);
    let x2 = add_cons(AddNode::Skip((ac - bc) as nat), ar);
    let v = add_units(u, add_cons(AddNode::Skip(ac), ar));
    let d = delete_units(u, del_cons(DelNode::Skip(bc), dt));
    lemma_add_cons(u, AddNode::Skip(ac), ar);
    lemma_add_cons(u2, AddNode::Skip((ac - bc) as nat), ar);
    lemma_cons_skip(v, bc, br);
    lemma_cons_skip(u, bc, dt);
    lemma_add_cons(d, AddNode::Skip(bc), st);
    assert(u2.skip(ac - bc) =~= u.skip(ac as int));
    assert(v.take(bc as int) =~= u.take(bc as int));
    assert(v.skip(bc as int) =~= add_units(u2, x2));
    assert(d.take(bc as int) =~= u.take(bc as int));
    assert(d.skip(bc as int) =~= delete_units(u2, dt));
}

/// A skip of `a` meets a longer skip of `b`.
proof fn lemma_ad_skip_skip_lt(
    u: Seq<Unit>,
    ac: nat,
    bc: nat,
    ar: Seq<AddNode>,
    br: Seq<DelNode>,
    dt: Seq<DelNode>,
    st: Seq<AddNode>,
)
    requires
        ac < bc,
        add_applies(u, add_cons(AddNode::Skip(ac), ar)),
        delete_applies(
            add_units(u, add_cons(AddNode::Skip(ac), ar)),
            del_cons(DelNode::Skip(bc), br),
        ),
    ensures
        ad_step_keeps(
            u,
            add_cons(AddNode::Skip(ac), ar),
            del_cons(DelNode::Skip(bc), br),
            del_cons(DelNode::Skip(ac), dt),
            add_cons(AddNode::Skip(ac), st),
            u.skip(ac as int),
            ar,
            del_cons(DelNode::Skip((bc - ac) as nat), br),
            dt,
            st,
        ),
{
    let u2 = u.skip(ac as int);
    let y2 = del_cons(DelNode::Skip((bc - ac) as nat), br);
    let v = add_units(u, add_cons(AddNode::Skip(ac), ar));
    let w = add_units(u2, ar);
    let d = delete_units(u, del_cons(DelNode::Skip(ac), dt));
    lemma_add_cons(u, AddNode::Skip(ac), ar);
    lemma_cons_skip(v, bc, br);
    lemma_cons_skip(w, (bc - ac) as nat, br);
    lemma_cons_skip(u, ac, dt);
    lemma_add_cons(d, AddNode::Skip(ac), st);
    assert(v.skip(ac as int) =~= w);
    assert(w.skip(bc - ac) =~= v.skip(bc as int));
    assert(v.take(bc as int) =~= u.take(ac as int) + w.take(bc - ac));
    assert(d.take(ac as int) =~= u.take(ac as int));
    assert(d.skip(ac as int) =~= delete_units(u2, dt));
    if add_applies(delete_units(u2, dt), st) && add_units(delete_units(u2, dt), st)
        == delete_units(w, y2) {
        assert(add_units(d, add_cons(AddNode::Skip(ac), st)) =~= delete_units(
            v,
            del_cons(DelNode::Skip(bc), br),
        ));
    }
}

/// A skip of `a` meets a skip of `b` of the same length.
proof fn lemma_ad_skip_skip_eq(
    u: Seq<Unit>,
    ac: nat,
    ar: Seq<AddNode>,
    br: Seq<DelNode>,
    dt: Seq<DelNode>,
    st: Seq<AddNode>,
)
    requires
        add_applies(u, add_cons(AddNode::Skip(ac), ar)),
        delete_applies(
            add_units(u, add_cons(AddNode::Skip(ac), ar)),
            del_cons(DelNode::Skip(ac), br),
        ),
    ensures
        ad_step_keeps(
            u,
            add_cons(AddNode::Skip(ac), ar),
            del_cons(DelNode::Skip(ac), br),
            del_cons(DelNode::Skip(ac), dt),
            add_cons(AddNode::Skip(ac), st),
            u.skip(ac as int),
            ar,
            br,
            dt,
            st,
        ),
{
    let u2 = u.skip(ac as int);
    let v = add_units(u, add_cons(AddNode::Skip(ac), ar));
    let d = delete_units(u, del_cons(DelNode::Skip(ac), dt));
    lemma_add_cons(u, AddNode::Skip(ac), ar);
    lemma_cons_skip(v, ac, br);
    lemma_cons_skip(u, ac, dt);
    lemma_add_cons(d, AddNode::Skip(ac), st);
    assert(v.skip(ac as int) =~= add_units(u2, ar));
    assert(v.take(ac as int) =~= u.take(ac as int));
    assert(d.take(ac as int) =~= u.take(ac as int));
    assert(d.skip(ac as int) =~= delete_units(u2, dt));
}

/// A skip of `b` of more than one unit passes over a group that `a`
/// descends into; no delete atom is written later.
proof fn lemma_ad_with_skip_gt(
    u: Seq<Unit>,
    ga: Seq<AddNode>,
    bc: nat,
    ar: Seq<AddNode>,
    br: Seq<DelNode>,
    st: Seq<AddNode>,
)
    requires
        bc > 1,
        add_applies(u, add_cons(AddNode::WithGroup(ga), ar)),
        delete_applies(
            add_units(u, add_cons(AddNode::WithGroup(ga), ar)),
            del_cons(DelNode::Skip(bc), br),
        ),
    ensures
        ad_step_keeps(
            u,
            add_cons(AddNode::WithGroup(ga), ar),
            del_cons(DelNode::Skip(bc), br),
            Seq::empty(),
            add_cons(AddNode::WithGroup(ga), st),
            u.skip(1),
            ar,
            del_cons(DelNode::Skip((bc - 1) as nat), br),
            Seq::empty(),
            st,
        ),
{
    let u2 = u.skip(1);
    let y2 = del_cons(DelNode::Skip((bc - 1) as nat), br);
    let v = add_units(u, add_cons(AddNode::WithGroup(ga), ar));
    let w = add_units(u2, ar);
    lemma_add_cons(u, AddNode::WithGroup(ga), ar);
    lemma_add_cons(u, AddNode::WithGroup(ga), st);
    lemma_cons_skip(v, bc, br);
    lemma_cons_skip(w, (bc - 1) as nat, br);
    assert(v.skip(1) =~= w);
    assert(w.skip(bc - 1) =~= v.skip(bc as int));
    assert(v.take(bc as int) =~= v.take(1) + w.take(bc - 1));
    if add_applies(u2, st) && add_units(u2, st) == delete_units(w, y2) {
        assert(add_units(u, add_cons(AddNode::WithGroup(ga), st)) =~= delete_units(
            v,
            del_cons(DelNode::Skip(bc), br),
        ));
    }
}

/// A skip of `b` of one unit passes over a group that `a` descends into;
/// no delete atom is written later.
proof fn lemma_ad_with_skip_one(
    u: Seq<Unit>,
    ga: Seq<AddNode>,
    ar: Seq<AddNode>,
    br: Seq<DelNode>,
    st: Seq<AddNode>,
)
    requires
        add_applies(u, add_cons(AddNode::WithGroup(ga), ar)),
        delete_applies(
            add_units(u, add_cons(AddNode::WithGroup(ga), ar)),
            del_cons(DelNode::Skip(1), br),
        ),
    ensures
        ad_step_keeps(
            u,
            add_cons(AddNode::WithGroup(ga), ar),
            del_cons(DelNode::Skip(1), br),
            Seq::empty(),
            add_cons(AddNode::WithGroup(ga), st),
            u.skip(1),
            ar,
            br,
            Seq::empty(),
            st,
        ),
{
    let u2 = u.skip(1);
    let v = add_units(u, add_cons(AddNode::WithGroup(ga), ar));
    let w = add_units(u2, ar);
    lemma_add_cons(u, AddNode::WithGroup(ga), ar);
    lemma_add_cons(u, AddNode::WithGroup(ga), st);
    lemma_cons_skip(v, 1, br);
    assert(v.skip(1) =~= w);
    assert(v.take(1) =~= seq![v[0]]);
}


/// Where a skip of `b` passes over a group that `a` descends into, what
/// is left of `b` is a skip too, of at least one unit.
proof fn lemma_skip_at_least_one(v: Seq<Unit>, bc: nat, br: Seq<DelNode>)
    requires
        delete_applies(v, del_cons(DelNode::Skip(bc), br)),
    ensures
        bc >= 1,
{
    lemma_cons_skip(v, bc, br);
}

/// The atoms that the composition of an add span with a delete span
/// writes do to a document what the two spans do to it in turn, where the
/// composition loses nothing and the delete atoms fit the document.
proof fn lemma_ad_atoms_sound(u: Seq<Unit>, a: Seq<AddNode>, ac: nat, b: Seq<DelNode>, bc: nat)
    requires
        add_count_ok(a, ac),
        add_applies(u, add_rest(a, ac)),
        delete_applies(add_units(u, add_rest(a, ac)), del_rest(b, bc)),
        add_del_defined(a, ac, b, bc),
        add_del_faithful(a, ac, b, bc),
        delete_applies(u, add_del_atoms(a, ac, b, bc).0),
    ensures
        add_applies(
            delete_units(u, add_del_atoms(a, ac, b, bc).0),
            add_del_atoms(a, ac, b, bc).1,
        ),
        add_units(delete_units(u, add_del_atoms(a, ac, b, bc).0), add_del_atoms(a, ac, b, bc).1)
            == delete_units(add_units(u, add_rest(a, ac)), del_rest(b, bc)),
    decreases b, a,
{
    let x = add_rest(a, ac);
    if b.len() > 0 {
        let ar = a.skip(1);
        let an = add_count(ar);
        let br = b.skip(1);
        let bn = del_count(br);
        lemma_add_rest_whole(ar);
        lemma_del_rest_whole(br);
        match b[0] {
            DelNode::Chars(_) => {
                match a[0] {
                    AddNode::Chars(whole) => {
                        let txt = add_head(a[0], ac)->Chars_0;
                        if bc < ac {
                            let r = add_del_atoms(a, (ac - bc) as nat, br, bn);
                            lemma_ad_text_chars_lt(u, txt, bc, ar, br, r.0, r.1);
                            assert(txt.chars.skip(bc as int) =~= whole.chars.skip(
                                whole.chars.len() - (ac - bc),
                            ));
                            lemma_ad_atoms_sound(u, a, (ac - bc) as nat, br, bn);
                        } else if bc > ac {
                            let r = add_del_atoms(ar, an, b, (bc - ac) as nat);
                            lemma_ad_text_chars_gt(u, txt, bc, ar, br, r.0, r.1);
                            lemma_ad_atoms_sound(u, ar, an, b, (bc - ac) as nat);
                        } else {
                            let r = add_del_atoms(ar, an, br, bn);
                            lemma_ad_text_chars_eq(u, txt, ar, br, r.0, r.1);
                            lemma_ad_atoms_sound(u, ar, an, br, bn);
                        }
                    },
                    AddNode::Skip(_) => {
                        if bc < ac {
                            let r = add_del_atoms(a, (ac - bc) as nat, br, bn);
                            lemma_ad_skip_chars_lt(u, ac, bc, ar, br, r.0, r.1);
                            lemma_ad_atoms_sound(u.skip(bc as int), a, (ac - bc) as nat, br, bn);
                        } else if bc > ac {
                            let r = add_del_atoms(ar, an, b, (bc - ac) as nat);
                            lemma_ad_skip_chars_gt(u, ac, bc, ar, br, r.0, r.1);
                            lemma_ad_atoms_sound(u.skip(ac as int), ar, an, b, (bc - ac) as nat);
                        } else {
                            let r = add_del_atoms(ar, an, br, bn);
                            lemma_ad_skip_chars_eq(u, ac, ar, br, r.0, r.1);
                            lemma_ad_atoms_sound(u.skip(ac as int), ar, an, br, bn);
                        }
                    },
                    _ => {},
                }
            },
            DelNode::Skip(_) => {
                match a[0] {
                    AddNode::Chars(whole) => {
                        let txt = add_head(a[0], ac)->Chars_0;
                        if bc < ac {
                            let r = add_del_atoms(a, (ac - bc) as nat, br, bn);
                            lemma_ad_text_skip_lt(u, txt, bc, ar, br, r.0, r.1);
                            assert(txt.chars.skip(bc as int) =~= whole.chars.skip(
                                whole.chars.len() - (ac - bc),
                            ));
                            lemma_ad_atoms_sound(u, a, (ac - bc) as nat, br, bn);
                        } else if bc > ac {
                            let r = add_del_atoms(ar, an, b, (bc - ac) as nat);
                            lemma_ad_text_skip_gt(u, txt, bc, ar, br, r.0, r.1);
                            lemma_ad_atoms_sound(u, ar, an, b, (bc - ac) as nat);
                        } else {
                            let r = add_del_atoms(ar, an, br, bn);
                            lemma_ad_text_skip_eq(u, txt, ar, br, r.0, r.1);
                            lemma_ad_atoms_sound(u, ar, an, br, bn);
                        }
                    },
                    AddNode::Skip(_) => {
                        if ac > bc {
                            let r = add_del_atoms(a, (ac - bc) as nat, br, bn);
                            lemma_ad_skip_skip_gt(u, ac, bc, ar, br, r.0, r.1);
                            lemma_ad_atoms_sound(u.skip(bc as int), a, (ac - bc) as nat, br, bn);
                        } else if ac < bc {
                            let r = add_del_atoms(ar, an, b, (bc - ac) as nat);
                            lemma_ad_skip_skip_lt(u, ac, bc, ar, br, r.0, r.1);
                            lemma_ad_atoms_sound(u.skip(ac as int), ar, an, b, (bc - ac) as nat);
                        } else {
                            let r = add_del_atoms(ar, an, br, bn);
                            lemma_ad_skip_skip_eq(u, ac, ar, br, r.0, r.1);
                            lemma_ad_atoms_sound(u.skip(ac as int), ar, an, br, bn);
                        }
                    },
                    AddNode::WithGroup(ga) => {
                        lemma_skip_at_least_one(add_units(u, x), bc, br);
                        if bc > 1 {
                            let r = add_del_atoms(ar, an, b, (bc - 1) as nat);
                            lemma_ad_with_skip_gt(u, ga, bc, ar, br, r.1);
                            lemma_ad_atoms_fit(u.skip(1), ar, an, b, (bc - 1) as nat);
                            lemma_ad_atoms_sound(u.skip(1), ar, an, b, (bc - 1) as nat);
                            lemma_idle_same(u.skip(1), r.0);
                            lemma_idle_same(u, r.0);
                        } else {
                            let r = add_del_atoms(ar, an, br, bn);
                            lemma_ad_with_skip_one(u, ga, ar, br, r.1);
                            lemma_ad_atoms_fit(u.skip(1), ar, an, br, bn);
                            lemma_ad_atoms_sound(u.skip(1), ar, an, br, bn);
                            lemma_idle_same(u.skip(1), r.0);
                            lemma_idle_same(u, r.0);
                        }
                    },
                    _ => {},
                }
            },
            _ => {},
        }
    }
}

/// Whether every skip at the top level of an add span counts at least one
/// unit.
pub open spec fn add_positive(s: Seq<AddNode>) -> bool {
    forall|i: int| 0 <= i < s.len() ==> ((#[trigger] s[i]) matches AddNode::Skip(k) ==> k >= 1)
}

/// An add span that fits a document holds no skip of zero units at its
/// top level.
proof fn lemma_add_applies_positive(u: Seq<Unit>, s: Seq<AddNode>)
    requires
        add_applies(u, s),
    ensures
        add_positive(s),
    decreases s.len(),
{
    if s.len() > 0 {
        let r = s.skip(1);
        assert(s =~= add_cons(s[0], r));
        lemma_add_cons(u, s[0], r);
        lemma_add_applies_positive(crate::add_laws::add_atom_left(s[0], u), r);
        assert forall|i: int| 0 <= i < s.len() implies ((#[trigger] s[i]) matches AddNode::Skip(
            k,
        ) ==> k >= 1) by {
            if i > 0 {
                assert(s[i] == r[i - 1]);
            }
        }
    }
}

/// What is left of an add span without skips of zero units has none, with
/// any count of at least one for its first atom.
proof fn lemma_add_positive_rest(a: Seq<AddNode>, ac: nat, n: nat)
    requires
        add_positive(add_rest(a, ac)),
        a.len() > 0,
        n >= 1,
    ensures
        add_positive(add_rest(a, n)),
        add_positive(add_rest(a.skip(1), add_count(a.skip(1)))),
        a[0] is Skip ==> ac >= 1,
{
    let r = add_rest(a, ac);
    let r2 = add_rest(a, n);
    let ar = a.skip(1);
    lemma_add_rest_whole(ar);
    assert(r[0] == add_head(a[0], ac));
    assert forall|i: int| 0 <= i < ar.len() implies ((#[trigger] ar[i]) matches AddNode::Skip(
        k,
    ) ==> k >= 1) by {
        assert(ar[i] == r[i + 1]);
    }
    assert forall|i: int| 0 <= i < r2.len() implies ((#[trigger] r2[i]) matches AddNode::Skip(
        k,
    ) ==> k >= 1) by {
        if i > 0 {
            assert(r2[i] == ar[i - 1]);
        }
    }
}

/// Where the delete span that the composition gives fits a document, so
/// do the delete atoms that it writes, taken one by one behind what was
/// written before, and they do the same.
proof fn lemma_ad_del_unmerged(
    w: Seq<Unit>,
    dres: Seq<DelNode>,
    ares: Seq<AddNode>,
    a: Seq<AddNode>,
    ac: nat,
    b: Seq<DelNode>,
    bc: nat,
)
    requires
        add_del_defined(a, ac, b, bc),
        del_positive(dres),
        del_positive(del_rest(b, bc)),
        add_positive(add_rest(a, ac)),
        delete_applies(w, compose_add_del_onto(dres, ares, a, ac, b, bc).0),
    ensures
        delete_applies(w, dres + add_del_atoms(a, ac, b, bc).0),
        delete_units(w, compose_add_del_onto(dres, ares, a, ac, b, bc).0) == delete_units(
            w,
            dres + add_del_atoms(a, ac, b, bc).0,
        ),
    decreases b, a,
{
    let c = compose_add_del_onto(dres, ares, a, ac, b, bc).0;
    if b.len() == 0 {
        assert(dres + add_del_atoms(a, ac, b, bc).0 =~= dres);
    } else {
        let ar = a.skip(1);
        let an = add_count(ar);
        let br = b.skip(1);
        let bn = del_count(br);
        lemma_positive_rest(b, bc, 1);
        lemma_add_positive_rest(a, ac, 1);
        match b[0] {
            DelNode::Chars(_) => {
                match a[0] {
                    AddNode::Chars(_) => {
                        if bc < ac {
                            lemma_add_positive_rest(a, ac, (ac - bc) as nat);
                            lemma_ad_del_unmerged(w, dres, ares, a, (ac - bc) as nat, br, bn);
                        } else if bc > ac {
                            lemma_positive_rest(b, bc, (bc - ac) as nat);
                            lemma_ad_del_unmerged(w, dres, ares, ar, an, b, (bc - ac) as nat);
                        } else {
                            lemma_ad_del_unmerged(w, dres, ares, ar, an, br, bn);
                        }
                    },
                    AddNode::Skip(_) => {
                        let x = DelNode::Chars(min_count(ac, bc));
                        lemma_positive_grow(dres, x);
                        if bc < ac {
                            lemma_add_positive_rest(a, ac, (ac - bc) as nat);
                            lemma_ad_del_unmerged(
                                w,
                                place_del(dres, x),
                                ares,
                                a,
                                (ac - bc) as nat,
                                br,
                                bn,
                            );
                            lemma_onto_step(
                                w,
                                dres,
                                x,
                                true,
                                add_del_atoms(a, (ac - bc) as nat, br, bn).0,
                                c,
                            );
                        } else if bc > ac {
                            lemma_positive_rest(b, bc, (bc - ac) as nat);
                            lemma_ad_del_unmerged(
                                w,
                                place_del(dres, x),
                                ares,
                                ar,
                                an,
                                b,
                                (bc - ac) as nat,
                            );
                            lemma_onto_step(
                                w,
                                dres,
                                x,
                                true,
                                add_del_atoms(ar, an, b, (bc - ac) as nat).0,
                                c,
                            );
                        } else {
                            lemma_ad_del_unmerged(w, place_del(dres, x), ares, ar, an, br, bn);
                            lemma_onto_step(w, dres, x, true, add_del_atoms(ar, an, br, bn).0, c);
                        }
                    },
                    _ => {},
                }
            },
            DelNode::Skip(_) => {
                match a[0] {
                    AddNode::Chars(_) => {
                        if bc < ac {
                            let y = add_chars_front(add_head(a[0], ac), bc);
                            lemma_add_positive_rest(a, ac, (ac - bc) as nat);
                            lemma_ad_del_unmerged(
                                w,
                                dres,
                                place_add(ares, y),
                                a,
                                (ac - bc) as nat,
                                br,
                                bn,
                            );
                        } else if bc > ac {
                            let y = add_head(a[0], ac);
                            lemma_positive_rest(b, bc, (bc - ac) as nat);
                            lemma_ad_del_unmerged(
                                w,
                                dres,
                                place_add(ares, y),
                                ar,
                                an,
                                b,
                                (bc - ac) as nat,
                            );
                        } else {
                            let y = add_head(a[0], ac);
                            lemma_ad_del_unmerged(w, dres, place_add(ares, y), ar, an, br, bn);
                        }
                    },
                    AddNode::Skip(_) => {
                        let x = DelNode::Skip(min_count(ac, bc));
                        let y = AddNode::Skip(min_count(ac, bc));
                        lemma_positive_grow(dres, x);
                        if ac > bc {
                            lemma_add_positive_rest(a, ac, (ac - bc) as nat);
                            lemma_ad_del_unmerged(
                                w,
                                place_del(dres, x),
                                place_add(ares, y),
                                a,
                                (ac - bc) as nat,
                                br,
                                bn,
                            );
                            lemma_onto_step(
                                w,
                                dres,
                                x,
                                true,
                                add_del_atoms(a, (ac - bc) as nat, br, bn).0,
                                c,
                            );
                        } else if ac < bc {
                            lemma_positive_rest(b, bc, (bc - ac) as nat);
                            lemma_ad_del_unmerged(
                                w,
                                place_del(dres, x),
                                place_add(ares, y),
                                ar,
                                an,
                                b,
                                (bc - ac) as nat,
                            );
                            lemma_onto_step(
                                w,
                                dres,
                                x,
                                true,
                                add_del_atoms(ar, an, b, (bc - ac) as nat).0,
                                c,
                            );
                        } else {
                            lemma_ad_del_unmerged(
                                w,
                                place_del(dres, x),
                                place_add(ares, y),
                                ar,
                                an,
                                br,
                                bn,
                            );
                            lemma_onto_step(w, dres, x, true, add_del_atoms(ar, an, br, bn).0, c);
                        }
                    },
                    AddNode::WithGroup(_) => {
                        if bc > 1 {
                            lemma_positive_rest(b, bc, (bc - 1) as nat);
                            lemma_ad_del_unmerged(
                                w,
                                dres,
                                ares.push(a[0]),
                                ar,
                                an,
                                b,
                                (bc - 1) as nat,
                            );
                        } else {
                            lemma_ad_del_unmerged(w, dres, ares.push(a[0]), ar, an, br, bn);
                        }
                    },
                    _ => {},
                }
            },
            _ => {},
        }
    }
}

/// Where the add atoms that the composition writes, taken one by one
/// behind what was written before, fit a document, so does the add span
/// that the composition gives, and it does the same.
proof fn lemma_ad_add_merged(
    w: Seq<Unit>,
    dres: Seq<DelNode>,
    ares: Seq<AddNode>,
    a: Seq<AddNode>,
    ac: nat,
    b: Seq<DelNode>,
    bc: nat,
)
    requires
        add_del_defined(a, ac, b, bc),
        add_applies(w, ares + add_del_atoms(a, ac, b, bc).1),
    ensures
        add_applies(w, compose_add_del_onto(dres, ares, a, ac, b, bc).1),
        crate::apply::add_inner_units(w, compose_add_del_onto(dres, ares, a, ac, b, bc).1)
            == crate::apply::add_inner_units(w, ares + add_del_atoms(a, ac, b, bc).1),
    decreases b, a,
{
    let ar = a.skip(1);
    let an = add_count(ar);
    let br = b.skip(1);
    let bn = del_count(br);
    if b.len() == 0 {
        if a.len() == 0 {
            assert(ares + add_del_atoms(a, ac, b, bc).1 =~= ares);
        } else {
            lemma_add_place_merge(w, ares, add_head(a[0], ac), ar);
        }
    } else {
        match b[0] {
            DelNode::Chars(_) => {
                match a[0] {
                    AddNode::Chars(_) => {
                        if bc < ac {
                            lemma_ad_add_merged(w, dres, ares, a, (ac - bc) as nat, br, bn);
                        } else if bc > ac {
                            lemma_ad_add_merged(w, dres, ares, ar, an, b, (bc - ac) as nat);
                        } else {
                            lemma_ad_add_merged(w, dres, ares, ar, an, br, bn);
                        }
                    },
                    AddNode::Skip(_) => {
                        let x = DelNode::Chars(min_count(ac, bc));
                        if bc < ac {
                            lemma_ad_add_merged(
                                w,
                                place_del(dres, x),
                                ares,
                                a,
                                (ac - bc) as nat,
                                br,
                                bn,
                            );
                        } else if bc > ac {
                            lemma_ad_add_merged(
                                w,
                                place_del(dres, x),
                                ares,
                                ar,
                                an,
                                b,
                                (bc - ac) as nat,
                            );
                        } else {
                            lemma_ad_add_merged(w, place_del(dres, x), ares, ar, an, br, bn);
                        }
                    },
                    _ => {},
                }
            },
            DelNode::Skip(_) => {
                match a[0] {
                    AddNode::Chars(_) => {
                        if bc < ac {
                            let y = add_chars_front(add_head(a[0], ac), bc);
                            let t = add_del_atoms(a, (ac - bc) as nat, br, bn).1;
                            lemma_add_onto_step(w, ares, y, true, t);
                            lemma_ad_add_merged(
                                w,
                                dres,
                                place_add(ares, y),
                                a,
                                (ac - bc) as nat,
                                br,
                                bn,
                            );
                        } else if bc > ac {
                            let y = add_head(a[0], ac);
                            let t = add_del_atoms(ar, an, b, (bc - ac) as nat).1;
                            lemma_add_onto_step(w, ares, y, true, t);
                            lemma_ad_add_merged(
                                w,
                                dres,
                                place_add(ares, y),
                                ar,
                                an,
                                b,
                                (bc - ac) as nat,
                            );
                        } else {
                            let y = add_head(a[0], ac);
                            let t = add_del_atoms(ar, an, br, bn).1;
                            lemma_add_onto_step(w, ares, y, true, t);
                            lemma_ad_add_merged(w, dres, place_add(ares, y), ar, an, br, bn);
                        }
                    },
                    AddNode::Skip(_) => {
                        let x = DelNode::Skip(min_count(ac, bc));
                        let y = AddNode::Skip(min_count(ac, bc));
                        if ac > bc {
                            let t = add_del_atoms(a, (ac - bc) as nat, br, bn).1;
                            lemma_add_onto_step(w, ares, y, true, t);
                            lemma_ad_add_merged(
                                w,
                                place_del(dres, x),
                                place_add(ares, y),
                                a,
                                (ac - bc) as nat,
                                br,
                                bn,
                            );
                        } else if ac < bc {
                            let t = add_del_atoms(ar, an, b, (bc - ac) as nat).1;
                            lemma_add_onto_step(w, ares, y, true, t);
                            lemma_ad_add_merged(
                                w,
                                place_del(dres, x),
                                place_add(ares, y),
                                ar,
                                an,
                                b,
                                (bc - ac) as nat,
                            );
                        } else {
                            let t = add_del_atoms(ar, an, br, bn).1;
                            lemma_add_onto_step(w, ares, y, true, t);
                            lemma_ad_add_merged(
                                w,
                                place_del(dres, x),
                                place_add(ares, y),
                                ar,
                                an,
                                br,
                                bn,
                            );
                        }
                    },
                    AddNode::WithGroup(_) => {
                        let y = a[0];
                        if bc > 1 {
                            let t = add_del_atoms(ar, an, b, (bc - 1) as nat).1;
                            lemma_add_onto_step(w, ares, y, false, t);
                            lemma_ad_add_merged(
                                w,
                                dres,
                                ares.push(y),
                                ar,
                                an,
                                b,
                                (bc - 1) as nat,
                            );
                        } else {
                            let t = add_del_atoms(ar, an, br, bn).1;
                            lemma_add_onto_step(w, ares, y, false, t);
                            lemma_ad_add_merged(w, dres, ares.push(y), ar, an, br, bn);
                        }
                    },
                    _ => {},
                }
            },
            _ => {},
        }
    }
}

/// Where the add span `a` and then the delete span `b` fit a document,
/// their composition is defined and loses nothing, and the delete span
/// that comes out fits the document, the add span that comes out fits
/// what that delete span leaves, and applying the two gives what applying
/// `a` and then `b` gives.
pub proof fn lemma_add_del_composition(u: Seq<Unit>, a: Seq<AddNode>, b: Seq<DelNode>)
    requires
        add_applies(u, a),
        delete_applies(add_units(u, a), b),
        compose_add_del_defined(a, b),
        add_del_faithful(a, add_count(a), b, del_count(b)),
        delete_applies(u, compose_add_del_spec(a, b).0),
    ensures
        add_applies(
            delete_units(u, compose_add_del_spec(a, b).0),
            compose_add_del_spec(a, b).1,
        ),
        add_units(delete_units(u, compose_add_del_spec(a, b).0), compose_add_del_spec(a, b).1)
            == delete_units(add_units(u, a), b),
{
    let ac = add_count(a);
    let bc = del_count(b);
    let t = add_del_atoms(a, ac, b, bc);
    lemma_add_rest_whole(a);
    lemma_del_rest_whole(b);
    lemma_add_applies_positive(u, a);
    lemma_applies_positive(add_units(u, a), b);
    lemma_ad_del_unmerged(u, Seq::empty(), Seq::empty(), a, ac, b, bc);
    assert(Seq::<DelNode>::empty() + t.0 =~= t.0);
    lemma_ad_atoms_sound(u, a, ac, b, bc);
    assert(Seq::<AddNode>::empty() + t.1 =~= t.1);
    lemma_ad_add_merged(delete_units(u, t.0), Seq::empty(), Seq::empty(), a, ac, b, bc);
}


/// The delete atoms that the composition of an add span with a delete
/// span writes fit the document that the two spans fit in turn, where the
/// composition loses nothing.
proof fn lemma_ad_atoms_fit(u: Seq<Unit>, a: Seq<AddNode>, ac: nat, b: Seq<DelNode>, bc: nat)
    requires
        add_count_ok(a, ac),
        add_applies(u, add_rest(a, ac)),
        delete_applies(add_units(u, add_rest(a, ac)), del_rest(b, bc)),
        add_del_defined(a, ac, b, bc),
        add_del_faithful(a, ac, b, bc),
    ensures
        delete_applies(u, add_del_atoms(a, ac, b, bc).0),
    decreases b, a,
{
    let x = add_rest(a, ac);
    if b.len() > 0 {
        let ar = a.skip(1);
        let an = add_count(ar);
        let br = b.skip(1);
        let bn = del_count(br);
        lemma_add_rest_whole(ar);
        lemma_del_rest_whole(br);
        match b[0] {
            DelNode::Chars(_) => {
                match a[0] {
                    AddNode::Chars(whole) => {
                        let txt = add_head(a[0], ac)->Chars_0;
                        if bc < ac {
                            let r = add_del_atoms(a, (ac - bc) as nat, br, bn);
                            lemma_ad_text_chars_lt(u, txt, bc, ar, br, r.0, r.1);
                            assert(txt.chars.skip(bc as int) =~= whole.chars.skip(
                                whole.chars.len() - (ac - bc),
                            ));
                            lemma_ad_atoms_fit(u, a, (ac - bc) as nat, br, bn);
                        } else if bc > ac {
                            let r = add_del_atoms(ar, an, b, (bc - ac) as nat);
                            lemma_ad_text_chars_gt(u, txt, bc, ar, br, r.0, r.1);
                            lemma_ad_atoms_fit(u, ar, an, b, (bc - ac) as nat);
                        } else {
                            let r = add_del_atoms(ar, an, br, bn);
                            lemma_ad_text_chars_eq(u, txt, ar, br, r.0, r.1);
                            lemma_ad_atoms_fit(u, ar, an, br, bn);
                        }
                    },
                    AddNode::Skip(_) => {
                        if bc < ac {
                            let r = add_del_atoms(a, (ac - bc) as nat, br, bn);
                            lemma_ad_skip_chars_lt(u, ac, bc, ar, br, r.0, r.1);
                            lemma_ad_atoms_fit(u.skip(bc as int), a, (ac - bc) as nat, br, bn);
                        } else if bc > ac {
                            let r = add_del_atoms(ar, an, b, (bc - ac) as nat);
                            lemma_ad_skip_chars_gt(u, ac, bc, ar, br, r.0, r.1);
                            lemma_ad_atoms_fit(u.skip(ac as int), ar, an, b, (bc - ac) as nat);
                        } else {
                            let r = add_del_atoms(ar, an, br, bn);
                            lemma_ad_skip_chars_eq(u, ac, ar, br, r.0, r.1);
                            lemma_ad_atoms_fit(u.skip(ac as int), ar, an, br, bn);
                        }
                    },
                    _ => {},
                }
            },
            DelNode::Skip(_) => {
                match a[0] {
                    AddNode::Chars(whole) => {
                        let txt = add_head(a[0], ac)->Chars_0;
                        if bc < ac {
                            let r = add_del_atoms(a, (ac - bc) as nat, br, bn);
                            lemma_ad_text_skip_lt(u, txt, bc, ar, br, r.0, r.1);
                            assert(txt.chars.skip(bc as int) =~= whole.chars.skip(
                                whole.chars.len() - (ac - bc),
                            ));
                            lemma_ad_atoms_fit(u, a, (ac - bc) as nat, br, bn);
                        } else if bc > ac {
                            let r = add_del_atoms(ar, an, b, (bc - ac) as nat);
                            lemma_ad_text_skip_gt(u, txt, bc, ar, br, r.0, r.1);
                            lemma_ad_atoms_fit(u, ar, an, b, (bc - ac) as nat);
                        } else {
                            let r = add_del_atoms(ar, an, br, bn);
                            lemma_ad_text_skip_eq(u, txt, ar, br, r.0, r.1);
                            lemma_ad_atoms_fit(u, ar, an, br, bn);
                        }
                    },
                    AddNode::Skip(_) => {
                        if ac > bc {
                            let r = add_del_atoms(a, (ac - bc) as nat, br, bn);
                            lemma_ad_skip_skip_gt(u, ac, bc, ar, br, r.0, r.1);
                            lemma_ad_atoms_fit(u.skip(bc as int), a, (ac - bc) as nat, br, bn);
                        } else if ac < bc {
                            let r = add_del_atoms(ar, an, b, (bc - ac) as nat);
                            lemma_ad_skip_skip_lt(u, ac, bc, ar, br, r.0, r.1);
                            lemma_ad_atoms_fit(u.skip(ac as int), ar, an, b, (bc - ac) as nat);
                        } else {
                            let r = add_del_atoms(ar, an, br, bn);
                            lemma_ad_skip_skip_eq(u, ac, ar, br, r.0, r.1);
                            lemma_ad_atoms_fit(u.skip(ac as int), ar, an, br, bn);
                        }
                    },
                    AddNode::WithGroup(ga) => {
                        lemma_skip_at_least_one(add_units(u, x), bc, br);
                        if bc > 1 {
                            let r = add_del_atoms(ar, an, b, (bc - 1) as nat);
                            lemma_ad_with_skip_gt(u, ga, bc, ar, br, r.1);
                            lemma_ad_atoms_fit(u.skip(1), ar, an, b, (bc - 1) as nat);
                            lemma_idle_longer(u, u.skip(1), r.0);
                        } else {
                            let r = add_del_atoms(ar, an, br, bn);
                            lemma_ad_with_skip_one(u, ga, ar, br, r.1);
                            lemma_ad_atoms_fit(u.skip(1), ar, an, br, bn);
                            lemma_idle_longer(u, u.skip(1), r.0);
                        }
                    },
                    _ => {},
                }
            },
            _ => {},
        }
    }
}

/// In a document of one style, where the delete atoms that the
/// composition writes, taken one by one behind what was written before,
/// fit the document, so does the delete span that the composition gives.
proof fn lemma_ad_del_merged(
    w: Seq<Unit>,
    s: StyleBag,
    dres: Seq<DelNode>,
    ares: Seq<AddNode>,
    a: Seq<AddNode>,
    ac: nat,
    b: Seq<DelNode>,
    bc: nat,
)
    requires
        one_style(w, s),
        add_del_defined(a, ac, b, bc),
        delete_applies(w, dres + add_del_atoms(a, ac, b, bc).0),
    ensures
        delete_applies(w, compose_add_del_onto(dres, ares, a, ac, b, bc).0),
    decreases b, a,
{
    if b.len() == 0 {
        assert(dres + add_del_atoms(a, ac, b, bc).0 =~= dres);
    } else {
        let ar = a.skip(1);
        let an = add_count(ar);
        let br = b.skip(1);
        let bn = del_count(br);
        let less = (ac - bc) as nat;
        let more = (bc - ac) as nat;
        match b[0] {
            DelNode::Chars(_) => {
                match a[0] {
                    AddNode::Chars(_) => {
                        if bc < ac {
                            lemma_ad_del_merged(w, s, dres, ares, a, less, br, bn);
                        } else if bc > ac {
                            lemma_ad_del_merged(w, s, dres, ares, ar, an, b, more);
                        } else {
                            lemma_ad_del_merged(w, s, dres, ares, ar, an, br, bn);
                        }
                    },
                    AddNode::Skip(_) => {
                        let x = DelNode::Chars(min_count(ac, bc));
                        let d2 = place_del(dres, x);
                        if bc < ac {
                            lemma_place_merge(w, s, dres, x, true, add_del_atoms(a, less, br, bn).0);
                            lemma_ad_del_merged(w, s, d2, ares, a, less, br, bn);
                        } else if bc > ac {
                            lemma_place_merge(w, s, dres, x, true, add_del_atoms(ar, an, b, more).0);
                            lemma_ad_del_merged(w, s, d2, ares, ar, an, b, more);
                        } else {
                            lemma_place_merge(w, s, dres, x, true, add_del_atoms(ar, an, br, bn).0);
                            lemma_ad_del_merged(w, s, d2, ares, ar, an, br, bn);
                        }
                    },
                    _ => {},
                }
            },
            DelNode::Skip(_) => {
                match a[0] {
                    AddNode::Chars(_) => {
                        if bc < ac {
                            let y = add_chars_front(add_head(a[0], ac), bc);
                            lemma_ad_del_merged(w, s, dres, place_add(ares, y), a, less, br, bn);
                        } else if bc > ac {
                            let y = add_head(a[0], ac);
                            lemma_ad_del_merged(w, s, dres, place_add(ares, y), ar, an, b, more);
                        } else {
                            let y = add_head(a[0], ac);
                            lemma_ad_del_merged(w, s, dres, place_add(ares, y), ar, an, br, bn);
                        }
                    },
                    AddNode::Skip(_) => {
                        let x = DelNode::Skip(min_count(ac, bc));
                        let y = AddNode::Skip(min_count(ac, bc));
                        let d2 = place_del(dres, x);
                        let a2 = place_add(ares, y);
                        if ac > bc {
                            lemma_place_merge(w, s, dres, x, true, add_del_atoms(a, less, br, bn).0);
                            lemma_ad_del_merged(w, s, d2, a2, a, less, br, bn);
                        } else if ac < bc {
                            lemma_place_merge(w, s, dres, x, true, add_del_atoms(ar, an, b, more).0);
                            lemma_ad_del_merged(w, s, d2, a2, ar, an, b, more);
                        } else {
                            lemma_place_merge(w, s, dres, x, true, add_del_atoms(ar, an, br, bn).0);
                            lemma_ad_del_merged(w, s, d2, a2, ar, an, br, bn);
                        }
                    },
                    AddNode::WithGroup(_) => {
                        if bc > 1 {
                            lemma_ad_del_merged(w, s, dres, ares.push(a[0]), ar, an, b, (bc - 1) as nat);
                        } else {
                            lemma_ad_del_merged(w, s, dres, ares.push(a[0]), ar, an, br, bn);
                        }
                    },
                    _ => {},
                }
            },
            _ => {},
        }
    }
}

/// In a document of one style: where the add span `a` and then the delete
/// span `b` fit the document, and their composition is defined and loses
/// nothing, the delete span that comes out fits the document, the add
/// span that comes out fits what that delete span leaves, and applying
/// the two gives what applying `a` and then `b` gives.
pub proof fn lemma_add_del_composition_plain(
    u: Seq<Unit>,
    s: StyleBag,
    a: Seq<AddNode>,
    b: Seq<DelNode>,
)
    requires
        one_style(u, s),
        add_applies(u, a),
        delete_applies(add_units(u, a), b),
        compose_add_del_defined(a, b),
        add_del_faithful(a, add_count(a), b, del_count(b)),
    ensures
        delete_applies(u, compose_add_del_spec(a, b).0),
        add_applies(
            delete_units(u, compose_add_del_spec(a, b).0),
            compose_add_del_spec(a, b).1,
        ),
        add_units(delete_units(u, compose_add_del_spec(a, b).0), compose_add_del_spec(a, b).1)
            == delete_units(add_units(u, a), b),
{
    let ac = add_count(a);
    let bc = del_count(b);
    let t = add_del_atoms(a, ac, b, bc);
    lemma_add_rest_whole(a);
    lemma_del_rest_whole(b);
    lemma_ad_atoms_fit(u, a, ac, b, bc);
    assert(Seq::<DelNode>::empty() + t.0 =~= t.0);
    lemma_ad_del_merged(u, s, Seq::empty(), Seq::empty(), a, ac, b, bc);
    lemma_add_del_composition(u, a, b);
}

} // verus!
