//! That composing add spans keeps what they do: applying the composed
//! span to a document gives what applying the two spans in turn gives.

use crate::apply::{add_applies, add_inner_units, add_units, all_chars, restyle};
use crate::compose::{
    add_add_defined, add_chars_front, add_count, add_head, compose_add_add_defined,
    compose_add_add_onto, compose_add_add_spec, min_count,
};
use crate::doc::{AddNode, Text};
use crate::place::place_add;
use crate::units::{chars_units, lemma_chars_units_concat, Unit};
use vstd::prelude::*;

verus! {

broadcast use vstd::group_vstd_default;

/// The span that begins with `x` and goes on with `s`.
pub open spec fn add_cons(x: AddNode, s: Seq<AddNode>) -> Seq<AddNode> {
    seq![x] + s
}

/// What is left of an add span whose first atom has `ac` still to be
/// served.
pub open spec fn add_rest(a: Seq<AddNode>, ac: nat) -> Seq<AddNode> {
    if a.len() == 0 {
        a
    } else {
        add_cons(add_head(a[0], ac), a.skip(1))
    }
}

/// Whether no more is to be served of the first atom of a span than it
/// holds, where that atom is inserted text.
pub open spec fn add_count_ok(a: Seq<AddNode>, ac: nat) -> bool {
    a.len() > 0 && a[0] is Chars ==> ac <= a[0]->Chars_0.chars.len()
}

/// Whether the atom `f` finds in `u` what it speaks of.
pub open spec fn add_atom_fits(f: AddNode, u: Seq<Unit>) -> bool {
    match f {
        AddNode::Skip(k) => 1 <= k <= u.len(),
        AddNode::Chars(_) => true,
        AddNode::Styles(k, _) => 1 <= k && all_chars(u, k),
        AddNode::WithGroup(inner) => u.len() > 0 && u[0] is Group && add_applies(
            u[0]->Group_1,
            inner,
        ),
        AddNode::Group(_, inner) => add_applies(u, inner),
    }
}

/// The units that the atom `f` produces from `u`.
pub open spec fn add_atom_made(f: AddNode, u: Seq<Unit>) -> Seq<Unit> {
    match f {
        AddNode::Skip(k) => u.take(k as int),
        AddNode::Chars(t) => chars_units(t.chars, t.styles),
        AddNode::Styles(k, s) => restyle(u.take(k as int), s),
        AddNode::WithGroup(inner) => seq![
            Unit::Group(u[0]->Group_0, add_units(u[0]->Group_1, inner)),
        ],
        AddNode::Group(attrs, inner) => seq![Unit::Group(attrs, add_inner_units(u, inner).0)],
    }
}

/// The units of `u` that lie behind what the atom `f` has reached.
pub open spec fn add_atom_left(f: AddNode, u: Seq<Unit>) -> Seq<Unit> {
    match f {
        AddNode::Skip(k) => u.skip(k as int),
        AddNode::Chars(_) => u,
        AddNode::Styles(k, _) => u.skip(k as int),
        AddNode::WithGroup(_) => u.skip(1),
        AddNode::Group(_, inner) => add_inner_units(u, inner).1,
    }
}

/// What a span does that begins with the atom `f`: the atom acts, and the
/// rest of the span goes on behind what the atom has reached.
pub proof fn lemma_add_cons(u: Seq<Unit>, f: AddNode, s: Seq<AddNode>)
    ensures
        add_applies(u, add_cons(f, s)) == (add_atom_fits(f, u) && add_applies(
            add_atom_left(f, u),
            s,
        )),
        add_inner_units(u, add_cons(f, s)).0 == add_atom_made(f, u) + add_inner_units(
            add_atom_left(f, u),
            s,
        ).0,
        add_inner_units(u, add_cons(f, s)).1 == add_inner_units(add_atom_left(f, u), s).1,
        add_units(u, add_cons(f, s)) == add_atom_made(f, u) + add_units(add_atom_left(f, u), s),
{
    assert(add_cons(f, s).skip(1) =~= s);
    assert(add_cons(f, s)[0] == f);
    let r = add_inner_units(add_atom_left(f, u), s);
    assert(add_units(u, add_cons(f, s)) =~= add_atom_made(f, u) + (r.0 + r.1));
}

/// A span that holds nothing leaves the units as they are.
pub proof fn lemma_add_nothing(u: Seq<Unit>)
    ensures
        add_applies(u, Seq::<AddNode>::empty()),
        add_units(u, Seq::<AddNode>::empty()) == u,
{
    assert(add_inner_units(u, Seq::<AddNode>::empty()).0 + u =~= u);
}

/// The atoms that the composition of two add spans writes, one after the
/// other, before any of them is merged into its neighbour.
pub open spec fn add_add_atoms(a: Seq<AddNode>, ac: nat, b: Seq<AddNode>, bc: nat) -> Seq<
    AddNode,
>
    decreases b, a,
{
    if b.len() == 0 {
        add_rest(a, ac)
    } else {
        let ar = a.skip(1);
        let an = add_count(ar);
        let br = b.skip(1);
        let bn = add_count(br);
        match b[0] {
            AddNode::Chars(_) => add_cons(b[0], add_add_atoms(a, ac, br, bn)),
            AddNode::Skip(_) => if a.len() == 0 {
                Seq::empty()
            } else {
                match a[0] {
                    AddNode::Chars(_) => if bc < ac {
                        add_cons(
                            add_chars_front(add_head(a[0], ac), bc),
                            add_add_atoms(a, (ac - bc) as nat, br, bn),
                        )
                    } else if bc > ac {
                        add_cons(
                            add_head(a[0], ac),
                            add_add_atoms(ar, an, b, (bc - ac) as nat),
                        )
                    } else {
                        add_cons(add_head(a[0], ac), add_add_atoms(ar, an, br, bn))
                    },
                    AddNode::Skip(_) => if ac > bc {
                        add_cons(AddNode::Skip(bc), add_add_atoms(a, (ac - bc) as nat, br, bn))
                    } else if ac < bc {
                        add_cons(AddNode::Skip(ac), add_add_atoms(ar, an, b, (bc - ac) as nat))
                    } else {
                        add_cons(AddNode::Skip(ac), add_add_atoms(ar, an, br, bn))
                    },
                    AddNode::WithGroup(_) => if bc > 1 {
                        add_cons(a[0], add_add_atoms(ar, an, b, (bc - 1) as nat))
                    } else {
                        add_cons(a[0], add_add_atoms(ar, an, br, bn))
                    },
                    _ => Seq::empty(),
                }
            },
            AddNode::WithGroup(gb) => if a.len() == 0 {
                Seq::empty()
            } else {
                match a[0] {
                    AddNode::Skip(_) => if ac > 1 {
                        add_cons(b[0], add_add_atoms(a, (ac - 1) as nat, br, bn))
                    } else {
                        add_cons(b[0], add_add_atoms(ar, an, br, bn))
                    },
                    AddNode::WithGroup(ga) => add_cons(
                        AddNode::WithGroup(compose_add_add_spec(ga, gb)),
                        add_add_atoms(ar, an, br, bn),
                    ),
                    _ => Seq::empty(),
                }
            },
            _ => Seq::empty(),
        }
    }
}

/// One step of the walk through two add spans. The spans `x` and `y` are
/// what is left of `a` and `b` before the step, `x2` and `y2` what is left
/// after it on the units `u2`; the step writes the atom `f`. Where what is
/// written at the following steps does what the spans left do in turn, so
/// does what is written from this step on.
pub open spec fn add_step_keeps(
    u: Seq<Unit>,
    x: Seq<AddNode>,
    y: Seq<AddNode>,
    f: AddNode,
    u2: Seq<Unit>,
    x2: Seq<AddNode>,
    y2: Seq<AddNode>,
    t: Seq<AddNode>,
) -> bool {
    &&& add_applies(u2, x2)
    &&& add_applies(add_units(u2, x2), y2)
    &&& (add_applies(u2, t) && add_units(u2, t) == add_units(add_units(u2, x2), y2)
        ==> add_applies(u, add_cons(f, t)) && add_units(u, add_cons(f, t)) == add_units(
        add_units(u, x),
        y,
    ))
}

/// An insertion of `b` is written as it comes.
proof fn lemma_step_insert(
    u: Seq<Unit>,
    x: Seq<AddNode>,
    txt: Text,
    br: Seq<AddNode>,
    t: Seq<AddNode>,
)
    requires
        add_applies(u, x),
        add_applies(add_units(u, x), add_cons(AddNode::Chars(txt), br)),
    ensures
        add_step_keeps(u, x, add_cons(AddNode::Chars(txt), br), AddNode::Chars(txt), u, x, br, t),
{
    lemma_add_cons(add_units(u, x), AddNode::Chars(txt), br);
    lemma_add_cons(u, AddNode::Chars(txt), t);
}

/// A skip of `b` passes over the front of text that `a` has inserted.
proof fn lemma_step_text_skip_lt(
    u: Seq<Unit>,
    txt: Text,
    bc: nat,
    ar: Seq<AddNode>,
    br: Seq<AddNode>,
    t: Seq<AddNode>,
)
    requires
        bc < txt.chars.len(),
        add_applies(u, add_cons(AddNode::Chars(txt), ar)),
        add_applies(
            add_units(u, add_cons(AddNode::Chars(txt), ar)),
            add_cons(AddNode::Skip(bc), br),
        ),
    ensures
        add_step_keeps(
            u,
            add_cons(AddNode::Chars(txt), ar),
            add_cons(AddNode::Skip(bc), br),
            add_chars_front(AddNode::Chars(txt), bc),
            u,
            add_cons(
                AddNode::Chars(Text { chars: txt.chars.skip(bc as int), styles: txt.styles }),
                ar,
            ),
            br,
            t,
        ),
{
    let front = add_chars_front(AddNode::Chars(txt), bc);
    let back = AddNode::Chars(Text { chars: txt.chars.skip(bc as int), styles: txt.styles });
    let v = add_units(u, add_cons(AddNode::Chars(txt), ar));
    lemma_add_cons(u, AddNode::Chars(txt), ar);
    lemma_add_cons(u, back, ar);
    lemma_add_cons(u, front, t);
    lemma_add_cons(v, AddNode::Skip(bc), br);
    lemma_chars_units_concat(txt.chars.take(bc as int), txt.chars.skip(bc as int), txt.styles);
    assert(txt.chars.take(bc as int) + txt.chars.skip(bc as int) =~= txt.chars);
    let w = add_units(u, ar);
    assert(v.take(bc as int) =~= chars_units(txt.chars.take(bc as int), txt.styles));
    assert(v.skip(bc as int) =~= chars_units(txt.chars.skip(bc as int), txt.styles) + w);
}

/// A skip of `b` passes over all of the text that `a` has inserted, and
/// goes on.
proof fn lemma_step_text_skip_gt(
    u: Seq<Unit>,
    txt: Text,
    bc: nat,
    ar: Seq<AddNode>,
    br: Seq<AddNode>,
    t: Seq<AddNode>,
)
    requires
        bc > txt.chars.len(),
        add_applies(u, add_cons(AddNode::Chars(txt), ar)),
        add_applies(
            add_units(u, add_cons(AddNode::Chars(txt), ar)),
            add_cons(AddNode::Skip(bc), br),
        ),
    ensures
        add_step_keeps(
            u,
            add_cons(AddNode::Chars(txt), ar),
            add_cons(AddNode::Skip(bc), br),
            AddNode::Chars(txt),
            u,
            ar,
            add_cons(AddNode::Skip((bc - txt.chars.len()) as nat), br),
            t,
        ),
{
    let n = txt.chars.len();
    let v = add_units(u, add_cons(AddNode::Chars(txt), ar));
    let w = add_units(u, ar);
    lemma_add_cons(u, AddNode::Chars(txt), ar);
    lemma_add_cons(u, AddNode::Chars(txt), t);
    lemma_add_cons(v, AddNode::Skip(bc), br);
    lemma_add_cons(w, AddNode::Skip((bc - n) as nat), br);
    assert(v.skip(n as int) =~= w);
    assert(w.skip(bc - n) =~= v.skip(bc as int));
    assert(v.take(bc as int) =~= chars_units(txt.chars, txt.styles) + w.take(bc - n));
    let y2 = add_cons(AddNode::Skip((bc - n) as nat), br);
    if add_applies(u, t) && add_units(u, t) == add_units(w, y2) {
        assert(add_units(u, add_cons(AddNode::Chars(txt), t)) =~= add_units(
            v,
            add_cons(AddNode::Skip(bc), br),
        ));
    }
}

/// A skip of `b` passes over just the text that `a` has inserted.
proof fn lemma_step_text_skip_eq(
    u: Seq<Unit>,
    txt: Text,
    ar: Seq<AddNode>,
    br: Seq<AddNode>,
    t: Seq<AddNode>,
)
    requires
        add_applies(u, add_cons(AddNode::Chars(txt), ar)),
        add_applies(
            add_units(u, add_cons(AddNode::Chars(txt), ar)),
            add_cons(AddNode::Skip(txt.chars.len()), br),
        ),
    ensures
        add_step_keeps(
            u,
            add_cons(AddNode::Chars(txt), ar),
            add_cons(AddNode::Skip(txt.chars.len()), br),
            AddNode::Chars(txt),
            u,
            ar,
            br,
            t,
        ),
{
    let n = txt.chars.len();
    let v = add_units(u, add_cons(AddNode::Chars(txt), ar));
    let w = add_units(u, ar);
    lemma_add_cons(u, AddNode::Chars(txt), ar);
    lemma_add_cons(u, AddNode::Chars(txt), t);
    lemma_add_cons(v, AddNode::Skip(n), br);
    assert(v.skip(n as int) =~= w);
    assert(v.take(n as int) =~= chars_units(txt.chars, txt.styles));
}

/// A skip of `a` meets a shorter skip of `b`.
proof fn lemma_step_skip_skip_gt(
    u: Seq<Unit>,
    ac: nat,
    bc: nat,
    ar: Seq<AddNode>,
    br: Seq<AddNode>,
    t: Seq<AddNode>,
)
    requires
        ac > bc,
        add_applies(u, add_cons(AddNode::Skip(ac), ar)),
        add_applies(add_units(u, add_cons(AddNode::Skip(ac), ar)), add_cons(AddNode::Skip(bc), br)),
    ensures
        add_step_keeps(
            u,
            add_cons(AddNode::Skip(ac), ar),
            add_cons(AddNode::Skip(bc), br),
            AddNode::Skip(bc),
            u.skip(bc as int),
            add_cons(AddNode::Skip((ac - bc) as nat), ar),
            br,
            t,
        ),
{
    let u2 = u.skip(bc as int);
    let x2 = add_cons(AddNode::Skip((ac - bc) as nat), ar);
    let v = add_units(u, add_cons(AddNode::Skip(ac), ar));
    lemma_add_cons(u, AddNode::Skip(ac), ar);
    lemma_add_cons(u2, AddNode::Skip((ac - bc) as nat), ar);
    lemma_add_cons(v, AddNode::Skip(bc), br);
    lemma_add_cons(u, AddNode::Skip(bc), t);
    assert(u2.skip(ac - bc) =~= u.skip(ac as int));
    assert(v.take(bc as int) =~= u.take(bc as int));
    assert(v.skip(bc as int) =~= add_units(u2, x2));
}

/// A skip of `a` meets a longer skip of `b`.
proof fn lemma_step_skip_skip_lt(
    u: Seq<Unit>,
    ac: nat,
    bc: nat,
    ar: Seq<AddNode>,
    br: Seq<AddNode>,
    t: Seq<AddNode>,
)
    requires
        ac < bc,
        add_applies(u, add_cons(AddNode::Skip(ac), ar)),
        add_applies(add_units(u, add_cons(AddNode::Skip(ac), ar)), add_cons(AddNode::Skip(bc), br)),
    ensures
        add_step_keeps(
            u,
            add_cons(AddNode::Skip(ac), ar),
            add_cons(AddNode::Skip(bc), br),
            AddNode::Skip(ac),
            u.skip(ac as int),
            ar,
            add_cons(AddNode::Skip((bc - ac) as nat), br),
            t,
        ),
{
    let u2 = u.skip(ac as int);
    let v = add_units(u, add_cons(AddNode::Skip(ac), ar));
    let w = add_units(u2, ar);
    lemma_add_cons(u, AddNode::Skip(ac), ar);
    lemma_add_cons(v, AddNode::Skip(bc), br);
    lemma_add_cons(w, AddNode::Skip((bc - ac) as nat), br);
    lemma_add_cons(u, AddNode::Skip(ac), t);
    assert(v.skip(ac as int) =~= w);
    assert(w.skip(bc - ac) =~= v.skip(bc as int));
    assert(v.take(bc as int) =~= u.take(ac as int) + w.take(bc - ac));
    let y2 = add_cons(AddNode::Skip((bc - ac) as nat), br);
    if add_applies(u2, t) && add_units(u2, t) == add_units(w, y2) {
        assert(add_units(u, add_cons(AddNode::Skip(ac), t)) =~= add_units(
            v,
            add_cons(AddNode::Skip(bc), br),
        ));
    }
}

/// A skip of `a` meets a skip of `b` of the same length.
proof fn lemma_step_skip_skip_eq(
    u: Seq<Unit>,
    ac: nat,
    ar: Seq<AddNode>,
    br: Seq<AddNode>,
    t: Seq<AddNode>,
)
    requires
        add_applies(u, add_cons(AddNode::Skip(ac), ar)),
        add_applies(add_units(u, add_cons(AddNode::Skip(ac), ar)), add_cons(AddNode::Skip(ac), br)),
    ensures
        add_step_keeps(
            u,
            add_cons(AddNode::Skip(ac), ar),
            add_cons(AddNode::Skip(ac), br),
            AddNode::Skip(ac),
            u.skip(ac as int),
            ar,
            br,
            t,
        ),
{
    let u2 = u.skip(ac as int);
    let v = add_units(u, add_cons(AddNode::Skip(ac), ar));
    lemma_add_cons(u, AddNode::Skip(ac), ar);
    lemma_add_cons(v, AddNode::Skip(ac), br);
    lemma_add_cons(u, AddNode::Skip(ac), t);
    assert(v.skip(ac as int) =~= add_units(u2, ar));
    assert(v.take(ac as int) =~= u.take(ac as int));
}

/// A skip of `b` of more than one unit passes over a group that `a`
/// descends into.
proof fn lemma_step_with_skip_gt(
    u: Seq<Unit>,
    ga: Seq<AddNode>,
    bc: nat,
    ar: Seq<AddNode>,
    br: Seq<AddNode>,
    t: Seq<AddNode>,
)
    requires
        bc > 1,
        add_applies(u, add_cons(AddNode::WithGroup(ga), ar)),
        add_applies(
            add_units(u, add_cons(AddNode::WithGroup(ga), ar)),
            add_cons(AddNode::Skip(bc), br),
        ),
    ensures
        add_step_keeps(
            u,
            add_cons(AddNode::WithGroup(ga), ar),
            add_cons(AddNode::Skip(bc), br),
            AddNode::WithGroup(ga),
            u.skip(1),
            ar,
            add_cons(AddNode::Skip((bc - 1) as nat), br),
            t,
        ),
{
    let u2 = u.skip(1);
    let v = add_units(u, add_cons(AddNode::WithGroup(ga), ar));
    let w = add_units(u2, ar);
    lemma_add_cons(u, AddNode::WithGroup(ga), ar);
    lemma_add_cons(u, AddNode::WithGroup(ga), t);
    lemma_add_cons(v, AddNode::Skip(bc), br);
    lemma_add_cons(w, AddNode::Skip((bc - 1) as nat), br);
    assert(v.skip(1) =~= w);
    assert(w.skip(bc - 1) =~= v.skip(bc as int));
    assert(v.take(bc as int) =~= v.take(1) + w.take(bc - 1));
    assert(v.take(1) =~= add_atom_made(AddNode::WithGroup(ga), u));
    let y2 = add_cons(AddNode::Skip((bc - 1) as nat), br);
    if add_applies(u2, t) && add_units(u2, t) == add_units(w, y2) {
        assert(add_units(u, add_cons(AddNode::WithGroup(ga), t)) =~= add_units(
            v,
            add_cons(AddNode::Skip(bc), br),
        ));
    }
}

/// A skip of `b` of one unit passes over a group that `a` descends into.
proof fn lemma_step_with_skip_one(
    u: Seq<Unit>,
    ga: Seq<AddNode>,
    ar: Seq<AddNode>,
    br: Seq<AddNode>,
    t: Seq<AddNode>,
)
    requires
        add_applies(u, add_cons(AddNode::WithGroup(ga), ar)),
        add_applies(
            add_units(u, add_cons(AddNode::WithGroup(ga), ar)),
            add_cons(AddNode::Skip(1), br),
        ),
    ensures
        add_step_keeps(
            u,
            add_cons(AddNode::WithGroup(ga), ar),
            add_cons(AddNode::Skip(1), br),
            AddNode::WithGroup(ga),
            u.skip(1),
            ar,
            br,
            t,
        ),
{
    let u2 = u.skip(1);
    let v = add_units(u, add_cons(AddNode::WithGroup(ga), ar));
    let w = add_units(u2, ar);
    lemma_add_cons(u, AddNode::WithGroup(ga), ar);
    lemma_add_cons(u, AddNode::WithGroup(ga), t);
    lemma_add_cons(v, AddNode::Skip(1), br);
    assert(v.skip(1) =~= w);
    assert(v.take(1) =~= add_atom_made(AddNode::WithGroup(ga), u));
}

/// A descent of `b` meets a skip of `a` of more than one unit.
proof fn lemma_step_skip_with_gt(
    u: Seq<Unit>,
    ac: nat,
    gb: Seq<AddNode>,
    ar: Seq<AddNode>,
    br: Seq<AddNode>,
    t: Seq<AddNode>,
)
    requires
        ac > 1,
        add_applies(u, add_cons(AddNode::Skip(ac), ar)),
        add_applies(
            add_units(u, add_cons(AddNode::Skip(ac), ar)),
            add_cons(AddNode::WithGroup(gb), br),
        ),
    ensures
        add_step_keeps(
            u,
            add_cons(AddNode::Skip(ac), ar),
            add_cons(AddNode::WithGroup(gb), br),
            AddNode::WithGroup(gb),
            u.skip(1),
            add_cons(AddNode::Skip((ac - 1) as nat), ar),
            br,
            t,
        ),
{
    let u2 = u.skip(1);
    let x2 = add_cons(AddNode::Skip((ac - 1) as nat), ar);
    let v = add_units(u, add_cons(AddNode::Skip(ac), ar));
    lemma_add_cons(u, AddNode::Skip(ac), ar);
    lemma_add_cons(u2, AddNode::Skip((ac - 1) as nat), ar);
    lemma_add_cons(v, AddNode::WithGroup(gb), br);
    lemma_add_cons(u, AddNode::WithGroup(gb), t);
    assert(u2.skip(ac - 1) =~= u.skip(ac as int));
    assert(v[0] == u[0]);
    assert(v.skip(1) =~= add_units(u2, x2));
}

/// A descent of `b` meets a skip of `a` of one unit.
proof fn lemma_step_skip_with_one(
    u: Seq<Unit>,
    gb: Seq<AddNode>,
    ar: Seq<AddNode>,
    br: Seq<AddNode>,
    t: Seq<AddNode>,
)
    requires
        add_applies(u, add_cons(AddNode::Skip(1), ar)),
        add_applies(
            add_units(u, add_cons(AddNode::Skip(1), ar)),
            add_cons(AddNode::WithGroup(gb), br),
        ),
    ensures
        add_step_keeps(
            u,
            add_cons(AddNode::Skip(1), ar),
            add_cons(AddNode::WithGroup(gb), br),
            AddNode::WithGroup(gb),
            u.skip(1),
            ar,
            br,
            t,
        ),
{
    let u2 = u.skip(1);
    let v = add_units(u, add_cons(AddNode::Skip(1), ar));
    lemma_add_cons(u, AddNode::Skip(1), ar);
    lemma_add_cons(v, AddNode::WithGroup(gb), br);
    lemma_add_cons(u, AddNode::WithGroup(gb), t);
    assert(v[0] == u[0]);
    assert(v.skip(1) =~= add_units(u2, ar));
}

/// A descent of `b` meets a descent of `a`; `x` is the composition of
/// their inner spans, which does to the children of the group what the
/// inner spans do in turn.
proof fn lemma_step_with_with(
    u: Seq<Unit>,
    ga: Seq<AddNode>,
    gb: Seq<AddNode>,
    x: Seq<AddNode>,
    ar: Seq<AddNode>,
    br: Seq<AddNode>,
    t: Seq<AddNode>,
)
    requires
        add_applies(u, add_cons(AddNode::WithGroup(ga), ar)),
        add_applies(
            add_units(u, add_cons(AddNode::WithGroup(ga), ar)),
            add_cons(AddNode::WithGroup(gb), br),
        ),
        add_applies(u[0]->Group_1, x),
        add_units(u[0]->Group_1, x) == add_units(add_units(u[0]->Group_1, ga), gb),
    ensures
        add_step_keeps(
            u,
            add_cons(AddNode::WithGroup(ga), ar),
            add_cons(AddNode::WithGroup(gb), br),
            AddNode::WithGroup(x),
            u.skip(1),
            ar,
            br,
            t,
        ),
{
    let u2 = u.skip(1);
    let v = add_units(u, add_cons(AddNode::WithGroup(ga), ar));
    lemma_add_cons(u, AddNode::WithGroup(ga), ar);
    lemma_add_cons(v, AddNode::WithGroup(gb), br);
    lemma_add_cons(u, AddNode::WithGroup(x), t);
    assert(v.skip(1) =~= add_units(u2, ar));
}


/// Whether all of the first atom of a span is still to be served, where
/// that atom is inserted text.
pub open spec fn add_fresh(b: Seq<AddNode>, bc: nat) -> bool {
    b.len() > 0 && b[0] is Chars ==> bc == b[0]->Chars_0.chars.len()
}

/// With all of its first atom to be served, what is left of a span is the
/// span.
pub proof fn lemma_add_rest_whole(a: Seq<AddNode>)
    ensures
        add_rest(a, add_count(a)) == a,
        add_fresh(a, add_count(a)),
        add_count_ok(a, add_count(a)),
{
    if a.len() > 0 {
        match a[0] {
            AddNode::Chars(t) => {
                assert(t.chars.skip(0) =~= t.chars);
            },
            _ => {},
        }
        assert(seq![a[0]] + a.skip(1) =~= a);
    }
}

/// What is left of a span whose first atom is wholly to be served begins
/// with that atom.
pub proof fn lemma_add_fresh_head(b: Seq<AddNode>, bc: nat)
    requires
        b.len() > 0,
        add_fresh(b, bc),
        b[0] is Chars || b[0] is WithGroup,
    ensures
        add_rest(b, bc) == add_cons(b[0], b.skip(1)),
{
    match b[0] {
        AddNode::Chars(t) => {
            assert(t.chars.skip(0) =~= t.chars);
        },
        _ => {},
    }
}

/// The atoms that the composition of two add spans writes fit a document
/// that the two spans fit in turn, and do to it what the two do.
proof fn lemma_add_atoms_sound(u: Seq<Unit>, a: Seq<AddNode>, ac: nat, b: Seq<AddNode>, bc: nat)
    requires
        add_count_ok(a, ac),
        add_fresh(b, bc),
        add_applies(u, add_rest(a, ac)),
        add_applies(add_units(u, add_rest(a, ac)), add_rest(b, bc)),
        add_add_defined(a, ac, b, bc),
    ensures
        add_applies(u, add_add_atoms(a, ac, b, bc)),
        add_units(u, add_add_atoms(a, ac, b, bc)) == add_units(
            add_units(u, add_rest(a, ac)),
            add_rest(b, bc),
        ),
    decreases b, a, 0nat,
{
    let x = add_rest(a, ac);
    let y = add_rest(b, bc);
    if b.len() == 0 {
        lemma_add_nothing(add_units(u, x));
    } else {
        let ar = a.skip(1);
        let an = add_count(ar);
        let br = b.skip(1);
        let bn = add_count(br);
        lemma_add_rest_whole(ar);
        lemma_add_rest_whole(br);
        match b[0] {
            AddNode::Chars(txt) => {
                lemma_add_fresh_head(b, bc);
                let t = add_add_atoms(a, ac, br, bn);
                lemma_step_insert(u, x, txt, br, t);
                lemma_add_atoms_sound(u, a, ac, br, bn);
            },
            AddNode::Skip(_) => {
                lemma_add_cons(add_units(u, x), AddNode::Skip(bc), br);
                match a[0] {
                    AddNode::Chars(whole) => {
                        let txt = add_head(a[0], ac)->Chars_0;
                        if bc < ac {
                            let t = add_add_atoms(a, (ac - bc) as nat, br, bn);
                            lemma_step_text_skip_lt(u, txt, bc, ar, br, t);
                            assert(txt.chars.skip(bc as int) =~= whole.chars.skip(
                                whole.chars.len() - (ac - bc),
                            ));
                            lemma_add_atoms_sound(u, a, (ac - bc) as nat, br, bn);
                        } else if bc > ac {
                            let t = add_add_atoms(ar, an, b, (bc - ac) as nat);
                            lemma_step_text_skip_gt(u, txt, bc, ar, br, t);
                            lemma_add_atoms_sound(u, ar, an, b, (bc - ac) as nat);
                        } else {
                            let t = add_add_atoms(ar, an, br, bn);
                            lemma_step_text_skip_eq(u, txt, ar, br, t);
                            lemma_add_atoms_sound(u, ar, an, br, bn);
                        }
                    },
                    AddNode::Skip(_) => {
                        if ac > bc {
                            let t = add_add_atoms(a, (ac - bc) as nat, br, bn);
                            lemma_step_skip_skip_gt(u, ac, bc, ar, br, t);
                            lemma_add_atoms_sound(u.skip(bc as int), a, (ac - bc) as nat, br, bn);
                        } else if ac < bc {
                            let t = add_add_atoms(ar, an, b, (bc - ac) as nat);
                            lemma_step_skip_skip_lt(u, ac, bc, ar, br, t);
                            lemma_add_atoms_sound(u.skip(ac as int), ar, an, b, (bc - ac) as nat);
                        } else {
                            let t = add_add_atoms(ar, an, br, bn);
                            lemma_step_skip_skip_eq(u, ac, ar, br, t);
                            lemma_add_atoms_sound(u.skip(ac as int), ar, an, br, bn);
                        }
                    },
                    AddNode::WithGroup(ga) => {
                        if bc > 1 {
                            let t = add_add_atoms(ar, an, b, (bc - 1) as nat);
                            lemma_step_with_skip_gt(u, ga, bc, ar, br, t);
                            lemma_add_atoms_sound(u.skip(1), ar, an, b, (bc - 1) as nat);
                        } else {
                            let t = add_add_atoms(ar, an, br, bn);
                            lemma_step_with_skip_one(u, ga, ar, br, t);
                            lemma_add_atoms_sound(u.skip(1), ar, an, br, bn);
                        }
                    },
                    _ => {},
                }
            },
            AddNode::WithGroup(gb) => {
                lemma_add_fresh_head(b, bc);
                match a[0] {
                    AddNode::Skip(_) => {
                        lemma_add_cons(u, AddNode::Skip(ac), ar);
                        if ac > 1 {
                            let t = add_add_atoms(a, (ac - 1) as nat, br, bn);
                            lemma_step_skip_with_gt(u, ac, gb, ar, br, t);
                            lemma_add_atoms_sound(u.skip(1), a, (ac - 1) as nat, br, bn);
                        } else {
                            let t = add_add_atoms(ar, an, br, bn);
                            lemma_step_skip_with_one(u, gb, ar, br, t);
                            lemma_add_atoms_sound(u.skip(1), ar, an, br, bn);
                        }
                    },
                    AddNode::WithGroup(ga) => {
                        let t = add_add_atoms(ar, an, br, bn);
                        let inner = compose_add_add_spec(ga, gb);
                        lemma_add_cons(u, AddNode::WithGroup(ga), ar);
                        lemma_add_cons(add_units(u, x), AddNode::WithGroup(gb), br);
                        lemma_add_composition(u[0]->Group_1, ga, gb);
                        lemma_step_with_with(u, ga, gb, inner, ar, br, t);
                        lemma_add_atoms_sound(u.skip(1), ar, an, br, bn);
                    },
                    _ => {},
                }
            },
            _ => {},
        }
    }
}

/// Whether the atom `m` is what the atoms `x` and `y` give when `y` is
/// placed behind `x`: a skip of both counts, or text of the same styles
/// made of both texts.
pub open spec fn add_joined(x: AddNode, y: AddNode, m: AddNode) -> bool {
    match (x, y) {
        (AddNode::Skip(j), AddNode::Skip(k)) => m == AddNode::Skip(j + k),
        (AddNode::Chars(p), AddNode::Chars(q)) => p.styles == q.styles && m == AddNode::Chars(
            Text { chars: p.chars + q.chars, styles: q.styles },
        ),
        _ => false,
    }
}

/// Where a span with two atoms that merge fits a document, so does the
/// span with the merged atom in their place, and it does the same.
pub proof fn lemma_add_merge_join(
    w: Seq<Unit>,
    front: Seq<AddNode>,
    x: AddNode,
    y: AddNode,
    m: AddNode,
    t: Seq<AddNode>,
)
    requires
        add_joined(x, y, m),
        add_applies(w, front + add_cons(x, add_cons(y, t))),
    ensures
        add_applies(w, front + add_cons(m, t)),
        add_inner_units(w, front + add_cons(m, t)) == add_inner_units(
            w,
            front + add_cons(x, add_cons(y, t)),
        ),
    decreases front.len(),
{
    let merged = add_cons(m, t);
    let split = add_cons(x, add_cons(y, t));
    if front.len() == 0 {
        assert(front + merged =~= merged);
        assert(front + split =~= split);
        lemma_add_cons(w, m, t);
        lemma_add_cons(w, x, add_cons(y, t));
        lemma_add_cons(add_atom_left(x, w), y, t);
        match (x, y) {
            (AddNode::Skip(j), AddNode::Skip(k)) => {
                let v = w.skip(j as int);
                assert(v.skip(k as int) =~= w.skip((j + k) as int));
                assert(w.take((j + k) as int) =~= w.take(j as int) + v.take(k as int));
                assert(add_inner_units(w, merged).0 =~= add_inner_units(w, split).0);
            },
            (AddNode::Chars(p), AddNode::Chars(q)) => {
                lemma_chars_units_concat(p.chars, q.chars, q.styles);
                assert(add_inner_units(w, merged).0 =~= add_inner_units(w, split).0);
            },
            _ => {},
        }
    } else {
        let f = front[0];
        let fr = front.skip(1);
        assert(front + merged =~= add_cons(f, fr + merged));
        assert(front + split =~= add_cons(f, fr + split));
        lemma_add_cons(w, f, fr + merged);
        lemma_add_cons(w, f, fr + split);
        lemma_add_merge_join(add_atom_left(f, w), fr, x, y, m, t);
    }
}

/// Where a span fits a document, so does the span with its last atom
/// placed in place of appended, and it does the same.
pub proof fn lemma_add_place_merge(w: Seq<Unit>, res: Seq<AddNode>, x: AddNode, t: Seq<AddNode>)
    requires
        add_applies(w, res + add_cons(x, t)),
    ensures
        add_applies(w, place_add(res, x) + t),
        add_inner_units(w, place_add(res, x) + t) == add_inner_units(w, res + add_cons(x, t)),
{
    assert(res.push(x) + t =~= res + add_cons(x, t));
    if res.len() > 0 {
        let front = res.drop_last();
        let l = res.last();
        let m = place_add(res, x).last();
        if place_add(res, x) != res.push(x) {
            assert(add_joined(l, x, m));
            assert(place_add(res, x) + t =~= front + add_cons(m, t));
            assert(res + add_cons(x, t) =~= front + add_cons(l, add_cons(x, t)));
            lemma_add_merge_join(w, front, l, x, m, t);
        }
    }
}

/// One step of the composition: the atom `x` was placed or appended, and
/// what the composition writes behind it does what the atoms `t` do.
pub proof fn lemma_add_onto_step(
    w: Seq<Unit>,
    res: Seq<AddNode>,
    x: AddNode,
    placed: bool,
    t: Seq<AddNode>,
)
    requires
        add_applies(w, res + add_cons(x, t)),
    ensures
        ({
            let r = if placed {
                place_add(res, x)
            } else {
                res.push(x)
            };
            add_applies(w, r + t) && add_inner_units(w, r + t) == add_inner_units(
                w,
                res + add_cons(x, t),
            )
        }),
{
    if placed {
        lemma_add_place_merge(w, res, x, t);
    } else {
        assert(res.push(x) + t =~= res + add_cons(x, t));
    }
}

/// Where the atoms that the composition writes, taken one by one behind
/// what was written before, fit a document, so does the composed span,
/// and it does the same.
proof fn lemma_add_onto_merged(
    w: Seq<Unit>,
    res: Seq<AddNode>,
    a: Seq<AddNode>,
    ac: nat,
    b: Seq<AddNode>,
    bc: nat,
)
    requires
        add_add_defined(a, ac, b, bc),
        add_fresh(b, bc),
        add_applies(w, res + add_add_atoms(a, ac, b, bc)),
    ensures
        add_applies(w, compose_add_add_onto(res, a, ac, b, bc)),
        add_inner_units(w, compose_add_add_onto(res, a, ac, b, bc)) == add_inner_units(
            w,
            res + add_add_atoms(a, ac, b, bc),
        ),
    decreases b, a,
{
    let ar = a.skip(1);
    let an = add_count(ar);
    let br = b.skip(1);
    let bn = add_count(br);
    lemma_add_rest_whole(ar);
    lemma_add_rest_whole(br);
    if b.len() == 0 {
        if a.len() == 0 {
            assert(res + add_add_atoms(a, ac, b, bc) =~= res);
        } else {
            lemma_add_place_merge(w, res, add_head(a[0], ac), ar);
        }
    } else {
        match b[0] {
            AddNode::Chars(_) => {
                let t = add_add_atoms(a, ac, br, bn);
                lemma_add_onto_step(w, res, b[0], true, t);
                lemma_add_onto_merged(w, place_add(res, b[0]), a, ac, br, bn);
            },
            AddNode::Skip(_) => {
                match a[0] {
                    AddNode::Chars(_) => {
                        if bc < ac {
                            let x = add_chars_front(add_head(a[0], ac), bc);
                            let t = add_add_atoms(a, (ac - bc) as nat, br, bn);
                            lemma_add_onto_step(w, res, x, true, t);
                            lemma_add_onto_merged(
                                w,
                                place_add(res, x),
                                a,
                                (ac - bc) as nat,
                                br,
                                bn,
                            );
                        } else if bc > ac {
                            let x = add_head(a[0], ac);
                            let t = add_add_atoms(ar, an, b, (bc - ac) as nat);
                            lemma_add_onto_step(w, res, x, true, t);
                            lemma_add_onto_merged(
                                w,
                                place_add(res, x),
                                ar,
                                an,
                                b,
                                (bc - ac) as nat,
                            );
                        } else {
                            let x = add_head(a[0], ac);
                            let t = add_add_atoms(ar, an, br, bn);
                            lemma_add_onto_step(w, res, x, true, t);
                            lemma_add_onto_merged(w, place_add(res, x), ar, an, br, bn);
                        }
                    },
                    AddNode::Skip(_) => {
                        let x = AddNode::Skip(min_count(ac, bc));
                        if ac > bc {
                            let t = add_add_atoms(a, (ac - bc) as nat, br, bn);
                            lemma_add_onto_step(w, res, x, true, t);
                            lemma_add_onto_merged(w, place_add(res, x), a, (ac - bc) as nat, br, bn);
                        } else if ac < bc {
                            let t = add_add_atoms(ar, an, b, (bc - ac) as nat);
                            lemma_add_onto_step(w, res, x, true, t);
                            lemma_add_onto_merged(w, place_add(res, x), ar, an, b, (bc - ac) as nat);
                        } else {
                            let t = add_add_atoms(ar, an, br, bn);
                            lemma_add_onto_step(w, res, x, true, t);
                            lemma_add_onto_merged(w, place_add(res, x), ar, an, br, bn);
                        }
                    },
                    AddNode::WithGroup(_) => {
                        let x = a[0];
                        if bc > 1 {
                            let t = add_add_atoms(ar, an, b, (bc - 1) as nat);
                            lemma_add_onto_step(w, res, x, false, t);
                            lemma_add_onto_merged(w, res.push(x), ar, an, b, (bc - 1) as nat);
                        } else {
                            let t = add_add_atoms(ar, an, br, bn);
                            lemma_add_onto_step(w, res, x, false, t);
                            lemma_add_onto_merged(w, res.push(x), ar, an, br, bn);
                        }
                    },
                    _ => {},
                }
            },
            AddNode::WithGroup(gb) => {
                match a[0] {
                    AddNode::Skip(_) => {
                        let x = b[0];
                        if ac > 1 {
                            let t = add_add_atoms(a, (ac - 1) as nat, br, bn);
                            lemma_add_onto_step(w, res, x, false, t);
                            lemma_add_onto_merged(w, res.push(x), a, (ac - 1) as nat, br, bn);
                        } else {
                            let t = add_add_atoms(ar, an, br, bn);
                            lemma_add_onto_step(w, res, x, false, t);
                            lemma_add_onto_merged(w, res.push(x), ar, an, br, bn);
                        }
                    },
                    AddNode::WithGroup(ga) => {
                        let x = AddNode::WithGroup(compose_add_add_spec(ga, gb));
                        let t = add_add_atoms(ar, an, br, bn);
                        lemma_add_onto_step(w, res, x, false, t);
                        lemma_add_onto_merged(w, res.push(x), ar, an, br, bn);
                    },
                    _ => {},
                }
            },
            _ => {},
        }
    }
}

/// Add composition: where the spans `a` and `b` fit a document one after
/// the other and their composition is defined, the composed span fits the
/// document, and applying it gives what applying `a` and then `b` gives.
pub proof fn lemma_add_composition(u: Seq<Unit>, a: Seq<AddNode>, b: Seq<AddNode>)
    requires
        add_applies(u, a),
        add_applies(add_units(u, a), b),
        compose_add_add_defined(a, b),
    ensures
        add_applies(u, compose_add_add_spec(a, b)),
        add_units(u, compose_add_add_spec(a, b)) == add_units(add_units(u, a), b),
    decreases b, a, 1nat,
{
    lemma_add_rest_whole(a);
    lemma_add_rest_whole(b);
    lemma_add_atoms_sound(u, a, add_count(a), b, add_count(b));
    let t = add_add_atoms(a, add_count(a), b, add_count(b));
    assert(Seq::<AddNode>::empty() + t =~= t);
    lemma_add_onto_merged(u, Seq::empty(), a, add_count(a), b, add_count(b));
}

} // verus!
