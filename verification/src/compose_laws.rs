//! That composing delete spans keeps what they do: applying the composed
//! span to a document gives what applying the two spans in turn gives.

use crate::apply::{del_current, delete_applies, delete_units, lemma_delete_chars_part, one_run};
use crate::compose::{
    compose_del_del_defined, compose_del_del_onto, compose_del_del_spec, del_count,
    del_del_defined, min_count,
};
use crate::doc::DelNode;
use crate::place::place_del;
use crate::doc::StyleBag;
use crate::units::{
    lemma_one_style_concat, lemma_one_style_parts, one_style, unit_one_style, Unit,
};
use vstd::prelude::*;

verus! {

broadcast use vstd::group_vstd_default;

/// What is left of a delete span whose first atom has `ac` still to be
/// served.
pub open spec fn del_rest(a: Seq<DelNode>, ac: nat) -> Seq<DelNode> {
    if a.len() == 0 {
        a
    } else {
        seq![del_current(a[0], ac)] + a.skip(1)
    }
}

/// The atoms that the composition of two delete spans writes, one after
/// the other, before any of them is merged into its neighbour.
pub open spec fn del_del_atoms(a: Seq<DelNode>, ac: nat, b: Seq<DelNode>, bc: nat) -> Seq<
    DelNode,
>
    decreases a, b,
{
    if a.len() == 0 {
        del_rest(b, bc)
    } else {
        let ar = a.skip(1);
        let an = del_count(ar);
        let br = b.skip(1);
        let bn = del_count(br);
        match a[0] {
            DelNode::Skip(_) => if b.len() == 0 {
                seq![DelNode::Skip(ac)] + del_del_atoms(ar, an, b, bc)
            } else {
                match b[0] {
                    DelNode::Skip(_) => if ac > bc {
                        seq![DelNode::Skip(bc)] + del_del_atoms(a, (ac - bc) as nat, br, bn)
                    } else if ac < bc {
                        seq![DelNode::Skip(ac)] + del_del_atoms(ar, an, b, (bc - ac) as nat)
                    } else {
                        seq![DelNode::Skip(ac)] + del_del_atoms(ar, an, br, bn)
                    },
                    DelNode::Chars(_) => if ac > bc {
                        seq![DelNode::Chars(bc)] + del_del_atoms(a, (ac - bc) as nat, br, bn)
                    } else if ac < bc {
                        seq![DelNode::Chars(ac)] + del_del_atoms(ar, an, b, (bc - ac) as nat)
                    } else {
                        seq![DelNode::Chars(ac)] + del_del_atoms(ar, an, br, bn)
                    },
                    _ => if ac > 1 {
                        seq![b[0]] + del_del_atoms(a, (ac - 1) as nat, br, bn)
                    } else {
                        seq![b[0]] + del_del_atoms(ar, an, br, bn)
                    },
                }
            },
            DelNode::WithGroup(ga) => if b.len() == 0 {
                seq![a[0]] + del_del_atoms(ar, an, b, bc)
            } else {
                match b[0] {
                    DelNode::Skip(_) => if bc > 1 {
                        seq![a[0]] + del_del_atoms(ar, an, b, (bc - 1) as nat)
                    } else {
                        seq![a[0]] + del_del_atoms(ar, an, br, bn)
                    },
                    DelNode::WithGroup(gb) => seq![
                        DelNode::WithGroup(compose_del_del_spec(ga, gb)),
                    ] + del_del_atoms(ar, an, br, bn),
                    DelNode::Chars(_) => Seq::empty(),
                    DelNode::Group(_) => seq![b[0]] + del_del_atoms(ar, an, br, bn),
                }
            },
            DelNode::Chars(_) => seq![DelNode::Chars(ac)] + del_del_atoms(ar, an, b, bc),
            DelNode::Group(_) => seq![a[0]] + del_del_atoms(ar, an, b, bc),
        }
    }
}

/// Whether every atom of a delete span is a skip: such a span changes
/// nothing.
pub open spec fn del_idle(s: Seq<DelNode>) -> bool {
    forall|i: int| 0 <= i < s.len() ==> (#[trigger] s[i]) is Skip
}

/// Whether the composition of two delete spans loses nothing on the units
/// `u`. It does where a group that `a` removes leaves children behind
/// while `b` goes on, for `b` then speaks of those children and the
/// composed span does not, unless `b` only skips from there on and what
/// the composition writes still fits; and where `b` removes a group that
/// `a` has descended into, unless the inner span of `b` does to the
/// group's children what it does to what `a` leaves of them.
pub open spec fn del_del_faithful(
    u: Seq<Unit>,
    a: Seq<DelNode>,
    ac: nat,
    b: Seq<DelNode>,
    bc: nat,
) -> bool
    decreases a, b,
{
    if a.len() == 0 {
        true
    } else {
        let ar = a.skip(1);
        let an = del_count(ar);
        let br = b.skip(1);
        let bn = del_count(br);
        match a[0] {
            DelNode::Skip(_) => if b.len() == 0 {
                true
            } else {
                match b[0] {
                    DelNode::Skip(_) | DelNode::Chars(_) => if ac > bc {
                        del_del_faithful(u.skip(bc as int), a, (ac - bc) as nat, br, bn)
                    } else if ac < bc {
                        del_del_faithful(u.skip(ac as int), ar, an, b, (bc - ac) as nat)
                    } else {
                        del_del_faithful(u.skip(ac as int), ar, an, br, bn)
                    },
                    _ => if ac > 1 {
                        del_del_faithful(u.skip(1), a, (ac - 1) as nat, br, bn)
                    } else {
                        del_del_faithful(u.skip(1), ar, an, br, bn)
                    },
                }
            },
            DelNode::WithGroup(ga) => if b.len() == 0 {
                true
            } else {
                match b[0] {
                    DelNode::Skip(_) => if bc > 1 {
                        del_del_faithful(u.skip(1), ar, an, b, (bc - 1) as nat)
                    } else {
                        del_del_faithful(u.skip(1), ar, an, br, bn)
                    },
                    DelNode::WithGroup(gb) => del_del_faithful(
                        u[0]->Group_1,
                        ga,
                        del_count(ga),
                        gb,
                        del_count(gb),
                    ) && del_del_faithful(u.skip(1), ar, an, br, bn),
                    DelNode::Chars(_) => false,
                    DelNode::Group(gb) => delete_applies(u[0]->Group_1, gb) && delete_units(
                        u[0]->Group_1,
                        gb,
                    ) == delete_units(delete_units(u[0]->Group_1, ga), gb) && del_del_faithful(
                        u.skip(1),
                        ar,
                        an,
                        br,
                        bn,
                    ),
                }
            },
            DelNode::Chars(_) => del_del_faithful(u.skip(ac as int), ar, an, b, bc),
            DelNode::Group(g) => if b.len() == 0 || delete_units(u[0]->Group_1, g).len() == 0 {
                del_del_faithful(u.skip(1), ar, an, b, bc)
            } else {
                del_idle(del_rest(b, bc)) && delete_applies(u, del_del_atoms(a, ac, b, bc))
            },
        }
    }
}


/// The span that begins with `x` and goes on with `s`.
pub open spec fn del_cons(x: DelNode, s: Seq<DelNode>) -> Seq<DelNode> {
    seq![x] + s
}

/// What a span that begins with a skip does: it keeps the units that it
/// skips, and goes on behind them.
pub proof fn lemma_cons_skip(u: Seq<Unit>, k: nat, s: Seq<DelNode>)
    ensures
        delete_applies(u, del_cons(DelNode::Skip(k), s)) == (1 <= k <= u.len() && delete_applies(
            u.skip(k as int),
            s,
        )),
        delete_units(u, del_cons(DelNode::Skip(k), s)) == u.take(k as int) + delete_units(
            u.skip(k as int),
            s,
        ),
{
    assert(del_cons(DelNode::Skip(k), s).skip(1) =~= s);
}

/// What a span that begins with a character delete does: it drops the
/// characters, which lie in one run, and goes on behind them.
pub proof fn lemma_cons_chars(u: Seq<Unit>, k: nat, s: Seq<DelNode>)
    ensures
        delete_applies(u, del_cons(DelNode::Chars(k), s)) == (1 <= k && one_run(u, k)
            && delete_applies(u.skip(k as int), s)),
        delete_units(u, del_cons(DelNode::Chars(k), s)) == delete_units(u.skip(k as int), s),
{
    assert(del_cons(DelNode::Chars(k), s).skip(1) =~= s);
}

/// What a span that begins with a descent does: it keeps the group around
/// what its inner span makes of the children, and goes on behind it.
pub proof fn lemma_cons_with_group(u: Seq<Unit>, g: Seq<DelNode>, s: Seq<DelNode>)
    ensures
        delete_applies(u, del_cons(DelNode::WithGroup(g), s)) == (u.len() > 0 && u[0] is Group
            && delete_applies(u[0]->Group_1, g) && delete_applies(u.skip(1), s)),
        delete_units(u, del_cons(DelNode::WithGroup(g), s)) == seq![
            Unit::Group(u[0]->Group_0, delete_units(u[0]->Group_1, g)),
        ] + delete_units(u.skip(1), s),
{
    assert(del_cons(DelNode::WithGroup(g), s).skip(1) =~= s);
}

/// What a span that begins with the removal of a group does: it puts what
/// its inner span makes of the children in the group's place, and goes on
/// behind it.
pub proof fn lemma_cons_group(u: Seq<Unit>, g: Seq<DelNode>, s: Seq<DelNode>)
    ensures
        delete_applies(u, del_cons(DelNode::Group(g), s)) == (u.len() > 0 && u[0] is Group
            && delete_applies(u[0]->Group_1, g) && delete_applies(u.skip(1), s)),
        delete_units(u, del_cons(DelNode::Group(g), s)) == delete_units(u[0]->Group_1, g)
            + delete_units(u.skip(1), s),
{
    assert(del_cons(DelNode::Group(g), s).skip(1) =~= s);
}

/// A skip of `a` ends the walk when `b` is exhausted: what follows it is
/// what `a` does behind it.
proof fn lemma_step_skip_end(u: Seq<Unit>, ac: nat, ar: Seq<DelNode>, t: Seq<DelNode>)
    requires
        delete_applies(u, del_cons(DelNode::Skip(ac), ar)),
    ensures
        delete_applies(u.skip(ac as int), ar),
        delete_applies(u, del_cons(DelNode::Skip(ac), t)) == delete_applies(u.skip(ac as int), t),
        delete_units(u.skip(ac as int), t) == delete_units(u.skip(ac as int), ar)
            ==> delete_units(u, del_cons(DelNode::Skip(ac), t)) == delete_units(
            u,
            del_cons(DelNode::Skip(ac), ar),
        ),
{
    lemma_cons_skip(u, ac, ar);
    lemma_cons_skip(u, ac, t);
}

/// A skip of `a` meets a shorter skip of `b`.
proof fn lemma_step_skip_skip_gt(
    u: Seq<Unit>,
    ac: nat,
    bc: nat,
    ar: Seq<DelNode>,
    br: Seq<DelNode>,
    t: Seq<DelNode>,
)
    requires
        ac > bc,
        delete_applies(u, del_cons(DelNode::Skip(ac), ar)),
        delete_applies(
            delete_units(u, del_cons(DelNode::Skip(ac), ar)),
            del_cons(DelNode::Skip(bc), br),
        ),
    ensures
        ({
            let v = u.skip(bc as int);
            let a2 = del_cons(DelNode::Skip((ac - bc) as nat), ar);
            &&& delete_applies(v, a2)
            &&& delete_applies(delete_units(v, a2), br)
            &&& delete_applies(u, del_cons(DelNode::Skip(bc), t)) == delete_applies(v, t)
            &&& (delete_units(v, t) == delete_units(delete_units(v, a2), br) ==> delete_units(
                u,
                del_cons(DelNode::Skip(bc), t),
            ) == delete_units(
                delete_units(u, del_cons(DelNode::Skip(ac), ar)),
                del_cons(DelNode::Skip(bc), br),
            ))
        }),
{
    let v = u.skip(bc as int);
    let a2 = del_cons(DelNode::Skip((ac - bc) as nat), ar);
    let w = delete_units(u, del_cons(DelNode::Skip(ac), ar));
    lemma_cons_skip(u, ac, ar);
    lemma_cons_skip(v, (ac - bc) as nat, ar);
    lemma_cons_skip(w, bc, br);
    lemma_cons_skip(u, bc, t);
    assert(v.skip(ac - bc) =~= u.skip(ac as int));
    assert(w.take(bc as int) =~= u.take(bc as int));
    assert(w.skip(bc as int) =~= delete_units(v, a2));
}

/// A skip of `a` meets a longer skip of `b`.
proof fn lemma_step_skip_skip_lt(
    u: Seq<Unit>,
    ac: nat,
    bc: nat,
    ar: Seq<DelNode>,
    br: Seq<DelNode>,
    t: Seq<DelNode>,
)
    requires
        ac < bc,
        delete_applies(u, del_cons(DelNode::Skip(ac), ar)),
        delete_applies(
            delete_units(u, del_cons(DelNode::Skip(ac), ar)),
            del_cons(DelNode::Skip(bc), br),
        ),
    ensures
        ({
            let v = u.skip(ac as int);
            let b2 = del_cons(DelNode::Skip((bc - ac) as nat), br);
            &&& delete_applies(v, ar)
            &&& delete_applies(delete_units(v, ar), b2)
            &&& delete_applies(u, del_cons(DelNode::Skip(ac), t)) == delete_applies(v, t)
            &&& (delete_units(v, t) == delete_units(delete_units(v, ar), b2) ==> delete_units(
                u,
                del_cons(DelNode::Skip(ac), t),
            ) == delete_units(
                delete_units(u, del_cons(DelNode::Skip(ac), ar)),
                del_cons(DelNode::Skip(bc), br),
            ))
        }),
{
    let v = u.skip(ac as int);
    let b2 = del_cons(DelNode::Skip((bc - ac) as nat), br);
    let w = delete_units(u, del_cons(DelNode::Skip(ac), ar));
    lemma_cons_skip(u, ac, ar);
    lemma_cons_skip(w, bc, br);
    lemma_cons_skip(delete_units(v, ar), (bc - ac) as nat, br);
    lemma_cons_skip(u, ac, t);
    let d = delete_units(v, ar);
    assert(w.skip(ac as int) =~= d);
    assert(w.take(ac as int) =~= u.take(ac as int));
    assert(d.skip(bc - ac) =~= w.skip(bc as int));
    assert(w.take(bc as int) =~= u.take(ac as int) + d.take(bc - ac));
}

/// A skip of `a` meets a skip of `b` of the same length.
proof fn lemma_step_skip_skip_eq(
    u: Seq<Unit>,
    ac: nat,
    ar: Seq<DelNode>,
    br: Seq<DelNode>,
    t: Seq<DelNode>,
)
    requires
        delete_applies(u, del_cons(DelNode::Skip(ac), ar)),
        delete_applies(
            delete_units(u, del_cons(DelNode::Skip(ac), ar)),
            del_cons(DelNode::Skip(ac), br),
        ),
    ensures
        ({
            let v = u.skip(ac as int);
            &&& delete_applies(v, ar)
            &&& delete_applies(delete_units(v, ar), br)
            &&& delete_applies(u, del_cons(DelNode::Skip(ac), t)) == delete_applies(v, t)
            &&& (delete_units(v, t) == delete_units(delete_units(v, ar), br) ==> delete_units(
                u,
                del_cons(DelNode::Skip(ac), t),
            ) == delete_units(
                delete_units(u, del_cons(DelNode::Skip(ac), ar)),
                del_cons(DelNode::Skip(ac), br),
            ))
        }),
{
    let v = u.skip(ac as int);
    let w = delete_units(u, del_cons(DelNode::Skip(ac), ar));
    lemma_cons_skip(u, ac, ar);
    lemma_cons_skip(w, ac, br);
    lemma_cons_skip(u, ac, t);
    assert(w.skip(ac as int) =~= delete_units(v, ar));
    assert(w.take(ac as int) =~= u.take(ac as int));
}

/// A skip of `a` meets a shorter character delete of `b`.
proof fn lemma_step_skip_chars_gt(
    u: Seq<Unit>,
    ac: nat,
    bc: nat,
    ar: Seq<DelNode>,
    br: Seq<DelNode>,
    t: Seq<DelNode>,
)
    requires
        ac > bc,
        delete_applies(u, del_cons(DelNode::Skip(ac), ar)),
        delete_applies(
            delete_units(u, del_cons(DelNode::Skip(ac), ar)),
            del_cons(DelNode::Chars(bc), br),
        ),
    ensures
        ({
            let v = u.skip(bc as int);
            let a2 = del_cons(DelNode::Skip((ac - bc) as nat), ar);
            &&& delete_applies(v, a2)
            &&& delete_applies(delete_units(v, a2), br)
            &&& delete_applies(u, del_cons(DelNode::Chars(bc), t)) == delete_applies(v, t)
            &&& (delete_units(v, t) == delete_units(delete_units(v, a2), br) ==> delete_units(
                u,
                del_cons(DelNode::Chars(bc), t),
            ) == delete_units(
                delete_units(u, del_cons(DelNode::Skip(ac), ar)),
                del_cons(DelNode::Chars(bc), br),
            ))
        }),
{
    let v = u.skip(bc as int);
    let a2 = del_cons(DelNode::Skip((ac - bc) as nat), ar);
    let w = delete_units(u, del_cons(DelNode::Skip(ac), ar));
    lemma_cons_skip(u, ac, ar);
    lemma_cons_skip(v, (ac - bc) as nat, ar);
    lemma_cons_chars(w, bc, br);
    lemma_cons_chars(u, bc, t);
    assert(v.skip(ac - bc) =~= u.skip(ac as int));
    assert(w.skip(bc as int) =~= delete_units(v, a2));
    assert forall|i: int| 0 <= i < bc implies #[trigger] u[i] is Char && u[i]->Char_0.1
        == u[0]->Char_0.1 by {
        assert(u[i] == w[i]);
        assert(u[0] == w[0]);
    }
}

/// A skip of `a` meets a longer character delete of `b`.
proof fn lemma_step_skip_chars_lt(
    u: Seq<Unit>,
    ac: nat,
    bc: nat,
    ar: Seq<DelNode>,
    br: Seq<DelNode>,
    t: Seq<DelNode>,
)
    requires
        ac < bc,
        delete_applies(u, del_cons(DelNode::Skip(ac), ar)),
        delete_applies(
            delete_units(u, del_cons(DelNode::Skip(ac), ar)),
            del_cons(DelNode::Chars(bc), br),
        ),
    ensures
        ({
            let v = u.skip(ac as int);
            let b2 = del_cons(DelNode::Chars((bc - ac) as nat), br);
            &&& delete_applies(v, ar)
            &&& delete_applies(delete_units(v, ar), b2)
            &&& delete_applies(u, del_cons(DelNode::Chars(ac), t)) == delete_applies(v, t)
            &&& (delete_units(v, t) == delete_units(delete_units(v, ar), b2) ==> delete_units(
                u,
                del_cons(DelNode::Chars(ac), t),
            ) == delete_units(
                delete_units(u, del_cons(DelNode::Skip(ac), ar)),
                del_cons(DelNode::Chars(bc), br),
            ))
        }),
{
    let v = u.skip(ac as int);
    let w = delete_units(u, del_cons(DelNode::Skip(ac), ar));
    lemma_cons_skip(u, ac, ar);
    lemma_cons_chars(u, ac, t);
    lemma_cons_chars(w, bc, br);
    lemma_delete_chars_part(w, bc, ac, br);
    assert(w.skip(ac as int) =~= delete_units(v, ar));
    assert forall|i: int| 0 <= i < ac implies #[trigger] u[i] is Char && u[i]->Char_0.1
        == u[0]->Char_0.1 by {
        assert(u[i] == w[i]);
        assert(u[0] == w[0]);
    }
}

/// A skip of `a` meets a character delete of `b` of the same length.
proof fn lemma_step_skip_chars_eq(
    u: Seq<Unit>,
    ac: nat,
    ar: Seq<DelNode>,
    br: Seq<DelNode>,
    t: Seq<DelNode>,
)
    requires
        delete_applies(u, del_cons(DelNode::Skip(ac), ar)),
        delete_applies(
            delete_units(u, del_cons(DelNode::Skip(ac), ar)),
            del_cons(DelNode::Chars(ac), br),
        ),
    ensures
        ({
            let v = u.skip(ac as int);
            &&& delete_applies(v, ar)
            &&& delete_applies(delete_units(v, ar), br)
            &&& delete_applies(u, del_cons(DelNode::Chars(ac), t)) == delete_applies(v, t)
            &&& (delete_units(v, t) == delete_units(delete_units(v, ar), br) ==> delete_units(
                u,
                del_cons(DelNode::Chars(ac), t),
            ) == delete_units(
                delete_units(u, del_cons(DelNode::Skip(ac), ar)),
                del_cons(DelNode::Chars(ac), br),
            ))
        }),
{
    let v = u.skip(ac as int);
    let w = delete_units(u, del_cons(DelNode::Skip(ac), ar));
    lemma_cons_skip(u, ac, ar);
    lemma_cons_chars(w, ac, br);
    lemma_cons_chars(u, ac, t);
    assert(w.skip(ac as int) =~= delete_units(v, ar));
    assert forall|i: int| 0 <= i < ac implies #[trigger] u[i] is Char && u[i]->Char_0.1
        == u[0]->Char_0.1 by {
        assert(u[i] == w[i]);
        assert(u[0] == w[0]);
    }
}


/// Whether a group atom finds in `x` a group that its inner span fits.
pub open spec fn del_group_fits(g: DelNode, x: Unit) -> bool {
    match g {
        DelNode::WithGroup(inner) => x is Group && delete_applies(x->Group_1, inner),
        DelNode::Group(inner) => x is Group && delete_applies(x->Group_1, inner),
        _ => false,
    }
}

/// What a group atom makes of the group `x`.
pub open spec fn del_group_act(g: DelNode, x: Unit) -> Seq<Unit> {
    match g {
        DelNode::WithGroup(inner) => seq![
            Unit::Group(x->Group_0, delete_units(x->Group_1, inner)),
        ],
        DelNode::Group(inner) => delete_units(x->Group_1, inner),
        _ => Seq::empty(),
    }
}

/// What a span that begins with a group atom does.
pub proof fn lemma_cons_group_atom(u: Seq<Unit>, g: DelNode, s: Seq<DelNode>)
    requires
        g is WithGroup || g is Group,
    ensures
        delete_applies(u, del_cons(g, s)) == (u.len() > 0 && del_group_fits(g, u[0])
            && delete_applies(u.skip(1), s)),
        delete_units(u, del_cons(g, s)) == del_group_act(g, u[0]) + delete_units(u.skip(1), s),
{
    assert(del_cons(g, s).skip(1) =~= s);
}

/// A skip of `a` of more than one unit meets a group atom of `b`.
proof fn lemma_step_skip_group_gt(
    u: Seq<Unit>,
    ac: nat,
    g: DelNode,
    ar: Seq<DelNode>,
    br: Seq<DelNode>,
    t: Seq<DelNode>,
)
    requires
        ac > 1,
        g is WithGroup || g is Group,
        delete_applies(u, del_cons(DelNode::Skip(ac), ar)),
        delete_applies(delete_units(u, del_cons(DelNode::Skip(ac), ar)), del_cons(g, br)),
    ensures
        ({
            let v = u.skip(1);
            let a2 = del_cons(DelNode::Skip((ac - 1) as nat), ar);
            &&& delete_applies(v, a2)
            &&& delete_applies(delete_units(v, a2), br)
            &&& delete_applies(u, del_cons(g, t)) == delete_applies(v, t)
            &&& (delete_units(v, t) == delete_units(delete_units(v, a2), br) ==> delete_units(
                u,
                del_cons(g, t),
            ) == delete_units(delete_units(u, del_cons(DelNode::Skip(ac), ar)), del_cons(g, br)))
        }),
{
    let v = u.skip(1);
    let a2 = del_cons(DelNode::Skip((ac - 1) as nat), ar);
    let w = delete_units(u, del_cons(DelNode::Skip(ac), ar));
    lemma_cons_skip(u, ac, ar);
    lemma_cons_skip(v, (ac - 1) as nat, ar);
    lemma_cons_group_atom(w, g, br);
    lemma_cons_group_atom(u, g, t);
    assert(v.skip(ac - 1) =~= u.skip(ac as int));
    assert(w[0] == u[0]);
    assert(w.skip(1) =~= delete_units(v, a2));
}

/// A skip of `a` of one unit meets a group atom of `b`.
proof fn lemma_step_skip_group_one(
    u: Seq<Unit>,
    g: DelNode,
    ar: Seq<DelNode>,
    br: Seq<DelNode>,
    t: Seq<DelNode>,
)
    requires
        g is WithGroup || g is Group,
        delete_applies(u, del_cons(DelNode::Skip(1), ar)),
        delete_applies(delete_units(u, del_cons(DelNode::Skip(1), ar)), del_cons(g, br)),
    ensures
        ({
            let v = u.skip(1);
            &&& delete_applies(v, ar)
            &&& delete_applies(delete_units(v, ar), br)
            &&& delete_applies(u, del_cons(g, t)) == delete_applies(v, t)
            &&& (delete_units(v, t) == delete_units(delete_units(v, ar), br) ==> delete_units(
                u,
                del_cons(g, t),
            ) == delete_units(delete_units(u, del_cons(DelNode::Skip(1), ar)), del_cons(g, br)))
        }),
{
    let v = u.skip(1);
    let w = delete_units(u, del_cons(DelNode::Skip(1), ar));
    lemma_cons_skip(u, 1, ar);
    lemma_cons_group_atom(w, g, br);
    lemma_cons_group_atom(u, g, t);
    assert(w[0] == u[0]);
    assert(w.skip(1) =~= delete_units(v, ar));
}

/// A descent of `a` ends the walk when `b` is exhausted.
proof fn lemma_step_with_end(u: Seq<Unit>, ga: Seq<DelNode>, ar: Seq<DelNode>, t: Seq<DelNode>)
    requires
        delete_applies(u, del_cons(DelNode::WithGroup(ga), ar)),
    ensures
        delete_applies(u.skip(1), ar),
        delete_applies(u, del_cons(DelNode::WithGroup(ga), t)) == delete_applies(u.skip(1), t),
        delete_units(u.skip(1), t) == delete_units(u.skip(1), ar) ==> delete_units(
            u,
            del_cons(DelNode::WithGroup(ga), t),
        ) == delete_units(u, del_cons(DelNode::WithGroup(ga), ar)),
{
    lemma_cons_with_group(u, ga, ar);
    lemma_cons_with_group(u, ga, t);
}

/// A descent of `a` meets a skip of `b` of more than one unit.
proof fn lemma_step_with_skip_gt(
    u: Seq<Unit>,
    ga: Seq<DelNode>,
    bc: nat,
    ar: Seq<DelNode>,
    br: Seq<DelNode>,
    t: Seq<DelNode>,
)
    requires
        bc > 1,
        delete_applies(u, del_cons(DelNode::WithGroup(ga), ar)),
        delete_applies(
            delete_units(u, del_cons(DelNode::WithGroup(ga), ar)),
            del_cons(DelNode::Skip(bc), br),
        ),
    ensures
        ({
            let v = u.skip(1);
            let b2 = del_cons(DelNode::Skip((bc - 1) as nat), br);
            &&& delete_applies(v, ar)
            &&& delete_applies(delete_units(v, ar), b2)
            &&& delete_applies(u, del_cons(DelNode::WithGroup(ga), t)) == delete_applies(v, t)
            &&& (delete_units(v, t) == delete_units(delete_units(v, ar), b2) ==> delete_units(
                u,
                del_cons(DelNode::WithGroup(ga), t),
            ) == delete_units(
                delete_units(u, del_cons(DelNode::WithGroup(ga), ar)),
                del_cons(DelNode::Skip(bc), br),
            ))
        }),
{
    let v = u.skip(1);
    let w = delete_units(u, del_cons(DelNode::WithGroup(ga), ar));
    let d = delete_units(v, ar);
    lemma_cons_with_group(u, ga, ar);
    lemma_cons_with_group(u, ga, t);
    lemma_cons_skip(w, bc, br);
    lemma_cons_skip(d, (bc - 1) as nat, br);
    assert(w.skip(1) =~= d);
    assert(d.skip(bc - 1) =~= w.skip(bc as int));
    assert(w.take(bc as int) =~= w.take(1) + d.take(bc - 1));
}

/// A descent of `a` meets a skip of `b` of one unit.
proof fn lemma_step_with_skip_one(
    u: Seq<Unit>,
    ga: Seq<DelNode>,
    ar: Seq<DelNode>,
    br: Seq<DelNode>,
    t: Seq<DelNode>,
)
    requires
        delete_applies(u, del_cons(DelNode::WithGroup(ga), ar)),
        delete_applies(
            delete_units(u, del_cons(DelNode::WithGroup(ga), ar)),
            del_cons(DelNode::Skip(1), br),
        ),
    ensures
        ({
            let v = u.skip(1);
            &&& delete_applies(v, ar)
            &&& delete_applies(delete_units(v, ar), br)
            &&& delete_applies(u, del_cons(DelNode::WithGroup(ga), t)) == delete_applies(v, t)
            &&& (delete_units(v, t) == delete_units(delete_units(v, ar), br) ==> delete_units(
                u,
                del_cons(DelNode::WithGroup(ga), t),
            ) == delete_units(
                delete_units(u, del_cons(DelNode::WithGroup(ga), ar)),
                del_cons(DelNode::Skip(1), br),
            ))
        }),
{
    let v = u.skip(1);
    let w = delete_units(u, del_cons(DelNode::WithGroup(ga), ar));
    let d = delete_units(v, ar);
    lemma_cons_with_group(u, ga, ar);
    lemma_cons_with_group(u, ga, t);
    lemma_cons_skip(w, 1, br);
    assert(w.skip(1) =~= d);
}

/// A descent of `a` meets a descent of `b`; `x` is the composition of
/// their inner spans.
proof fn lemma_step_with_with(
    u: Seq<Unit>,
    ga: Seq<DelNode>,
    gb: Seq<DelNode>,
    x: Seq<DelNode>,
    ar: Seq<DelNode>,
    br: Seq<DelNode>,
    t: Seq<DelNode>,
)
    requires
        delete_applies(u, del_cons(DelNode::WithGroup(ga), ar)),
        delete_applies(
            delete_units(u, del_cons(DelNode::WithGroup(ga), ar)),
            del_cons(DelNode::WithGroup(gb), br),
        ),
    ensures
        ({
            let v = u.skip(1);
            let c = u[0]->Group_1;
            &&& delete_applies(c, ga)
            &&& delete_applies(delete_units(c, ga), gb)
            &&& delete_applies(v, ar)
            &&& delete_applies(delete_units(v, ar), br)
            &&& delete_applies(u, del_cons(DelNode::WithGroup(x), t)) == (delete_applies(c, x)
                && delete_applies(v, t))
            &&& (delete_units(c, x) == delete_units(delete_units(c, ga), gb) && delete_units(v, t)
                == delete_units(delete_units(v, ar), br) ==> delete_units(
                u,
                del_cons(DelNode::WithGroup(x), t),
            ) == delete_units(
                delete_units(u, del_cons(DelNode::WithGroup(ga), ar)),
                del_cons(DelNode::WithGroup(gb), br),
            ))
        }),
{
    let v = u.skip(1);
    let w = delete_units(u, del_cons(DelNode::WithGroup(ga), ar));
    let d = delete_units(v, ar);
    lemma_cons_with_group(u, ga, ar);
    lemma_cons_with_group(u, x, t);
    lemma_cons_with_group(w, gb, br);
    assert(w.skip(1) =~= d);
}

/// A descent of `a` meets the removal of the group by `b`.
proof fn lemma_step_with_group(
    u: Seq<Unit>,
    ga: Seq<DelNode>,
    gb: Seq<DelNode>,
    ar: Seq<DelNode>,
    br: Seq<DelNode>,
    t: Seq<DelNode>,
)
    requires
        delete_applies(u, del_cons(DelNode::WithGroup(ga), ar)),
        delete_applies(
            delete_units(u, del_cons(DelNode::WithGroup(ga), ar)),
            del_cons(DelNode::Group(gb), br),
        ),
    ensures
        ({
            let v = u.skip(1);
            let c = u[0]->Group_1;
            &&& delete_applies(v, ar)
            &&& delete_applies(delete_units(v, ar), br)
            &&& delete_applies(u, del_cons(DelNode::Group(gb), t)) == (delete_applies(
                u[0]->Group_1,
                gb,
            ) && delete_applies(v, t))
            &&& (delete_units(c, gb) == delete_units(delete_units(c, ga), gb) && delete_units(
                v,
                t,
            ) == delete_units(delete_units(v, ar), br) ==> delete_units(
                u,
                del_cons(DelNode::Group(gb), t),
            ) == delete_units(
                delete_units(u, del_cons(DelNode::WithGroup(ga), ar)),
                del_cons(DelNode::Group(gb), br),
            ))
        }),
{
    let v = u.skip(1);
    let w = delete_units(u, del_cons(DelNode::WithGroup(ga), ar));
    let d = delete_units(v, ar);
    lemma_cons_with_group(u, ga, ar);
    lemma_cons_group(u, gb, t);
    lemma_cons_group(w, gb, br);
    assert(w.skip(1) =~= d);
}

/// A character delete of `a` comes before whatever `b` does next.
proof fn lemma_step_chars(u: Seq<Unit>, ac: nat, ar: Seq<DelNode>, t: Seq<DelNode>)
    requires
        delete_applies(u, del_cons(DelNode::Chars(ac), ar)),
    ensures
        delete_applies(u.skip(ac as int), ar),
        delete_applies(u, del_cons(DelNode::Chars(ac), t)) == delete_applies(u.skip(ac as int), t),
        delete_units(u, del_cons(DelNode::Chars(ac), ar)) == delete_units(u.skip(ac as int), ar),
        delete_units(u, del_cons(DelNode::Chars(ac), t)) == delete_units(u.skip(ac as int), t),
{
    lemma_cons_chars(u, ac, ar);
    lemma_cons_chars(u, ac, t);
}

/// The removal of a group by `a` comes before whatever `b` does next; it
/// leaves no children behind unless `b` is exhausted.
proof fn lemma_step_group(
    u: Seq<Unit>,
    g: Seq<DelNode>,
    ar: Seq<DelNode>,
    b: Seq<DelNode>,
    t: Seq<DelNode>,
)
    requires
        delete_applies(u, del_cons(DelNode::Group(g), ar)),
        delete_applies(delete_units(u, del_cons(DelNode::Group(g), ar)), b),
        b.len() == 0 || delete_units(u[0]->Group_1, g).len() == 0,
    ensures
        ({
            let v = u.skip(1);
            &&& delete_applies(v, ar)
            &&& delete_applies(delete_units(v, ar), b)
            &&& delete_applies(u, del_cons(DelNode::Group(g), t)) == delete_applies(v, t)
            &&& (delete_units(v, t) == delete_units(delete_units(v, ar), b) ==> delete_units(
                u,
                del_cons(DelNode::Group(g), t),
            ) == delete_units(delete_units(u, del_cons(DelNode::Group(g), ar)), b))
        }),
{
    let v = u.skip(1);
    let w = delete_units(u, del_cons(DelNode::Group(g), ar));
    let d = delete_units(v, ar);
    lemma_cons_group(u, g, ar);
    lemma_cons_group(u, g, t);
    if b.len() > 0 {
        assert(w =~= d);
    }
}


/// With all of its first atom to be served, what is left of a span is the
/// span.
pub proof fn lemma_del_rest_whole(a: Seq<DelNode>)
    ensures
        del_rest(a, del_count(a)) == a,
{
    if a.len() > 0 {
        assert(seq![a[0]] + a.skip(1) =~= a);
    }
}

/// When `b` is exhausted, the composition is defined and loses nothing.
proof fn lemma_del_del_end(u: Seq<Unit>, a: Seq<DelNode>, ac: nat, bc: nat)
    ensures
        del_del_defined(a, ac, Seq::empty(), bc),
        del_del_faithful(u, a, ac, Seq::empty(), bc),
    decreases a.len(),
{
    if a.len() > 0 {
        let ar = a.skip(1);
        lemma_del_del_end(u.skip(ac as int), ar, del_count(ar), bc);
        lemma_del_del_end(u.skip(1), ar, del_count(ar), bc);
        let e = Seq::<DelNode>::empty();
        assert(del_del_defined(ar, del_count(ar), e, bc));
        match a[0] {
            DelNode::Skip(_) => {
                assert(del_del_defined(a, ac, e, bc));
            },
            DelNode::WithGroup(_) => {
                assert(del_del_defined(a, ac, e, bc));
            },
            DelNode::Chars(_) => {
                assert(del_del_defined(a, ac, e, bc));
            },
            DelNode::Group(_) => {
                assert(del_del_defined(a, ac, e, bc));
            },
        }
    }
}

/// A span of skips that fits leaves the units as they are.
pub proof fn lemma_idle_same(w: Seq<Unit>, b: Seq<DelNode>)
    requires
        del_idle(b),
        delete_applies(w, b),
    ensures
        delete_units(w, b) == w,
    decreases b.len(),
{
    if b.len() > 0 {
        let k = b[0]->Skip_0;
        let r = b.skip(1);
        assert(b[0] is Skip);
        assert(b =~= del_cons(DelNode::Skip(k), r));
        lemma_cons_skip(w, k, r);
        assert forall|i: int| 0 <= i < r.len() implies (#[trigger] r[i]) is Skip by {
            assert(r[i] == b[i + 1]);
        }
        lemma_idle_same(w.skip(k as int), r);
        assert(w.take(k as int) + w.skip(k as int) =~= w);
    }
}

/// A span of skips that fits some units fits any units that are at least
/// as many.
pub proof fn lemma_idle_longer(w: Seq<Unit>, v: Seq<Unit>, b: Seq<DelNode>)
    requires
        del_idle(b),
        delete_applies(v, b),
        v.len() <= w.len(),
    ensures
        delete_applies(w, b),
    decreases b.len(),
{
    if b.len() > 0 {
        let k = b[0]->Skip_0;
        let r = b.skip(1);
        assert(b[0] is Skip);
        assert(b =~= del_cons(DelNode::Skip(k), r));
        lemma_cons_skip(w, k, r);
        lemma_cons_skip(v, k, r);
        assert forall|i: int| 0 <= i < r.len() implies (#[trigger] r[i]) is Skip by {
            assert(r[i] == b[i + 1]);
        }
        lemma_idle_longer(w.skip(k as int), v.skip(k as int), r);
    }
}

/// What is left of a span of skips is a span of skips, whatever is still
/// to be served of its first atom.
proof fn lemma_idle_rest(b: Seq<DelNode>, bc: nat, n: nat)
    requires
        del_idle(del_rest(b, bc)),
        b.len() > 0,
    ensures
        b[0] is Skip,
        del_idle(del_rest(b, n)),
        del_idle(del_rest(b.skip(1), del_count(b.skip(1)))),
{
    let r = del_rest(b, bc);
    let r2 = del_rest(b, n);
    let br = b.skip(1);
    lemma_del_rest_whole(br);
    assert(r[0] is Skip);
    assert forall|i: int| 0 <= i < br.len() implies (#[trigger] br[i]) is Skip by {
        assert(br[i] == r[i + 1]);
    }
    assert forall|i: int| 0 <= i < r2.len() implies (#[trigger] r2[i]) is Skip by {
        if i > 0 {
            assert(r2[i] == br[i - 1]);
        }
    }
}

/// The composition with a span of skips is defined.
proof fn lemma_idle_defined(a: Seq<DelNode>, ac: nat, b: Seq<DelNode>, bc: nat)
    requires
        del_idle(del_rest(b, bc)),
    ensures
        del_del_defined(a, ac, b, bc),
    decreases a, b,
{
    if a.len() > 0 {
        let ar = a.skip(1);
        let an = del_count(ar);
        let br = b.skip(1);
        let bn = del_count(br);
        if b.len() > 0 {
            lemma_idle_rest(b, bc, 1);
        }
        match a[0] {
            DelNode::Skip(_) => {
                if b.len() == 0 {
                    lemma_idle_defined(ar, an, b, bc);
                } else if ac > bc {
                    lemma_idle_defined(a, (ac - bc) as nat, br, bn);
                } else if ac < bc {
                    lemma_idle_rest(b, bc, (bc - ac) as nat);
                    lemma_idle_defined(ar, an, b, (bc - ac) as nat);
                } else {
                    lemma_idle_defined(ar, an, br, bn);
                }
            },
            DelNode::WithGroup(_) => {
                if b.len() == 0 {
                    lemma_idle_defined(ar, an, b, bc);
                } else if bc > 1 {
                    lemma_idle_rest(b, bc, (bc - 1) as nat);
                    lemma_idle_defined(ar, an, b, (bc - 1) as nat);
                } else {
                    lemma_idle_defined(ar, an, br, bn);
                }
            },
            DelNode::Chars(_) => {
                lemma_idle_defined(ar, an, b, bc);
            },
            DelNode::Group(_) => {
                lemma_idle_defined(ar, an, b, bc);
            },
        }
    }
}

/// Where `b` only skips, the atoms that the composition writes do to a
/// document what `a` does to it, as far as they fit it.
proof fn lemma_idle_atoms(u: Seq<Unit>, a: Seq<DelNode>, ac: nat, b: Seq<DelNode>, bc: nat)
    requires
        del_idle(del_rest(b, bc)),
        delete_applies(u, del_rest(a, ac)),
        delete_applies(u, del_del_atoms(a, ac, b, bc)),
    ensures
        delete_units(u, del_del_atoms(a, ac, b, bc)) == delete_units(u, del_rest(a, ac)),
    decreases a, b,
{
    if a.len() == 0 {
        lemma_idle_same(u, del_rest(b, bc));
    } else {
        let ar = a.skip(1);
        let an = del_count(ar);
        let br = b.skip(1);
        let bn = del_count(br);
        lemma_del_rest_whole(ar);
        if b.len() > 0 {
            lemma_idle_rest(b, bc, 1);
        }
        assert(del_rest(a, ac) =~= del_cons(del_current(a[0], ac), ar));
        match a[0] {
            DelNode::Skip(_) => {
                lemma_cons_skip(u, ac, ar);
                if b.len() == 0 {
                    let t = del_del_atoms(ar, an, b, bc);
                    lemma_cons_skip(u, ac, t);
                    lemma_idle_atoms(u.skip(ac as int), ar, an, b, bc);
                } else if ac > bc {
                    let t = del_del_atoms(a, (ac - bc) as nat, br, bn);
                    let v = u.skip(bc as int);
                    let left = (ac - bc) as nat;
                    lemma_cons_skip(u, bc, t);
                    assert(del_rest(a, left) =~= del_cons(DelNode::Skip(left), ar));
                    lemma_cons_skip(v, left, ar);
                    assert(v.skip(left as int) =~= u.skip(ac as int));
                    lemma_idle_atoms(v, a, left, br, bn);
                    assert(u.take(bc as int) + v.take(left as int) =~= u.take(ac as int));
                    assert(u.take(bc as int) + (v.take(left as int) + delete_units(
                        u.skip(ac as int),
                        ar,
                    )) =~= u.take(ac as int) + delete_units(u.skip(ac as int), ar));
                } else if ac < bc {
                    let t = del_del_atoms(ar, an, b, (bc - ac) as nat);
                    lemma_cons_skip(u, ac, t);
                    lemma_idle_rest(b, bc, (bc - ac) as nat);
                    lemma_idle_atoms(u.skip(ac as int), ar, an, b, (bc - ac) as nat);
                } else {
                    let t = del_del_atoms(ar, an, br, bn);
                    lemma_cons_skip(u, ac, t);
                    lemma_idle_atoms(u.skip(ac as int), ar, an, br, bn);
                }
            },
            DelNode::WithGroup(ga) => {
                lemma_cons_with_group(u, ga, ar);
                if b.len() == 0 {
                    let t = del_del_atoms(ar, an, b, bc);
                    lemma_cons_with_group(u, ga, t);
                    lemma_idle_atoms(u.skip(1), ar, an, b, bc);
                } else if bc > 1 {
                    let t = del_del_atoms(ar, an, b, (bc - 1) as nat);
                    lemma_cons_with_group(u, ga, t);
                    lemma_idle_rest(b, bc, (bc - 1) as nat);
                    lemma_idle_atoms(u.skip(1), ar, an, b, (bc - 1) as nat);
                } else {
                    let t = del_del_atoms(ar, an, br, bn);
                    lemma_cons_with_group(u, ga, t);
                    lemma_idle_atoms(u.skip(1), ar, an, br, bn);
                }
            },
            DelNode::Chars(_) => {
                let t = del_del_atoms(ar, an, b, bc);
                lemma_cons_chars(u, ac, ar);
                lemma_cons_chars(u, ac, t);
                lemma_idle_atoms(u.skip(ac as int), ar, an, b, bc);
            },
            DelNode::Group(g) => {
                let t = del_del_atoms(ar, an, b, bc);
                lemma_cons_group(u, g, ar);
                lemma_cons_group(u, g, t);
                lemma_idle_atoms(u.skip(1), ar, an, b, bc);
            },
        }
    }
}

/// A composition that loses nothing is defined.
proof fn lemma_faithful_defined(u: Seq<Unit>, a: Seq<DelNode>, ac: nat, b: Seq<DelNode>, bc: nat)
    requires
        del_del_faithful(u, a, ac, b, bc),
    ensures
        del_del_defined(a, ac, b, bc),
    decreases a, b,
{
    if a.len() > 0 {
        let ar = a.skip(1);
        let an = del_count(ar);
        let br = b.skip(1);
        let bn = del_count(br);
        if b.len() == 0 {
            assert(b =~= Seq::<DelNode>::empty());
            lemma_del_del_end(u, a, ac, bc);
        } else {
            match a[0] {
                DelNode::Skip(_) => {
                    match b[0] {
                        DelNode::Skip(_) | DelNode::Chars(_) => {
                            if ac > bc {
                                lemma_faithful_defined(
                                    u.skip(bc as int),
                                    a,
                                    (ac - bc) as nat,
                                    br,
                                    bn,
                                );
                            } else if ac < bc {
                                lemma_faithful_defined(
                                    u.skip(ac as int),
                                    ar,
                                    an,
                                    b,
                                    (bc - ac) as nat,
                                );
                            } else {
                                lemma_faithful_defined(u.skip(ac as int), ar, an, br, bn);
                            }
                        },
                        _ => {
                            if ac > 1 {
                                lemma_faithful_defined(u.skip(1), a, (ac - 1) as nat, br, bn);
                            } else {
                                lemma_faithful_defined(u.skip(1), ar, an, br, bn);
                            }
                        },
                    }
                },
                DelNode::WithGroup(ga) => {
                    match b[0] {
                        DelNode::Skip(_) => {
                            if bc > 1 {
                                lemma_faithful_defined(u.skip(1), ar, an, b, (bc - 1) as nat);
                            } else {
                                lemma_faithful_defined(u.skip(1), ar, an, br, bn);
                            }
                        },
                        DelNode::WithGroup(gb) => {
                            lemma_faithful_defined(
                                u[0]->Group_1,
                                ga,
                                del_count(ga),
                                gb,
                                del_count(gb),
                            );
                            lemma_faithful_defined(u.skip(1), ar, an, br, bn);
                        },
                        DelNode::Chars(_) => {},
                        DelNode::Group(_) => {
                            lemma_faithful_defined(u.skip(1), ar, an, br, bn);
                        },
                    }
                },
                DelNode::Chars(_) => {
                    lemma_faithful_defined(u.skip(ac as int), ar, an, b, bc);
                },
                DelNode::Group(g) => {
                    if delete_units(u[0]->Group_1, g).len() == 0 {
                        lemma_faithful_defined(u.skip(1), ar, an, b, bc);
                    } else {
                        lemma_idle_defined(a, ac, b, bc);
                    }
                },
            }
        }
    }
}

/// The atoms that the composition of two delete spans writes do to a
/// document what the two spans do to it in turn, where the composition
/// loses nothing and its atoms fit the document.
proof fn lemma_atoms_sound(u: Seq<Unit>, a: Seq<DelNode>, ac: nat, b: Seq<DelNode>, bc: nat)
    requires
        delete_applies(u, del_rest(a, ac)),
        delete_applies(delete_units(u, del_rest(a, ac)), del_rest(b, bc)),
        del_del_faithful(u, a, ac, b, bc),
        delete_applies(u, del_del_atoms(a, ac, b, bc)),
    ensures
        delete_units(u, del_del_atoms(a, ac, b, bc)) == delete_units(
            delete_units(u, del_rest(a, ac)),
            del_rest(b, bc),
        ),
    decreases a, b, 0nat,
{
    if a.len() > 0 {
        let ar = a.skip(1);
        let an = del_count(ar);
        let br = b.skip(1);
        let bn = del_count(br);
        lemma_del_rest_whole(ar);
        lemma_del_rest_whole(br);
        if b.len() == 0 {
            assert(b =~= Seq::<DelNode>::empty());
            let t = del_del_atoms(ar, an, b, bc);
            match a[0] {
                DelNode::Skip(_) => {
                    lemma_step_skip_end(u, ac, ar, t);
                    lemma_del_del_end(u.skip(ac as int), ar, an, bc);
                    lemma_atoms_sound(u.skip(ac as int), ar, an, b, bc);
                },
                DelNode::WithGroup(ga) => {
                    lemma_step_with_end(u, ga, ar, t);
                    lemma_del_del_end(u.skip(1), ar, an, bc);
                    lemma_atoms_sound(u.skip(1), ar, an, b, bc);
                },
                DelNode::Chars(_) => {
                    lemma_step_chars(u, ac, ar, t);
                    lemma_del_del_end(u.skip(ac as int), ar, an, bc);
                    lemma_atoms_sound(u.skip(ac as int), ar, an, b, bc);
                },
                DelNode::Group(g) => {
                    lemma_step_group(u, g, ar, del_rest(b, bc), t);
                    lemma_del_del_end(u.skip(1), ar, an, bc);
                    lemma_atoms_sound(u.skip(1), ar, an, b, bc);
                },
            }
        } else {
            match a[0] {
                DelNode::Skip(_) => {
                    match b[0] {
                        DelNode::Skip(_) => {
                            if ac > bc {
                                let t = del_del_atoms(a, (ac - bc) as nat, br, bn);
                                lemma_step_skip_skip_gt(u, ac, bc, ar, br, t);
                                lemma_atoms_sound(u.skip(bc as int), a, (ac - bc) as nat, br, bn);
                            } else if ac < bc {
                                let t = del_del_atoms(ar, an, b, (bc - ac) as nat);
                                lemma_step_skip_skip_lt(u, ac, bc, ar, br, t);
                                lemma_atoms_sound(u.skip(ac as int), ar, an, b, (bc - ac) as nat);
                            } else {
                                let t = del_del_atoms(ar, an, br, bn);
                                lemma_step_skip_skip_eq(u, ac, ar, br, t);
                                lemma_atoms_sound(u.skip(ac as int), ar, an, br, bn);
                            }
                        },
                        DelNode::Chars(_) => {
                            if ac > bc {
                                let t = del_del_atoms(a, (ac - bc) as nat, br, bn);
                                lemma_step_skip_chars_gt(u, ac, bc, ar, br, t);
                                lemma_atoms_sound(u.skip(bc as int), a, (ac - bc) as nat, br, bn);
                            } else if ac < bc {
                                let t = del_del_atoms(ar, an, b, (bc - ac) as nat);
                                lemma_step_skip_chars_lt(u, ac, bc, ar, br, t);
                                lemma_atoms_sound(u.skip(ac as int), ar, an, b, (bc - ac) as nat);
                            } else {
                                let t = del_del_atoms(ar, an, br, bn);
                                lemma_step_skip_chars_eq(u, ac, ar, br, t);
                                lemma_atoms_sound(u.skip(ac as int), ar, an, br, bn);
                            }
                        },
                        _ => {
                            if ac > 1 {
                                let t = del_del_atoms(a, (ac - 1) as nat, br, bn);
                                lemma_step_skip_group_gt(u, ac, b[0], ar, br, t);
                                lemma_atoms_sound(u.skip(1), a, (ac - 1) as nat, br, bn);
                            } else {
                                let t = del_del_atoms(ar, an, br, bn);
                                lemma_cons_skip(u, ac, ar);
                                lemma_step_skip_group_one(u, b[0], ar, br, t);
                                lemma_atoms_sound(u.skip(1), ar, an, br, bn);
                            }
                        },
                    }
                },
                DelNode::WithGroup(ga) => {
                    match b[0] {
                        DelNode::Skip(_) => {
                            if bc > 1 {
                                let t = del_del_atoms(ar, an, b, (bc - 1) as nat);
                                lemma_step_with_skip_gt(u, ga, bc, ar, br, t);
                                lemma_atoms_sound(u.skip(1), ar, an, b, (bc - 1) as nat);
                            } else {
                                let t = del_del_atoms(ar, an, br, bn);
                                lemma_cons_with_group(u, ga, ar);
                                lemma_cons_skip(
                                    delete_units(u, del_cons(DelNode::WithGroup(ga), ar)),
                                    bc,
                                    br,
                                );
                                lemma_step_with_skip_one(u, ga, ar, br, t);
                                lemma_atoms_sound(u.skip(1), ar, an, br, bn);
                            }
                        },
                        DelNode::WithGroup(gb) => {
                            let t = del_del_atoms(ar, an, br, bn);
                            let x = compose_del_del_spec(ga, gb);
                            lemma_step_with_with(u, ga, gb, x, ar, br, t);
                            lemma_delete_composition(u[0]->Group_1, ga, gb);
                            lemma_atoms_sound(u.skip(1), ar, an, br, bn);
                        },
                        DelNode::Chars(_) => {},
                        DelNode::Group(gb) => {
                            let t = del_del_atoms(ar, an, br, bn);
                            lemma_step_with_group(u, ga, gb, ar, br, t);
                            lemma_atoms_sound(u.skip(1), ar, an, br, bn);
                        },
                    }
                },
                DelNode::Chars(_) => {
                    let t = del_del_atoms(ar, an, b, bc);
                    lemma_step_chars(u, ac, ar, t);
                    lemma_atoms_sound(u.skip(ac as int), ar, an, b, bc);
                },
                DelNode::Group(g) => {
                    if delete_units(u[0]->Group_1, g).len() == 0 {
                        let t = del_del_atoms(ar, an, b, bc);
                        lemma_step_group(u, g, ar, del_rest(b, bc), t);
                        lemma_atoms_sound(u.skip(1), ar, an, b, bc);
                    } else {
                        lemma_idle_atoms(u, a, ac, b, bc);
                        lemma_idle_same(delete_units(u, del_rest(a, ac)), del_rest(b, bc));
                    }
                },
            }
        }
    }
}

/// Delete composition: where the spans `a` and `b` fit a document one
/// after the other, their composition loses nothing, and the composed
/// span fits the document, applying the composed span gives what applying
/// `a` and then `b` gives.
pub proof fn lemma_delete_composition(u: Seq<Unit>, a: Seq<DelNode>, b: Seq<DelNode>)
    requires
        delete_applies(u, a),
        delete_applies(delete_units(u, a), b),
        del_del_faithful(u, a, del_count(a), b, del_count(b)),
        delete_applies(u, compose_del_del_spec(a, b)),
    ensures
        compose_del_del_defined(a, b),
        delete_units(u, compose_del_del_spec(a, b)) == delete_units(delete_units(u, a), b),
    decreases a, b, 1nat,
{
    lemma_del_rest_whole(a);
    lemma_del_rest_whole(b);
    lemma_faithful_defined(u, a, del_count(a), b, del_count(b));
    lemma_applies_positive(u, a);
    lemma_applies_positive(delete_units(u, a), b);
    lemma_onto_unmerged(u, Seq::empty(), a, del_count(a), b, del_count(b));
    assert(Seq::<DelNode>::empty() + del_del_atoms(a, del_count(a), b, del_count(b))
        =~= del_del_atoms(a, del_count(a), b, del_count(b)));
    lemma_atoms_sound(u, a, del_count(a), b, del_count(b));
}

/// Whether every count at the top level of a span is at least one.
pub open spec fn del_positive(s: Seq<DelNode>) -> bool {
    forall|i: int|
        0 <= i < s.len() ==> match #[trigger] s[i] {
            DelNode::Skip(k) => k >= 1,
            DelNode::Chars(k) => k >= 1,
            _ => true,
        }
}

/// A span that fits a document holds no count of zero at its top level.
pub proof fn lemma_applies_positive(u: Seq<Unit>, s: Seq<DelNode>)
    requires
        delete_applies(u, s),
    ensures
        del_positive(s),
    decreases s.len(),
{
    if s.len() > 0 {
        let r = s.skip(1);
        match s[0] {
            DelNode::Skip(k) => {
                lemma_applies_positive(u.skip(k as int), r);
            },
            DelNode::Chars(k) => {
                lemma_applies_positive(u.skip(k as int), r);
            },
            _ => {
                lemma_applies_positive(u.skip(1), r);
            },
        }
        assert forall|i: int| 0 <= i < s.len() implies match #[trigger] s[i] {
            DelNode::Skip(k) => k >= 1,
            DelNode::Chars(k) => k >= 1,
            _ => true,
        } by {
            if i > 0 {
                assert(s[i] == r[i - 1]);
            }
        }
    }
}


/// A skip or a character delete of `n` units.
pub open spec fn del_count_atom(chars: bool, n: nat) -> DelNode {
    if chars {
        DelNode::Chars(n)
    } else {
        DelNode::Skip(n)
    }
}

/// Whether an atom holds no count of zero.
pub open spec fn del_atom_positive(x: DelNode) -> bool {
    match x {
        DelNode::Skip(k) => k >= 1,
        DelNode::Chars(k) => k >= 1,
        _ => true,
    }
}

/// Where a span with one atom for two counts fits a document, so does the
/// span with an atom for each, and it does the same.
proof fn lemma_merge_split(
    w: Seq<Unit>,
    front: Seq<DelNode>,
    j: nat,
    k: nat,
    chars: bool,
    t: Seq<DelNode>,
)
    requires
        j >= 1,
        k >= 1,
        delete_applies(w, front + del_cons(del_count_atom(chars, j + k), t)),
    ensures
        delete_applies(
            w,
            front + del_cons(del_count_atom(chars, j), del_cons(del_count_atom(chars, k), t)),
        ),
        delete_units(w, front + del_cons(del_count_atom(chars, j + k), t)) == delete_units(
            w,
            front + del_cons(del_count_atom(chars, j), del_cons(del_count_atom(chars, k), t)),
        ),
    decreases front.len(),
{
    let merged = del_cons(del_count_atom(chars, j + k), t);
    let split = del_cons(del_count_atom(chars, j), del_cons(del_count_atom(chars, k), t));
    if front.len() == 0 {
        assert(front + merged =~= merged);
        assert(front + split =~= split);
        let v = w.skip(j as int);
        assert(v.skip(k as int) =~= w.skip((j + k) as int));
        if chars {
            lemma_cons_chars(w, j + k, t);
            lemma_cons_chars(w, j, del_cons(DelNode::Chars(k), t));
            lemma_cons_chars(v, k, t);
            assert forall|i: int| 0 <= i < k implies #[trigger] v[i] is Char && v[i]->Char_0.1
                == v[0]->Char_0.1 by {
                assert(v[i] == w[i + j]);
                assert(v[0] == w[j as int]);
            }
        } else {
            lemma_cons_skip(w, j + k, t);
            lemma_cons_skip(w, j, del_cons(DelNode::Skip(k), t));
            lemma_cons_skip(v, k, t);
            assert(w.take((j + k) as int) =~= w.take(j as int) + v.take(k as int));
        }
    } else {
        let f = front[0];
        let fr = front.skip(1);
        assert(front + merged =~= del_cons(f, fr + merged));
        assert(front + split =~= del_cons(f, fr + split));
        match f {
            DelNode::Skip(n) => {
                lemma_cons_skip(w, n, fr + merged);
                lemma_cons_skip(w, n, fr + split);
                lemma_merge_split(w.skip(n as int), fr, j, k, chars, t);
            },
            DelNode::Chars(n) => {
                lemma_cons_chars(w, n, fr + merged);
                lemma_cons_chars(w, n, fr + split);
                lemma_merge_split(w.skip(n as int), fr, j, k, chars, t);
            },
            _ => {
                lemma_cons_group_atom(w, f, fr + merged);
                lemma_cons_group_atom(w, f, fr + split);
                lemma_merge_split(w.skip(1), fr, j, k, chars, t);
            },
        }
    }
}

/// Where a span fits a document whose last atom took up an atom that was
/// placed, so does the span with that atom appended, and it does the
/// same.
pub proof fn lemma_place_unmerge(w: Seq<Unit>, res: Seq<DelNode>, x: DelNode, t: Seq<DelNode>)
    requires
        del_positive(res),
        del_atom_positive(x),
        delete_applies(w, place_del(res, x) + t),
    ensures
        delete_applies(w, res + del_cons(x, t)),
        delete_units(w, place_del(res, x) + t) == delete_units(w, res + del_cons(x, t)),
{
    assert(res.push(x) + t =~= res + del_cons(x, t));
    if res.len() > 0 {
        let front = res.drop_last();
        let l = res.last();
        assert(del_atom_positive(res[res.len() - 1]));
        match x {
            DelNode::Chars(k) => {
                if l is Chars {
                    let j = l->Chars_0;
                    assert(place_del(res, x) + t =~= front + del_cons(DelNode::Chars(j + k), t));
                    assert(res + del_cons(x, t) =~= front + del_cons(
                        DelNode::Chars(j),
                        del_cons(DelNode::Chars(k), t),
                    ));
                    lemma_merge_split(w, front, j, k, true, t);
                }
            },
            DelNode::Skip(k) => {
                if l is Skip {
                    let j = l->Skip_0;
                    assert(place_del(res, x) + t =~= front + del_cons(DelNode::Skip(j + k), t));
                    assert(res + del_cons(x, t) =~= front + del_cons(
                        DelNode::Skip(j),
                        del_cons(DelNode::Skip(k), t),
                    ));
                    lemma_merge_split(w, front, j, k, false, t);
                }
            },
            _ => {},
        }
    }
}

/// Placing or appending an atom that holds no count of zero keeps a span
/// free of such counts.
pub proof fn lemma_positive_grow(res: Seq<DelNode>, x: DelNode)
    requires
        del_positive(res),
        del_atom_positive(x),
    ensures
        del_positive(res.push(x)),
        del_positive(place_del(res, x)),
{
    let r = place_del(res, x);
    assert forall|i: int| 0 <= i < r.len() implies del_atom_positive(#[trigger] r[i]) by {
        if i < res.len() {
            assert(del_atom_positive(res[i]));
        }
    }
    let p = res.push(x);
    assert forall|i: int| 0 <= i < p.len() implies del_atom_positive(#[trigger] p[i]) by {
        if i < res.len() {
            assert(del_atom_positive(res[i]));
        }
    }
}

/// What is left of a span that holds no count of zero holds none, with
/// any count of at least one for its first atom.
pub proof fn lemma_positive_rest(a: Seq<DelNode>, ac: nat, n: nat)
    requires
        del_positive(del_rest(a, ac)),
        a.len() > 0,
        n >= 1,
    ensures
        del_positive(del_rest(a, n)),
        del_positive(a.skip(1)),
        del_positive(del_rest(a.skip(1), del_count(a.skip(1)))),
        del_atom_positive(del_current(a[0], ac)),
{
    let r = del_rest(a, ac);
    let r2 = del_rest(a, n);
    let ar = a.skip(1);
    lemma_del_rest_whole(ar);
    assert(del_atom_positive(r[0]));
    assert forall|i: int| 0 <= i < ar.len() implies del_atom_positive(#[trigger] ar[i]) by {
        assert(ar[i] == r[i + 1]);
        assert(del_atom_positive(r[i + 1]));
    }
    assert forall|i: int| 0 <= i < r2.len() implies del_atom_positive(#[trigger] r2[i]) by {
        if i > 0 {
            assert(r2[i] == ar[i - 1]);
        }
    }
}

/// One step of the composition: the atom `x` was placed or appended, and
/// the rest of the composition does what the atoms `t` do behind it.
pub proof fn lemma_onto_step(
    w: Seq<Unit>,
    res: Seq<DelNode>,
    x: DelNode,
    placed: bool,
    t: Seq<DelNode>,
    c: Seq<DelNode>,
)
    requires
        del_positive(res),
        del_atom_positive(x),
        delete_applies(w, c),
        ({
            let r = if placed {
                place_del(res, x)
            } else {
                res.push(x)
            };
            delete_applies(w, r + t) && delete_units(w, c) == delete_units(w, r + t)
        }),
    ensures
        delete_applies(w, res + del_cons(x, t)),
        delete_units(w, c) == delete_units(w, res + del_cons(x, t)),
{
    if placed {
        lemma_place_unmerge(w, res, x, t);
    } else {
        assert(res.push(x) + t =~= res + del_cons(x, t));
    }
}

/// Where the composed span fits a document, so do the atoms that the
/// composition writes, taken one by one behind what was written before,
/// and they do the same.
proof fn lemma_onto_unmerged(
    w: Seq<Unit>,
    res: Seq<DelNode>,
    a: Seq<DelNode>,
    ac: nat,
    b: Seq<DelNode>,
    bc: nat,
)
    requires
        del_del_defined(a, ac, b, bc),
        del_positive(res),
        del_positive(del_rest(a, ac)),
        del_positive(del_rest(b, bc)),
        delete_applies(w, compose_del_del_onto(res, a, ac, b, bc)),
    ensures
        delete_applies(w, res + del_del_atoms(a, ac, b, bc)),
        delete_units(w, compose_del_del_onto(res, a, ac, b, bc)) == delete_units(
            w,
            res + del_del_atoms(a, ac, b, bc),
        ),
    decreases a, b,
{
    let c = compose_del_del_onto(res, a, ac, b, bc);
    let ar = a.skip(1);
    let an = del_count(ar);
    let br = b.skip(1);
    let bn = del_count(br);
    if a.len() == 0 {
        if b.len() == 0 {
            assert(res + del_del_atoms(a, ac, b, bc) =~= res);
        } else {
            lemma_positive_rest(b, bc, 1);
            lemma_place_unmerge(w, res, del_current(b[0], bc), br);
        }
    } else {
        lemma_positive_rest(a, ac, 1);
        if b.len() > 0 {
            lemma_positive_rest(b, bc, 1);
        } else {
            assert(b =~= Seq::<DelNode>::empty());
        }
        match a[0] {
            DelNode::Skip(_) => {
                if b.len() == 0 {
                    let x = DelNode::Skip(ac);
                    lemma_positive_grow(res, x);
                    lemma_onto_unmerged(w, place_del(res, x), ar, an, b, bc);
                    lemma_onto_step(w, res, x, true, del_del_atoms(ar, an, b, bc), c);
                } else {
                    match b[0] {
                        DelNode::Skip(_) => {
                            let x = DelNode::Skip(min_count(ac, bc));
                            lemma_positive_grow(res, x);
                            if ac > bc {
                                lemma_positive_rest(a, ac, (ac - bc) as nat);
                                lemma_onto_unmerged(w, place_del(res, x), a, (ac - bc) as nat, br, bn);
                                lemma_onto_step(
                                    w,
                                    res,
                                    x,
                                    true,
                                    del_del_atoms(a, (ac - bc) as nat, br, bn),
                                    c,
                                );
                            } else if ac < bc {
                                lemma_positive_rest(b, bc, (bc - ac) as nat);
                                lemma_onto_unmerged(w, place_del(res, x), ar, an, b, (bc - ac) as nat);
                                lemma_onto_step(
                                    w,
                                    res,
                                    x,
                                    true,
                                    del_del_atoms(ar, an, b, (bc - ac) as nat),
                                    c,
                                );
                            } else {
                                lemma_onto_unmerged(w, place_del(res, x), ar, an, br, bn);
                                lemma_onto_step(w, res, x, true, del_del_atoms(ar, an, br, bn), c);
                            }
                        },
                        DelNode::Chars(_) => {
                            let x = DelNode::Chars(min_count(ac, bc));
                            lemma_positive_grow(res, x);
                            if ac > bc {
                                lemma_positive_rest(a, ac, (ac - bc) as nat);
                                lemma_onto_unmerged(
                                    w,
                                    place_del(res, x),
                                    a,
                                    (ac - bc) as nat,
                                    br,
                                    bn,
                                );
                                lemma_onto_step(
                                    w,
                                    res,
                                    x,
                                    true,
                                    del_del_atoms(a, (ac - bc) as nat, br, bn),
                                    c,
                                );
                            } else if ac < bc {
                                lemma_positive_rest(b, bc, (bc - ac) as nat);
                                lemma_onto_unmerged(
                                    w,
                                    place_del(res, x),
                                    ar,
                                    an,
                                    b,
                                    (bc - ac) as nat,
                                );
                                lemma_onto_step(
                                    w,
                                    res,
                                    x,
                                    true,
                                    del_del_atoms(ar, an, b, (bc - ac) as nat),
                                    c,
                                );
                            } else {
                                lemma_onto_unmerged(w, place_del(res, x), ar, an, br, bn);
                                lemma_onto_step(w, res, x, true, del_del_atoms(ar, an, br, bn), c);
                            }
                        },
                        _ => {
                            let x = b[0];
                            lemma_positive_grow(res, x);
                            if ac > 1 {
                                lemma_positive_rest(a, ac, (ac - 1) as nat);
                                lemma_onto_unmerged(w, res.push(x), a, (ac - 1) as nat, br, bn);
                                lemma_onto_step(
                                    w,
                                    res,
                                    x,
                                    false,
                                    del_del_atoms(a, (ac - 1) as nat, br, bn),
                                    c,
                                );
                            } else {
                                lemma_onto_unmerged(w, res.push(x), ar, an, br, bn);
                                lemma_onto_step(w, res, x, false, del_del_atoms(ar, an, br, bn), c);
                            }
                        },
                    }
                }
            },
            DelNode::WithGroup(ga) => {
                if b.len() == 0 {
                    let x = a[0];
                    lemma_positive_grow(res, x);
                    lemma_onto_unmerged(w, res.push(x), ar, an, b, bc);
                    lemma_onto_step(w, res, x, false, del_del_atoms(ar, an, b, bc), c);
                } else {
                    match b[0] {
                        DelNode::Skip(_) => {
                            let x = a[0];
                            lemma_positive_grow(res, x);
                            if bc > 1 {
                                lemma_positive_rest(b, bc, (bc - 1) as nat);
                                lemma_onto_unmerged(w, res.push(x), ar, an, b, (bc - 1) as nat);
                                lemma_onto_step(
                                    w,
                                    res,
                                    x,
                                    false,
                                    del_del_atoms(ar, an, b, (bc - 1) as nat),
                                    c,
                                );
                            } else {
                                lemma_onto_unmerged(w, res.push(x), ar, an, br, bn);
                                lemma_onto_step(w, res, x, false, del_del_atoms(ar, an, br, bn), c);
                            }
                        },
                        DelNode::WithGroup(gb) => {
                            let x = DelNode::WithGroup(compose_del_del_spec(ga, gb));
                            lemma_positive_grow(res, x);
                            lemma_onto_unmerged(w, res.push(x), ar, an, br, bn);
                            lemma_onto_step(w, res, x, false, del_del_atoms(ar, an, br, bn), c);
                        },
                        DelNode::Chars(_) => {},
                        DelNode::Group(_) => {
                            let x = b[0];
                            lemma_positive_grow(res, x);
                            lemma_onto_unmerged(w, res.push(x), ar, an, br, bn);
                            lemma_onto_step(w, res, x, false, del_del_atoms(ar, an, br, bn), c);
                        },
                    }
                }
            },
            DelNode::Chars(_) => {
                let x = DelNode::Chars(ac);
                lemma_positive_grow(res, x);
                lemma_onto_unmerged(w, place_del(res, x), ar, an, b, bc);
                lemma_onto_step(w, res, x, true, del_del_atoms(ar, an, b, bc), c);
            },
            DelNode::Group(_) => {
                let x = a[0];
                lemma_positive_grow(res, x);
                lemma_onto_unmerged(w, res.push(x), ar, an, b, bc);
                lemma_onto_step(w, res, x, false, del_del_atoms(ar, an, b, bc), c);
            },
        }
    }
}


/// What a delete span leaves of units of one style is of that style.
pub proof fn lemma_delete_one_style(u: Seq<Unit>, s: StyleBag, d: Seq<DelNode>)
    requires
        one_style(u, s),
        delete_applies(u, d),
    ensures
        one_style(delete_units(u, d), s),
    decreases d,
{
    if d.len() > 0 {
        let r = d.skip(1);
        assert(d =~= del_cons(d[0], r));
        match d[0] {
            DelNode::Skip(k) => {
                lemma_cons_skip(u, k, r);
                lemma_one_style_parts(u, s, k as int);
                lemma_delete_one_style(u.skip(k as int), s, r);
                lemma_one_style_concat(u.take(k as int), delete_units(u.skip(k as int), r), s);
            },
            DelNode::Chars(k) => {
                lemma_cons_chars(u, k, r);
                lemma_one_style_parts(u, s, k as int);
                lemma_delete_one_style(u.skip(k as int), s, r);
            },
            DelNode::WithGroup(g) => {
                lemma_cons_with_group(u, g, r);
                lemma_one_style_parts(u, s, 1);
                assert(unit_one_style(u[0], s));
                lemma_delete_one_style(u[0]->Group_1, s, g);
                lemma_delete_one_style(u.skip(1), s, r);
                let head = seq![Unit::Group(u[0]->Group_0, delete_units(u[0]->Group_1, g))];
                assert(one_style(head, s));
                lemma_one_style_concat(head, delete_units(u.skip(1), r), s);
            },
            DelNode::Group(g) => {
                lemma_cons_group(u, g, r);
                lemma_one_style_parts(u, s, 1);
                assert(unit_one_style(u[0], s));
                lemma_delete_one_style(u[0]->Group_1, s, g);
                lemma_delete_one_style(u.skip(1), s, r);
                lemma_one_style_concat(
                    delete_units(u[0]->Group_1, g),
                    delete_units(u.skip(1), r),
                    s,
                );
            },
        }
    }
}

/// In a document of one style, the atoms that the composition of two
/// delete spans writes fit the document that the two spans fit in turn,
/// where the composition loses nothing.
proof fn lemma_atoms_fit(
    u: Seq<Unit>,
    s: StyleBag,
    a: Seq<DelNode>,
    ac: nat,
    b: Seq<DelNode>,
    bc: nat,
)
    requires
        one_style(u, s),
        delete_applies(u, del_rest(a, ac)),
        delete_applies(delete_units(u, del_rest(a, ac)), del_rest(b, bc)),
        del_del_faithful(u, a, ac, b, bc),
    ensures
        delete_applies(u, del_del_atoms(a, ac, b, bc)),
    decreases a, b, 0nat,
{
    if a.len() > 0 {
        let ar = a.skip(1);
        let an = del_count(ar);
        let br = b.skip(1);
        let bn = del_count(br);
        lemma_del_rest_whole(ar);
        lemma_del_rest_whole(br);
        lemma_one_style_parts(u, s, 0);
        if b.len() == 0 {
            assert(b =~= Seq::<DelNode>::empty());
            let t = del_del_atoms(ar, an, b, bc);
            match a[0] {
                DelNode::Skip(_) => {
                    lemma_step_skip_end(u, ac, ar, t);
                    lemma_del_del_end(u.skip(ac as int), ar, an, bc);
                    lemma_one_style_parts(u, s, ac as int);
                    lemma_atoms_fit(u.skip(ac as int), s, ar, an, b, bc);
                },
                DelNode::WithGroup(ga) => {
                    lemma_step_with_end(u, ga, ar, t);
                    lemma_del_del_end(u.skip(1), ar, an, bc);
                    lemma_one_style_parts(u, s, 1);
                    lemma_atoms_fit(u.skip(1), s, ar, an, b, bc);
                },
                DelNode::Chars(_) => {
                    lemma_step_chars(u, ac, ar, t);
                    lemma_del_del_end(u.skip(ac as int), ar, an, bc);
                    lemma_one_style_parts(u, s, ac as int);
                    lemma_atoms_fit(u.skip(ac as int), s, ar, an, b, bc);
                },
                DelNode::Group(g) => {
                    lemma_step_group(u, g, ar, del_rest(b, bc), t);
                    lemma_del_del_end(u.skip(1), ar, an, bc);
                    lemma_one_style_parts(u, s, 1);
                    lemma_atoms_fit(u.skip(1), s, ar, an, b, bc);
                },
            }
        } else {
            match a[0] {
                DelNode::Skip(_) => {
                    lemma_cons_skip(u, ac, ar);
                    match b[0] {
                        DelNode::Skip(_) => {
                            if ac > bc {
                                let t = del_del_atoms(a, (ac - bc) as nat, br, bn);
                                lemma_step_skip_skip_gt(u, ac, bc, ar, br, t);
                                lemma_one_style_parts(u, s, bc as int);
                                lemma_atoms_fit(u.skip(bc as int), s, a, (ac - bc) as nat, br, bn);
                            } else if ac < bc {
                                let t = del_del_atoms(ar, an, b, (bc - ac) as nat);
                                lemma_step_skip_skip_lt(u, ac, bc, ar, br, t);
                                lemma_one_style_parts(u, s, ac as int);
                                lemma_atoms_fit(u.skip(ac as int), s, ar, an, b, (bc - ac) as nat);
                            } else {
                                let t = del_del_atoms(ar, an, br, bn);
                                lemma_step_skip_skip_eq(u, ac, ar, br, t);
                                lemma_one_style_parts(u, s, ac as int);
                                lemma_atoms_fit(u.skip(ac as int), s, ar, an, br, bn);
                            }
                        },
                        DelNode::Chars(_) => {
                            if ac > bc {
                                let t = del_del_atoms(a, (ac - bc) as nat, br, bn);
                                lemma_step_skip_chars_gt(u, ac, bc, ar, br, t);
                                lemma_one_style_parts(u, s, bc as int);
                                lemma_atoms_fit(u.skip(bc as int), s, a, (ac - bc) as nat, br, bn);
                            } else if ac < bc {
                                let t = del_del_atoms(ar, an, b, (bc - ac) as nat);
                                lemma_step_skip_chars_lt(u, ac, bc, ar, br, t);
                                lemma_one_style_parts(u, s, ac as int);
                                lemma_atoms_fit(u.skip(ac as int), s, ar, an, b, (bc - ac) as nat);
                            } else {
                                let t = del_del_atoms(ar, an, br, bn);
                                lemma_step_skip_chars_eq(u, ac, ar, br, t);
                                lemma_one_style_parts(u, s, ac as int);
                                lemma_atoms_fit(u.skip(ac as int), s, ar, an, br, bn);
                            }
                        },
                        _ => {
                            lemma_one_style_parts(u, s, 1);
                            if ac > 1 {
                                let t = del_del_atoms(a, (ac - 1) as nat, br, bn);
                                lemma_step_skip_group_gt(u, ac, b[0], ar, br, t);
                                lemma_atoms_fit(u.skip(1), s, a, (ac - 1) as nat, br, bn);
                            } else {
                                let t = del_del_atoms(ar, an, br, bn);
                                lemma_step_skip_group_one(u, b[0], ar, br, t);
                                lemma_atoms_fit(u.skip(1), s, ar, an, br, bn);
                            }
                        },
                    }
                },
                DelNode::WithGroup(ga) => {
                    lemma_one_style_parts(u, s, 1);
                    lemma_cons_with_group(u, ga, ar);
                    match b[0] {
                        DelNode::Skip(_) => {
                            lemma_cons_skip(
                                delete_units(u, del_cons(DelNode::WithGroup(ga), ar)),
                                bc,
                                br,
                            );
                            if bc > 1 {
                                let t = del_del_atoms(ar, an, b, (bc - 1) as nat);
                                lemma_step_with_skip_gt(u, ga, bc, ar, br, t);
                                lemma_atoms_fit(u.skip(1), s, ar, an, b, (bc - 1) as nat);
                            } else {
                                let t = del_del_atoms(ar, an, br, bn);
                                lemma_step_with_skip_one(u, ga, ar, br, t);
                                lemma_atoms_fit(u.skip(1), s, ar, an, br, bn);
                            }
                        },
                        DelNode::WithGroup(gb) => {
                            let t = del_del_atoms(ar, an, br, bn);
                            let x = compose_del_del_spec(ga, gb);
                            lemma_step_with_with(u, ga, gb, x, ar, br, t);
                            assert(unit_one_style(u[0], s));
                            lemma_delete_composition_plain(u[0]->Group_1, s, ga, gb);
                            lemma_atoms_fit(u.skip(1), s, ar, an, br, bn);
                        },
                        DelNode::Chars(_) => {},
                        DelNode::Group(gb) => {
                            let t = del_del_atoms(ar, an, br, bn);
                            lemma_step_with_group(u, ga, gb, ar, br, t);
                            lemma_atoms_fit(u.skip(1), s, ar, an, br, bn);
                        },
                    }
                },
                DelNode::Chars(_) => {
                    let t = del_del_atoms(ar, an, b, bc);
                    lemma_step_chars(u, ac, ar, t);
                    lemma_cons_chars(u, ac, ar);
                    lemma_one_style_parts(u, s, ac as int);
                    lemma_atoms_fit(u.skip(ac as int), s, ar, an, b, bc);
                },
                DelNode::Group(g) => {
                    if delete_units(u[0]->Group_1, g).len() == 0 {
                        let t = del_del_atoms(ar, an, b, bc);
                        lemma_step_group(u, g, ar, del_rest(b, bc), t);
                        lemma_one_style_parts(u, s, 1);
                        lemma_atoms_fit(u.skip(1), s, ar, an, b, bc);
                    }
                },
            }
        }
    }
}

/// In a document of one style, where a span with an atom for each of two
/// counts fits, so does the span with one atom for both.
pub proof fn lemma_merge_join(
    w: Seq<Unit>,
    s: StyleBag,
    front: Seq<DelNode>,
    j: nat,
    k: nat,
    chars: bool,
    t: Seq<DelNode>,
)
    requires
        one_style(w, s),
        delete_applies(
            w,
            front + del_cons(del_count_atom(chars, j), del_cons(del_count_atom(chars, k), t)),
        ),
    ensures
        delete_applies(w, front + del_cons(del_count_atom(chars, j + k), t)),
    decreases front.len(),
{
    let merged = del_cons(del_count_atom(chars, j + k), t);
    let split = del_cons(del_count_atom(chars, j), del_cons(del_count_atom(chars, k), t));
    if front.len() == 0 {
        assert(front + merged =~= merged);
        assert(front + split =~= split);
        let v = w.skip(j as int);
        if chars {
            lemma_cons_chars(w, j + k, t);
            lemma_cons_chars(w, j, del_cons(DelNode::Chars(k), t));
            lemma_cons_chars(v, k, t);
            assert(v.skip(k as int) =~= w.skip((j + k) as int));
            lemma_one_style_parts(w, s, 0);
            assert forall|i: int| 0 <= i < j + k implies #[trigger] w[i] is Char
                && w[i]->Char_0.1 == w[0]->Char_0.1 by {
                if i >= j {
                    assert(w[i] == v[i - j]);
                }
                assert(unit_one_style(w[i], s));
                assert(unit_one_style(w[0], s));
            }
        } else {
            lemma_cons_skip(w, j + k, t);
            lemma_cons_skip(w, j, del_cons(DelNode::Skip(k), t));
            lemma_cons_skip(v, k, t);
            assert(v.skip(k as int) =~= w.skip((j + k) as int));
        }
    } else {
        let f = front[0];
        let fr = front.skip(1);
        assert(front + merged =~= del_cons(f, fr + merged));
        assert(front + split =~= del_cons(f, fr + split));
        match f {
            DelNode::Skip(n) => {
                lemma_cons_skip(w, n, fr + merged);
                lemma_cons_skip(w, n, fr + split);
                lemma_one_style_parts(w, s, n as int);
                lemma_merge_join(w.skip(n as int), s, fr, j, k, chars, t);
            },
            DelNode::Chars(n) => {
                lemma_cons_chars(w, n, fr + merged);
                lemma_cons_chars(w, n, fr + split);
                lemma_one_style_parts(w, s, n as int);
                lemma_merge_join(w.skip(n as int), s, fr, j, k, chars, t);
            },
            _ => {
                lemma_cons_group_atom(w, f, fr + merged);
                lemma_cons_group_atom(w, f, fr + split);
                lemma_one_style_parts(w, s, 1);
                lemma_merge_join(w.skip(1), s, fr, j, k, chars, t);
            },
        }
    }
}

/// In a document of one style, where a span fits with an atom appended,
/// it fits with that atom placed.
pub proof fn lemma_place_merge(
    w: Seq<Unit>,
    s: StyleBag,
    res: Seq<DelNode>,
    x: DelNode,
    placed: bool,
    t: Seq<DelNode>,
)
    requires
        one_style(w, s),
        delete_applies(w, res + del_cons(x, t)),
    ensures
        delete_applies(
            w,
            (if placed {
                place_del(res, x)
            } else {
                res.push(x)
            }) + t,
        ),
{
    assert(res.push(x) + t =~= res + del_cons(x, t));
    if placed && res.len() > 0 {
        let front = res.drop_last();
        let l = res.last();
        match x {
            DelNode::Chars(k) => {
                if l is Chars {
                    let j = l->Chars_0;
                    assert(place_del(res, x) + t =~= front + del_cons(DelNode::Chars(j + k), t));
                    assert(res + del_cons(x, t) =~= front + del_cons(
                        DelNode::Chars(j),
                        del_cons(DelNode::Chars(k), t),
                    ));
                    lemma_merge_join(w, s, front, j, k, true, t);
                }
            },
            DelNode::Skip(k) => {
                if l is Skip {
                    let j = l->Skip_0;
                    assert(place_del(res, x) + t =~= front + del_cons(DelNode::Skip(j + k), t));
                    assert(res + del_cons(x, t) =~= front + del_cons(
                        DelNode::Skip(j),
                        del_cons(DelNode::Skip(k), t),
                    ));
                    lemma_merge_join(w, s, front, j, k, false, t);
                }
            },
            _ => {},
        }
    }
}

/// In a document of one style, where the atoms that the composition
/// writes, taken one by one behind what was written before, fit the
/// document, so does the composed span.
proof fn lemma_onto_merged(
    w: Seq<Unit>,
    s: StyleBag,
    res: Seq<DelNode>,
    a: Seq<DelNode>,
    ac: nat,
    b: Seq<DelNode>,
    bc: nat,
)
    requires
        one_style(w, s),
        del_del_defined(a, ac, b, bc),
        delete_applies(w, res + del_del_atoms(a, ac, b, bc)),
    ensures
        delete_applies(w, compose_del_del_onto(res, a, ac, b, bc)),
    decreases a, b,
{
    let ar = a.skip(1);
    let an = del_count(ar);
    let br = b.skip(1);
    let bn = del_count(br);
    if a.len() == 0 {
        if b.len() == 0 {
            assert(res + del_del_atoms(a, ac, b, bc) =~= res);
        } else {
            lemma_place_merge(w, s, res, del_current(b[0], bc), true, br);
        }
    } else {
        match a[0] {
            DelNode::Skip(_) => {
                if b.len() == 0 {
                    let x = DelNode::Skip(ac);
                    lemma_place_merge(w, s, res, x, true, del_del_atoms(ar, an, b, bc));
                    lemma_onto_merged(w, s, place_del(res, x), ar, an, b, bc);
                } else {
                    match b[0] {
                        DelNode::Skip(_) => {
                            let x = DelNode::Skip(min_count(ac, bc));
                            if ac > bc {
                                let t = del_del_atoms(a, (ac - bc) as nat, br, bn);
                                lemma_place_merge(w, s, res, x, true, t);
                                lemma_onto_merged(w, s, place_del(res, x), a, (ac - bc) as nat, br, bn);
                            } else if ac < bc {
                                let t = del_del_atoms(ar, an, b, (bc - ac) as nat);
                                lemma_place_merge(w, s, res, x, true, t);
                                lemma_onto_merged(w, s, place_del(res, x), ar, an, b, (bc - ac) as nat);
                            } else {
                                let t = del_del_atoms(ar, an, br, bn);
                                lemma_place_merge(w, s, res, x, true, t);
                                lemma_onto_merged(w, s, place_del(res, x), ar, an, br, bn);
                            }
                        },
                        DelNode::Chars(_) => {
                            let x = DelNode::Chars(min_count(ac, bc));
                            if ac > bc {
                                let t = del_del_atoms(a, (ac - bc) as nat, br, bn);
                                lemma_place_merge(w, s, res, x, true, t);
                                lemma_onto_merged(
                                    w,
                                    s,
                                    place_del(res, x),
                                    a,
                                    (ac - bc) as nat,
                                    br,
                                    bn,
                                );
                            } else if ac < bc {
                                let t = del_del_atoms(ar, an, b, (bc - ac) as nat);
                                lemma_place_merge(w, s, res, x, true, t);
                                lemma_onto_merged(
                                    w,
                                    s,
                                    place_del(res, x),
                                    ar,
                                    an,
                                    b,
                                    (bc - ac) as nat,
                                );
                            } else {
                                let t = del_del_atoms(ar, an, br, bn);
                                lemma_place_merge(w, s, res, x, true, t);
                                lemma_onto_merged(w, s, place_del(res, x), ar, an, br, bn);
                            }
                        },
                        _ => {
                            let x = b[0];
                            if ac > 1 {
                                let t = del_del_atoms(a, (ac - 1) as nat, br, bn);
                                lemma_place_merge(w, s, res, x, false, t);
                                lemma_onto_merged(w, s, res.push(x), a, (ac - 1) as nat, br, bn);
                            } else {
                                let t = del_del_atoms(ar, an, br, bn);
                                lemma_place_merge(w, s, res, x, false, t);
                                lemma_onto_merged(w, s, res.push(x), ar, an, br, bn);
                            }
                        },
                    }
                }
            },
            DelNode::WithGroup(ga) => {
                if b.len() == 0 {
                    let x = a[0];
                    lemma_place_merge(w, s, res, x, false, del_del_atoms(ar, an, b, bc));
                    lemma_onto_merged(w, s, res.push(x), ar, an, b, bc);
                } else {
                    match b[0] {
                        DelNode::Skip(_) => {
                            let x = a[0];
                            if bc > 1 {
                                let t = del_del_atoms(ar, an, b, (bc - 1) as nat);
                                lemma_place_merge(w, s, res, x, false, t);
                                lemma_onto_merged(w, s, res.push(x), ar, an, b, (bc - 1) as nat);
                            } else {
                                let t = del_del_atoms(ar, an, br, bn);
                                lemma_place_merge(w, s, res, x, false, t);
                                lemma_onto_merged(w, s, res.push(x), ar, an, br, bn);
                            }
                        },
                        DelNode::WithGroup(gb) => {
                            let x = DelNode::WithGroup(compose_del_del_spec(ga, gb));
                            let t = del_del_atoms(ar, an, br, bn);
                            lemma_place_merge(w, s, res, x, false, t);
                            lemma_onto_merged(w, s, res.push(x), ar, an, br, bn);
                        },
                        DelNode::Chars(_) => {},
                        DelNode::Group(_) => {
                            let x = b[0];
                            let t = del_del_atoms(ar, an, br, bn);
                            lemma_place_merge(w, s, res, x, false, t);
                            lemma_onto_merged(w, s, res.push(x), ar, an, br, bn);
                        },
                    }
                }
            },
            DelNode::Chars(_) => {
                let x = DelNode::Chars(ac);
                let t = del_del_atoms(ar, an, b, bc);
                lemma_place_merge(w, s, res, x, true, t);
                lemma_onto_merged(w, s, place_del(res, x), ar, an, b, bc);
            },
            DelNode::Group(_) => {
                let x = a[0];
                let t = del_del_atoms(ar, an, b, bc);
                lemma_place_merge(w, s, res, x, false, t);
                lemma_onto_merged(w, s, res.push(x), ar, an, b, bc);
            },
        }
    }
}

/// Delete composition in a document of one style: where the spans `a` and
/// `b` fit the document one after the other and their composition loses
/// nothing, the composed span fits the document, and applying it gives
/// what applying `a` and then `b` gives.
pub proof fn lemma_delete_composition_plain(
    u: Seq<Unit>,
    s: StyleBag,
    a: Seq<DelNode>,
    b: Seq<DelNode>,
)
    requires
        one_style(u, s),
        delete_applies(u, a),
        delete_applies(delete_units(u, a), b),
        del_del_faithful(u, a, del_count(a), b, del_count(b)),
    ensures
        compose_del_del_defined(a, b),
        delete_applies(u, compose_del_del_spec(a, b)),
        delete_units(u, compose_del_del_spec(a, b)) == delete_units(delete_units(u, a), b),
    decreases a, b, 1nat,
{
    lemma_del_rest_whole(a);
    lemma_del_rest_whole(b);
    lemma_faithful_defined(u, a, del_count(a), b, del_count(b));
    lemma_atoms_fit(u, s, a, del_count(a), b, del_count(b));
    let t = del_del_atoms(a, del_count(a), b, del_count(b));
    assert(Seq::<DelNode>::empty() + t =~= t);
    lemma_onto_merged(u, s, Seq::empty(), a, del_count(a), b, del_count(b));
    lemma_delete_composition(u, a, b);
}

} // verus!
