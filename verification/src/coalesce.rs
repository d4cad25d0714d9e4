//! Composition keeps spans coalesced: what it writes holds no two
//! neighbours that placing would have merged.

use crate::apply::del_current;
use crate::compose::{
    add_chars_front, add_count, add_head, compose_add_add_onto, compose_add_add_spec,
    compose_add_del_onto, compose_add_del_spec, compose_del_del_onto, compose_del_del_spec,
    compose_spec, del_count, min_count,
};
use crate::doc::{AddNode, DelNode};
use crate::normalize::{add_mergeable, del_mergeable};
use crate::place::{place_add, place_del};
use vstd::prelude::*;

verus! {

/// Whether no two neighbours in a delete span would merge: no skip stands
/// next to a skip, no character delete next to a character delete.
pub open spec fn del_coalesced(s: Seq<DelNode>) -> bool {
    forall|i: int| 0 <= i < s.len() - 1 ==> !del_mergeable(#[trigger] s[i], s[i + 1])
}

/// Whether no two neighbours in an add span would merge: no skip stands
/// next to a skip, no inserted text next to inserted text of the same
/// styles.
pub open spec fn add_coalesced(s: Seq<AddNode>) -> bool {
    forall|i: int| 0 <= i < s.len() - 1 ==> !add_mergeable(#[trigger] s[i], s[i + 1])
}

/// Whether two delete atoms are of one kind.
pub open spec fn del_same_kind(x: DelNode, y: DelNode) -> bool {
    &&& x is Skip <==> y is Skip
    &&& x is Chars <==> y is Chars
}

/// Whether two add atoms merge with the same neighbours: both are skips,
/// both are inserted text of the same styles, or neither is a skip or
/// inserted text.
pub open spec fn add_same_kind(x: AddNode, y: AddNode) -> bool {
    &&& x is Skip <==> y is Skip
    &&& x is Chars <==> y is Chars
    &&& x is Chars ==> x->Chars_0.styles == y->Chars_0.styles
}

/// Placing an atom keeps a delete span coalesced; the span then ends with
/// an atom of the kind that was placed.
pub proof fn lemma_place_del_coalesced(s: Seq<DelNode>, n: DelNode)
    requires
        del_coalesced(s),
    ensures
        del_coalesced(place_del(s, n)),
        place_del(s, n).len() > 0,
        del_same_kind(place_del(s, n).last(), n),
{
    let r = place_del(s, n);
    assert forall|i: int| 0 <= i < r.len() - 1 implies !del_mergeable(#[trigger] r[i], r[i + 1]) by {
        if i < s.len() - 1 {
            assert(!del_mergeable(s[i], s[i + 1]));
        }
    }
}

/// Placing an atom keeps an add span coalesced; the span then ends with an
/// atom of the kind that was placed.
pub proof fn lemma_place_add_coalesced(s: Seq<AddNode>, n: AddNode)
    requires
        add_coalesced(s),
    ensures
        add_coalesced(place_add(s, n)),
        place_add(s, n).len() > 0,
        add_same_kind(place_add(s, n).last(), n),
{
    let r = place_add(s, n);
    assert forall|i: int| 0 <= i < r.len() - 1 implies !add_mergeable(#[trigger] r[i], r[i + 1]) by {
        if i < s.len() - 1 {
            assert(!add_mergeable(s[i], s[i + 1]));
        }
    }
}

/// What is left of a coalesced delete span behind its first atom is
/// coalesced.
pub proof fn lemma_del_coalesced_rest(s: Seq<DelNode>)
    requires
        del_coalesced(s),
        s.len() > 0,
    ensures
        del_coalesced(s.skip(1)),
{
    let t = s.skip(1);
    assert forall|i: int| 0 <= i < t.len() - 1 implies !del_mergeable(#[trigger] t[i], t[i + 1]) by {
        assert(t[i] == s[i + 1]);
        assert(t[i + 1] == s[i + 1 + 1]);
        assert(!del_mergeable(s[i + 1], s[i + 1 + 1]));
    }
}

/// What is left of a coalesced add span behind its first atom is
/// coalesced.
pub proof fn lemma_add_coalesced_rest(s: Seq<AddNode>)
    requires
        add_coalesced(s),
        s.len() > 0,
    ensures
        add_coalesced(s.skip(1)),
{
    let t = s.skip(1);
    assert forall|i: int| 0 <= i < t.len() - 1 implies !add_mergeable(#[trigger] t[i], t[i + 1]) by {
        assert(t[i] == s[i + 1]);
        assert(t[i + 1] == s[i + 1 + 1]);
        assert(!add_mergeable(s[i + 1], s[i + 1 + 1]));
    }
}

/// A coalesced delete span stays coalesced when the first atom of a
/// coalesced span, or one of its kind, is placed at its end and the rest
/// of that span follows.
pub proof fn lemma_del_coalesced_tail(res: Seq<DelNode>, x: DelNode, b: Seq<DelNode>)
    requires
        del_coalesced(res),
        del_coalesced(b),
        b.len() > 0,
        del_same_kind(x, b[0]),
    ensures
        del_coalesced(place_del(res, x) + b.skip(1)),
{
    let p = place_del(res, x);
    let t = b.skip(1);
    let r = p + t;
    lemma_place_del_coalesced(res, x);
    lemma_del_coalesced_rest(b);
    assert forall|i: int| 0 <= i < r.len() - 1 implies !del_mergeable(#[trigger] r[i], r[i + 1]) by {
        if i < p.len() - 1 {
            assert(!del_mergeable(p[i], p[i + 1]));
        } else if i == p.len() - 1 {
            assert(r[i] == p.last());
            assert(r[i + 1] == t[0]);
            assert(t[0] == b[1]);
            assert(!del_mergeable(b[0], b[0int + 1]));
        } else {
            assert(r[i] == t[i - p.len()]);
            assert(r[i + 1] == t[i - p.len() + 1]);
            assert(!del_mergeable(t[i - p.len()], t[i - p.len() + 1]));
        }
    }
}

/// A coalesced add span stays coalesced when the first atom of a
/// coalesced span, or one of its kind, is placed at its end and the rest
/// of that span follows.
pub proof fn lemma_add_coalesced_tail(res: Seq<AddNode>, x: AddNode, a: Seq<AddNode>)
    requires
        add_coalesced(res),
        add_coalesced(a),
        a.len() > 0,
        add_same_kind(x, a[0]),
    ensures
        add_coalesced(place_add(res, x) + a.skip(1)),
{
    let p = place_add(res, x);
    let t = a.skip(1);
    let r = p + t;
    lemma_place_add_coalesced(res, x);
    lemma_add_coalesced_rest(a);
    assert forall|i: int| 0 <= i < r.len() - 1 implies !add_mergeable(#[trigger] r[i], r[i + 1]) by {
        if i < p.len() - 1 {
            assert(!add_mergeable(p[i], p[i + 1]));
        } else if i == p.len() - 1 {
            assert(r[i] == p.last());
            assert(r[i + 1] == t[0]);
            assert(t[0] == a[1]);
            assert(!add_mergeable(a[0], a[0int + 1]));
        } else {
            assert(r[i] == t[i - p.len()]);
            assert(r[i + 1] == t[i - p.len() + 1]);
            assert(!add_mergeable(t[i - p.len()], t[i - p.len() + 1]));
        }
    }
}

/// The composition of two delete spans, continued behind a coalesced
/// span, is coalesced where the second span is.
pub proof fn lemma_del_del_coalesced(
    res: Seq<DelNode>,
    a: Seq<DelNode>,
    ac: nat,
    b: Seq<DelNode>,
    bc: nat,
)
    requires
        del_coalesced(res),
        del_coalesced(b),
    ensures
        del_coalesced(compose_del_del_onto(res, a, ac, b, bc)),
    decreases a, b,
{
    let ar = a.skip(1);
    let an = del_count(ar);
    let br = b.skip(1);
    let bn = del_count(br);
    if b.len() > 0 {
        lemma_del_coalesced_rest(b);
    }
    if a.len() == 0 {
        if b.len() > 0 {
            lemma_del_coalesced_tail(res, del_current(b[0], bc), b);
        }
    } else {
        match a[0] {
            DelNode::Skip(_) => {
                if b.len() == 0 {
                    lemma_place_del_coalesced(res, DelNode::Skip(ac));
                    lemma_del_del_coalesced(place_del(res, DelNode::Skip(ac)), ar, an, b, bc);
                } else {
                    match b[0] {
                        DelNode::Skip(_) => {
                            let x = DelNode::Skip(min_count(ac, bc));
                            lemma_place_del_coalesced(res, x);
                            if ac > bc {
                                lemma_del_del_coalesced(
                                    place_del(res, x),
                                    a,
                                    (ac - bc) as nat,
                                    br,
                                    bn,
                                );
                            } else if ac < bc {
                                lemma_del_del_coalesced(
                                    place_del(res, x),
                                    ar,
                                    an,
                                    b,
                                    (bc - ac) as nat,
                                );
                            } else {
                                lemma_del_del_coalesced(place_del(res, x), ar, an, br, bn);
                            }
                        },
                        DelNode::Chars(_) => {
                            let x = DelNode::Chars(min_count(ac, bc));
                            lemma_place_del_coalesced(res, x);
                            if ac > bc {
                                lemma_del_del_coalesced(
                                    place_del(res, x),
                                    a,
                                    (ac - bc) as nat,
                                    br,
                                    bn,
                                );
                            } else if ac < bc {
                                lemma_del_del_coalesced(
                                    place_del(res, x),
                                    ar,
                                    an,
                                    b,
                                    (bc - ac) as nat,
                                );
                            } else {
                                lemma_del_del_coalesced(place_del(res, x), ar, an, br, bn);
                            }
                        },
                        _ => {
                            lemma_place_del_coalesced(res, b[0]);
                            if ac > 1 {
                                lemma_del_del_coalesced(res.push(b[0]), a, (ac - 1) as nat, br, bn);
                            } else {
                                lemma_del_del_coalesced(res.push(b[0]), ar, an, br, bn);
                            }
                        },
                    }
                }
            },
            DelNode::WithGroup(ga) => {
                lemma_place_del_coalesced(res, a[0]);
                if b.len() == 0 {
                    lemma_del_del_coalesced(res.push(a[0]), ar, an, b, bc);
                } else {
                    match b[0] {
                        DelNode::Skip(_) => {
                            if bc > 1 {
                                lemma_del_del_coalesced(res.push(a[0]), ar, an, b, (bc - 1) as nat);
                            } else {
                                lemma_del_del_coalesced(res.push(a[0]), ar, an, br, bn);
                            }
                        },
                        DelNode::WithGroup(gb) => {
                            let x = DelNode::WithGroup(compose_del_del_spec(ga, gb));
                            lemma_place_del_coalesced(res, x);
                            lemma_del_del_coalesced(res.push(x), ar, an, br, bn);
                        },
                        DelNode::Chars(_) => {},
                        DelNode::Group(_) => {
                            lemma_place_del_coalesced(res, b[0]);
                            lemma_del_del_coalesced(res.push(b[0]), ar, an, br, bn);
                        },
                    }
                }
            },
            DelNode::Chars(_) => {
                lemma_place_del_coalesced(res, DelNode::Chars(ac));
                lemma_del_del_coalesced(place_del(res, DelNode::Chars(ac)), ar, an, b, bc);
            },
            DelNode::Group(_) => {
                lemma_place_del_coalesced(res, a[0]);
                lemma_del_del_coalesced(res.push(a[0]), ar, an, b, bc);
            },
        }
    }
}

/// The composition of two add spans, continued behind a coalesced span,
/// is coalesced where the first span is.
pub proof fn lemma_add_add_coalesced(
    res: Seq<AddNode>,
    a: Seq<AddNode>,
    ac: nat,
    b: Seq<AddNode>,
    bc: nat,
)
    requires
        add_coalesced(res),
        add_coalesced(a),
    ensures
        add_coalesced(compose_add_add_onto(res, a, ac, b, bc)),
    decreases b, a,
{
    let ar = a.skip(1);
    let an = add_count(ar);
    let br = b.skip(1);
    let bn = add_count(br);
    if a.len() > 0 {
        lemma_add_coalesced_rest(a);
    }
    if b.len() == 0 {
        if a.len() > 0 {
            lemma_add_coalesced_tail(res, add_head(a[0], ac), a);
        }
    } else {
        match b[0] {
            AddNode::Chars(_) => {
                lemma_place_add_coalesced(res, b[0]);
                lemma_add_add_coalesced(place_add(res, b[0]), a, ac, br, bn);
            },
            AddNode::Skip(_) => {
                if a.len() > 0 {
                    match a[0] {
                        AddNode::Chars(_) => {
                            if bc < ac {
                                let x = add_chars_front(add_head(a[0], ac), bc);
                                lemma_place_add_coalesced(res, x);
                                lemma_add_add_coalesced(
                                    place_add(res, x),
                                    a,
                                    (ac - bc) as nat,
                                    br,
                                    bn,
                                );
                            } else if bc > ac {
                                let x = add_head(a[0], ac);
                                lemma_place_add_coalesced(res, x);
                                lemma_add_add_coalesced(
                                    place_add(res, x),
                                    ar,
                                    an,
                                    b,
                                    (bc - ac) as nat,
                                );
                            } else {
                                let x = add_head(a[0], ac);
                                lemma_place_add_coalesced(res, x);
                                lemma_add_add_coalesced(place_add(res, x), ar, an, br, bn);
                            }
                        },
                        AddNode::Skip(_) => {
                            let x = AddNode::Skip(min_count(ac, bc));
                            lemma_place_add_coalesced(res, x);
                            if ac > bc {
                                lemma_add_add_coalesced(
                                    place_add(res, x),
                                    a,
                                    (ac - bc) as nat,
                                    br,
                                    bn,
                                );
                            } else if ac < bc {
                                lemma_add_add_coalesced(
                                    place_add(res, x),
                                    ar,
                                    an,
                                    b,
                                    (bc - ac) as nat,
                                );
                            } else {
                                lemma_add_add_coalesced(place_add(res, x), ar, an, br, bn);
                            }
                        },
                        AddNode::WithGroup(_) => {
                            lemma_place_add_coalesced(res, a[0]);
                            if bc > 1 {
                                lemma_add_add_coalesced(res.push(a[0]), ar, an, b, (bc - 1) as nat);
                            } else {
                                lemma_add_add_coalesced(res.push(a[0]), ar, an, br, bn);
                            }
                        },
                        _ => {},
                    }
                }
            },
            AddNode::WithGroup(gb) => {
                if a.len() > 0 {
                    match a[0] {
                        AddNode::Skip(_) => {
                            lemma_place_add_coalesced(res, b[0]);
                            if ac > 1 {
                                lemma_add_add_coalesced(res.push(b[0]), a, (ac - 1) as nat, br, bn);
                            } else {
                                lemma_add_add_coalesced(res.push(b[0]), ar, an, br, bn);
                            }
                        },
                        AddNode::WithGroup(ga) => {
                            let x = AddNode::WithGroup(compose_add_add_spec(ga, gb));
                            lemma_place_add_coalesced(res, x);
                            lemma_add_add_coalesced(res.push(x), ar, an, br, bn);
                        },
                        _ => {},
                    }
                }
            },
            _ => {},
        }
    }
}

/// The composition of an add span with a delete span, continued behind
/// two coalesced spans, writes a coalesced delete span, and a coalesced
/// add span where the add span it reads is coalesced.
pub proof fn lemma_add_del_coalesced(
    dres: Seq<DelNode>,
    ares: Seq<AddNode>,
    a: Seq<AddNode>,
    ac: nat,
    b: Seq<DelNode>,
    bc: nat,
)
    requires
        del_coalesced(dres),
        add_coalesced(ares),
    ensures
        del_coalesced(compose_add_del_onto(dres, ares, a, ac, b, bc).0),
        add_coalesced(a) ==> add_coalesced(compose_add_del_onto(dres, ares, a, ac, b, bc).1),
    decreases b, a,
{
    let ar = a.skip(1);
    let an = add_count(ar);
    let br = b.skip(1);
    let bn = del_count(br);
    if a.len() > 0 && add_coalesced(a) {
        lemma_add_coalesced_rest(a);
    }
    if b.len() == 0 {
        if a.len() > 0 && add_coalesced(a) {
            lemma_add_coalesced_tail(ares, add_head(a[0], ac), a);
        }
    } else if a.len() > 0 {
        match b[0] {
            DelNode::Chars(_) => match a[0] {
                AddNode::Chars(_) => {
                    if bc < ac {
                        lemma_add_del_coalesced(dres, ares, a, (ac - bc) as nat, br, bn);
                    } else if bc > ac {
                        lemma_add_del_coalesced(dres, ares, ar, an, b, (bc - ac) as nat);
                    } else {
                        lemma_add_del_coalesced(dres, ares, ar, an, br, bn);
                    }
                },
                AddNode::Skip(_) => {
                    let x = DelNode::Chars(min_count(ac, bc));
                    lemma_place_del_coalesced(dres, x);
                    if bc < ac {
                        lemma_add_del_coalesced(
                            place_del(dres, x),
                            ares,
                            a,
                            (ac - bc) as nat,
                            br,
                            bn,
                        );
                    } else if bc > ac {
                        lemma_add_del_coalesced(
                            place_del(dres, x),
                            ares,
                            ar,
                            an,
                            b,
                            (bc - ac) as nat,
                        );
                    } else {
                        lemma_add_del_coalesced(place_del(dres, x), ares, ar, an, br, bn);
                    }
                },
                _ => {},
            },
            DelNode::Skip(_) => match a[0] {
                AddNode::Chars(_) => {
                    if bc < ac {
                        let x = add_chars_front(add_head(a[0], ac), bc);
                        lemma_place_add_coalesced(ares, x);
                        lemma_add_del_coalesced(
                            dres,
                            place_add(ares, x),
                            a,
                            (ac - bc) as nat,
                            br,
                            bn,
                        );
                    } else if bc > ac {
                        let x = add_head(a[0], ac);
                        lemma_place_add_coalesced(ares, x);
                        lemma_add_del_coalesced(
                            dres,
                            place_add(ares, x),
                            ar,
                            an,
                            b,
                            (bc - ac) as nat,
                        );
                    } else {
                        let x = add_head(a[0], ac);
                        lemma_place_add_coalesced(ares, x);
                        lemma_add_del_coalesced(dres, place_add(ares, x), ar, an, br, bn);
                    }
                },
                AddNode::Skip(_) => {
                    let n = min_count(ac, bc);
                    let xd = DelNode::Skip(n);
                    let xa = AddNode::Skip(n);
                    lemma_place_del_coalesced(dres, xd);
                    lemma_place_add_coalesced(ares, xa);
                    if ac > bc {
                        lemma_add_del_coalesced(
                            place_del(dres, xd),
                            place_add(ares, xa),
                            a,
                            (ac - bc) as nat,
                            br,
                            bn,
                        );
                    } else if ac < bc {
                        lemma_add_del_coalesced(
                            place_del(dres, xd),
                            place_add(ares, xa),
                            ar,
                            an,
                            b,
                            (bc - ac) as nat,
                        );
                    } else {
                        lemma_add_del_coalesced(
                            place_del(dres, xd),
                            place_add(ares, xa),
                            ar,
                            an,
                            br,
                            bn,
                        );
                    }
                },
                AddNode::WithGroup(_) => {
                    lemma_place_add_coalesced(ares, a[0]);
                    if bc > 1 {
                        lemma_add_del_coalesced(dres, ares.push(a[0]), ar, an, b, (bc - 1) as nat);
                    } else {
                        lemma_add_del_coalesced(dres, ares.push(a[0]), ar, an, br, bn);
                    }
                },
                _ => {},
            },
            _ => {},
        }
    }
}

/// Coalescence of delete composition: where the second span holds no
/// neighbours that would merge, neither does the composed span.
pub proof fn lemma_compose_del_del_coalesced(a: Seq<DelNode>, b: Seq<DelNode>)
    requires
        del_coalesced(b),
    ensures
        del_coalesced(compose_del_del_spec(a, b)),
{
    lemma_del_del_coalesced(Seq::empty(), a, del_count(a), b, del_count(b));
}

/// Coalescence of add composition: where the first span holds no
/// neighbours that would merge, neither does the composed span.
pub proof fn lemma_compose_add_add_coalesced(a: Seq<AddNode>, b: Seq<AddNode>)
    requires
        add_coalesced(a),
    ensures
        add_coalesced(compose_add_add_spec(a, b)),
{
    lemma_add_add_coalesced(Seq::empty(), a, add_count(a), b, add_count(b));
}

/// Coalescence of the composition of an add span with a delete span: the
/// delete span that comes out holds no neighbours that would merge, and
/// neither does the add span where the add span that went in held none.
pub proof fn lemma_compose_add_del_coalesced(a: Seq<AddNode>, b: Seq<DelNode>)
    ensures
        del_coalesced(compose_add_del_spec(a, b).0),
        add_coalesced(a) ==> add_coalesced(compose_add_del_spec(a, b).1),
{
    lemma_add_del_coalesced(Seq::empty(), Seq::empty(), a, add_count(a), b, del_count(b));
}

/// Coalescence of composition: the delete span of a composed operation
/// holds no neighbours that would merge, and neither does its add span
/// where the add span of the first operation held none.
pub proof fn lemma_compose_coalesced(
    a: (Seq<DelNode>, Seq<AddNode>),
    b: (Seq<DelNode>, Seq<AddNode>),
)
    ensures
        del_coalesced(compose_spec(a, b).0),
        add_coalesced(a.1) ==> add_coalesced(compose_spec(a, b).1),
{
    let m = compose_add_del_spec(a.1, b.0);
    lemma_compose_add_del_coalesced(a.1, b.0);
    lemma_compose_del_del_coalesced(a.0, m.0);
    if add_coalesced(a.1) {
        lemma_compose_add_add_coalesced(m.1, b.1);
    }
}

} // verus!
