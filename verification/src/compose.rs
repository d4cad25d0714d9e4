//! Composing two operations that are applied one after the other into a
//! single operation.

use crate::apply::del_current;
use crate::coalesce::{
    add_coalesced, del_coalesced, lemma_compose_add_add_coalesced,
    lemma_compose_add_del_coalesced, lemma_compose_del_del_coalesced,
};
use crate::doc::{group_views, AddElement, AddNode, AddSpan, DelElement, DelNode, DelSpan, Op, Text};
use crate::place::{
    add_node_weight, add_place_any, add_place_skip, add_weight, del_node_weight, del_place_any,
    del_place_skip, del_weight,
    lemma_add_weight_concat, lemma_add_weight_head, lemma_del_weight_concat, lemma_del_weight_head,
    lemma_place_add_weight, lemma_place_del_weight, place_add, place_del,
};
use vstd::prelude::*;

verus! {

broadcast use {vstd::group_vstd_default, group_views};

/// The count of the first atom of a delete span; zero where the span is
/// empty or begins with a group atom.
pub open spec fn del_count(a: Seq<DelNode>) -> nat {
    if a.len() > 0 {
        match a[0] {
            DelNode::Skip(k) => k,
            DelNode::Chars(k) => k,
            _ => 0,
        }
    } else {
        0
    }
}

/// The smaller of two counts.
pub open spec fn min_count(x: nat, y: nat) -> nat {
    if x <= y {
        x
    } else {
        y
    }
}

/// The composition of two delete spans, continued: `res` is what has been
/// written, `a` and `b` are what is left of the two spans, and `ac`, `bc`
/// are the counts still to be served of their first atoms.
///
/// `b` speaks of the document that `a` has left. A skip of `a` lets `b`
/// act: its skips stay skips, its deletes and group atoms are taken over.
/// A delete of `a` comes before whatever `b` does next. When `a` ends,
/// what is left of `b` follows. Every skip and every character delete is
/// placed, so that it joins a neighbour of its kind.
pub open spec fn compose_del_del_onto(
    res: Seq<DelNode>,
    a: Seq<DelNode>,
    ac: nat,
    b: Seq<DelNode>,
    bc: nat,
) -> Seq<DelNode>
    decreases a, b,
{
    if a.len() == 0 {
        if b.len() == 0 {
            res
        } else {
            place_del(res, del_current(b[0], bc)) + b.skip(1)
        }
    } else {
        let ar = a.skip(1);
        let an = del_count(ar);
        let br = b.skip(1);
        let bn = del_count(br);
        match a[0] {
            DelNode::Skip(_) => if b.len() == 0 {
                compose_del_del_onto(place_del(res, DelNode::Skip(ac)), ar, an, b, bc)
            } else {
                match b[0] {
                    DelNode::Skip(_) => if ac > bc {
                        compose_del_del_onto(
                            place_del(res, DelNode::Skip(bc)),
                            a,
                            (ac - bc) as nat,
                            br,
                            bn,
                        )
                    } else if ac < bc {
                        compose_del_del_onto(
                            place_del(res, DelNode::Skip(ac)),
                            ar,
                            an,
                            b,
                            (bc - ac) as nat,
                        )
                    } else {
                        compose_del_del_onto(place_del(res, DelNode::Skip(ac)), ar, an, br, bn)
                    },
                    DelNode::Chars(_) => if ac > bc {
                        compose_del_del_onto(
                            place_del(res, DelNode::Chars(bc)),
                            a,
                            (ac - bc) as nat,
                            br,
                            bn,
                        )
                    } else if ac < bc {
                        compose_del_del_onto(
                            place_del(res, DelNode::Chars(ac)),
                            ar,
                            an,
                            b,
                            (bc - ac) as nat,
                        )
                    } else {
                        compose_del_del_onto(place_del(res, DelNode::Chars(ac)), ar, an, br, bn)
                    },
                    _ => if ac > 1 {
                        compose_del_del_onto(res.push(b[0]), a, (ac - 1) as nat, br, bn)
                    } else {
                        compose_del_del_onto(res.push(b[0]), ar, an, br, bn)
                    },
                }
            },
            DelNode::WithGroup(ga) => if b.len() == 0 {
                compose_del_del_onto(res.push(a[0]), ar, an, b, bc)
            } else {
                match b[0] {
                    DelNode::Skip(_) => if bc > 1 {
                        compose_del_del_onto(res.push(a[0]), ar, an, b, (bc - 1) as nat)
                    } else {
                        compose_del_del_onto(res.push(a[0]), ar, an, br, bn)
                    },
                    DelNode::WithGroup(gb) => compose_del_del_onto(
                        res.push(
                            DelNode::WithGroup(
                                compose_del_del_onto(
                                    Seq::empty(),
                                    ga,
                                    del_count(ga),
                                    gb,
                                    del_count(gb),
                                ),
                            ),
                        ),
                        ar,
                        an,
                        br,
                        bn,
                    ),
                    DelNode::Chars(_) => res,
                    DelNode::Group(_) => compose_del_del_onto(res.push(b[0]), ar, an, br, bn),
                }
            },
            DelNode::Chars(_) => compose_del_del_onto(
                place_del(res, DelNode::Chars(ac)),
                ar,
                an,
                b,
                bc,
            ),
            DelNode::Group(_) => compose_del_del_onto(res.push(a[0]), ar, an, b, bc),
        }
    }
}

/// Whether the composition of two delete spans is defined from here on:
/// no descent into a group of `a` meets a character delete of `b`.
pub open spec fn del_del_defined(a: Seq<DelNode>, ac: nat, b: Seq<DelNode>, bc: nat) -> bool
    decreases a, b,
{
    if a.len() == 0 {
        true
    } else {
        let ar = a.skip(1);
        let an = del_count(ar);
        let br = b.skip(1);
        let bn = del_count(br);
        match a[0] {
            DelNode::Skip(_) => if b.len() == 0 {
                del_del_defined(ar, an, b, bc)
            } else {
                match b[0] {
                    DelNode::Skip(_) | DelNode::Chars(_) => if ac > bc {
                        del_del_defined(a, (ac - bc) as nat, br, bn)
                    } else if ac < bc {
                        del_del_defined(ar, an, b, (bc - ac) as nat)
                    } else {
                        del_del_defined(ar, an, br, bn)
                    },
                    _ => if ac > 1 {
                        del_del_defined(a, (ac - 1) as nat, br, bn)
                    } else {
                        del_del_defined(ar, an, br, bn)
                    },
                }
            },
            DelNode::WithGroup(ga) => if b.len() == 0 {
                del_del_defined(ar, an, b, bc)
            } else {
                match b[0] {
                    DelNode::Skip(_) => if bc > 1 {
                        del_del_defined(ar, an, b, (bc - 1) as nat)
                    } else {
                        del_del_defined(ar, an, br, bn)
                    },
                    DelNode::WithGroup(gb) => del_del_defined(
                        ga,
                        del_count(ga),
                        gb,
                        del_count(gb),
                    ) && del_del_defined(ar, an, br, bn),
                    DelNode::Chars(_) => false,
                    DelNode::Group(_) => del_del_defined(ar, an, br, bn),
                }
            },
            DelNode::Chars(_) => del_del_defined(ar, an, b, bc),
            DelNode::Group(_) => del_del_defined(ar, an, b, bc),
        }
    }
}

/// The composition of the delete spans `a` and `b`, where `b` speaks of
/// the document that `a` has left.
pub open spec fn compose_del_del_spec(a: Seq<DelNode>, b: Seq<DelNode>) -> Seq<DelNode> {
    compose_del_del_onto(Seq::empty(), a, del_count(a), b, del_count(b))
}

/// Whether the composition of the delete spans `a` and `b` is defined.
pub open spec fn compose_del_del_defined(a: Seq<DelNode>, b: Seq<DelNode>) -> bool {
    del_del_defined(a, del_count(a), b, del_count(b))
}


/// The weight of what is left of a delete span whose first atom has `ac`
/// still to be served.
pub open spec fn del_weight_from(a: Seq<DelNode>, ac: nat) -> nat {
    if a.len() == 0 {
        0
    } else {
        del_node_weight(del_current(a[0], ac)) + del_weight(a.skip(1))
    }
}

/// With its first atom's own count, what is left weighs what it weighs.
proof fn lemma_del_weight_from(a: Seq<DelNode>)
    ensures
        del_weight_from(a, del_count(a)) == del_weight(a),
{
    if a.len() > 0 {
        lemma_del_weight_head(a);
    }
}

/// A cursor over a delete span. Its current atom may be partly consumed:
/// `count` is what is still to be served of it.
struct DelSlice<'a> {
    span: &'a Vec<DelElement>,
    pos: usize,
    count: usize,
}

impl<'a> DelSlice<'a> {
    /// What is left of the span, the current atom first.
    spec fn rest(&self) -> Seq<DelNode> {
        self.span.deep_view().skip(self.pos as int)
    }

    /// The cursor stands within its span.
    spec fn wf(&self) -> bool {
        self.pos <= self.span.len()
    }

    /// The count of the atom at `pos`, zero for a group atom or at the end.
    fn count_at(span: &Vec<DelElement>, pos: usize) -> (res: usize)
        requires
            pos <= span.len(),
        ensures
            res == del_count(span.deep_view().skip(pos as int)),
    {
        if pos < span.len() {
            match &span[pos] {
                DelElement::DelSkip(n) => *n,
                DelElement::DelChars(n) => *n,
                _ => 0,
            }
        } else {
            0
        }
    }

    /// A cursor at the start of `span`.
    fn new(span: &'a Vec<DelElement>) -> (res: DelSlice<'a>)
        ensures
            res.wf(),
            res.span == span,
            res.pos == 0,
            res.count == del_count(span.deep_view()),
    {
        proof {
            assert(span.deep_view().skip(0) =~= span.deep_view());
        }
        DelSlice { span, pos: 0, count: Self::count_at(span, 0) }
    }

    /// The current atom, with what is still to be served of it.
    fn get_head(&self) -> (res: DelElement)
        requires
            self.wf(),
            self.pos < self.span.len(),
        ensures
            res.deep_view() == del_current(self.rest()[0], self.count as nat),
    {
        match &self.span[self.pos] {
            DelElement::DelSkip(_) => DelElement::DelSkip(self.count),
            DelElement::DelChars(_) => DelElement::DelChars(self.count),
            other => other.clone(),
        }
    }

    /// Gives the current atom and moves to the next one.
    fn next(&mut self) -> (res: DelElement)
        requires
            old(self).wf(),
            old(self).pos < old(self).span.len(),
        ensures
            final(self).wf(),
            final(self).span == old(self).span,
            final(self).pos == old(self).pos + 1,
            final(self).count == del_count(final(self).rest()),
            res.deep_view() == del_current(old(self).rest()[0], old(self).count as nat),
    {
        let res = self.get_head();
        self.pos = self.pos + 1;
        self.count = Self::count_at(self.span, self.pos);
        res
    }

    /// Whether the span is exhausted.
    fn is_done(&self) -> (res: bool)
        requires
            self.wf(),
        ensures
            res == (self.pos == self.span.len()),
            res == (self.rest().len() == 0),
    {
        self.pos == self.span.len()
    }
}

/// Composes two delete spans: the result deletes from a document what
/// `avec` deletes from it and then what `bvec` deletes from what is left.
#[verifier::rlimit(60)]
pub fn compose_del_del(avec: &DelSpan, bvec: &DelSpan) -> (res: DelSpan)
    requires
        compose_del_del_defined(avec.deep_view(), bvec.deep_view()),
        del_weight(avec.deep_view()) + del_weight(bvec.deep_view()) <= usize::MAX,
    ensures
        res.deep_view() == compose_del_del_spec(avec.deep_view(), bvec.deep_view()),
        del_weight(res.deep_view()) <= del_weight(avec.deep_view()) + del_weight(
            bvec.deep_view(),
        ),
        del_coalesced(bvec.deep_view()) ==> del_coalesced(res.deep_view()),
    decreases avec, bvec,
{
    let ghost av = avec.deep_view();
    let ghost bv = bvec.deep_view();
    let ghost goal = compose_del_del_spec(av, bv);
    let ghost total = del_weight(av) + del_weight(bv);
    let mut res: Vec<DelElement> = Vec::new();
    let mut a = DelSlice::new(avec);
    let mut b = DelSlice::new(bvec);
    proof {
        assert(av.skip(0) =~= av);
        assert(bv.skip(0) =~= bv);
        assert(res.deep_view() =~= Seq::<DelNode>::empty());
        lemma_del_weight_from(av);
        lemma_del_weight_from(bv);
    }
    while !a.is_done()
        invariant
            av == avec.deep_view(),
            bv == bvec.deep_view(),
            total == del_weight(av) + del_weight(bv),
            total <= usize::MAX,
            a.wf(),
            b.wf(),
            a.span == avec,
            b.span == bvec,
            del_del_defined(a.rest(), a.count as nat, b.rest(), b.count as nat),
            compose_del_del_onto(
                res.deep_view(),
                a.rest(),
                a.count as nat,
                b.rest(),
                b.count as nat,
            ) == goal,
            del_weight(res.deep_view()) + del_weight_from(a.rest(), a.count as nat)
                + del_weight_from(b.rest(), b.count as nat) <= total,
        decreases (avec.len() - a.pos) + (bvec.len() - b.pos),
    {
        let ghost res0 = res.deep_view();
        let ghost ar0 = a.rest();
        let ghost br0 = b.rest();
        let acount = a.count;
        let bcount = b.count;
        let bdone = b.is_done();
        proof {
            assert(ar0.skip(1) =~= av.skip(a.pos + 1));
            assert(ar0[0] == avec@[a.pos as int].deep_view());
            lemma_del_weight_from(ar0.skip(1));
            if !bdone {
                assert(br0.skip(1) =~= bv.skip(b.pos + 1));
                lemma_del_weight_from(br0.skip(1));
                assert(br0[0] == bvec@[b.pos as int].deep_view());
            }
        }
        match &avec[a.pos] {
            DelElement::DelSkip(_) => {
                if bdone {
                    let head = a.next();
                    proof {
                        lemma_place_del_weight(res0, head.deep_view());
                    }
                    del_place_any(&mut res, &head);
                } else {
                    match &bvec[b.pos] {
                        DelElement::DelSkip(_) => {
                            let least = if acount <= bcount {
                                acount
                            } else {
                                bcount
                            };
                            proof {
                                lemma_place_del_weight(res0, DelNode::Skip(least as nat));
                            }
                            del_place_skip(&mut res, least);
                            if acount > bcount {
                                a.count = acount - bcount;
                                b.next();
                            } else if acount < bcount {
                                b.count = bcount - acount;
                                a.next();
                            } else {
                                a.next();
                                b.next();
                            }
                        },
                        DelElement::DelChars(_) => {
                            let least = if acount <= bcount {
                                acount
                            } else {
                                bcount
                            };
                            proof {
                                lemma_place_del_weight(res0, DelNode::Chars(least as nat));
                            }
                            del_place_any(&mut res, &DelElement::DelChars(least));
                            if acount > bcount {
                                a.count = acount - bcount;
                                b.next();
                            } else if acount < bcount {
                                b.count = bcount - acount;
                                a.next();
                            } else {
                                a.next();
                                b.next();
                            }
                        },
                        _ => {
                            if acount > 1 {
                                a.count = acount - 1;
                            } else {
                                a.next();
                            }
                            let head = b.next();
                            proof {
                                lemma_place_del_weight(res0, head.deep_view());
                            }
                            res.push(head);
                            assert(res.deep_view() =~= res0.push(br0[0]));
                        },
                    }
                }
            },
            DelElement::DelWithGroup(span) => {
                if bdone {
                    let head = a.next();
                    proof {
                        lemma_place_del_weight(res0, head.deep_view());
                    }
                    res.push(head);
                    assert(res.deep_view() =~= res0.push(ar0[0]));
                } else {
                    match &bvec[b.pos] {
                        DelElement::DelSkip(_) => {
                            if bcount > 1 {
                                b.count = bcount - 1;
                            } else {
                                b.next();
                            }
                            let head = a.next();
                            proof {
                                lemma_place_del_weight(res0, head.deep_view());
                            }
                            res.push(head);
                            assert(res.deep_view() =~= res0.push(ar0[0]));
                        },
                        DelElement::DelWithGroup(bspan) => {
                            let inner = compose_del_del(span, bspan);
                            let group = DelElement::DelWithGroup(inner);
                            proof {
                                lemma_place_del_weight(res0, group.deep_view());
                            }
                            res.push(group);
                            assert(res.deep_view() =~= res0.push(
                                DelNode::WithGroup(
                                    compose_del_del_spec(span.deep_view(), bspan.deep_view()),
                                ),
                            ));
                            a.next();
                            b.next();
                        },
                        DelElement::DelChars(_) => {
                            proof {
                                assert(false);
                            }
                        },
                        DelElement::DelGroup(_) => {
                            a.next();
                            let head = b.next();
                            proof {
                                lemma_place_del_weight(res0, head.deep_view());
                            }
                            res.push(head);
                            assert(res.deep_view() =~= res0.push(br0[0]));
                        },
                    }
                }
            },
            DelElement::DelChars(_) => {
                proof {
                    lemma_place_del_weight(res0, DelNode::Chars(acount as nat));
                }
                del_place_any(&mut res, &DelElement::DelChars(acount));
                a.next();
            },
            DelElement::DelGroup(_) => {
                let head = a.next();
                proof {
                    lemma_place_del_weight(res0, head.deep_view());
                }
                res.push(head);
                assert(res.deep_view() =~= res0.push(ar0[0]));
            },
        }
    }
    if !b.is_done() {
        let ghost res0 = res.deep_view();
        let ghost br0 = b.rest();
        let head = b.get_head();
        proof {
            lemma_place_del_weight(res0, head.deep_view());
            assert(br0.skip(1) =~= bv.skip(b.pos + 1));
        }
        del_place_any(&mut res, &head);
        let ghost res1 = res.deep_view();
        let mut k: usize = b.pos + 1;
        while k < bvec.len()
            invariant
                b.pos + 1 <= k <= bvec.len(),
                bv == bvec.deep_view(),
                res.deep_view() =~= res1 + bv.subrange(b.pos + 1, k as int),
            decreases bvec.len() - k,
        {
            let ghost before = res.deep_view();
            res.push(bvec[k].clone());
            proof {
                assert(res.deep_view() =~= before.push(bvec@[k as int].deep_view()));
                assert(bv.subrange(b.pos + 1, k + 1) =~= bv.subrange(b.pos + 1, k as int).push(
                    bvec@[k as int].deep_view(),
                ));
            }
            k = k + 1;
        }
        proof {
            assert(bv.subrange(b.pos + 1, k as int) =~= br0.skip(1));
            lemma_del_weight_concat(res1, br0.skip(1));
        }
    }
    proof {
        if del_coalesced(bvec.deep_view()) {
            lemma_compose_del_del_coalesced(avec.deep_view(), bvec.deep_view());
        }
    }
    res
}


/// What is still to be served of the first atom of an add span when it
/// becomes current: a skip's count, the length of inserted text, zero for
/// anything else.
pub open spec fn add_count(a: Seq<AddNode>) -> nat {
    if a.len() > 0 {
        match a[0] {
            AddNode::Skip(k) => k,
            AddNode::Chars(t) => t.chars.len(),
            _ => 0,
        }
    } else {
        0
    }
}

/// The atom `d` with only `cnt` of it still to be served: a skip of `cnt`,
/// or the last `cnt` characters of inserted text.
pub open spec fn add_head(d: AddNode, cnt: nat) -> AddNode {
    match d {
        AddNode::Skip(_) => AddNode::Skip(cnt),
        AddNode::Chars(t) => AddNode::Chars(
            Text { chars: t.chars.skip(t.chars.len() - cnt), styles: t.styles },
        ),
        _ => d,
    }
}

/// The first `k` characters of inserted text, as an atom.
pub open spec fn add_chars_front(d: AddNode, k: nat) -> AddNode {
    AddNode::Chars(Text { chars: d->Chars_0.chars.take(k as int), styles: d->Chars_0.styles })
}

/// The composition of two add spans, continued: `res` is what has been
/// written, `a` and `b` are what is left of the two spans, and `ac`, `bc`
/// are what is still to be served of their first atoms.
///
/// `b` speaks of the document that holds what `a` has inserted. What `b`
/// inserts is written as it comes. A skip of `b` passes over what `a`
/// holds next: inserted text is written, a skip stays a skip, a descent
/// into a group is written and counts as one unit. A descent of `b` meets
/// a skip or a descent of `a`. When `b` ends, what is left of `a` follows.
/// Every skip and every insertion is placed, so that it joins a neighbour
/// of its kind.
pub open spec fn compose_add_add_onto(
    res: Seq<AddNode>,
    a: Seq<AddNode>,
    ac: nat,
    b: Seq<AddNode>,
    bc: nat,
) -> Seq<AddNode>
    decreases b, a,
{
    if b.len() == 0 {
        if a.len() == 0 {
            res
        } else {
            place_add(res, add_head(a[0], ac)) + a.skip(1)
        }
    } else {
        let ar = a.skip(1);
        let an = add_count(ar);
        let br = b.skip(1);
        let bn = add_count(br);
        match b[0] {
            AddNode::Chars(_) => compose_add_add_onto(place_add(res, b[0]), a, ac, br, bn),
            AddNode::Skip(_) => if a.len() == 0 {
                res
            } else {
                match a[0] {
                    AddNode::Chars(_) => if bc < ac {
                        compose_add_add_onto(
                            place_add(res, add_chars_front(add_head(a[0], ac), bc)),
                            a,
                            (ac - bc) as nat,
                            br,
                            bn,
                        )
                    } else if bc > ac {
                        compose_add_add_onto(
                            place_add(res, add_head(a[0], ac)),
                            ar,
                            an,
                            b,
                            (bc - ac) as nat,
                        )
                    } else {
                        compose_add_add_onto(place_add(res, add_head(a[0], ac)), ar, an, br, bn)
                    },
                    AddNode::Skip(_) => if ac > bc {
                        compose_add_add_onto(
                            place_add(res, AddNode::Skip(bc)),
                            a,
                            (ac - bc) as nat,
                            br,
                            bn,
                        )
                    } else if ac < bc {
                        compose_add_add_onto(
                            place_add(res, AddNode::Skip(ac)),
                            ar,
                            an,
                            b,
                            (bc - ac) as nat,
                        )
                    } else {
                        compose_add_add_onto(place_add(res, AddNode::Skip(ac)), ar, an, br, bn)
                    },
                    AddNode::WithGroup(_) => if bc > 1 {
                        compose_add_add_onto(res.push(a[0]), ar, an, b, (bc - 1) as nat)
                    } else {
                        compose_add_add_onto(res.push(a[0]), ar, an, br, bn)
                    },
                    _ => res,
                }
            },
            AddNode::WithGroup(gb) => if a.len() == 0 {
                res
            } else {
                match a[0] {
                    AddNode::Skip(_) => if ac > 1 {
                        compose_add_add_onto(res.push(b[0]), a, (ac - 1) as nat, br, bn)
                    } else {
                        compose_add_add_onto(res.push(b[0]), ar, an, br, bn)
                    },
                    AddNode::WithGroup(ga) => compose_add_add_onto(
                        res.push(
                            AddNode::WithGroup(
                                compose_add_add_onto(
                                    Seq::empty(),
                                    ga,
                                    add_count(ga),
                                    gb,
                                    add_count(gb),
                                ),
                            ),
                        ),
                        ar,
                        an,
                        br,
                        bn,
                    ),
                    _ => res,
                }
            },
            _ => res,
        }
    }
}

/// Whether the composition of two add spans is defined from here on. It
/// is not where `b` holds a new group or a style overlay, where a skip or
/// a descent of `b` finds `a` exhausted, or a new group or a style overlay
/// in `a`, and where a descent of `b` meets inserted text of `a`.
pub open spec fn add_add_defined(a: Seq<AddNode>, ac: nat, b: Seq<AddNode>, bc: nat) -> bool
    decreases b, a,
{
    if b.len() == 0 {
        true
    } else {
        let ar = a.skip(1);
        let an = add_count(ar);
        let br = b.skip(1);
        let bn = add_count(br);
        match b[0] {
            AddNode::Chars(_) => add_add_defined(a, ac, br, bn),
            AddNode::Skip(_) => a.len() > 0 && match a[0] {
                AddNode::Chars(_) => if bc < ac {
                    add_add_defined(a, (ac - bc) as nat, br, bn)
                } else if bc > ac {
                    add_add_defined(ar, an, b, (bc - ac) as nat)
                } else {
                    add_add_defined(ar, an, br, bn)
                },
                AddNode::Skip(_) => if ac > bc {
                    add_add_defined(a, (ac - bc) as nat, br, bn)
                } else if ac < bc {
                    add_add_defined(ar, an, b, (bc - ac) as nat)
                } else {
                    add_add_defined(ar, an, br, bn)
                },
                AddNode::WithGroup(_) => if bc > 1 {
                    add_add_defined(ar, an, b, (bc - 1) as nat)
                } else {
                    add_add_defined(ar, an, br, bn)
                },
                _ => false,
            },
            AddNode::WithGroup(gb) => a.len() > 0 && match a[0] {
                AddNode::Skip(_) => if ac > 1 {
                    add_add_defined(a, (ac - 1) as nat, br, bn)
                } else {
                    add_add_defined(ar, an, br, bn)
                },
                AddNode::WithGroup(ga) => add_add_defined(ga, add_count(ga), gb, add_count(gb))
                    && add_add_defined(ar, an, br, bn),
                _ => false,
            },
            _ => false,
        }
    }
}

/// The composition of the add spans `a` and `b`, where `b` speaks of the
/// document that holds what `a` has inserted.
pub open spec fn compose_add_add_spec(a: Seq<AddNode>, b: Seq<AddNode>) -> Seq<AddNode> {
    compose_add_add_onto(Seq::empty(), a, add_count(a), b, add_count(b))
}

/// Whether the composition of the add spans `a` and `b` is defined.
pub open spec fn compose_add_add_defined(a: Seq<AddNode>, b: Seq<AddNode>) -> bool {
    add_add_defined(a, add_count(a), b, add_count(b))
}


/// The weight of what is left of an add span whose first atom has `ac`
/// still to be served.
pub open spec fn add_weight_from(a: Seq<AddNode>, ac: nat) -> nat {
    if a.len() == 0 {
        0
    } else {
        add_node_weight(add_head(a[0], ac)) + add_weight(a.skip(1))
    }
}

/// With all of its first atom to be served, what is left of a span is the
/// span, and weighs what it weighs.
proof fn lemma_add_weight_from(a: Seq<AddNode>)
    ensures
        add_weight_from(a, add_count(a)) == add_weight(a),
        a.len() > 0 ==> add_head(a[0], add_count(a)) == a[0],
{
    if a.len() > 0 {
        lemma_add_weight_head(a);
        match a[0] {
            AddNode::Chars(t) => {
                assert(t.chars.skip(0) =~= t.chars);
            },
            _ => {},
        }
    }
}

/// A cursor over an add span. Its current atom may be partly consumed:
/// `count` is what is still to be served of it, units of a skip or
/// characters at the end of inserted text.
struct AddSlice<'a> {
    span: &'a Vec<AddElement>,
    pos: usize,
    count: usize,
}

impl<'a> AddSlice<'a> {
    /// What is left of the span, the current atom first.
    spec fn rest(&self) -> Seq<AddNode> {
        self.span.deep_view().skip(self.pos as int)
    }

    /// The cursor stands within its span, and no more is to be served of
    /// inserted text than it holds.
    spec fn wf(&self) -> bool {
        &&& self.pos <= self.span.len()
        &&& (self.pos < self.span.len() && self.rest()[0] is Chars ==> self.count
            <= self.rest()[0]->Chars_0.chars.len())
    }

    /// What is to be served of the atom at `pos` when it becomes current.
    fn count_at(span: &Vec<AddElement>, pos: usize) -> (res: usize)
        requires
            pos <= span.len(),
        ensures
            res == add_count(span.deep_view().skip(pos as int)),
    {
        if pos < span.len() {
            match &span[pos] {
                AddElement::AddSkip(n) => *n,
                AddElement::AddChars(t) => t.char_len(),
                _ => 0,
            }
        } else {
            0
        }
    }

    /// A cursor at the start of `span`.
    fn new(span: &'a Vec<AddElement>) -> (res: AddSlice<'a>)
        ensures
            res.wf(),
            res.span == span,
            res.pos == 0,
            res.count == add_count(span.deep_view()),
    {
        proof {
            assert(span.deep_view().skip(0) =~= span.deep_view());
        }
        AddSlice { span, pos: 0, count: Self::count_at(span, 0) }
    }

    /// The current atom, with what is still to be served of it.
    fn get_head(&self) -> (res: AddElement)
        requires
            self.wf(),
            self.pos < self.span.len(),
        ensures
            res.deep_view() == add_head(self.rest()[0], self.count as nat),
    {
        match &self.span[self.pos] {
            AddElement::AddSkip(_) => AddElement::AddSkip(self.count),
            AddElement::AddChars(t) => {
                let len = t.char_len();
                let (_, right) = t.split_at(len - self.count);
                AddElement::AddChars(right)
            },
            other => other.clone(),
        }
    }

    /// The first `k` characters of what is still to be served of inserted
    /// text.
    fn get_front(&self, k: usize) -> (res: AddElement)
        requires
            self.wf(),
            self.pos < self.span.len(),
            self.rest()[0] is Chars,
            k <= self.count,
        ensures
            res.deep_view() == add_chars_front(add_head(self.rest()[0], self.count as nat), k as nat),
    {
        match &self.span[self.pos] {
            AddElement::AddChars(t) => {
                let len = t.char_len();
                let (_, right) = t.split_at(len - self.count);
                let (left, _) = right.split_at(k);
                AddElement::AddChars(left)
            },
            other => other.clone(),
        }
    }

    /// Gives the current atom and moves to the next one.
    fn next(&mut self) -> (res: AddElement)
        requires
            old(self).wf(),
            old(self).pos < old(self).span.len(),
        ensures
            final(self).wf(),
            final(self).span == old(self).span,
            final(self).pos == old(self).pos + 1,
            final(self).count == add_count(final(self).rest()),
            res.deep_view() == add_head(old(self).rest()[0], old(self).count as nat),
    {
        let res = self.get_head();
        self.pos = self.pos + 1;
        self.count = Self::count_at(self.span, self.pos);
        res
    }

    /// Whether the span is exhausted.
    fn is_done(&self) -> (res: bool)
        requires
            self.wf(),
        ensures
            res == (self.pos == self.span.len()),
            res == (self.rest().len() == 0),
    {
        self.pos == self.span.len()
    }
}

/// Appends copies of the atoms of `span` from index `from` on to `res`.
fn add_push_rest(res: &mut Vec<AddElement>, span: &Vec<AddElement>, from: usize)
    requires
        from <= span.len(),
    ensures
        final(res).deep_view() == old(res).deep_view() + span.deep_view().skip(from as int),
{
    let ghost res1 = res.deep_view();
    let ghost sv = span.deep_view();
    let mut k: usize = from;
    while k < span.len()
        invariant
            from <= k <= span.len(),
            sv == span.deep_view(),
            res.deep_view() =~= res1 + sv.subrange(from as int, k as int),
        decreases span.len() - k,
    {
        let ghost before = res.deep_view();
        res.push(span[k].clone());
        proof {
            assert(res.deep_view() =~= before.push(span@[k as int].deep_view()));
            assert(sv.subrange(from as int, k + 1) =~= sv.subrange(from as int, k as int).push(
                span@[k as int].deep_view(),
            ));
        }
        k = k + 1;
    }
    assert(sv.subrange(from as int, k as int) =~= sv.skip(from as int));
}

/// Composes two add spans: the result adds to a document what `avec` adds
/// to it and then what `bvec` adds to the outcome.
#[verifier::rlimit(60)]
pub fn compose_add_add(avec: &AddSpan, bvec: &AddSpan) -> (res: AddSpan)
    requires
        compose_add_add_defined(avec.deep_view(), bvec.deep_view()),
        add_weight(avec.deep_view()) + add_weight(bvec.deep_view()) <= usize::MAX,
    ensures
        res.deep_view() == compose_add_add_spec(avec.deep_view(), bvec.deep_view()),
        add_weight(res.deep_view()) <= add_weight(avec.deep_view()) + add_weight(
            bvec.deep_view(),
        ),
        add_coalesced(avec.deep_view()) ==> add_coalesced(res.deep_view()),
    decreases bvec, avec,
{
    let ghost av = avec.deep_view();
    let ghost bv = bvec.deep_view();
    let ghost goal = compose_add_add_spec(av, bv);
    let ghost total = add_weight(av) + add_weight(bv);
    let mut res: Vec<AddElement> = Vec::new();
    let mut a = AddSlice::new(avec);
    let mut b = AddSlice::new(bvec);
    proof {
        assert(av.skip(0) =~= av);
        assert(bv.skip(0) =~= bv);
        assert(res.deep_view() =~= Seq::<AddNode>::empty());
        lemma_add_weight_from(av);
        lemma_add_weight_from(bv);
    }
    while !b.is_done()
        invariant
            av == avec.deep_view(),
            bv == bvec.deep_view(),
            total == add_weight(av) + add_weight(bv),
            total <= usize::MAX,
            a.wf(),
            b.wf(),
            a.span == avec,
            b.span == bvec,
            b.rest().len() > 0 && b.rest()[0] is Chars ==> b.count == add_count(b.rest()),
            add_add_defined(a.rest(), a.count as nat, b.rest(), b.count as nat),
            compose_add_add_onto(
                res.deep_view(),
                a.rest(),
                a.count as nat,
                b.rest(),
                b.count as nat,
            ) == goal,
            add_weight(res.deep_view()) + add_weight_from(a.rest(), a.count as nat)
                + add_weight_from(b.rest(), b.count as nat) <= total,
        decreases (bvec.len() - b.pos) + (avec.len() - a.pos),
    {
        let ghost res0 = res.deep_view();
        let ghost ar0 = a.rest();
        let ghost br0 = b.rest();
        let acount = a.count;
        let bcount = b.count;
        let adone = a.is_done();
        proof {
            assert(br0.skip(1) =~= bv.skip(b.pos + 1));
            assert(br0[0] == bvec@[b.pos as int].deep_view());
            lemma_add_weight_from(br0.skip(1));
            lemma_add_weight_from(br0);
            if !adone {
                assert(ar0.skip(1) =~= av.skip(a.pos + 1));
                lemma_add_weight_from(ar0.skip(1));
                assert(ar0[0] == avec@[a.pos as int].deep_view());
            }
        }
        match &bvec[b.pos] {
            AddElement::AddChars(_) => {
                let head = b.next();
                proof {
                    lemma_place_add_weight(res0, head.deep_view());
                }
                add_place_any(&mut res, &head);
            },
            AddElement::AddSkip(_) => {
                if adone {
                    proof {
                        assert(false);
                    }
                } else {
                    match &avec[a.pos] {
                        AddElement::AddChars(_) => {
                            if bcount < acount {
                                let front = a.get_front(bcount);
                                proof {
                                    lemma_place_add_weight(res0, front.deep_view());
                                }
                                add_place_any(&mut res, &front);
                                a.count = acount - bcount;
                                b.next();
                            } else if bcount > acount {
                                let head = a.next();
                                proof {
                                    lemma_place_add_weight(res0, head.deep_view());
                                }
                                add_place_any(&mut res, &head);
                                b.count = bcount - acount;
                            } else {
                                let head = a.next();
                                proof {
                                    lemma_place_add_weight(res0, head.deep_view());
                                }
                                add_place_any(&mut res, &head);
                                b.next();
                            }
                        },
                        AddElement::AddSkip(_) => {
                            let least = if acount <= bcount {
                                acount
                            } else {
                                bcount
                            };
                            proof {
                                lemma_place_add_weight(res0, AddNode::Skip(least as nat));
                            }
                            add_place_skip(&mut res, least);
                            if acount > bcount {
                                a.count = acount - bcount;
                                b.next();
                            } else if acount < bcount {
                                b.count = bcount - acount;
                                a.next();
                            } else {
                                a.next();
                                b.next();
                            }
                        },
                        AddElement::AddWithGroup(_) => {
                            let head = a.next();
                            proof {
                                lemma_place_add_weight(res0, head.deep_view());
                            }
                            res.push(head);
                            assert(res.deep_view() =~= res0.push(ar0[0]));
                            if bcount > 1 {
                                b.count = bcount - 1;
                            } else {
                                b.next();
                            }
                        },
                        _ => {
                            proof {
                                assert(false);
                            }
                        },
                    }
                }
            },
            AddElement::AddWithGroup(bspan) => {
                if adone {
                    proof {
                        assert(false);
                    }
                } else {
                    match &avec[a.pos] {
                        AddElement::AddSkip(_) => {
                            if acount > 1 {
                                a.count = acount - 1;
                            } else {
                                a.next();
                            }
                            let head = b.next();
                            proof {
                                lemma_place_add_weight(res0, head.deep_view());
                            }
                            res.push(head);
                            assert(res.deep_view() =~= res0.push(br0[0]));
                        },
                        AddElement::AddWithGroup(aspan) => {
                            let inner = compose_add_add(aspan, bspan);
                            let group = AddElement::AddWithGroup(inner);
                            proof {
                                lemma_place_add_weight(res0, group.deep_view());
                            }
                            res.push(group);
                            assert(res.deep_view() =~= res0.push(
                                AddNode::WithGroup(
                                    compose_add_add_spec(aspan.deep_view(), bspan.deep_view()),
                                ),
                            ));
                            a.next();
                            b.next();
                        },
                        _ => {
                            proof {
                                assert(false);
                            }
                        },
                    }
                }
            },
            _ => {
                proof {
                    assert(false);
                }
            },
        }
    }
    if !a.is_done() {
        let ghost res0 = res.deep_view();
        let ghost ar0 = a.rest();
        let head = a.get_head();
        proof {
            lemma_place_add_weight(res0, head.deep_view());
            assert(ar0.skip(1) =~= av.skip(a.pos + 1));
            lemma_add_weight_concat(place_add(res0, head.deep_view()), ar0.skip(1));
        }
        add_place_any(&mut res, &head);
        add_push_rest(&mut res, avec, a.pos + 1);
    }
    proof {
        if add_coalesced(avec.deep_view()) {
            lemma_compose_add_add_coalesced(avec.deep_view(), bvec.deep_view());
        }
    }
    res
}


/// The composition of an add span with the delete span that follows it,
/// continued: `dres` and `ares` are the delete and add spans written so
/// far, `a` and `b` are what is left of the two spans, and `ac`, `bc` are
/// what is still to be served of their first atoms.
///
/// `b` speaks of the document that holds what `a` has inserted. Where it
/// deletes inserted text, both vanish; where it deletes what `a` skips,
/// the delete goes to the delete span. Where it skips inserted text, the
/// text stays in the add span; where it skips what `a` skips, both spans
/// skip; where it skips a group that `a` descends into, the descent stays
/// in the add span. When `b` ends, what is left of `a` follows in the add
/// span.
pub open spec fn compose_add_del_onto(
    dres: Seq<DelNode>,
    ares: Seq<AddNode>,
    a: Seq<AddNode>,
    ac: nat,
    b: Seq<DelNode>,
    bc: nat,
) -> (Seq<DelNode>, Seq<AddNode>)
    decreases b, a,
{
    if b.len() == 0 {
        if a.len() == 0 {
            (dres, ares)
        } else {
            (dres, place_add(ares, add_head(a[0], ac)) + a.skip(1))
        }
    } else if a.len() == 0 {
        (dres, ares)
    } else {
        let ar = a.skip(1);
        let an = add_count(ar);
        let br = b.skip(1);
        let bn = del_count(br);
        match b[0] {
            DelNode::Chars(_) => match a[0] {
                AddNode::Chars(_) => if bc < ac {
                    compose_add_del_onto(dres, ares, a, (ac - bc) as nat, br, bn)
                } else if bc > ac {
                    compose_add_del_onto(dres, ares, ar, an, b, (bc - ac) as nat)
                } else {
                    compose_add_del_onto(dres, ares, ar, an, br, bn)
                },
                AddNode::Skip(_) => if bc < ac {
                    compose_add_del_onto(
                        place_del(dres, DelNode::Chars(bc)),
                        ares,
                        a,
                        (ac - bc) as nat,
                        br,
                        bn,
                    )
                } else if bc > ac {
                    compose_add_del_onto(
                        place_del(dres, DelNode::Chars(ac)),
                        ares,
                        ar,
                        an,
                        b,
                        (bc - ac) as nat,
                    )
                } else {
                    compose_add_del_onto(
                        place_del(dres, DelNode::Chars(bc)),
                        ares,
                        ar,
                        an,
                        br,
                        bn,
                    )
                },
                _ => (dres, ares),
            },
            DelNode::Skip(_) => match a[0] {
                AddNode::Chars(_) => if bc < ac {
                    compose_add_del_onto(
                        dres,
                        place_add(ares, add_chars_front(add_head(a[0], ac), bc)),
                        a,
                        (ac - bc) as nat,
                        br,
                        bn,
                    )
                } else if bc > ac {
                    compose_add_del_onto(
                        dres,
                        place_add(ares, add_head(a[0], ac)),
                        ar,
                        an,
                        b,
                        (bc - ac) as nat,
                    )
                } else {
                    compose_add_del_onto(
                        dres,
                        place_add(ares, add_head(a[0], ac)),
                        ar,
                        an,
                        br,
                        bn,
                    )
                },
                AddNode::Skip(_) => if ac > bc {
                    compose_add_del_onto(
                        place_del(dres, DelNode::Skip(bc)),
                        place_add(ares, AddNode::Skip(bc)),
                        a,
                        (ac - bc) as nat,
                        br,
                        bn,
                    )
                } else if ac < bc {
                    compose_add_del_onto(
                        place_del(dres, DelNode::Skip(ac)),
                        place_add(ares, AddNode::Skip(ac)),
                        ar,
                        an,
                        b,
                        (bc - ac) as nat,
                    )
                } else {
                    compose_add_del_onto(
                        place_del(dres, DelNode::Skip(ac)),
                        place_add(ares, AddNode::Skip(ac)),
                        ar,
                        an,
                        br,
                        bn,
                    )
                },
                AddNode::WithGroup(_) => if bc > 1 {
                    compose_add_del_onto(dres, ares.push(a[0]), ar, an, b, (bc - 1) as nat)
                } else {
                    compose_add_del_onto(dres, ares.push(a[0]), ar, an, br, bn)
                },
                _ => (dres, ares),
            },
            _ => (dres, ares),
        }
    }
}

/// Whether the composition of an add span with a delete span is defined
/// from here on. It is not where `b` holds a group atom, where `b` finds
/// `a` exhausted, where it meets a new group or a style overlay of `a`,
/// and where a character delete meets a descent of `a`.
pub open spec fn add_del_defined(a: Seq<AddNode>, ac: nat, b: Seq<DelNode>, bc: nat) -> bool
    decreases b, a,
{
    if b.len() == 0 {
        true
    } else if a.len() == 0 {
        false
    } else {
        let ar = a.skip(1);
        let an = add_count(ar);
        let br = b.skip(1);
        let bn = del_count(br);
        match b[0] {
            DelNode::Chars(_) => match a[0] {
                AddNode::Chars(_) | AddNode::Skip(_) => if bc < ac {
                    add_del_defined(a, (ac - bc) as nat, br, bn)
                } else if bc > ac {
                    add_del_defined(ar, an, b, (bc - ac) as nat)
                } else {
                    add_del_defined(ar, an, br, bn)
                },
                _ => false,
            },
            DelNode::Skip(_) => match a[0] {
                AddNode::Chars(_) | AddNode::Skip(_) => if bc < ac {
                    add_del_defined(a, (ac - bc) as nat, br, bn)
                } else if bc > ac {
                    add_del_defined(ar, an, b, (bc - ac) as nat)
                } else {
                    add_del_defined(ar, an, br, bn)
                },
                AddNode::WithGroup(_) => if bc > 1 {
                    add_del_defined(ar, an, b, (bc - 1) as nat)
                } else {
                    add_del_defined(ar, an, br, bn)
                },
                _ => false,
            },
            _ => false,
        }
    }
}

/// The composition of the add span `a` with the delete span `b` that
/// follows it: a delete span for the document before `a`, and an add span
/// for what that delete span leaves.
pub open spec fn compose_add_del_spec(a: Seq<AddNode>, b: Seq<DelNode>) -> (
    Seq<DelNode>,
    Seq<AddNode>,
) {
    compose_add_del_onto(Seq::empty(), Seq::empty(), a, add_count(a), b, del_count(b))
}

/// Whether the composition of the add span `a` with the delete span `b`
/// is defined.
pub open spec fn compose_add_del_defined(a: Seq<AddNode>, b: Seq<DelNode>) -> bool {
    add_del_defined(a, add_count(a), b, del_count(b))
}

/// Composes an add span with the delete span that follows it: gives a
/// delete span that is applied first, and an add span that is applied to
/// what it leaves.
#[verifier::rlimit(60)]
pub fn compose_add_del(avec: &AddSpan, bvec: &DelSpan) -> (res: Op)
    requires
        compose_add_del_defined(avec.deep_view(), bvec.deep_view()),
        add_weight(avec.deep_view()) <= usize::MAX,
        del_weight(bvec.deep_view()) <= usize::MAX,
    ensures
        (res.0.deep_view(), res.1.deep_view()) == compose_add_del_spec(
            avec.deep_view(),
            bvec.deep_view(),
        ),
        del_weight(res.0.deep_view()) <= del_weight(bvec.deep_view()),
        add_weight(res.1.deep_view()) <= add_weight(avec.deep_view()),
        del_coalesced(res.0.deep_view()),
        add_coalesced(avec.deep_view()) ==> add_coalesced(res.1.deep_view()),
{
    let ghost av = avec.deep_view();
    let ghost bv = bvec.deep_view();
    let ghost goal = compose_add_del_spec(av, bv);
    let mut delres: Vec<DelElement> = Vec::new();
    let mut addres: Vec<AddElement> = Vec::new();
    let mut a = AddSlice::new(avec);
    let mut b = DelSlice::new(bvec);
    proof {
        assert(av.skip(0) =~= av);
        assert(bv.skip(0) =~= bv);
        assert(delres.deep_view() =~= Seq::<DelNode>::empty());
        assert(addres.deep_view() =~= Seq::<AddNode>::empty());
        lemma_add_weight_from(av);
        lemma_del_weight_from(bv);
    }
    while !b.is_done()
        invariant
            av == avec.deep_view(),
            bv == bvec.deep_view(),
            add_weight(av) <= usize::MAX,
            del_weight(bv) <= usize::MAX,
            a.wf(),
            b.wf(),
            a.span == avec,
            b.span == bvec,
            add_del_defined(a.rest(), a.count as nat, b.rest(), b.count as nat),
            compose_add_del_onto(
                delres.deep_view(),
                addres.deep_view(),
                a.rest(),
                a.count as nat,
                b.rest(),
                b.count as nat,
            ) == goal,
            del_weight(delres.deep_view()) + del_weight_from(b.rest(), b.count as nat)
                <= del_weight(bv),
            add_weight(addres.deep_view()) + add_weight_from(a.rest(), a.count as nat)
                <= add_weight(av),
        decreases (bvec.len() - b.pos) + (avec.len() - a.pos),
    {
        let ghost dres0 = delres.deep_view();
        let ghost ares0 = addres.deep_view();
        let ghost ar0 = a.rest();
        let ghost br0 = b.rest();
        let acount = a.count;
        let bcount = b.count;
        let adone = a.is_done();
        proof {
            assert(br0.skip(1) =~= bv.skip(b.pos + 1));
            assert(br0[0] == bvec@[b.pos as int].deep_view());
            lemma_del_weight_from(br0.skip(1));
            if !adone {
                assert(ar0.skip(1) =~= av.skip(a.pos + 1));
                lemma_add_weight_from(ar0.skip(1));
                assert(ar0[0] == avec@[a.pos as int].deep_view());
            }
        }
        if adone {
            proof {
                assert(false);
            }
        } else {
            match &bvec[b.pos] {
                DelElement::DelChars(_) => {
                    match &avec[a.pos] {
                        AddElement::AddChars(_) => {
                            if bcount < acount {
                                a.count = acount - bcount;
                                b.next();
                            } else if bcount > acount {
                                a.next();
                                b.count = bcount - acount;
                            } else {
                                a.next();
                                b.next();
                            }
                        },
                        AddElement::AddSkip(_) => {
                            if bcount < acount {
                                a.count = acount - bcount;
                                let head = b.next();
                                proof {
                                    lemma_place_del_weight(dres0, head.deep_view());
                                }
                                del_place_any(&mut delres, &head);
                            } else if bcount > acount {
                                a.next();
                                proof {
                                    lemma_place_del_weight(dres0, DelNode::Chars(acount as nat));
                                }
                                del_place_any(&mut delres, &DelElement::DelChars(acount));
                                b.count = bcount - acount;
                            } else {
                                a.next();
                                let head = b.next();
                                proof {
                                    lemma_place_del_weight(dres0, head.deep_view());
                                }
                                del_place_any(&mut delres, &head);
                            }
                        },
                        _ => {
                            proof {
                                assert(false);
                            }
                        },
                    }
                },
                DelElement::DelSkip(_) => {
                    match &avec[a.pos] {
                        AddElement::AddChars(_) => {
                            if bcount < acount {
                                let front = a.get_front(bcount);
                                proof {
                                    lemma_place_add_weight(ares0, front.deep_view());
                                }
                                add_place_any(&mut addres, &front);
                                a.count = acount - bcount;
                                b.next();
                            } else if bcount > acount {
                                let head = a.next();
                                proof {
                                    lemma_place_add_weight(ares0, head.deep_view());
                                }
                                add_place_any(&mut addres, &head);
                                b.count = bcount - acount;
                            } else {
                                let head = a.next();
                                proof {
                                    lemma_place_add_weight(ares0, head.deep_view());
                                }
                                add_place_any(&mut addres, &head);
                                b.next();
                            }
                        },
                        AddElement::AddSkip(_) => {
                            let least = if acount <= bcount {
                                acount
                            } else {
                                bcount
                            };
                            proof {
                                lemma_place_add_weight(ares0, AddNode::Skip(least as nat));
                                lemma_place_del_weight(dres0, DelNode::Skip(least as nat));
                            }
                            add_place_any(&mut addres, &AddElement::AddSkip(least));
                            del_place_any(&mut delres, &DelElement::DelSkip(least));
                            if acount > bcount {
                                a.count = acount - bcount;
                                b.next();
                            } else if acount < bcount {
                                a.next();
                                b.count = bcount - acount;
                            } else {
                                a.next();
                                b.next();
                            }
                        },
                        AddElement::AddWithGroup(_) => {
                            let head = a.next();
                            proof {
                                lemma_place_add_weight(ares0, head.deep_view());
                            }
                            addres.push(head);
                            assert(addres.deep_view() =~= ares0.push(ar0[0]));
                            if bcount > 1 {
                                b.count = bcount - 1;
                            } else {
                                b.next();
                            }
                        },
                        _ => {
                            proof {
                                assert(false);
                            }
                        },
                    }
                },
                _ => {
                    proof {
                        assert(false);
                    }
                },
            }
        }
    }
    if !a.is_done() {
        let ghost ares0 = addres.deep_view();
        let ghost ar0 = a.rest();
        let head = a.get_head();
        proof {
            lemma_place_add_weight(ares0, head.deep_view());
            assert(ar0.skip(1) =~= av.skip(a.pos + 1));
            lemma_add_weight_concat(place_add(ares0, head.deep_view()), ar0.skip(1));
        }
        add_place_any(&mut addres, &head);
        add_push_rest(&mut addres, avec, a.pos + 1);
    }
    proof {
        lemma_compose_add_del_coalesced(avec.deep_view(), bvec.deep_view());
    }
    (delres, addres)
}

/// The composition of the operations `a` and `b`, where `b` is applied to
/// the document that `a` has made: the delete span of `b` is taken through
/// the add span of `a`; what comes out is composed with the delete span
/// of `a` on one side and with the add span of `b` on the other.
pub open spec fn compose_spec(
    a: (Seq<DelNode>, Seq<AddNode>),
    b: (Seq<DelNode>, Seq<AddNode>),
) -> (Seq<DelNode>, Seq<AddNode>) {
    let m = compose_add_del_spec(a.1, b.0);
    (compose_del_del_spec(a.0, m.0), compose_add_add_spec(m.1, b.1))
}

/// Whether the composition of the operations `a` and `b` is defined: each
/// of the three compositions it is made of is.
pub open spec fn compose_defined(
    a: (Seq<DelNode>, Seq<AddNode>),
    b: (Seq<DelNode>, Seq<AddNode>),
) -> bool {
    let m = compose_add_del_spec(a.1, b.0);
    &&& compose_add_del_defined(a.1, b.0)
    &&& compose_del_del_defined(a.0, m.0)
    &&& compose_add_add_defined(m.1, b.1)
}

/// Composes two operations into the one that does to a document what `a`
/// does and then what `b` does.
pub fn compose(a: &Op, b: &Op) -> (res: Op)
    requires
        compose_defined((a.0.deep_view(), a.1.deep_view()), (b.0.deep_view(), b.1.deep_view())),
        del_weight(a.0.deep_view()) + del_weight(b.0.deep_view()) <= usize::MAX,
        add_weight(a.1.deep_view()) + add_weight(b.1.deep_view()) <= usize::MAX,
    ensures
        (res.0.deep_view(), res.1.deep_view()) == compose_spec(
            (a.0.deep_view(), a.1.deep_view()),
            (b.0.deep_view(), b.1.deep_view()),
        ),
        del_weight(res.0.deep_view()) <= del_weight(a.0.deep_view()) + del_weight(
            b.0.deep_view(),
        ),
        add_weight(res.1.deep_view()) <= add_weight(a.1.deep_view()) + add_weight(
            b.1.deep_view(),
        ),
        del_coalesced(res.0.deep_view()),
        add_coalesced(a.1.deep_view()) ==> add_coalesced(res.1.deep_view()),
{
    let (mdel, mins) = compose_add_del(&a.1, &b.0);
    (compose_del_del(&a.0, &mdel), compose_add_add(&mins, &b.1))
}

} // verus!
