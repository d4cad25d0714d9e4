//! Applying an operation to a document.
//!
//! What an operation does is stated over the document's units. A span in
//! canonical form is determined by its units, so the contracts below,
//! which give the units of the result and promise that it is canonical,
//! fix the result.

use crate::doc::{
    group_views, AddElement, AddNode, AddSpan, DelElement, DelNode, DelSpan, DocElement, DocNode,
    DocSpan, Op, StyleBag, Text,
};
use crate::place::{
    doc_place, doc_place_all, lemma_place_doc_all_canonical, lemma_place_doc_all_units,
    lemma_place_doc_canonical, lemma_place_doc_units, place_doc_all,
};
use crate::units::{
    chars_units, lemma_span_units_concat, lemma_span_units_head, lemma_span_units_single,
    mergeable, node_canonical, node_units, span_canonical, span_units, Unit,
};
use vstd::prelude::*;

verus! {

broadcast use {vstd::group_vstd_default, group_views};

/// Whether the first `k` units of `u` exist and are characters.
pub open spec fn all_chars(u: Seq<Unit>, k: nat) -> bool {
    k <= u.len() && forall|i: int| 0 <= i < k ==> #[trigger] u[i] is Char
}

/// Whether the first `k` units of `u` exist and are characters that all
/// carry the same styles: part of a single run.
pub open spec fn one_run(u: Seq<Unit>, k: nat) -> bool {
    k <= u.len() && forall|i: int|
        0 <= i < k ==> #[trigger] u[i] is Char && u[i]->Char_0.1 == u[0]->Char_0.1
}

/// Whether the delete span `del` fits the units `u`: each atom finds what
/// it speaks of. A skip finds that many units; a character delete finds
/// that many characters of a single run; a group atom finds a group whose
/// children its inner span fits.
///
/// Counts are at least one. A count of zero names no unit: a skip of zero
/// that meets a group has nothing to be decremented, and one that meets a
/// run would write a run of no characters, which no document in canonical
/// form holds. A span with such a count fits no document.
pub open spec fn delete_applies(u: Seq<Unit>, del: Seq<DelNode>) -> bool
    decreases del,
{
    if del.len() == 0 {
        true
    } else {
        let rest = del.skip(1);
        match del[0] {
            DelNode::Skip(k) => 1 <= k <= u.len() && delete_applies(u.skip(k as int), rest),
            DelNode::Chars(k) => 1 <= k && one_run(u, k) && delete_applies(
                u.skip(k as int),
                rest,
            ),
            DelNode::WithGroup(inner) => u.len() > 0 && u[0] is Group && delete_applies(
                u[0]->Group_1,
                inner,
            ) && delete_applies(u.skip(1), rest),
            DelNode::Group(inner) => u.len() > 0 && u[0] is Group && delete_applies(
                u[0]->Group_1,
                inner,
            ) && delete_applies(u.skip(1), rest),
        }
    }
}

/// The units that are left of `u` once `del` has been applied to it. When
/// the span is exhausted, the units that remain are kept.
pub open spec fn delete_units(u: Seq<Unit>, del: Seq<DelNode>) -> Seq<Unit>
    decreases del,
{
    if del.len() == 0 {
        u
    } else {
        let rest = del.skip(1);
        match del[0] {
            DelNode::Skip(k) => u.take(k as int) + delete_units(u.skip(k as int), rest),
            DelNode::Chars(k) => delete_units(u.skip(k as int), rest),
            DelNode::WithGroup(inner) => seq![
                Unit::Group(u[0]->Group_0, delete_units(u[0]->Group_1, inner)),
            ] + delete_units(u.skip(1), rest),
            DelNode::Group(inner) => delete_units(u[0]->Group_1, inner) + delete_units(
                u.skip(1),
                rest,
            ),
        }
    }
}


/// A skip of `k` units can be taken in two parts, `m` units first.
pub proof fn lemma_delete_skip_part(u: Seq<Unit>, k: nat, m: nat, rest: Seq<DelNode>)
    requires
        0 < m < k,
        delete_applies(u, seq![DelNode::Skip(k)] + rest),
    ensures
        delete_applies(u.skip(m as int), seq![DelNode::Skip((k - m) as nat)] + rest),
        delete_units(u, seq![DelNode::Skip(k)] + rest) == u.take(m as int) + delete_units(
            u.skip(m as int),
            seq![DelNode::Skip((k - m) as nat)] + rest,
        ),
{
    let d1 = seq![DelNode::Skip(k)] + rest;
    let d2 = seq![DelNode::Skip((k - m) as nat)] + rest;
    assert(d1.skip(1) =~= rest);
    assert(d2.skip(1) =~= rest);
    assert(u.skip(m as int).skip(k - m) =~= u.skip(k as int));
    assert(u.take(k as int) =~= u.take(m as int) + u.skip(m as int).take(k - m));
    assert(delete_units(u, d1) =~= u.take(m as int) + delete_units(u.skip(m as int), d2));
}

/// A delete of `k` characters can be taken in two parts, `m` characters
/// first.
pub proof fn lemma_delete_chars_part(u: Seq<Unit>, k: nat, m: nat, rest: Seq<DelNode>)
    requires
        0 < m < k,
        delete_applies(u, seq![DelNode::Chars(k)] + rest),
    ensures
        delete_applies(u.skip(m as int), seq![DelNode::Chars((k - m) as nat)] + rest),
        delete_units(u, seq![DelNode::Chars(k)] + rest) == delete_units(
            u.skip(m as int),
            seq![DelNode::Chars((k - m) as nat)] + rest,
        ),
{
    let d1 = seq![DelNode::Chars(k)] + rest;
    let d2 = seq![DelNode::Chars((k - m) as nat)] + rest;
    assert(d1.skip(1) =~= rest);
    assert(d2.skip(1) =~= rest);
    assert(u.skip(m as int).skip(k - m) =~= u.skip(k as int));
    let v = u.skip(m as int);
    assert forall|i: int| 0 <= i < k - m implies #[trigger] v[i] is Char && v[i]->Char_0.1
        == v[0]->Char_0.1 by {
        assert(v[i] == u[i + m]);
        assert(v[0] == u[m as int]);
    }
}

/// The atom that is current in a delete span, with the count that is
/// still to be served in place of its own.
pub open spec fn del_current(d: DelNode, cnt: nat) -> DelNode {
    match d {
        DelNode::Skip(_) => DelNode::Skip(cnt),
        DelNode::Chars(_) => DelNode::Chars(cnt),
        _ => d,
    }
}

/// A copy of a span.
pub fn clone_doc_span(span: &Vec<DocElement>) -> (res: Vec<DocElement>)
    ensures
        res.deep_view() == span.deep_view(),
{
    let mut res: Vec<DocElement> = Vec::new();
    let mut i: usize = 0;
    while i < span.len()
        invariant
            i <= span.len(),
            res@.len() == i,
            forall|j: int| 0 <= j < i ==> res@[j].deep_view() == span@[j].deep_view(),
        decreases span.len() - i,
    {
        res.push(span[i].clone());
        i += 1;
    }
    assert(res.deep_view() =~= span.deep_view());
    res
}

/// Places the atoms of `all` from index `from` on at the end of `res`.
pub fn doc_place_tail(res: &mut Vec<DocElement>, all: &Vec<DocElement>, from: usize)
    requires
        from <= all.len(),
    ensures
        final(res).deep_view() == place_doc_all(
            old(res).deep_view(),
            all.deep_view().skip(from as int),
        ),
{
    let mut i: usize = from;
    let ghost tail = all.deep_view().skip(from as int);
    assert(tail.take(0) =~= Seq::<DocNode>::empty());
    while i < all.len()
        invariant
            from <= i <= all.len(),
            tail == all.deep_view().skip(from as int),
            res.deep_view() == place_doc_all(old(res).deep_view(), tail.take(i - from)),
        decreases all.len() - i,
    {
        doc_place(res, &all[i]);
        proof {
            let t = tail.take(i - from + 1);
            assert(t.drop_last() =~= tail.take(i - from));
            assert(t.last() == all@[i as int].deep_view());
        }
        i += 1;
    }
    assert(tail.take(i - from) =~= tail);
}


/// The units that remain of a document while it is walked: those of the
/// current atom `first`, then those of the atoms after index `i`.
pub open spec fn remaining_units(first: DocNode, span: Seq<DocNode>, i: int) -> Seq<Unit> {
    node_units(first) + span_units(span.skip(i + 1))
}

/// Whether `first` may stand for the atom at index `i` of `span`, whole or
/// with the front of its run taken away.
pub open spec fn stands_for(first: DocNode, span: Seq<DocNode>, i: int) -> bool {
    &&& 0 <= i < span.len()
    &&& node_canonical(first)
    &&& match first {
        DocNode::Chars(t) => span[i] is Chars && span[i]->Chars_0.styles == t.styles,
        DocNode::Group(_, _) => first == span[i],
    }
}

/// The units after those of one atom are those of the next atom and what
/// follows it.
proof fn lemma_units_next(span: Seq<DocNode>, i: int)
    requires
        0 <= i < span.len(),
    ensures
        span_units(span.skip(i)) == node_units(span[i]) + span_units(span.skip(i + 1)),
{
    lemma_span_units_head(span.skip(i));
    assert(span.skip(i).skip(1) =~= span.skip(i + 1));
}

/// In a canonical span, an atom with units comes after `i` whenever units
/// remain after it.
proof fn lemma_units_nonempty(span: Seq<DocNode>, i: int)
    requires
        0 <= i <= span.len(),
        span_canonical(span),
    ensures
        span_units(span.skip(i)).len() > 0 <==> i < span.len(),
        i < span.len() ==> node_units(span[i]).len() > 0,
{
    if i < span.len() {
        lemma_units_next(span, i);
        assert(node_canonical(span[i]));
    } else {
        assert(span.skip(i) =~= Seq::<DocNode>::empty());
    }
}

/// In a canonical span, the characters that can be deleted in one step at
/// a run lie within that run.
proof fn lemma_run_within(first: DocNode, span: Seq<DocNode>, i: int, k: nat)
    requires
        span_canonical(span),
        stands_for(first, span, i),
        first is Chars,
        one_run(remaining_units(first, span, i), k),
    ensures
        k <= first->Chars_0.chars.len(),
{
    let t = first->Chars_0;
    let n = t.chars.len();
    let ru = remaining_units(first, span, i);
    if k > n {
        let after = span_units(span.skip(i + 1));
        assert(ru[n as int] == after[0]);
        assert(ru[0] == Unit::Char((t.chars[0], t.styles)));
        lemma_units_nonempty(span, i + 1);
        lemma_units_next(span, i + 1);
        let next = span[i + 1];
        assert(node_canonical(next));
        assert(after[0] == node_units(next)[0]);
        assert(!mergeable(span[i], span[i + 1]));
        match next {
            DocNode::Chars(w) => {
                assert(node_units(next)[0] == Unit::Char((w.chars[0], w.styles)));
            },
            DocNode::Group(_, _) => {},
        }
    }
}

/// Applies the delete span `delvec` to the document span `spanvec`.
///
/// The two are walked in step; a skip keeps units, a character delete
/// drops characters, a group atom descends into a group and either keeps
/// the group around its edited children or puts those children in its
/// place. What remains of the document when the delete span ends is kept.
#[verifier::rlimit(40)]
pub fn apply_delete(spanvec: &DocSpan, delvec: &DelSpan) -> (res: DocSpan)
    requires
        span_canonical(spanvec.deep_view()),
        delete_applies(span_units(spanvec.deep_view()), delvec.deep_view()),
    ensures
        span_canonical(res.deep_view()),
        span_units(res.deep_view()) == delete_units(
            span_units(spanvec.deep_view()),
            delvec.deep_view(),
        ),
    decreases delvec,
{
    let ghost span = spanvec.deep_view();
    let ghost del = delvec.deep_view();
    let ghost goal = delete_units(span_units(span), del);
    let mut res: Vec<DocElement> = Vec::new();
    if delvec.len() == 0 {
        return clone_doc_span(spanvec);
    }
    proof {
        lemma_units_nonempty(span, 0);
        assert(span.skip(0) =~= span);
        lemma_units_next(span, 0);
        assert(del =~= seq![del[0]] + del.skip(1));
        assert(span_units(res.deep_view()) + goal =~= goal);
    }
    let mut i: usize = 0;
    let mut first: DocElement = spanvec[0].clone();
    let mut j: usize = 0;
    let mut cnt: usize = match &delvec[0] {
        DelElement::DelSkip(n) => *n,
        DelElement::DelChars(n) => *n,
        _ => 0,
    };
    loop
        invariant
            span == spanvec.deep_view(),
            del == delvec.deep_view(),
            goal == delete_units(span_units(span), del),
            span_canonical(span),
            0 <= j < delvec.len(),
            0 <= i < spanvec.len(),
            stands_for(first.deep_view(), span, i as int),
            span_canonical(res.deep_view()),
            delete_applies(
                remaining_units(first.deep_view(), span, i as int),
                seq![del_current(del[j as int], cnt as nat)] + del.skip(j + 1),
            ),
            span_units(res.deep_view()) + delete_units(
                remaining_units(first.deep_view(), span, i as int),
                seq![del_current(del[j as int], cnt as nat)] + del.skip(j + 1),
            ) == goal,
        decreases del.len() - j, cnt,
    {
        let ghost ru = remaining_units(first.deep_view(), span, i as int);
        let ghost after = span_units(span.skip(i + 1));
        let ghost rest = del.skip(j + 1);
        let ghost rd = seq![del_current(del[j as int], cnt as nat)] + rest;
        let ghost res0 = res.deep_view();
        let ghost ru2 = after;
        let ghost rd2 = rest;
        proof {
            assert(rd.skip(1) =~= rest);
            assert(rd[0] == del_current(del[j as int], cnt as nat));
            assert(node_canonical(span[i as int]));
            assert(del[j as int] == delvec@[j as int].deep_view());
        }
        let mut nextdel = true;
        let mut nextfirst = true;
        let mut new_first: Option<DocElement> = None;
        match &delvec[j] {
            DelElement::DelSkip(_) => {
                match &first {
                    DocElement::DocChars(value) => {
                        let len = value.char_len();
                        if len < cnt {
                            proof {
                                lemma_place_doc_canonical(res0, first.deep_view());
                                lemma_place_doc_units(res0, first.deep_view());
                                lemma_delete_skip_part(ru, cnt as nat, len as nat, rest);
                                assert(ru.take(len as int) =~= node_units(first.deep_view()));
                                assert(ru.skip(len as int) =~= after);
                                rd2 = seq![DelNode::Skip((cnt - len) as nat)] + rest;
                            }
                            cnt = cnt - len;
                            doc_place(&mut res, &first);
                            nextdel = false;
                        } else if len > cnt {
                            let (left, right) = value.split_at(cnt);
                            let left = DocElement::DocChars(left);
                            let right = DocElement::DocChars(right);
                            proof {
                                lemma_place_doc_canonical(res0, left.deep_view());
                                lemma_place_doc_units(res0, left.deep_view());
                                assert(ru.take(cnt as int) =~= node_units(left.deep_view()));
                                ru2 = remaining_units(right.deep_view(), span, i as int);
                                assert(ru.skip(cnt as int) =~= ru2);
                            }
                            doc_place(&mut res, &left);
                            new_first = Some(right);
                            nextfirst = false;
                        } else {
                            proof {
                                lemma_place_doc_canonical(res0, first.deep_view());
                                lemma_place_doc_units(res0, first.deep_view());
                                assert(ru.take(cnt as int) =~= node_units(first.deep_view()));
                                assert(ru.skip(cnt as int) =~= after);
                            }
                            doc_place(&mut res, &first);
                        }
                    },
                    DocElement::DocGroup(_, _) => {
                        proof {
                            lemma_place_doc_canonical(res0, first.deep_view());
                            lemma_place_doc_units(res0, first.deep_view());
                            assert(ru.skip(1) =~= after);
                            assert(ru.take(1) =~= node_units(first.deep_view()));
                        }
                        doc_place(&mut res, &first);
                        if cnt > 1 {
                            proof {
                                lemma_delete_skip_part(ru, cnt as nat, 1, rest);
                                rd2 = seq![DelNode::Skip((cnt - 1) as nat)] + rest;
                            }
                            cnt = cnt - 1;
                            nextdel = false;
                        }
                    },
                }
            },
            DelElement::DelWithGroup(inner) => {
                match &first {
                    DocElement::DocGroup(attrs, children) => {
                        proof {
                            assert(ru[0] == Unit::Group(attrs@, span_units(children.deep_view())));
                            assert(ru.skip(1) =~= after);
                        }
                        let sub = apply_delete(children, inner);
                        let group = DocElement::DocGroup(attrs.clone(), sub);
                        proof {
                            lemma_place_doc_canonical(res0, group.deep_view());
                            lemma_place_doc_units(res0, group.deep_view());
                        }
                        doc_place(&mut res, &group);
                    },
                    DocElement::DocChars(value) => {
                        proof {
                            assert(ru[0] == Unit::Char((value@.chars[0], value@.styles)));
                            assert(false);
                        }
                    },
                }
            },
            DelElement::DelGroup(inner) => {
                match &first {
                    DocElement::DocGroup(attrs, children) => {
                        proof {
                            assert(ru[0] == Unit::Group(attrs@, span_units(children.deep_view())));
                            assert(ru.skip(1) =~= after);
                        }
                        let sub = apply_delete(children, inner);
                        proof {
                            lemma_place_doc_all_units(res0, sub.deep_view());
                            lemma_place_doc_all_canonical(res0, sub.deep_view());
                        }
                        doc_place_all(&mut res, &sub);
                    },
                    DocElement::DocChars(value) => {
                        proof {
                            assert(ru[0] == Unit::Char((value@.chars[0], value@.styles)));
                            assert(false);
                        }
                    },
                }
            },
            DelElement::DelChars(_) => {
                match &first {
                    DocElement::DocChars(value) => {
                        let len = value.char_len();
                        proof {
                            lemma_run_within(first.deep_view(), span, i as int, cnt as nat);
                        }
                        if len > cnt {
                            let (_, right) = value.split_at(cnt);
                            let right = DocElement::DocChars(right);
                            proof {
                                ru2 = remaining_units(right.deep_view(), span, i as int);
                                assert(ru.skip(cnt as int) =~= ru2);
                            }
                            new_first = Some(right);
                            nextfirst = false;
                        } else {
                            proof {
                                assert(ru.skip(cnt as int) =~= after);
                            }
                        }
                    },
                    DocElement::DocGroup(_, _) => {
                        proof {
                            assert(ru[0] is Group);
                            assert(false);
                        }
                    },
                }
            },
        }
        match new_first {
            Some(f) => {
                first = f;
            },
            None => {},
        }
        proof {
            assert(span_canonical(res.deep_view()));
            assert(delete_applies(ru2, rd2));
            assert(span_units(res.deep_view()) + delete_units(ru2, rd2) =~= goal);
            assert(nextfirst ==> ru2 == after);
            assert(!nextfirst ==> ru2 == remaining_units(first.deep_view(), span, i as int)
                && stands_for(first.deep_view(), span, i as int));
            assert(nextdel ==> rd2 == rest);
            assert(!nextdel ==> rd2 == seq![del_current(del[j as int], cnt as nat)] + rest);
        }
        if nextdel {
            j = j + 1;
            if j == delvec.len() {
                proof {
                    assert(rest =~= Seq::<DelNode>::empty());
                }
                if !nextfirst {
                    proof {
                        lemma_place_doc_canonical(res.deep_view(), first.deep_view());
                        lemma_place_doc_units(res.deep_view(), first.deep_view());
                    }
                    doc_place(&mut res, &first);
                }
                proof {
                    let tail = span.skip(i + 1);
                    lemma_place_doc_all_units(res.deep_view(), tail);
                    assert forall|x: int| 0 <= x < tail.len() implies node_canonical(
                        #[trigger] tail[x],
                    ) by {
                        assert(tail[x] == span[x + i + 1]);
                    }
                    lemma_place_doc_all_canonical(res.deep_view(), tail);
                }
                doc_place_tail(&mut res, spanvec, i + 1);
                proof {
                    assert(span_units(res.deep_view()) =~= goal);
                }
                return res;
            }
            cnt = match &delvec[j] {
                DelElement::DelSkip(n) => *n,
                DelElement::DelChars(n) => *n,
                _ => 0,
            };
            proof {
                assert(rest =~= seq![del[j as int]] + del.skip(j + 1));
                assert(del[j as int] == del_current(del[j as int], cnt as nat));
            }
        }
        if nextfirst {
            proof {
                lemma_units_nonempty(span, i + 1);
                if i + 1 < span.len() {
                    lemma_units_next(span, i + 1);
                    assert(node_canonical(span[i + 1]));
                }
            }
            i = i + 1;
            first = spanvec[i].clone();
        }
    }
}


/// The units `u` with the styles `s` laid over each character; groups are
/// left as they are.
pub open spec fn restyle(u: Seq<Unit>, s: StyleBag) -> Seq<Unit> {
    Seq::new(
        u.len(),
        |i: int|
            match u[i] {
                Unit::Char(c) => Unit::Char((c.0, c.1.overlay(s))),
                Unit::Group(a, c) => Unit::Group(a, c),
            },
    )
}

/// Whether the add span `add` fits the units `u`: a skip finds that many
/// units, a style overlay that many characters, a descent a group whose
/// children its inner span fits; a new group's inner span fits what is
/// there, and the atoms after it fit what that inner span leaves.
///
/// Counts are at least one, for the reason given for delete spans: a
/// count of zero would write a run of no characters or have nothing to
/// be decremented.
pub open spec fn add_applies(u: Seq<Unit>, add: Seq<AddNode>) -> bool
    decreases add,
{
    if add.len() == 0 {
        true
    } else {
        let rest = add.skip(1);
        match add[0] {
            AddNode::Skip(k) => 1 <= k <= u.len() && add_applies(u.skip(k as int), rest),
            AddNode::Chars(_) => add_applies(u, rest),
            AddNode::Styles(k, _) => 1 <= k && all_chars(u, k) && add_applies(
                u.skip(k as int),
                rest,
            ),
            AddNode::WithGroup(inner) => u.len() > 0 && u[0] is Group && add_applies(
                u[0]->Group_1,
                inner,
            ) && add_applies(u.skip(1), rest),
            AddNode::Group(_, inner) => add_applies(u, inner) && add_applies(
                add_inner_units(u, inner).1,
                rest,
            ),
        }
    }
}

/// What the add span `add` makes of the units `u`: the units it produces,
/// and the units of `u` that it has not reached.
pub open spec fn add_inner_units(u: Seq<Unit>, add: Seq<AddNode>) -> (Seq<Unit>, Seq<Unit>)
    decreases add,
{
    if add.len() == 0 {
        (Seq::empty(), u)
    } else {
        let rest = add.skip(1);
        match add[0] {
            AddNode::Skip(k) => {
                let r = add_inner_units(u.skip(k as int), rest);
                (u.take(k as int) + r.0, r.1)
            },
            AddNode::Chars(t) => {
                let r = add_inner_units(u, rest);
                (chars_units(t.chars, t.styles) + r.0, r.1)
            },
            AddNode::Styles(k, s) => {
                let r = add_inner_units(u.skip(k as int), rest);
                (restyle(u.take(k as int), s) + r.0, r.1)
            },
            AddNode::WithGroup(inner) => {
                let g = add_inner_units(u[0]->Group_1, inner);
                let r = add_inner_units(u.skip(1), rest);
                (seq![Unit::Group(u[0]->Group_0, g.0 + g.1)] + r.0, r.1)
            },
            AddNode::Group(attrs, inner) => {
                let g = add_inner_units(u, inner);
                let r = add_inner_units(g.1, rest);
                (seq![Unit::Group(attrs, g.0)] + r.0, r.1)
            },
        }
    }
}

/// The units of `u` once `add` has been applied to it: what the span
/// produces, followed by what it has not reached.
pub open spec fn add_units(u: Seq<Unit>, add: Seq<AddNode>) -> Seq<Unit> {
    let r = add_inner_units(u, add);
    r.0 + r.1
}


/// A skip of `k` units can be taken in two parts, `m` units first.
pub proof fn lemma_add_skip_part(u: Seq<Unit>, k: nat, m: nat, rest: Seq<AddNode>)
    requires
        0 < m < k,
        add_applies(u, seq![AddNode::Skip(k)] + rest),
    ensures
        add_applies(u.skip(m as int), seq![AddNode::Skip((k - m) as nat)] + rest),
        add_inner_units(u, seq![AddNode::Skip(k)] + rest).0 == u.take(m as int)
            + add_inner_units(u.skip(m as int), seq![AddNode::Skip((k - m) as nat)] + rest).0,
        add_inner_units(u, seq![AddNode::Skip(k)] + rest).1 == add_inner_units(
            u.skip(m as int),
            seq![AddNode::Skip((k - m) as nat)] + rest,
        ).1,
{
    let d1 = seq![AddNode::Skip(k)] + rest;
    let d2 = seq![AddNode::Skip((k - m) as nat)] + rest;
    assert(d1.skip(1) =~= rest);
    assert(d2.skip(1) =~= rest);
    assert(u.skip(m as int).skip(k - m) =~= u.skip(k as int));
    assert(u.take(k as int) =~= u.take(m as int) + u.skip(m as int).take(k - m));
    assert(add_inner_units(u, d1).0 =~= u.take(m as int) + add_inner_units(
        u.skip(m as int),
        d2,
    ).0);
}

/// A style overlay on `k` characters can be taken in two parts, `m`
/// characters first.
pub proof fn lemma_add_styles_part(u: Seq<Unit>, k: nat, m: nat, s: StyleBag, rest: Seq<AddNode>)
    requires
        0 < m < k,
        add_applies(u, seq![AddNode::Styles(k, s)] + rest),
    ensures
        add_applies(u.skip(m as int), seq![AddNode::Styles((k - m) as nat, s)] + rest),
        add_inner_units(u, seq![AddNode::Styles(k, s)] + rest).0 == restyle(u.take(m as int), s)
            + add_inner_units(
            u.skip(m as int),
            seq![AddNode::Styles((k - m) as nat, s)] + rest,
        ).0,
        add_inner_units(u, seq![AddNode::Styles(k, s)] + rest).1 == add_inner_units(
            u.skip(m as int),
            seq![AddNode::Styles((k - m) as nat, s)] + rest,
        ).1,
{
    let d1 = seq![AddNode::Styles(k, s)] + rest;
    let d2 = seq![AddNode::Styles((k - m) as nat, s)] + rest;
    assert(d1.skip(1) =~= rest);
    assert(d2.skip(1) =~= rest);
    assert(u.skip(m as int).skip(k - m) =~= u.skip(k as int));
    assert(restyle(u.take(k as int), s) =~= restyle(u.take(m as int), s) + restyle(
        u.skip(m as int).take(k - m),
        s,
    ));
    let v = u.skip(m as int);
    assert forall|i: int| 0 <= i < k - m implies #[trigger] v[i] is Char by {
        assert(v[i] == u[i + m]);
    }
    assert(add_inner_units(u, d1).0 =~= restyle(u.take(m as int), s) + add_inner_units(
        u.skip(m as int),
        d2,
    ).0);
}

/// The atom that is current in an add span, with the count that is still
/// to be served in place of its own.
pub open spec fn add_current(d: AddNode, cnt: nat) -> AddNode {
    match d {
        AddNode::Skip(_) => AddNode::Skip(cnt),
        AddNode::Styles(_, s) => AddNode::Styles(cnt, s),
        _ => d,
    }
}

/// The atoms that remain of a document while it is walked: the current
/// atom, if there is one, then the atoms after index `i`.
pub open spec fn remaining_span(first: Option<DocNode>, span: Seq<DocNode>, i: int) -> Seq<
    DocNode,
> {
    match first {
        Some(f) => seq![f] + span.skip(i + 1),
        None => Seq::empty(),
    }
}

/// What remains of a canonical span is canonical, and its units are the
/// units that remain.
proof fn lemma_remaining_span(first: DocNode, span: Seq<DocNode>, i: int)
    requires
        span_canonical(span),
        stands_for(first, span, i),
    ensures
        span_canonical(remaining_span(Some(first), span, i)),
        span_units(remaining_span(Some(first), span, i)) == remaining_units(first, span, i),
{
    let r = remaining_span(Some(first), span, i);
    lemma_span_units_concat(seq![first], span.skip(i + 1));
    lemma_span_units_single(first);
    assert forall|x: int| 0 <= x < r.len() implies node_canonical(#[trigger] r[x]) by {
        if x > 0 {
            assert(r[x] == span[x + i]);
        }
    }
    assert forall|x: int| 0 <= x < r.len() - 1 implies !mergeable(#[trigger] r[x], r[x + 1]) by {
        assert(r[x + 1] == span[x + i + 1]);
        assert(!mergeable(span[x + i], span[x + i + 1]));
        if x > 0 {
            assert(r[x] == span[x + i]);
        }
    }
}

/// The atoms of `span` from index `from` on, after `first` if it is given.
fn rest_of(first: Option<&DocElement>, spanvec: &Vec<DocElement>, from: usize) -> (res: Vec<
    DocElement,
>)
    requires
        from <= spanvec.len(),
    ensures
        res.deep_view() == (match first {
            Some(f) => seq![f.deep_view()],
            None => Seq::empty(),
        }) + spanvec.deep_view().skip(from as int),
{
    let mut res: Vec<DocElement> = Vec::new();
    match first {
        Some(f) => {
            res.push(f.clone());
        },
        None => {},
    }
    let ghost head = res.deep_view();
    assert(head =~= (match first {
        Some(f) => seq![f.deep_view()],
        None => Seq::empty(),
    }));
    let mut i: usize = from;
    while i < spanvec.len()
        invariant
            from <= i <= spanvec.len(),
            res.deep_view() =~= head + spanvec.deep_view().subrange(from as int, i as int),
        decreases spanvec.len() - i,
    {
        let ghost before = res.deep_view();
        res.push(spanvec[i].clone());
        proof {
            assert(res.deep_view() =~= before.push(spanvec@[i as int].deep_view()));
            assert(spanvec.deep_view().subrange(from as int, i + 1) =~= spanvec.deep_view().subrange(
                from as int,
                i as int,
            ).push(spanvec@[i as int].deep_view()));
        }
        i += 1;
    }
    assert(spanvec.deep_view().subrange(from as int, i as int) =~= spanvec.deep_view().skip(
        from as int,
    ));
    res
}


/// The view of an atom that may be absent.
pub open spec fn opt_node(first: Option<DocElement>) -> Option<DocNode> {
    match first {
        Some(f) => Some(f.deep_view()),
        None => None,
    }
}

/// The units that remain of a document while it is walked, none when it
/// is exhausted.
pub open spec fn remaining_units_opt(first: Option<DocNode>, span: Seq<DocNode>, i: int) -> Seq<
    Unit,
> {
    match first {
        Some(f) => remaining_units(f, span, i),
        None => Seq::empty(),
    }
}

/// What holds between the steps of adding: the span built so far is
/// canonical, the atoms still to come fit the units still to come, and
/// what they will produce and leave completes the result.
pub open spec fn add_mid(
    res: Seq<DocNode>,
    ru: Seq<Unit>,
    rd: Seq<AddNode>,
    goal: (Seq<Unit>, Seq<Unit>),
) -> bool {
    &&& span_canonical(res)
    &&& add_applies(ru, rd)
    &&& span_units(res) + add_inner_units(ru, rd).0 =~= goal.0
    &&& add_inner_units(ru, rd).1 == goal.1
}

/// Laying styles over a run lays them over each of its units.
proof fn lemma_restyle_run(t: Text, s: StyleBag)
    ensures
        restyle(chars_units(t.chars, t.styles), s) == chars_units(t.chars, t.styles.overlay(s)),
{
    assert(restyle(chars_units(t.chars, t.styles), s) =~= chars_units(
        t.chars,
        t.styles.overlay(s),
    ));
}

/// Applies the atoms of `addvec` from index `from` on to `spanvec`; gives
/// the span they produce and the part of the document they did not reach.
#[verifier::rlimit(60)]
fn apply_add_at(spanvec: &DocSpan, addvec: &AddSpan, from: usize) -> (res: (DocSpan, DocSpan))
    requires
        from <= addvec.len(),
        span_canonical(spanvec.deep_view()),
        add_applies(span_units(spanvec.deep_view()), addvec.deep_view().skip(from as int)),
    ensures
        span_canonical(res.0.deep_view()),
        span_canonical(res.1.deep_view()),
        span_units(res.0.deep_view()) == add_inner_units(
            span_units(spanvec.deep_view()),
            addvec.deep_view().skip(from as int),
        ).0,
        span_units(res.1.deep_view()) == add_inner_units(
            span_units(spanvec.deep_view()),
            addvec.deep_view().skip(from as int),
        ).1,
    decreases addvec, addvec.len() - from,
{
    let ghost span = spanvec.deep_view();
    let ghost add = addvec.deep_view();
    let ghost goal = add_inner_units(span_units(span), add.skip(from as int));
    let mut res: Vec<DocElement> = Vec::new();
    if from == addvec.len() {
        return (res, clone_doc_span(spanvec));
    }
    let mut i: usize = 0;
    let mut first: Option<DocElement> = if spanvec.len() > 0 {
        Some(spanvec[0].clone())
    } else {
        None
    };
    let mut j: usize = from;
    let mut cnt: usize = match &addvec[j] {
        AddElement::AddSkip(n) => *n,
        AddElement::AddStyles(n, _) => *n,
        _ => 0,
    };
    proof {
        lemma_units_nonempty(span, 0);
        assert(span.skip(0) =~= span);
        if span.len() > 0 {
            lemma_units_next(span, 0);
        }
        assert(add.skip(from as int) =~= seq![add[from as int]] + add.skip(from + 1));
        assert(span_units(res.deep_view()) + goal.0 =~= goal.0);
    }
    loop
        invariant
            span == spanvec.deep_view(),
            add == addvec.deep_view(),
            goal == add_inner_units(span_units(span), add.skip(from as int)),
            span_canonical(span),
            from <= j < addvec.len(),
            i <= spanvec.len(),
            first is Some ==> stands_for(first->Some_0.deep_view(), span, i as int),
            first is None ==> i == spanvec.len(),
            span_canonical(res.deep_view()),
            add_applies(
                remaining_units_opt(opt_node(first), span, i as int),
                seq![add_current(add[j as int], cnt as nat)] + add.skip(j + 1),
            ),
            span_units(res.deep_view()) + add_inner_units(
                remaining_units_opt(opt_node(first), span, i as int),
                seq![add_current(add[j as int], cnt as nat)] + add.skip(j + 1),
            ).0 == goal.0,
            add_inner_units(
                remaining_units_opt(opt_node(first), span, i as int),
                seq![add_current(add[j as int], cnt as nat)] + add.skip(j + 1),
            ).1 == goal.1,
        decreases add.len() - j, cnt,
    {
        let ghost ru = remaining_units_opt(opt_node(first), span, i as int);
        let ghost after = span_units(span.skip(i + 1));
        let ghost rest = add.skip(j + 1);
        let ghost rd = seq![add_current(add[j as int], cnt as nat)] + rest;
        let ghost res0 = res.deep_view();
        let ghost ru2 = after;
        let ghost rd2 = rest;
        proof {
            assert(rd.skip(1) =~= rest);
            assert(rd[0] == add_current(add[j as int], cnt as nat));
            assert(add[j as int] == addvec@[j as int].deep_view());
            if first is Some {
                assert(node_canonical(span[i as int]));
            }
        }
        let mut nextdel = true;
        let mut nextfirst = true;
        let mut new_first: Option<DocElement> = None;
        match &addvec[j] {
            AddElement::AddStyles(_, styles) => {
                match &first {
                    Some(DocElement::DocChars(value)) => {
                        let len = value.char_len();
                        if len < cnt {
                            let mut styled = value.clone();
                            styled.extend_styles(styles);
                            let styled = DocElement::DocChars(styled);
                            proof {
                                lemma_restyle_run(value@, styles@);
                                lemma_place_doc_canonical(res0, styled.deep_view());
                                lemma_place_doc_units(res0, styled.deep_view());
                                lemma_add_styles_part(
                                    ru,
                                    cnt as nat,
                                    len as nat,
                                    styles@,
                                    rest,
                                );
                                assert(ru.take(len as int) =~= node_units(
                                    first->Some_0.deep_view(),
                                ));
                                assert(ru.skip(len as int) =~= after);
                                rd2 = seq![AddNode::Styles((cnt - len) as nat, styles@)] + rest;
                            }
                            cnt = cnt - len;
                            doc_place(&mut res, &styled);
                            proof {
                                assert(add_mid(res.deep_view(), ru2, rd2, goal));
                            }
                            nextdel = false;
                        } else if len > cnt {
                            let (mut left, right) = value.split_at(cnt);
                            let ghost plain_left = left@;
                            left.extend_styles(styles);
                            let left = DocElement::DocChars(left);
                            let right = DocElement::DocChars(right);
                            proof {
                                lemma_restyle_run(plain_left, styles@);
                                lemma_place_doc_canonical(res0, left.deep_view());
                                lemma_place_doc_units(res0, left.deep_view());
                                assert(ru.take(cnt as int) =~= chars_units(
                                    plain_left.chars,
                                    plain_left.styles,
                                ));
                                ru2 = remaining_units(right.deep_view(), span, i as int);
                                assert(ru.skip(cnt as int) =~= ru2);
                            }
                            doc_place(&mut res, &left);
                            proof {
                                assert(add_mid(res.deep_view(), ru2, rd2, goal));
                            }
                            new_first = Some(right);
                            nextfirst = false;
                        } else {
                            let mut styled = value.clone();
                            styled.extend_styles(styles);
                            let styled = DocElement::DocChars(styled);
                            proof {
                                lemma_restyle_run(value@, styles@);
                                lemma_place_doc_canonical(res0, styled.deep_view());
                                lemma_place_doc_units(res0, styled.deep_view());
                                assert(ru.take(cnt as int) =~= node_units(
                                    first->Some_0.deep_view(),
                                ));
                                assert(ru.skip(cnt as int) =~= after);
                            }
                            doc_place(&mut res, &styled);
                            proof {
                                assert(add_mid(res.deep_view(), ru2, rd2, goal));
                            }
                        }
                    },
                    Some(DocElement::DocGroup(_, _)) => {
                        proof {
                            assert(ru[0] is Group);
                            assert(false);
                        }
                    },
                    None => {
                        proof {
                            assert(false);
                        }
                    },
                }
            },
            AddElement::AddSkip(_) => {
                match &first {
                    Some(DocElement::DocChars(value)) => {
                        let len = value.char_len();
                        let whole = first.as_ref().unwrap();
                        if len < cnt {
                            proof {
                                lemma_place_doc_canonical(res0, whole.deep_view());
                                lemma_place_doc_units(res0, whole.deep_view());
                                lemma_add_skip_part(ru, cnt as nat, len as nat, rest);
                                assert(ru.take(len as int) =~= node_units(whole.deep_view()));
                                assert(ru.skip(len as int) =~= after);
                                rd2 = seq![AddNode::Skip((cnt - len) as nat)] + rest;
                            }
                            cnt = cnt - len;
                            doc_place(&mut res, whole);
                            proof {
                                assert(add_mid(res.deep_view(), ru2, rd2, goal));
                            }
                            nextdel = false;
                        } else if len > cnt {
                            let (left, right) = value.split_at(cnt);
                            let left = DocElement::DocChars(left);
                            let right = DocElement::DocChars(right);
                            proof {
                                lemma_place_doc_canonical(res0, left.deep_view());
                                lemma_place_doc_units(res0, left.deep_view());
                                assert(ru.take(cnt as int) =~= node_units(left.deep_view()));
                                ru2 = remaining_units(right.deep_view(), span, i as int);
                                assert(ru.skip(cnt as int) =~= ru2);
                            }
                            doc_place(&mut res, &left);
                            proof {
                                assert(add_mid(res.deep_view(), ru2, rd2, goal));
                            }
                            new_first = Some(right);
                            nextfirst = false;
                        } else {
                            proof {
                                lemma_place_doc_canonical(res0, whole.deep_view());
                                lemma_place_doc_units(res0, whole.deep_view());
                                assert(ru.take(cnt as int) =~= node_units(whole.deep_view()));
                                assert(ru.skip(cnt as int) =~= after);
                            }
                            doc_place(&mut res, whole);
                            proof {
                                assert(add_mid(res.deep_view(), ru2, rd2, goal));
                            }
                        }
                    },
                    Some(DocElement::DocGroup(_, _)) => {
                        let whole = first.as_ref().unwrap();
                        proof {
                            lemma_place_doc_canonical(res0, whole.deep_view());
                            lemma_place_doc_units(res0, whole.deep_view());
                            assert(ru.skip(1) =~= after);
                            assert(ru.take(1) =~= node_units(whole.deep_view()));
                        }
                        doc_place(&mut res, whole);
                        if cnt > 1 {
                            proof {
                                lemma_add_skip_part(ru, cnt as nat, 1, rest);
                                rd2 = seq![AddNode::Skip((cnt - 1) as nat)] + rest;
                            }
                            cnt = cnt - 1;
                            nextdel = false;
                        }
                        proof {
                            assert(add_mid(res.deep_view(), ru2, rd2, goal));
                        }
                    },
                    None => {
                        proof {
                            assert(false);
                        }
                    },
                }
            },
            AddElement::AddWithGroup(inner) => {
                match &first {
                    Some(DocElement::DocGroup(attrs, children)) => {
                        proof {
                            assert(ru[0] == Unit::Group(attrs@, span_units(children.deep_view())));
                            assert(ru.skip(1) =~= after);
                        }
                        let sub = apply_add(children, inner);
                        let group = DocElement::DocGroup(attrs.clone(), sub);
                        proof {
                            lemma_place_doc_canonical(res0, group.deep_view());
                            lemma_place_doc_units(res0, group.deep_view());
                        }
                        doc_place(&mut res, &group);
                        proof {
                            assert(add_mid(res.deep_view(), ru2, rd2, goal));
                        }
                    },
                    Some(DocElement::DocChars(value)) => {
                        proof {
                            assert(ru[0] == Unit::Char((value@.chars[0], value@.styles)));
                            assert(false);
                        }
                    },
                    None => {
                        proof {
                            assert(false);
                        }
                    },
                }
            },
            AddElement::AddChars(value) => {
                let run = DocElement::DocChars(value.clone());
                proof {
                    lemma_place_doc_canonical(res0, run.deep_view());
                    lemma_place_doc_units(res0, run.deep_view());
                    ru2 = ru;
                }
                doc_place(&mut res, &run);
                proof {
                    assert(add_mid(res.deep_view(), ru2, rd2, goal));
                }
                nextfirst = false;
            },
            AddElement::AddGroup(attrs, innerspan) => {
                let subdoc = match &first {
                    Some(f) => rest_of(Some(f), spanvec, i + 1),
                    None => rest_of(None, spanvec, i),
                };
                proof {
                    if first is Some {
                        lemma_remaining_span(first->Some_0.deep_view(), span, i as int);
                        assert(subdoc.deep_view() =~= remaining_span(
                            opt_node(first),
                            span,
                            i as int,
                        ));
                    } else {
                        assert(subdoc.deep_view() =~= Seq::<DocNode>::empty());
                    }
                    assert(innerspan.deep_view().skip(0) =~= innerspan.deep_view());
                }
                let (inner, rest1) = apply_add_at(&subdoc, innerspan, 0);
                let group = DocElement::DocGroup(attrs.clone(), inner);
                proof {
                    lemma_place_doc_canonical(res0, group.deep_view());
                    lemma_place_doc_units(res0, group.deep_view());
                }
                doc_place(&mut res, &group);
                let ghost res1 = res.deep_view();
                let (inner2, rest2) = apply_add_at(&rest1, addvec, j + 1);
                proof {
                    lemma_place_doc_all_units(res1, inner2.deep_view());
                    lemma_place_doc_all_canonical(res1, inner2.deep_view());
                }
                doc_place_all(&mut res, &inner2);
                proof {
                    assert(span_units(res.deep_view()) =~= goal.0);
                }
                return (res, rest2);
            },
        }
        match new_first {
            Some(f) => {
                first = Some(f);
            },
            None => {},
        }
        if nextfirst {
            proof {
                lemma_units_nonempty(span, i + 1);
                if i + 1 < span.len() {
                    lemma_units_next(span, i + 1);
                    assert(node_canonical(span[i + 1]));
                }
            }
            i = i + 1;
            if i == spanvec.len() {
                first = None;
            } else {
                first = Some(spanvec[i].clone());
            }
        }
        proof {
            assert(add_mid(res.deep_view(), ru2, rd2, goal));
            assert(remaining_units_opt(opt_node(first), span, i as int) =~= ru2);
            assert(nextdel ==> rd2 == rest);
            assert(!nextdel ==> rd2 == seq![add_current(add[j as int], cnt as nat)] + rest);
        }
        if nextdel {
            j = j + 1;
            if j == addvec.len() {
                proof {
                    assert(rest =~= Seq::<AddNode>::empty());
                }
                let remaining = match &first {
                    Some(f) => rest_of(Some(f), spanvec, i + 1),
                    None => rest_of(None, spanvec, i),
                };
                proof {
                    if first is Some {
                        lemma_remaining_span(first->Some_0.deep_view(), span, i as int);
                        assert(remaining.deep_view() =~= remaining_span(
                            opt_node(first),
                            span,
                            i as int,
                        ));
                    } else {
                        assert(remaining.deep_view() =~= Seq::<DocNode>::empty());
                    }
                    assert(span_units(res.deep_view()) =~= goal.0);
                }
                return (res, remaining);
            }
            cnt = match &addvec[j] {
                AddElement::AddSkip(n) => *n,
                AddElement::AddStyles(n, _) => *n,
                _ => 0,
            };
            proof {
                assert(rest =~= seq![add[j as int]] + add.skip(j + 1));
                assert(add[j as int] == add_current(add[j as int], cnt as nat));
            }
        }
    }
}

/// Applies the add span `addvec` to the document span `spanvec`; gives the
/// span it produces and the part of the document it did not reach.
pub fn apply_add_inner(spanvec: &DocSpan, addvec: &AddSpan) -> (res: (DocSpan, DocSpan))
    requires
        span_canonical(spanvec.deep_view()),
        add_applies(span_units(spanvec.deep_view()), addvec.deep_view()),
    ensures
        span_canonical(res.0.deep_view()),
        span_canonical(res.1.deep_view()),
        span_units(res.0.deep_view()) == add_inner_units(
            span_units(spanvec.deep_view()),
            addvec.deep_view(),
        ).0,
        span_units(res.1.deep_view()) == add_inner_units(
            span_units(spanvec.deep_view()),
            addvec.deep_view(),
        ).1,
    decreases addvec, addvec.len() + 1,
{
    proof {
        assert(addvec.deep_view().skip(0) =~= addvec.deep_view());
    }
    apply_add_at(spanvec, addvec, 0)
}

/// Applies the add span `addvec` to the document span `spanvec`. What the
/// span does not reach is kept after what it produces.
pub fn apply_add(spanvec: &DocSpan, addvec: &AddSpan) -> (res: DocSpan)
    requires
        span_canonical(spanvec.deep_view()),
        add_applies(span_units(spanvec.deep_view()), addvec.deep_view()),
    ensures
        span_canonical(res.deep_view()),
        span_units(res.deep_view()) == add_units(
            span_units(spanvec.deep_view()),
            addvec.deep_view(),
        ),
    decreases addvec, addvec.len() + 2,
{
    let (mut res, remaining) = apply_add_inner(spanvec, addvec);
    if remaining.len() > 0 {
        proof {
            lemma_place_doc_all_units(res.deep_view(), remaining.deep_view());
            lemma_place_doc_all_canonical(res.deep_view(), remaining.deep_view());
        }
        doc_place_all(&mut res, &remaining);
    } else {
        proof {
            assert(remaining.deep_view() =~= Seq::<DocNode>::empty());
            assert(span_units(res.deep_view()) + span_units(remaining.deep_view()) =~= span_units(
                res.deep_view(),
            ));
        }
    }
    res
}

/// Whether the operation `op` fits the units `u`: its delete span fits
/// them, and its add span fits what the delete span leaves.
pub open spec fn op_applies(u: Seq<Unit>, op: (Seq<DelNode>, Seq<AddNode>)) -> bool {
    delete_applies(u, op.0) && add_applies(delete_units(u, op.0), op.1)
}

/// The units of `u` once `op` has been applied: its delete span first,
/// then its add span.
pub open spec fn op_units(u: Seq<Unit>, op: (Seq<DelNode>, Seq<AddNode>)) -> Seq<Unit> {
    add_units(delete_units(u, op.0), op.1)
}

/// Applies an operation to a document span: the delete span first, then
/// the add span to what that leaves.
pub fn apply_operation(spanvec: &DocSpan, op: &Op) -> (res: DocSpan)
    requires
        span_canonical(spanvec.deep_view()),
        op_applies(span_units(spanvec.deep_view()), (op.0.deep_view(), op.1.deep_view())),
    ensures
        span_canonical(res.deep_view()),
        span_units(res.deep_view()) == op_units(
            span_units(spanvec.deep_view()),
            (op.0.deep_view(), op.1.deep_view()),
        ),
{
    let postdel = apply_delete(spanvec, &op.0);
    apply_add(&postdel, &op.1)
}

} // verus!
