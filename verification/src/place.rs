//! Placing an atom at the end of a span, merging it into the last atom
//! where the two are of the same mergeable kind.

use crate::doc::{
    group_views, AddElement, AddNode, DelElement, DelNode, DocElement, DocNode, DocString, Text,
};
use crate::units::{
    lemma_chars_units_concat, mergeable, node_canonical, node_units, span_canonical, span_units,
};
use vstd::prelude::*;

verus! {

broadcast use {vstd::group_vstd_default, group_views};

/// The span `s` after `n` was placed at its end. An empty run leaves the
/// span as it is; a run joins a last run of the same styles; anything else
/// is appended.
pub open spec fn place_doc(s: Seq<DocNode>, n: DocNode) -> Seq<DocNode> {
    match n {
        DocNode::Chars(t) => if t.chars.len() == 0 {
            s
        } else if s.len() > 0 && mergeable(s.last(), n) {
            s.drop_last().push(
                DocNode::Chars(
                    Text { chars: s.last()->Chars_0.chars + t.chars, styles: t.styles },
                ),
            )
        } else {
            s.push(n)
        },
        DocNode::Group(_, _) => s.push(n),
    }
}

/// The span `s` after each atom of `all` was placed at its end, in order.
pub open spec fn place_doc_all(s: Seq<DocNode>, all: Seq<DocNode>) -> Seq<DocNode>
    decreases all.len(),
{
    if all.len() == 0 {
        s
    } else {
        place_doc(place_doc_all(s, all.drop_last()), all.last())
    }
}

/// Placing an atom appends its units.
pub proof fn lemma_place_doc_units(s: Seq<DocNode>, n: DocNode)
    ensures
        span_units(place_doc(s, n)) == span_units(s) + node_units(n),
{
    match n {
        DocNode::Chars(t) => {
            if t.chars.len() == 0 {
                assert(span_units(s) + node_units(n) =~= span_units(s));
            } else if s.len() > 0 && mergeable(s.last(), n) {
                let p = s.last()->Chars_0;
                let joined = DocNode::Chars(Text { chars: p.chars + t.chars, styles: t.styles });
                assert(s.drop_last().push(joined).drop_last() =~= s.drop_last());
                lemma_chars_units_concat(p.chars, t.chars, t.styles);
                let r = s.drop_last().push(joined);
                assert(r.last() == joined);
                assert(span_units(r) == span_units(s.drop_last()) + node_units(joined));
                assert(span_units(s) == span_units(s.drop_last()) + node_units(s.last()));
                assert(node_units(joined) == node_units(s.last()) + node_units(n));
                assert(span_units(place_doc(s, n)) =~= span_units(s) + node_units(n));
            } else {
                assert(s.push(n).drop_last() =~= s);
            }
        },
        DocNode::Group(_, _) => {
            assert(s.push(n).drop_last() =~= s);
        },
    }
}

/// Placing a canonical atom, or an empty run, keeps a span canonical.
pub proof fn lemma_place_doc_canonical(s: Seq<DocNode>, n: DocNode)
    requires
        span_canonical(s),
        node_canonical(n) || (n matches DocNode::Chars(t) && t.chars.len() == 0),
    ensures
        span_canonical(place_doc(s, n)),
{
    let r = place_doc(s, n);
    match n {
        DocNode::Chars(t) => {
            if t.chars.len() == 0 {
            } else if s.len() > 0 && mergeable(s.last(), n) {
                assert forall|i: int| 0 <= i < r.len() implies node_canonical(#[trigger] r[i]) by {
                    if i < r.len() - 1 {
                        assert(r[i] == s[i]);
                    }
                }
                assert forall|i: int| 0 <= i < r.len() - 1 implies !mergeable(
                    #[trigger] r[i],
                    r[i + 1],
                ) by {
                    assert(r[i] == s[i]);
                    assert(!mergeable(s[i], s[i + 1]));
                }
            } else {
                assert forall|i: int| 0 <= i < r.len() implies node_canonical(#[trigger] r[i]) by {
                    if i < r.len() - 1 {
                        assert(r[i] == s[i]);
                    }
                }
                assert forall|i: int| 0 <= i < r.len() - 1 implies !mergeable(
                    #[trigger] r[i],
                    r[i + 1],
                ) by {
                    assert(r[i] == s[i]);
                    if i < s.len() - 1 {
                        assert(!mergeable(s[i], s[i + 1]));
                    }
                }
            }
        },
        DocNode::Group(_, _) => {
            assert forall|i: int| 0 <= i < r.len() implies node_canonical(#[trigger] r[i]) by {
                if i < r.len() - 1 {
                    assert(r[i] == s[i]);
                }
            }
            assert forall|i: int| 0 <= i < r.len() - 1 implies !mergeable(
                #[trigger] r[i],
                r[i + 1],
            ) by {
                assert(r[i] == s[i]);
                if i < s.len() - 1 {
                    assert(!mergeable(s[i], s[i + 1]));
                }
            }
        },
    }
}

/// Placing a span appends its units.
pub proof fn lemma_place_doc_all_units(s: Seq<DocNode>, all: Seq<DocNode>)
    ensures
        span_units(place_doc_all(s, all)) == span_units(s) + span_units(all),
    decreases all.len(),
{
    if all.len() == 0 {
        assert(span_units(s) + span_units(all) =~= span_units(s));
    } else {
        lemma_place_doc_all_units(s, all.drop_last());
        lemma_place_doc_units(place_doc_all(s, all.drop_last()), all.last());
        assert(span_units(place_doc_all(s, all)) =~= span_units(s) + span_units(all));
    }
}

/// Placing a canonical span onto a canonical span gives a canonical span.
pub proof fn lemma_place_doc_all_canonical(s: Seq<DocNode>, all: Seq<DocNode>)
    requires
        span_canonical(s),
        forall|i: int| 0 <= i < all.len() ==> node_canonical(#[trigger] all[i]),
    ensures
        span_canonical(place_doc_all(s, all)),
    decreases all.len(),
{
    if all.len() > 0 {
        assert forall|i: int| 0 <= i < all.drop_last().len() implies node_canonical(
            #[trigger] all.drop_last()[i],
        ) by {
            assert(all.drop_last()[i] == all[i]);
        }
        lemma_place_doc_all_canonical(s, all.drop_last());
        lemma_place_doc_canonical(place_doc_all(s, all.drop_last()), all.last());
    }
}

/// Places `elem` at the end of `res`.
pub fn doc_place(res: &mut Vec<DocElement>, elem: &DocElement)
    ensures
        final(res).deep_view() == place_doc(old(res).deep_view(), elem.deep_view()),
{
    let ghost before = res.deep_view();
    match elem {
        DocElement::DocChars(text) => {
            if text.char_len() == 0 {
                return ;
            }
            let n = res.len();
            if n > 0 {
                let merge = match &res[n - 1] {
                    DocElement::DocChars(prefix) => prefix.styles.same(&text.styles),
                    DocElement::DocGroup(_, _) => false,
                };
                if merge {
                    let last = res.pop().unwrap();
                    assert(res.deep_view() =~= before.drop_last());
                    if let DocElement::DocChars(mut prefix) = last {
                        prefix.push_str(text.as_str());
                        res.push(DocElement::DocChars(prefix));
                        assert(res.deep_view() =~= place_doc(before, elem.deep_view()));
                    }
                    return ;
                }
            }
            res.push(DocElement::DocChars(text.clone()));
            assert(res.deep_view() =~= place_doc(before, elem.deep_view()));
        },
        DocElement::DocGroup(_, _) => {
            res.push(elem.clone());
            assert(res.deep_view() =~= place_doc(before, elem.deep_view()));
        },
    }
}

/// Places each atom of `all` at the end of `res`, in order.
pub fn doc_place_all(res: &mut Vec<DocElement>, all: &Vec<DocElement>)
    ensures
        final(res).deep_view() == place_doc_all(old(res).deep_view(), all.deep_view()),
{
    let mut i: usize = 0;
    while i < all.len()
        invariant
            i <= all.len(),
            res.deep_view() == place_doc_all(old(res).deep_view(), all.deep_view().take(i as int)),
        decreases all.len() - i,
    {
        doc_place(res, &all[i]);
        proof {
            let t = all.deep_view().take(i + 1);
            assert(t.drop_last() =~= all.deep_view().take(i as int));
            assert(t.last() == all@[i as int].deep_view());
        }
        i += 1;
    }
    assert(all.deep_view().take(i as int) =~= all.deep_view());
}


/// The delete span `s` after `n` was placed at its end: a skip joins a
/// last skip and a character delete a last character delete, their counts
/// added; anything else is appended.
pub open spec fn place_del(s: Seq<DelNode>, n: DelNode) -> Seq<DelNode> {
    match n {
        DelNode::Chars(k) => if s.len() > 0 && s.last() is Chars {
            s.drop_last().push(DelNode::Chars(s.last()->Chars_0 + k))
        } else {
            s.push(n)
        },
        DelNode::Skip(k) => if s.len() > 0 && s.last() is Skip {
            s.drop_last().push(DelNode::Skip(s.last()->Skip_0 + k))
        } else {
            s.push(n)
        },
        _ => s.push(n),
    }
}

/// Whether placing `n` at the end of `s` keeps every count within the
/// machine's range.
pub open spec fn place_del_fits(s: Seq<DelNode>, n: DelNode) -> bool {
    match n {
        DelNode::Chars(k) => s.len() > 0 && s.last() is Chars ==> s.last()->Chars_0 + k
            <= usize::MAX,
        DelNode::Skip(k) => s.len() > 0 && s.last() is Skip ==> s.last()->Skip_0 + k
            <= usize::MAX,
        _ => true,
    }
}

/// Places a delete of `count` characters at the end of `res`.
pub fn del_place_chars(res: &mut Vec<DelElement>, count: usize)
    requires
        place_del_fits(old(res).deep_view(), DelNode::Chars(count as nat)),
    ensures
        final(res).deep_view() == place_del(old(res).deep_view(), DelNode::Chars(count as nat)),
{
    let ghost before = res.deep_view();
    let n = res.len();
    if n > 0 {
        let merged = match &res[n - 1] {
            DelElement::DelChars(prefix) => Some(*prefix + count),
            _ => None,
        };
        match merged {
            Some(total) => {
                res.pop();
                assert(res.deep_view() =~= before.drop_last());
                res.push(DelElement::DelChars(total));
                assert(res.deep_view() =~= place_del(before, DelNode::Chars(count as nat)));
                return ;
            },
            None => {},
        }
    }
    res.push(DelElement::DelChars(count));
    assert(res.deep_view() =~= place_del(before, DelNode::Chars(count as nat)));
}

/// Places a skip of `count` units at the end of `res`.
pub fn del_place_skip(res: &mut Vec<DelElement>, count: usize)
    requires
        place_del_fits(old(res).deep_view(), DelNode::Skip(count as nat)),
    ensures
        final(res).deep_view() == place_del(old(res).deep_view(), DelNode::Skip(count as nat)),
{
    let ghost before = res.deep_view();
    let n = res.len();
    if n > 0 {
        let merged = match &res[n - 1] {
            DelElement::DelSkip(prefix) => Some(*prefix + count),
            _ => None,
        };
        match merged {
            Some(total) => {
                res.pop();
                assert(res.deep_view() =~= before.drop_last());
                res.push(DelElement::DelSkip(total));
                assert(res.deep_view() =~= place_del(before, DelNode::Skip(count as nat)));
                return ;
            },
            None => {},
        }
    }
    res.push(DelElement::DelSkip(count));
    assert(res.deep_view() =~= place_del(before, DelNode::Skip(count as nat)));
}

/// Places the atom `value` at the end of `res`.
pub fn del_place_any(res: &mut Vec<DelElement>, value: &DelElement)
    requires
        place_del_fits(old(res).deep_view(), value.deep_view()),
    ensures
        final(res).deep_view() == place_del(old(res).deep_view(), value.deep_view()),
{
    let ghost before = res.deep_view();
    match value {
        DelElement::DelChars(count) => {
            del_place_chars(res, *count);
        },
        DelElement::DelSkip(count) => {
            del_place_skip(res, *count);
        },
        _ => {
            res.push(value.clone());
            assert(res.deep_view() =~= place_del(before, value.deep_view()));
        },
    }
}

/// The add span `s` after `n` was placed at its end: a skip joins a last
/// skip, their counts added; inserted text joins a last insertion of the
/// same styles; anything else is appended.
pub open spec fn place_add(s: Seq<AddNode>, n: AddNode) -> Seq<AddNode> {
    match n {
        AddNode::Chars(t) => if s.len() > 0 && s.last() is Chars && s.last()->Chars_0.styles
            == t.styles {
            s.drop_last().push(
                AddNode::Chars(
                    Text { chars: s.last()->Chars_0.chars + t.chars, styles: t.styles },
                ),
            )
        } else {
            s.push(n)
        },
        AddNode::Skip(k) => if s.len() > 0 && s.last() is Skip {
            s.drop_last().push(AddNode::Skip(s.last()->Skip_0 + k))
        } else {
            s.push(n)
        },
        _ => s.push(n),
    }
}

/// Whether placing `n` at the end of `s` keeps every count within the
/// machine's range.
pub open spec fn place_add_fits(s: Seq<AddNode>, n: AddNode) -> bool {
    match n {
        AddNode::Skip(k) => s.len() > 0 && s.last() is Skip ==> s.last()->Skip_0 + k
            <= usize::MAX,
        _ => true,
    }
}

/// Places the inserted text `value` at the end of `res`.
pub fn add_place_chars(res: &mut Vec<AddElement>, value: DocString)
    ensures
        final(res).deep_view() == place_add(old(res).deep_view(), AddNode::Chars(value@)),
{
    let ghost before = res.deep_view();
    let n = res.len();
    if n > 0 {
        let merge = match &res[n - 1] {
            AddElement::AddChars(prefix) => prefix.styles.same(&value.styles),
            _ => false,
        };
        if merge {
            let last = res.pop().unwrap();
            assert(res.deep_view() =~= before.drop_last());
            if let AddElement::AddChars(mut prefix) = last {
                prefix.push_str(value.as_str());
                res.push(AddElement::AddChars(prefix));
                assert(res.deep_view() =~= place_add(before, AddNode::Chars(value@)));
            }
            return ;
        }
    }
    res.push(AddElement::AddChars(value));
    assert(res.deep_view() =~= place_add(before, AddNode::Chars(value@)));
}

/// Places a skip of `count` units at the end of `res`.
pub fn add_place_skip(res: &mut Vec<AddElement>, count: usize)
    requires
        place_add_fits(old(res).deep_view(), AddNode::Skip(count as nat)),
    ensures
        final(res).deep_view() == place_add(old(res).deep_view(), AddNode::Skip(count as nat)),
{
    let ghost before = res.deep_view();
    let n = res.len();
    if n > 0 {
        let merged = match &res[n - 1] {
            AddElement::AddSkip(prefix) => Some(*prefix + count),
            _ => None,
        };
        match merged {
            Some(total) => {
                res.pop();
                assert(res.deep_view() =~= before.drop_last());
                res.push(AddElement::AddSkip(total));
                assert(res.deep_view() =~= place_add(before, AddNode::Skip(count as nat)));
                return ;
            },
            None => {},
        }
    }
    res.push(AddElement::AddSkip(count));
    assert(res.deep_view() =~= place_add(before, AddNode::Skip(count as nat)));
}

/// Places the atom `value` at the end of `res`.
pub fn add_place_any(res: &mut Vec<AddElement>, value: &AddElement)
    requires
        place_add_fits(old(res).deep_view(), value.deep_view()),
    ensures
        final(res).deep_view() == place_add(old(res).deep_view(), value.deep_view()),
{
    let ghost before = res.deep_view();
    match value {
        AddElement::AddChars(text) => {
            add_place_chars(res, text.clone());
        },
        AddElement::AddSkip(count) => {
            add_place_skip(res, *count);
        },
        _ => {
            res.push(value.clone());
            assert(res.deep_view() =~= place_add(before, value.deep_view()));
        },
    }
}


/// The weight of one delete atom: its count, or one more than the weight
/// of its inner span.
pub open spec fn del_node_weight(n: DelNode) -> nat
    decreases n,
{
    match n {
        DelNode::Skip(k) => k,
        DelNode::Chars(k) => k,
        DelNode::WithGroup(inner) => 1 + del_weight(inner),
        DelNode::Group(inner) => 1 + del_weight(inner),
    }
}

/// The weight of a delete span: the sum of its counts at every depth, and
/// one for each group atom. Counts that merge when atoms are placed never
/// exceed it.
pub open spec fn del_weight(s: Seq<DelNode>) -> nat
    decreases s,
{
    if s.len() == 0 {
        0
    } else {
        del_weight(s.drop_last()) + del_node_weight(s.last())
    }
}

/// The weight of a span is that of its first atom and of the rest.
pub proof fn lemma_del_weight_head(s: Seq<DelNode>)
    requires
        s.len() > 0,
    ensures
        del_weight(s) == del_node_weight(s[0]) + del_weight(s.skip(1)),
    decreases s.len(),
{
    if s.len() == 1 {
        assert(s.drop_last() =~= Seq::<DelNode>::empty());
        assert(s.skip(1) =~= Seq::<DelNode>::empty());
    } else {
        lemma_del_weight_head(s.drop_last());
        assert(s.drop_last().skip(1) =~= s.skip(1).drop_last());
        assert(s.drop_last()[0] == s[0]);
        assert(s.skip(1).last() == s.last());
    }
}

/// The weight of a concatenation is the sum of the weights.
pub proof fn lemma_del_weight_concat(a: Seq<DelNode>, b: Seq<DelNode>)
    ensures
        del_weight(a + b) == del_weight(a) + del_weight(b),
    decreases b.len(),
{
    if b.len() == 0 {
        assert(a + b =~= a);
    } else {
        assert((a + b).drop_last() =~= a + b.drop_last());
        assert((a + b).last() == b.last());
        lemma_del_weight_concat(a, b.drop_last());
    }
}

/// Placing an atom adds its weight, and fits whenever the sum does.
pub proof fn lemma_place_del_weight(s: Seq<DelNode>, n: DelNode)
    ensures
        del_weight(place_del(s, n)) == del_weight(s) + del_node_weight(n),
        del_weight(s.push(n)) == del_weight(s) + del_node_weight(n),
        del_weight(s) + del_node_weight(n) <= usize::MAX ==> place_del_fits(s, n),
{
    assert(s.push(n).drop_last() =~= s);
    if s.len() > 0 {
        let l = s.last();
        match n {
            DelNode::Chars(k) => {
                if l is Chars {
                    let m = DelNode::Chars(l->Chars_0 + k);
                    let r = s.drop_last().push(m);
                    assert(r.drop_last() =~= s.drop_last());
                    assert(r.last() == m);
                    assert(del_weight(r) == del_weight(s.drop_last()) + del_node_weight(m));
                    assert(del_weight(s) == del_weight(s.drop_last()) + del_node_weight(l));
                }
            },
            DelNode::Skip(k) => {
                if l is Skip {
                    let m = DelNode::Skip(l->Skip_0 + k);
                    let r = s.drop_last().push(m);
                    assert(r.drop_last() =~= s.drop_last());
                    assert(r.last() == m);
                    assert(del_weight(r) == del_weight(s.drop_last()) + del_node_weight(m));
                    assert(del_weight(s) == del_weight(s.drop_last()) + del_node_weight(l));
                }
            },
            _ => {},
        }
    }
}


/// The weight of one add atom: the count of a skip or of a style overlay,
/// one more than the weight of an inner span, nothing for text.
pub open spec fn add_node_weight(n: AddNode) -> nat
    decreases n,
{
    match n {
        AddNode::Skip(k) => k,
        AddNode::Chars(_) => 0,
        AddNode::Styles(k, _) => k,
        AddNode::WithGroup(inner) => 1 + add_weight(inner),
        AddNode::Group(_, inner) => 1 + add_weight(inner),
    }
}

/// The weight of an add span: the sum of its counts at every depth, and
/// one for each group atom. Counts that merge when atoms are placed never
/// exceed it.
pub open spec fn add_weight(s: Seq<AddNode>) -> nat
    decreases s,
{
    if s.len() == 0 {
        0
    } else {
        add_weight(s.drop_last()) + add_node_weight(s.last())
    }
}

/// The weight of a span is that of its first atom and of the rest.
pub proof fn lemma_add_weight_head(s: Seq<AddNode>)
    requires
        s.len() > 0,
    ensures
        add_weight(s) == add_node_weight(s[0]) + add_weight(s.skip(1)),
    decreases s.len(),
{
    if s.len() == 1 {
        assert(s.drop_last() =~= Seq::<AddNode>::empty());
        assert(s.skip(1) =~= Seq::<AddNode>::empty());
    } else {
        lemma_add_weight_head(s.drop_last());
        assert(s.drop_last().skip(1) =~= s.skip(1).drop_last());
        assert(s.drop_last()[0] == s[0]);
        assert(s.skip(1).last() == s.last());
    }
}

/// The weight of a concatenation is the sum of the weights.
pub proof fn lemma_add_weight_concat(a: Seq<AddNode>, b: Seq<AddNode>)
    ensures
        add_weight(a + b) == add_weight(a) + add_weight(b),
    decreases b.len(),
{
    if b.len() == 0 {
        assert(a + b =~= a);
    } else {
        assert((a + b).drop_last() =~= a + b.drop_last());
        assert((a + b).last() == b.last());
        lemma_add_weight_concat(a, b.drop_last());
    }
}

/// Placing an atom adds its weight, and fits whenever the sum does.
pub proof fn lemma_place_add_weight(s: Seq<AddNode>, n: AddNode)
    ensures
        add_weight(place_add(s, n)) == add_weight(s) + add_node_weight(n),
        add_weight(s.push(n)) == add_weight(s) + add_node_weight(n),
        add_weight(s) + add_node_weight(n) <= usize::MAX ==> place_add_fits(s, n),
{
    assert(s.push(n).drop_last() =~= s);
    if s.len() > 0 {
        let l = s.last();
        match n {
            AddNode::Chars(t) => {
                if l is Chars && l->Chars_0.styles == t.styles {
                    let m = AddNode::Chars(
                        Text { chars: l->Chars_0.chars + t.chars, styles: t.styles },
                    );
                    let r = s.drop_last().push(m);
                    assert(r.drop_last() =~= s.drop_last());
                    assert(r.last() == m);
                    assert(add_weight(r) == add_weight(s.drop_last()) + add_node_weight(m));
                    assert(add_weight(s) == add_weight(s.drop_last()) + add_node_weight(l));
                }
            },
            AddNode::Skip(k) => {
                if l is Skip {
                    let m = AddNode::Skip(l->Skip_0 + k);
                    let r = s.drop_last().push(m);
                    assert(r.drop_last() =~= s.drop_last());
                    assert(r.last() == m);
                    assert(add_weight(r) == add_weight(s.drop_last()) + add_node_weight(m));
                    assert(add_weight(s) == add_weight(s.drop_last()) + add_node_weight(l));
                }
            },
            _ => {},
        }
    }
}

} // verus!
