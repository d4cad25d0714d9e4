//! Cursors that step through a document and through a cursor path.

use crate::apply::clone_doc_span;
use crate::doc::{group_views, CurElement, CurNode, CurSpan, DocElement, DocNode, DocSpan, Text};
use crate::units::{
    lemma_span_units_concat, lemma_span_units_head, lemma_span_units_push, node_canonical,
    node_units, span_canonical, span_units, Unit,
};
use vstd::prelude::*;

verus! {

broadcast use {vstd::group_vstd_default, group_views};

/// The span reached from `doc` by descending, level after level, into the
/// groups at the indices of `path`.
pub open spec fn span_at(doc: Seq<DocNode>, path: Seq<usize>) -> Seq<DocNode>
    decreases path.len(),
{
    if path.len() == 0 {
        doc
    } else {
        span_at(doc, path.drop_last())[path.last() as int]->Group_1
    }
}

/// Whether each index of `path` names a group of the span reached by the
/// indices before it.
pub open spec fn path_ok(doc: Seq<DocNode>, path: Seq<usize>) -> bool
    decreases path.len(),
{
    path.len() == 0 || {
        let outer = span_at(doc, path.drop_last());
        &&& path_ok(doc, path.drop_last())
        &&& path.last() < outer.len()
        &&& outer[path.last() as int] is Group
    }
}

/// The number of units of a span.
pub open spec fn span_len(s: Seq<DocNode>) -> nat {
    span_units(s).len()
}

/// The number of units that lie before the place `offset` characters into
/// the atom at `index`.
pub open spec fn unit_pos(s: Seq<DocNode>, index: int, offset: int) -> int {
    span_len(s.take(index)) + offset
}

/// The units before an atom and those of the atom are the units before
/// the next atom.
pub proof fn lemma_unit_pos_next(s: Seq<DocNode>, index: int)
    requires
        0 <= index < s.len(),
    ensures
        span_len(s.take(index + 1)) == span_len(s.take(index)) + node_units(s[index]).len(),
        span_len(s.take(index + 1)) <= span_len(s),
    decreases s.len() - index,
{
    assert(s.take(index + 1) =~= s.take(index).push(s[index]));
    lemma_span_units_push(s.take(index), s[index]);
    if index + 1 < s.len() {
        lemma_unit_pos_next(s, index + 1);
    } else {
        assert(s.take(index + 1) =~= s);
    }
}

/// A place in a document: the groups that were entered, the atom that
/// comes next in the innermost of them, and the number of characters
/// already passed in that atom when it is a run.
pub struct DocStepper {
    pub doc: DocSpan,
    pub path: Vec<usize>,
    pub index: usize,
    pub offset: usize,
}

impl DocStepper {
    /// The span that the stepper stands in.
    pub open spec fn span_view(&self) -> Seq<DocNode> {
        span_at(self.doc.deep_view(), self.path@)
    }

    /// The stepper names a place of its document: the path leads through
    /// groups, the index lies within the span, and a character offset
    /// lies strictly inside a run.
    pub open spec fn wf(&self) -> bool {
        &&& path_ok(self.doc.deep_view(), self.path@)
        &&& self.index <= self.span_view().len()
        &&& (self.offset > 0 ==> self.index < self.span_view().len()
            && self.span_view()[self.index as int] is Chars && self.offset
            < self.span_view()[self.index as int]->Chars_0.chars.len())
    }

    /// The number of units before the stepper in its span.
    pub open spec fn pos(&self) -> int {
        unit_pos(self.span_view(), self.index as int, self.offset as int)
    }

    /// What comes next in the span: the rest of a run, a whole group, or
    /// nothing at the end.
    pub open spec fn head_view(&self) -> Option<DocNode> {
        let s = self.span_view();
        if self.index < s.len() {
            match s[self.index as int] {
                DocNode::Chars(t) => Some(
                    DocNode::Chars(
                        Text { chars: t.chars.skip(self.offset as int), styles: t.styles },
                    ),
                ),
                DocNode::Group(a, c) => Some(DocNode::Group(a, c)),
            }
        } else {
            None
        }
    }

    /// What comes before in the span: the part of a run that was passed, a
    /// whole atom, or nothing at the start.
    pub open spec fn unhead_view(&self) -> Option<DocNode> {
        let s = self.span_view();
        if self.offset > 0 {
            let t = s[self.index as int]->Chars_0;
            Some(DocNode::Chars(Text { chars: t.chars.take(self.offset as int), styles: t.styles }))
        } else if self.index > 0 {
            Some(s[self.index - 1])
        } else {
            None
        }
    }

    /// A stepper at the start of a copy of `doc`.
    pub fn new(doc: &DocSpan) -> (res: DocStepper)
        ensures
            res.wf(),
            res.doc.deep_view() == doc.deep_view(),
            res.path@ == Seq::<usize>::empty(),
            res.index == 0,
            res.offset == 0,
    {
        DocStepper { doc: clone_doc_span(doc), path: Vec::new(), index: 0, offset: 0 }
    }

    /// The span that the stepper stands in.
    pub fn cur_span(&self) -> (res: &Vec<DocElement>)
        requires
            self.wf(),
        ensures
            res.deep_view() == self.span_view(),
    {
        let mut s: &Vec<DocElement> = &self.doc;
        let mut k: usize = 0;
        proof {
            assert(self.path@.take(0) =~= Seq::<usize>::empty());
        }
        while k < self.path.len()
            invariant
                k <= self.path.len(),
                path_ok(self.doc.deep_view(), self.path@),
                s.deep_view() == span_at(self.doc.deep_view(), self.path@.take(k as int)),
            decreases self.path.len() - k,
        {
            proof {
                lemma_path_prefix(self.doc.deep_view(), self.path@, k + 1);
                assert(self.path@.take(k + 1).drop_last() =~= self.path@.take(k as int));
            }
            match &s[self.path[k]] {
                DocElement::DocGroup(_, children) => {
                    s = children;
                },
                DocElement::DocChars(_) => {
                    proof {
                        assert(false);
                    }
                },
            }
            k = k + 1;
        }
        proof {
            assert(self.path@.take(k as int) =~= self.path@);
        }
        s
    }

    /// The group that the stepper stands in, if it stands in one.
    pub fn parent(&self) -> (res: Option<&DocElement>)
        requires
            self.wf(),
        ensures
            match res {
                Some(g) => self.path@.len() > 0 && g.deep_view() == span_at(
                    self.doc.deep_view(),
                    self.path@.drop_last(),
                )[self.path@.last() as int],
                None => self.path@.len() == 0,
            },
    {
        let depth = self.path.len();
        if depth == 0 {
            return None;
        }
        let mut s: &Vec<DocElement> = &self.doc;
        let mut k: usize = 0;
        proof {
            assert(self.path@.take(0) =~= Seq::<usize>::empty());
        }
        while k < depth - 1
            invariant
                depth == self.path.len(),
                k <= depth - 1,
                path_ok(self.doc.deep_view(), self.path@),
                s.deep_view() == span_at(self.doc.deep_view(), self.path@.take(k as int)),
            decreases depth - 1 - k,
        {
            proof {
                lemma_path_prefix(self.doc.deep_view(), self.path@, k + 1);
                assert(self.path@.take(k + 1).drop_last() =~= self.path@.take(k as int));
            }
            match &s[self.path[k]] {
                DocElement::DocGroup(_, children) => {
                    s = children;
                },
                DocElement::DocChars(_) => {
                    proof {
                        assert(false);
                    }
                },
            }
            k = k + 1;
        }
        proof {
            assert(self.path@.take(depth - 1) =~= self.path@.drop_last());
        }
        Some(&s[self.path[depth - 1]])
    }

    /// Whether nothing comes next in the span.
    pub fn at_end(&self) -> (res: bool)
        requires
            self.wf(),
        ensures
            res == (self.index == self.span_view().len()),
            res == (self.head_view() is None),
    {
        self.index == self.cur_span().len()
    }

    /// Whether the stepper stands at the end of the document, outside
    /// every group.
    pub fn is_done(&self) -> (res: bool)
        requires
            self.wf(),
        ensures
            res == (self.path@.len() == 0 && self.index == self.span_view().len()),
    {
        self.path.len() == 0 && self.index == self.cur_span().len()
    }

    /// What comes next in the span.
    pub fn head(&self) -> (res: Option<DocElement>)
        requires
            self.wf(),
        ensures
            match res {
                Some(e) => self.head_view() == Some(e.deep_view()),
                None => self.head_view() is None,
            },
    {
        let s = self.cur_span();
        if self.index < s.len() {
            match &s[self.index] {
                DocElement::DocChars(t) => {
                    let (_, right) = t.split_at(self.offset);
                    Some(DocElement::DocChars(right))
                },
                DocElement::DocGroup(_, _) => Some(s[self.index].clone()),
            }
        } else {
            None
        }
    }

    /// What comes before in the span.
    pub fn unhead(&self) -> (res: Option<DocElement>)
        requires
            self.wf(),
        ensures
            match res {
                Some(e) => self.unhead_view() == Some(e.deep_view()),
                None => self.unhead_view() is None,
            },
    {
        let s = self.cur_span();
        if self.offset > 0 {
            match &s[self.index] {
                DocElement::DocChars(t) => {
                    let (left, _) = t.split_at(self.offset);
                    Some(DocElement::DocChars(left))
                },
                DocElement::DocGroup(_, _) => None,
            }
        } else if self.index > 0 {
            Some(s[self.index - 1].clone())
        } else {
            None
        }
    }

    /// Steps forward over `n` units of the span.
    pub fn skip(&mut self, n: usize)
        requires
            old(self).wf(),
            old(self).pos() + n <= span_len(old(self).span_view()),
        ensures
            final(self).wf(),
            final(self).doc == old(self).doc,
            final(self).path == old(self).path,
            final(self).pos() == old(self).pos() + n,
    {
        let mut n = n;
        let ghost target = self.pos() + n;
        let ghost s = self.span_view();
        while n > 0
            invariant
                self.wf(),
                self.doc == old(self).doc,
                self.path == old(self).path,
                s == self.span_view(),
                self.pos() + n == target,
                target <= span_len(s),
            decreases s.len() - self.index + n,
        {
            proof {
                if self.index < s.len() {
                    lemma_unit_pos_next(s, self.index as int);
                } else {
                    assert(s.take(self.index as int) =~= s);
                }
            }
            let len = self.cur_span().len();
            assert(self.index < len);
            let rem: Option<usize> = match &self.cur_span()[self.index] {
                DocElement::DocChars(t) => Some(t.char_len() - self.offset),
                DocElement::DocGroup(_, _) => None,
            };
            match rem {
                Some(rem) => {
                    if n < rem {
                        self.offset = self.offset + n;
                        n = 0;
                    } else {
                        n = n - rem;
                        self.index = self.index + 1;
                        self.offset = 0;
                    }
                },
                None => {
                    self.index = self.index + 1;
                    n = n - 1;
                },
            }
        }
    }

    /// Enters the group that comes next.
    pub fn enter(&mut self)
        requires
            old(self).wf(),
            old(self).head_view() is Some,
            old(self).head_view()->Some_0 is Group,
        ensures
            final(self).wf(),
            final(self).doc == old(self).doc,
            final(self).path@ == old(self).path@.push(old(self).index),
            final(self).index == 0,
            final(self).offset == 0,
    {
        let ghost path0 = self.path@;
        self.path.push(self.index);
        self.index = 0;
        self.offset = 0;
        proof {
            assert(self.path@.drop_last() =~= path0);
        }
    }

    /// Leaves the innermost group; the stepper then stands after it.
    pub fn exit(&mut self)
        requires
            old(self).wf(),
            old(self).path@.len() > 0,
        ensures
            final(self).wf(),
            final(self).doc == old(self).doc,
            final(self).path@ == old(self).path@.drop_last(),
            final(self).index == old(self).path@.last() + 1,
            final(self).offset == 0,
    {
        let ghost path0 = self.path@;
        let at = self.path.pop().unwrap();
        proof {
            assert(self.path@ =~= path0.drop_last());
        }
        self.index = 0;
        self.offset = 0;
        let len = self.cur_span().len();
        assert(at < len);
        self.index = at + 1;
    }
}

/// Every prefix of a path that leads through groups does so too.
pub proof fn lemma_path_prefix(doc: Seq<DocNode>, path: Seq<usize>, k: int)
    requires
        path_ok(doc, path),
        0 <= k <= path.len(),
    ensures
        path_ok(doc, path.take(k)),
    decreases path.len(),
{
    if k == path.len() {
        assert(path.take(k) =~= path);
    } else {
        lemma_path_prefix(doc, path.drop_last(), k);
        assert(path.drop_last().take(k) =~= path.take(k));
    }
}


/// The units of a span are those before an atom, those of the atom, and
/// those after it.
pub proof fn lemma_units_around(s: Seq<DocNode>, index: int)
    requires
        0 <= index < s.len(),
    ensures
        span_units(s) == span_units(s.take(index)) + node_units(s[index]) + span_units(
            s.skip(index + 1),
        ),
{
    assert(s =~= s.take(index) + s.skip(index));
    lemma_span_units_concat(s.take(index), s.skip(index));
    lemma_span_units_head(s.skip(index));
    assert(s.skip(index).skip(1) =~= s.skip(index + 1));
    assert(span_units(s) =~= span_units(s.take(index)) + node_units(s[index]) + span_units(
        s.skip(index + 1),
    ));
}

impl DocStepper {
    /// The units of the span from the stepper's place on.
    pub open spec fn units_ahead(&self) -> Seq<Unit> {
        span_units(self.span_view()).skip(self.pos())
    }

    /// In a canonical span, the stepper stands within the units of the
    /// span, and the unit that comes next, if there is one, is the first
    /// of the atom that comes next.
    pub proof fn lemma_unit_ahead(&self)
        requires
            self.wf(),
            span_canonical(self.span_view()),
        ensures
            0 <= self.pos() <= span_len(self.span_view()),
            self.pos() < span_len(self.span_view()) <==> self.index < self.span_view().len(),
            self.index < self.span_view().len() ==> (match self.span_view()[self.index as int] {
                DocNode::Chars(t) => self.units_ahead()[0] is Char,
                DocNode::Group(a, c) => self.offset == 0 && self.units_ahead()[0] == Unit::Group(
                    a,
                    span_units(c),
                ),
            }),
    {
        let s = self.span_view();
        let i = self.index as int;
        if i < s.len() {
            lemma_units_around(s, i);
            lemma_unit_pos_next(s, i);
            assert(node_canonical(s[i]));
            let before = span_units(s.take(i));
            let here = node_units(s[i]);
            let after = span_units(s.skip(i + 1));
            assert(span_units(s)[self.pos()] == here[self.offset as int]);
        } else {
            assert(s.take(i) =~= s);
        }
    }
}

/// The cursor span reached from `span` by descending, level after level,
/// into the atoms at the indices of `path`.
pub open spec fn cur_at(span: Seq<CurNode>, path: Seq<usize>) -> Seq<CurNode>
    decreases path.len(),
{
    if path.len() == 0 {
        span
    } else {
        cur_at(span, path.drop_last())[path.last() as int]->WithGroup_0
    }
}

/// Whether each index of `path` names a descent in the cursor span
/// reached by the indices before it.
pub open spec fn cur_path_ok(span: Seq<CurNode>, path: Seq<usize>) -> bool
    decreases path.len(),
{
    path.len() == 0 || {
        let outer = cur_at(span, path.drop_last());
        &&& cur_path_ok(span, path.drop_last())
        &&& path.last() < outer.len()
        &&& outer[path.last() as int] is WithGroup
    }
}

/// Every prefix of a path that leads through descents does so too.
pub proof fn lemma_cur_path_prefix(span: Seq<CurNode>, path: Seq<usize>, k: int)
    requires
        cur_path_ok(span, path),
        0 <= k <= path.len(),
    ensures
        cur_path_ok(span, path.take(k)),
    decreases path.len(),
{
    if k == path.len() {
        assert(path.take(k) =~= path);
    } else {
        lemma_cur_path_prefix(span, path.drop_last(), k);
        assert(path.drop_last().take(k) =~= path.take(k));
    }
}

/// A copy of a cursor span.
pub fn clone_cur_span(span: &Vec<CurElement>) -> (res: Vec<CurElement>)
    ensures
        res.deep_view() == span.deep_view(),
{
    let mut res: Vec<CurElement> = Vec::new();
    let mut i: usize = 0;
    while i < span.len()
        invariant
            i <= span.len(),
            res@.len() == i,
            forall|j: int| 0 <= j < i ==> res@[j].deep_view() == span@[j].deep_view(),
        decreases span.len() - i,
    {
        res.push(span[i].clone());
        i += 1;
    }
    assert(res.deep_view() =~= span.deep_view());
    res
}

/// A place in a cursor path: the descents that were entered, and the atom
/// that comes next in the innermost of them.
pub struct CurStepper {
    pub span: CurSpan,
    pub path: Vec<usize>,
    pub index: usize,
}

impl CurStepper {
    /// The cursor span that the stepper stands in.
    pub open spec fn span_view(&self) -> Seq<CurNode> {
        cur_at(self.span.deep_view(), self.path@)
    }

    /// The stepper names a place of its cursor path.
    pub open spec fn wf(&self) -> bool {
        &&& cur_path_ok(self.span.deep_view(), self.path@)
        &&& self.index <= self.span_view().len()
    }

    /// The atoms from the stepper's place on.
    pub open spec fn rest(&self) -> Seq<CurNode> {
        self.span_view().skip(self.index as int)
    }

    /// A stepper at the start of a copy of `span`.
    pub fn new(span: &CurSpan) -> (res: CurStepper)
        ensures
            res.wf(),
            res.span.deep_view() == span.deep_view(),
            res.path@ == Seq::<usize>::empty(),
            res.index == 0,
    {
        CurStepper { span: clone_cur_span(span), path: Vec::new(), index: 0 }
    }

    /// The cursor span that the stepper stands in.
    fn cur_span(&self) -> (res: &Vec<CurElement>)
        requires
            self.wf(),
        ensures
            res.deep_view() == self.span_view(),
    {
        let mut s: &Vec<CurElement> = &self.span;
        let mut k: usize = 0;
        proof {
            assert(self.path@.take(0) =~= Seq::<usize>::empty());
        }
        while k < self.path.len()
            invariant
                k <= self.path.len(),
                cur_path_ok(self.span.deep_view(), self.path@),
                s.deep_view() == cur_at(self.span.deep_view(), self.path@.take(k as int)),
            decreases self.path.len() - k,
        {
            proof {
                lemma_cur_path_prefix(self.span.deep_view(), self.path@, k + 1);
                assert(self.path@.take(k + 1).drop_last() =~= self.path@.take(k as int));
            }
            match &s[self.path[k]] {
                CurElement::CurWithGroup(inner) => {
                    s = inner;
                },
                _ => {
                    proof {
                        assert(false);
                    }
                },
            }
            k = k + 1;
        }
        proof {
            assert(self.path@.take(k as int) =~= self.path@);
        }
        s
    }

    /// Whether an atom comes next at this level.
    pub fn has_head(&self) -> (res: bool)
        requires
            self.wf(),
        ensures
            res == (self.index < self.span_view().len()),
    {
        self.index < self.cur_span().len()
    }

    /// The atom that comes next.
    pub fn get_head(&self) -> (res: CurElement)
        requires
            self.wf(),
            self.index < self.span_view().len(),
        ensures
            res.deep_view() == self.span_view()[self.index as int],
    {
        self.cur_span()[self.index].clone()
    }

    /// Moves to the next atom of this level.
    pub fn next(&mut self)
        requires
            old(self).wf(),
            old(self).index < old(self).span_view().len(),
        ensures
            final(self).wf(),
            final(self).span == old(self).span,
            final(self).path == old(self).path,
            final(self).index == old(self).index + 1,
    {
        let len = self.cur_span().len();
        assert(self.index < len);
        self.index = self.index + 1;
    }

    /// Whether the stepper stands at the end of the path, outside every
    /// descent.
    pub fn is_done(&self) -> (res: bool)
        requires
            self.wf(),
        ensures
            res == (self.path@.len() == 0 && self.index == self.span_view().len()),
    {
        self.path.len() == 0 && self.index == self.cur_span().len()
    }

    /// Enters the descent that comes next.
    pub fn enter(&mut self)
        requires
            old(self).wf(),
            old(self).index < old(self).span_view().len(),
            old(self).span_view()[old(self).index as int] is WithGroup,
        ensures
            final(self).wf(),
            final(self).span == old(self).span,
            final(self).path@ == old(self).path@.push(old(self).index),
            final(self).index == 0,
    {
        let ghost path0 = self.path@;
        self.path.push(self.index);
        self.index = 0;
        proof {
            assert(self.path@.drop_last() =~= path0);
        }
    }

    /// Leaves the innermost descent; the stepper then stands after it.
    pub fn exit(&mut self)
        requires
            old(self).wf(),
            old(self).path@.len() > 0,
        ensures
            final(self).wf(),
            final(self).span == old(self).span,
            final(self).path@ == old(self).path@.drop_last(),
            final(self).index == old(self).path@.last() + 1,
    {
        let ghost path0 = self.path@;
        let at = self.path.pop().unwrap();
        proof {
            assert(self.path@ =~= path0.drop_last());
        }
        self.index = 0;
        let len = self.cur_span().len();
        assert(at < len);
        self.index = at + 1;
    }
}


/// Whether the cursor path `cur` fits the units `u`: each skip finds that
/// many units, and each descent a group that its inner path fits.
pub open spec fn cur_fits(cur: Seq<CurNode>, u: Seq<Unit>) -> bool
    decreases cur,
{
    if cur.len() == 0 {
        true
    } else {
        let rest = cur.skip(1);
        match cur[0] {
            CurNode::Skip(k) => k <= u.len() && cur_fits(rest, u.skip(k as int)),
            CurNode::WithGroup(inner) => u.len() > 0 && u[0] is Group && cur_fits(
                inner,
                u[0]->Group_1,
            ) && cur_fits(rest, u.skip(1)),
            _ => cur_fits(rest, u),
        }
    }
}

/// The number of units that a cursor path passes over at its own level.
pub open spec fn cur_reach(cur: Seq<CurNode>) -> nat
    decreases cur.len(),
{
    if cur.len() == 0 {
        0
    } else {
        (match cur[0] {
            CurNode::Skip(k) => k,
            CurNode::WithGroup(_) => 1,
            _ => 0,
        }) + cur_reach(cur.skip(1))
    }
}

/// The number of atoms of a cursor path, at every depth.
pub open spec fn cur_size(cur: Seq<CurNode>) -> nat
    decreases cur,
{
    if cur.len() == 0 {
        0
    } else {
        (match cur[0] {
            CurNode::WithGroup(inner) => 1 + cur_size(inner),
            _ => 1,
        }) + cur_size(cur.skip(1))
    }
}

/// Every span that a path reaches in a canonical document is canonical.
pub proof fn lemma_span_at_canonical(doc: Seq<DocNode>, path: Seq<usize>)
    requires
        span_canonical(doc),
        path_ok(doc, path),
    ensures
        span_canonical(span_at(doc, path)),
    decreases path.len(),
{
    if path.len() > 0 {
        lemma_span_at_canonical(doc, path.drop_last());
        let outer = span_at(doc, path.drop_last());
        assert(node_canonical(outer[path.last() as int]));
    }
}


/// Whether the spans of a document, at every depth, are no longer than
/// the largest machine count.
pub open spec fn span_sized(s: Seq<DocNode>) -> bool
    decreases s,
{
    &&& s.len() <= usize::MAX
    &&& forall|i: int|
        0 <= i < s.len() ==> ((#[trigger] s[i]) matches DocNode::Group(_, c) ==> span_sized(c))
}

/// The spans of a document that is held in memory are no longer than the
/// largest machine count.
pub proof fn lemma_doc_sized(v: Vec<DocElement>)
    ensures
        span_sized(v.deep_view()),
    decreases v,
{
    let s = v.deep_view();
    assert(s.len() == v.len());
    assert forall|i: int| 0 <= i < s.len() implies ((#[trigger] s[i]) matches DocNode::Group(
        _,
        c,
    ) ==> span_sized(c)) by {
        match v@[i] {
            DocElement::DocGroup(a, c) => {
                lemma_doc_sized(c);
            },
            DocElement::DocChars(_) => {},
        }
    }
}

/// Every span that a path reaches in a document of sized spans is sized.
pub proof fn lemma_span_at_sized(doc: Seq<DocNode>, path: Seq<usize>)
    requires
        span_sized(doc),
        path_ok(doc, path),
    ensures
        span_sized(span_at(doc, path)),
    decreases path.len(),
{
    if path.len() > 0 {
        lemma_span_at_sized(doc, path.drop_last());
    }
}

} // verus!
