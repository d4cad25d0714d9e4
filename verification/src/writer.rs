//! Builders that write the spans of an operation atom by atom, group by
//! group.

use crate::doc::{
    group_views, AddElement, AddNode, AddSpan, Attrs, DelElement, DelNode, DelSpan, DocString,
};
use crate::doc::Op;
use crate::place::{
    add_place_any, del_place_any, place_add, place_add_fits, place_del, place_del_fits,
};
use vstd::prelude::*;

verus! {

broadcast use {vstd::group_vstd_default, group_views};

/// Writes a delete span. `past` holds the atoms written at the current
/// level; each group that was begun and not yet ended keeps the atoms of
/// the level around it on the stack.
pub struct DelWriter {
    pub past: Vec<DelElement>,
    pub stack: Vec<Vec<DelElement>>,
}

impl DelWriter {
    /// The atoms written at the current level.
    pub open spec fn past_view(&self) -> Seq<DelNode> {
        self.past.deep_view()
    }

    /// The atoms written at each level around the current one, outermost
    /// first.
    pub open spec fn stack_view(&self) -> Seq<Seq<DelNode>> {
        self.stack.deep_view()
    }

    /// A writer that has written nothing.
    pub fn new() -> (res: DelWriter)
        ensures
            res.past_view() == Seq::<DelNode>::empty(),
            res.stack_view() == Seq::<Seq<DelNode>>::empty(),
    {
        let res = DelWriter { past: Vec::new(), stack: Vec::new() };
        assert(res.past_view() =~= Seq::<DelNode>::empty());
        assert(res.stack_view() =~= Seq::<Seq<DelNode>>::empty());
        res
    }

    /// Begins a group: what is written next goes into it.
    pub fn begin(&mut self)
        ensures
            final(self).past_view() == Seq::<DelNode>::empty(),
            final(self).stack_view() == old(self).stack_view().push(old(self).past_view()),
    {
        let ghost stack0 = self.stack_view();
        let ghost past0 = self.past_view();
        let mut past: Vec<DelElement> = Vec::new();
        core::mem::swap(&mut past, &mut self.past);
        self.stack.push(past);
        assert(self.past_view() =~= Seq::<DelNode>::empty());
        assert(self.stack_view() =~= stack0.push(past0));
    }

    /// Ends the current group as a descent into a group of the document.
    pub fn exit(&mut self)
        requires
            old(self).stack_view().len() > 0,
        ensures
            final(self).past_view() == old(self).stack_view().last().push(
                DelNode::WithGroup(old(self).past_view()),
            ),
            final(self).stack_view() == old(self).stack_view().drop_last(),
    {
        let ghost stack0 = self.stack_view();
        let ghost past0 = self.past_view();
        let mut past = self.stack.pop().unwrap();
        assert(self.stack_view() =~= stack0.drop_last());
        core::mem::swap(&mut past, &mut self.past);
        self.past.push(DelElement::DelWithGroup(past));
        assert(self.past_view() =~= stack0.last().push(DelNode::WithGroup(past0)));
    }

    /// Ends the current group as the removal of a group of the document.
    pub fn close(&mut self)
        requires
            old(self).stack_view().len() > 0,
        ensures
            final(self).past_view() == old(self).stack_view().last().push(
                DelNode::Group(old(self).past_view()),
            ),
            final(self).stack_view() == old(self).stack_view().drop_last(),
    {
        let ghost stack0 = self.stack_view();
        let ghost past0 = self.past_view();
        let mut past = self.stack.pop().unwrap();
        assert(self.stack_view() =~= stack0.drop_last());
        core::mem::swap(&mut past, &mut self.past);
        self.past.push(DelElement::DelGroup(past));
        assert(self.past_view() =~= stack0.last().push(DelNode::Group(past0)));
    }

    /// Places an atom at the end of the current level.
    pub fn place(&mut self, elem: &DelElement)
        requires
            place_del_fits(old(self).past_view(), elem.deep_view()),
        ensures
            final(self).past_view() == place_del(old(self).past_view(), elem.deep_view()),
            final(self).stack_view() == old(self).stack_view(),
    {
        del_place_any(&mut self.past, elem);
    }

    /// Writes a skip of `n` units.
    pub fn skip(&mut self, n: usize)
        requires
            place_del_fits(old(self).past_view(), DelNode::Skip(n as nat)),
        ensures
            final(self).past_view() == place_del(old(self).past_view(), DelNode::Skip(n as nat)),
            final(self).stack_view() == old(self).stack_view(),
    {
        del_place_any(&mut self.past, &DelElement::DelSkip(n));
    }

    /// Writes a delete of `n` characters.
    pub fn chars(&mut self, n: usize)
        requires
            place_del_fits(old(self).past_view(), DelNode::Chars(n as nat)),
        ensures
            final(self).past_view() == place_del(old(self).past_view(), DelNode::Chars(n as nat)),
            final(self).stack_view() == old(self).stack_view(),
    {
        del_place_any(&mut self.past, &DelElement::DelChars(n));
    }

    /// The span that was written. Every group that was begun has ended.
    pub fn result(self) -> (res: DelSpan)
        requires
            self.stack_view().len() == 0,
        ensures
            res.deep_view() == self.past_view(),
    {
        self.past
    }
}

/// Writes an add span. `past` holds the atoms written at the current
/// level; each group that was begun and not yet ended keeps the atoms of
/// the level around it on the stack.
pub struct AddWriter {
    pub past: Vec<AddElement>,
    pub stack: Vec<Vec<AddElement>>,
}

impl AddWriter {
    /// The atoms written at the current level.
    pub open spec fn past_view(&self) -> Seq<AddNode> {
        self.past.deep_view()
    }

    /// The atoms written at each level around the current one, outermost
    /// first.
    pub open spec fn stack_view(&self) -> Seq<Seq<AddNode>> {
        self.stack.deep_view()
    }

    /// A writer that has written nothing.
    pub fn new() -> (res: AddWriter)
        ensures
            res.past_view() == Seq::<AddNode>::empty(),
            res.stack_view() == Seq::<Seq<AddNode>>::empty(),
    {
        let res = AddWriter { past: Vec::new(), stack: Vec::new() };
        assert(res.past_view() =~= Seq::<AddNode>::empty());
        assert(res.stack_view() =~= Seq::<Seq<AddNode>>::empty());
        res
    }

    /// Begins a group: what is written next goes into it.
    pub fn begin(&mut self)
        ensures
            final(self).past_view() == Seq::<AddNode>::empty(),
            final(self).stack_view() == old(self).stack_view().push(old(self).past_view()),
    {
        let ghost stack0 = self.stack_view();
        let ghost past0 = self.past_view();
        let mut past: Vec<AddElement> = Vec::new();
        core::mem::swap(&mut past, &mut self.past);
        self.stack.push(past);
        assert(self.past_view() =~= Seq::<AddNode>::empty());
        assert(self.stack_view() =~= stack0.push(past0));
    }

    /// Ends the current group as a descent into a group of the document.
    pub fn exit(&mut self)
        requires
            old(self).stack_view().len() > 0,
        ensures
            final(self).past_view() == old(self).stack_view().last().push(
                AddNode::WithGroup(old(self).past_view()),
            ),
            final(self).stack_view() == old(self).stack_view().drop_last(),
    {
        let ghost stack0 = self.stack_view();
        let ghost past0 = self.past_view();
        let mut past = self.stack.pop().unwrap();
        assert(self.stack_view() =~= stack0.drop_last());
        core::mem::swap(&mut past, &mut self.past);
        self.past.push(AddElement::AddWithGroup(past));
        assert(self.past_view() =~= stack0.last().push(AddNode::WithGroup(past0)));
    }

    /// Ends the current group as a new group with the attributes `attrs`.
    pub fn close(&mut self, attrs: Attrs)
        requires
            old(self).stack_view().len() > 0,
        ensures
            final(self).past_view() == old(self).stack_view().last().push(
                AddNode::Group(attrs@, old(self).past_view()),
            ),
            final(self).stack_view() == old(self).stack_view().drop_last(),
    {
        let ghost stack0 = self.stack_view();
        let ghost past0 = self.past_view();
        let mut past = self.stack.pop().unwrap();
        assert(self.stack_view() =~= stack0.drop_last());
        core::mem::swap(&mut past, &mut self.past);
        self.past.push(AddElement::AddGroup(attrs, past));
        assert(self.past_view() =~= stack0.last().push(AddNode::Group(attrs@, past0)));
    }

    /// Places an atom at the end of the current level.
    pub fn place(&mut self, elem: &AddElement)
        requires
            place_add_fits(old(self).past_view(), elem.deep_view()),
        ensures
            final(self).past_view() == place_add(old(self).past_view(), elem.deep_view()),
            final(self).stack_view() == old(self).stack_view(),
    {
        add_place_any(&mut self.past, elem);
    }

    /// Writes a skip of `n` units.
    pub fn skip(&mut self, n: usize)
        requires
            place_add_fits(old(self).past_view(), AddNode::Skip(n as nat)),
        ensures
            final(self).past_view() == place_add(old(self).past_view(), AddNode::Skip(n as nat)),
            final(self).stack_view() == old(self).stack_view(),
    {
        add_place_any(&mut self.past, &AddElement::AddSkip(n));
    }

    /// Writes the insertion of `text`.
    pub fn chars(&mut self, text: DocString)
        ensures
            final(self).past_view() == place_add(old(self).past_view(), AddNode::Chars(text@)),
            final(self).stack_view() == old(self).stack_view(),
    {
        add_place_any(&mut self.past, &AddElement::AddChars(text));
    }

    /// The span that was written. Every group that was begun has ended.
    pub fn result(self) -> (res: AddSpan)
        requires
            self.stack_view().len() == 0,
        ensures
            res.deep_view() == self.past_view(),
    {
        self.past
    }
}


/// The number of units of a span that one delete atom passes over.
pub open spec fn del_node_reach(n: DelNode) -> nat {
    match n {
        DelNode::Skip(k) => k,
        DelNode::Chars(k) => k,
        _ => 1,
    }
}

/// The number of units of a span that a delete span passes over.
pub open spec fn del_reach(s: Seq<DelNode>) -> nat
    decreases s.len(),
{
    if s.len() == 0 {
        0
    } else {
        del_reach(s.drop_last()) + del_node_reach(s.last())
    }
}

/// The number of units that one delete atom leaves where it acts, when
/// the inner span of a removed group passes over all of its children.
pub open spec fn del_node_yield(n: DelNode) -> nat
    decreases n,
{
    match n {
        DelNode::Skip(k) => k,
        DelNode::Chars(_) => 0,
        DelNode::WithGroup(_) => 1,
        DelNode::Group(inner) => del_yield(inner),
    }
}

/// The number of units that a delete span leaves of what it passes over.
pub open spec fn del_yield(s: Seq<DelNode>) -> nat
    decreases s,
{
    if s.len() == 0 {
        0
    } else {
        del_yield(s.drop_last()) + del_node_yield(s.last())
    }
}

/// The number of units of a span that one add atom passes over.
pub open spec fn add_node_reach(n: AddNode) -> nat
    decreases n,
{
    match n {
        AddNode::Skip(k) => k,
        AddNode::Chars(_) => 0,
        AddNode::Styles(k, _) => k,
        AddNode::WithGroup(_) => 1,
        AddNode::Group(_, inner) => add_reach(inner),
    }
}

/// The number of units of a span that an add span passes over.
pub open spec fn add_reach(s: Seq<AddNode>) -> nat
    decreases s,
{
    if s.len() == 0 {
        0
    } else {
        add_reach(s.drop_last()) + add_node_reach(s.last())
    }
}

/// The count `n`, or the largest machine count where `n` exceeds it.
pub open spec fn sat(n: nat) -> nat {
    if n > usize::MAX {
        usize::MAX as nat
    } else {
        n
    }
}

/// The sum of two machine counts, or the largest machine count where the
/// sum exceeds it.
fn sat_add(a: usize, b: usize) -> (res: usize)
    ensures
        res == sat((a + b) as nat),
{
    if a > usize::MAX - b {
        usize::MAX
    } else {
        a + b
    }
}

/// A skip at the end of a span counts no more units than the span passes
/// over.
pub proof fn lemma_last_skip_reach(d: Seq<DelNode>, a: Seq<AddNode>)
    ensures
        d.len() > 0 && d.last() is Skip ==> d.last()->Skip_0 <= del_reach(d),
        a.len() > 0 && a.last() is Skip ==> a.last()->Skip_0 <= add_reach(a),
{
    if a.len() > 0 {
        assert(add_reach(a) == add_reach(a.drop_last()) + add_node_reach(a.last()));
    }
}

/// The number of units that `span` passes over, at most the largest
/// machine count.
pub fn del_span_reach(span: &DelSpan) -> (res: usize)
    ensures
        res == sat(del_reach(span.deep_view())),
{
    let ghost sv = span.deep_view();
    let mut total: usize = 0;
    let mut i: usize = 0;
    proof {
        assert(sv.take(0) =~= Seq::<DelNode>::empty());
    }
    while i < span.len()
        invariant
            i <= span.len(),
            sv == span.deep_view(),
            total == sat(del_reach(sv.take(i as int))),
        decreases span.len() - i,
    {
        proof {
            assert(sv.take(i + 1).drop_last() =~= sv.take(i as int));
            assert(sv.take(i + 1).last() == span@[i as int].deep_view());
        }
        let step = match &span[i] {
            DelElement::DelSkip(k) => *k,
            DelElement::DelChars(k) => *k,
            _ => 1,
        };
        total = sat_add(total, step);
        i = i + 1;
    }
    proof {
        assert(sv.take(i as int) =~= sv);
    }
    total
}

/// The number of units that `span` leaves of what it passes over, at most
/// the largest machine count.
pub fn del_span_yield(span: &DelSpan) -> (res: usize)
    ensures
        res == sat(del_yield(span.deep_view())),
    decreases span,
{
    let ghost sv = span.deep_view();
    let mut total: usize = 0;
    let mut i: usize = 0;
    proof {
        assert(sv.take(0) =~= Seq::<DelNode>::empty());
    }
    while i < span.len()
        invariant
            i <= span.len(),
            sv == span.deep_view(),
            total == sat(del_yield(sv.take(i as int))),
        decreases span.len() - i,
    {
        proof {
            assert(sv.take(i + 1).drop_last() =~= sv.take(i as int));
            assert(sv.take(i + 1).last() == span@[i as int].deep_view());
        }
        let step = match &span[i] {
            DelElement::DelSkip(k) => *k,
            DelElement::DelChars(_) => 0,
            DelElement::DelWithGroup(_) => 1,
            DelElement::DelGroup(inner) => del_span_yield(inner),
        };
        proof {
            let t = sv.take(i + 1);
            assert(del_yield(t) == del_yield(t.drop_last()) + del_node_yield(t.last()));
            assert(step == sat(del_node_yield(t.last())));
        }
        total = sat_add(total, step);
        i = i + 1;
    }
    proof {
        assert(sv.take(i as int) =~= sv);
    }
    total
}

/// The number of units that `span` passes over, at most the largest
/// machine count.
pub fn add_span_reach(span: &AddSpan) -> (res: usize)
    ensures
        res == sat(add_reach(span.deep_view())),
    decreases span,
{
    let ghost sv = span.deep_view();
    let mut total: usize = 0;
    let mut i: usize = 0;
    proof {
        assert(sv.take(0) =~= Seq::<AddNode>::empty());
    }
    while i < span.len()
        invariant
            i <= span.len(),
            sv == span.deep_view(),
            total == sat(add_reach(sv.take(i as int))),
        decreases span.len() - i,
    {
        proof {
            assert(sv.take(i + 1).drop_last() =~= sv.take(i as int));
            assert(sv.take(i + 1).last() == span@[i as int].deep_view());
        }
        let step = match &span[i] {
            AddElement::AddSkip(k) => *k,
            AddElement::AddChars(_) => 0,
            AddElement::AddStyles(k, _) => *k,
            AddElement::AddWithGroup(_) => 1,
            AddElement::AddGroup(_, inner) => add_span_reach(inner),
        };
        proof {
            let t = sv.take(i + 1);
            assert(add_reach(t) == add_reach(t.drop_last()) + add_node_reach(t.last()));
            assert(step == sat(add_node_reach(t.last())));
        }
        total = sat_add(total, step);
        i = i + 1;
    }
    proof {
        assert(sv.take(i as int) =~= sv);
    }
    total
}

/// The span `s` with a skip at its end over what is left of `total` units
/// after what the span passes over.
pub open spec fn pad_del(s: Seq<DelNode>, total: nat) -> Seq<DelNode> {
    if total > del_reach(s) {
        place_del(s, DelNode::Skip((total - del_reach(s)) as nat))
    } else {
        s
    }
}

/// The span `s` with a skip at its end over what is left of `total` units
/// after what the span passes over.
pub open spec fn pad_add(s: Seq<AddNode>, total: nat) -> Seq<AddNode> {
    if total > add_reach(s) {
        place_add(s, AddNode::Skip((total - add_reach(s)) as nat))
    } else {
        s
    }
}

/// The operation that two writers give when every level that is open is
/// ended as a descent, innermost first. Before a level ends, its delete
/// span is padded to the number of units of the level, and its add span
/// to the number of units that the delete span leaves, as far as machine
/// counts reach.
pub open spec fn close_levels(
    dstack: Seq<Seq<DelNode>>,
    dpast: Seq<DelNode>,
    astack: Seq<Seq<AddNode>>,
    apast: Seq<AddNode>,
    totals: Seq<usize>,
) -> (Seq<DelNode>, Seq<AddNode>)
    decreases dstack.len(),
{
    let d = pad_del(dpast, totals.last() as nat);
    let a = pad_add(apast, sat(del_yield(d)));
    if dstack.len() == 0 || astack.len() == 0 || totals.len() == 0 {
        (d, a)
    } else {
        close_levels(
            dstack.drop_last(),
            dstack.last().push(DelNode::WithGroup(d)),
            astack.drop_last(),
            astack.last().push(AddNode::WithGroup(a)),
            totals.drop_last(),
        )
    }
}

/// A padded span passes over the whole of what it was padded to.
pub proof fn lemma_pad_reach(d: Seq<DelNode>, a: Seq<AddNode>, total: nat)
    ensures
        del_reach(pad_del(d, total)) == if total > del_reach(d) {
            total
        } else {
            del_reach(d)
        },
        add_reach(pad_add(a, total)) == if total > add_reach(a) {
            total
        } else {
            add_reach(a)
        },
{
    if total > del_reach(d) {
        let k = (total - del_reach(d)) as nat;
        let r = place_del(d, DelNode::Skip(k));
        if d.len() > 0 && d.last() is Skip {
            assert(r.drop_last() =~= d.drop_last());
        } else {
            assert(r.drop_last() =~= d);
        }
    }
    if total > add_reach(a) {
        let k = (total - add_reach(a)) as nat;
        let r = place_add(a, AddNode::Skip(k));
        if a.len() > 0 && a.last() is Skip {
            assert(r.drop_last() =~= a.drop_last());
            assert(add_reach(a) == add_reach(a.drop_last()) + add_node_reach(a.last()));
            assert(add_reach(r) == add_reach(r.drop_last()) + add_node_reach(r.last()));
        } else {
            assert(r.drop_last() =~= a);
            assert(add_reach(r) == add_reach(r.drop_last()) + add_node_reach(r.last()));
        }
    }
}

/// The operation that two writers give when their levels are ended passes
/// over the whole of the outermost level: its delete span over the units
/// of the document there, and its add span over the units that the delete
/// span leaves, as far as machine counts reach.
pub proof fn lemma_close_levels_whole(
    dstack: Seq<Seq<DelNode>>,
    dpast: Seq<DelNode>,
    astack: Seq<Seq<AddNode>>,
    apast: Seq<AddNode>,
    totals: Seq<usize>,
)
    requires
        dstack.len() == astack.len(),
        totals.len() == dstack.len() + 1,
    ensures
        del_reach(close_levels(dstack, dpast, astack, apast, totals).0) >= totals[0],
        add_reach(close_levels(dstack, dpast, astack, apast, totals).1) >= sat(
            del_yield(close_levels(dstack, dpast, astack, apast, totals).0),
        ),
    decreases dstack.len(),
{
    let d = pad_del(dpast, totals.last() as nat);
    let a = pad_add(apast, sat(del_yield(d)));
    lemma_pad_reach(dpast, apast, totals.last() as nat);
    lemma_pad_reach(d, apast, sat(del_yield(d)));
    if dstack.len() > 0 {
        lemma_close_levels_whole(
            dstack.drop_last(),
            dstack.last().push(DelNode::WithGroup(d)),
            astack.drop_last(),
            astack.last().push(AddNode::WithGroup(a)),
            totals.drop_last(),
        );
        assert(totals.drop_last()[0] == totals[0]);
    }
}

/// Writes an operation at a place of a document. `totals` holds, for each
/// level that is open, the number of units of the document at that level,
/// outermost first.
pub struct OpWriter {
    pub del: DelWriter,
    pub add: AddWriter,
    pub totals: Vec<usize>,
}

impl OpWriter {
    /// The two writers are as deep as the place they write at.
    pub open spec fn aligned(&self) -> bool {
        &&& self.del.stack_view().len() == self.add.stack_view().len()
        &&& self.totals@.len() == self.del.stack_view().len() + 1
    }

    /// Ends every open level and gives the operation that was written.
    /// Each level is padded with a skip, so that both spans pass over the
    /// whole of the document at every level.
    pub fn exit_result(self) -> (res: Op)
        requires
            self.aligned(),
        ensures
            (res.0.deep_view(), res.1.deep_view()) == close_levels(
                self.del.stack_view(),
                self.del.past_view(),
                self.add.stack_view(),
                self.add.past_view(),
                self.totals@,
            ),
            del_reach(res.0.deep_view()) >= self.totals@[0],
            add_reach(res.1.deep_view()) >= sat(del_yield(res.0.deep_view())),
    {
        proof {
            lemma_close_levels_whole(
                self.del.stack_view(),
                self.del.past_view(),
                self.add.stack_view(),
                self.add.past_view(),
                self.totals@,
            );
        }
        let ghost goal = close_levels(
            self.del.stack_view(),
            self.del.past_view(),
            self.add.stack_view(),
            self.add.past_view(),
            self.totals@,
        );
        let mut w = self;
        loop
            invariant
                goal == close_levels(
                    self.del.stack_view(),
                    self.del.past_view(),
                    self.add.stack_view(),
                    self.add.past_view(),
                    self.totals@,
                ),
                del_reach(goal.0) >= self.totals@[0],
                add_reach(goal.1) >= sat(del_yield(goal.0)),
                w.aligned(),
                close_levels(
                    w.del.stack_view(),
                    w.del.past_view(),
                    w.add.stack_view(),
                    w.add.past_view(),
                    w.totals@,
                ) == goal,
            decreases w.del.stack_view().len(),
        {
            let ghost d0 = w.del.past_view();
            let ghost a0 = w.add.past_view();
            let ghost ds = w.del.stack_view();
            let ghost asv = w.add.stack_view();
            let ghost ts = w.totals@;
            let total = w.totals[w.totals.len() - 1];
            proof {
                lemma_last_skip_reach(d0, a0);
            }
            let reach = del_span_reach(&w.del.past);
            if total > reach {
                w.del.skip(total - reach);
            }
            let len = del_span_yield(&w.del.past);
            let areach = add_span_reach(&w.add.past);
            if len > areach {
                w.add.skip(len - areach);
            }
            assert(w.del.stack.len() == w.del.stack_view().len());
            assert(w.add.stack.len() == w.add.stack_view().len());
            proof {
                let d = pad_del(d0, ts.last() as nat);
                assert(w.del.past_view() == d);
                assert(w.add.past_view() == pad_add(a0, sat(del_yield(d))));
                assert(w.del.stack_view() == ds);
                assert(w.add.stack_view() == asv);
                assert(w.totals@ == ts);
            }
            if w.del.stack.len() == 0 {
                let res = (w.del.result(), w.add.result());
                assert((res.0.deep_view(), res.1.deep_view()) == close_levels(ds, d0, asv, a0, ts));
                assert(close_levels(ds, d0, asv, a0, ts) == goal);
                return res;
            }
            w.del.exit();
            w.add.exit();
            let ghost before = w.totals@;
            w.totals.pop();
            assert(w.totals@ =~= before.drop_last());
        }
    }
}

} // verus!
