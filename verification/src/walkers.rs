//! A walker: a place in a document from which operations are written.

use crate::doc::{
    attr_get, group_views, AddNode, AttrMap, Attrs, CurElement, CurNode, CurSpan, DelNode,
    DocElement, DocNode, DocSpan,
};
use crate::stepper::{
    lemma_doc_sized, lemma_path_prefix, lemma_span_at_canonical, lemma_span_at_sized,
    lemma_unit_pos_next, path_ok, span_at, span_len, span_sized, unit_pos, DocStepper,
};
use crate::units::{node_canonical, node_units, span_canonical};
use crate::writer::{sat, AddWriter, DelWriter, OpWriter};
use vstd::prelude::*;

verus! {

broadcast use {vstd::group_vstd_default, group_views};

/// A delete span that skips `n` units, empty where `n` is zero.
pub open spec fn skip_del(n: nat) -> Seq<DelNode> {
    if n > 0 {
        seq![DelNode::Skip(n)]
    } else {
        Seq::empty()
    }
}

/// An add span that skips `n` units, empty where `n` is zero.
pub open spec fn skip_add(n: nat) -> Seq<AddNode> {
    if n > 0 {
        seq![AddNode::Skip(n)]
    } else {
        Seq::empty()
    }
}

/// For each group of `path`, a delete span that skips the units before
/// that group in the span around it; outermost first.
pub open spec fn outer_del_stack(doc: Seq<DocNode>, path: Seq<usize>) -> Seq<Seq<DelNode>>
    decreases path.len(),
{
    if path.len() == 0 {
        Seq::empty()
    } else {
        outer_del_stack(doc, path.drop_last()).push(
            skip_del(sat(span_len(span_at(doc, path.drop_last()).take(path.last() as int)))),
        )
    }
}

/// For each group of `path`, an add span that skips the units before that
/// group in the span around it; outermost first.
pub open spec fn outer_add_stack(doc: Seq<DocNode>, path: Seq<usize>) -> Seq<Seq<AddNode>>
    decreases path.len(),
{
    if path.len() == 0 {
        Seq::empty()
    } else {
        outer_add_stack(doc, path.drop_last()).push(
            skip_add(sat(span_len(span_at(doc, path.drop_last()).take(path.last() as int)))),
        )
    }
}

/// For each group of `path`, the number of units of the span around it;
/// outermost first.
pub open spec fn outer_totals(doc: Seq<DocNode>, path: Seq<usize>) -> Seq<usize>
    decreases path.len(),
{
    if path.len() == 0 {
        Seq::empty()
    } else {
        outer_totals(doc, path.drop_last()).push(
            sat(span_len(span_at(doc, path.drop_last()))) as usize,
        )
    }
}

/// The number of units before the place `offset` characters into the atom
/// at `index` of `span`, at most the largest machine count.
fn units_before(span: &Vec<DocElement>, index: usize, offset: usize) -> (res: usize)
    requires
        index <= span.len(),
    ensures
        res == sat(unit_pos(span.deep_view(), index as int, offset as int) as nat),
{
    let ghost sv = span.deep_view();
    let mut total: usize = 0;
    let mut i: usize = 0;
    proof {
        assert(sv.take(0) =~= Seq::<DocNode>::empty());
    }
    while i < index
        invariant
            i <= index <= span.len(),
            sv == span.deep_view(),
            total == sat(span_len(sv.take(i as int))),
        decreases index - i,
    {
        proof {
            lemma_unit_pos_next(sv, i as int);
        }
        let step = match &span[i] {
            DocElement::DocChars(t) => t.char_len(),
            DocElement::DocGroup(_, _) => 1,
        };
        total = if total > usize::MAX - step {
            usize::MAX
        } else {
            total + step
        };
        i = i + 1;
    }
    if total > usize::MAX - offset {
        usize::MAX
    } else {
        total + offset
    }
}

/// A place in a document: the groups that were entered, the atom that
/// comes next in the innermost of them, and the number of characters
/// already passed in that atom.
pub struct Place {
    pub path: Seq<usize>,
    pub index: int,
    pub offset: int,
}

/// The place at the start of a document.
pub open spec fn start_place() -> Place {
    Place { path: Seq::empty(), index: 0, offset: 0 }
}

/// Whether `p` is a place of `doc`.
pub open spec fn place_ok(doc: Seq<DocNode>, p: Place) -> bool {
    let s = span_at(doc, p.path);
    &&& path_ok(doc, p.path)
    &&& 0 <= p.index <= s.len()
    &&& 0 <= p.offset
    &&& (p.offset > 0 ==> p.index < s.len() && s[p.index] is Chars && p.offset
        < s[p.index]->Chars_0.chars.len())
}

/// The place one step forward: past one character, into the group that
/// comes next, or out of the group at whose end the place is. There is
/// none at the end of the document.
pub open spec fn walk_next(doc: Seq<DocNode>, p: Place) -> Option<Place> {
    let s = span_at(doc, p.path);
    if p.index < s.len() {
        match s[p.index] {
            DocNode::Chars(t) => if p.offset + 1 < t.chars.len() {
                Some(Place { path: p.path, index: p.index, offset: p.offset + 1 })
            } else {
                Some(Place { path: p.path, index: p.index + 1, offset: 0 })
            },
            DocNode::Group(_, _) => Some(
                Place { path: p.path.push(p.index as usize), index: 0, offset: 0 },
            ),
        }
    } else if p.path.len() > 0 {
        Some(Place { path: p.path.drop_last(), index: p.path.last() + 1, offset: 0 })
    } else {
        None
    }
}

/// The place one step back: before the character that was passed last,
/// at the end of the group that lies before, or before the group at whose
/// start the place is. There is none at the start of the document.
pub open spec fn walk_prev(doc: Seq<DocNode>, p: Place) -> Option<Place> {
    let s = span_at(doc, p.path);
    if p.offset > 0 {
        Some(Place { path: p.path, index: p.index, offset: p.offset - 1 })
    } else if p.index > 0 {
        match s[p.index - 1] {
            DocNode::Chars(t) => Some(
                Place {
                    path: p.path,
                    index: p.index - 1,
                    offset: if t.chars.len() > 0 {
                        t.chars.len() - 1
                    } else {
                        0
                    },
                },
            ),
            DocNode::Group(_, c) => Some(
                Place { path: p.path.push((p.index - 1) as usize), index: c.len() as int, offset: 0 },
            ),
        }
    } else if p.path.len() > 0 {
        Some(Place { path: p.path.drop_last(), index: p.path.last() as int, offset: 0 })
    } else {
        None
    }
}

/// The place `n` steps forward of `p`, if the document goes that far.
pub open spec fn walk_steps(doc: Seq<DocNode>, p: Place, n: nat) -> Option<Place>
    decreases n,
{
    if n == 0 {
        Some(p)
    } else {
        match walk_steps(doc, p, (n - 1) as nat) {
            Some(q) => walk_next(doc, q),
            None => None,
        }
    }
}

/// The number of steps that one atom takes to walk through.
pub open spec fn node_tokens(n: DocNode) -> nat
    decreases n,
{
    match n {
        DocNode::Chars(t) => t.chars.len(),
        DocNode::Group(_, c) => 2 + span_tokens(c),
    }
}

/// The number of steps that a span takes to walk through.
pub open spec fn span_tokens(s: Seq<DocNode>) -> nat
    decreases s,
{
    if s.len() == 0 {
        0
    } else {
        node_tokens(s[0]) + span_tokens(s.skip(1))
    }
}

/// The number of steps from the place `p` to the end of the document.
pub open spec fn steps_ahead(doc: Seq<DocNode>, p: Place) -> int
    decreases p.path.len(),
{
    let here = span_tokens(span_at(doc, p.path).skip(p.index)) - p.offset;
    if p.path.len() > 0 {
        here + 1 + steps_ahead(
            doc,
            Place { path: p.path.drop_last(), index: p.path.last() + 1, offset: 0 },
        )
    } else {
        here
    }
}

/// Whether the attributes are those of a caret.
pub open spec fn is_caret_attrs(a: AttrMap) -> bool {
    attr_get(a, "tag"@) == Some("caret"@)
}

/// Whether the attributes are those of a block: a heading, a paragraph,
/// preformatted text or embedded markup.
pub open spec fn is_block_attrs(a: AttrMap) -> bool {
    match attr_get(a, "tag"@) {
        Some(t) => t == "h1"@ || t == "h2"@ || t == "h3"@ || t == "h4"@ || t == "h5"@ || t
            == "h6"@ || t == "p"@ || t == "pre"@ || t == "html"@,
        None => false,
    }
}

/// Whether an atom is a caret.
pub open spec fn is_caret_node(n: DocNode) -> bool {
    n is Group && is_caret_attrs(n->Group_0)
}

/// Whether an atom is a block.
pub open spec fn is_block_node(n: DocNode) -> bool {
    n is Group && is_block_attrs(n->Group_0)
}

/// The index at which the carets begin that lie directly before `index`.
pub open spec fn carets_start(s: Seq<DocNode>, index: int) -> int
    decreases index,
{
    if 0 < index <= s.len() && is_caret_node(s[index - 1]) {
        carets_start(s, index - 1)
    } else {
        index
    }
}

/// Whether a caret can stand at the place `p`: behind a character, with
/// nothing but carets between, or at the start of a block.
pub open spec fn place_valid(doc: Seq<DocNode>, p: Place) -> bool {
    let s = span_at(doc, p.path);
    if p.offset > 0 {
        true
    } else {
        let j = carets_start(s, p.index);
        if j > 0 {
            s[j - 1] is Chars
        } else {
            p.path.len() > 0 && is_block_node(
                span_at(doc, p.path.drop_last())[p.path.last() as int],
            )
        }
    }
}

/// The number of places at which a caret can stand among the first `n`
/// places that a walk from the start of the document comes to.
pub open spec fn valid_upto(doc: Seq<DocNode>, n: nat) -> int
    decreases n,
{
    if n == 0 {
        0
    } else {
        valid_upto(doc, (n - 1) as nat) + (match walk_steps(doc, start_place(), n) {
            Some(q) => if place_valid(doc, q) {
                1int
            } else {
                0int
            },
            None => 0int,
        })
    }
}

/// The caret position of the place that a walk from the start of the
/// document comes to after `n` steps: the places before it at which a
/// caret can stand are counted from zero; it is -1 before the first.
pub open spec fn caret_at(doc: Seq<DocNode>, n: nat) -> int {
    valid_upto(doc, n) - 1
}

/// The steps through a span are those through its part before an atom of
/// it and those from that atom on.
pub proof fn lemma_tokens_skip(s: Seq<DocNode>, i: int)
    requires
        0 <= i < s.len(),
    ensures
        span_tokens(s.skip(i)) == node_tokens(s[i]) + span_tokens(s.skip(i + 1)),
{
    assert(s.skip(i).skip(1) =~= s.skip(i + 1));
}

/// A step forward from a place of a canonical document comes to a place
/// of the document that is one step nearer to its end, and from which a
/// step back comes to where the step began.
pub proof fn lemma_walk_next(doc: Seq<DocNode>, p: Place)
    requires
        span_canonical(doc),
        span_sized(doc),
        place_ok(doc, p),
    ensures
        steps_ahead(doc, p) >= 0,
        walk_next(doc, p) is None <==> steps_ahead(doc, p) == 0,
        walk_next(doc, p) matches Some(q) ==> place_ok(doc, q) && steps_ahead(doc, q) + 1
            == steps_ahead(doc, p) && walk_prev(doc, q) == Some(p),
    decreases p.path.len(),
{
    let s = span_at(doc, p.path);
    lemma_span_at_canonical(doc, p.path);
    lemma_span_at_sized(doc, p.path);
    let up = Place { path: p.path.drop_last(), index: p.path.last() + 1, offset: 0 };
    if p.path.len() > 0 {
        lemma_walk_next(doc, up);
    }
    if p.index < s.len() {
        lemma_tokens_skip(s, p.index);
        assert(node_canonical(s[p.index]));
        match s[p.index] {
            DocNode::Chars(t) => {
                if p.offset + 1 < t.chars.len() {
                    let q = Place { path: p.path, index: p.index, offset: p.offset + 1 };
                    assert(steps_ahead(doc, q) + 1 == steps_ahead(doc, p));
                } else {
                    let q = Place { path: p.path, index: p.index + 1, offset: 0 };
                    assert(p.offset == t.chars.len() - 1);
                    assert(steps_ahead(doc, q) + 1 == steps_ahead(doc, p));
                    assert(walk_prev(doc, q) == Some(p));
                }
            },
            DocNode::Group(_, c) => {
                let q = Place { path: p.path.push(p.index as usize), index: 0, offset: 0 };
                assert(q.path.drop_last() =~= p.path);
                assert(q.path.last() == p.index);
                assert(span_at(doc, q.path) == c);
                assert(c.skip(0) =~= c);
                assert(p.offset == 0);
                let after = Place { path: p.path, index: p.index + 1, offset: 0 };
                assert(steps_ahead(doc, q) == span_tokens(c) + 1 + steps_ahead(doc, after));
                assert(steps_ahead(doc, after) + node_tokens(s[p.index]) == steps_ahead(doc, p));
                assert(place_ok(doc, q));
                assert(walk_prev(doc, q) == Some(p));
            },
        }
    } else {
        assert(s.skip(p.index) =~= Seq::<DocNode>::empty());
        assert(p.offset == 0);
        if p.path.len() > 0 {
            assert(up.path.push(p.path.last()) =~= p.path);
            let outer = span_at(doc, up.path);
            assert(outer[p.path.last() as int]->Group_1 == s);
            assert(place_ok(doc, up));
            assert(walk_prev(doc, up) == Some(p));
        }
    }
}

/// The places that a walk from the start of a canonical document comes to
/// are places of the document.
pub proof fn lemma_walk_steps_ok(doc: Seq<DocNode>, n: nat)
    requires
        span_canonical(doc),
        span_sized(doc),
    ensures
        walk_steps(doc, start_place(), n) matches Some(q) ==> place_ok(doc, q),
    decreases n,
{
    if n > 0 {
        lemma_walk_steps_ok(doc, (n - 1) as nat);
        match walk_steps(doc, start_place(), (n - 1) as nat) {
            Some(q) => {
                lemma_walk_next(doc, q);
            },
            None => {},
        }
    }
}

/// A place in a document from which operations are written, with its
/// caret position.
pub struct Walker {
    pub stepper: DocStepper,
    pub caret_pos: isize,
    pub steps: Ghost<nat>,
}

impl DocStepper {
    /// The place that the stepper stands at.
    pub open spec fn place(&self) -> Place {
        Place { path: self.path@, index: self.index as int, offset: self.offset as int }
    }
}

impl Walker {
    /// The walker names a place of its document, which is canonical and
    /// can be walked through in a number of steps that is a machine
    /// count; it has come to that place in `steps` steps from the start,
    /// and holds the caret position of the place.
    pub open spec fn wf(&self) -> bool {
        let doc = self.stepper.doc.deep_view();
        &&& self.stepper.wf()
        &&& span_canonical(doc)
        &&& span_sized(doc)
        &&& walk_steps(doc, start_place(), self.steps@) == Some(self.stepper.place())
        &&& self.caret_pos == caret_at(doc, self.steps@)
        &&& self.steps@ + steps_ahead(doc, self.stepper.place()) <= isize::MAX
    }

    /// A walker at the start of a copy of `doc`.
    pub fn new(doc: &DocSpan) -> (res: Walker)
        requires
            span_canonical(doc.deep_view()),
            span_tokens(doc.deep_view()) <= isize::MAX,
        ensures
            res.wf(),
            res.stepper.doc.deep_view() == doc.deep_view(),
            res.stepper.place() == start_place(),
            res.steps@ == 0,
            res.caret_pos == -1,
    {
        let res = Walker { stepper: DocStepper::new(doc), caret_pos: -1, steps: Ghost(0) };
        proof {
            assert(res.stepper.place() == start_place());
            assert(doc.deep_view().skip(0) =~= doc.deep_view());
            lemma_doc_sized(res.stepper.doc);
        }
        res
    }

    /// The stepper that holds the walker's place.
    pub fn doc(&self) -> (res: &DocStepper)
        ensures
            *res == self.stepper,
    {
        &self.stepper
    }

    /// The delete spans of the levels around the walker's place in a
    /// writer made at that place.
    pub open spec fn del_stack(&self) -> Seq<Seq<DelNode>> {
        outer_del_stack(self.stepper.doc.deep_view(), self.stepper.path@)
    }

    /// The add spans of the levels around the walker's place in a writer
    /// made at that place.
    pub open spec fn add_stack(&self) -> Seq<Seq<AddNode>> {
        outer_add_stack(self.stepper.doc.deep_view(), self.stepper.path@)
    }

    /// The delete span of the innermost level in a writer made at the
    /// walker's place: a skip over the units before the place.
    pub open spec fn del_past(&self) -> Seq<DelNode> {
        skip_del(sat(self.stepper.pos() as nat))
    }

    /// The add span of the innermost level in a writer made at the
    /// walker's place: a skip over the units before the place.
    pub open spec fn add_past(&self) -> Seq<AddNode> {
        skip_add(sat(self.stepper.pos() as nat))
    }

    /// The number of units of the document at each level around the
    /// walker's place and at its own, outermost first.
    pub open spec fn totals(&self) -> Seq<usize> {
        outer_totals(self.stepper.doc.deep_view(), self.stepper.path@).push(
            sat(span_len(self.stepper.span_view())) as usize,
        )
    }

    /// A writer that stands at the walker's place: it has skipped what
    /// lies before the place at every level, and has begun a group for
    /// each group that the place lies in.
    pub fn to_writer(&self) -> (res: OpWriter)
        requires
            self.stepper.wf(),
        ensures
            res.aligned(),
            res.del.stack_view() == self.del_stack(),
            res.del.past_view() == self.del_past(),
            res.add.stack_view() == self.add_stack(),
            res.add.past_view() == self.add_past(),
            res.totals@ == self.totals(),
    {
        let ghost doc = self.stepper.doc.deep_view();
        let ghost path = self.stepper.path@;
        let mut del = DelWriter::new();
        let mut add = AddWriter::new();
        let mut totals: Vec<usize> = Vec::new();
        let mut s: &Vec<DocElement> = &self.stepper.doc;
        let mut k: usize = 0;
        proof {
            assert(path.take(0) =~= Seq::<usize>::empty());
        }
        while k < self.stepper.path.len()
            invariant
                k <= self.stepper.path.len(),
                doc == self.stepper.doc.deep_view(),
                path == self.stepper.path@,
                path_ok(doc, path),
                s.deep_view() == span_at(doc, path.take(k as int)),
                del.stack_view() == outer_del_stack(doc, path.take(k as int)),
                add.stack_view() == outer_add_stack(doc, path.take(k as int)),
                totals@ == outer_totals(doc, path.take(k as int)),
                del.past_view() == Seq::<DelNode>::empty(),
                add.past_view() == Seq::<AddNode>::empty(),
            decreases self.stepper.path.len() - k,
        {
            proof {
                lemma_path_prefix(doc, path, k + 1);
                assert(path.take(k + 1).drop_last() =~= path.take(k as int));
            }
            let at = self.stepper.path[k];
            let prefix = units_before(s, at, 0);
            let total = units_before(s, s.len(), 0);
            proof {
                assert(s.deep_view().take(s.len() as int) =~= s.deep_view());
            }
            totals.push(total);
            if prefix > 0 {
                del.skip(prefix);
                add.skip(prefix);
            }
            proof {
                assert(del.past_view() =~= skip_del(prefix as nat));
                assert(add.past_view() =~= skip_add(prefix as nat));
            }
            del.begin();
            add.begin();
            match &s[at] {
                DocElement::DocGroup(_, children) => {
                    s = children;
                },
                DocElement::DocChars(_) => {
                    proof {
                        assert(false);
                    }
                },
            }
            k = k + 1;
        }
        proof {
            assert(path.take(k as int) =~= path);
            assert(s.deep_view().take(s.len() as int) =~= s.deep_view());
        }
        let prefix = units_before(s, self.stepper.index, self.stepper.offset);
        let total = units_before(s, s.len(), 0);
        totals.push(total);
        if prefix > 0 {
            del.skip(prefix);
            add.skip(prefix);
        }
        proof {
            assert(del.past_view() =~= skip_del(prefix as nat));
            assert(add.past_view() =~= skip_add(prefix as nat));
            lemma_stack_len(doc, path);
        }
        OpWriter { del, add, totals }
    }
}

/// There is one span on each stack, and one count, for each group of the
/// path.
pub proof fn lemma_stack_len(doc: Seq<DocNode>, path: Seq<usize>)
    ensures
        outer_del_stack(doc, path).len() == path.len(),
        outer_add_stack(doc, path).len() == path.len(),
        outer_totals(doc, path).len() == path.len(),
    decreases path.len(),
{
    if path.len() > 0 {
        lemma_stack_len(doc, path.drop_last());
    }
}


/// Whether the attributes are those of a caret.
pub fn is_caret(attrs: &Attrs) -> (res: bool)
    ensures
        res == is_caret_attrs(attrs@),
{
    attrs.has("tag", "caret")
}

/// Whether the attributes are those of a block.
pub fn is_block(attrs: &Attrs) -> (res: bool)
    ensures
        res == is_block_attrs(attrs@),
{
    attrs.has("tag", "h1") || attrs.has("tag", "h2") || attrs.has("tag", "h3") || attrs.has(
        "tag",
        "h4",
    ) || attrs.has("tag", "h5") || attrs.has("tag", "h6") || attrs.has("tag", "p") || attrs.has(
        "tag",
        "pre",
    ) || attrs.has("tag", "html")
}

/// No more places at which a caret can stand are counted than places.
pub proof fn lemma_valid_upto_bounds(doc: Seq<DocNode>, n: nat)
    ensures
        0 <= valid_upto(doc, n) <= n,
    decreases n,
{
    if n > 0 {
        lemma_valid_upto_bounds(doc, (n - 1) as nat);
    }
}

impl Walker {
    /// Whether a caret can stand at the walker's place.
    pub fn is_valid_caret_pos(&self) -> (res: bool)
        requires
            self.stepper.wf(),
        ensures
            res == place_valid(self.stepper.doc.deep_view(), self.stepper.place()),
    {
        if self.stepper.offset > 0 {
            return true;
        }
        let s = self.stepper.cur_span();
        let ghost sv = s.deep_view();
        let mut j: usize = self.stepper.index;
        let mut done = false;
        while j > 0 && !done
            invariant
                j <= self.stepper.index <= s.len(),
                sv == s.deep_view(),
                carets_start(sv, j as int) == carets_start(sv, self.stepper.index as int),
                done ==> j == 0 || !is_caret_node(sv[j - 1]),
            decreases j + (if done {
                0int
            } else {
                1int
            }),
        {
            let caret = match &s[j - 1] {
                DocElement::DocGroup(attrs, _) => is_caret(attrs),
                DocElement::DocChars(_) => false,
            };
            if caret {
                j = j - 1;
            } else {
                done = true;
            }
        }
        if j > 0 {
            match &s[j - 1] {
                DocElement::DocChars(_) => true,
                DocElement::DocGroup(_, _) => false,
            }
        } else {
            match self.stepper.parent() {
                Some(DocElement::DocGroup(attrs, _)) => is_block(attrs),
                _ => false,
            }
        }
    }

    /// Takes one step forward, unless the walker stands at the end of the
    /// document.
    pub fn step_next(&mut self) -> (res: bool)
        requires
            old(self).wf(),
        ensures
            final(self).wf(),
            final(self).stepper.doc == old(self).stepper.doc,
            res == (walk_next(old(self).stepper.doc.deep_view(), old(self).stepper.place())
                is Some),
            res ==> final(self).steps@ == old(self).steps@ + 1,
            !res ==> final(self).steps@ == old(self).steps@ && final(self).stepper.place() == old(
                self,
            ).stepper.place() && final(self).caret_pos == old(self).caret_pos,
    {
        let ghost doc = self.stepper.doc.deep_view();
        let ghost p = self.stepper.place();
        proof {
            lemma_walk_next(doc, p);
            lemma_valid_upto_bounds(doc, self.steps@);
        }
        let len = self.stepper.cur_span().len();
        if self.stepper.index < len {
            let run: Option<usize> = match &self.stepper.cur_span()[self.stepper.index] {
                DocElement::DocChars(t) => Some(t.char_len()),
                DocElement::DocGroup(_, _) => None,
            };
            match run {
                Some(n) => {
                    if self.stepper.offset + 1 < n {
                        self.stepper.offset = self.stepper.offset + 1;
                    } else {
                        self.stepper.index = self.stepper.index + 1;
                        self.stepper.offset = 0;
                    }
                },
                None => {
                    self.stepper.enter();
                },
            }
        } else if self.stepper.path.len() > 0 {
            self.stepper.exit();
        } else {
            return false;
        }
        proof {
            assert(walk_next(doc, p) == Some(self.stepper.place()));
        }
        if self.is_valid_caret_pos() {
            self.caret_pos = self.caret_pos + 1;
        }
        self.steps = Ghost((self.steps@ + 1) as nat);
        true
    }

    /// Takes one step back, unless the walker stands at the start of the
    /// document.
    pub fn step_prev(&mut self) -> (res: bool)
        requires
            old(self).wf(),
        ensures
            final(self).wf(),
            final(self).stepper.doc == old(self).stepper.doc,
            res == (old(self).steps@ > 0),
            res ==> final(self).steps@ == old(self).steps@ - 1,
            !res ==> final(self).steps@ == old(self).steps@ && final(self).stepper.place() == old(
                self,
            ).stepper.place() && final(self).caret_pos == old(self).caret_pos,
    {
        let ghost doc = self.stepper.doc.deep_view();
        let ghost p = self.stepper.place();
        let ghost n = self.steps@;
        proof {
            lemma_span_at_canonical(doc, p.path);
            if n > 0 {
                lemma_walk_steps_ok(doc, (n - 1) as nat);
                let q = walk_steps(doc, start_place(), (n - 1) as nat)->Some_0;
                lemma_walk_next(doc, q);
                lemma_valid_upto_bounds(doc, (n - 1) as nat);
            }
        }
        let valid = self.is_valid_caret_pos();
        if self.stepper.offset > 0 {
            self.stepper.offset = self.stepper.offset - 1;
        } else if self.stepper.index > 0 {
            let before: Option<usize> = match &self.stepper.cur_span()[self.stepper.index - 1] {
                DocElement::DocChars(t) => Some(t.char_len()),
                DocElement::DocGroup(_, _) => None,
            };
            match before {
                Some(len) => {
                    proof {
                        assert(node_canonical(span_at(doc, p.path)[p.index - 1]));
                    }
                    self.stepper.index = self.stepper.index - 1;
                    self.stepper.offset = len - 1;
                },
                None => {
                    let at = self.stepper.index - 1;
                    let inner = match &self.stepper.cur_span()[at] {
                        DocElement::DocGroup(_, c) => c.len(),
                        DocElement::DocChars(_) => 0,
                    };
                    let ghost path0 = self.stepper.path@;
                    self.stepper.path.push(at);
                    proof {
                        assert(self.stepper.path@.drop_last() =~= path0);
                    }
                    self.stepper.index = inner;
                    self.stepper.offset = 0;
                },
            }
        } else if self.stepper.path.len() > 0 {
            let ghost path0 = self.stepper.path@;
            let at = self.stepper.path.pop().unwrap();
            proof {
                assert(self.stepper.path@ =~= path0.drop_last());
            }
            self.stepper.index = at;
            self.stepper.offset = 0;
        } else {
            return false;
        }
        proof {
            assert(walk_prev(doc, p) == Some(self.stepper.place()));
        }
        if valid {
            self.caret_pos = self.caret_pos - 1;
        }
        self.steps = Ghost((self.steps@ - 1) as nat);
        true
    }

    /// Walks forward to the first place, from the walker's own on, whose
    /// caret position is `target`. Tells whether there is one; the walker
    /// stands at the end of the document if there is none.
    pub fn goto_pos(&mut self, target: isize) -> (res: bool)
        requires
            old(self).wf(),
        ensures
            final(self).wf(),
            final(self).stepper.doc == old(self).stepper.doc,
            final(self).steps@ >= old(self).steps@,
            forall|k: nat|
                old(self).steps@ <= k < final(self).steps@ ==> caret_at(
                    old(self).stepper.doc.deep_view(),
                    k,
                ) != target,
            res == (final(self).caret_pos == target),
            !res ==> walk_next(final(self).stepper.doc.deep_view(), final(self).stepper.place())
                is None,
    {
        let ghost doc = self.stepper.doc.deep_view();
        loop
            invariant
                self.wf(),
                self.stepper.doc == old(self).stepper.doc,
                doc == self.stepper.doc.deep_view(),
                self.steps@ >= old(self).steps@,
                forall|k: nat| old(self).steps@ <= k < self.steps@ ==> caret_at(doc, k) != target,
            decreases steps_ahead(doc, self.stepper.place()),
        {
            if self.caret_pos == target {
                return true;
            }
            proof {
                lemma_walk_next(doc, self.stepper.place());
            }
            if !self.step_next() {
                return false;
            }
        }
    }
}


/// Which caret of a client: the one that moves, or the one that marks
/// where a selection began.
#[derive(Debug, Clone, Copy, PartialEq, Eq, Structural)]
pub enum Pos {
    Focus,
    Anchor,
}

/// The value of the attribute that tells a focus from an anchor.
pub open spec fn focus_value(focus: bool) -> Seq<char> {
    if focus {
        "true"@
    } else {
        "false"@
    }
}

/// Whether the attributes are those of the caret of the client `client`
/// that is its focus, or else its anchor.
pub open spec fn is_caret_of(a: AttrMap, client: Seq<char>, focus: bool) -> bool {
    &&& attr_get(a, "tag"@) == Some("caret"@)
    &&& attr_get(a, "client"@) == Some(client)
    &&& attr_get(a, "focus"@) == Some(focus_value(focus))
}

/// Whether the atom that comes next at the place `p` is the caret of the
/// client `client` that is its focus, or else its anchor.
pub open spec fn at_caret(doc: Seq<DocNode>, p: Place, client: Seq<char>, focus: bool) -> bool {
    let s = span_at(doc, p.path);
    p.index < s.len() && s[p.index] is Group && is_caret_of(s[p.index]->Group_0, client, focus)
}

/// A walk that has come to the end of a document goes no further.
pub proof fn lemma_walk_ends(doc: Seq<DocNode>, n: nat, m: nat)
    requires
        walk_steps(doc, start_place(), n) is None,
        n <= m,
    ensures
        walk_steps(doc, start_place(), m) is None,
    decreases m,
{
    if n < m {
        lemma_walk_ends(doc, n, (m - 1) as nat);
    }
}

/// Why a walker could not be made.
#[derive(Debug, PartialEq, Eq)]
pub enum WalkError {
    /// The document holds no caret of the kind that was asked for.
    NoCaret,
}

impl Walker {
    /// A walker at the first caret of the client `client_id` that is its
    /// focus, or else its anchor. There is none where the document holds
    /// no such caret.
    pub fn to_caret(doc: &DocSpan, client_id: &str, position: Pos) -> (res: Result<
        Walker,
        WalkError,
    >)
        requires
            span_canonical(doc.deep_view()),
            span_tokens(doc.deep_view()) <= isize::MAX,
        ensures
            match res {
                Ok(w) => w.wf() && w.stepper.doc.deep_view() == doc.deep_view() && at_caret(
                    doc.deep_view(),
                    w.stepper.place(),
                    client_id@,
                    position == Pos::Focus,
                ) && forall|k: nat|
                    k < w.steps@ ==> !at_caret(
                        doc.deep_view(),
                        #[trigger] walk_steps(doc.deep_view(), start_place(), k)->Some_0,
                        client_id@,
                        position == Pos::Focus,
                    ),
                Err(_) => forall|k: nat|
                    (#[trigger] walk_steps(doc.deep_view(), start_place(), k)) is Some
                        ==> !at_caret(
                        doc.deep_view(),
                        walk_steps(doc.deep_view(), start_place(), k)->Some_0,
                        client_id@,
                        position == Pos::Focus,
                    ),
            },
    {
        let focus = match position {
            Pos::Focus => true,
            Pos::Anchor => false,
        };
        let ghost dv = doc.deep_view();
        let mut walker = Walker::new(doc);
        loop
            invariant
                walker.wf(),
                dv == doc.deep_view(),
                walker.stepper.doc.deep_view() == dv,
                focus == (position == Pos::Focus),
                forall|k: nat|
                    k < walker.steps@ ==> !at_caret(
                        dv,
                        #[trigger] walk_steps(dv, start_place(), k)->Some_0,
                        client_id@,
                        focus,
                    ),
            decreases steps_ahead(dv, walker.stepper.place()),
        {
            let here = match walker.stepper.head() {
                Some(DocElement::DocGroup(attrs, _)) => attrs.has("tag", "caret") && attrs.has(
                    "client",
                    client_id,
                ) && attrs.has("focus", if focus {
                    "true"
                } else {
                    "false"
                }),
                _ => false,
            };
            proof {
                assert(here == at_caret(dv, walker.stepper.place(), client_id@, focus));
                lemma_walk_next(dv, walker.stepper.place());
            }
            if here {
                return Ok(walker);
            }
            let ghost n = walker.steps@;
            if !walker.step_next() {
                proof {
                    assert forall|k: nat|
                        (#[trigger] walk_steps(dv, start_place(), k)) is Some implies !at_caret(
                        dv,
                        walk_steps(dv, start_place(), k)->Some_0,
                        client_id@,
                        focus,
                    ) by {
                        if k > n {
                            lemma_walk_ends(dv, n + 1, k);
                        }
                    }
                }
                return Err(WalkError::NoCaret);
            }
        }
    }
}


/// Whether the place `p` is the start of a block.
pub open spec fn at_block_start(doc: Seq<DocNode>, p: Place) -> bool {
    p.index == 0 && p.offset == 0 && p.path.len() > 0 && is_block_node(
        span_at(doc, p.path.drop_last())[p.path.last() as int],
    )
}

/// The place that a walk from the start of `doc` comes to after `n`
/// steps.
pub open spec fn place_at(doc: Seq<DocNode>, n: nat) -> Place {
    walk_steps(doc, start_place(), n)->Some_0
}

/// Whether a walk from the start of `doc` goes as far as `n` steps.
pub open spec fn walk_reaches(doc: Seq<DocNode>, n: nat) -> bool {
    walk_steps(doc, start_place(), n) is Some
}

/// A walk that goes `m` steps far goes every smaller number of steps far.
pub proof fn lemma_walk_reaches(doc: Seq<DocNode>, n: nat, m: nat)
    requires
        walk_reaches(doc, m),
        n <= m,
    ensures
        walk_reaches(doc, n),
    decreases m,
{
    if n < m {
        lemma_walk_reaches(doc, n, (m - 1) as nat);
    }
}

impl Walker {
    /// Takes `n` steps back.
    fn back_steps(&mut self, n: usize)
        requires
            old(self).wf(),
            n <= old(self).steps@,
        ensures
            final(self).wf(),
            final(self).stepper.doc == old(self).stepper.doc,
            final(self).steps@ == old(self).steps@ - n,
    {
        let mut k: usize = 0;
        while k < n
            invariant
                k <= n <= old(self).steps@,
                self.wf(),
                self.stepper.doc == old(self).stepper.doc,
                self.steps@ == old(self).steps@ - k,
            decreases n - k,
        {
            self.step_prev();
            k = k + 1;
        }
    }

    /// Takes `n` steps forward, which the document has.
    fn forward_steps(&mut self, n: usize)
        requires
            old(self).wf(),
            walk_reaches(old(self).stepper.doc.deep_view(), (old(self).steps@ + n) as nat),
        ensures
            final(self).wf(),
            final(self).stepper.doc == old(self).stepper.doc,
            final(self).steps@ == old(self).steps@ + n,
    {
        let ghost doc = self.stepper.doc.deep_view();
        let ghost goal: nat = (self.steps@ + n) as nat;
        let mut k: usize = 0;
        while k < n
            invariant
                k <= n,
                self.wf(),
                self.stepper.doc == old(self).stepper.doc,
                doc == self.stepper.doc.deep_view(),
                self.steps@ == old(self).steps@ + k,
                goal == old(self).steps@ + n,
                walk_reaches(doc, goal),
            decreases n - k,
        {
            proof {
                lemma_walk_reaches(doc, (self.steps@ + 1) as nat, goal);
            }
            self.step_next();
            k = k + 1;
        }
    }

    /// Whether the walker stands at the start of a block.
    pub fn is_block_start(&self) -> (res: bool)
        requires
            self.stepper.wf(),
        ensures
            res == at_block_start(self.stepper.doc.deep_view(), self.stepper.place()),
    {
        if self.stepper.index == 0 && self.stepper.offset == 0 {
            match self.stepper.parent() {
                Some(DocElement::DocGroup(attrs, _)) => is_block(attrs),
                _ => false,
            }
        } else {
            false
        }
    }

    /// Moves to the next place at which a caret can stand. Where there is
    /// none, the walker stays and the result is false.
    pub fn next_char(&mut self) -> (res: bool)
        requires
            old(self).wf(),
        ensures
            final(self).wf(),
            final(self).stepper.doc == old(self).stepper.doc,
            res ==> final(self).caret_pos == old(self).caret_pos + 1 && final(self).steps@ > old(
                self,
            ).steps@,
            !res ==> final(self).steps@ == old(self).steps@,
            forall|k: nat|
                old(self).steps@ < k && (if res {
                    k < final(self).steps@
                } else {
                    walk_reaches(old(self).stepper.doc.deep_view(), k)
                }) ==> caret_at(old(self).stepper.doc.deep_view(), k) != old(self).caret_pos + 1,
    {
        let ghost doc = self.stepper.doc.deep_view();
        let ghost n0 = self.steps@;
        proof {
            lemma_valid_upto_bounds(doc, n0);
            lemma_walk_next(doc, self.stepper.place());
        }
        let target = self.caret_pos + 1;
        let mut moved: usize = 0;
        loop
            invariant
                self.wf(),
                self.stepper.doc == old(self).stepper.doc,
                doc == self.stepper.doc.deep_view(),
                n0 == old(self).steps@,
                target == old(self).caret_pos + 1,
                self.steps@ == n0 + moved,
                forall|k: nat| n0 < k <= self.steps@ ==> caret_at(doc, k) != target,
            decreases steps_ahead(doc, self.stepper.place()),
        {
            proof {
                lemma_walk_next(doc, self.stepper.place());
            }
            let ghost n = self.steps@;
            if !self.step_next() {
                proof {
                    assert forall|k: nat| n0 < k && walk_reaches(doc, k) implies caret_at(doc, k)
                        != target by {
                        if k > n {
                            lemma_walk_ends(doc, (n + 1) as nat, k);
                        }
                    }
                }
                self.back_steps(moved);
                return false;
            }
            moved = moved + 1;
            if self.caret_pos == target {
                return true;
            }
        }
    }

    /// Moves to the place before at which a caret can stand. Where there
    /// is none, the walker stays and the result is false.
    pub fn back_char(&mut self) -> (res: bool)
        requires
            old(self).wf(),
        ensures
            final(self).wf(),
            final(self).stepper.doc == old(self).stepper.doc,
            res ==> final(self).caret_pos == old(self).caret_pos - 1 && final(self).steps@ < old(
                self,
            ).steps@ && place_valid(
                final(self).stepper.doc.deep_view(),
                final(self).stepper.place(),
            ),
            !res ==> final(self).steps@ == old(self).steps@,
            forall|k: nat|
                k < old(self).steps@ && (res ==> final(self).steps@ < k) ==> !(caret_at(
                    old(self).stepper.doc.deep_view(),
                    k,
                ) == old(self).caret_pos - 1 && place_valid(
                    old(self).stepper.doc.deep_view(),
                    place_at(old(self).stepper.doc.deep_view(), k),
                )),
    {
        let ghost doc = self.stepper.doc.deep_view();
        let ghost n0 = self.steps@;
        proof {
            lemma_valid_upto_bounds(doc, n0);
            lemma_walk_reaches(doc, n0, n0);
            lemma_walk_next(doc, self.stepper.place());
        }
        let target = self.caret_pos - 1;
        let mut moved: usize = 0;
        loop
            invariant
                n0 <= isize::MAX,
                self.wf(),
                self.stepper.doc == old(self).stepper.doc,
                doc == self.stepper.doc.deep_view(),
                n0 == old(self).steps@,
                target == old(self).caret_pos - 1,
                self.steps@ + moved == n0,
                walk_reaches(doc, n0),
                forall|k: nat|
                    self.steps@ <= k < n0 ==> !(caret_at(doc, k) == target && place_valid(
                        doc,
                        place_at(doc, k),
                    )),
            decreases self.steps@,
        {
            if !self.step_prev() {
                self.forward_steps(moved);
                return false;
            }
            moved = moved + 1;
            if self.caret_pos == target && self.is_valid_caret_pos() {
                return true;
            }
        }
    }

    /// Moves to the start of the next block. Where there is none, the
    /// walker stays and the result is false.
    pub fn next_block(&mut self) -> (res: bool)
        requires
            old(self).wf(),
        ensures
            final(self).wf(),
            final(self).stepper.doc == old(self).stepper.doc,
            res ==> final(self).steps@ > old(self).steps@ && at_block_start(
                final(self).stepper.doc.deep_view(),
                final(self).stepper.place(),
            ),
            !res ==> final(self).steps@ == old(self).steps@,
            forall|k: nat|
                old(self).steps@ < k && (if res {
                    k < final(self).steps@
                } else {
                    walk_reaches(old(self).stepper.doc.deep_view(), k)
                }) ==> !at_block_start(
                    old(self).stepper.doc.deep_view(),
                    place_at(old(self).stepper.doc.deep_view(), k),
                ),
    {
        let ghost doc = self.stepper.doc.deep_view();
        let ghost n0 = self.steps@;
        let mut moved: usize = 0;
        loop
            invariant
                self.wf(),
                self.stepper.doc == old(self).stepper.doc,
                doc == self.stepper.doc.deep_view(),
                n0 == old(self).steps@,
                self.steps@ == n0 + moved,
                forall|k: nat| n0 < k <= self.steps@ ==> !at_block_start(doc, place_at(doc, k)),
            decreases steps_ahead(doc, self.stepper.place()),
        {
            proof {
                lemma_walk_next(doc, self.stepper.place());
            }
            let ghost n = self.steps@;
            if !self.step_next() {
                proof {
                    assert forall|k: nat| n0 < k && walk_reaches(doc, k) implies !at_block_start(
                        doc,
                        place_at(doc, k),
                    ) by {
                        if k > n {
                            lemma_walk_ends(doc, (n + 1) as nat, k);
                        }
                    }
                }
                self.back_steps(moved);
                return false;
            }
            moved = moved + 1;
            if self.is_block_start() {
                return true;
            }
        }
    }

    /// Moves to the start of the block that the walker stands in, or of
    /// the block before where it stands at such a start. Where there is
    /// none, the walker stays and the result is false.
    pub fn back_block(&mut self) -> (res: bool)
        requires
            old(self).wf(),
        ensures
            final(self).wf(),
            final(self).stepper.doc == old(self).stepper.doc,
            res ==> final(self).steps@ < old(self).steps@ && at_block_start(
                final(self).stepper.doc.deep_view(),
                final(self).stepper.place(),
            ),
            !res ==> final(self).steps@ == old(self).steps@,
            forall|k: nat|
                k < old(self).steps@ && (res ==> final(self).steps@ < k) ==> !at_block_start(
                    old(self).stepper.doc.deep_view(),
                    place_at(old(self).stepper.doc.deep_view(), k),
                ),
    {
        let ghost doc = self.stepper.doc.deep_view();
        let ghost n0 = self.steps@;
        proof {
            lemma_walk_reaches(doc, n0, n0);
            lemma_walk_next(doc, self.stepper.place());
        }
        let mut moved: usize = 0;
        loop
            invariant
                n0 <= isize::MAX,
                self.wf(),
                self.stepper.doc == old(self).stepper.doc,
                doc == self.stepper.doc.deep_view(),
                n0 == old(self).steps@,
                self.steps@ + moved == n0,
                walk_reaches(doc, n0),
                forall|k: nat| self.steps@ <= k < n0 ==> !at_block_start(doc, place_at(doc, k)),
            decreases self.steps@,
        {
            if !self.step_prev() {
                self.forward_steps(moved);
                return false;
            }
            moved = moved + 1;
            if self.is_block_start() {
                return true;
            }
        }
    }

    /// Moves to the last place of the document at which a caret can stand,
    /// or to the start of the document where there is none.
    pub fn goto_end(&mut self)
        requires
            old(self).wf(),
        ensures
            final(self).wf(),
            final(self).stepper.doc == old(self).stepper.doc,
            final(self).steps@ == 0 || place_valid(
                final(self).stepper.doc.deep_view(),
                final(self).stepper.place(),
            ),
            forall|k: nat|
                final(self).steps@ < k && walk_reaches(old(self).stepper.doc.deep_view(), k)
                    ==> !place_valid(
                    old(self).stepper.doc.deep_view(),
                    place_at(old(self).stepper.doc.deep_view(), k),
                ),
    {
        let ghost doc = self.stepper.doc.deep_view();
        let mut more = true;
        while more
            invariant
                self.wf(),
                self.stepper.doc == old(self).stepper.doc,
                doc == self.stepper.doc.deep_view(),
                !more ==> walk_next(doc, self.stepper.place()) is None,
            decreases
                    steps_ahead(doc, self.stepper.place()) + (if more {
                        1int
                    } else {
                        0int
                    }),
        {
            proof {
                lemma_walk_next(doc, self.stepper.place());
            }
            more = self.step_next();
        }
        let ghost last = self.steps@;
        proof {
            assert forall|k: nat| last < k && walk_reaches(doc, k) implies !place_valid(
                doc,
                place_at(doc, k),
            ) by {
                lemma_walk_ends(doc, (last + 1) as nat, k);
            }
        }
        let mut seeking = true;
        while seeking
            invariant
                self.wf(),
                self.stepper.doc == old(self).stepper.doc,
                doc == self.stepper.doc.deep_view(),
                !seeking ==> self.steps@ == 0 || place_valid(doc, self.stepper.place()),
                forall|k: nat|
                    self.steps@ < k && walk_reaches(doc, k) ==> !place_valid(doc, place_at(doc, k)),
            decreases
                    self.steps@ + (if seeking {
                        1int
                    } else {
                        0int
                    }),
        {
            if self.is_valid_caret_pos() {
                seeking = false;
            } else if !self.step_prev() {
                seeking = false;
            }
        }
    }
}


/// The index and the character offset of the place `k` units behind the
/// place `offset` characters into the atom at `index` of `span`.
pub open spec fn move_units(span: Seq<DocNode>, index: int, offset: int, k: nat) -> (int, int)
    decreases span.len() - index,
{
    if k == 0 || index < 0 || index >= span.len() {
        (index, offset)
    } else {
        let here = node_units(span[index]).len() - offset;
        if k < here {
            (index, offset + k)
        } else {
            move_units(span, index + 1, 0, (k - here) as nat)
        }
    }
}

/// The place `k` units behind the place `p`, in the same span.
pub open spec fn place_moved(doc: Seq<DocNode>, p: Place, k: nat) -> Place {
    let m = move_units(span_at(doc, p.path), p.index, p.offset, k);
    Place { path: p.path, index: m.0, offset: m.1 }
}

/// The place inside the group that comes next at the place `p`, at its
/// start.
pub open spec fn place_entered(p: Place) -> Place {
    Place { path: p.path.push(p.index as usize), index: 0, offset: 0 }
}

/// The place that a cursor path leads to from the place `p`: each skip
/// moves over that many units, each descent enters the group that comes
/// next and goes on inside it, and the path ends where it holds nothing
/// more or names the atom that comes next.
pub open spec fn cursor_place(doc: Seq<DocNode>, p: Place, cur: Seq<CurNode>) -> Place
    decreases cur,
{
    if cur.len() == 0 {
        p
    } else {
        match cur[0] {
            CurNode::Skip(k) => cursor_place(doc, place_moved(doc, p, k), cur.skip(1)),
            CurNode::WithGroup(inner) => cursor_place(doc, place_entered(p), inner),
            _ => p,
        }
    }
}

/// Whether a cursor path can be followed from the place `p`: each skip
/// finds that many units in its span, and each descent a group.
pub open spec fn cursor_ok(doc: Seq<DocNode>, p: Place, cur: Seq<CurNode>) -> bool
    decreases cur,
{
    if cur.len() == 0 {
        true
    } else {
        let s = span_at(doc, p.path);
        match cur[0] {
            CurNode::Skip(k) => unit_pos(s, p.index, p.offset) + k <= span_len(s) && cursor_ok(
                doc,
                place_moved(doc, p, k),
                cur.skip(1),
            ),
            CurNode::WithGroup(inner) => p.index < s.len() && s[p.index] is Group && cursor_ok(
                doc,
                place_entered(p),
                inner,
            ),
            _ => true,
        }
    }
}

/// Moving over `k` units of a canonical span and then over one more is
/// moving over `k + 1` units; the place that is come to is a place of the
/// span, `k` units behind where the move began.
pub proof fn lemma_move_units(span: Seq<DocNode>, index: int, offset: int, k: nat)
    requires
        span_canonical(span),
        0 <= index <= span.len(),
        0 <= offset,
        offset > 0 ==> index < span.len() && offset < node_units(span[index]).len(),
        unit_pos(span, index, offset) + k <= span_len(span),
    ensures
        ({
            let m = move_units(span, index, offset, k);
            &&& 0 <= m.0 <= span.len()
            &&& 0 <= m.1
            &&& (m.1 > 0 ==> m.0 < span.len() && span[m.0] is Chars && m.1 < node_units(
                span[m.0],
            ).len())
            &&& unit_pos(span, m.0, m.1) == unit_pos(span, index, offset) + k
            &&& (unit_pos(span, index, offset) + k < span_len(span) ==> m.0 < span.len()
                && move_units(span, m.0, m.1, 1) == move_units(span, index, offset, k + 1))
        }),
    decreases span.len() - index,
{
    if index < span.len() {
        lemma_unit_pos_next(span, index);
        assert(node_canonical(span[index]));
        let here = node_units(span[index]).len() - offset;
        if k >= here {
            lemma_move_units(span, index + 1, 0, (k - here) as nat);
        }
        if offset > 0 {
            assert(span[index] is Chars);
        }
    } else {
        assert(span.take(index) =~= span);
    }
}

impl Walker {
    /// The place that the walker stands at is the one that one step
    /// forward from the place before leads to.
    proof fn lemma_stepped(&self)
        requires
            self.wf(),
            self.steps@ > 0,
        ensures
            walk_steps(
                self.stepper.doc.deep_view(),
                start_place(),
                (self.steps@ - 1) as nat,
            ) matches Some(q) && walk_next(self.stepper.doc.deep_view(), q) == Some(
                self.stepper.place(),
            ),
    {
    }

    /// Moves over the one unit that comes next in the span: a character,
    /// or a whole group.
    pub fn skip_unit(&mut self)
        requires
            old(self).wf(),
            old(self).stepper.index < old(self).stepper.span_view().len(),
        ensures
            final(self).wf(),
            final(self).stepper.doc == old(self).stepper.doc,
            final(self).steps@ > old(self).steps@,
            final(self).stepper.place() == place_moved(
                old(self).stepper.doc.deep_view(),
                old(self).stepper.place(),
                1,
            ),
    {
        let ghost doc = self.stepper.doc.deep_view();
        let ghost p = self.stepper.place();
        let ghost s = span_at(doc, p.path);
        let ghost n0 = self.steps@;
        proof {
            lemma_walk_next(doc, p);
            lemma_span_at_canonical(doc, p.path);
            assert(node_canonical(s[p.index]));
            reveal_with_fuel(move_units, 2);
            let m = move_units(s, p.index, p.offset, 1);
            assert(s[p.index] is Group ==> m == (p.index + 1, 0int));
            assert(s[p.index] is Chars ==> walk_next(doc, p) == Some(
                Place { path: p.path, index: m.0, offset: m.1 },
            ));
        }
        let group = match &self.stepper.cur_span()[self.stepper.index] {
            DocElement::DocChars(_) => false,
            DocElement::DocGroup(_, _) => true,
        };
        let depth = self.stepper.path.len();
        self.step_next();
        proof {
            self.lemma_stepped();
        }
        if !group {
            return ;
        }
        let mut inside = true;
        while inside
            invariant
                self.wf(),
                self.stepper.doc == old(self).stepper.doc,
                doc == self.stepper.doc.deep_view(),
                p == old(self).stepper.place(),
                s == span_at(doc, p.path),
                p.index < s.len(),
                s[p.index] is Group,
                depth == p.path.len(),
                self.steps@ > n0,
                move_units(s, p.index, p.offset, 1) == (p.index + 1, 0int),
                inside ==> self.stepper.path@.len() > depth && self.stepper.path@.take(
                    depth + 1,
                ) == p.path.push(p.index as usize),
                !inside ==> self.stepper.place() == (Place {
                    path: p.path,
                    index: p.index + 1,
                    offset: 0,
                }),
            decreases
                    steps_ahead(doc, self.stepper.place()) + (if inside {
                        1int
                    } else {
                        0int
                    }),
        {
            let ghost q = self.stepper.place();
            proof {
                lemma_walk_next(doc, q);
                assert(q.path.take(depth + 1).drop_last() =~= p.path);
            }
            let leaving = self.stepper.path.len() == depth + 1 && self.stepper.index
                == self.stepper.cur_span().len();
            self.step_next();
            proof {
                self.lemma_stepped();
                let r = self.stepper.place();
                if leaving {
                    assert(q.path.take(depth + 1) =~= q.path);
                    assert(r.path =~= p.path);
                } else if r.path.len() > q.path.len() {
                    assert(r.path.take(depth + 1) =~= q.path.take(depth + 1));
                } else if r.path.len() < q.path.len() {
                    assert(r.path.take(depth + 1) =~= q.path.take(depth + 1));
                }
            }
            if leaving {
                inside = false;
            }
        }
    }

    /// Moves over the `k` units that come next in the span.
    pub fn skip_units(&mut self, k: usize)
        requires
            old(self).wf(),
            old(self).stepper.pos() + k <= span_len(old(self).stepper.span_view()),
        ensures
            final(self).wf(),
            final(self).stepper.doc == old(self).stepper.doc,
            final(self).steps@ >= old(self).steps@,
            final(self).stepper.place() == place_moved(
                old(self).stepper.doc.deep_view(),
                old(self).stepper.place(),
                k as nat,
            ),
    {
        let ghost doc = self.stepper.doc.deep_view();
        let ghost p = self.stepper.place();
        let ghost s = span_at(doc, p.path);
        let mut j: usize = 0;
        proof {
            lemma_span_at_canonical(doc, p.path);
        }
        while j < k
            invariant
                j <= k,
                self.wf(),
                self.stepper.doc == old(self).stepper.doc,
                doc == self.stepper.doc.deep_view(),
                p == old(self).stepper.place(),
                s == span_at(doc, p.path),
                span_canonical(s),
                place_ok(doc, p),
                unit_pos(s, p.index, p.offset) + k <= span_len(s),
                self.steps@ >= old(self).steps@,
                self.stepper.place() == place_moved(doc, p, j as nat),
            decreases k - j,
        {
            proof {
                lemma_move_units(s, p.index, p.offset, j as nat);
            }
            self.skip_unit();
            j = j + 1;
        }
    }

    /// A walker at the place of `doc` that the cursor path `cur` leads
    /// to.
    pub fn to_cursor(doc: &DocSpan, cur: &CurSpan) -> (res: Walker)
        requires
            span_canonical(doc.deep_view()),
            span_tokens(doc.deep_view()) <= isize::MAX,
            cursor_ok(doc.deep_view(), start_place(), cur.deep_view()),
        ensures
            res.wf(),
            res.stepper.doc.deep_view() == doc.deep_view(),
            res.stepper.place() == cursor_place(doc.deep_view(), start_place(), cur.deep_view()),
    {
        let ghost dv = doc.deep_view();
        let ghost goal = cursor_place(dv, start_place(), cur.deep_view());
        let mut walker = Walker::new(doc);
        let mut level: &Vec<CurElement> = cur;
        let mut j: usize = 0;
        proof {
            assert(level.deep_view().skip(0) =~= level.deep_view());
        }
        loop
            invariant
                walker.wf(),
                dv == doc.deep_view(),
                walker.stepper.doc.deep_view() == dv,
                goal == cursor_place(dv, start_place(), cur.deep_view()),
                j <= level.len(),
                cursor_ok(dv, walker.stepper.place(), level.deep_view().skip(j as int)),
                cursor_place(dv, walker.stepper.place(), level.deep_view().skip(j as int))
                    == goal,
            decreases level, level.len() - j,
        {
            let ghost rest = level.deep_view().skip(j as int);
            if j == level.len() {
                return walker;
            }
            proof {
                assert(rest.skip(1) =~= level.deep_view().skip(j + 1));
                assert(rest[0] == level@[j as int].deep_view());
            }
            match &level[j] {
                CurElement::CurSkip(k) => {
                    walker.skip_units(*k);
                    j = j + 1;
                },
                CurElement::CurWithGroup(inner) => {
                    let ghost p = walker.stepper.place();
                    proof {
                        lemma_walk_next(dv, p);
                        assert(inner.deep_view().skip(0) =~= inner.deep_view());
                    }
                    walker.step_next();
                    proof {
                        walker.lemma_stepped();
                        assert(walker.stepper.place() == place_entered(p));
                    }
                    level = inner;
                    j = 0;
                },
                _ => {
                    return walker;
                },
            }
        }
    }
}

} // verus!
