//! The flattened view of a document: one unit per character or group.
//!
//! Operations count in units, so what an operation does is stated over
//! this view. A document span in canonical form is the unique run-length
//! encoding of its units.

use crate::doc::{AttrMap, DocNode, StyleBag, Text};
use vstd::prelude::*;

verus! {

/// A character together with the styles it carries.
pub type StyledChar = (char, StyleBag);

/// One addressable unit of a document: a styled character, or a whole
/// group with its children's units.
pub enum Unit {
    Char(StyledChar),
    Group(AttrMap, Seq<Unit>),
}

/// One unit for each character of `c`, each under the styles `s`.
pub open spec fn chars_units(c: Seq<char>, s: StyleBag) -> Seq<Unit> {
    Seq::new(c.len(), |i: int| Unit::Char((c[i], s)))
}

/// The units of a run: one per character, each under the run's styles.
pub open spec fn text_units(t: Text) -> Seq<Unit> {
    chars_units(t.chars, t.styles)
}

/// The units of one atom.
pub open spec fn node_units(n: DocNode) -> Seq<Unit>
    decreases n,
{
    match n {
        DocNode::Chars(t) => text_units(t),
        DocNode::Group(a, c) => seq![Unit::Group(a, span_units(c))],
    }
}

/// The units of a span, in order.
pub open spec fn span_units(s: Seq<DocNode>) -> Seq<Unit>
    decreases s,
{
    if s.len() == 0 {
        Seq::empty()
    } else {
        span_units(s.drop_last()) + node_units(s.last())
    }
}

/// Whether two neighbouring atoms are runs under the same styles, which a
/// canonical span never holds side by side.
pub open spec fn mergeable(a: DocNode, b: DocNode) -> bool {
    a matches DocNode::Chars(x) && b matches DocNode::Chars(y) && x.styles == y.styles
}

/// Whether an atom is in canonical form: a run is not empty, and a group's
/// children form a canonical span.
pub open spec fn node_canonical(n: DocNode) -> bool
    decreases n,
{
    match n {
        DocNode::Chars(t) => t.chars.len() > 0,
        DocNode::Group(_, c) => span_canonical(c),
    }
}

/// Whether a span is in canonical form: every atom is, and no two
/// neighbours could be merged.
pub open spec fn span_canonical(s: Seq<DocNode>) -> bool
    decreases s,
{
    &&& forall|i: int| 0 <= i < s.len() ==> node_canonical(#[trigger] s[i])
    &&& forall|i: int| 0 <= i < s.len() - 1 ==> !mergeable(#[trigger] s[i], s[i + 1])
}

/// The units of a concatenation are the concatenation of the units.
pub proof fn lemma_span_units_concat(a: Seq<DocNode>, b: Seq<DocNode>)
    ensures
        span_units(a + b) == span_units(a) + span_units(b),
    decreases b.len(),
{
    if b.len() == 0 {
        assert(a + b =~= a);
        assert(span_units(a) + span_units(b) =~= span_units(a));
    } else {
        assert((a + b).drop_last() =~= a + b.drop_last());
        assert((a + b).last() == b.last());
        lemma_span_units_concat(a, b.drop_last());
        assert(span_units(a + b) =~= span_units(a) + span_units(b));
    }
}

/// The units of a one-atom span are the atom's units.
pub proof fn lemma_span_units_single(n: DocNode)
    ensures
        span_units(seq![n]) == node_units(n),
{
    let s = seq![n];
    assert(s.drop_last() =~= Seq::<DocNode>::empty());
    assert(s.last() == n);
    assert(span_units(s.drop_last()) =~= Seq::<Unit>::empty());
    assert(span_units(s) =~= node_units(n));
}

/// Appending an atom appends its units.
pub proof fn lemma_span_units_push(s: Seq<DocNode>, n: DocNode)
    ensures
        span_units(s.push(n)) == span_units(s) + node_units(n),
{
    assert(s.push(n).drop_last() =~= s);
}

/// A span's units begin with its first atom's units.
pub proof fn lemma_span_units_head(s: Seq<DocNode>)
    requires
        s.len() > 0,
    ensures
        span_units(s) == node_units(s[0]) + span_units(s.skip(1)),
{
    assert(s =~= seq![s[0]] + s.skip(1));
    lemma_span_units_concat(seq![s[0]], s.skip(1));
    lemma_span_units_single(s[0]);
}

/// The units of two runs of characters, one after the other.
pub proof fn lemma_chars_units_concat(a: Seq<char>, b: Seq<char>, s: StyleBag)
    ensures
        chars_units(a + b, s) == chars_units(a, s) + chars_units(b, s),
{
    assert(chars_units(a + b, s) =~= chars_units(a, s) + chars_units(b, s));
}

/// Characters under the same styles have the same units exactly when they
/// are the same characters.
pub proof fn lemma_chars_units_inj(a: Seq<char>, b: Seq<char>, s: StyleBag)
    requires
        chars_units(a, s) == chars_units(b, s),
    ensures
        a == b,
{
    assert(a.len() == chars_units(a, s).len());
    assert(b.len() == chars_units(b, s).len());
    assert forall|i: int| 0 <= i < a.len() implies a[i] == b[i] by {
        assert(chars_units(a, s)[i] == Unit::Char((a[i], s)));
        assert(chars_units(b, s)[i] == Unit::Char((b[i], s)));
    }
    assert(a =~= b);
}


/// A canonical atom has units, and the last of them tells what the atom
/// is: a character under the styles of a run, or the one unit of a group.
pub proof fn lemma_node_last_unit(n: DocNode)
    requires
        node_canonical(n),
    ensures
        node_units(n).len() > 0,
        match n {
            DocNode::Chars(t) => node_units(n).len() == t.chars.len() && forall|i: int|
                0 <= i < t.chars.len() ==> #[trigger] node_units(n)[i] == Unit::Char(
                    (t.chars[i], t.styles),
                ),
            DocNode::Group(a, c) => node_units(n) == seq![Unit::Group(a, span_units(c))],
        },
{
}

/// A canonical span that is not empty has units.
pub proof fn lemma_canonical_units_nonempty(s: Seq<DocNode>)
    requires
        span_canonical(s),
        s.len() > 0,
    ensures
        span_units(s).len() > 0,
{
    assert(node_canonical(s[s.len() - 1]));
    lemma_node_last_unit(s.last());
}

/// A canonical span without its last atom is canonical.
pub proof fn lemma_canonical_drop_last(s: Seq<DocNode>)
    requires
        span_canonical(s),
        s.len() > 0,
    ensures
        span_canonical(s.drop_last()),
{
    let f = s.drop_last();
    assert forall|i: int| 0 <= i < f.len() implies node_canonical(#[trigger] f[i]) by {
        assert(node_canonical(s[i]));
    }
    assert forall|i: int| 0 <= i < f.len() - 1 implies !mergeable(#[trigger] f[i], f[i + 1]) by {
        assert(!mergeable(s[i], s[i + 1]));
    }
}

/// In a canonical span, the unit before the units of a last run is not a
/// character under the styles of that run.
proof fn lemma_before_last_run(s: Seq<DocNode>)
    requires
        span_canonical(s),
        s.len() > 0,
        s.last() is Chars,
        span_units(s.drop_last()).len() > 0,
    ensures
        ({
            let front = span_units(s.drop_last());
            !(front.last() is Char && front.last()->Char_0.1 == s.last()->Chars_0.styles)
        }),
{
    let f = s.drop_last();
    if f.len() == 0 {
        assert(span_units(f).len() == 0);
    } else {
        let p = f.last();
        assert(p == s[s.len() - 2]);
        assert(node_canonical(s[s.len() - 2]));
        assert(!mergeable(s[s.len() - 2], s[s.len() - 2 + 1]));
        lemma_node_last_unit(p);
        let front = span_units(f);
        assert(front.last() == node_units(p).last());
    }
}

/// A span in canonical form is determined by its units: two canonical
/// spans with the same units are the same span.
pub proof fn lemma_canonical_unique(a: Seq<DocNode>, b: Seq<DocNode>)
    requires
        span_canonical(a),
        span_canonical(b),
        span_units(a) == span_units(b),
    ensures
        a == b,
    decreases a,
{
    if a.len() == 0 {
        if b.len() > 0 {
            lemma_canonical_units_nonempty(b);
        }
        assert(a =~= b);
    } else {
        lemma_canonical_units_nonempty(a);
        if b.len() == 0 {
            assert(span_units(b).len() == 0);
        }
        let la = a.last();
        let lb = b.last();
        let fa = span_units(a.drop_last());
        let fb = span_units(b.drop_last());
        let ua = node_units(la);
        let ub = node_units(lb);
        let u = span_units(a);
        assert(node_canonical(a[a.len() - 1]));
        assert(node_canonical(b[b.len() - 1]));
        lemma_node_last_unit(la);
        lemma_node_last_unit(lb);
        lemma_canonical_drop_last(a);
        lemma_canonical_drop_last(b);
        assert(u == fa + ua);
        assert(u == fb + ub);
        assert(u.last() == ua.last());
        assert(u.last() == ub.last());
        match la {
            DocNode::Group(attrs, ca) => {
                assert(lb is Group);
                let cb = lb->Group_1;
                assert(ua[0] == ub[0]);
                lemma_canonical_unique(ca, cb);
                assert(la == lb);
                assert(fa =~= u.take(u.len() - 1));
                assert(fb =~= u.take(u.len() - 1));
            },
            DocNode::Chars(ta) => {
                assert(lb is Chars);
                let tb = lb->Chars_0;
                let na = ta.chars.len();
                let nb = tb.chars.len();
                assert(ua.last() == Unit::Char((ta.chars[na - 1], ta.styles)));
                assert(ub.last() == Unit::Char((tb.chars[nb - 1], tb.styles)));
                assert(ta.styles == tb.styles);
                if na < nb {
                    lemma_before_last_run(a);
                    assert(fa.len() > 0);
                    assert(fa.last() == u[u.len() - na - 1]);
                    assert(u[u.len() - na - 1] == ub[nb - na - 1]);
                    assert(false);
                }
                if nb < na {
                    lemma_before_last_run(b);
                    assert(fb.len() > 0);
                    assert(fb.last() == u[u.len() - nb - 1]);
                    assert(u[u.len() - nb - 1] == ua[na - nb - 1]);
                    assert(false);
                }
                assert(ua =~= u.skip(u.len() - na));
                assert(ub =~= u.skip(u.len() - nb));
                lemma_chars_units_inj(ta.chars, tb.chars, ta.styles);
                assert(la == lb);
                assert(fa =~= u.take(u.len() - na));
                assert(fb =~= u.take(u.len() - nb));
            },
        }
        lemma_canonical_unique(a.drop_last(), b.drop_last());
        assert(a =~= a.drop_last().push(la));
        assert(b =~= b.drop_last().push(lb));
    }
}


/// Whether every character among the units, at every depth, carries the
/// styles `s`.
pub open spec fn one_style(u: Seq<Unit>, s: StyleBag) -> bool
    decreases u,
{
    forall|i: int|
        0 <= i < u.len() ==> match #[trigger] u[i] {
            Unit::Char(c) => c.1 == s,
            Unit::Group(_, c) => one_style(c, s),
        }
}

/// Whether one unit carries the styles `s` on every character that it
/// holds.
pub open spec fn unit_one_style(x: Unit, s: StyleBag) -> bool {
    match x {
        Unit::Char(c) => c.1 == s,
        Unit::Group(_, c) => one_style(c, s),
    }
}

/// Parts of units of one style are of that style, and so are units put
/// together from such parts.
pub proof fn lemma_one_style_parts(u: Seq<Unit>, s: StyleBag, k: int)
    requires
        one_style(u, s),
        0 <= k <= u.len(),
    ensures
        one_style(u.take(k), s),
        one_style(u.skip(k), s),
        forall|i: int| 0 <= i < u.len() ==> unit_one_style(#[trigger] u[i], s),
{
    let a = u.take(k);
    let b = u.skip(k);
    assert forall|i: int| 0 <= i < a.len() implies unit_one_style(#[trigger] a[i], s) by {
        assert(a[i] == u[i]);
        assert(unit_one_style(u[i], s));
    }
    assert forall|i: int| 0 <= i < b.len() implies unit_one_style(#[trigger] b[i], s) by {
        assert(b[i] == u[i + k]);
        assert(unit_one_style(u[i + k], s));
    }
    assert forall|i: int| 0 <= i < u.len() implies unit_one_style(#[trigger] u[i], s) by {}
}

/// Units of one style, one after the other, are of that style.
pub proof fn lemma_one_style_concat(a: Seq<Unit>, b: Seq<Unit>, s: StyleBag)
    requires
        one_style(a, s),
        one_style(b, s),
    ensures
        one_style(a + b, s),
{
    let u = a + b;
    assert forall|i: int| 0 <= i < u.len() implies unit_one_style(#[trigger] u[i], s) by {
        if i < a.len() {
            assert(u[i] == a[i]);
            assert(unit_one_style(a[i], s));
        } else {
            assert(u[i] == b[i - a.len()]);
            assert(unit_one_style(b[i - a.len()], s));
        }
    }
}

} // verus!
