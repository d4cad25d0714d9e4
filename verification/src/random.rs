//! Random operations on documents of plain runs, for trying out the
//! algebra on many inputs.

use crate::add_laws::{add_atom_left, add_cons, lemma_add_cons};
use crate::apply::{
    add_applies, apply_delete, delete_applies, delete_units, one_run, op_applies,
};
use crate::compose_laws::{del_cons, lemma_cons_chars, lemma_cons_skip};
use crate::doc::{
    group_views, AddElement, AddNode, AddSpan, DelElement, DelNode, DelSpan, DocElement, DocNode,
    DocSpan, DocString, Op, StyleBag, Text,
};
use crate::stepper::{lemma_unit_pos_next, lemma_units_around, span_len};
use crate::units::{
    lemma_canonical_drop_last, lemma_canonical_unique, lemma_node_last_unit, node_canonical,
    node_units, span_canonical, span_units, Unit,
};
use crate::writer::{add_node_reach, add_reach, del_node_reach, del_reach};
use rand::Rng;
use vstd::prelude::*;

verus! {

broadcast use {vstd::group_vstd_default, group_views};

/// Calls `Rng::gen_range` on the thread's generator, which gives a number
/// that is at least `low` and less than `high`, and panics where `low` is
/// not less than `high`. The thread's generator is made by `thread_rng`,
/// which seeds it from the system and stops the program where the system
/// gives no entropy, as a failed allocation does; that holds of the two
/// functions below as well.
#[verifier::external_body]
fn gen_range(low: usize, high: usize) -> (res: usize)
    requires
        low < high,
    ensures
        low <= res < high,
{
    rand::thread_rng().gen_range(low, high)
}

/// Calls `Rng::gen_weighted_bool` on the thread's generator, which is
/// true with one chance in `n`. Nothing is claimed of the result.
#[verifier::external_body]
fn gen_weighted_bool(n: u32) -> bool {
    rand::thread_rng().gen_weighted_bool(n)
}

/// Whether a character is an ASCII letter or digit.
pub open spec fn ascii_alnum(c: char) -> bool {
    ('A' <= c && c <= 'Z') || ('a' <= c && c <= 'z') || ('0' <= c && c <= '9')
}

/// Takes `len` characters from `Rng::gen_ascii_chars` on the thread's
/// generator, which never ends and gives ASCII letters and digits.
#[verifier::external_body]
fn gen_ascii_string(len: usize) -> (res: String)
    ensures
        res@.len() == len,
        forall|i: int| 0 <= i < res@.len() ==> ascii_alnum(#[trigger] res@[i]),
{
    rand::thread_rng().gen_ascii_chars().take(len).collect()
}

/// Whether every atom of a span is a run.
pub open spec fn all_runs(span: Seq<DocNode>) -> bool {
    forall|i: int| 0 <= i < span.len() ==> (#[trigger] span[i]) is Chars
}

/// Whether every unit is a character.
pub open spec fn all_char_units(u: Seq<Unit>) -> bool {
    forall|i: int| 0 <= i < u.len() ==> (#[trigger] u[i]) is Char
}

/// Whether a text is unstyled and holds one to four ASCII letters or
/// digits.
pub open spec fn random_text(t: Text) -> bool {
    &&& 1 <= t.chars.len() <= 4
    &&& t.styles == StyleBag::plain()
    &&& forall|j: int| 0 <= j < t.chars.len() ==> ascii_alnum(#[trigger] t.chars[j])
}

/// Whether an add span is made of skips of at least one unit and of
/// unstyled insertions of one to four ASCII letters or digits.
pub open spec fn random_add_shape(add: Seq<AddNode>) -> bool {
    forall|i: int|
        0 <= i < add.len() ==> match #[trigger] add[i] {
            AddNode::Skip(k) => k >= 1,
            AddNode::Chars(t) => random_text(t),
            _ => false,
        }
}

/// The lengths of the runs of a span of runs.
pub open spec fn run_lens(s: Seq<DocNode>) -> Seq<nat> {
    Seq::new(s.len(), |i: int| s[i]->Chars_0.chars.len())
}

/// Whether `d` cuts the first `n` characters of a run of `max` into
/// slices, each with a kept front and a deleted back: a skip and a
/// character delete for each slice, the delete of one character where the
/// slice has two and of two or more where it has more; a last character
/// that is left alone in the run is skipped.
pub open spec fn run_cut(d: Seq<DelNode>, n: nat, max: nat) -> bool
    decreases d.len(),
{
    if d.len() == 0 {
        n == 0
    } else {
        match d.last() {
            DelNode::Skip(k) => k == 1 && n == max && run_cut(d.drop_last(), (n - 1) as nat, max),
            DelNode::Chars(c) => d.len() >= 2 && match d[d.len() - 2] {
                DelNode::Skip(k) => {
                    &&& k >= 1
                    &&& (c >= 2 || (c == 1 && k == 1))
                    &&& k + c <= n <= max
                    &&& run_cut(d.drop_last().drop_last(), (n - k - c) as nat, max)
                },
                _ => false,
            },
            _ => false,
        }
    }
}

/// Whether `d` cuts each run of the lengths `lens` into slices, run by
/// run.
pub open spec fn span_cut(d: Seq<DelNode>, lens: Seq<nat>) -> bool
    decreases lens.len(),
{
    if lens.len() == 0 {
        d.len() == 0
    } else {
        exists|m: int|
            0 <= m <= d.len() && span_cut(#[trigger] d.take(m), lens.drop_last()) && run_cut(
                d.skip(m),
                lens.last(),
                lens.last(),
            )
    }
}

/// A span that cuts the runs before the last one, followed by what cuts
/// the last run, cuts them all.
proof fn lemma_span_cut_next(d: Seq<DelNode>, lens: Seq<nat>, m: int)
    requires
        lens.len() > 0,
        0 <= m <= d.len(),
        span_cut(d.take(m), lens.drop_last()),
        run_cut(d.skip(m), lens.last(), lens.last()),
    ensures
        span_cut(d, lens),
{
}

/// Whether `a` passes over the first `n` characters of a run of `max` in
/// slices: a skip for each slice, with an insertion behind every skip
/// that does not end the run, and perhaps behind the one that does.
pub open spec fn run_sliced(a: Seq<AddNode>, n: nat, max: nat) -> bool
    decreases a.len(),
{
    if a.len() == 0 {
        n == 0
    } else {
        match a.last() {
            AddNode::Skip(k) => 1 <= k <= n && n == max && run_sliced(
                a.drop_last(),
                (n - k) as nat,
                max,
            ),
            AddNode::Chars(t) => random_text(t) && a.len() >= 2 && match a[a.len() - 2] {
                AddNode::Skip(k) => 1 <= k <= n && n <= max && run_sliced(
                    a.drop_last().drop_last(),
                    (n - k) as nat,
                    max,
                ),
                _ => false,
            },
            _ => false,
        }
    }
}

/// Whether `a` passes over each run of the lengths `lens` in slices, run
/// by run.
pub open spec fn span_sliced(a: Seq<AddNode>, lens: Seq<nat>) -> bool
    decreases lens.len(),
{
    if lens.len() == 0 {
        a.len() == 0
    } else {
        exists|m: int|
            0 <= m <= a.len() && span_sliced(#[trigger] a.take(m), lens.drop_last())
                && run_sliced(a.skip(m), lens.last(), lens.last())
    }
}

/// Whether a delete span is made of skips and character deletes of at
/// least one unit.
pub open spec fn random_del_shape(del: Seq<DelNode>) -> bool {
    forall|i: int|
        0 <= i < del.len() ==> match #[trigger] del[i] {
            DelNode::Skip(k) => k >= 1,
            DelNode::Chars(k) => k >= 1,
            _ => false,
        }
}

/// A span that passes over the runs before the last one in slices,
/// followed by what passes over the last run in slices, passes over them
/// all in slices.
proof fn lemma_span_sliced_next(a: Seq<AddNode>, lens: Seq<nat>, m: int)
    requires
        lens.len() > 0,
        0 <= m <= a.len(),
        span_sliced(a.take(m), lens.drop_last()),
        run_sliced(a.skip(m), lens.last(), lens.last()),
    ensures
        span_sliced(a, lens),
{
}

/// The units of a span of runs are characters; and a canonical span whose
/// units are characters is a span of runs.
pub proof fn lemma_runs_units(s: Seq<DocNode>)
    ensures
        all_runs(s) ==> all_char_units(span_units(s)),
        all_char_units(span_units(s)) && span_canonical(s) ==> all_runs(s),
    decreases s.len(),
{
    if s.len() > 0 {
        let f = s.drop_last();
        let l = s.last();
        lemma_runs_units(f);
        let u = span_units(s);
        let uf = span_units(f);
        if all_runs(s) {
            assert(l == s[s.len() - 1]);
            assert forall|i: int| 0 <= i < f.len() implies (#[trigger] f[i]) is Chars by {
                assert(f[i] == s[i]);
            }
            assert(l is Chars);
            assert forall|i: int| 0 <= i < u.len() implies (#[trigger] u[i]) is Char by {
                if i < uf.len() {
                    assert(u[i] == uf[i]);
                } else {
                    let t = l->Chars_0;
                    assert(u[i] == node_units(l)[i - uf.len()]);
                    assert(node_units(l)[i - uf.len()] == Unit::Char(
                        (t.chars[i - uf.len()], t.styles),
                    ));
                }
            }
        }
        if all_char_units(u) && span_canonical(s) {
            lemma_canonical_drop_last(s);
            assert forall|i: int| 0 <= i < uf.len() implies (#[trigger] uf[i]) is Char by {
                assert(uf[i] == u[i]);
            }
            assert(node_canonical(s[s.len() - 1]));
            lemma_node_last_unit(l);
            assert(u.last() == node_units(l).last());
            assert(u[u.len() - 1] is Char);
            assert forall|i: int| 0 <= i < s.len() implies (#[trigger] s[i]) is Chars by {
                if i < f.len() {
                    assert(f[i] == s[i]);
                }
            }
        }
    }
}

/// What a delete span passes over is what its first atom and the rest of
/// it pass over.
proof fn lemma_del_reach_head(d: Seq<DelNode>)
    requires
        d.len() > 0,
    ensures
        del_reach(d) == del_node_reach(d[0]) + del_reach(d.skip(1)),
    decreases d.len(),
{
    if d.len() == 1 {
        assert(d.drop_last() =~= Seq::<DelNode>::empty());
        assert(d.skip(1) =~= Seq::<DelNode>::empty());
    } else {
        lemma_del_reach_head(d.drop_last());
        assert(d.drop_last().skip(1) =~= d.skip(1).drop_last());
        assert(d.skip(1).last() == d.last());
    }
}

/// What an add span passes over is what its first atom and the rest of it
/// pass over.
proof fn lemma_add_reach_head(a: Seq<AddNode>)
    requires
        a.len() > 0,
    ensures
        add_reach(a) == add_node_reach(a[0]) + add_reach(a.skip(1)),
    decreases a.len(),
{
    if a.len() == 1 {
        assert(a.drop_last() =~= Seq::<AddNode>::empty());
        assert(a.skip(1) =~= Seq::<AddNode>::empty());
    } else {
        lemma_add_reach_head(a.drop_last());
        assert(a.drop_last().skip(1) =~= a.skip(1).drop_last());
        assert(a.skip(1).last() == a.last());
    }
}

/// A delete span of skips and character deletes that fits a document
/// still fits it with one more atom at its end that fits what the span
/// has not passed over. What it leaves of characters are characters.
proof fn lemma_del_append(u: Seq<Unit>, d: Seq<DelNode>, x: DelNode)
    requires
        random_del_shape(d),
        delete_applies(u, d),
        match x {
            DelNode::Skip(k) => 1 <= k && del_reach(d) + k <= u.len(),
            DelNode::Chars(k) => 1 <= k && del_reach(d) <= u.len() && one_run(
                u.skip(del_reach(d) as int),
                k,
            ),
            _ => false,
        },
    ensures
        random_del_shape(d.push(x)),
        delete_applies(u, d.push(x)),
        del_reach(d.push(x)) == del_reach(d) + del_node_reach(x),
        del_reach(d.push(x)) <= u.len(),
    decreases d.len(),
{
    assert(d.push(x).drop_last() =~= d);
    if d.len() == 0 {
        assert(d.push(x) =~= del_cons(x, Seq::empty()));
        assert(u.skip(0) =~= u);
        match x {
            DelNode::Skip(k) => {
                lemma_cons_skip(u, k, Seq::empty());
            },
            DelNode::Chars(k) => {
                lemma_cons_chars(u, k, Seq::empty());
            },
            _ => {},
        }
    } else {
        let r = d.skip(1);
        lemma_del_reach_head(d);
        assert(d =~= del_cons(d[0], r));
        assert(d.push(x) =~= del_cons(d[0], r.push(x)));
        assert forall|i: int| 0 <= i < r.len() implies match #[trigger] r[i] {
            DelNode::Skip(k) => k >= 1,
            DelNode::Chars(k) => k >= 1,
            _ => false,
        } by {
            assert(r[i] == d[i + 1]);
        }
        match d[0] {
            DelNode::Skip(n) => {
                lemma_cons_skip(u, n, r);
                lemma_cons_skip(u, n, r.push(x));
                assert(u.skip(n as int).skip(del_reach(r) as int) =~= u.skip(
                    del_reach(d) as int,
                ));
                lemma_del_append(u.skip(n as int), r, x);
            },
            DelNode::Chars(n) => {
                lemma_cons_chars(u, n, r);
                lemma_cons_chars(u, n, r.push(x));
                assert(u.skip(n as int).skip(del_reach(r) as int) =~= u.skip(
                    del_reach(d) as int,
                ));
                lemma_del_append(u.skip(n as int), r, x);
            },
            _ => {},
        }
        let p = d.push(x);
        assert forall|i: int| 0 <= i < p.len() implies match #[trigger] p[i] {
            DelNode::Skip(k) => k >= 1,
            DelNode::Chars(k) => k >= 1,
            _ => false,
        } by {
            if i < d.len() {
                assert(p[i] == d[i]);
            }
        }
    }
}

/// What a delete span of skips and character deletes leaves of characters
/// are characters.
proof fn lemma_del_leaves_chars(u: Seq<Unit>, d: Seq<DelNode>)
    requires
        random_del_shape(d),
        delete_applies(u, d),
        all_char_units(u),
    ensures
        all_char_units(delete_units(u, d)),
    decreases d.len(),
{
    if d.len() > 0 {
        let r = d.skip(1);
        assert(d =~= del_cons(d[0], r));
        assert forall|i: int| 0 <= i < r.len() implies match #[trigger] r[i] {
            DelNode::Skip(k) => k >= 1,
            DelNode::Chars(k) => k >= 1,
            _ => false,
        } by {
            assert(r[i] == d[i + 1]);
        }
        match d[0] {
            DelNode::Skip(n) => {
                lemma_cons_skip(u, n, r);
                let v = u.skip(n as int);
                assert forall|i: int| 0 <= i < v.len() implies (#[trigger] v[i]) is Char by {
                    assert(v[i] == u[i + n]);
                }
                lemma_del_leaves_chars(v, r);
                let out = delete_units(u, d);
                assert forall|i: int| 0 <= i < out.len() implies (#[trigger] out[i]) is Char by {
                    if i < n {
                        assert(out[i] == u[i]);
                    } else {
                        assert(out[i] == delete_units(v, r)[i - n]);
                    }
                }
            },
            DelNode::Chars(n) => {
                lemma_cons_chars(u, n, r);
                let v = u.skip(n as int);
                assert forall|i: int| 0 <= i < v.len() implies (#[trigger] v[i]) is Char by {
                    assert(v[i] == u[i + n]);
                }
                lemma_del_leaves_chars(v, r);
            },
            _ => {},
        }
    }
}

/// An add span of skips and insertions that fits a document still fits it
/// with one more atom at its end: an insertion, or a skip over units that
/// the span has not passed over.
proof fn lemma_add_append(u: Seq<Unit>, a: Seq<AddNode>, x: AddNode)
    requires
        random_add_shape(a),
        add_applies(u, a),
        add_reach(a) <= u.len(),
        match x {
            AddNode::Skip(k) => 1 <= k && add_reach(a) + k <= u.len(),
            AddNode::Chars(t) => random_text(t),
            _ => false,
        },
    ensures
        random_add_shape(a.push(x)),
        add_applies(u, a.push(x)),
        add_reach(a.push(x)) == add_reach(a) + add_node_reach(x),
    decreases a.len(),
{
    assert(a.push(x).drop_last() =~= a);
    if a.len() == 0 {
        assert(a.push(x) =~= add_cons(x, Seq::empty()));
        lemma_add_cons(u, x, Seq::empty());
    } else {
        let r = a.skip(1);
        lemma_add_reach_head(a);
        assert(a =~= add_cons(a[0], r));
        assert(a.push(x) =~= add_cons(a[0], r.push(x)));
        assert forall|i: int| 0 <= i < r.len() implies match #[trigger] r[i] {
            AddNode::Skip(k) => k >= 1,
            AddNode::Chars(t) => random_text(t),
            _ => false,
        } by {
            assert(r[i] == a[i + 1]);
        }
        lemma_add_cons(u, a[0], r);
        lemma_add_cons(u, a[0], r.push(x));
        lemma_add_append(add_atom_left(a[0], u), r, x);
        let p = a.push(x);
        assert forall|i: int| 0 <= i < p.len() implies match #[trigger] p[i] {
            AddNode::Skip(k) => k >= 1,
            AddNode::Chars(t) => random_text(t),
            _ => false,
        } by {
            if i < a.len() {
                assert(p[i] == a[i]);
            }
        }
    }
}

/// In a span of runs, the units of the run at index `e` stand behind the
/// units of the runs before it: they are its characters under its styles.
proof fn lemma_run_units(s: Seq<DocNode>, e: int)
    requires
        0 <= e < s.len(),
        s[e] is Chars,
    ensures
        span_len(s.take(e)) + s[e]->Chars_0.chars.len() == span_len(s.take(e + 1)),
        span_len(s.take(e + 1)) <= span_len(s),
        forall|j: int|
            0 <= j < s[e]->Chars_0.chars.len() ==> #[trigger] span_units(s)[span_len(s.take(e))
                + j] == Unit::Char((s[e]->Chars_0.chars[j], s[e]->Chars_0.styles)),
{
    lemma_unit_pos_next(s, e);
    lemma_units_around(s, e);
    let before = span_units(s.take(e));
    let here = node_units(s[e]);
    assert forall|j: int| 0 <= j < s[e]->Chars_0.chars.len() implies #[trigger] span_units(
        s,
    )[span_len(s.take(e)) + j] == Unit::Char((s[e]->Chars_0.chars[j], s[e]->Chars_0.styles)) by {
        assert(span_units(s)[before.len() + j] == here[j]);
    }
}

/// A random add span for a document of runs: each run is cut into slices
/// that are skipped, with random text inserted between the slices and,
/// by chance, after the last one. The span fits the document and passes
/// over the whole of it.
pub fn random_add_span(input: &DocSpan) -> (res: AddSpan)
    requires
        all_runs(input.deep_view()),
    ensures
        random_add_shape(res.deep_view()),
        add_applies(span_units(input.deep_view()), res.deep_view()),
        add_reach(res.deep_view()) == span_units(input.deep_view()).len(),
        span_sliced(res.deep_view(), run_lens(input.deep_view())),
{
    let ghost sv = input.deep_view();
    let ghost u = span_units(sv);
    let mut res: Vec<AddElement> = Vec::new();
    let mut e: usize = 0;
    proof {
        assert(sv.take(0) =~= Seq::<DocNode>::empty());
        assert(res.deep_view() =~= Seq::<AddNode>::empty());
    }
    while e < input.len()
        invariant
            e <= input.len(),
            sv == input.deep_view(),
            u == span_units(sv),
            all_runs(sv),
            random_add_shape(res.deep_view()),
            add_applies(u, res.deep_view()),
            add_reach(res.deep_view()) == span_len(sv.take(e as int)),
            span_len(sv.take(e as int)) <= u.len(),
            span_sliced(res.deep_view(), run_lens(sv.take(e as int))),
        decreases input.len() - e,
    {
        assert(sv[e as int] is Chars);
        proof {
            lemma_run_units(sv, e as int);
        }
        let ghost off = span_len(sv.take(e as int));
        let ghost base = res.deep_view();
        let ghost m0 = res.deep_view().len() as int;
        match &input[e] {
            DocElement::DocChars(value) => {
                let mut n: usize = 0;
                let max = value.char_len();
                proof {
                    assert(res.deep_view().take(m0) =~= base);
                    assert(res.deep_view().skip(m0) =~= Seq::<AddNode>::empty());
                }
                while n < max
                    invariant
                        n <= max,
                        off + max <= u.len(),
                        0 <= e < sv.len(),
                        max == sv[e as int]->Chars_0.chars.len(),
                        0 <= m0 <= res.deep_view().len(),
                        res.deep_view().take(m0) == base,
                        run_sliced(res.deep_view().skip(m0), n as nat, max as nat),
                        random_add_shape(res.deep_view()),
                        add_applies(u, res.deep_view()),
                        add_reach(res.deep_view()) == off + n,
                    decreases max - n,
                {
                    let slice = 1 + gen_range(0, max - n);
                    let ghost before = res.deep_view();
                    let ghost part = before.skip(m0);
                    proof {
                        lemma_add_append(u, before, AddNode::Skip(slice as nat));
                    }
                    res.push(AddElement::AddSkip(slice));
                    proof {
                        assert(res.deep_view() =~= before.push(AddNode::Skip(slice as nat)));
                    }
                    let insert = slice < max - n || gen_weighted_bool(2);
                    if insert {
                        let len = gen_range(1, 5);
                        let text = gen_ascii_string(len);
                        let ghost mid = res.deep_view();
                        let run = DocString::from_str(text.as_str());
                        proof {
                            assert(random_text(run@));
                            lemma_add_append(u, mid, AddNode::Chars(run@));
                        }
                        res.push(AddElement::AddChars(run));
                        proof {
                            let now = res.deep_view();
                            assert(now =~= mid.push(AddNode::Chars(run@)));
                            let cut = now.skip(m0);
                            assert(cut =~= part.push(AddNode::Skip(slice as nat)).push(
                                AddNode::Chars(run@),
                            ));
                            assert(cut.drop_last().drop_last() =~= part);
                            assert(now.take(m0) =~= before.take(m0));
                        }
                    } else {
                        proof {
                            let now = res.deep_view();
                            let cut = now.skip(m0);
                            assert(cut =~= part.push(AddNode::Skip(slice as nat)));
                            assert(cut.drop_last() =~= part);
                            assert(now.take(m0) =~= before.take(m0));
                        }
                    }
                    n = n + slice;
                }
                proof {
                    let lens = run_lens(sv.take(e + 1));
                    let now = res.deep_view();
                    assert(lens.len() == e + 1);
                    assert(lens.drop_last() =~= run_lens(sv.take(e as int)));
                    assert(sv.take(e + 1)[e as int] == sv[e as int]);
                    assert(lens.last() == max);
                    assert(span_sliced(now.take(m0), lens.drop_last()));
                    assert(run_sliced(now.skip(m0), lens.last(), lens.last()));
                    assert(0 <= m0 <= now.len() && span_sliced(now.take(m0), lens.drop_last())
                        && run_sliced(now.skip(m0), lens.last(), lens.last()));
                    lemma_span_sliced_next(now, lens, m0);
                }
            },
            DocElement::DocGroup(_, _) => {
                proof {
                    assert(false);
                }
            },
        }
        e = e + 1;
    }
    proof {
        assert(sv.take(e as int) =~= sv);
    }
    res
}

/// A random delete span for a document of runs: each run is cut into
/// slices of which the front is kept and the back is deleted. The span
/// fits the document and passes over the whole of it.
pub fn random_del_span(input: &DocSpan) -> (res: DelSpan)
    requires
        all_runs(input.deep_view()),
    ensures
        random_del_shape(res.deep_view()),
        delete_applies(span_units(input.deep_view()), res.deep_view()),
        del_reach(res.deep_view()) == span_units(input.deep_view()).len(),
        span_cut(res.deep_view(), run_lens(input.deep_view())),
{
    let ghost sv = input.deep_view();
    let ghost u = span_units(sv);
    let mut res: Vec<DelElement> = Vec::new();
    let mut e: usize = 0;
    proof {
        assert(sv.take(0) =~= Seq::<DocNode>::empty());
        assert(res.deep_view() =~= Seq::<DelNode>::empty());
    }
    while e < input.len()
        invariant
            e <= input.len(),
            sv == input.deep_view(),
            u == span_units(sv),
            all_runs(sv),
            random_del_shape(res.deep_view()),
            delete_applies(u, res.deep_view()),
            del_reach(res.deep_view()) == span_len(sv.take(e as int)),
            span_len(sv.take(e as int)) <= u.len(),
            span_cut(res.deep_view(), run_lens(sv.take(e as int))),
        decreases input.len() - e,
    {
        assert(sv[e as int] is Chars);
        proof {
            lemma_run_units(sv, e as int);
        }
        let ghost off = span_len(sv.take(e as int));
        let ghost run = sv[e as int]->Chars_0;
        let ghost base = res.deep_view();
        let ghost m0 = res.deep_view().len() as int;
        match &input[e] {
            DocElement::DocChars(value) => {
                let mut n: usize = 0;
                let max = value.char_len();
                proof {
                    assert(res.deep_view().take(m0) =~= base);
                    assert(res.deep_view().skip(m0) =~= Seq::<DelNode>::empty());
                }
                while n < max
                    invariant
                        n <= max,
                        max == run.chars.len(),
                        0 <= m0 <= res.deep_view().len(),
                        res.deep_view().take(m0) == base,
                        run_cut(res.deep_view().skip(m0), n as nat, max as nat),
                        off + max <= u.len(),
                        forall|j: int|
                            0 <= j < max ==> #[trigger] u[off + j] == Unit::Char(
                                (run.chars[j], run.styles),
                            ),
                        random_del_shape(res.deep_view()),
                        delete_applies(u, res.deep_view()),
                        del_reach(res.deep_view()) == off + n,
                    decreases max - n,
                {
                    if max - n == 1 {
                        let ghost before = res.deep_view();
                        proof {
                            lemma_del_append(u, before, DelNode::Skip(1));
                        }
                        res.push(DelElement::DelSkip(1));
                        proof {
                            let now = res.deep_view();
                            assert(now =~= before.push(DelNode::Skip(1)));
                            let cut = now.skip(m0);
                            assert(cut =~= before.skip(m0).push(DelNode::Skip(1)));
                            assert(cut.drop_last() =~= before.skip(m0));
                            assert(now.take(m0) =~= before.take(m0));
                        }
                        n = n + 1;
                    } else {
                        let slice = 2 + gen_range(0, max - n - 1);
                        let keep = if slice == 2 {
                            1
                        } else {
                            gen_range(1, slice - 1)
                        };
                        let ghost before = res.deep_view();
                        proof {
                            lemma_del_append(u, before, DelNode::Skip(keep as nat));
                        }
                        res.push(DelElement::DelSkip(keep));
                        let ghost mid = res.deep_view();
                        proof {
                            assert(mid =~= before.push(DelNode::Skip(keep as nat)));
                            let v = u.skip(del_reach(mid) as int);
                            assert forall|i: int| 0 <= i < slice - keep implies #[trigger] v[i]
                                is Char && v[i]->Char_0.1 == v[0]->Char_0.1 by {
                                assert(v[i] == u[off + (n + keep + i)]);
                                assert(v[0] == u[off + (n + keep)]);
                            }
                            lemma_del_append(u, mid, DelNode::Chars((slice - keep) as nat));
                        }
                        res.push(DelElement::DelChars(slice - keep));
                        proof {
                            let now = res.deep_view();
                            assert(now =~= mid.push(DelNode::Chars((slice - keep) as nat)));
                            let part = before.skip(m0);
                            let cut = now.skip(m0);
                            assert(cut =~= part.push(DelNode::Skip(keep as nat)).push(
                                DelNode::Chars((slice - keep) as nat),
                            ));
                            assert(cut.drop_last().drop_last() =~= part);
                            assert(now.take(m0) =~= before.take(m0));
                        }
                        n = n + slice;
                    }
                }
                proof {
                    let lens = run_lens(sv.take(e + 1));
                    let now = res.deep_view();
                    assert(lens.len() == e + 1);
                    assert(lens.drop_last() =~= run_lens(sv.take(e as int)));
                    assert(sv.take(e + 1)[e as int] == sv[e as int]);
                    assert(lens.last() == max);
                    assert(span_cut(now.take(m0), lens.drop_last()));
                    assert(run_cut(now.skip(m0), lens.last(), lens.last()));
                    assert(0 <= m0 <= now.len() && span_cut(now.take(m0), lens.drop_last())
                        && run_cut(now.skip(m0), lens.last(), lens.last()));
                    lemma_span_cut_next(now, lens, m0);
                }
            },
            DocElement::DocGroup(_, _) => {
                proof {
                    assert(false);
                }
            },
        }
        e = e + 1;
    }
    proof {
        assert(sv.take(e as int) =~= sv);
    }
    res
}

/// A random operation for a canonical document of runs: a random delete
/// span, and a random add span for what it leaves. The operation fits
/// the document.
pub fn random_op(input: &DocSpan) -> (res: Op)
    requires
        span_canonical(input.deep_view()),
        all_runs(input.deep_view()),
    ensures
        random_del_shape(res.0.deep_view()),
        random_add_shape(res.1.deep_view()),
        op_applies(span_units(input.deep_view()), (res.0.deep_view(), res.1.deep_view())),
        span_cut(res.0.deep_view(), run_lens(input.deep_view())),
        del_reach(res.0.deep_view()) == span_units(input.deep_view()).len(),
        add_reach(res.1.deep_view()) == delete_units(
            span_units(input.deep_view()),
            res.0.deep_view(),
        ).len(),
        forall|mid: Seq<DocNode>|
            span_canonical(mid) && span_units(mid) == delete_units(
                span_units(input.deep_view()),
                res.0.deep_view(),
            ) ==> #[trigger] span_sliced(res.1.deep_view(), run_lens(mid)),
{
    let del = random_del_span(input);
    let middle = apply_delete(input, &del);
    proof {
        lemma_runs_units(input.deep_view());
        lemma_del_leaves_chars(span_units(input.deep_view()), del.deep_view());
        lemma_runs_units(middle.deep_view());
    }
    let ins = random_add_span(&middle);
    proof {
        assert forall|mid: Seq<DocNode>|
            span_canonical(mid) && span_units(mid) == delete_units(
                span_units(input.deep_view()),
                del.deep_view(),
            ) implies #[trigger] span_sliced(ins.deep_view(), run_lens(mid)) by {
            lemma_canonical_unique(mid, middle.deep_view());
        }
    }
    (del, ins)
}

} // verus!
