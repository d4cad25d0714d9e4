//! Requests answered for a host that embeds the editor core.

use crate::doc::{
    group_views, Attrs, CurElement, CurNode, CurSpan, DocElement, DocNode, DocSpan, DocString,
};
use crate::stepper::{
    cur_fits, cur_reach, cur_size, lemma_span_at_canonical, lemma_unit_pos_next, CurStepper,
    DocStepper,
};
use crate::units::{lemma_span_units_head, node_units};
use crate::doc::{AttrMap, StyleBag, Text};
use crate::units::{node_canonical, span_canonical, span_units, Unit};
use crate::writer::{AddWriter, DelWriter};
use vstd::prelude::*;

verus! {

broadcast use {vstd::group_vstd_default, group_views};

/// The product of the numbers from one to `n`.
pub open spec fn factorial(n: nat) -> nat
    decreases n,
{
    if n == 0 {
        1
    } else {
        n * factorial((n - 1) as nat)
    }
}

/// A factorial is at least one.
pub proof fn lemma_factorial_positive(n: nat)
    ensures
        factorial(n) >= 1,
    decreases n,
{
    if n > 0 {
        lemma_factorial_positive((n - 1) as nat);
        assert(n * factorial((n - 1) as nat) >= 1) by (nonlinear_arith)
            requires
                n >= 1,
                factorial((n - 1) as nat) >= 1,
        ;
    }
}

/// The factorial of twenty is the largest that fits in 64 bits.
pub proof fn lemma_factorial_fits(n: nat)
    ensures
        n <= 20 <==> factorial(n) <= u64::MAX,
    decreases n,
{
    reveal_with_fuel(factorial, 22);
    assert(factorial(20) == 2432902008176640000);
    assert(factorial(21) == 51090942171709440000);
    if n > 21 {
        lemma_factorial_fits((n - 1) as nat);
        lemma_factorial_positive((n - 1) as nat);
        assert(n * factorial((n - 1) as nat) >= factorial((n - 1) as nat)) by (nonlinear_arith)
            requires
                n >= 1,
                factorial((n - 1) as nat) >= 1,
        ;
    } else if n < 20 {
        lemma_factorial_le(n, 20);
    }
}

/// Factorials grow with their argument.
pub proof fn lemma_factorial_le(m: nat, n: nat)
    requires
        m <= n,
    ensures
        factorial(m) <= factorial(n),
    decreases n,
{
    if m < n {
        lemma_factorial_le(m, (n - 1) as nat);
        lemma_factorial_positive((n - 1) as nat);
        assert(n * factorial((n - 1) as nat) >= factorial((n - 1) as nat)) by (nonlinear_arith)
            requires
                n >= 1,
                factorial((n - 1) as nat) >= 1,
        ;
    }
}

/// The factorial of `n`, for the `n` whose factorial fits in 64 bits.
pub fn fact(n: u32) -> (res: u64)
    requires
        n <= 20,
    ensures
        res == factorial(n as nat),
{
    let ghost n0 = n as nat;
    let mut n: u64 = n as u64;
    let mut result: u64 = 1;
    proof {
        lemma_factorial_fits(n0);
        assert(1 * factorial(n0) == factorial(n0)) by (nonlinear_arith);
    }
    while n > 0
        invariant
            n <= n0,
            factorial(n0) <= u64::MAX,
            result * factorial(n as nat) == factorial(n0),
        decreases n,
    {
        proof {
            let f = factorial((n - 1) as nat);
            lemma_factorial_positive((n - 1) as nat);
            assert(result * n * f == result * (n * f)) by (nonlinear_arith);
            assert(result * n <= result * n * f) by (nonlinear_arith)
                requires
                    f >= 1,
                    result * n >= 0,
            ;
        }
        result = result * n;
        n = n - 1;
    }
    proof {
        assert(result * 1 == result) by (nonlinear_arith);
    }
    result
}


/// Steps `doc` along the rest of the cursor path `input` at its current
/// level: over the units of each skip, and into and out of each descent.
/// The writers are left as they are.
pub fn rename_group_inner(
    input: &mut CurStepper,
    doc: &mut DocStepper,
    del: &mut DelWriter,
    add: &mut AddWriter,
)
    requires
        old(input).wf(),
        old(doc).wf(),
        span_canonical(old(doc).doc.deep_view()),
        cur_fits(old(input).rest(), old(doc).units_ahead()),
    ensures
        final(input).wf(),
        final(input).span == old(input).span,
        final(input).path@ == old(input).path@,
        final(input).index == old(input).span_view().len(),
        final(doc).wf(),
        final(doc).doc == old(doc).doc,
        final(doc).path@ == old(doc).path@,
        final(doc).pos() == old(doc).pos() + cur_reach(old(input).rest()),
        *final(del) == *old(del),
        *final(add) == *old(add),
    decreases cur_size(old(input).rest()),
{
    let ghost target = doc.pos() + cur_reach(input.rest());
    let ghost size0 = cur_size(input.rest());
    while input.has_head()
        invariant
            input.wf(),
            input.span == old(input).span,
            input.path@ == old(input).path@,
            doc.wf(),
            doc.doc == old(doc).doc,
            doc.path@ == old(doc).path@,
            span_canonical(doc.doc.deep_view()),
            cur_fits(input.rest(), doc.units_ahead()),
            doc.pos() + cur_reach(input.rest()) == target,
            cur_size(input.rest()) <= size0,
            size0 == cur_size(old(input).rest()),
            *del == *old(del),
            *add == *old(add),
        decreases cur_size(input.rest()),
    {
        let ghost rest = input.rest();
        let ghost ahead = doc.units_ahead();
        let ghost pos0 = doc.pos();
        let ghost outer = doc.span_view();
        let ghost index0 = doc.index;
        proof {
            assert(rest.skip(1) =~= input.span_view().skip(input.index + 1));
            assert(rest[0] == input.span_view()[input.index as int]);
            lemma_span_at_canonical(doc.doc.deep_view(), doc.path@);
            doc.lemma_unit_ahead();
        }
        match input.get_head() {
            CurElement::CurSkip(value) => {
                doc.skip(value);
                input.next();
                proof {
                    assert(doc.units_ahead() =~= ahead.skip(value as int));
                }
            },
            CurElement::CurWithGroup(_) => {
                let ghost cur_outer = input.span_view();
                let ghost cur_index = input.index;
                let ghost cur_path = input.path@;
                let ghost doc_path = doc.path@;
                input.enter();
                doc.enter();
                proof {
                    assert(input.path@.drop_last() =~= cur_path);
                    assert(input.span_view() == cur_outer[cur_index as int]->WithGroup_0);
                    assert(input.rest() =~= rest[0]->WithGroup_0);
                    assert(doc.path@.drop_last() =~= doc_path);
                    let children = outer[index0 as int]->Group_1;
                    assert(doc.span_view() == children);
                    assert(children.take(0) =~= Seq::<DocNode>::empty());
                    assert(doc.pos() == 0);
                    assert(doc.units_ahead() =~= ahead[0]->Group_1);
                }
                rename_group_inner(input, doc, del, add);
                input.exit();
                doc.exit();
                proof {
                    assert(doc.path@ =~= old(doc).path@);
                    assert(input.path@ =~= old(input).path@);
                    lemma_unit_pos_next(outer, index0 as int);
                    assert(doc.units_ahead() =~= ahead.skip(1));
                }
            },
            _ => {
                input.next();
            },
        }
        proof {
            assert(input.rest() =~= rest.skip(1));
        }
    }
    proof {
        assert(input.rest() =~= Seq::<CurNode>::empty());
    }
}


/// The attributes that hold the single entry `tag` with the value `t`.
pub open spec fn tag_attrs(t: Seq<char>) -> AttrMap {
    Map::empty().insert("tag"@, t)
}

/// An unstyled run of the characters `c`.
pub open spec fn plain_run(c: Seq<char>) -> DocNode {
    DocNode::Chars(Text { chars: c, styles: StyleBag::plain() })
}

/// The view of the document that requests are answered on: a heading with
/// an emphasised word, and a list with one item of two paragraphs.
pub open spec fn default_doc_view() -> Seq<DocNode> {
    seq![
        DocNode::Group(
            tag_attrs("h1"@),
            seq![
                plain_run("Hello! "@),
                DocNode::Group(
                    tag_attrs("span"@).insert("class"@, "bold"@),
                    seq![plain_run("what's"@)],
                ),
                plain_run(" up?"@),
            ],
        ),
        DocNode::Group(
            tag_attrs("ul"@),
            seq![
                DocNode::Group(
                    tag_attrs("li"@),
                    seq![
                        DocNode::Group(
                            tag_attrs("p"@),
                            seq![plain_run("Three adjectives strong."@)],
                        ),
                        DocNode::Group(tag_attrs("p"@), seq![plain_run("World!"@)]),
                    ],
                ),
            ],
        ),
    ]
}

/// A group with the single attribute `tag` around `children`.
fn tagged(tag: &str, children: Vec<DocElement>) -> (res: DocElement)
    ensures
        res.deep_view() == DocNode::Group(tag_attrs(tag@), children.deep_view()),
{
    let attrs = Attrs::new().with("tag", tag);
    assert(attrs@ =~= tag_attrs(tag@));
    DocElement::DocGroup(attrs, children)
}

/// A span that holds the single unstyled run `text`.
fn one_run(text: &str) -> (res: Vec<DocElement>)
    ensures
        res.deep_view() == seq![plain_run(text@)],
{
    let mut res: Vec<DocElement> = Vec::new();
    res.push(DocElement::DocChars(DocString::from_str(text)));
    assert(res.deep_view() =~= seq![plain_run(text@)]);
    res
}

/// The document that requests are answered on.
pub fn default_doc() -> (res: DocSpan)
    ensures
        res.deep_view() == default_doc_view(),
        span_canonical(res.deep_view()),
{
    let bold = Attrs::new().with("tag", "span").with("class", "bold");
    assert(bold@ =~= tag_attrs("span"@).insert("class"@, "bold"@));
    let mut heading: Vec<DocElement> = Vec::new();
    heading.push(DocElement::DocChars(DocString::from_str("Hello! ")));
    heading.push(DocElement::DocGroup(bold, one_run("what's")));
    heading.push(DocElement::DocChars(DocString::from_str(" up?")));
    assert(heading.deep_view() =~= seq![
        plain_run("Hello! "@),
        DocNode::Group(
            tag_attrs("span"@).insert("class"@, "bold"@),
            seq![plain_run("what's"@)],
        ),
        plain_run(" up?"@),
    ]);
    let mut item: Vec<DocElement> = Vec::new();
    item.push(tagged("p", one_run("Three adjectives strong.")));
    item.push(tagged("p", one_run("World!")));
    assert(item.deep_view() =~= seq![
        DocNode::Group(tag_attrs("p"@), seq![plain_run("Three adjectives strong."@)]),
        DocNode::Group(tag_attrs("p"@), seq![plain_run("World!"@)]),
    ]);
    let mut list: Vec<DocElement> = Vec::new();
    list.push(tagged("li", item));
    assert(list.deep_view() =~= seq![DocNode::Group(tag_attrs("li"@), item.deep_view())]);
    let mut res: Vec<DocElement> = Vec::new();
    res.push(tagged("h1", heading));
    res.push(tagged("ul", list));
    assert(res.deep_view() =~= default_doc_view());
    proof {
        lemma_default_doc_canonical();
    }
    res
}

/// The document that requests are answered on is canonical.
pub proof fn lemma_default_doc_canonical()
    ensures
        span_canonical(default_doc_view()),
{
    reveal_strlit("Hello! ");
    reveal_strlit("what's");
    reveal_strlit(" up?");
    reveal_strlit("Three adjectives strong.");
    reveal_strlit("World!");
    let word = seq![plain_run("what's"@)];
    assert(span_canonical(word));
    let heading = seq![
        plain_run("Hello! "@),
        DocNode::Group(tag_attrs("span"@).insert("class"@, "bold"@), word),
        plain_run(" up?"@),
    ];
    assert(node_canonical(heading[1]));
    assert(span_canonical(heading));
    let first_para = seq![plain_run("Three adjectives strong."@)];
    let second_para = seq![plain_run("World!"@)];
    assert(span_canonical(first_para));
    assert(span_canonical(second_para));
    let item = seq![DocNode::Group(tag_attrs("p"@), first_para), DocNode::Group(tag_attrs("p"@), second_para)];
    assert(node_canonical(item[0]));
    assert(node_canonical(item[1]));
    assert(span_canonical(item));
    let list = seq![DocNode::Group(tag_attrs("li"@), item)];
    assert(node_canonical(list[0]));
    assert(span_canonical(list));
    let doc = default_doc_view();
    assert(doc[0] == DocNode::Group(tag_attrs("h1"@), heading));
    assert(doc[1] == DocNode::Group(tag_attrs("ul"@), list));
    assert(node_canonical(doc[0]));
    assert(node_canonical(doc[1]));
}

/// Walks the cursor path `input` through the default document.
pub fn rename_group(input: &CurSpan)
    requires
        cur_fits(input.deep_view(), span_units(default_doc_view())),
{
    let doc = default_doc();
    let mut cur_stepper = CurStepper::new(input);
    let mut doc_stepper = DocStepper::new(&doc);
    let mut del_writer = DelWriter::new();
    let mut add_writer = AddWriter::new();
    proof {
        assert(cur_stepper.rest() =~= input.deep_view());
        assert(doc_stepper.span_view().take(0) =~= Seq::<DocNode>::empty());
        assert(doc_stepper.units_ahead() =~= span_units(default_doc_view()));
    }
    rename_group_inner(&mut cur_stepper, &mut doc_stepper, &mut del_writer, &mut add_writer);
}

/// The units of `span` from the place `offset` characters into the atom
/// at `index` on.
pub open spec fn units_from(span: Seq<DocNode>, index: int, offset: int) -> Seq<Unit> {
    span_units(span.skip(index)).skip(offset)
}

/// Whether `offset` characters into the atom at `index` is a place of
/// `span`.
pub open spec fn spot_ok(span: Seq<DocNode>, index: int, offset: int) -> bool {
    &&& 0 <= index <= span.len()
    &&& 0 <= offset
    &&& (offset > 0 ==> index < span.len() && span[index] is Chars && offset
        < span[index]->Chars_0.chars.len())
}

/// The units from an atom on are those of the atom and those from the
/// next atom on.
proof fn lemma_units_from_next(span: Seq<DocNode>, index: int)
    requires
        0 <= index < span.len(),
    ensures
        span_units(span.skip(index)) == node_units(span[index]) + span_units(
            span.skip(index + 1),
        ),
{
    lemma_span_units_head(span.skip(index));
    assert(span.skip(index).skip(1) =~= span.skip(index + 1));
}

/// The place `k` units behind a place of `span`, if the span holds that
/// many units behind it.
fn advance(span: &Vec<DocElement>, index: usize, offset: usize, k: usize) -> (res: Option<
    (usize, usize),
>)
    requires
        span_canonical(span.deep_view()),
        spot_ok(span.deep_view(), index as int, offset as int),
    ensures
        match res {
            Some(at) => k <= units_from(span.deep_view(), index as int, offset as int).len()
                && spot_ok(span.deep_view(), at.0 as int, at.1 as int) && units_from(
                span.deep_view(),
                at.0 as int,
                at.1 as int,
            ) == units_from(span.deep_view(), index as int, offset as int).skip(k as int),
            None => k > units_from(span.deep_view(), index as int, offset as int).len(),
        },
{
    let ghost sv = span.deep_view();
    let ghost ahead = units_from(sv, index as int, offset as int);
    let mut i = index;
    let mut o = offset;
    let mut left = k;
    proof {
        assert(ahead.skip(0) =~= ahead);
    }
    while left > 0
        invariant
            sv == span.deep_view(),
            ahead == units_from(sv, index as int, offset as int),
            span_canonical(sv),
            spot_ok(sv, i as int, o as int),
            left <= k,
            k - left <= ahead.len(),
            units_from(sv, i as int, o as int) == ahead.skip(k - left),
        decreases left,
    {
        let ghost cur = units_from(sv, i as int, o as int);
        if i == span.len() {
            proof {
                assert(sv.skip(i as int) =~= Seq::<DocNode>::empty());
                assert(cur.len() == 0);
                assert(ahead.skip(k - left).len() == ahead.len() - (k - left));
            }
            return None;
        }
        proof {
            lemma_units_from_next(sv, i as int);
            assert(node_canonical(sv[i as int]));
        }
        let here = match &span[i] {
            DocElement::DocChars(t) => t.char_len() - o,
            DocElement::DocGroup(_, _) => 1,
        };
        proof {
            assert(here == node_units(sv[i as int]).len() - o);
            assert(cur.len() == here + span_units(sv.skip(i + 1)).len());
        }
        if left < here {
            proof {
                assert(units_from(sv, i as int, o + left) =~= cur.skip(left as int));
                assert(cur.skip(left as int) =~= ahead.skip(k as int));
            }
            o = o + left;
            left = 0;
        } else {
            proof {
                assert(span_units(sv.skip(i + 1)).skip(0) =~= span_units(sv.skip(i + 1)));
                assert(units_from(sv, i + 1, 0) =~= cur.skip(here as int));
                assert(cur.skip(here as int) =~= ahead.skip(k - left + here));
            }
            left = left - here;
            i = i + 1;
            o = 0;
        }
    }
    Some((i, o))
}

/// Whether the cursor path `cur` fits the span `span`.
fn cursor_fits_span(cur: &Vec<CurElement>, span: &Vec<DocElement>) -> (res: bool)
    requires
        span_canonical(span.deep_view()),
    ensures
        res == cur_fits(cur.deep_view(), span_units(span.deep_view())),
    decreases cur,
{
    let ghost cv = cur.deep_view();
    let ghost sv = span.deep_view();
    let ghost goal = cur_fits(cv, span_units(sv));
    let mut j: usize = 0;
    let mut i: usize = 0;
    let mut o: usize = 0;
    proof {
        assert(cv.skip(0) =~= cv);
        assert(sv.skip(0) =~= sv);
        assert(span_units(sv).skip(0) =~= span_units(sv));
    }
    while j < cur.len()
        invariant
            j <= cur.len(),
            cv == cur.deep_view(),
            sv == span.deep_view(),
            goal == cur_fits(cv, span_units(sv)),
            span_canonical(sv),
            spot_ok(sv, i as int, o as int),
            cur_fits(cv.skip(j as int), units_from(sv, i as int, o as int)) == goal,
        decreases cur.len() - j,
    {
        let ghost ahead = units_from(sv, i as int, o as int);
        proof {
            assert(cv.skip(j as int).skip(1) =~= cv.skip(j + 1));
            assert(cv.skip(j as int)[0] == cur@[j as int].deep_view());
        }
        match &cur[j] {
            CurElement::CurSkip(k) => {
                match advance(span, i, o, *k) {
                    Some(at) => {
                        i = at.0;
                        o = at.1;
                    },
                    None => {
                        return false;
                    },
                }
            },
            CurElement::CurWithGroup(inner) => {
                if i == span.len() {
                    proof {
                        assert(sv.skip(i as int) =~= Seq::<DocNode>::empty());
                    }
                    return false;
                }
                proof {
                    lemma_units_from_next(sv, i as int);
                    assert(node_canonical(sv[i as int]));
                }
                match &span[i] {
                    DocElement::DocGroup(_, children) => {
                        proof {
                            assert(o == 0);
                            assert(ahead =~= span_units(sv.skip(i as int)));
                            assert(span_units(sv.skip(i + 1)).skip(0) =~= span_units(
                                sv.skip(i + 1),
                            ));
                            assert(units_from(sv, i + 1, 0) =~= ahead.skip(1));
                        }
                        if !cursor_fits_span(inner, children) {
                            return false;
                        }
                        i = i + 1;
                        o = 0;
                    },
                    DocElement::DocChars(_) => {
                        proof {
                            assert(ahead[0] is Char);
                        }
                        return false;
                    },
                }
            },
            _ => {},
        }
        j = j + 1;
    }
    proof {
        assert(cv.skip(j as int) =~= Seq::<CurNode>::empty());
    }
    true
}

/// Whether the cursor path `cur` fits the document `doc`.
pub fn cursor_fits(cur: &CurSpan, doc: &DocSpan) -> (res: bool)
    requires
        span_canonical(doc.deep_view()),
    ensures
        res == cur_fits(cur.deep_view(), span_units(doc.deep_view())),
{
    cursor_fits_span(cur, doc)
}

/// A request from the host.
#[derive(Debug)]
pub enum NativeRequest {
    Factorial(u32),
    RenameGroup(CurSpan),
    Invalid,
}

/// The answer to a request.
#[derive(Debug)]
pub enum NativeResponse {
    Factorial(u64),
    RenameGroup,
    Error(String),
}

/// Whether a request can be answered: a factorial fits in 64 bits, and a
/// cursor path fits the default document.
pub open spec fn request_fits(req: NativeRequest) -> bool {
    match req {
        NativeRequest::Factorial(n) => n <= 20,
        NativeRequest::RenameGroup(cur) => cur_fits(
            cur.deep_view(),
            span_units(default_doc_view()),
        ),
        NativeRequest::Invalid => true,
    }
}

/// Whether a request can be answered.
pub fn request_is_fit(req: &NativeRequest) -> (res: bool)
    ensures
        res == request_fits(*req),
{
    match req {
        NativeRequest::Factorial(n) => *n <= 20,
        NativeRequest::RenameGroup(cur) => {
            let doc = default_doc();
            cursor_fits(cur, &doc)
        },
        NativeRequest::Invalid => true,
    }
}

/// Answers a request.
pub fn command_safe(req: NativeRequest) -> (res: NativeResponse)
    requires
        request_fits(req),
    ensures
        match req {
            NativeRequest::Factorial(n) => res == NativeResponse::Factorial(
                factorial(n as nat) as u64,
            ),
            NativeRequest::RenameGroup(_) => res == NativeResponse::RenameGroup,
            NativeRequest::Invalid => res matches NativeResponse::Error(m) && m@
                == "Invalid request"@,
        },
{
    match req {
        NativeRequest::RenameGroup(cur) => {
            rename_group(&cur);
            NativeResponse::RenameGroup
        },
        NativeRequest::Factorial(factor) => NativeResponse::Factorial(fact(factor)),
        _ => NativeResponse::Error(String::from_str("Invalid request")),
    }
}

} // verus!
