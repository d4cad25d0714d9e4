//! Operations that place, move and remove the carets of a client.
//!
//! A caret is a group without children whose attributes name the client
//! and tell whether it is the focus or the anchor of a selection.

use crate::doc::{group_views, AddNode, AttrMap, Attrs, CurSpan, DelNode, DocNode, DocSpan, Op};
use crate::units::span_canonical;
use crate::walkers::{
    at_block_start, at_caret, caret_at, cursor_ok, cursor_place, lemma_walk_ends, place_at,
    place_valid, span_tokens, start_place, walk_next, walk_reaches, walk_steps, Pos, Walker,
};
use crate::writer::close_levels;
use vstd::prelude::*;

verus! {

broadcast use {vstd::group_vstd_default, group_views};

/// Why an operation on carets could not be made.
#[derive(Debug, PartialEq, Eq)]
pub enum CaretError {
    /// The document holds no place for a first caret.
    NoPosition,
    /// The document holds no caret of the kind that was asked for.
    NoCaret,
}

impl CaretError {
    /// The error in words.
    pub fn message(&self) -> (res: String)
        ensures
            res@ == (match self {
                CaretError::NoPosition => "Could not insert first caret"@,
                CaretError::NoCaret => "Caret not found"@,
            }),
    {
        match self {
            CaretError::NoPosition => String::from_str("Could not insert first caret"),
            CaretError::NoCaret => String::from_str("Caret not found"),
        }
    }
}

/// The view of the attributes of a caret of the client `client`.
pub open spec fn caret_attrs_view(client: Seq<char>, focus: bool) -> AttrMap {
    Map::empty().insert("tag"@, "caret"@).insert("client"@, client).insert(
        "focus"@,
        if focus {
            "true"@
        } else {
            "false"@
        },
    )
}

/// The attributes of a caret of the client `client_id`: its focus, or
/// else its anchor.
pub fn caret_attrs(client_id: &str, focus: bool) -> (res: Attrs)
    ensures
        res@ == caret_attrs_view(client_id@, focus),
{
    let res = Attrs::new().with("tag", "caret").with("client", client_id).with(
        "focus",
        if focus {
            "true"
        } else {
            "false"
        },
    );
    assert(res@ =~= caret_attrs_view(client_id@, focus));
    res
}

/// The operation that removes the group at the walker's place and keeps
/// what it holds: written at that place, and padded to the document at
/// every level.
pub open spec fn caret_clear_spec(walker: Walker) -> (Seq<DelNode>, Seq<AddNode>) {
    close_levels(
        walker.del_stack(),
        walker.del_past().push(DelNode::Group(Seq::empty())),
        walker.add_stack(),
        walker.add_past(),
        walker.totals(),
    )
}

/// Writes the removal of the group at the walker's place.
fn caret_clear_at(walker: &Walker) -> (res: Op)
    requires
        walker.stepper.wf(),
    ensures
        (res.0.deep_view(), res.1.deep_view()) == caret_clear_spec(*walker),
{
    let mut writer = walker.to_writer();
    writer.del.begin();
    writer.del.close();
    proof {
        assert(writer.del.stack_view() =~= walker.del_stack());
        assert(writer.del.past_view() =~= walker.del_past().push(DelNode::Group(Seq::empty())));
    }
    writer.exit_result()
}

/// Deletes the caret that the walker stands at.
pub fn caret_clear_inner(walker: Walker) -> (res: Result<Op, CaretError>)
    requires
        walker.stepper.wf(),
    ensures
        res matches Ok(op) && (op.0.deep_view(), op.1.deep_view()) == caret_clear_spec(walker),
{
    Ok(caret_clear_at(&walker))
}


/// What an action on carets works with: the document, and the client
/// whose carets are meant.
pub struct ActionContext {
    pub doc: DocSpan,
    pub client_id: String,
}

impl ActionContext {
    /// The document is canonical, and can be walked through in a number of
    /// steps that is a machine count.
    pub open spec fn wf(&self) -> bool {
        span_canonical(self.doc.deep_view()) && span_tokens(self.doc.deep_view()) <= isize::MAX
    }

    /// A walker at the caret of the client that `position` names.
    pub fn get_walker(&self, position: Pos) -> (res: Result<Walker, CaretError>)
        requires
            self.wf(),
        ensures
            match res {
                Ok(w) => w.wf() && w.stepper.doc.deep_view() == self.doc.deep_view() && at_caret(
                    self.doc.deep_view(),
                    w.stepper.place(),
                    self.client_id@,
                    position == Pos::Focus,
                ) && forall|k: nat|
                    k < w.steps@ ==> !at_caret(
                        self.doc.deep_view(),
                        #[trigger] walk_steps(self.doc.deep_view(), start_place(), k)->Some_0,
                        self.client_id@,
                        position == Pos::Focus,
                    ),
                Err(e) => e == CaretError::NoCaret && forall|k: nat|
                    (#[trigger] walk_steps(self.doc.deep_view(), start_place(), k)) is Some
                        ==> !at_caret(
                        self.doc.deep_view(),
                        walk_steps(self.doc.deep_view(), start_place(), k)->Some_0,
                        self.client_id@,
                        position == Pos::Focus,
                    ),
            },
    {
        match Walker::to_caret(&self.doc, self.client_id.as_str(), position) {
            Ok(w) => Ok(w),
            Err(_) => Err(CaretError::NoCaret),
        }
    }
}

/// The operation that inserts, at the walker's place, the focus and then
/// the anchor of the client `client`: written at that place, and padded
/// to the document at every level.
pub open spec fn init_caret_spec(walker: Walker, client: Seq<char>) -> (
    Seq<DelNode>,
    Seq<AddNode>,
) {
    close_levels(
        walker.del_stack(),
        walker.del_past(),
        walker.add_stack(),
        walker.add_past().push(AddNode::Group(caret_attrs_view(client, true), Seq::empty())).push(
            AddNode::Group(caret_attrs_view(client, false), Seq::empty()),
        ),
        walker.totals(),
    )
}

/// Inserts the carets of a client where none are yet: its focus and its
/// anchor, at the first place of the document at which a caret can stand.
/// There is an error where the document holds no such place.
pub fn init_caret(ctx: ActionContext) -> (res: Result<Op, CaretError>)
    requires
        ctx.wf(),
    ensures
        match res {
            Ok(op) => exists|w: Walker|
                w.wf() && w.stepper.doc.deep_view() == ctx.doc.deep_view() && w.caret_pos == 0
                    && (forall|k: nat| k < w.steps@ ==> caret_at(ctx.doc.deep_view(), k) != 0)
                    && (op.0.deep_view(), op.1.deep_view()) == #[trigger] init_caret_spec(
                    w,
                    ctx.client_id@,
                ),
            Err(e) => e == CaretError::NoPosition && forall|k: nat|
                (#[trigger] walk_steps(ctx.doc.deep_view(), start_place(), k)) is Some
                    ==> caret_at(ctx.doc.deep_view(), k) != 0,
        },
{
    let ghost doc = ctx.doc.deep_view();
    let mut walker = Walker::new(&ctx.doc);
    if !walker.goto_pos(0) {
        proof {
            let n = walker.steps@;
            assert forall|k: nat| (#[trigger] walk_steps(doc, start_place(), k)) is Some implies caret_at(
                doc,
                k,
            ) != 0 by {
                if k > n {
                    lemma_walk_ends(doc, n + 1, k);
                }
            }
        }
        return Err(CaretError::NoPosition);
    }
    let mut writer = walker.to_writer();
    writer.add.begin();
    writer.add.close(caret_attrs(ctx.client_id.as_str(), true));
    writer.add.begin();
    writer.add.close(caret_attrs(ctx.client_id.as_str(), false));
    proof {
        assert(writer.add.stack_view() =~= walker.add_stack());
        assert(writer.add.past_view() =~= walker.add_past().push(
            AddNode::Group(caret_attrs_view(ctx.client_id@, true), Seq::empty()),
        ).push(AddNode::Group(caret_attrs_view(ctx.client_id@, false), Seq::empty())));
    }
    let op = writer.exit_result();
    proof {
        assert((op.0.deep_view(), op.1.deep_view()) == init_caret_spec(walker, ctx.client_id@));
    }
    Ok(op)
}

/// Deletes the caret of the client that `position` names. There is an
/// error where the document holds no such caret.
pub fn caret_clear(ctx: &ActionContext, position: Pos) -> (res: Result<Op, CaretError>)
    requires
        ctx.wf(),
    ensures
        match res {
            Ok(op) => exists|w: Walker|
                w.wf() && w.stepper.doc.deep_view() == ctx.doc.deep_view() && at_caret(
                    ctx.doc.deep_view(),
                    w.stepper.place(),
                    ctx.client_id@,
                    position == Pos::Focus,
                ) && (forall|k: nat|
                    k < w.steps@ ==> !at_caret(
                        ctx.doc.deep_view(),
                        #[trigger] walk_steps(ctx.doc.deep_view(), start_place(), k)->Some_0,
                        ctx.client_id@,
                        position == Pos::Focus,
                    )) && (op.0.deep_view(), op.1.deep_view()) == #[trigger] caret_clear_spec(w),
            Err(e) => e == CaretError::NoCaret && forall|k: nat|
                (#[trigger] walk_steps(ctx.doc.deep_view(), start_place(), k)) is Some
                    ==> !at_caret(
                    ctx.doc.deep_view(),
                    walk_steps(ctx.doc.deep_view(), start_place(), k)->Some_0,
                    ctx.client_id@,
                    position == Pos::Focus,
                ),
        },
{
    match ctx.get_walker(position) {
        Ok(walker) => {
            let ghost w = walker;
            let res = caret_clear_inner(walker);
            proof {
                assert((res->Ok_0.0.deep_view(), res->Ok_0.1.deep_view()) == caret_clear_spec(w));
            }
            res
        },
        Err(e) => Err(e),
    }
}

/// Whether the walk through `doc` first comes to a caret of the client
/// `client`, its focus or else its anchor, after `n` steps.
pub open spec fn caret_step(doc: Seq<DocNode>, client: Seq<char>, focus: bool, n: nat) -> bool {
    &&& walk_reaches(doc, n)
    &&& at_caret(doc, place_at(doc, n), client, focus)
    &&& forall|k: nat| k < n ==> !at_caret(doc, #[trigger] place_at(doc, k), client, focus)
}

/// Whether `doc` holds no caret of the client `client` of the kind that
/// `focus` names.
pub open spec fn no_caret(doc: Seq<DocNode>, client: Seq<char>, focus: bool) -> bool {
    forall|k: nat| #[trigger] walk_reaches(doc, k) ==> !at_caret(doc, place_at(doc, k), client, focus)
}

/// Whether `op` removes from `doc` the first caret of the client `client`
/// of the kind that `focus` names.
pub open spec fn clears_caret(
    doc: Seq<DocNode>,
    client: Seq<char>,
    focus: bool,
    op: (Seq<DelNode>, Seq<AddNode>),
) -> bool {
    exists|w: Walker|
        w.wf() && w.stepper.doc.deep_view() == doc && caret_step(doc, client, focus, w.steps@)
            && op == #[trigger] caret_clear_spec(w)
}

/// Whether `op` removes from `doc` the first caret of the client `client`
/// of the kind that `focus` names, or is empty where there is no such
/// caret.
pub open spec fn clears_or_passes(
    doc: Seq<DocNode>,
    client: Seq<char>,
    focus: bool,
    op: (Seq<DelNode>, Seq<AddNode>),
) -> bool {
    if no_caret(doc, client, focus) {
        op == (Seq::<DelNode>::empty(), Seq::<AddNode>::empty())
    } else {
        clears_caret(doc, client, focus, op)
    }
}

/// The operation that inserts, at the walker's place, one caret of the
/// client `client`: written at that place, and padded to the document at
/// every level.
pub open spec fn caret_insert_spec(walker: Walker, client: Seq<char>, focus: bool) -> (
    Seq<DelNode>,
    Seq<AddNode>,
) {
    close_levels(
        walker.del_stack(),
        walker.del_past(),
        walker.add_stack(),
        walker.add_past().push(AddNode::Group(caret_attrs_view(client, focus), Seq::empty())),
        walker.totals(),
    )
}

/// The operation that inserts, at the walker's place, the anchor and then
/// the focus of the client `client`.
pub open spec fn caret_pair_spec(walker: Walker, client: Seq<char>) -> (
    Seq<DelNode>,
    Seq<AddNode>,
) {
    close_levels(
        walker.del_stack(),
        walker.del_past(),
        walker.add_stack(),
        walker.add_past().push(AddNode::Group(caret_attrs_view(client, false), Seq::empty())).push(
            AddNode::Group(caret_attrs_view(client, true), Seq::empty()),
        ),
        walker.totals(),
    )
}

/// Inserts a caret of the client where the walker stands.
pub fn caret_insert_inner(walker: &Walker, client_id: &str, focus: bool) -> (res: Op)
    requires
        walker.stepper.wf(),
    ensures
        (res.0.deep_view(), res.1.deep_view()) == caret_insert_spec(*walker, client_id@, focus),
{
    let mut writer = walker.to_writer();
    writer.add.begin();
    writer.add.close(caret_attrs(client_id, focus));
    proof {
        assert(writer.add.stack_view() =~= walker.add_stack());
        assert(writer.add.past_view() =~= walker.add_past().push(
            AddNode::Group(caret_attrs_view(client_id@, focus), Seq::empty()),
        ));
    }
    writer.exit_result()
}

/// Inserts the anchor and then the focus of the client where the walker
/// stands.
pub fn caret_pair_inner(walker: &Walker, client_id: &str) -> (res: Op)
    requires
        walker.stepper.wf(),
    ensures
        (res.0.deep_view(), res.1.deep_view()) == caret_pair_spec(*walker, client_id@),
{
    let mut writer = walker.to_writer();
    writer.add.begin();
    writer.add.close(caret_attrs(client_id, false));
    writer.add.begin();
    writer.add.close(caret_attrs(client_id, true));
    proof {
        assert(writer.add.stack_view() =~= walker.add_stack());
        assert(writer.add.past_view() =~= walker.add_past().push(
            AddNode::Group(caret_attrs_view(client_id@, false), Seq::empty()),
        ).push(AddNode::Group(caret_attrs_view(client_id@, true), Seq::empty())));
    }
    writer.exit_result()
}

/// A walker at the first caret of the kind that `focus` names, or the
/// finding that there is none.
fn caret_walker(ctx: &ActionContext, focus: bool) -> (res: Option<Walker>)
    requires
        ctx.wf(),
    ensures
        match res {
            Some(w) => w.wf() && w.stepper.doc.deep_view() == ctx.doc.deep_view() && caret_step(
                ctx.doc.deep_view(),
                ctx.client_id@,
                focus,
                w.steps@,
            ) && !no_caret(ctx.doc.deep_view(), ctx.client_id@, focus),
            None => no_caret(ctx.doc.deep_view(), ctx.client_id@, focus),
        },
{
    let position = if focus {
        Pos::Focus
    } else {
        Pos::Anchor
    };
    match ctx.get_walker(position) {
        Ok(w) => {
            proof {
                assert(walk_reaches(ctx.doc.deep_view(), w.steps@));
            }
            Some(w)
        },
        Err(_) => None,
    }
}

/// Deletes the first caret of the client of the kind that `focus` names,
/// or does nothing where the document holds none.
pub fn caret_clear_or_pass(ctx: &ActionContext, focus: bool) -> (res: Op)
    requires
        ctx.wf(),
    ensures
        clears_or_passes(
            ctx.doc.deep_view(),
            ctx.client_id@,
            focus,
            (res.0.deep_view(), res.1.deep_view()),
        ),
{
    match caret_walker(ctx, focus) {
        Some(walker) => {
            let op = caret_clear_at(&walker);
            proof {
                assert((op.0.deep_view(), op.1.deep_view()) == caret_clear_spec(walker));
            }
            op
        },
        None => {
            let res: Op = (Vec::new(), Vec::new());
            proof {
                assert(res.0.deep_view() =~= Seq::<DelNode>::empty());
                assert(res.1.deep_view() =~= Seq::<AddNode>::empty());
            }
            res
        },
    }
}

/// Whether `pos` names the focus.
pub open spec fn names_focus(pos: Pos) -> bool {
    pos == Pos::Focus
}

/// The two operations of which the move of a caret to the place of a
/// cursor is made, each written for the document as it is: the removal of
/// the caret, which is empty where there is none, and the insertion of a
/// caret of its kind at the cursor's place. To carry out the second
/// behind the first, it has to be taken through the first.
pub fn cur_to_caret_steps(ctx: &ActionContext, cur: &CurSpan, pos: Pos) -> (res: (Op, Op))
    requires
        ctx.wf(),
        cursor_ok(ctx.doc.deep_view(), start_place(), cur.deep_view()),
    ensures
        clears_or_passes(
            ctx.doc.deep_view(),
            ctx.client_id@,
            names_focus(pos),
            (res.0.0.deep_view(), res.0.1.deep_view()),
        ),
        exists|w: Walker|
            w.wf() && w.stepper.doc.deep_view() == ctx.doc.deep_view() && w.stepper.place()
                == cursor_place(ctx.doc.deep_view(), start_place(), cur.deep_view()) && (
            res.1.0.deep_view(),
            res.1.1.deep_view(),
        ) == #[trigger] caret_insert_spec(w, ctx.client_id@, names_focus(pos)),
{
    let focus = match pos {
        Pos::Focus => true,
        Pos::Anchor => false,
    };
    let clear = caret_clear_or_pass(ctx, focus);
    let walker = Walker::to_cursor(&ctx.doc, cur);
    let insert = caret_insert_inner(&walker, ctx.client_id.as_str(), focus);
    proof {
        assert(focus == names_focus(pos));
        assert((insert.0.deep_view(), insert.1.deep_view()) == caret_insert_spec(
            walker,
            ctx.client_id@,
            names_focus(pos),
        ));
    }
    (clear, insert)
}

/// The four operations of which the selection of the whole document is
/// made, each written for the document as it is: the removal of the focus
/// and that of the anchor, each empty where there is no such caret; the
/// insertion of the anchor at the first place at which a caret can stand,
/// or at the end of the document where there is none; and the insertion
/// of the focus at the last such place. To carry them out one behind the
/// other, each has to be taken through those before it.
pub fn caret_select_all_steps(ctx: &ActionContext) -> (res: ((Op, Op), (Op, Op)))
    requires
        ctx.wf(),
    ensures
        clears_or_passes(
            ctx.doc.deep_view(),
            ctx.client_id@,
            true,
            (res.0.0.0.deep_view(), res.0.0.1.deep_view()),
        ),
        clears_or_passes(
            ctx.doc.deep_view(),
            ctx.client_id@,
            false,
            (res.0.1.0.deep_view(), res.0.1.1.deep_view()),
        ),
        exists|w: Walker|
            w.wf() && w.stepper.doc.deep_view() == ctx.doc.deep_view() && (forall|k: nat|
                k < w.steps@ ==> caret_at(ctx.doc.deep_view(), k) != 0) && (w.caret_pos == 0
                || walk_next(ctx.doc.deep_view(), w.stepper.place()) is None) && (
            res.1.0.0.deep_view(),
            res.1.0.1.deep_view(),
        ) == #[trigger] caret_insert_spec(w, ctx.client_id@, false),
        exists|w: Walker|
            w.wf() && w.stepper.doc.deep_view() == ctx.doc.deep_view() && (w.steps@ == 0
                || place_valid(ctx.doc.deep_view(), w.stepper.place())) && (forall|k: nat|
                w.steps@ < k && walk_reaches(ctx.doc.deep_view(), k) ==> !place_valid(
                    ctx.doc.deep_view(),
                    place_at(ctx.doc.deep_view(), k),
                )) && (res.1.1.0.deep_view(), res.1.1.1.deep_view()) == #[trigger] caret_insert_spec(
                w,
                ctx.client_id@,
                true,
            ),
{
    let focus_clear = caret_clear_or_pass(ctx, true);
    let anchor_clear = caret_clear_or_pass(ctx, false);
    let mut start = Walker::new(&ctx.doc);
    let _ = start.goto_pos(0);
    let anchor = caret_insert_inner(&start, ctx.client_id.as_str(), false);
    let mut end = Walker::new(&ctx.doc);
    end.goto_end();
    let focus = caret_insert_inner(&end, ctx.client_id.as_str(), true);
    proof {
        assert((anchor.0.deep_view(), anchor.1.deep_view()) == caret_insert_spec(
            start,
            ctx.client_id@,
            false,
        ));
        assert((focus.0.deep_view(), focus.1.deep_view()) == caret_insert_spec(
            end,
            ctx.client_id@,
            true,
        ));
    }
    ((focus_clear, anchor_clear), (anchor, focus))
}

/// Whether a block starts in `doc` somewhere before the focus of the
/// client `client`.
pub open spec fn block_before_caret(doc: Seq<DocNode>, client: Seq<char>) -> bool {
    exists|n: nat, k: nat|
        #![trigger caret_step(doc, client, true, n), place_at(doc, k)]
        k < n && caret_step(doc, client, true, n) && at_block_start(doc, place_at(doc, k))
}

/// Whether no block starts in `doc` at a step between `from` and `to`,
/// the two left out.
pub open spec fn no_block_between(doc: Seq<DocNode>, from: nat, to: nat) -> bool {
    forall|k: nat| from < k < to ==> !at_block_start(doc, #[trigger] place_at(doc, k))
}

/// Whether the step `m` is where a move by blocks from the step `n`
/// ends. Forward, it is the start of the next block. Backward, it is the
/// start of the block before the one that starts nearest before `n`, or
/// the start of that one where none starts before it.
pub open spec fn block_move_target(doc: Seq<DocNode>, n: nat, increase: bool, m: nat) -> bool {
    &&& walk_reaches(doc, m)
    &&& at_block_start(doc, place_at(doc, m))
    &&& if increase {
        n < m && no_block_between(doc, n, m)
    } else {
        exists|j: nat|
            m <= j < n && at_block_start(doc, #[trigger] place_at(doc, j)) && no_block_between(
                doc,
                j,
                n,
            ) && no_block_between(doc, m, j) && (m == j ==> forall|k: nat|
                k < j ==> !at_block_start(doc, #[trigger] place_at(doc, k)))
    }
}

/// Whether no block starts in `doc` behind the step `n`.
pub open spec fn no_block_behind(doc: Seq<DocNode>, n: nat) -> bool {
    forall|k: nat|
        n < k && #[trigger] walk_reaches(doc, k) ==> !at_block_start(doc, place_at(doc, k))
}

/// The two operations of which the move of the carets of a client to the
/// start of a block is made, each written for the document as it is: the
/// removal of the focus, and the insertion of anchor and focus at the
/// start of the next block or, backward, of the block before the one that
/// the focus stands in. There is nothing to do where no block follows.
/// The document holds the focus, and for a move backward a block starts
/// before it. To carry out the second operation behind the first, it has
/// to be taken through the first.
pub fn caret_block_move_steps(ctx: &ActionContext, increase: bool) -> (res: Option<(Op, Op)>)
    requires
        ctx.wf(),
        !no_caret(ctx.doc.deep_view(), ctx.client_id@, true),
        !increase ==> block_before_caret(ctx.doc.deep_view(), ctx.client_id@),
    ensures
        match res {
            None => increase && exists|n: nat|
                #[trigger] caret_step(ctx.doc.deep_view(), ctx.client_id@, true, n)
                    && no_block_behind(ctx.doc.deep_view(), n),
            Some(ops) => clears_caret(
                ctx.doc.deep_view(),
                ctx.client_id@,
                true,
                (ops.0.0.deep_view(), ops.0.1.deep_view()),
            ) && exists|n: nat, w: Walker|
                #![trigger caret_step(ctx.doc.deep_view(), ctx.client_id@, true, n), caret_pair_spec(w, ctx.client_id@)]
                caret_step(ctx.doc.deep_view(), ctx.client_id@, true, n) && w.wf()
                    && w.stepper.doc.deep_view() == ctx.doc.deep_view() && block_move_target(
                    ctx.doc.deep_view(),
                    n,
                    increase,
                    w.steps@,
                ) && (ops.1.0.deep_view(), ops.1.1.deep_view()) == caret_pair_spec(
                    w,
                    ctx.client_id@,
                ),
        },
{
    let ghost doc = ctx.doc.deep_view();
    let ghost client = ctx.client_id@;
    let mut walker = match caret_walker(ctx, true) {
        Some(w) => w,
        None => {
            proof {
                assert(false);
            }
            return None;
        },
    };
    let ghost w0 = walker;
    let ghost n = walker.steps@;
    let clear = caret_clear_at(&walker);
    proof {
        assert((clear.0.deep_view(), clear.1.deep_view()) == caret_clear_spec(w0));
    }
    if increase {
        if !walker.next_block() {
            proof {
                assert(caret_step(doc, client, true, n));
                assert(no_block_behind(doc, n));
            }
            return None;
        }
        proof {
            assert(walk_reaches(doc, walker.steps@));
            assert(no_block_between(doc, n, walker.steps@));
        }
    } else {
        let first = walker.back_block();
        proof {
            if !first {
                let (n1, k1) = choose|n1: nat, k1: nat|
                    #![trigger caret_step(doc, client, true, n1), place_at(doc, k1)]
                    k1 < n1 && caret_step(doc, client, true, n1) && at_block_start(
                        doc,
                        place_at(doc, k1),
                    );
                if n1 < n {
                    assert(!at_caret(doc, place_at(doc, n1), client, true));
                }
                if n < n1 {
                    assert(!at_caret(doc, place_at(doc, n), client, true));
                }
                assert(n1 == n);
                assert(!at_block_start(doc, place_at(doc, k1)));
            }
        }
        let ghost j = walker.steps@;
        let _ = walker.back_block();
        proof {
            let m = walker.steps@;
            assert(walk_reaches(doc, m));
            assert(no_block_between(doc, j, n));
            assert(no_block_between(doc, m, j));
            assert(m <= j < n && at_block_start(doc, place_at(doc, j)));
        }
    }
    let insert = caret_pair_inner(&walker, ctx.client_id.as_str());
    proof {
        assert(caret_step(doc, client, true, n));
        assert(block_move_target(doc, n, increase, walker.steps@));
        assert((insert.0.deep_view(), insert.1.deep_view()) == caret_pair_spec(walker, client));
    }
    Some((clear, insert))
}

/// Whether the step `m` is where a move by one caret position from the
/// step `n` ends: the nearest step in the direction of the move at which
/// the caret position is one more or one less, and at which, backward, a
/// caret can stand; or `n` itself where there is no such step.
pub open spec fn char_move_target(doc: Seq<DocNode>, n: nat, increase: bool, m: nat) -> bool {
    let from = caret_at(doc, n);
    if increase {
        if m == n {
            forall|k: nat| n < k && #[trigger] walk_reaches(doc, k) ==> caret_at(doc, k) != from + 1
        } else {
            n < m && caret_at(doc, m) == from + 1 && forall|k: nat|
                n < k < m ==> #[trigger] caret_at(doc, k) != from + 1
        }
    } else {
        if m == n {
            forall|k: nat|
                k < n ==> !(#[trigger] caret_at(doc, k) == from - 1 && place_valid(
                    doc,
                    place_at(doc, k),
                ))
        } else {
            m < n && caret_at(doc, m) == from - 1 && place_valid(doc, place_at(doc, m))
                && forall|k: nat|
                m < k < n ==> !(#[trigger] caret_at(doc, k) == from - 1 && place_valid(
                    doc,
                    place_at(doc, k),
                ))
        }
    }
}

/// The operation that a move of the focus inserts at the walker's place:
/// the focus alone where the selection is kept, else the anchor and then
/// the focus.
pub open spec fn caret_move_insert_spec(walker: Walker, client: Seq<char>, keep: bool) -> (
    Seq<DelNode>,
    Seq<AddNode>,
) {
    if keep {
        caret_insert_spec(walker, client, true)
    } else {
        caret_pair_spec(walker, client)
    }
}

/// The two operations of which the move of the focus of a client by one
/// caret position is made, each written for the document as it is: the
/// removal of the focus, and the insertion of the focus one position
/// further, or where it was if it cannot go further. Where the selection
/// is not kept, the anchor is inserted with the focus; the document is
/// then one from which the anchor has been removed. There is an error
/// where the document holds no focus of the client. To carry out the
/// second operation behind the first, it has to be taken through the
/// first.
pub fn caret_move_steps(ctx: &ActionContext, increase: bool, preserve_select: bool) -> (res: Result<
    (Op, Op),
    CaretError,
>)
    requires
        ctx.wf(),
    ensures
        match res {
            Err(e) => e == CaretError::NoCaret && no_caret(
                ctx.doc.deep_view(),
                ctx.client_id@,
                true,
            ),
            Ok(ops) => clears_caret(
                ctx.doc.deep_view(),
                ctx.client_id@,
                true,
                (ops.0.0.deep_view(), ops.0.1.deep_view()),
            ) && exists|n: nat, w: Walker|
                #![trigger caret_step(ctx.doc.deep_view(), ctx.client_id@, true, n), caret_move_insert_spec(w, ctx.client_id@, preserve_select)]
                caret_step(ctx.doc.deep_view(), ctx.client_id@, true, n) && w.wf()
                    && w.stepper.doc.deep_view() == ctx.doc.deep_view() && char_move_target(
                    ctx.doc.deep_view(),
                    n,
                    increase,
                    w.steps@,
                ) && (ops.1.0.deep_view(), ops.1.1.deep_view()) == caret_move_insert_spec(
                    w,
                    ctx.client_id@,
                    preserve_select,
                ),
        },
{
    let ghost doc = ctx.doc.deep_view();
    let ghost client = ctx.client_id@;
    let mut walker = match caret_walker(ctx, true) {
        Some(w) => w,
        None => {
            return Err(CaretError::NoCaret);
        },
    };
    let ghost w0 = walker;
    let ghost n = walker.steps@;
    let clear = caret_clear_at(&walker);
    proof {
        assert((clear.0.deep_view(), clear.1.deep_view()) == caret_clear_spec(w0));
    }
    if increase {
        let _ = walker.next_char();
    } else {
        let _ = walker.back_char();
    }
    let insert = if preserve_select {
        caret_insert_inner(&walker, ctx.client_id.as_str(), true)
    } else {
        caret_pair_inner(&walker, ctx.client_id.as_str())
    };
    proof {
        assert(caret_step(doc, client, true, n));
        assert(char_move_target(doc, n, increase, walker.steps@));
        assert((insert.0.deep_view(), insert.1.deep_view()) == caret_move_insert_spec(
            walker,
            client,
            preserve_select,
        ));
    }
    Ok((clear, insert))
}

} // verus!
