//! The viewport: which task is selected, and where the visible window
//! starts. Both are positions in the list, kept across rebuilds of the
//! list by position and brought back into range after each one.

use vstd::prelude::*;

verus! {

/// The selection after a step up: one less, and 0 stays.
pub open spec fn moved_up(selected: nat) -> nat {
    if selected > 0 {
        (selected - 1) as nat
    } else {
        0
    }
}

/// The selection after a step down in a list of `len` tasks: one more,
/// but never past the last task. An empty list leaves it as it is.
pub open spec fn moved_down(selected: nat, len: nat) -> nat {
    if len == 0 {
        selected
    } else if selected + 1 < len {
        selected + 1
    } else {
        (len - 1) as nat
    }
}

/// The selection after the list was rebuilt with `len` tasks: unchanged
/// where it still names a task, else the last task, and 0 for an empty list.
pub open spec fn clamped(selected: nat, len: nat) -> nat {
    if len == 0 {
        0
    } else if selected >= len {
        (len - 1) as nat
    } else {
        selected
    }
}

/// The start of the window after it followed the selection: moved by the
/// least amount that brings the selected row into a window of
/// `visible_rows` rows. Without visible rows nothing moves down.
pub open spec fn scrolled(selected: nat, scroll: nat, visible_rows: nat) -> nat {
    if selected < scroll {
        selected
    } else if visible_rows > 0 && selected >= scroll + visible_rows {
        (selected - visible_rows + 1) as nat
    } else {
        scroll
    }
}

/// Computes `moved_up`.
pub fn move_up(selected: usize) -> (r: usize)
    ensures
        r == moved_up(selected as nat),
{
    if selected > 0 {
        selected - 1
    } else {
        0
    }
}

/// Computes `moved_down`.
pub fn move_down(selected: usize, len: usize) -> (r: usize)
    ensures
        r == moved_down(selected as nat, len as nat),
{
    if len == 0 {
        selected
    } else if selected < len - 1 {
        selected + 1
    } else {
        len - 1
    }
}

/// Computes `clamped`.
pub fn clamp_selection(selected: usize, len: usize) -> (r: usize)
    ensures
        r == clamped(selected as nat, len as nat),
{
    if len == 0 {
        0
    } else if selected >= len {
        len - 1
    } else {
        selected
    }
}

/// Computes `scrolled`.
pub fn scroll_to_selection(selected: usize, scroll: usize, visible_rows: usize) -> (r: usize)
    ensures
        r == scrolled(selected as nat, scroll as nat, visible_rows as nat),
{
    if selected < scroll {
        selected
    } else if visible_rows > 0 && selected - scroll >= visible_rows {
        selected - visible_rows + 1
    } else {
        scroll
    }
}

/// A viewport over a list of `len` tasks.
pub struct Viewport {
    pub selected: nat,
    pub scroll: nat,
    pub len: nat,
}

/// What can happen to a viewport.
pub enum ViewportOp {
    MoveUp,
    MoveDown,
    /// The list was rebuilt and now has `len` tasks.
    Rebuild { len: nat },
    /// A frame with room for `visible_rows` tasks was drawn.
    Render { visible_rows: nat },
}

/// The viewport after one operation.
pub open spec fn step(v: Viewport, op: ViewportOp) -> Viewport {
    match op {
        ViewportOp::MoveUp => Viewport { selected: moved_up(v.selected), ..v },
        ViewportOp::MoveDown => Viewport { selected: moved_down(v.selected, v.len), ..v },
        ViewportOp::Rebuild { len } => Viewport { selected: clamped(v.selected, len), len, ..v },
        ViewportOp::Render { visible_rows } => Viewport {
            scroll: scrolled(v.selected, v.scroll, visible_rows),
            ..v
        },
    }
}

/// The viewport after a sequence of operations, the first one first.
pub open spec fn run(v: Viewport, ops: Seq<ViewportOp>) -> Viewport
    decreases ops.len(),
{
    if ops.len() == 0 {
        v
    } else {
        step(run(v, ops.drop_last()), ops.last())
    }
}

/// The selection names a task of the list, or is 0 in an empty list.
pub open spec fn selection_valid(v: Viewport) -> bool {
    if v.len == 0 {
        v.selected == 0
    } else {
        v.selected < v.len
    }
}

/// The selected row lies in the window of `visible_rows` rows.
pub open spec fn selection_visible(v: Viewport, visible_rows: nat) -> bool {
    v.scroll <= v.selected < v.scroll + visible_rows
}

/// No operation makes a valid selection invalid, and a rebuild makes any
/// selection valid.
pub proof fn lemma_step_keeps_selection_valid(v: Viewport, op: ViewportOp)
    ensures
        selection_valid(v) ==> selection_valid(step(v, op)),
        op is Rebuild ==> selection_valid(step(v, op)),
{
}

/// A valid selection stays valid through any sequence of moves, rebuilds
/// and renders.
pub proof fn lemma_run_keeps_selection_valid(v: Viewport, ops: Seq<ViewportOp>)
    requires
        selection_valid(v),
    ensures
        selection_valid(run(v, ops)),
    decreases ops.len(),
{
    if ops.len() > 0 {
        lemma_run_keeps_selection_valid(v, ops.drop_last());
        lemma_step_keeps_selection_valid(run(v, ops.drop_last()), ops.last());
    }
}

/// Whatever happened before, in whatever state: once a frame with at
/// least one visible row has been drawn, the selected row lies in the
/// window, and the selection itself is as it was before the frame.
pub proof fn lemma_render_shows_selection(v: Viewport, ops: Seq<ViewportOp>, visible_rows: nat)
    requires
        visible_rows > 0,
    ensures
        selection_visible(
            step(run(v, ops), ViewportOp::Render { visible_rows }),
            visible_rows,
        ),
        step(run(v, ops), ViewportOp::Render { visible_rows }).selected == run(v, ops).selected,
        step(run(v, ops), ViewportOp::Render { visible_rows }).len == run(v, ops).len,
{
}

/// The window moves by the least amount: it stays where it is when the
/// selected row is visible already, and else the selected row becomes
/// its first or its last row.
pub proof fn lemma_scroll_is_minimal(selected: nat, scroll: nat, visible_rows: nat)
    requires
        visible_rows > 0,
    ensures
        scroll <= selected < scroll + visible_rows ==> scrolled(selected, scroll, visible_rows)
            == scroll,
        selected < scroll ==> scrolled(selected, scroll, visible_rows) == selected,
        selected >= scroll + visible_rows ==> scrolled(selected, scroll, visible_rows)
            + visible_rows == selected + 1,
{
}

} // verus!
