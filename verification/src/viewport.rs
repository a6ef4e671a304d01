//! Which rows of a pane show: its top row, clamped to the text, moved by
//! half pages, and following the cursor so that it stays in view.
use vstd::prelude::*;

verus! {

pub open spec fn saturating_sub(a: int, b: int) -> int {
    if a > b {
        a - b
    } else {
        0
    }
}

pub open spec fn min(a: int, b: int) -> int {
    if a < b {
        a
    } else {
        b
    }
}

/// The top row after the cursor moved to `row` in a pane `rows` rows high:
/// unchanged while the row shows, the row itself when it went above, and
/// the row at the bottom when it went below.
pub open spec fn spec_follow_top(top: int, row: int, rows: int) -> int {
    if row < top {
        row
    } else if row >= top + rows {
        saturating_sub(row, saturating_sub(rows, 1))
    } else {
        top
    }
}

pub fn follow_top(top: usize, row: usize, rows: usize) -> (r: usize)
    ensures
        r == spec_follow_top(top as int, row as int, rows as int),
{
    if row < top {
        row
    } else if row - top >= rows {
        let keep = if rows > 0 {
            rows - 1
        } else {
            0
        };
        if row > keep {
            row - keep
        } else {
            0
        }
    } else {
        top
    }
}

/// A pane at least one row high shows the cursor once its top follows it.
pub proof fn law_cursor_stays_in_view(top: int, row: int, rows: int)
    requires
        0 <= top,
        0 <= row,
        rows >= 1,
    ensures
        spec_follow_top(top, row, rows) <= row < spec_follow_top(top, row, rows) + rows,
{
}

/// The top row kept within a text of `count` lines.
pub fn clamp_top(top: usize, count: usize) -> (r: usize)
    requires
        count >= 1,
    ensures
        r == min(top as int, count - 1),
{
    if top < count - 1 {
        top
    } else {
        count - 1
    }
}

/// The top row after scrolling half a page of `rows` rows down (stopping
/// at the last of `count` lines) or up (stopping at the first).
pub fn half_page_top(top: usize, rows: usize, down: bool, count: usize) -> (r: usize)
    requires
        count >= 1,
    ensures
        r == (if down {
            min(min(top + rows, usize::MAX as int), count - 1)
        } else {
            saturating_sub(top as int, rows as int)
        }),
{
    if down {
        clamp_top(top.saturating_add(rows), count)
    } else {
        top.saturating_sub(rows)
    }
}

/// The row a typed line number `n` (counted from one) goes to in a text
/// of `count` lines: line 0 is the first, and past the end is the last.
pub fn line_number_row(n: usize, count: usize) -> (r: usize)
    requires
        count >= 1,
    ensures
        r == min(saturating_sub(n as int, 1), count - 1),
{
    clamp_top(n.saturating_sub(1), count)
}

} // verus!
