//! Areas of the screen.

use vstd::prelude::*;

verus! {

/// An area of the screen, in columns and rows.
#[derive(Clone, Copy, Debug, PartialEq, Eq, Structural)]
pub struct Rect {
    pub x: u16,
    pub y: u16,
    pub width: u16,
    pub height: u16,
}

/// The sum, or the largest number of 16 bits.
pub open spec fn capped_sum(a: u16, b: u16) -> int {
    if a + b > u16::MAX {
        u16::MAX as int
    } else {
        a + b
    }
}

impl Rect {
    /// The column right of the area.
    pub open spec fn right_edge(self) -> int {
        capped_sum(self.x, self.width)
    }

    /// The row below the area.
    pub open spec fn bottom_edge(self) -> int {
        capped_sum(self.y, self.height)
    }

    /// Whether the cell at `column` and `row` is in the area.
    pub open spec fn holds(self, column: u16, row: u16) -> bool {
        self.x <= column < self.right_edge() && self.y <= row < self.bottom_edge()
    }

    pub fn new(x: u16, y: u16, width: u16, height: u16) -> (rect: Rect)
        ensures
            rect == (Rect { x, y, width, height }),
    {
        Rect { x, y, width, height }
    }

    pub fn left(self) -> (left: u16)
        ensures
            left == self.x,
    {
        self.x
    }

    pub fn right(self) -> (right: u16)
        ensures
            right == self.right_edge(),
    {
        self.x.saturating_add(self.width)
    }

    pub fn top(self) -> (top: u16)
        ensures
            top == self.y,
    {
        self.y
    }

    pub fn bottom(self) -> (bottom: u16)
        ensures
            bottom == self.bottom_edge(),
    {
        self.y.saturating_add(self.height)
    }

    /// Whether the cell at `column` and `row` is in the area.
    pub fn contains(self, column: u16, row: u16) -> (contains: bool)
        ensures
            contains == self.holds(column, row),
    {
        self.left() <= column && column < self.right() && self.top() <= row && row < self.bottom()
    }
}

impl Default for Rect {
    fn default() -> (rect: Rect)
        ensures
            rect == (Rect { x: 0, y: 0, width: 0, height: 0 }),
    {
        Rect { x: 0, y: 0, width: 0, height: 0 }
    }
}

/// An area holds the cells from its first column and row on, as many as it is wide and high.
pub proof fn law_areas_hold_their_cells(area: Rect, column: u16, row: u16)
    requires
        area.x + area.width <= u16::MAX,
        area.y + area.height <= u16::MAX,
    ensures
        area.holds(column, row) <==> area.x <= column < area.x + area.width && area.y <= row
            < area.y + area.height,
        area.right_edge() == area.x + area.width,
        area.bottom_edge() == area.y + area.height,
{
}

} // verus!
