//! The mouse in the rows and on the rail of a workspace.

use crate::rect::Rect;
use crate::rows::RowView;
use crate::viewport::{
    capacity, clamp, clamped, last_start, max_start, pinned, pinned_rows, rail_offset, room, thumb,
};
use crate::scrollbar::{product, thumb_height, thumb_start};
use crate::workspace::{at_least_one, Workspace};
use std::ops::Range;
use vstd::prelude::*;

verus! {

/// The ordinary row drawn on the screen row `row`, when `area` shows the rows from `start` on.
pub open spec fn row_drawn_at(rows: Seq<RowView>, start: int, area: Rect, row: u16) -> Option<int> {
    let offset = row - area.y;
    let above = pinned_rows(rows, start, area.height as int).len();
    if area.y <= row < area.bottom_edge() && offset >= above && start + offset - above < rows.len() {
        Some(start + offset - above)
    } else {
        None
    }
}

/// The screen rows of the thumb, when `area` shows the rows from `start` on.
pub open spec fn thumb_drawn(rows: Seq<RowView>, start: int, area: Rect) -> Option<(int, int)> {
    if rows.len() <= area.height {
        None
    } else {
        let offset = rail_offset(rows, start, area.height as int);
        let top = area.y + thumb_start(rows.len() as int, area.height as int, offset);
        Some((top, top + thumb_height(rows.len() as int, area.height as int)))
    }
}

/// The start that puts a thumb that can travel `travel` rows `offset` rows down, when the last start
/// is `last`.
pub open spec fn dragged_start(offset: int, travel: int, last: int) -> int {
    (offset * last + travel / 2) / travel
}

/// How far down the thumb goes when it is held `grab` rows below its top on the screen row `row`.
pub open spec fn dragged_offset(area: Rect, row: u16, grab: int, travel: int) -> int {
    let below = if row < area.y {
        0
    } else {
        row - area.y
    };
    let offset = if below < grab {
        0
    } else {
        below - grab
    };
    if offset < travel {
        offset
    } else {
        travel
    }
}

/// Dragging the thumb all the way up or down reaches the first or the last start, and nothing past
/// it.
pub proof fn law_dragging_spans_the_rows(offset: int, travel: int, last: int)
    requires
        0 < travel,
        0 <= offset <= travel,
        0 <= last,
    ensures
        0 <= dragged_start(offset, travel, last) <= last,
        dragged_start(0, travel, last) == 0,
        dragged_start(travel, travel, last) == last,
{
    let half = travel / 2;
    assert(0 <= offset * last <= travel * last) by (nonlinear_arith)
        requires
            0 <= offset <= travel,
            0 <= last,
    ;
    assert((travel * last + half) / travel == last) by (nonlinear_arith)
        requires
            0 < travel,
            0 <= half < travel,
            0 <= last,
    ;
    assert(0 * last == 0) by (nonlinear_arith);
    assert((0 + half) / travel == 0) by (nonlinear_arith)
        requires
            0 < travel,
            0 <= half < travel,
    ;
    assert(0 <= (offset * last + half) / travel <= (travel * last + half) / travel)
        by (nonlinear_arith)
        requires
            0 < travel,
            0 <= half,
            0 <= offset * last <= travel * last,
    ;
}

impl Workspace {
    /// The drawn area lies on the screen.
    pub open spec fn drawn(&self) -> bool {
        &&& self.wf()
        &&& self.rows_area.y + self.rows_area.height <= u16::MAX
    }

    /// Where dragging the thumb scrolls to.
    pub open spec fn dragged_to(&self, row: u16, grab: usize) -> int {
        let height = self.rows_area.height as int;
        match thumb_drawn(self.rows@, self.drawn_start as int, self.rows_area) {
            Some((top, bottom)) => {
                let travel = height - (bottom - top);
                if travel == 0 {
                    self.start as int
                } else {
                    dragged_start(
                        dragged_offset(self.rows_area, row, grab as int, travel),
                        travel,
                        last_start(self.rows@, height),
                    )
                }
            },
            None => self.start as int,
        }
    }

    /// Where pressing the track scrolls to.
    pub open spec fn paged_to(&self, row: u16) -> int {
        let height = self.rows_area.height as int;
        let page = at_least_one(room(self.rows@, self.start as int, height));
        match thumb_drawn(self.rows@, self.drawn_start as int, self.rows_area) {
            Some((top, bottom)) => clamped(
                self.rows@,
                if row < top {
                    if self.start < page {
                        0
                    } else {
                        self.start - page
                    }
                } else if row >= bottom {
                    self.start + page
                } else {
                    self.start as int
                },
                height,
            ),
            None => self.start as int,
        }
    }

    /// Where the wheel scrolls to.
    pub open spec fn scrolled_to(&self, lines: usize, down: bool) -> int {
        clamped(
            self.rows@,
            if down {
                self.start + lines
            } else if self.start < lines {
                0
            } else {
                self.start - lines
            },
            self.rows_area.height as int,
        )
    }

    /// The ordinary row drawn on the screen row `row`. Pinned rows and blank space have none.
    pub fn row_at(&self, row: u16) -> (index: Option<usize>)
        requires
            self.wf(),
        ensures
            match index {
                Some(index) => row_drawn_at(
                    self.rows@,
                    self.drawn_start as int,
                    self.rows_area,
                    row,
                ) == Some(index as int),
                None => row_drawn_at(
                    self.rows@,
                    self.drawn_start as int,
                    self.rows_area,
                    row,
                ) is None,
            },
    {
        let area: Rect = self.rows_area;
        if row < area.top() || row >= area.bottom() {
            return None;
        }
        let offset: usize = (row - area.top()) as usize;
        let above: usize = pinned(&self.rows, self.drawn_start, area.height as usize).len();
        let len: usize = self.rows.len();
        if offset < above || self.drawn_start >= len || offset - above >= len - self.drawn_start {
            return None;
        }
        Some(self.drawn_start + (offset - above))
    }

    /// The screen rows of the rail's thumb, if the rows do not fit.
    pub fn thumb(&self) -> (rows: Option<Range<u16>>)
        requires
            self.drawn(),
        ensures
            match rows {
                Some(rows) => thumb_drawn(
                    self.rows@,
                    self.drawn_start as int,
                    self.rows_area,
                ) == Some((rows.start as int, rows.end as int)) && self.rows_area.y <= rows.start
                    <= rows.end <= self.rows_area.y + self.rows_area.height,
                None => thumb_drawn(self.rows@, self.drawn_start as int, self.rows_area) is None,
            },
    {
        let area: Rect = self.rows_area;
        match thumb(&self.rows, self.drawn_start, area.height as usize) {
            Some(covered) => {
                proof {
                    crate::scrollbar::lemma_thumb_height(
                        self.rows@.len() as int,
                        area.height as int,
                    );
                    lemma_thumb_end(self.rows@, self.drawn_start as int, area.height as int);
                }
                Some(area.top() + covered.start as u16..area.top() + covered.end as u16)
            },
            None => None,
        }
    }

    /// Scrolls so that the thumb, held `grab` rows below its top, is at the screen row `row`.
    pub fn drag_thumb(&mut self, row: u16, grab: usize)
        requires
            old(self).drawn(),
        ensures
            *final(self) == (Workspace { start: final(self).start, ..*old(self) }),
            final(self).start == old(self).dragged_to(row, grab),
    {
        let covered: Range<u16> = match self.thumb() {
            Some(covered) => covered,
            None => {
                return ;
            },
        };
        let height: usize = self.rows_area.height as usize;
        let travel: usize = height - (covered.end - covered.start) as usize;
        if travel == 0 {
            return ;
        }
        let below: usize = if row < self.rows_area.top() {
            0
        } else {
            (row - self.rows_area.top()) as usize
        };
        let held: usize = if below < grab {
            0
        } else {
            below - grab
        };
        let offset: usize = if held < travel {
            held
        } else {
            travel
        };
        let last: usize = max_start(&self.rows, height);
        let len: usize = self.rows.len();
        proof {
            lemma_last_below_len(self.rows@, height as int);
            assert(offset * last <= travel * last && (offset * last + travel / 2) / travel as int
                <= last)
                by (nonlinear_arith)
                requires
                    0 <= offset <= travel,
                    0 < travel,
                    0 <= last,
            ;
            assert(0 <= offset * last) by (nonlinear_arith)
                requires
                    0 <= offset,
                    0 <= last,
            ;
            assert(offset * last <= 0xffff * 0xffff_ffff_ffff_ffff) by (nonlinear_arith)
                requires
                    0 <= offset <= 0xffff,
                    0 <= last <= 0xffff_ffff_ffff_ffff,
            ;
        }
        let scaled: u128 = product(offset, last) + (travel / 2) as u128;
        self.start = (scaled / travel as u128) as usize;
    }

    /// Scrolls a page towards the screen row `row` of the rail's track.
    pub fn page_towards(&mut self, row: u16)
        requires
            old(self).drawn(),
        ensures
            *final(self) == (Workspace { start: final(self).start, ..*old(self) }),
            final(self).start == old(self).paged_to(row),
    {
        let covered: Range<u16> = match self.thumb() {
            Some(covered) => covered,
            None => {
                return ;
            },
        };
        let height: usize = self.rows_area.height as usize;
        let len: usize = self.rows.len();
        proof {
            lemma_last_at_most_len(self.rows@, height as int);
        }
        let capacity: usize = capacity(&self.rows, self.start, height);
        let page: usize = if capacity < 1 {
            1
        } else {
            capacity
        };
        if row < covered.start {
            self.start = self.start.saturating_sub(page);
        } else if row >= covered.end {
            self.start = self.start.saturating_add(page);
        }
        self.clamp_start();
    }

    /// Scrolls `lines` rows down or up.
    pub fn scroll(&mut self, lines: usize, down: bool)
        requires
            old(self).wf(),
        ensures
            *final(self) == (Workspace { start: final(self).start, ..*old(self) }),
            final(self).start == old(self).scrolled_to(lines, down),
    {
        proof {
            lemma_last_at_most_len(self.rows@, self.rows_area.height as int);
        }
        let len: usize = self.rows.len();
        self.start = if down {
            self.start.saturating_add(lines)
        } else {
            self.start.saturating_sub(lines)
        };
        self.clamp_start();
    }

    fn clamp_start(&mut self)
        requires
            old(self).rows.wf(),
        ensures
            *final(self) == (Workspace { start: final(self).start, ..*old(self) }),
            final(self).start == clamped(
                old(self).rows@,
                old(self).start as int,
                old(self).rows_area.height as int,
            ),
    {
        self.start = clamp(&self.rows, self.start, self.rows_area.height as usize);
    }
}

proof fn lemma_thumb_end(rows: Seq<RowView>, start: int, height: int)
    requires
        0 <= height < rows.len(),
        0 <= start,
    ensures
        ({
            let offset = rail_offset(rows, start, height);
            let top = thumb_start(rows.len() as int, height, offset);
            0 <= top && top + thumb_height(rows.len() as int, height) <= height
        }),
{
    crate::viewport::lemma_start_bound(rows, height, rows.len() - height);
    crate::viewport::lemma_rail_offset(rows, start, height);
    crate::scrollbar::lemma_thumb_start(
        rows.len() as int,
        height,
        rail_offset(rows, start, height),
    );
}

proof fn lemma_last_at_most_len(rows: Seq<RowView>, height: int)
    requires
        0 <= height,
    ensures
        0 <= last_start(rows, height) <= rows.len(),
{
    crate::viewport::lemma_start_bound(
        rows,
        height,
        if rows.len() < height {
            0
        } else {
            rows.len() - height
        },
    );
}

proof fn lemma_last_below_len(rows: Seq<RowView>, height: int)
    requires
        0 < height,
        0 < rows.len(),
    ensures
        0 <= last_start(rows, height) < rows.len(),
{
    crate::viewport::law_last_start_shows_the_last_row(rows, height);
}

/// A row is found on the screen row that it is drawn on: below the rows pinned above it, as far down
/// as it is below the first ordinary row.
pub proof fn law_rows_are_below_the_pinned_ones(
    rows: Seq<RowView>,
    start: int,
    area: Rect,
    row: u16,
    index: int,
)
    requires
        area.y + area.height <= u16::MAX,
        0 <= start,
    ensures
        row_drawn_at(rows, start, area, row) == Some(index) <==> {
            &&& start <= index < rows.len()
            &&& row == area.y + pinned_rows(rows, start, area.height as int).len() + (index - start)
            &&& row < area.y + area.height
        },
{
}

impl Workspace {
    /// The wheel scrolls by its lines, down or up, and no further than the last or the first start.
    pub proof fn law_the_wheel_scrolls_the_way_it_turns(self, lines: usize)
        requires
            self.start <= last_start(self.rows@, self.rows_area.height as int),
        ensures
            ({
                let last = last_start(self.rows@, self.rows_area.height as int);
                let (down, up) = (self.scrolled_to(lines, true), self.scrolled_to(lines, false));
                &&& self.start + lines <= last ==> down == self.start + lines
                &&& self.start + lines > last ==> down == last
                &&& self.start >= lines ==> up == self.start - lines
                &&& self.start < lines ==> up == 0
            }),
    {
    }

    /// Pressing the track scrolls by a page towards where it was pressed: up above the thumb, and
    /// down below it, no further than the first or the last start.
    pub proof fn law_the_track_pages_towards_the_press(self, row: u16, top: int, bottom: int)
        requires
            thumb_drawn(self.rows@, self.drawn_start as int, self.rows_area) == Some((top, bottom)),
            self.start <= last_start(self.rows@, self.rows_area.height as int),
            top < bottom,
        ensures
            ({
                let height = self.rows_area.height as int;
                let last = last_start(self.rows@, height);
                let shown = room(self.rows@, self.start as int, height);
                let page = if shown < 1 {
                    1
                } else {
                    shown
                };
                let then = self.paged_to(row);
                &&& row < top && self.start >= page ==> then == self.start - page
                &&& row < top && self.start < page ==> then == 0
                &&& row >= bottom && self.start + page <= last ==> then == self.start + page
                &&& row >= bottom && self.start + page > last ==> then == last
                &&& top <= row < bottom ==> then == self.start
            }),
    {
    }
}

/// A thumb held some rows below its top stays under the pointer, as far as it can travel.
pub proof fn law_the_thumb_stays_under_the_pointer(area: Rect, row: u16, grab: int, travel: int)
    requires
        0 <= grab,
        0 <= travel,
    ensures
        ({
            let offset = dragged_offset(area, row, grab, travel);
            &&& 0 <= offset <= travel
            &&& area.y + grab <= row <= area.y + grab + travel ==> area.y + offset + grab == row
            &&& row < area.y + grab ==> offset == 0
            &&& row > area.y + grab + travel ==> offset == travel
        }),
{
}

/// Dragging the thumb further down never scrolls up.
pub proof fn law_dragging_down_scrolls_down(less: int, more: int, travel: int, last: int)
    requires
        0 < travel,
        0 <= less <= more <= travel,
        0 <= last,
    ensures
        dragged_start(less, travel, last) <= dragged_start(more, travel, last),
        2 * (dragged_start(less, travel, last) * travel - less * last) <= travel,
        2 * (less * last - dragged_start(less, travel, last) * travel) <= travel,
{
    let half = travel / 2;
    assert(0 <= less * last <= more * last) by (nonlinear_arith)
        requires
            0 <= less <= more,
            0 <= last,
    ;
    let a = less * last + half;
    let b = more * last + half;
    assert(a / travel <= b / travel) by (nonlinear_arith)
        requires
            a <= b,
            0 < travel,
    ;
    let q = a / travel;
    assert(q * travel <= a < q * travel + travel) by (nonlinear_arith)
        requires
            q == a / travel,
            0 < travel,
    ;
}

} // verus!
