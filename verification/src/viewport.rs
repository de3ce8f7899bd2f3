//! Which rows fit into the panel.
//!
//! The panel shows the rows from `start` on. Above them it pins the rows that the row at `start`
//! hangs from (its directories, up to the root row) so the current place in the hierarchy stays
//! legible, unless they would not all fit.

use crate::rows::{ancestors_of, RowView, Rows};
use crate::scrollbar::{
    law_thumb_lies_in_the_rail, lemma_thumb_height, lemma_thumb_start, product, scrollbar_thumb,
    thumb_height, thumb_start,
};
use std::ops::Range;
use vstd::arithmetic::div_mod::{lemma_div_is_ordered, lemma_div_multiples_vanish};
use vstd::prelude::*;

verus! {

/// The rows pinned above the ordinary rows when those start at `start`.
pub open spec fn pinned_rows(rows: Seq<RowView>, start: int, height: int) -> Seq<int> {
    if 0 <= start < rows.len() && ancestors_of(rows, start).len() < height {
        ancestors_of(rows, start)
    } else {
        Seq::empty()
    }
}

/// The number of ordinary rows that fit below the pinned ones.
pub open spec fn room(rows: Seq<RowView>, start: int, height: int) -> int {
    height - pinned_rows(rows, start, height).len()
}

/// The first of the starts from `start` on that shows the last row.
pub open spec fn last_start_from(rows: Seq<RowView>, height: int, start: int) -> int
    decreases rows.len() - start,
{
    if start + 1 < rows.len() && rows.len() - start > room(rows, start, height) {
        last_start_from(rows, height, start + 1)
    } else {
        start
    }
}

/// The largest useful start.
pub open spec fn last_start(rows: Seq<RowView>, height: int) -> int {
    last_start_from(
        rows,
        height,
        if rows.len() < height {
            0
        } else {
            rows.len() - height
        },
    )
}

pub open spec fn clamped(rows: Seq<RowView>, start: int, height: int) -> int {
    if start < last_start(rows, height) {
        start
    } else {
        last_start(rows, height)
    }
}

/// Whether row `index` is among the ordinary rows.
pub open spec fn visible(rows: Seq<RowView>, start: int, height: int, index: int) -> bool {
    start <= index < start + room(rows, start, height)
}

/// How many rows are kept visible around a row.
pub open spec fn margin_at(rows: Seq<RowView>, start: int, height: int, scrolloff: int) -> int {
    let most = if room(rows, start, height) <= 1 {
        0
    } else {
        (room(rows, start, height) - 1) / 2
    };
    if scrolloff < most {
        scrolloff
    } else {
        most
    }
}

/// The first of the starts from `start` on, the last one at most, that shows row `target` with its
/// margin below it.
pub open spec fn scrolled_down(
    rows: Seq<RowView>,
    start: int,
    height: int,
    target: int,
    scrolloff: int,
) -> int
    decreases last_start(rows, height) - start,
{
    if start < last_start(rows, height) && target + margin_at(rows, start, height, scrolloff)
        >= start + room(rows, start, height) {
        scrolled_down(rows, start + 1, height, target, scrolloff)
    } else {
        start
    }
}

/// The first of the starts from `start` on, the last one or `target` at most, that shows row
/// `target`.
pub open spec fn first_showing(rows: Seq<RowView>, start: int, height: int, target: int) -> int
    decreases last_start(rows, height) - start,
{
    if start < last_start(rows, height) && start < target && !visible(
        rows,
        start,
        height,
        target,
    ) {
        first_showing(rows, start + 1, height, target)
    } else {
        start
    }
}

/// The start that shows row `target`, see [`reveal_row`].
pub open spec fn revealed_start(
    rows: Seq<RowView>,
    start: int,
    height: int,
    target: int,
    scrolloff: int,
) -> int {
    let start = clamped(rows, start, height);
    let margin = margin_at(rows, start, height, scrolloff);
    if target < start + margin {
        let above = clamped(
            rows,
            if target < margin {
                0
            } else {
                target - margin
            },
            height,
        );
        first_showing(rows, above, height, target)
    } else {
        let least = if target + 1 < height {
            0
        } else {
            target + 1 - height
        };
        scrolled_down(
            rows,
            if start < least {
                least
            } else {
                start
            },
            height,
            target,
            scrolloff,
        )
    }
}

#[derive(Clone, Copy, Debug, PartialEq, Eq, Structural)]
pub enum Align {
    Top,
    Center,
    Bottom,
}

/// Whether the start `start` puts row `target` at the place that `align` asks for, or below it.
pub open spec fn in_place(
    rows: Seq<RowView>,
    start: int,
    height: int,
    target: int,
    align: Align,
) -> bool {
    match align {
        Align::Top => target == start,
        Align::Center => target - start <= (if room(rows, start, height) <= 1 {
            0
        } else {
            (room(rows, start, height) - 1) / 2
        }),
        Align::Bottom => target < start + room(rows, start, height),
    }
}

/// The first of the starts from `start` to `target` that puts row `target` in place.
pub open spec fn aligned_from(
    rows: Seq<RowView>,
    start: int,
    height: int,
    target: int,
    align: Align,
) -> int
    decreases target - start,
{
    if start < target && !in_place(rows, start, height, target, align) {
        aligned_from(rows, start + 1, height, target, align)
    } else {
        start
    }
}

proof fn lemma_room(rows: Seq<RowView>, start: int, height: int)
    requires
        0 <= height,
    ensures
        0 <= room(rows, start, height) <= height,
        height > 0 ==> room(rows, start, height) > 0,
{
}

/// The last row is visible from the last start found, and earlier starts do not show it.
proof fn lemma_last_start_from(rows: Seq<RowView>, height: int, start: int)
    requires
        0 < height,
        0 <= start,
        rows.len() - height <= start,
        start <= rows.len(),
    ensures
        start <= last_start_from(rows, height, start) <= rows.len(),
        start < rows.len() ==> last_start_from(rows, height, start) < rows.len(),
        start < rows.len() ==> rows.len() - last_start_from(rows, height, start) <= room(
            rows,
            last_start_from(rows, height, start),
            height,
        ),
    decreases rows.len() - start,
{
    lemma_room(rows, start, height);
    if start + 1 < rows.len() && rows.len() - start > room(rows, start, height) {
        lemma_last_start_from(rows, height, start + 1);
    }
}

/// The last start exists, and from it on the last row is visible with nothing below it.
pub proof fn law_last_start_shows_the_last_row(rows: Seq<RowView>, height: int)
    requires
        0 < height,
        0 < rows.len(),
    ensures
        0 <= last_start(rows, height) < rows.len(),
        visible(rows, last_start(rows, height), height, rows.len() - 1),
{
    let first = if rows.len() < height {
        0
    } else {
        rows.len() - height
    };
    lemma_last_start_from(rows, height, first);
}

/// Scrolling never goes past the last start, and goes nowhere if it is not past it.
pub proof fn law_clamping_keeps_the_start_useful(rows: Seq<RowView>, start: int, height: int)
    ensures
        clamped(rows, start, height) <= last_start(rows, height),
        start <= last_start(rows, height) ==> clamped(rows, start, height) == start,
        clamped(rows, clamped(rows, start, height), height) == clamped(rows, start, height),
{
}

/// Every row from the last start on is visible from it.
proof fn lemma_visible_at_last(rows: Seq<RowView>, height: int, target: int)
    requires
        0 < height,
        0 <= target < rows.len(),
        last_start(rows, height) <= target,
    ensures
        visible(rows, last_start(rows, height), height, target),
{
    law_last_start_shows_the_last_row(rows, height);
}

proof fn lemma_scrolled_down(
    rows: Seq<RowView>,
    start: int,
    height: int,
    target: int,
    scrolloff: int,
)
    requires
        0 < height,
        0 <= scrolloff,
        0 <= start <= target < rows.len(),
    ensures
        start <= scrolled_down(rows, start, height, target, scrolloff) <= target,
        last_start(rows, height) <= scrolled_down(rows, start, height, target, scrolloff)
            || visible(
            rows,
            scrolled_down(rows, start, height, target, scrolloff),
            height,
            target,
        ),
        start <= last_start(rows, height) ==> scrolled_down(rows, start, height, target, scrolloff)
            <= last_start(rows, height),
    decreases last_start(rows, height) - start,
{
    lemma_room(rows, start, height);
    if start < last_start(rows, height) && target + margin_at(rows, start, height, scrolloff)
        >= start + room(rows, start, height) {
        assert(start < target);
        lemma_scrolled_down(rows, start + 1, height, target, scrolloff);
    }
}

proof fn lemma_first_showing(rows: Seq<RowView>, start: int, height: int, target: int)
    requires
        0 < height,
        0 <= target < rows.len(),
        start <= last_start(rows, height),
        start <= target,
    ensures
        start <= first_showing(rows, start, height, target) <= target,
        first_showing(rows, start, height, target) <= last_start(rows, height),
        visible(rows, first_showing(rows, start, height, target), height, target),
    decreases last_start(rows, height) - start,
{
    lemma_room(rows, start, height);
    if start < last_start(rows, height) && start < target && !visible(
        rows,
        start,
        height,
        target,
    ) {
        lemma_first_showing(rows, start + 1, height, target);
    } else if start == last_start(rows, height) {
        lemma_visible_at_last(rows, height, target);
    }
}

/// Revealing a row makes it visible, and never scrolls past the last start.
pub proof fn law_revealed_rows_are_visible(
    rows: Seq<RowView>,
    start: int,
    height: int,
    target: int,
    scrolloff: int,
)
    requires
        0 < height,
        0 <= scrolloff,
        0 <= start,
        0 <= target < rows.len(),
    ensures
        visible(rows, revealed_start(rows, start, height, target, scrolloff), height, target),
        revealed_start(rows, start, height, target, scrolloff) <= last_start(rows, height),
{
    law_last_start_shows_the_last_row(rows, height);
    let from = clamped(rows, start, height);
    let margin = margin_at(rows, from, height, scrolloff);
    lemma_room(rows, from, height);
    if target < from + margin {
        let above = if target < margin {
            0
        } else {
            target - margin
        };
        lemma_first_showing(rows, clamped(rows, above, height), height, target);
    } else {
        let least = if target + 1 < height {
            0
        } else {
            target + 1 - height
        };
        let first = if from < least {
            least
        } else {
            from
        };
        lemma_scrolled_down(rows, first, height, target, scrolloff);
        let found = scrolled_down(rows, first, height, target, scrolloff);
        lemma_room(rows, found, height);
        if last_start(rows, height) <= target {
            lemma_visible_at_last(rows, height, target);
        }
    }
}

proof fn lemma_aligned_from(rows: Seq<RowView>, start: int, height: int, target: int, align: Align)
    requires
        0 < height,
        0 <= start <= target < rows.len(),
    ensures
        start <= aligned_from(rows, start, height, target, align) <= target,
        visible(rows, aligned_from(rows, start, height, target, align), height, target),
    decreases target - start,
{
    lemma_room(rows, start, height);
    if start < target && !in_place(rows, start, height, target, align) {
        lemma_aligned_from(rows, start + 1, height, target, align);
    }
}

/// The start that puts row `target` in place, see [`align`].
pub open spec fn aligned_start(rows: Seq<RowView>, height: int, target: int, align: Align) -> int {
    let first = match align {
        Align::Top => target,
        _ => if target < height {
            0
        } else {
            target - height
        },
    };
    clamped(rows, aligned_from(rows, first, height, target, align), height)
}

/// Aligning a row makes it visible.
pub proof fn law_aligned_rows_are_visible(
    rows: Seq<RowView>,
    height: int,
    target: int,
    align: Align,
)
    requires
        0 < height,
        0 <= target < rows.len(),
    ensures
        visible(rows, aligned_start(rows, height, target, align), height, target),
{
    let first = match align {
        Align::Top => target,
        _ => if target < height {
            0
        } else {
            target - height
        },
    };
    lemma_aligned_from(rows, first, height, target, align);
    law_last_start_shows_the_last_row(rows, height);
    if last_start(rows, height) <= target {
        lemma_visible_at_last(rows, height, target);
    }
}

/// How far the rail is scrolled. Pinned rows let the start go past `len - height`; it is scaled so
/// the thumb ends at the bottom.
pub open spec fn rail_offset(rows: Seq<RowView>, start: int, height: int) -> int {
    if last_start(rows, height) == 0 {
        0
    } else {
        clamped(rows, start, height) * (if rows.len() < height {
            0
        } else {
            rows.len() - height
        }) / last_start(rows, height)
    }
}

pub proof fn lemma_rail_offset(rows: Seq<RowView>, start: int, height: int)
    requires
        0 <= start,
        0 <= height < rows.len(),
        0 <= last_start(rows, height),
    ensures
        0 <= rail_offset(rows, start, height) <= rows.len() - height,
        start >= last_start(rows, height) && last_start(rows, height) > 0 ==> rail_offset(
            rows,
            start,
            height,
        ) == rows.len() - height,
{
    let last = last_start(rows, height);
    let at = clamped(rows, start, height);
    let span = rows.len() - height;
    if last > 0 {
        assert(0 <= at * span <= last * span) by (nonlinear_arith)
            requires
                0 <= at <= last,
                0 <= span,
        ;
        assert(last * span / last == span) by {
            lemma_div_multiples_vanish(span, last);
        }
        lemma_div_is_ordered(at * span, last * span, last);
        assert(0 <= at * span / last) by (nonlinear_arith)
            requires
                0 <= at * span,
                0 < last,
        ;
    }
}

/// The thumb lies within the rail. It starts at its top when nothing is scrolled by, and ends at its
/// bottom once the last row is reached.
pub proof fn law_thumb_ends_at_the_bottom(rows: Seq<RowView>, start: int, height: int)
    requires
        0 < height < rows.len(),
        0 <= start,
    ensures
        ({
            let offset = rail_offset(rows, start, height);
            let end = thumb_start(rows.len() as int, height, offset) + thumb_height(
                rows.len() as int,
                height,
            );
            &&& end <= height
            &&& start == 0 ==> thumb_start(rows.len() as int, height, offset) == 0
            &&& start >= last_start(rows, height) ==> end == height
        }),
{
    law_last_start_shows_the_last_row(rows, height);
    lemma_last_start_from(rows, height, rows.len() - height);
    lemma_rail_offset(rows, start, height);
    law_thumb_lies_in_the_rail(rows.len() as int, height, rail_offset(rows, start, height));
    if start == 0 && last_start(rows, height) > 0 {
        let span = rows.len() - height;
        assert(0 * span == 0) by (nonlinear_arith);
        assert(0int / last_start(rows, height) == 0) by (nonlinear_arith)
            requires
                last_start(rows, height) > 0,
        ;
    }
}

/// The rows pinned above the ordinary rows when those start at `start`, outermost first.
pub fn pinned(rows: &Rows, start: usize, height: usize) -> (pinned: Vec<usize>)
    requires
        rows.wf(),
    ensures
        pinned@.map_values(|i: usize| i as int) == pinned_rows(rows@, start as int, height as int),
        pinned@.len() == pinned_rows(rows@, start as int, height as int).len(),
{
    if start < rows.len() {
        let ancestors: Vec<usize> = rows.ancestors(start);
        if ancestors.len() < height {
            return ancestors;
        }
    }
    let none: Vec<usize> = Vec::new();
    assert(none@.map_values(|i: usize| i as int) =~= Seq::<int>::empty());
    none
}

/// The number of ordinary rows that fit below the pinned ones.
pub fn capacity(rows: &Rows, start: usize, height: usize) -> (capacity: usize)
    requires
        rows.wf(),
    ensures
        capacity == room(rows@, start as int, height as int),
{
    height - pinned(rows, start, height).len()
}

/// The largest useful `start`: the first one that shows the last row with nothing below it.
pub fn max_start(rows: &Rows, height: usize) -> (start: usize)
    requires
        rows.wf(),
    ensures
        start == last_start(rows@, height as int),
{
    let len: usize = rows.len();
    let mut start: usize = if len < height {
        0
    } else {
        len - height
    };
    while start < len && start + 1 < len && len - start > capacity(rows, start, height)
        invariant
            rows.wf(),
            len == rows@.len(),
            start <= len,
            last_start(rows@, height as int) == last_start_from(rows@, height as int, start as int),
        decreases len - start,
    {
        start += 1;
    }
    start
}

pub fn clamp(rows: &Rows, start: usize, height: usize) -> (clamp: usize)
    requires
        rows.wf(),
    ensures
        clamp == clamped(rows@, start as int, height as int),
{
    let max: usize = max_start(rows, height);
    if start < max {
        start
    } else {
        max
    }
}

/// Whether row `index` is among the ordinary rows.
pub fn is_visible(rows: &Rows, start: usize, height: usize, index: usize) -> (is: bool)
    requires
        rows.wf(),
    ensures
        is == visible(rows@, start as int, height as int, index as int),
{
    start <= index && index - start < capacity(rows, start, height)
}

fn margin(rows: &Rows, start: usize, height: usize, scrolloff: usize) -> (margin: usize)
    requires
        rows.wf(),
    ensures
        margin == margin_at(rows@, start as int, height as int, scrolloff as int),
{
    let capacity: usize = capacity(rows, start, height);
    let most: usize = if capacity <= 1 {
        0
    } else {
        (capacity - 1) / 2
    };
    if scrolloff < most {
        scrolloff
    } else {
        most
    }
}

/// The `start` closest to `start` that shows row `target` with `scrolloff` rows around it.
pub fn reveal_row(
    rows: &Rows,
    start: usize,
    height: usize,
    target: usize,
    scrolloff: usize,
) -> (revealed: usize)
    requires
        rows.wf(),
        height > 0 || target < usize::MAX,
    ensures
        revealed == revealed_start(
            rows@,
            start as int,
            height as int,
            target as int,
            scrolloff as int,
        ),
        height > 0 && target < rows@.len() ==> visible(
            rows@,
            revealed as int,
            height as int,
            target as int,
        ),
{
    proof {
        if height > 0 && target < rows@.len() {
            law_revealed_rows_are_visible(
                rows@,
                start as int,
                height as int,
                target as int,
                scrolloff as int,
            );
        }
    }
    let from: usize = clamp(rows, start, height);
    let around: usize = margin(rows, from, height, scrolloff);
    let max: usize = max_start(rows, height);
    if target < from || target - from < around {
        let mut above: usize = clamp(
            rows,
            if target < around {
                0
            } else {
                target - around
            },
            height,
        );
        let ghost found = first_showing(rows@, above as int, height as int, target as int);
        // Rows pinned above the new start may leave no room for the row.
        while above < max && above < target && !is_visible(rows, above, height, target)
            invariant
                rows.wf(),
                max == last_start(rows@, height as int),
                found == first_showing(rows@, above as int, height as int, target as int),
            decreases max - above,
        {
            above += 1;
        }
        return above;
    }
    // No more than `height` rows fit, so there is no need to try starts before that.
    let least: usize = if height == 0 {
        target + 1
    } else if target < height - 1 {
        0
    } else {
        target - (height - 1)
    };
    let mut at: usize = if from < least {
        least
    } else {
        from
    };
    let ghost found = scrolled_down(
        rows@,
        at as int,
        height as int,
        target as int,
        scrolloff as int,
    );
    while at < max && !(target < at || target - at < capacity(rows, at, height) - margin(
        rows,
        at,
        height,
        scrolloff,
    ))
        invariant
            rows.wf(),
            max == last_start(rows@, height as int),
            found == scrolled_down(
                rows@,
                at as int,
                height as int,
                target as int,
                scrolloff as int,
            ),
        decreases max - at,
    {
        at += 1;
    }
    at
}

/// The `start` that puts row `target` at the top, center or bottom of the ordinary rows.
pub fn align(rows: &Rows, height: usize, target: usize, place: Align) -> (start: usize)
    requires
        rows.wf(),
    ensures
        start == aligned_start(rows@, height as int, target as int, place),
{
    let mut start: usize = match place {
        Align::Top => target,
        _ => if target < height {
            0
        } else {
            target - height
        },
    };
    let ghost found = aligned_from(rows@, start as int, height as int, target as int, place);
    loop
        invariant
            rows.wf(),
            start <= target,
            found == aligned_from(rows@, start as int, height as int, target as int, place),
        ensures
            found == start,
        decreases target - start,
    {
        if start == target {
            break;
        }
        let room: usize = capacity(rows, start, height);
        let placed: bool = match place {
            Align::Top => false,
            Align::Center => target - start <= (if room <= 1 {
                0
            } else {
                (room - 1) / 2
            }),
            Align::Bottom => target - start < room,
        };
        if placed {
            break;
        }
        start += 1;
    }
    clamp(rows, start, height)
}

/// The rows of the rail that its thumb covers, if the rows do not fit.
pub fn thumb(rows: &Rows, start: usize, height: usize) -> (thumb: Option<Range<usize>>)
    requires
        rows.wf(),
    ensures
        match thumb {
            None => rows@.len() <= height,
            Some(covered) => {
                &&& rows@.len() > height
                &&& covered.start == thumb_start(
                    rows@.len() as int,
                    height as int,
                    rail_offset(rows@, start as int, height as int),
                )
                &&& covered.end == covered.start + thumb_height(rows@.len() as int, height as int)
            },
        },
{
    let len: usize = rows.len();
    if len <= height {
        return None;
    }
    let max: usize = max_start(rows, height);
    let at: usize = if start < max {
        start
    } else {
        max
    };
    proof {
        lemma_rail_offset(rows@, start as int, height as int);
    }
    let offset: usize = if max == 0 {
        0
    } else {
        (product(at, len - height) / max as u128) as usize
    };
    proof {
        lemma_thumb_height(len as int, height as int);
        lemma_thumb_start(len as int, height as int, offset as int);
    }
    scrollbar_thumb(len, height, offset)
}

pub proof fn lemma_start_bound(rows: Seq<RowView>, height: int, start: int)
    requires
        0 <= start <= rows.len(),
    ensures
        start <= last_start_from(rows, height, start) <= rows.len(),
    decreases rows.len() - start,
{
    if start + 1 < rows.len() && rows.len() - start > room(rows, start, height) {
        lemma_start_bound(rows, height, start + 1);
    }
}

proof fn lemma_first_in_place(
    rows: Seq<RowView>,
    start: int,
    height: int,
    target: int,
    align: Align,
)
    ensures
        forall|i: int|
            start <= i < aligned_from(rows, start, height, target, align) ==> !in_place(
                rows,
                i,
                height,
                target,
                align,
            ),
        start <= target ==> start <= aligned_from(rows, start, height, target, align) <= target,
        start <= target ==> in_place(
            rows,
            aligned_from(rows, start, height, target, align),
            height,
            target,
            align,
        ) || aligned_from(rows, start, height, target, align) == target,
    decreases target - start,
{
    if start < target && !in_place(rows, start, height, target, align) {
        lemma_first_in_place(rows, start + 1, height, target, align);
    }
}

/// A row aligned to the top starts the rows, as far as the rows go on below it.
pub proof fn law_rows_align_to_the_top(rows: Seq<RowView>, height: int, target: int)
    requires
        0 < height,
        0 <= target < rows.len(),
    ensures
        target <= last_start(rows, height) ==> aligned_start(rows, height, target, Align::Top)
            == target,
        target > last_start(rows, height) ==> aligned_start(rows, height, target, Align::Top)
            == last_start(rows, height),
{
}

/// A row aligned to the bottom is in view, and from no earlier start is it: nothing below it is
/// shown that need not be.
pub proof fn law_rows_align_to_the_bottom(rows: Seq<RowView>, height: int, target: int, earlier: int)
    requires
        0 < height,
        0 <= target < rows.len(),
        0 <= earlier < aligned_start(rows, height, target, Align::Bottom),
    ensures
        !visible(rows, earlier, height, target),
        visible(rows, aligned_start(rows, height, target, Align::Bottom), height, target),
{
    law_aligned_rows_are_visible(rows, height, target, Align::Bottom);
    lemma_room(rows, earlier, height);
    let first = if target < height {
        0
    } else {
        target - height
    };
    lemma_first_in_place(rows, first, height, target, Align::Bottom);
    if earlier >= first {
        assert(!in_place(rows, earlier, height, target, Align::Bottom));
    }
}

/// A row aligned to the center has half of the other rows above it, rounded down, or fewer where the
/// rows pinned above change; from the start before it would have more.
pub proof fn law_rows_align_to_the_center(rows: Seq<RowView>, height: int, target: int)
    requires
        0 < height,
        0 <= target < rows.len(),
    ensures
        ({
            let start = aligned_start(rows, height, target, Align::Center);
            &&& start <= target
            &&& start < last_start(rows, height) ==> target - start <= (room(rows, start, height)
                - 1) / 2
            &&& start > 0 ==> target - (start - 1) > (room(rows, start - 1, height) - 1) / 2
        }),
{
    let first = if target < height {
        0
    } else {
        target - height
    };
    lemma_first_in_place(rows, first, height, target, Align::Center);
    let from = aligned_from(rows, first, height, target, Align::Center);
    let start = aligned_start(rows, height, target, Align::Center);
    lemma_room(rows, start, height);
    lemma_room(rows, start - 1, height);
    lemma_room(rows, from, height);
    law_last_start_shows_the_last_row(rows, height);
    if start > 0 {
        if start - 1 >= first {
            assert(!in_place(rows, start - 1, height, target, Align::Center));
        }
    }
}

/// A row that is in view with its margin is revealed by scrolling nowhere.
pub proof fn law_shown_rows_stay_in_place(
    rows: Seq<RowView>,
    start: int,
    height: int,
    target: int,
    scrolloff: int,
)
    requires
        0 < height,
        0 <= scrolloff,
        0 <= start <= last_start(rows, height),
        0 <= target < rows.len(),
        start + margin_at(rows, start, height, scrolloff) <= target,
        target + margin_at(rows, start, height, scrolloff) < start + room(rows, start, height),
    ensures
        revealed_start(rows, start, height, target, scrolloff) == start,
{
    lemma_room(rows, start, height);
}

/// The margin is as many rows as asked for, and no more than half of the other rows.
pub proof fn law_margins_leave_the_row_in_the_middle(
    rows: Seq<RowView>,
    start: int,
    height: int,
    scrolloff: int,
)
    requires
        0 < height,
        0 <= scrolloff,
    ensures
        0 <= margin_at(rows, start, height, scrolloff) <= scrolloff,
        2 * margin_at(rows, start, height, scrolloff) + 1 <= room(rows, start, height),
        2 * scrolloff + 1 <= room(rows, start, height) ==> margin_at(
            rows,
            start,
            height,
            scrolloff,
        ) == scrolloff,
{
    lemma_room(rows, start, height);
}

proof fn lemma_scrolled_down_margin(
    rows: Seq<RowView>,
    start: int,
    height: int,
    target: int,
    scrolloff: int,
)
    ensures
        ({
            let then = scrolled_down(rows, start, height, target, scrolloff);
            &&& start <= then
            &&& then < last_start(rows, height) ==> target + margin_at(
                rows,
                then,
                height,
                scrolloff,
            ) < then + room(rows, then, height)
            &&& start < then ==> target + margin_at(rows, then - 1, height, scrolloff) >= then - 1
                + room(rows, then - 1, height)
        }),
    decreases last_start(rows, height) - start,
{
    if start < last_start(rows, height) && target + margin_at(rows, start, height, scrolloff)
        >= start + room(rows, start, height) {
        lemma_scrolled_down_margin(rows, start + 1, height, target, scrolloff);
    }
}

/// Revealing a row that is below scrolls down until it has its margin below it, as far as the rows
/// go, and no further than that takes.
pub proof fn law_rows_below_are_scrolled_to(
    rows: Seq<RowView>,
    start: int,
    height: int,
    target: int,
    scrolloff: int,
)
    requires
        0 < height,
        0 <= scrolloff,
        0 <= start <= last_start(rows, height),
        0 <= target < rows.len(),
        start + margin_at(rows, start, height, scrolloff) <= target,
    ensures
        ({
            let then = revealed_start(rows, start, height, target, scrolloff);
            &&& start <= then
            &&& then < last_start(rows, height) ==> target + margin_at(
                rows,
                then,
                height,
                scrolloff,
            ) < then + room(rows, then, height)
            &&& start < then ==> target + margin_at(rows, then - 1, height, scrolloff) >= then - 1
                + room(rows, then - 1, height)
        }),
{
    let least = if target + 1 < height {
        0
    } else {
        target + 1 - height
    };
    let from = if start < least {
        least
    } else {
        start
    };
    lemma_room(rows, from - 1, height);
    lemma_room(rows, start, height);
    law_margins_leave_the_row_in_the_middle(rows, from - 1, height, scrolloff);
    lemma_scrolled_down_margin(rows, from, height, target, scrolloff);
}

/// Revealing a row that is above scrolls up, so that the rows of its margin above it are in view,
/// unless more rows are pinned above it there.
pub proof fn law_rows_above_are_scrolled_to(
    rows: Seq<RowView>,
    start: int,
    height: int,
    target: int,
    scrolloff: int,
)
    requires
        0 < height,
        0 <= scrolloff,
        0 <= start <= last_start(rows, height),
        0 <= target < start + margin_at(rows, start, height, scrolloff),
        target < rows.len(),
    ensures
        ({
            let margin = margin_at(rows, start, height, scrolloff);
            let then = revealed_start(rows, start, height, target, scrolloff);
            let above = if target < margin {
                0
            } else {
                target - margin
            };
            &&& above <= then <= target
            &&& visible(rows, above, height, target) ==> then == above
        }),
{
    law_margins_leave_the_row_in_the_middle(rows, start, height, scrolloff);
    let margin = margin_at(rows, start, height, scrolloff);
    let above = if target < margin {
        0
    } else {
        target - margin
    };
    assert(above <= start);
    law_last_start_shows_the_last_row(rows, height);
    lemma_first_showing(rows, above, height, target);
}

/// The rows pinned above are those that the first ordinary row hangs from, outermost first, as long as
/// they leave room for it. Otherwise nothing is pinned.
pub proof fn law_pinned_rows_leave_room(rows: Seq<RowView>, start: int, height: int)
    requires
        0 <= start < rows.len(),
        0 < height,
    ensures
        ancestors_of(rows, start).len() < height ==> pinned_rows(rows, start, height)
            == ancestors_of(rows, start),
        ancestors_of(rows, start).len() >= height ==> pinned_rows(rows, start, height).len() == 0,
        pinned_rows(rows, start, height).len() < height,
        room(rows, start, height) + pinned_rows(rows, start, height).len() == height,
{
}

proof fn lemma_first_last_start(rows: Seq<RowView>, height: int, start: int, earlier: int)
    requires
        0 < height,
        0 <= start <= earlier < last_start_from(rows, height, start),
    ensures
        !visible(rows, earlier, height, rows.len() - 1),
    decreases rows.len() - start,
{
    if start + 1 < rows.len() && rows.len() - start > room(rows, start, height) {
        if start < earlier {
            lemma_first_last_start(rows, height, start + 1, earlier);
        }
    }
}

/// The last start is the first one that shows the last row: from no earlier one is it in view.
pub proof fn law_the_last_start_is_the_first_that_shows_all(
    rows: Seq<RowView>,
    height: int,
    earlier: int,
)
    requires
        0 < height,
        0 < rows.len(),
        0 <= earlier < last_start(rows, height),
    ensures
        !visible(rows, earlier, height, rows.len() - 1),
{
    let first = if rows.len() < height {
        0
    } else {
        rows.len() - height
    };
    lemma_room(rows, earlier, height);
    if earlier >= first {
        lemma_first_last_start(rows, height, first, earlier);
    }
}

} // verus!
