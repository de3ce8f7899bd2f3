//! Smooth scrolling of views.
//!
//! A view keeps its real offset; what is drawn glides towards it, along with the selections that the
//! scroll moved. Laying out text takes place elsewhere: the functions here say which row to walk to
//! from where, and take the position found there.

use crate::fold::Fold;
use crate::fold_rows::{row_begin, row_number};
use crate::folds::Folds;
use crate::rect::Rect;
use crate::selection::Direction;
use crate::text::{breaks, chars_of, line_count, line_of, line_start};
use ropey::RopeSlice;
use vstd::prelude::*;

verus! {

/// Where a view is scrolled to.
#[derive(Clone, Copy, Debug, PartialEq, Eq, Structural)]
pub struct ViewPosition {
    /// The char that the first row is found from.
    pub anchor: usize,
    /// How many rows the first row is below the row of the anchor.
    pub vertical_offset: usize,
    pub horizontal_offset: usize,
}

/// Everything besides the offset a frame depends on. When any of it changes, the view is drawn
/// at its real offset right away.
#[derive(Clone, Copy, Debug, PartialEq, Eq, Structural)]
pub struct FrameKey {
    pub doc: usize,
    pub version: i32,
    pub area: Rect,
    pub soft_wrap: bool,
    /// Opening or closing folds changes the layout.
    pub folds: usize,
}

#[derive(Clone, Copy, Debug, PartialEq, Eq, Structural)]
pub enum Movement {
    Move,
    Extend,
}

/// How a scroll moves the selections, so that the frames drawn in between move them alike.
#[derive(Clone, Copy, Debug, PartialEq, Eq, Structural)]
pub enum SelectionMotion {
    /// The selections move this many visual rows along with the view, upwards if negative.
    Synced { rows: i64, movement: Movement },
    /// The primary cursor stays put until the scrolloff margin pushes it along.
    Pushed { direction: Direction, movement: Movement },
}

impl SelectionMotion {
    /// The rows that the selections move along with the view.
    pub open spec fn synced_rows(self) -> int {
        match self {
            SelectionMotion::Synced { rows, .. } => rows as int,
            SelectionMotion::Pushed { .. } => 0,
        }
    }

    /// This motion following `previous`: synced motions add up.
    pub open spec fn following(self, previous: Option<SelectionMotion>) -> SelectionMotion {
        match (previous, self) {
            (
                Some(SelectionMotion::Synced { rows: earlier, .. }),
                SelectionMotion::Synced { rows, movement },
            ) => SelectionMotion::Synced { rows: (earlier + rows) as i64, movement },
            _ => self,
        }
    }

    pub fn after(self, previous: Option<SelectionMotion>) -> (motion: SelectionMotion)
        requires
            previous matches Some(previous) ==> i64::MIN <= previous.synced_rows()
                + self.synced_rows() <= i64::MAX,
        ensures
            motion == self.following(previous),
    {
        match (previous, self) {
            (
                Some(SelectionMotion::Synced { rows: earlier, .. }),
                SelectionMotion::Synced { rows, movement },
            ) => SelectionMotion::Synced { rows: earlier + rows, movement },
            _ => self,
        }
    }
}

/// The sign of a number.
pub open spec fn sign(x: i64) -> int {
    if x > 0 {
        1
    } else if x < 0 {
        -1
    } else {
        0
    }
}

/// The size of a number.
pub open spec fn size(x: i64) -> int {
    if x < 0 {
        -x
    } else {
        x as int
    }
}

pub(crate) fn signum(x: i64) -> (s: i64)
    ensures
        s == sign(x),
{
    if x > 0 {
        1
    } else if x < 0 {
        -1
    } else {
        0
    }
}

pub(crate) fn magnitude(x: i64) -> (m: u64)
    ensures
        m == size(x),
{
    if x < 0 {
        (-(x + 1)) as u64 + 1
    } else {
        x as u64
    }
}

/// The way from one offset of a view to another.
#[derive(Clone, Copy, Debug, PartialEq, Eq, Structural)]
pub enum Path {
    /// Walk this many visual rows, upwards if negative.
    Rows(i64),
    /// Too far to lay out every row: cover `lines` document lines from the row `start_row`
    /// (upwards if negative), counting the lines of a folded row as one, then walk `rows` visual
    /// rows from `approach` to the target.
    Far { start_row: usize, lines: i64, approach: ViewPosition, rows: i64 },
}

/// Between which offsets to measure the distance, and up to how many rows.
#[derive(Clone, Copy, Debug, PartialEq, Eq, Structural)]
pub struct Measure {
    pub top: ViewPosition,
    pub bottom: ViewPosition,
    /// The last two screens are walked row by row, which also bounds the cost of measuring.
    pub limit: usize,
    pub forward: bool,
}

/// Whether `to` is not above `from`.
pub open spec fn not_above(from: ViewPosition, to: ViewPosition) -> bool {
    to.anchor > from.anchor || to.anchor == from.anchor && to.vertical_offset
        >= from.vertical_offset
}

/// What to measure for the way between two offsets, in a view of that height.
pub fn measure(from: ViewPosition, to: ViewPosition, inner_height: usize) -> (measure: Measure)
    requires
        2 * inner_height <= usize::MAX,
    ensures
        measure == (Measure {
            top: if not_above(from, to) {
                from
            } else {
                to
            },
            bottom: if not_above(from, to) {
                to
            } else {
                from
            },
            limit: if inner_height < 1 {
                2
            } else {
                (2 * inner_height) as usize
            },
            forward: not_above(from, to),
        }),
{
    let forward: bool = to.anchor > from.anchor || to.anchor == from.anchor && to.vertical_offset
        >= from.vertical_offset;
    let limit: usize = if inner_height < 1 {
        2
    } else {
        2 * inner_height
    };
    if forward {
        Measure { top: from, bottom: to, limit, forward }
    } else {
        Measure { top: to, bottom: from, limit, forward }
    }
}

impl Measure {
    /// The numbers of rows can be counted.
    pub open spec fn counts(self, distance: Option<usize>) -> bool {
        &&& self.limit <= i64::MAX
        &&& self.top.vertical_offset <= i64::MAX
        &&& match distance {
            Some(row) => row + self.bottom.vertical_offset <= i64::MAX,
            None => true,
        }
    }

    /// The rows to walk, upwards if negative, where the anchors are `distance` rows apart, or
    /// further than the limit.
    pub open spec fn rows(self, distance: Option<usize>) -> int {
        let rows = match distance {
            Some(row) => row + self.bottom.vertical_offset - self.top.vertical_offset,
            None => self.limit as int,
        };
        if self.forward {
            rows
        } else {
            -rows
        }
    }

    fn rows_to_walk(self, distance: Option<usize>) -> (rows: i64)
        requires
            self.counts(distance),
        ensures
            rows == self.rows(distance),
    {
        let rows: i64 = match distance {
            Some(row) => row as i64 + self.bottom.vertical_offset as i64
                - self.top.vertical_offset as i64,
            None => self.limit as i64,
        };
        if self.forward {
            rows
        } else {
            -rows
        }
    }

    /// The path, if it can be walked row by row. Otherwise its last rows are walked from the row
    /// that is `rows` rows before the target.
    pub fn near(self, distance: Option<usize>) -> (path: Result<Path, i64>)
        requires
            self.counts(distance),
        ensures
            match path {
                Ok(path) => distance is Some && path == Path::Rows(self.rows(distance) as i64),
                Err(rows) => distance is None && rows == self.rows(distance),
            },
    {
        let rows: i64 = self.rows_to_walk(distance);
        match distance {
            Some(_) => Ok(Path::Rows(rows)),
            None => Err(rows),
        }
    }
}

/// A part of a path: `rows` visual rows from a position, upwards if negative.
#[derive(Clone, Copy, Debug, PartialEq, Eq, Structural)]
pub struct Walk {
    pub from: ViewPosition,
    pub rows: i64,
}

impl ViewPosition {
    /// How many visual rows below the row of the anchor the walk starts whose `rows` rows end here.
    pub fn rows_before(self, rows: i64) -> (start: i64)
        requires
            self.vertical_offset <= i64::MAX,
            i64::MIN <= self.vertical_offset - rows <= i64::MAX,
        ensures
            start == self.vertical_offset - rows,
    {
        self.vertical_offset as i64 - rows
    }
}

impl Walk {
    /// How many visual rows below the row of the anchor the walk ends.
    pub fn end(self) -> (rows: i64)
        requires
            self.from.vertical_offset <= i64::MAX,
            i64::MIN <= self.from.vertical_offset + self.rows <= i64::MAX,
        ensures
            rows == self.from.vertical_offset + self.rows,
    {
        self.from.vertical_offset as i64 + self.rows
    }

    /// The position reached, when the row is found at `anchor` and `vertical_offset`.
    pub fn reached(self, anchor: usize, vertical_offset: usize) -> (position: ViewPosition)
        ensures
            position == (ViewPosition { anchor, vertical_offset, ..self.from }),
    {
        ViewPosition { anchor, vertical_offset, ..self.from }
    }
}

impl Path {
    /// The rows of the path are rows of a text, and its steps can be counted.
    pub open spec fn wf(self) -> bool {
        match self {
            Path::Rows(rows) => size(rows) <= usize::MAX,
            Path::Far { start_row, lines, rows, .. } => {
                &&& 0 <= start_row + lines
                &&& start_row + size(lines) <= i64::MAX
                &&& size(lines) + size(rows) <= usize::MAX
                &&& size(lines) + size(rows) <= i64::MAX
            },
        }
    }

    /// The number of steps.
    pub open spec fn length(self) -> int {
        match self {
            Path::Rows(rows) => size(rows),
            Path::Far { lines, rows, .. } => size(lines) + size(rows),
        }
    }

    pub fn len(&self) -> (len: usize)
        requires
            self.wf(),
        ensures
            len == self.length(),
    {
        match *self {
            Path::Rows(rows) => magnitude(rows) as usize,
            Path::Far { lines, rows, .. } => (magnitude(lines) + magnitude(rows)) as usize,
        }
    }

    /// The path to a target too far away, of which the last rows are walked from the row that was
    /// found at `anchor` and `vertical_offset`.
    pub fn far(
        text: RopeSlice,
        folds: &Folds,
        from: ViewPosition,
        to: ViewPosition,
        rows: i64,
        anchor: usize,
        vertical_offset: usize,
    ) -> (path: Path)
        requires
            folds.valid(chars_of(text)),
            from.anchor <= chars_of(text).len(),
            anchor <= chars_of(text).len(),
            line_count(chars_of(text)) <= i64::MAX,
        ensures
            ({
                let s = chars_of(text);
                let start_row = row_number(folds.top(), s, line_of(s, from.anchor as int));
                let end_row = row_number(folds.top(), s, line_of(s, anchor as int));
                &&& path == Path::Far {
                    start_row: start_row as usize,
                    lines: (end_row - start_row) as i64,
                    approach: ViewPosition {
                        anchor,
                        vertical_offset,
                        horizontal_offset: to.horizontal_offset,
                    },
                    rows,
                }
                &&& start_row <= i64::MAX
                &&& end_row <= i64::MAX
            }),
    {
        proof {
            crate::text::lemma_line_of_bound(chars_of(text), from.anchor as int);
            crate::text::lemma_line_of_bound(chars_of(text), anchor as int);
            crate::fold_rows::lemma_row_first(
                folds.top(),
                chars_of(text),
                line_of(chars_of(text), from.anchor as int),
            );
            crate::fold_rows::lemma_row_first(
                folds.top(),
                chars_of(text),
                line_of(chars_of(text), anchor as int),
            );
        }
        // closed folds join lines into one row, so count rows rather than lines
        let start_row: usize = folds.row(text, text.char_to_line(from.anchor));
        let end_row: usize = folds.row(text, text.char_to_line(anchor));
        Path::Far {
            start_row,
            lines: end_row as i64 - start_row as i64,
            approach: ViewPosition {
                anchor,
                vertical_offset,
                horizontal_offset: to.horizontal_offset,
            },
            rows,
        }
    }

    /// The first line of the row `row`.
    pub open spec fn line_of_row(folds: Folds, s: Seq<char>, row: int) -> nat {
        if row <= row_number(folds.top(), s, breaks(s)) {
            row_begin(folds.top(), s, row as nat, breaks(s))
        } else {
            breaks(s)
        }
    }

    /// The walk from `offset`, the frame at step `from_step`, to the frame at step `to_step`. The
    /// bulk of a far path is covered in whole document lines.
    pub open spec fn walk_between(
        self,
        s: Seq<char>,
        folds: Folds,
        offset: ViewPosition,
        from_step: int,
        to_step: int,
    ) -> Walk {
        match self {
            Path::Rows(rows) => Walk {
                from: offset,
                rows: (sign(rows) * (to_step - from_step)) as i64,
            },
            Path::Far { start_row, lines, approach, rows } => {
                let bulk = size(lines);
                if to_step <= bulk {
                    let row = start_row + sign(lines) * to_step;
                    Walk {
                        from: ViewPosition {
                            anchor: line_start(s, Path::line_of_row(folds, s, row)) as usize,
                            vertical_offset: 0,
                            ..offset
                        },
                        rows: 0,
                    }
                } else if from_step <= bulk {
                    Walk { from: approach, rows: (sign(rows) * (to_step - bulk)) as i64 }
                } else {
                    Walk { from: offset, rows: (sign(rows) * (to_step - from_step)) as i64 }
                }
            },
        }
    }

    /// The walk from `offset`, the frame at step `from_step`, to the frame at step `to_step`.
    pub fn walk(
        &self,
        text: RopeSlice,
        folds: &Folds,
        offset: ViewPosition,
        from_step: usize,
        to_step: usize,
    ) -> (walk: Walk)
        requires
            self.wf(),
            folds.valid(chars_of(text)),
            from_step <= self.length(),
            to_step <= self.length(),
            self.length() <= i64::MAX,
            *self matches Path::Far { start_row, lines, .. } ==> start_row + size(lines)
                <= usize::MAX,
        ensures
            walk == self.walk_between(
                chars_of(text),
                *folds,
                offset,
                from_step as int,
                to_step as int,
            ),
    {
        match *self {
            Path::Rows(rows) => Walk {
                from: offset,
                rows: steps(signum(rows), from_step, to_step),
            },
            Path::Far { start_row, lines, approach, rows } => {
                let bulk: usize = magnitude(lines) as usize;
                if to_step <= bulk {
                    let row: usize = if lines >= 0 {
                        start_row + to_step
                    } else {
                        start_row - to_step
                    };
                    assert(row == start_row + sign(lines) * to_step) by (nonlinear_arith)
                        requires
                            sign(lines) == 1 && row == start_row + to_step || sign(lines) == -1
                                && row == start_row - to_step || sign(lines) == 0 && to_step == 0
                                && row == start_row,
                    ;
                    proof {
                        lemma_row_begin_bound(
                            folds.top(),
                            chars_of(text),
                            row as nat,
                            breaks(chars_of(text)),
                        );
                    }
                    let line: usize = folds.row_start(text, row);
                    Walk {
                        from: ViewPosition {
                            anchor: text.line_to_char(line),
                            vertical_offset: 0,
                            ..offset
                        },
                        rows: 0,
                    }
                } else if from_step <= bulk {
                    Walk { from: approach, rows: steps(signum(rows), bulk, to_step) }
                } else {
                    Walk { from: offset, rows: steps(signum(rows), from_step, to_step) }
                }
            },
        }
    }
}

proof fn lemma_row_begin_bound(folds: Seq<Fold>, s: Seq<char>, row: nat, line: nat)
    ensures
        row_begin(folds, s, row, line) <= line,
    decreases line,
{
    if line > 0 {
        lemma_row_begin_bound(folds, s, row, (line - 1) as nat);
    }
}

fn steps(sign: i64, from: usize, to: usize) -> (rows: i64)
    requires
        -1 <= sign <= 1,
        from <= i64::MAX,
        to <= i64::MAX,
    ensures
        rows == sign * (to - from),
{
    let rows: i64 = to as i64 - from as i64;
    if sign == 1 {
        assert(sign * (to - from) == to - from) by (nonlinear_arith)
            requires
                sign == 1,
        ;
        rows
    } else if sign == 0 {
        assert(sign * (to - from) == 0) by (nonlinear_arith)
            requires
                sign == 0,
        ;
        0
    } else {
        assert(sign * (to - from) == -(to - from)) by (nonlinear_arith)
            requires
                sign == -1,
        ;
        -rows
    }
}

/// The rows walked by the frames of a path add up to the whole path.
pub proof fn law_walks_add_up(rows: i64, a: int, b: int, c: int)
    ensures
        sign(rows) * (b - a) + sign(rows) * (c - b) == sign(rows) * (c - a),
        sign(rows) * size(rows) == rows,
{
    assert(sign(rows) * (b - a) + sign(rows) * (c - b) == sign(rows) * (c - a)) by (nonlinear_arith);
    assert(sign(rows) * size(rows) == rows) by (nonlinear_arith)
        requires
            rows > 0 && sign(rows) == 1 && size(rows) == rows || rows < 0 && sign(rows) == -1
                && size(rows) == -rows || rows == 0 && sign(rows) == 0,
    ;
}

/// Rows scrolled one after the other add up, and what pushes the cursor along does not add to them.
pub proof fn law_synced_motions_add_up(
    earlier: i64,
    rows: i64,
    before: Movement,
    movement: Movement,
    direction: Direction,
)
    requires
        i64::MIN <= earlier + rows <= i64::MAX,
    ensures
        ({
            let synced = SelectionMotion::Synced { rows, movement };
            let pushed = SelectionMotion::Pushed { direction, movement };
            let previous = SelectionMotion::Synced { rows: earlier, movement: before };
            &&& synced.following(Some(previous)).synced_rows() == earlier + rows
            &&& synced.following(None) == synced
            &&& synced.following(Some(pushed)) == synced
            &&& pushed.following(Some(previous)) == pushed
            &&& pushed.synced_rows() == 0
        }),
{
}

impl Measure {
    /// The rows between two positions are those between their anchors, with how far the lower one is
    /// below its anchor and without how far the upper one is below its own. They count as negative on
    /// the way up. Too far apart, they are the most that is walked.
    pub proof fn law_rows_are_measured_between_positions(self, distance: usize)
        ensures
            self.forward ==> self.rows(Some(distance)) + self.top.vertical_offset == distance
                + self.bottom.vertical_offset,
            !self.forward ==> -self.rows(Some(distance)) + self.top.vertical_offset == distance
                + self.bottom.vertical_offset,
            self.forward ==> self.rows(None) == self.limit,
            !self.forward ==> self.rows(None) == -self.limit,
    {
    }
}

/// A position is above another one if its anchor is, or if it is fewer rows below the same anchor.
pub proof fn law_positions_are_ordered(from: ViewPosition, to: ViewPosition)
    ensures
        to.anchor > from.anchor ==> not_above(from, to) && !not_above(to, from),
        to.anchor == from.anchor ==> (not_above(from, to) <==> to.vertical_offset
            >= from.vertical_offset),
        not_above(from, to) || not_above(to, from),
{
}

impl Path {
    /// A path walked row by row goes on from the frame drawn last, down for a path down and up for
    /// one up, by as many rows as the steps are apart.
    pub proof fn law_paths_go_their_way(
        self,
        s: Seq<char>,
        folds: Folds,
        offset: ViewPosition,
        from_step: int,
        to_step: int,
        rows: i64,
    )
        requires
            self == Path::Rows(rows),
            0 <= from_step <= to_step <= self.length(),
        ensures
            ({
                let walk = self.walk_between(s, folds, offset, from_step, to_step);
                &&& walk.from == offset
                &&& rows > 0 ==> walk.rows == to_step - from_step
                &&& rows < 0 ==> -walk.rows == to_step - from_step
            }),
    {
        assert(-1 * (to_step - from_step) == from_step - to_step) by (nonlinear_arith);
        assert(1 * (to_step - from_step) == to_step - from_step) by (nonlinear_arith);
    }

    /// A far path first covers its lines, from row to row of the text, and then walks its rows from
    /// where it approaches the target.
    pub proof fn law_far_paths_cover_lines_first(
        self,
        s: Seq<char>,
        folds: Folds,
        offset: ViewPosition,
        from_step: int,
        to_step: int,
        start_row: usize,
        lines: i64,
        approach: ViewPosition,
        rows: i64,
    )
        requires
            self == (Path::Far { start_row, lines, approach, rows }),
            self.wf(),
            0 <= from_step <= to_step <= self.length(),
        ensures
            ({
                let walk = self.walk_between(s, folds, offset, from_step, to_step);
                let covered = if lines < 0 {
                    -lines
                } else {
                    lines as int
                };
                &&& to_step <= covered && lines > 0 ==> walk.rows == 0 && walk.from.anchor
                    == line_start(s, Path::line_of_row(folds, s, start_row + to_step)) as usize
                &&& to_step <= covered && lines < 0 ==> walk.rows == 0 && walk.from.anchor
                    == line_start(s, Path::line_of_row(folds, s, start_row - to_step)) as usize
                &&& to_step <= covered ==> walk.from.vertical_offset == 0
                &&& from_step <= covered < to_step ==> walk.from == approach
                &&& covered < from_step ==> walk.from == offset
                &&& from_step <= covered < to_step && rows > 0 ==> walk.rows == to_step - covered
                &&& from_step <= covered < to_step && rows < 0 ==> -walk.rows == to_step - covered
                &&& covered < from_step && rows > 0 ==> walk.rows == to_step - from_step
                &&& covered < from_step && rows < 0 ==> -walk.rows == to_step - from_step
            }),
    {
        let covered = size(lines);
        assert(-1 * (to_step - from_step) == from_step - to_step) by (nonlinear_arith);
        assert(1 * (to_step - from_step) == to_step - from_step) by (nonlinear_arith);
        assert(-1 * (to_step - covered) == covered - to_step) by (nonlinear_arith);
        assert(1 * (to_step - covered) == to_step - covered) by (nonlinear_arith);
        assert(-1 * to_step == -to_step) by (nonlinear_arith);
        assert(1 * to_step == to_step) by (nonlinear_arith);
    }
}

} // verus!
