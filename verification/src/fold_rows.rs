//! The visual rows that closed folds make of the lines of a text.
//!
//! A closed fold joins its lines into one row, and folds chain: a row goes on for as long as a
//! line continues it. The functions here take the folds that are not inside another one, sorted
//! and disjoint.

use crate::fold::Fold;
use crate::selection::Range;
use crate::text::{
    breaks, chars_of, lemma_break_at, lemma_in_line, lemma_line_end, lemma_line_of_bound,
    lemma_line_of_monotone, lemma_line_start, lemma_line_start_monotone, line_count, line_end,
    line_end_char_index, line_of, line_start,
};
use ropey::RopeSlice;
use vstd::prelude::*;

verus! {

/// Whether the folds are sorted and disjoint, and none of them is empty.
pub open spec fn disjoint(folds: Seq<Fold>) -> bool {
    &&& forall|i: int| 0 <= i < folds.len() ==> (#[trigger] folds[i]).start < folds[i].end
    &&& forall|i: int, j: int|
        #![trigger folds[i], folds[j]]
        0 <= i < j < folds.len() ==> folds[i].end <= folds[j].start
}

/// Whether every fold lies in the text.
pub open spec fn all_within(folds: Seq<Fold>, s: Seq<char>) -> bool {
    forall|i: int| 0 <= i < folds.len() ==> (#[trigger] folds[i]).within(s)
}

/// Whether every fold hides the line break of its header and some text after it.
pub open spec fn all_hide(folds: Seq<Fold>, s: Seq<char>) -> bool {
    forall|i: int| 0 <= i < folds.len() ==> (#[trigger] folds[i]).hides(s)
}

/// Whether `line` continues the row of an earlier line: a fold hides the start of the line, or the
/// row of a fold's header continues right at it.
pub open spec fn continues(folds: Seq<Fold>, s: Seq<char>, line: nat) -> bool {
    exists|i: int|
        0 <= i < folds.len() && (#[trigger] folds[i]).start < line_start(s, line)
            && line_start(s, line) <= folds[i].end
}

/// The first line of the row that `line` is on.
pub open spec fn row_first(folds: Seq<Fold>, s: Seq<char>, line: nat) -> nat
    decreases line,
{
    if line == 0 || !continues(folds, s, line) {
        line
    } else {
        row_first(folds, s, (line - 1) as nat)
    }
}

/// The number of rows before the one that `line` is on.
pub open spec fn row_number(folds: Seq<Fold>, s: Seq<char>, line: nat) -> nat
    decreases line,
{
    if line == 0 {
        0
    } else {
        row_number(folds, s, (line - 1) as nat) + if continues(folds, s, line) {
            0nat
        } else {
            1nat
        }
    }
}

/// The first line of the last of the rows up to `line` that has at most `row` rows before it.
pub open spec fn row_begin(folds: Seq<Fold>, s: Seq<char>, row: nat, line: nat) -> nat
    decreases line,
{
    if line == 0 || (!continues(folds, s, line) && row_number(folds, s, line) <= row) {
        line
    } else {
        row_begin(folds, s, row, (line - 1) as nat)
    }
}

/// The first line of the row `count` rows below the row of `line`, or of the last row.
pub open spec fn row_below(folds: Seq<Fold>, s: Seq<char>, line: nat, count: nat) -> nat {
    row_begin(folds, s, row_number(folds, s, line) + count, breaks(s))
}

/// The first line of the row `count` rows above the row of `line`, or of the first row.
pub open spec fn row_above(folds: Seq<Fold>, s: Seq<char>, line: nat, count: nat) -> nat {
    let row = row_number(folds, s, line);
    row_begin(
        folds,
        s,
        if row >= count {
            (row - count) as nat
        } else {
            0
        },
        breaks(s),
    )
}

/// Whether a fold starts at `pos`.
pub open spec fn starts_at(folds: Seq<Fold>, pos: nat) -> bool {
    exists|i: int| 0 <= i < folds.len() && (#[trigger] folds[i]).start == pos
}

/// The fold that starts at `pos`.
pub open spec fn fold_starting_at(folds: Seq<Fold>, pos: nat) -> Fold {
    folds[choose|i: int| 0 <= i < folds.len() && (#[trigger] folds[i]).start == pos]
}

/// The last line of the row that starts on `line`: the row goes on where a fold at the end of a
/// line leads to.
pub open spec fn row_last(folds: Seq<Fold>, s: Seq<char>, line: nat) -> nat
    decreases line_count(s) - line,
{
    let end = line_end(s, line);
    let fold = fold_starting_at(folds, end);
    if starts_at(folds, end) && line < fold.last(s) < line_count(s) {
        row_last(folds, s, fold.last(s))
    } else {
        line
    }
}

/// Whether a fold hides the char at `pos`.
pub open spec fn hidden(folds: Seq<Fold>, pos: int) -> bool {
    exists|i: int|
        0 <= i < folds.len() && (#[trigger] folds[i]).start <= pos && pos < folds[i].end
}

/// The number of folds that start before `pos`.
pub(crate) fn count_started(folds: &[Fold], pos: usize) -> (count: usize)
    requires
        disjoint(folds@),
    ensures
        count <= folds@.len(),
        forall|i: int| 0 <= i < count ==> (#[trigger] folds@[i]).start < pos,
        forall|i: int| count <= i < folds@.len() ==> (#[trigger] folds@[i]).start >= pos,
{
    let mut low: usize = 0;
    let mut high: usize = folds.len();
    while low < high
        invariant
            low <= high <= folds@.len(),
            disjoint(folds@),
            forall|i: int| 0 <= i < low ==> (#[trigger] folds@[i]).start < pos,
            forall|i: int| high <= i < folds@.len() ==> (#[trigger] folds@[i]).start >= pos,
        decreases high - low,
    {
        let mid: usize = low + (high - low) / 2;
        if folds[mid].start < pos {
            proof {
                assert forall|i: int| 0 <= i < mid + 1 implies (#[trigger] folds@[i]).start < pos by {
                    assert(i == mid || folds@[i].end <= folds@[mid as int].start);
                }
            }
            low = mid + 1;
        } else {
            proof {
                assert forall|i: int| mid <= i < folds@.len() implies (#[trigger] folds@[i]).start
                    >= pos by {
                    assert(i == mid || folds@[mid as int].end <= folds@[i].start);
                }
            }
            high = mid;
        }
    }
    low
}

/// The number of folds that end at or before `pos`.
pub(crate) fn count_ended(folds: &[Fold], pos: usize) -> (count: usize)
    requires
        disjoint(folds@),
    ensures
        count <= folds@.len(),
        forall|i: int| 0 <= i < count ==> (#[trigger] folds@[i]).end <= pos,
        forall|i: int| count <= i < folds@.len() ==> (#[trigger] folds@[i]).end > pos,
{
    let mut low: usize = 0;
    let mut high: usize = folds.len();
    while low < high
        invariant
            low <= high <= folds@.len(),
            disjoint(folds@),
            forall|i: int| 0 <= i < low ==> (#[trigger] folds@[i]).end <= pos,
            forall|i: int| high <= i < folds@.len() ==> (#[trigger] folds@[i]).end > pos,
        decreases high - low,
    {
        let mid: usize = low + (high - low) / 2;
        if folds[mid].end <= pos {
            proof {
                assert forall|i: int| 0 <= i < mid + 1 implies (#[trigger] folds@[i]).end <= pos by {
                    assert(i == mid || folds@[i].end <= folds@[mid as int].start);
                }
            }
            low = mid + 1;
        } else {
            proof {
                assert forall|i: int| mid <= i < folds@.len() implies (#[trigger] folds@[i]).end
                    > pos by {
                    assert(i == mid || folds@[mid as int].end <= folds@[i].start);
                }
            }
            high = mid;
        }
    }
    low
}

/// The fold of the sorted, disjoint `folds` whose cell or hidden text covers `char_idx`.
pub fn fold_at(folds: &[Fold], char_idx: usize) -> (found: Option<&Fold>)
    requires
        disjoint(folds@),
    ensures
        match found {
            Some(fold) => folds@.contains(*fold) && fold.start <= char_idx < fold.end,
            None => !hidden(folds@, char_idx as int),
        },
{
    let i: usize = count_ended(folds, char_idx);
    if i < folds.len() && folds[i].start <= char_idx {
        assert(folds@[i as int].end > char_idx);
        Some(&folds[i])
    } else {
        proof {
            assert forall|k: int| 0 <= k < folds@.len() implies !((#[trigger] folds@[k]).start
                <= char_idx && char_idx < folds@[k].end) by {
                if k > i {
                    assert(folds@[i as int].end <= folds@[k].start);
                }
            }
        }
        None
    }
}

/// The first line of the visual row that `line` is on, given the outermost `folds`.
pub fn row_start_line(folds: &[Fold], text: RopeSlice, line: usize) -> (first: usize)
    requires
        disjoint(folds@),
        all_within(folds@, chars_of(text)),
        line < line_count(chars_of(text)),
    ensures
        first as nat == row_first(folds@, chars_of(text), line as nat),
        first <= line,
{
    let ghost s = chars_of(text);
    let mut at: usize = line;
    loop
        invariant
            disjoint(folds@),
            all_within(folds@, s),
            s == chars_of(text),
            at <= line < line_count(s),
            row_first(folds@, s, line as nat) == row_first(folds@, s, at as nat),
        decreases at,
    {
        let line_start_pos: usize = text.line_to_char(at);
        let i: usize = count_started(folds, line_start_pos);
        // the fold hides the start of the at or its row continues right at it
        if i > 0 && line_start_pos <= folds[i - 1].end {
            let fold: Fold = folds[i - 1];
            assert(folds@[i - 1].within(s));
            let header: usize = fold.header_line(text);
            proof {
                lemma_line_start(s, at as nat, fold.start as int);
                assert forall|l: nat| header < l <= at implies #[trigger] continues(folds@, s, l) by {
                    lemma_line_of_bound(s, fold.start as int);
                    lemma_line_start(s, l, fold.start as int);
                    lemma_line_start_monotone(s, l, at as nat);
                    assert(folds@[i - 1].start < line_start(s, l));
                }
                lemma_row_first_skip(folds@, s, header as nat, at as nat);
            }
            at = header;
        } else {
            proof {
                assert(!continues(folds@, s, at as nat)) by {
                    if continues(folds@, s, at as nat) {
                        let k = choose|k: int|
                            0 <= k < folds@.len() && (#[trigger] folds@[k]).start < line_start(
                                s,
                                at as nat,
                            ) && line_start(s, at as nat) <= folds@[k].end;
                        if k < i - 1 {
                            assert(folds@[k].end <= folds@[i - 1].start);
                        }
                    }
                }
            }
            return at;
        }
    }
}

pub proof fn lemma_row_first_skip(folds: Seq<Fold>, s: Seq<char>, a: nat, b: nat)
    requires
        a <= b,
        forall|l: nat| a < l <= b ==> #[trigger] continues(folds, s, l),
    ensures
        row_first(folds, s, b) == row_first(folds, s, a),
        row_number(folds, s, b) == row_number(folds, s, a),
    decreases b,
{
    if a < b {
        assert(continues(folds, s, b));
        lemma_row_first_skip(folds, s, a, (b - 1) as nat);
    }
}

/// The last line of the visual row starting on `line`, given the outermost `folds`.
pub fn row_end_line(folds: &[Fold], text: RopeSlice, line: usize) -> (last: usize)
    requires
        disjoint(folds@),
        all_hide(folds@, chars_of(text)),
        line < line_count(chars_of(text)),
    ensures
        last as nat == row_last(folds@, chars_of(text), line as nat),
        line <= last < line_count(chars_of(text)),
{
    let ghost s = chars_of(text);
    let mut at: usize = line;
    loop
        invariant
            disjoint(folds@),
            all_hide(folds@, s),
            s == chars_of(text),
            line <= at < line_count(s),
            row_last(folds@, s, line as nat) == row_last(folds@, s, at as nat),
        decreases line_count(s) - at,
    {
        let end: usize = line_end_char_index(text, at);
        let i: usize = count_started(folds, end);
        if i < folds.len() && folds[i].start == end {
            let fold: Fold = folds[i];
            proof {
                assert(folds@[i as int].hides(s));
                let k = choose|k: int| 0 <= k < folds@.len() && (#[trigger] folds@[k]).start == end;
                assert(k == i) by {
                    if k < i {
                        assert(folds@[k].start < end);
                    } else if k > i {
                        assert(folds@[i as int].end <= folds@[k].start);
                    }
                }
                lemma_line_end(s, at as nat);
                lemma_fold_lines(fold, s);
            }
            at = fold.last_line(text);
        } else {
            proof {
                assert(!starts_at(folds@, end as nat)) by {
                    if starts_at(folds@, end as nat) {
                        let k = choose|k: int|
                            0 <= k < folds@.len() && (#[trigger] folds@[k]).start == end;
                        if k > i {
                            assert(folds@[i as int].end <= folds@[k].start);
                        }
                    }
                }
            }
            return at;
        }
    }
}

/// The lines of a fold that hides text: its header is not the last line, it starts at the end of
/// its header, and it ends on a later line.
pub proof fn lemma_fold_lines(fold: Fold, s: Seq<char>)
    requires
        fold.hides(s),
    ensures
        fold.start < fold.end <= s.len(),
        fold.header(s) < fold.last(s) < line_count(s),
        fold.start == line_end(s, fold.header(s)),
{
    lemma_break_at(s, fold.start as int);
    lemma_in_line(s, fold.start as int);
    lemma_line_start(s, fold.header(s) + 1, fold.end as int);
    lemma_line_of_bound(s, fold.end as int);
}

/// No fold goes past the end of `line` but those that start at it or later.
spec fn open_at(folds: Seq<Fold>, s: Seq<char>, line: nat) -> bool {
    forall|i: int|
        0 <= i < folds.len() ==> (#[trigger] folds[i]).end < line_start(s, line + 1)
            || folds[i].start >= line_end(s, line)
}

proof fn lemma_line_end_monotone(s: Seq<char>, a: nat, b: nat)
    requires
        a <= b <= breaks(s),
    ensures
        line_end(s, a) <= line_end(s, b),
{
    lemma_line_end(s, a);
    lemma_line_end(s, b);
    if a < b {
        lemma_line_start_monotone(s, a + 1, b);
    }
}

proof fn lemma_row_last(folds: Seq<Fold>, s: Seq<char>, line: nat)
    requires
        disjoint(folds),
        all_hide(folds, s),
        line < line_count(s),
        line + 1 < line_count(s) ==> open_at(folds, s, line),
    ensures
        line <= row_last(folds, s, line) < line_count(s),
        forall|l: nat|
            line < l <= row_last(folds, s, line) ==> #[trigger] continues(folds, s, l),
        row_last(folds, s, line) + 1 < line_count(s) ==> !continues(
            folds,
            s,
            row_last(folds, s, line) + 1,
        ),
    decreases line_count(s) - line,
{
    let end = line_end(s, line);
    lemma_line_end(s, line);
    if starts_at(folds, end) {
        let i = choose|i: int| 0 <= i < folds.len() && (#[trigger] folds[i]).start == end;
        let fold = folds[i];
        assert(fold.hides(s));
        lemma_fold_lines(fold, s);
        assert(fold.header(s) == line);
        let next = fold.last(s);
        if next + 1 < line_count(s) {
            assert forall|k: int| 0 <= k < folds.len() implies (#[trigger] folds[k]).end
                < line_start(s, next + 1) || folds[k].start >= line_end(s, next) by {
                lemma_in_line(s, fold.end as int);
                if k < i {
                    assert(folds[k].end <= folds[i].start);
                } else if k > i {
                    assert(folds[i].end <= folds[k].start);
                    assert(folds[k].hides(s));
                    lemma_fold_lines(folds[k], s);
                    lemma_line_of_monotone(s, fold.end as int, folds[k].start as int);
                    lemma_line_of_bound(s, folds[k].start as int);
                    lemma_line_end_monotone(s, next, folds[k].header(s));
                }
            }
        }
        lemma_row_last(folds, s, next);
        assert forall|l: nat| line < l <= row_last(folds, s, line) implies #[trigger] continues(
            folds,
            s,
            l,
        ) by {
            if l <= next {
                lemma_line_start(s, l, fold.start as int);
                lemma_line_start(s, l, fold.end as int);
                assert(folds[i].start < line_start(s, l));
            }
        }
    } else if line + 1 < line_count(s) {
        assert(!continues(folds, s, line + 1)) by {
            if continues(folds, s, line + 1) {
                let k = choose|k: int|
                    0 <= k < folds.len() && (#[trigger] folds[k]).start < line_start(s, line + 1)
                        && line_start(s, line + 1) <= folds[k].end;
                assert(folds[k].hides(s));
                lemma_fold_lines(folds[k], s);
                let start = folds[k].start as int;
                lemma_line_of_monotone(s, end as int, start);
                lemma_line_start(s, line + 1, start);
                assert(folds[k].header(s) == line);
                assert(starts_at(folds, end));
            }
        }
    }
}

/// A row goes from its first line on over the lines that continue it, and no further: a line that
/// starts a row leads to the last line of its row, and the line after that starts the next one.
pub proof fn law_rows_end(folds: Seq<Fold>, s: Seq<char>, line: nat)
    requires
        disjoint(folds),
        all_hide(folds, s),
        line < line_count(s),
        !continues(folds, s, line),
    ensures
        line <= row_last(folds, s, line) < line_count(s),
        forall|l: nat|
            line < l <= row_last(folds, s, line) ==> #[trigger] continues(folds, s, l),
        row_last(folds, s, line) + 1 < line_count(s) ==> !continues(
            folds,
            s,
            row_last(folds, s, line) + 1,
        ),
{
    if line + 1 < line_count(s) {
        assert forall|k: int| 0 <= k < folds.len() implies (#[trigger] folds[k]).end < line_start(
            s,
            line + 1,
        ) || folds[k].start >= line_end(s, line) by {
            assert(folds[k].hides(s));
            lemma_fold_lines(folds[k], s);
            let start = folds[k].start as int;
            lemma_line_start_monotone(s, line, line + 1);
            if start < line_start(s, line) {
                assert(folds[k].end < line_start(s, line));
            } else {
                lemma_line_start(s, line, start);
                lemma_line_of_bound(s, start);
                lemma_line_end_monotone(s, line, folds[k].header(s));
            }
        }
    }
    lemma_row_last(folds, s, line);
}

/// The first line of a row starts it, and the row has the same number for all of its lines.
pub proof fn lemma_row_first(folds: Seq<Fold>, s: Seq<char>, line: nat)
    ensures
        row_first(folds, s, line) <= line,
        !continues(folds, s, row_first(folds, s, line)),
        row_number(folds, s, row_first(folds, s, line)) == row_number(folds, s, line),
        row_number(folds, s, line) <= line,
    decreases line,
{
    if line > 0 {
        lemma_row_first(folds, s, (line - 1) as nat);
    }
}

pub proof fn lemma_row_number_monotone(folds: Seq<Fold>, s: Seq<char>, a: nat, b: nat)
    requires
        a <= b,
    ensures
        row_number(folds, s, a) <= row_number(folds, s, b),
        row_number(folds, s, b) - row_number(folds, s, a) <= b - a,
        a < b && !continues(folds, s, b) ==> row_number(folds, s, a) < row_number(folds, s, b),
    decreases b,
{
    if a < b {
        lemma_row_number_monotone(folds, s, a, (b - 1) as nat);
    }
}

/// The first line of a row is what `row_begin` finds for the row's number.
pub proof fn lemma_row_begin(folds: Seq<Fold>, s: Seq<char>, line: nat, last: nat)
    requires
        line <= last,
        !continues(folds, s, line),
    ensures
        row_begin(folds, s, row_number(folds, s, line), last) == line,
    decreases last,
{
    if line < last {
        lemma_row_number_monotone(folds, s, line, last);
        lemma_row_begin(folds, s, line, (last - 1) as nat);
    }
}

/// Past the last row, `row_begin` finds the last row.
pub proof fn lemma_row_begin_past(folds: Seq<Fold>, s: Seq<char>, row: nat, last: nat)
    requires
        row >= row_number(folds, s, last),
    ensures
        row_begin(folds, s, row, last) == row_first(folds, s, last),
    decreases last,
{
    if last > 0 {
        lemma_row_number_monotone(folds, s, (last - 1) as nat, last);
        if continues(folds, s, last) {
            lemma_row_begin_past(folds, s, row, (last - 1) as nat);
        }
    }
}

proof fn lemma_row_begin_found(folds: Seq<Fold>, s: Seq<char>, row: nat, last: nat)
    requires
        row <= row_number(folds, s, last),
    ensures
        row_begin(folds, s, row, last) <= last,
        row_number(folds, s, row_begin(folds, s, row, last)) == row,
    decreases last,
{
    if last > 0 && (continues(folds, s, last) || row_number(folds, s, last) > row) {
        lemma_row_begin_found(folds, s, row, (last - 1) as nat);
    }
}

/// The row of a line starts on the first line of that row, and the first line of a row is on it.
pub proof fn law_rows_are_found_again(folds: Seq<Fold>, s: Seq<char>, line: nat, row: nat)
    requires
        line <= breaks(s),
        row <= row_number(folds, s, breaks(s)),
    ensures
        row_number(folds, s, line) <= row_number(folds, s, breaks(s)),
        row_begin(folds, s, row_number(folds, s, line), breaks(s)) == row_first(folds, s, line),
        row_begin(folds, s, row, breaks(s)) <= breaks(s),
        row_number(folds, s, row_begin(folds, s, row, breaks(s))) == row,
{
    lemma_row_first(folds, s, line);
    lemma_row_number_monotone(folds, s, line, breaks(s));
    lemma_row_begin(folds, s, row_first(folds, s, line), breaks(s));
    lemma_row_begin_found(folds, s, row, breaks(s));
}

/// Going down some rows and back up, or up and back down, ends on the first line of the row where
/// it began, unless the first or the last row is in the way.
pub proof fn law_rows_there_and_back(folds: Seq<Fold>, s: Seq<char>, line: nat, count: nat)
    requires
        line <= breaks(s),
    ensures
        row_number(folds, s, line) + count <= row_number(folds, s, breaks(s)) ==> row_above(
            folds,
            s,
            row_below(folds, s, line, count),
            count,
        ) == row_first(folds, s, line),
        count <= row_number(folds, s, line) ==> row_below(
            folds,
            s,
            row_above(folds, s, line, count),
            count,
        ) == row_first(folds, s, line),
{
    let row = row_number(folds, s, line);
    let last = breaks(s);
    lemma_row_first(folds, s, line);
    lemma_row_number_monotone(folds, s, line, last);
    lemma_row_begin(folds, s, row_first(folds, s, line), last);
    if row + count <= row_number(folds, s, last) {
        lemma_row_begin_found(folds, s, row + count, last);
    }
    if count <= row {
        lemma_row_begin_found(folds, s, (row - count) as nat, last);
    }
}

/// The first and the last line of the visual row that `line` is on, given the outermost `folds`.
pub fn row_lines(folds: &[Fold], text: RopeSlice, line: usize) -> (lines: (usize, usize))
    requires
        disjoint(folds@),
        all_hide(folds@, chars_of(text)),
        line < line_count(chars_of(text)),
    ensures
        lines.0 as nat == row_first(folds@, chars_of(text), line as nat),
        lines.1 as nat == row_last(folds@, chars_of(text), lines.0 as nat),
        lines.0 <= lines.1 < line_count(chars_of(text)),
{
    proof {
        lemma_all_within(folds@, chars_of(text));
    }
    let first: usize = row_start_line(folds, text, line);
    (first, row_end_line(folds, text, first))
}

/// Folds that hide text lie in the text.
pub proof fn lemma_all_within(folds: Seq<Fold>, s: Seq<char>)
    requires
        all_hide(folds, s),
    ensures
        all_within(folds, s),
{
    assert forall|i: int| 0 <= i < folds.len() implies (#[trigger] folds[i]).within(s) by {
        lemma_fold_lines(folds[i], s);
    }
}

/// The first and the last line of the visual rows that `range` covers, given the outermost
/// `folds`, like [`Range::line_range`] does for lines.
pub fn row_line_range(folds: &[Fold], text: RopeSlice, range: &Range) -> (lines: (usize, usize))
    requires
        disjoint(folds@),
        all_hide(folds@, chars_of(text)),
        range.within(chars_of(text)),
    ensures
        lines.0 as nat == row_first(
            folds@,
            chars_of(text),
            line_of(chars_of(text), range.low() as int),
        ),
        lines.1 as nat == row_last(
            folds@,
            chars_of(text),
            row_first(
                folds@,
                chars_of(text),
                line_of(chars_of(text), range.last_in(chars_of(text)) as int),
            ),
        ),
{
    let (from, to): (usize, usize) = range.line_range(text);
    proof {
        let s = chars_of(text);
        lemma_all_within(folds@, s);
        lemma_line_of_bound(s, range.low() as int);
        lemma_line_of_bound(s, range.last_in(s) as int);
    }
    (row_start_line(folds, text, from), row_lines(folds, text, to).1)
}

/// The first line of the visual row `count` rows below the row of `line`, or of the last row.
pub fn next_row(folds: &[Fold], text: RopeSlice, line: usize, count: usize) -> (below: usize)
    requires
        disjoint(folds@),
        all_hide(folds@, chars_of(text)),
        line < line_count(chars_of(text)),
    ensures
        below as nat == row_below(folds@, chars_of(text), line as nat, count as nat),
{
    let ghost s = chars_of(text);
    let ghost first = row_number(folds@, s, line as nat);
    proof {
        lemma_all_within(folds@, s);
        lemma_row_first(folds@, s, line as nat);
    }
    let last_line: usize = text.len_lines() - 1;
    let mut at: usize = row_start_line(folds, text, line);
    let mut moved: usize = 0;
    while moved < count
        invariant
            disjoint(folds@),
            all_hide(folds@, s),
            s == chars_of(text),
            at <= last_line == breaks(s),
            moved <= count,
            first == row_number(folds@, s, line as nat),
            !continues(folds@, s, at as nat),
            row_number(folds@, s, at as nat) == first + moved,
        decreases count - moved,
    {
        proof {
            law_rows_end(folds@, s, at as nat);
        }
        let end: usize = row_end_line(folds, text, at);
        proof {
            lemma_row_first_skip(folds@, s, at as nat, end as nat);
        }
        if end == last_line {
            proof {
                lemma_row_begin_past(folds@, s, first + count as nat, last_line as nat);
                lemma_row_begin(folds@, s, at as nat, last_line as nat);
                lemma_row_begin_past(folds@, s, first + moved as nat, last_line as nat);
            }
            return at;
        }
        at = end + 1;
        moved += 1;
    }
    proof {
        lemma_row_begin(folds@, s, at as nat, last_line as nat);
    }
    at
}

/// The first line of the visual row `count` rows above the row of `line`, or of the first row.
pub fn prev_row(folds: &[Fold], text: RopeSlice, line: usize, count: usize) -> (above: usize)
    requires
        disjoint(folds@),
        all_within(folds@, chars_of(text)),
        line < line_count(chars_of(text)),
    ensures
        above as nat == row_above(folds@, chars_of(text), line as nat, count as nat),
{
    let ghost s = chars_of(text);
    let ghost first = row_number(folds@, s, line as nat);
    proof {
        lemma_row_first(folds@, s, line as nat);
    }
    let mut at: usize = row_start_line(folds, text, line);
    let mut moved: usize = 0;
    while moved < count
        invariant
            disjoint(folds@),
            all_within(folds@, s),
            s == chars_of(text),
            at <= breaks(s),
            moved <= count,
            first == row_number(folds@, s, line as nat),
            !continues(folds@, s, at as nat),
            moved + row_number(folds@, s, at as nat) == first,
        decreases count - moved,
    {
        if at == 0 {
            proof {
                lemma_row_begin(folds@, s, 0, breaks(s));
            }
            return 0;
        }
        proof {
            lemma_row_first(folds@, s, (at - 1) as nat);
        }
        at = row_start_line(folds, text, at - 1);
        moved += 1;
    }
    proof {
        lemma_row_begin(folds@, s, at as nat, breaks(s));
    }
    at
}

/// The parts of `range` that the outermost `folds` do not hide.
pub fn visible_ranges(folds: &[Fold], range: std::ops::Range<usize>) -> (visible: Vec<
    std::ops::Range<usize>,
>)
    requires
        disjoint(folds@),
    ensures
        forall|k: int|
            0 <= k < visible@.len() ==> range.start <= (#[trigger] visible@[k]).start
                < visible@[k].end <= range.end,
        forall|j: int, k: int|
            #![trigger visible@[j], visible@[k]]
            0 <= j < k < visible@.len() ==> visible@[j].end < visible@[k].start,
        forall|pos: int|
            range.start <= pos < range.end ==> (#[trigger] hidden(folds@, pos) <==> !exists|k: int|
                0 <= k < visible@.len() && (#[trigger] visible@[k]).start <= pos < visible@[k].end),
{
    let mut i: usize = count_ended(folds, range.start);
    let mut start: usize = range.start;
    let mut visible: Vec<std::ops::Range<usize>> = Vec::new();
    while i < folds.len() && start < range.end && folds[i].start < range.end
        invariant
            disjoint(folds@),
            i <= folds@.len(),
            range.start <= start,
            forall|k: int| 0 <= k < i ==> (#[trigger] folds@[k]).end <= start,
            forall|k: int| i <= k < folds@.len() ==> (#[trigger] folds@[k]).end > start,
            forall|k: int|
                0 <= k < visible@.len() ==> range.start <= (#[trigger] visible@[k]).start
                    < visible@[k].end <= range.end && visible@[k].end < start,
            forall|j: int, k: int|
                #![trigger visible@[j], visible@[k]]
                0 <= j < k < visible@.len() ==> visible@[j].end < visible@[k].start,
            forall|pos: int|
                range.start <= pos < start && pos < range.end ==> (#[trigger] hidden(folds@, pos)
                    <==> !exists|k: int|
                    0 <= k < visible@.len() && (#[trigger] visible@[k]).start <= pos
                        < visible@[k].end),
        decreases folds.len() - i,
    {
        let fold: Fold = folds[i];
        let ghost old_start = start as int;
        let ghost before = visible@;
        if fold.start > start {
            visible.push(start..fold.start);
        }
        start = fold.end;
        proof {
            assert forall|k: int| i + 1 <= k < folds@.len() implies (#[trigger] folds@[k]).end
                > start by {
                assert(folds@[i as int].end <= folds@[k].start);
            }
            assert forall|pos: int|
                range.start <= pos < start && pos < range.end implies (#[trigger] hidden(
                folds@,
                pos,
            ) <==> !exists|k: int|
                0 <= k < visible@.len() && (#[trigger] visible@[k]).start <= pos < visible@[k].end) by {
                if pos < old_start {
                    if hidden(folds@, pos) {
                        assert forall|k: int| 0 <= k < visible@.len() implies !((
                        #[trigger] visible@[k]).start <= pos < visible@[k].end) by {
                            if k < before.len() {
                                assert(visible@[k] == before[k]);
                            }
                        }
                    } else {
                        let k = choose|k: int|
                            0 <= k < before.len() && (#[trigger] before[k]).start <= pos
                                < before[k].end;
                        assert(visible@[k] == before[k]);
                    }
                } else if pos < fold.start {
                    assert(visible@[before.len() as int].start <= pos
                        < visible@[before.len() as int].end);
                    assert(!hidden(folds@, pos)) by {
                        if hidden(folds@, pos) {
                            let k = choose|k: int|
                                0 <= k < folds@.len() && (#[trigger] folds@[k]).start <= pos && pos
                                    < folds@[k].end;
                            if k > i {
                                assert(folds@[i as int].end <= folds@[k].start);
                            }
                        }
                    }
                } else {
                    assert(folds@[i as int].start <= pos && pos < folds@[i as int].end);
                    assert forall|k: int| 0 <= k < visible@.len() implies !((
                    #[trigger] visible@[k]).start <= pos < visible@[k].end) by {
                        if k < before.len() {
                            assert(visible@[k] == before[k]);
                        }
                    }
                }
            }
        }
        i += 1;
    }
    let ghost before = visible@;
    let ghost rest = start as int;
    if start < range.end {
        visible.push(start..range.end);
    }
    proof {
        assert forall|pos: int| range.start <= pos < range.end implies (#[trigger] hidden(
            folds@,
            pos,
        ) <==> !exists|k: int|
            0 <= k < visible@.len() && (#[trigger] visible@[k]).start <= pos < visible@[k].end) by {
            if pos < rest {
                if hidden(folds@, pos) {
                    assert forall|k: int| 0 <= k < visible@.len() implies !((
                    #[trigger] visible@[k]).start <= pos < visible@[k].end) by {
                        if k < before.len() {
                            assert(visible@[k] == before[k]);
                        }
                    }
                } else {
                    let k = choose|k: int|
                        0 <= k < before.len() && (#[trigger] before[k]).start <= pos
                            < before[k].end;
                    assert(visible@[k] == before[k]);
                }
            } else {
                assert(visible@[before.len() as int].start <= pos
                    < visible@[before.len() as int].end);
                assert(!hidden(folds@, pos)) by {
                    if hidden(folds@, pos) {
                        let k = choose|k: int|
                            0 <= k < folds@.len() && (#[trigger] folds@[k]).start <= pos && pos
                                < folds@[k].end;
                        if k > i {
                            assert(folds@[i as int].end <= folds@[k].start);
                        }
                    }
                }
            }
        }
    }
    visible
}

/// A line continues the row of the line before it exactly if a fold hides the end of that line.
pub proof fn law_lines_continue_where_breaks_are_hidden(folds: Seq<Fold>, s: Seq<char>, line: nat)
    ensures
        continues(folds, s, line) <==> line_start(s, line) > 0 && hidden(
            folds,
            line_start(s, line) - 1,
        ),
{
    let start = line_start(s, line) as int;
    if continues(folds, s, line) {
        let i = choose|i: int|
            0 <= i < folds.len() && (#[trigger] folds[i]).start < line_start(s, line) && line_start(
                s,
                line,
            ) <= folds[i].end;
        assert(folds[i].start <= start - 1 && start - 1 < folds[i].end);
    }
    if start > 0 && hidden(folds, start - 1) {
        let i = choose|i: int|
            0 <= i < folds.len() && (#[trigger] folds[i]).start <= start - 1 && start - 1
                < folds[i].end;
        assert(folds[i].start < start && start <= folds[i].end);
    }
}

/// The rows are numbered from the top: a line that continues a row has the number of the line before
/// it, and any other line the next number.
pub proof fn law_rows_are_numbered_from_the_top(folds: Seq<Fold>, s: Seq<char>, line: nat)
    ensures
        row_number(folds, s, 0) == 0,
        continues(folds, s, line + 1) ==> row_number(folds, s, line + 1) == row_number(
            folds,
            s,
            line,
        ),
        !continues(folds, s, line + 1) ==> row_number(folds, s, line + 1) == row_number(
            folds,
            s,
            line,
        ) + 1,
{
}

} // verus!
