//! Toggling folds, and numbering the rows that they leave.

use crate::fold::Fold;
use crate::fold_rows::{
    all_hide, all_within, continues, count_started, disjoint, lemma_fold_lines, lemma_row_begin,
    lemma_row_first_skip, lemma_row_number_monotone, row_begin, row_number,
};
use crate::fold_selection::lemma_top;
use crate::folds::Folds;
use crate::selection::Range;
use crate::text::{
    breaks, chars_of, lemma_line_end, lemma_line_of_bound, lemma_line_of_monotone,
    lemma_line_start, line_count, line_end_char_index, line_of, line_start,
};
use ropey::RopeSlice;
use vstd::prelude::*;

verus! {

/// What toggling a fold at a selection does, see [`Folds::toggle_target`].
#[derive(Clone, Copy, Debug, PartialEq, Eq, Structural)]
pub enum Toggle {
    Open(Fold),
    Close(Fold),
}

/// The first of the smallest regions that `candidate` holds of.
pub open spec fn innermost(regions: Seq<Fold>, candidate: spec_fn(Fold) -> bool) -> Option<Fold>
    decreases regions.len(),
{
    if regions.len() == 0 {
        None
    } else {
        let best = innermost(regions.drop_last(), candidate);
        let region = regions.last();
        if candidate(region) && (best matches Some(best) ==> region.end - region.start < best.end
            - best.start) {
            Some(region)
        } else {
            best
        }
    }
}

/// The fold that is drawn on `line`.
pub open spec fn headed_by(folds: Seq<Fold>, s: Seq<char>, line: nat) -> Option<Fold> {
    if exists|i: int| 0 <= i < folds.len() && (#[trigger] folds[i]).header(s) == line {
        Some(folds[choose|i: int| 0 <= i < folds.len() && (#[trigger] folds[i]).header(s) == line])
    } else {
        None
    }
}

/// The fold whose row continues on `line`.
pub open spec fn continued_on(folds: Seq<Fold>, s: Seq<char>, line: nat) -> Option<Fold> {
    if exists|i: int| 0 <= i < folds.len() && (#[trigger] folds[i]).last(s) == line {
        Some(folds[choose|i: int| 0 <= i < folds.len() && (#[trigger] folds[i]).last(s) == line])
    } else {
        None
    }
}

/// What toggling a fold at `range` does if no closed fold is drawn on its line.
pub open spec fn region_target(
    folds: Seq<Fold>,
    s: Seq<char>,
    range: Range,
    regions: Seq<Fold>,
) -> Option<Toggle> {
    let line = line_of(s, range.cursor_in(s) as int);
    let from = line_of(s, range.low() as int);
    let to = line_of(s, range.last_in(s) as int);
    let here = innermost(regions, |region: Fold| region.header(s) == line);
    if from == to && here is Some {
        Some(Toggle::Close(here->0))
    } else {
        match continued_on(folds, s, line) {
            Some(fold) => Some(Toggle::Open(fold)),
            None => match innermost(
                regions,
                |region: Fold| region.header(s) <= from && to <= region.last(s),
            ) {
                Some(region) => Some(Toggle::Close(region)),
                None => None,
            },
        }
    }
}

fn find_innermost_at(text: RopeSlice, regions: &Vec<Fold>, line: usize) -> (found: Option<Fold>)
    requires
        all_within(regions@, chars_of(text)),
    ensures
        found == innermost(
            regions@,
            |region: Fold| region.header(chars_of(text)) == line as nat,
        ),
{
    let ghost candidate = |region: Fold| region.header(chars_of(text)) == line as nat;
    let mut best: Option<Fold> = None;
    let mut i: usize = 0;
    while i < regions.len()
        invariant
            i <= regions@.len(),
            all_within(regions@, chars_of(text)),
            candidate == (|region: Fold| region.header(chars_of(text)) == line as nat),
            best == innermost(regions@.take(i as int), candidate),
            best matches Some(best) ==> best.within(chars_of(text)),
        decreases regions.len() - i,
    {
        let region: Fold = regions[i];
        proof {
            assert(regions@.take(i + 1).drop_last() =~= regions@.take(i as int));
            assert(regions@[i as int].within(chars_of(text)));
        }
        let smaller: bool = match best {
            Some(best) => region.end - region.start < best.end - best.start,
            None => true,
        };
        if region.header_line(text) == line && smaller {
            best = Some(region);
        }
        i += 1;
    }
    assert(regions@.take(i as int) =~= regions@);
    best
}

fn find_innermost_around(
    text: RopeSlice,
    regions: &Vec<Fold>,
    from: usize,
    to: usize,
) -> (found: Option<Fold>)
    requires
        all_within(regions@, chars_of(text)),
    ensures
        found == innermost(
            regions@,
            |region: Fold|
                region.header(chars_of(text)) <= from as nat && to as nat <= region.last(
                    chars_of(text),
                ),
        ),
{
    let ghost candidate = |region: Fold|
        region.header(chars_of(text)) <= from as nat && to as nat <= region.last(chars_of(text));
    let mut best: Option<Fold> = None;
    let mut i: usize = 0;
    while i < regions.len()
        invariant
            i <= regions@.len(),
            all_within(regions@, chars_of(text)),
            candidate == (|region: Fold|
                region.header(chars_of(text)) <= from as nat && to as nat <= region.last(
                    chars_of(text),
                )),
            best == innermost(regions@.take(i as int), candidate),
            best matches Some(best) ==> best.within(chars_of(text)),
        decreases regions.len() - i,
    {
        let region: Fold = regions[i];
        proof {
            assert(regions@.take(i + 1).drop_last() =~= regions@.take(i as int));
            assert(regions@[i as int].within(chars_of(text)));
        }
        let smaller: bool = match best {
            Some(best) => region.end - region.start < best.end - best.start,
            None => true,
        };
        if region.header_line(text) <= from && to <= region.last_line(text) && smaller {
            best = Some(region);
        }
        i += 1;
    }
    assert(regions@.take(i as int) =~= regions@);
    best
}

/// The innermost region is one of the regions, and `candidate` holds of it.
pub proof fn lemma_innermost(regions: Seq<Fold>, candidate: spec_fn(Fold) -> bool)
    ensures
        innermost(regions, candidate) matches Some(region) ==> regions.contains(region)
            && candidate(region),
        innermost(regions, candidate) is None ==> forall|i: int|
            0 <= i < regions.len() ==> !candidate(#[trigger] regions[i]),
    decreases regions.len(),
{
    if regions.len() > 0 {
        let rest = regions.drop_last();
        lemma_innermost(rest, candidate);
        assert(regions[regions.len() - 1] == regions.last());
        if let Some(best) = innermost(rest, candidate) {
            let i = choose|i: int| 0 <= i < rest.len() && rest[i] == best;
            assert(regions[i] == best);
        } else {
            assert forall|i: int| 0 <= i < regions.len() - 1 implies !candidate(
                #[trigger] regions[i],
            ) by {
                assert(!candidate(rest[i]));
            }
        }
    }
}

/// What toggling opens is an outermost fold, and what it closes is one of the regions.
pub proof fn lemma_region_target(
    folds: Seq<Fold>,
    s: Seq<char>,
    range: Range,
    regions: Seq<Fold>,
)
    ensures
        match region_target(folds, s, range, regions) {
            Some(Toggle::Open(fold)) => folds.contains(fold),
            Some(Toggle::Close(region)) => regions.contains(region),
            None => true,
        },
{
    let line = line_of(s, range.cursor_in(s) as int);
    let from = line_of(s, range.low() as int);
    let to = line_of(s, range.last_in(s) as int);
    lemma_innermost(regions, |region: Fold| region.header(s) == line);
    lemma_innermost(regions, |region: Fold| region.header(s) <= from && to <= region.last(s));
}

/// The number of lines that the first `n` of the folds join into earlier rows.
spec fn merged(folds: Seq<Fold>, s: Seq<char>, n: int) -> int
    decreases n,
{
    if n <= 0 {
        0
    } else {
        merged(folds, s, n - 1) + folds[n - 1].last(s) - folds[n - 1].header(s)
    }
}

/// A line continues a row if it is after the header of a fold and not after its last line.
proof fn lemma_continues(folds: Seq<Fold>, s: Seq<char>, line: nat, n: int)
    requires
        disjoint(folds),
        all_hide(folds, s),
        line <= breaks(s),
        0 <= n <= folds.len(),
        n > 0 ==> folds[n - 1].last(s) < line,
    ensures
        continues(folds, s, line) == (n < folds.len() && exists|k: int|
            n <= k < folds.len() && (#[trigger] folds[k]).header(s) < line <= folds[k].last(s)),
        n < folds.len() && line <= folds[n].header(s) ==> !continues(folds, s, line),
        n == folds.len() ==> !continues(folds, s, line),
{
    assert forall|k: int| 0 <= k < folds.len() implies ((#[trigger] folds[k]).start < line_start(
        s,
        line,
    ) && line_start(s, line) <= folds[k].end) == (folds[k].header(s) < line <= folds[k].last(s)) by {
        assert(folds[k].hides(s));
        lemma_fold_lines(folds[k], s);
        lemma_line_start(s, line, folds[k].start as int);
        lemma_line_start(s, line, folds[k].end as int);
    }
    assert forall|k: int| 0 <= k < n implies (#[trigger] folds[k]).last(s) < line by {
        assert(folds[k].hides(s) && folds[n - 1].hides(s));
        lemma_fold_lines(folds[n - 1], s);
        if k < n - 1 {
            assert(folds[k].end <= folds[n - 1].start);
            lemma_line_of_monotone(s, folds[k].end as int, folds[n - 1].end as int);
        }
    }
    if n < folds.len() && line <= folds[n].header(s) {
        assert forall|k: int| n <= k < folds.len() implies line <= (#[trigger] folds[k]).header(s) by {
            assert(folds[k].hides(s) && folds[n].hides(s));
            lemma_fold_lines(folds[k], s);
            lemma_fold_lines(folds[n], s);
            if n < k {
                assert(folds[n].end <= folds[k].start);
                lemma_line_of_monotone(s, folds[n].start as int, folds[k].start as int);
            }
        }
    }
}

proof fn lemma_gap(folds: Seq<Fold>, s: Seq<char>, a: nat, b: nat)
    requires
        a <= b,
        forall|l: nat| a < l <= b ==> !#[trigger] continues(folds, s, l),
    ensures
        row_number(folds, s, b) == row_number(folds, s, a) + (b - a),
    decreases b,
{
    if a < b {
        assert(!continues(folds, s, b));
        lemma_gap(folds, s, a, (b - 1) as nat);
    }
}

/// The number of the row that a line is on, which is before the `n`th fold and after the others.
proof fn lemma_row_between(folds: Seq<Fold>, s: Seq<char>, line: nat, n: int)
    requires
        disjoint(folds),
        all_hide(folds, s),
        line <= breaks(s),
        0 <= n <= folds.len(),
        n > 0 ==> folds[n - 1].last(s) <= line,
        n < folds.len() ==> line <= folds[n].header(s),
    ensures
        row_number(folds, s, line) == line - merged(folds, s, n),
        merged(folds, s, n) >= 0,
    decreases n,
{
    if n > 0 {
        let fold = folds[n - 1];
        assert(fold.hides(s));
        lemma_fold_lines(fold, s);
        let header = fold.header(s);
        let last = fold.last(s);
        if n > 1 {
            assert(folds[n - 2].hides(s));
            lemma_fold_lines(folds[n - 2], s);
            assert(folds[n - 2].end <= fold.start);
            lemma_line_of_monotone(s, folds[n - 2].end as int, fold.start as int);
        }
        lemma_row_between(folds, s, header, n - 1);
        assert forall|l: nat| header < l <= last implies #[trigger] continues(folds, s, l) by {
            lemma_line_start(s, l, fold.start as int);
            lemma_line_start(s, l, fold.end as int);
            assert(folds[n - 1].start < line_start(s, l));
        }
        lemma_row_first_skip(folds, s, header, last);
        assert forall|l: nat| last < l <= line implies !#[trigger] continues(folds, s, l) by {
            lemma_continues(folds, s, l, n);
        }
        lemma_gap(folds, s, last, line);
    } else {
        assert forall|l: nat| 0 < l <= line implies !#[trigger] continues(folds, s, l) by {
            lemma_continues(folds, s, l, 0);
        }
        lemma_gap(folds, s, 0, line);
    }
}

/// The number of the row that a line inside the `n`th fold is on.
proof fn lemma_row_inside(folds: Seq<Fold>, s: Seq<char>, line: nat, n: int)
    requires
        disjoint(folds),
        all_hide(folds, s),
        0 <= n < folds.len(),
        folds[n].header(s) <= line <= folds[n].last(s),
    ensures
        row_number(folds, s, line) == folds[n].header(s) - merged(folds, s, n),
        merged(folds, s, n) >= 0,
{
    let fold = folds[n];
    assert(fold.hides(s));
    lemma_fold_lines(fold, s);
    if n > 0 {
        assert(folds[n - 1].hides(s));
        lemma_fold_lines(folds[n - 1], s);
        assert(folds[n - 1].end <= fold.start);
        lemma_line_of_monotone(s, folds[n - 1].end as int, fold.start as int);
    }
    lemma_row_between(folds, s, fold.header(s), n);
    assert forall|l: nat| fold.header(s) < l <= line implies #[trigger] continues(folds, s, l) by {
        lemma_line_start(s, l, fold.start as int);
        lemma_line_start(s, l, fold.end as int);
        assert(folds[n].start < line_start(s, l));
    }
    lemma_row_first_skip(folds, s, fold.header(s), line);
}

impl Folds {
    /// The outermost fold that is drawn on the line of the cursor of `range`.
    pub fn fold_under_cursor(&self, text: RopeSlice, range: &Range) -> (fold: Option<Fold>)
        requires
            self.valid(chars_of(text)),
            range.within(chars_of(text)),
        ensures
            fold == headed_by(
                self.top(),
                chars_of(text),
                line_of(chars_of(text), range.cursor_in(chars_of(text)) as int),
            ),
    {
        let ghost s = chars_of(text);
        let ghost top = self.top();
        proof {
            lemma_top(self, s);
        }
        let outermost: &[Fold] = self.outermost();
        let cursor: usize = range.cursor(text);
        let line: usize = text.char_to_line(cursor);
        proof {
            lemma_line_of_bound(s, cursor as int);
            lemma_line_end(s, line as nat);
        }
        let end: usize = line_end_char_index(text, line);
        let i: usize = count_started(outermost, end);
        if i < outermost.len() && outermost[i].start == end {
            proof {
                assert(top[i as int].header(s) == line);
                let k = choose|k: int| 0 <= k < top.len() && (#[trigger] top[k]).header(s) == line;
                lemma_same_fold(top, s, i as int, k);
            }
            return Some(outermost[i]);
        }
        proof {
            assert forall|k: int| 0 <= k < top.len() implies (#[trigger] top[k]).header(s) != line by {
                assert(top[k].hides(s));
                lemma_fold_lines(top[k], s);
                if top[k].header(s) == line {
                    if k > i {
                        assert(top[i as int].end <= top[k].start);
                        assert(top[i as int].start < top[i as int].end);
                    }
                }
            }
        }
        None
    }

    /// What toggling a fold at `range` does if no closed fold is drawn on the cursor's line.
    pub fn region_toggle(&self, text: RopeSlice, range: &Range, regions: &Vec<Fold>) -> (target:
        Option<Toggle>)
        requires
            self.valid(chars_of(text)),
            range.within(chars_of(text)),
            all_within(regions@, chars_of(text)),
        ensures
            target == region_target(self.top(), chars_of(text), *range, regions@),
    {
        let ghost s = chars_of(text);
        let ghost top = self.top();
        proof {
            lemma_top(self, s);
        }
        let outermost: &[Fold] = self.outermost();
        let cursor: usize = range.cursor(text);
        let line: usize = text.char_to_line(cursor);
        proof {
            lemma_line_of_bound(s, cursor as int);
        }
        let (from_line, to_line): (usize, usize) = range.line_range(text);
        if from_line == to_line {
            if let Some(region) = find_innermost_at(text, regions, line) {
                return Some(Toggle::Close(region));
            }
        }
        let line_start_pos: usize = text.line_to_char(line);
        let j: usize = count_started(outermost, line_start_pos);
        if j > 0 {
            let fold: Fold = outermost[j - 1];
            proof {
                assert(top[j - 1].hides(s));
                lemma_fold_lines(fold, s);
            }
            if fold.last_line(text) == line {
                proof {
                    assert(top[j - 1].last(s) == line);
                    let k = choose|k: int| 0 <= k < top.len() && (#[trigger] top[k]).last(s) == line;
                    lemma_same_fold(top, s, j - 1, k);
                }
                return Some(Toggle::Open(fold));
            }
        }
        proof {
            assert forall|k: int| 0 <= k < top.len() implies (#[trigger] top[k]).last(s) != line by {
                assert(top[k].hides(s));
                lemma_fold_lines(top[k], s);
                if top[k].last(s) == line {
                    lemma_line_start(s, line as nat, top[k].start as int);
                    lemma_line_start(s, line as nat, top[k].end as int);
                    if k < j - 1 {
                        assert(top[k].end <= top[j - 1].start);
                    }
                }
            }
        }
        match find_innermost_around(text, regions, from_line, to_line) {
            Some(region) => Some(Toggle::Close(region)),
            None => None,
        }
    }

    /// What toggling a fold at `range` does, given the foldable regions around its lines:
    ///
    /// 1. Open the closed fold whose header is the cursor's line.
    /// 2. Else, for a range on a single line, close the innermost region starting on it.
    /// 3. Else open the closed fold whose row continues on the cursor's line.
    /// 4. Else close the innermost region containing the lines of the range.
    ///
    /// So on `} else {` of `if a {…} else {`, toggling folds the `else` block.
    pub fn toggle_target<F: FnOnce() -> Vec<Fold>>(
        &self,
        text: RopeSlice,
        range: &Range,
        regions: F,
    ) -> (target: Option<Toggle>)
        requires
            self.valid(chars_of(text)),
            range.within(chars_of(text)),
            regions.requires(()),
            forall|found: Vec<Fold>| #[trigger]
                regions.ensures((), found) ==> all_within(found@, chars_of(text)),
        ensures
            match headed_by(
                self.top(),
                chars_of(text),
                line_of(chars_of(text), range.cursor_in(chars_of(text)) as int),
            ) {
                Some(fold) => target == Some(Toggle::Open(fold)),
                None => exists|found: Vec<Fold>| #[trigger]
                    regions.ensures((), found) && target == region_target(
                        self.top(),
                        chars_of(text),
                        *range,
                        found@,
                    ),
            },
    {
        if let Some(fold) = self.fold_under_cursor(text, range) {
            return Some(Toggle::Open(fold));
        }
        let found: Vec<Fold> = regions();
        self.region_toggle(text, range, &found)
    }

    /// The index of the row that `line` is on, where the lines a closed fold joins into one
    /// row count as one line.
    pub fn row(&self, text: RopeSlice, line: usize) -> (row: usize)
        requires
            self.valid(chars_of(text)),
            line < line_count(chars_of(text)),
        ensures
            row as nat == row_number(self.top(), chars_of(text), line as nat),
    {
        let ghost s = chars_of(text);
        let ghost top = self.top();
        proof {
            lemma_top(self, s);
        }
        let outermost: &[Fold] = self.outermost();
        // the lines that the folds before `i` join into earlier rows
        let mut merged_lines: usize = 0;
        let mut i: usize = 0;
        while i < outermost.len()
            invariant
                s == chars_of(text),
                top == self.top(),
                top == outermost@,
                disjoint(top),
                all_hide(top, s),
                line <= breaks(s),
                i <= top.len(),
                merged_lines == merged(top, s, i as int),
                merged_lines <= line,
                i > 0 ==> top[i - 1].last(s) <= line,
            decreases outermost.len() - i,
        {
            let fold: Fold = outermost[i];
            proof {
                assert(top[i as int].hides(s));
                lemma_fold_lines(fold, s);
            }
            let header: usize = fold.header_line(text);
            let last: usize = fold.last_line(text);
            if last > line {
                // `line` is before the fold or hidden inside it, on the header's row
                if header < line {
                    proof {
                        lemma_row_inside(top, s, line as nat, i as int);
                        lemma_row_inside(top, s, header as nat, i as int);
                        lemma_row_number_monotone(top, s, 0, header as nat);
                    }
                    return header - merged_lines;
                } else {
                    proof {
                        lemma_row_between(top, s, line as nat, i as int);
                    }
                    return line - merged_lines;
                }
            }
            proof {
                lemma_row_inside(top, s, last as nat, i as int);
                lemma_row_number_monotone(top, s, 0, last as nat);
            }
            merged_lines += last - header;
            i += 1;
        }
        proof {
            lemma_row_between(top, s, line as nat, i as int);
        }
        line - merged_lines
    }

    /// The first line of the row with index `row`, see [`Folds::row`], or the last line of the
    /// text if there are fewer rows.
    pub fn row_start(&self, text: RopeSlice, row: usize) -> (line: usize)
        requires
            self.valid(chars_of(text)),
        ensures
            line as nat == (if row <= row_number(
                self.top(),
                chars_of(text),
                breaks(chars_of(text)),
            ) {
                row_begin(self.top(), chars_of(text), row as nat, breaks(chars_of(text)))
            } else {
                breaks(chars_of(text))
            }),
    {
        let ghost s = chars_of(text);
        let ghost top = self.top();
        proof {
            lemma_top(self, s);
        }
        let outermost: &[Fold] = self.outermost();
        let last_line: usize = text.len_lines() - 1;
        let mut merged_lines: usize = 0;
        let mut i: usize = 0;
        while i < outermost.len()
            invariant_except_break
                s == chars_of(text),
                top == self.top(),
                top == outermost@,
                disjoint(top),
                all_hide(top, s),
                last_line == breaks(s),
                i <= top.len(),
                merged_lines == merged(top, s, i as int),
                merged_lines <= last_line,
                i > 0 ==> top[i - 1].last(s) - merged(top, s, i as int) < row,
                i > 0 ==> row_number(top, s, top[i - 1].last(s)) < row,
            ensures
                i <= top.len(),
                merged_lines == merged(top, s, i as int),
                merged_lines <= last_line,
                i > 0 ==> top[i - 1].last(s) - merged(top, s, i as int) < row,
                i > 0 ==> row_number(top, s, top[i - 1].last(s)) < row,
                i < top.len() ==> row <= top[i as int].header(s) - merged(top, s, i as int),
            decreases outermost.len() - i,
        {
            let fold: Fold = outermost[i];
            proof {
                assert(top[i as int].hides(s));
                lemma_fold_lines(fold, s);
                lemma_row_inside(top, s, fold.last(s), i as int);
                lemma_row_number_monotone(top, s, 0, fold.last(s));
            }
            let header: usize = fold.header_line(text);
            let last: usize = fold.last_line(text);
            // the header's row does not come before `row`
            if header - merged_lines >= row {
                break;
            }
            merged_lines += last - header;
            i += 1;
        }
        let line: usize = row.saturating_add(merged_lines);
        proof {
            if i > 0 {
                assert(top[i - 1].hides(s));
                lemma_fold_lines(top[i - 1], s);
            }
            if i < top.len() {
                assert(top[i as int].hides(s));
                lemma_fold_lines(top[i as int], s);
            }
            if line <= last_line {
                lemma_row_between(top, s, line as nat, i as int);
                assert(!continues(top, s, line as nat)) by {
                    lemma_continues(top, s, line as nat, i as int);
                }
                lemma_row_number_monotone(top, s, line as nat, last_line as nat);
                lemma_row_begin(top, s, line as nat, last_line as nat);
            } else {
                assert(i == top.len());
                lemma_row_between(top, s, last_line as nat, i as int);
            }
        }
        if line < last_line {
            line
        } else {
            last_line
        }
    }
}

/// No two disjoint folds are drawn on the same line, or continue on the same line.
proof fn lemma_same_fold(folds: Seq<Fold>, s: Seq<char>, i: int, k: int)
    requires
        disjoint(folds),
        all_hide(folds, s),
        0 <= i < folds.len(),
        0 <= k < folds.len(),
        folds[i].header(s) == folds[k].header(s) || folds[i].last(s) == folds[k].last(s),
    ensures
        i == k,
{
    assert(folds[i].hides(s) && folds[k].hides(s));
    lemma_fold_lines(folds[i], s);
    lemma_fold_lines(folds[k], s);
    if i < k {
        assert(folds[i].end <= folds[k].start);
        lemma_line_of_monotone(s, folds[i].end as int, folds[k].start as int);
    } else if k < i {
        assert(folds[k].end <= folds[i].start);
        lemma_line_of_monotone(s, folds[k].end as int, folds[i].start as int);
    }
}

/// The innermost of the regions is one of them, and none of them is smaller; of those that are as
/// small it is the first. There is one exactly if there are such regions.
pub proof fn law_the_innermost_region_is_the_smallest(
    regions: Seq<Fold>,
    candidate: spec_fn(Fold) -> bool,
)
    ensures
        match innermost(regions, candidate) {
            Some(region) => {
                &&& candidate(region)
                &&& regions.contains(region)
                &&& forall|i: int|
                    0 <= i < regions.len() && candidate(#[trigger] regions[i]) ==> region.end
                        - region.start <= regions[i].end - regions[i].start
                &&& exists|k: int|
                    0 <= k < regions.len() && #[trigger] regions[k] == region && forall|i: int|
                        0 <= i < k && candidate(#[trigger] regions[i]) ==> region.end - region.start
                            < regions[i].end - regions[i].start
            },
            None => forall|i: int| 0 <= i < regions.len() ==> !candidate(#[trigger] regions[i]),
        },
{
    let k = lemma_first_innermost(regions, candidate);
    if innermost(regions, candidate) is Some {
        assert(regions.contains(regions[k]));
    }
}

proof fn lemma_first_innermost(regions: Seq<Fold>, candidate: spec_fn(Fold) -> bool) -> (k: int)
    ensures
        match innermost(regions, candidate) {
            Some(region) => {
                &&& 0 <= k < regions.len()
                &&& regions[k] == region
                &&& candidate(region)
                &&& forall|i: int|
                    0 <= i < regions.len() && candidate(#[trigger] regions[i]) ==> region.end
                        - region.start <= regions[i].end - regions[i].start
                &&& forall|i: int|
                    0 <= i < k && candidate(#[trigger] regions[i]) ==> region.end - region.start
                        < regions[i].end - regions[i].start
            },
            None => forall|i: int| 0 <= i < regions.len() ==> !candidate(#[trigger] regions[i]),
        },
    decreases regions.len(),
{
    if regions.len() == 0 {
        0
    } else {
        let rest = regions.drop_last();
        let k = lemma_first_innermost(rest, candidate);
        assert forall|i: int| 0 <= i < rest.len() implies rest[i] == #[trigger] regions[i] by {}
        assert(regions[regions.len() - 1] == regions.last());
        if innermost(regions, candidate) == innermost(rest, candidate) && innermost(
            rest,
            candidate,
        ) is Some && !(candidate(regions.last()) && regions.last().end - regions.last().start
            < rest[k].end - rest[k].start) {
            k
        } else {
            regions.len() - 1
        }
    }
}

/// Toggling at a range that is on one line closes the smallest region that starts there. Elsewhere it
/// opens the fold whose row goes on there, or else closes the smallest region around the lines of the
/// range. Where there is none of these, it does nothing.
pub proof fn law_toggling_picks_the_closest_region(
    folds: Seq<Fold>,
    s: Seq<char>,
    range: Range,
    regions: Seq<Fold>,
)
    ensures
        ({
            let line = line_of(s, range.cursor_in(s) as int);
            let from = line_of(s, range.low() as int);
            let to = line_of(s, range.last_in(s) as int);
            let starts_here = from == to && exists|i: int|
                0 <= i < regions.len() && line_of(s, (#[trigger] regions[i]).start as int) == line;
            let goes_on_here = exists|i: int|
                0 <= i < folds.len() && line_of(s, (#[trigger] folds[i]).end as int) == line;
            let is_around = exists|i: int|
                0 <= i < regions.len() && line_of(s, (#[trigger] regions[i]).start as int) <= from
                    && to <= line_of(s, regions[i].end as int);
            let target = region_target(folds, s, range, regions);
            &&& starts_here ==> (target matches Some(Toggle::Close(region)) && regions.contains(
                region,
            ) && line_of(s, region.start as int) == line && forall|i: int|
                0 <= i < regions.len() && line_of(s, (#[trigger] regions[i]).start as int) == line
                    ==> region.end - region.start <= regions[i].end - regions[i].start)
            &&& !starts_here && goes_on_here ==> (target matches Some(Toggle::Open(fold))
                && folds.contains(fold) && line_of(s, fold.end as int) == line)
            &&& !starts_here && !goes_on_here && is_around ==> (target matches Some(
                Toggle::Close(region),
            ) && regions.contains(region) && line_of(s, region.start as int) <= from && to
                <= line_of(s, region.end as int) && forall|i: int|
                0 <= i < regions.len() && line_of(s, (#[trigger] regions[i]).start as int) <= from
                    && to <= line_of(s, regions[i].end as int) ==> region.end - region.start
                    <= regions[i].end - regions[i].start)
            &&& !starts_here && !goes_on_here && !is_around ==> target is None
        }),
{
    let line = line_of(s, range.cursor_in(s) as int);
    let from = line_of(s, range.low() as int);
    let to = line_of(s, range.last_in(s) as int);
    law_the_innermost_region_is_the_smallest(regions, |region: Fold| region.header(s) == line);
    law_the_innermost_region_is_the_smallest(
        regions,
        |region: Fold| region.header(s) <= from && to <= region.last(s),
    );
}

} // verus!
