//! Ranges of text that are selected, each with a cursor at its head.

use crate::sorting::{in_order, lemma_sorted_by, lemma_sorted_by_contains, sorted_by, stable_sort, total_preorder};
use crate::text::{
    break_at, break_len, chars_of, line_of, next_boundary, next_grapheme_boundary, prev_boundary,
    prev_grapheme_boundary,
};
use ropey::RopeSlice;
use vstd::prelude::*;

verus! {

/// The direction in which a range was made.
#[derive(Clone, Copy, Debug, PartialEq, Eq, Structural)]
pub enum Direction {
    Forward,
    Backward,
}

/// A row and a column of the screen.
#[derive(Clone, Copy, Debug, PartialEq, Eq, Structural)]
pub struct VisualPosition {
    pub row: u32,
    pub column: u32,
}

/// A range of chars between an anchor and a head. It covers the chars from the smaller of the two
/// up to, but not including, the larger one.
#[derive(Clone, Copy, Debug, PartialEq, Eq, Structural)]
pub struct Range {
    /// The side that stays when the range is extended.
    pub anchor: usize,
    /// The side that moves when the range is extended.
    pub head: usize,
    /// The visual position that vertical movement tries to keep.
    pub old_visual_position: Option<VisualPosition>,
}

/// The range between `anchor` and `head`.
pub open spec fn range_between(anchor: nat, head: nat) -> Range {
    Range { anchor: anchor as usize, head: head as usize, old_visual_position: None }
}

/// The last boundary of a grapheme cluster that is not after `i`.
pub open spec fn boundary_up_to(s: Seq<char>, i: nat) -> nat {
    if i >= s.len() {
        i
    } else {
        prev_boundary(s, i + 1)
    }
}

/// The first boundary of a grapheme cluster that is not before `i`.
pub open spec fn boundary_from(s: Seq<char>, i: nat) -> nat {
    if i == 0 {
        0
    } else {
        next_boundary(s, (i - 1) as nat)
    }
}

fn find_boundary_up_to(text: RopeSlice, i: usize) -> (boundary: usize)
    requires
        i <= chars_of(text).len(),
    ensures
        boundary as nat == boundary_up_to(chars_of(text), i as nat),
        boundary <= i,
{
    if i == text.len_chars() {
        i
    } else {
        prev_grapheme_boundary(text, i + 1)
    }
}

fn find_boundary_from(text: RopeSlice, i: usize) -> (boundary: usize)
    requires
        i <= chars_of(text).len(),
    ensures
        boundary as nat == boundary_from(chars_of(text), i as nat),
        i <= boundary <= chars_of(text).len(),
{
    if i == 0 {
        0
    } else {
        next_grapheme_boundary(text, i - 1)
    }
}

impl Range {
    /// The smaller side.
    pub open spec fn low(self) -> nat {
        if self.anchor <= self.head {
            self.anchor as nat
        } else {
            self.head as nat
        }
    }

    /// The larger side.
    pub open spec fn high(self) -> nat {
        if self.anchor <= self.head {
            self.head as nat
        } else {
            self.anchor as nat
        }
    }

    /// Whether both sides lie in the text `s`.
    pub open spec fn within(self, s: Seq<char>) -> bool {
        self.anchor <= s.len() && self.head <= s.len()
    }

    /// The char that the block cursor of the range is on: the head of a backward or empty range,
    /// and the grapheme cluster before the head of a forward one.
    pub open spec fn cursor_in(self, s: Seq<char>) -> nat {
        if self.head > self.anchor {
            prev_boundary(s, self.head as nat)
        } else {
            self.head as nat
        }
    }

    /// The last char index that decides which lines the range covers.
    pub open spec fn last_in(self, s: Seq<char>) -> nat {
        if self.anchor == self.head {
            self.high()
        } else if prev_boundary(s, self.high()) < self.low() {
            self.low()
        } else {
            prev_boundary(s, self.high())
        }
    }

    /// The range with its cursor moved to `pos` and its anchor kept.
    pub open spec fn extended_to(self, s: Seq<char>, pos: nat) -> Range {
        let anchor = if self.head >= self.anchor && pos < self.anchor {
            next_boundary(s, self.anchor as nat)
        } else if self.head < self.anchor && pos >= self.anchor {
            prev_boundary(s, self.anchor as nat)
        } else {
            self.anchor as nat
        };
        if anchor <= pos {
            range_between(anchor, next_boundary(s, pos))
        } else {
            range_between(anchor, pos)
        }
    }

    /// The range with both sides moved apart to the boundaries of the grapheme clusters that they are
    /// in, over at least one cluster unless it is at the end of the text.
    pub open spec fn aligned(self, s: Seq<char>) -> Range {
        let head = if self.anchor == self.head {
            next_boundary(s, self.head as nat)
        } else {
            self.head as nat
        };
        let (anchor, head) = if self.anchor < head {
            (boundary_up_to(s, self.anchor as nat), boundary_from(s, head))
        } else if head < self.anchor {
            (boundary_from(s, self.anchor as nat), boundary_up_to(s, head))
        } else {
            (boundary_up_to(s, self.anchor as nat), boundary_up_to(s, self.anchor as nat))
        };
        Range {
            anchor: anchor as usize,
            head: head as usize,
            old_visual_position: if anchor == self.anchor {
                self.old_visual_position
            } else {
                None
            },
        }
    }

    /// Whether the ranges share a char or start at the same one.
    pub open spec fn overlaps_with(self, other: Range) -> bool {
        self.low() == other.low() || (self.high() > other.low() && other.high() > self.low())
    }

    /// The range over both ranges, which is backward if both of them are.
    pub open spec fn merged_with(self, other: Range) -> Range {
        let low = if self.low() <= other.low() {
            self.low()
        } else {
            other.low()
        };
        let high = if self.high() >= other.high() {
            self.high()
        } else {
            other.high()
        };
        if self.anchor > self.head && other.anchor > other.head {
            range_between(high, low)
        } else {
            range_between(low, high)
        }
    }

    pub fn new(anchor: usize, head: usize) -> (range: Range)
        ensures
            range == range_between(anchor as nat, head as nat),
    {
        Range { anchor, head, old_visual_position: None }
    }

    /// The empty range at `head`.
    pub fn point(head: usize) -> (range: Range)
        ensures
            range == range_between(head as nat, head as nat),
    {
        Range::new(head, head)
    }

    /// The start of the range.
    pub fn from(&self) -> (from: usize)
        ensures
            from as nat == self.low(),
    {
        if self.anchor <= self.head {
            self.anchor
        } else {
            self.head
        }
    }

    /// The end of the range.
    pub fn to(&self) -> (to: usize)
        ensures
            to as nat == self.high(),
    {
        if self.anchor <= self.head {
            self.head
        } else {
            self.anchor
        }
    }

    pub fn is_empty(&self) -> (empty: bool)
        ensures
            empty == (self.anchor == self.head),
    {
        self.anchor == self.head
    }

    pub fn direction(&self) -> (direction: Direction)
        ensures
            direction == (if self.head < self.anchor {
                Direction::Backward
            } else {
                Direction::Forward
            }),
    {
        if self.head < self.anchor {
            Direction::Backward
        } else {
            Direction::Forward
        }
    }

    /// The same range in the given direction.
    pub fn with_direction(self, direction: Direction) -> (range: Range)
        ensures
            range == (if (self.head < self.anchor) == (direction is Backward) {
                self
            } else {
                Range { anchor: self.head, head: self.anchor, ..self }
            }),
    {
        if self.direction() == direction {
            self
        } else {
            Range {
                anchor: self.head,
                head: self.anchor,
                old_visual_position: self.old_visual_position,
            }
        }
    }

    /// The char that the block cursor of the range is on.
    pub fn cursor(self, text: RopeSlice) -> (cursor: usize)
        requires
            self.within(chars_of(text)),
        ensures
            cursor as nat == self.cursor_in(chars_of(text)),
            cursor <= self.head,
            cursor <= chars_of(text).len(),
            self.head > self.anchor ==> cursor < self.head <= next_boundary(
                chars_of(text),
                cursor as nat,
            ) && forall|k: int| cursor <= k < self.head - 1 ==> chars_of(text)[k] != '\n',
    {
        if self.head > self.anchor {
            prev_grapheme_boundary(text, self.head)
        } else {
            self.head
        }
    }

    /// The line that the block cursor of the range is on.
    pub fn cursor_line(&self, text: RopeSlice) -> (line: usize)
        requires
            self.within(chars_of(text)),
        ensures
            line as nat == line_of(chars_of(text), self.cursor_in(chars_of(text)) as int),
    {
        text.char_to_line(self.cursor(text))
    }

    /// The first and the last line that the range covers.
    pub fn line_range(&self, text: RopeSlice) -> (lines: (usize, usize))
        requires
            self.within(chars_of(text)),
        ensures
            lines.0 as nat == line_of(chars_of(text), self.low() as int),
            lines.1 as nat == line_of(chars_of(text), self.last_in(chars_of(text)) as int),
            self.low() <= self.last_in(chars_of(text)) <= chars_of(text).len(),
    {
        let from: usize = self.from();
        let to: usize = if self.is_empty() {
            self.to()
        } else {
            let last: usize = prev_grapheme_boundary(text, self.to());
            if last < from {
                from
            } else {
                last
            }
        };
        (text.char_to_line(from), text.char_to_line(to))
    }

    /// Moves the cursor of the range to `char_idx`. With `extend` the anchor stays, moved over
    /// its grapheme cluster if the range changes its direction.
    pub fn put_cursor(self, text: RopeSlice, char_idx: usize, extend: bool) -> (range: Range)
        requires
            self.within(chars_of(text)),
            char_idx <= chars_of(text).len(),
        ensures
            range == (if extend {
                self.extended_to(chars_of(text), char_idx as nat)
            } else {
                range_between(char_idx as nat, char_idx as nat)
            }),
            range.within(chars_of(text)),
            extend ==> (range.anchor > char_idx && range.head == char_idx) || (range.anchor
                <= char_idx && range.head as nat == next_boundary(chars_of(text), char_idx as nat)),
            extend && break_at(chars_of(text), char_idx as int) ==> range.cursor_in(chars_of(text))
                == char_idx,
            extend && range.anchor <= char_idx && break_at(chars_of(text), char_idx as int)
                ==> range.head == char_idx + break_len(chars_of(text), char_idx as int),
            extend && char_idx < self.anchor < chars_of(text).len() && self.anchor <= self.head
                && chars_of(text)[self.anchor as int] == '\n' ==> range.anchor == self.anchor + 1,
    {
        if extend {
            let anchor: usize = if self.head >= self.anchor && char_idx < self.anchor {
                next_grapheme_boundary(text, self.anchor)
            } else if self.head < self.anchor && char_idx >= self.anchor {
                prev_grapheme_boundary(text, self.anchor)
            } else {
                self.anchor
            };
            if anchor <= char_idx {
                Range::new(anchor, next_grapheme_boundary(text, char_idx))
            } else {
                Range::new(anchor, char_idx)
            }
        } else {
            Range::point(char_idx)
        }
    }

    /// The range aligned to grapheme clusters, over at least one of them unless it is at the end of
    /// the text.
    pub fn grapheme_aligned(self, text: RopeSlice) -> (range: Range)
        requires
            self.within(chars_of(text)),
        ensures
            range == self.aligned(chars_of(text)),
            range.within(chars_of(text)),
            range.low() <= self.low(),
            self.high() <= range.high(),
            self.low() < chars_of(text).len() ==> range.low() < range.high(),
    {
        let head: usize = if self.anchor == self.head {
            next_grapheme_boundary(text, self.head)
        } else {
            self.head
        };
        let (anchor, head): (usize, usize) = if self.anchor < head {
            (find_boundary_up_to(text, self.anchor), find_boundary_from(text, head))
        } else if head < self.anchor {
            (find_boundary_from(text, self.anchor), find_boundary_up_to(text, head))
        } else {
            let at: usize = find_boundary_up_to(text, self.anchor);
            (at, at)
        };
        Range {
            anchor,
            head,
            old_visual_position: if anchor == self.anchor {
                self.old_visual_position
            } else {
                None
            },
        }
    }

    pub fn overlaps(&self, other: &Range) -> (overlaps: bool)
        ensures
            overlaps == self.overlaps_with(*other),
    {
        self.from() == other.from() || (self.to() > other.from() && other.to() > self.from())
    }

    /// The range over both ranges.
    pub fn merge(&self, other: Range) -> (merged: Range)
        ensures
            merged == self.merged_with(other),
    {
        let low: usize = if self.from() <= other.from() {
            self.from()
        } else {
            other.from()
        };
        let high: usize = if self.to() >= other.to() {
            self.to()
        } else {
            other.to()
        };
        if self.anchor > self.head && other.anchor > other.head {
            Range::new(high, low)
        } else {
            Range::new(low, high)
        }
    }
}

/// The order of ranges by their start.
pub open spec fn starts_first() -> spec_fn(Range, Range) -> bool {
    |a: Range, b: Range| a.low() <= b.low()
}

fn test_starts_first(a: &Range, b: &Range) -> (le: bool)
    ensures
        le == starts_first()(*a, *b),
{
    a.from() <= b.from()
}

/// Joins the sorted ranges that overlap. The second value follows the range `primary` into the
/// range that it was joined into.
pub open spec fn joined(sorted: Seq<Range>, primary: Range) -> (Seq<Range>, Range)
    decreases sorted.len(),
{
    if sorted.len() == 0 {
        (Seq::empty(), primary)
    } else {
        let (ranges, primary) = joined(sorted.drop_last(), primary);
        let next = sorted.last();
        if ranges.len() > 0 && ranges.last().overlaps_with(next) {
            let both = next.merged_with(ranges.last());
            (
                ranges.drop_last().push(both),
                if ranges.last() == primary || next == primary {
                    both
                } else {
                    primary
                },
            )
        } else {
            (ranges.push(next), primary)
        }
    }
}

/// Whether the ranges are sorted and no two of them overlap.
pub open spec fn apart(ranges: Seq<Range>) -> bool {
    forall|i: int, j: int|
        #![trigger ranges[i], ranges[j]]
        0 <= i < j < ranges.len() ==> ranges[i].low() < ranges[j].low() && ranges[i].high()
            <= ranges[j].low()
}

/// What selecting `ranges` means: they are sorted, and those that overlap are joined.
pub open spec fn normalized(ranges: Seq<Range>, primary: Range) -> (Seq<Range>, Range) {
    joined(sorted_by(ranges, starts_first()), primary)
}

proof fn lemma_joined(sorted: Seq<Range>, primary: Range)
    requires
        in_order(sorted, starts_first()),
    ensures
        apart(joined(sorted, primary).0),
        sorted.len() > 0 ==> joined(sorted, primary).0.len() > 0 && joined(
            sorted,
            primary,
        ).0.last().low() <= sorted.last().low(),
        sorted.contains(primary) ==> joined(sorted, primary).0.contains(joined(sorted, primary).1),
        !sorted.contains(primary) ==> joined(sorted, primary).1 == primary || joined(
            sorted,
            primary,
        ).0.contains(joined(sorted, primary).1),
    decreases sorted.len(),
{
    if sorted.len() > 0 {
        let rest = sorted.drop_last();
        assert forall|i: int, j: int|
            #![trigger rest[i], rest[j]]
            0 <= i < j < rest.len() implies starts_first()(rest[i], rest[j]) by {
            assert(starts_first()(sorted[i], sorted[j]));
        }
        lemma_joined(rest, primary);
        let (ranges, p) = joined(rest, primary);
        let next = sorted.last();
        let (all, q) = joined(sorted, primary);
        if rest.len() > 0 {
            assert(starts_first()(sorted[rest.len() - 1], sorted[sorted.len() - 1]));
        }
        if sorted.contains(primary) {
            let k = choose|k: int| 0 <= k < sorted.len() && sorted[k] == primary;
            if k < rest.len() {
                assert(rest[k] == primary);
            }
        }
        if ranges.len() > 0 && ranges.last().overlaps_with(next) {
            let both = next.merged_with(ranges.last());
            assert(all == ranges.drop_last().push(both));
            assert(both.low() == ranges.last().low());
            assert(all.last() == both);
            if p == ranges.last() || next == p {
                assert(all[all.len() - 1] == q);
            } else if ranges.contains(p) {
                let k = choose|k: int| 0 <= k < ranges.len() && ranges[k] == p;
                assert(all[k] == p);
            }
        } else {
            assert(all == ranges.push(next));
            if ranges.contains(p) {
                let k = choose|k: int| 0 <= k < ranges.len() && ranges[k] == p;
                assert(all[k] == p);
            }
            if next == p {
                assert(all[all.len() - 1] == p);
            }
        }
    }
}

/// A normalized selection has its ranges sorted and apart, and its primary range among them.
pub proof fn lemma_normalized(ranges: Seq<Range>, primary: Range)
    requires
        ranges.contains(primary),
    ensures
        apart(normalized(ranges, primary).0),
        normalized(ranges, primary).0.len() > 0,
        normalized(ranges, primary).0.contains(normalized(ranges, primary).1),
{
    assert(total_preorder(starts_first()));
    lemma_sorted_by(ranges, starts_first());
    lemma_sorted_by_contains(ranges, starts_first(), primary);
    lemma_joined(sorted_by(ranges, starts_first()), primary);
}

/// A range on its own is selected as it is.
pub proof fn lemma_normalized_single(range: Range)
    ensures
        normalized(seq![range], range) == (seq![range], range),
{
    let ranges = seq![range];
    reveal_with_fuel(sorted_by, 2);
    reveal_with_fuel(joined, 2);
    assert(ranges.drop_last() =~= Seq::empty());
    assert(sorted_by(ranges, starts_first()) =~= ranges);
    assert(joined(ranges, range).0 =~= ranges);
}

/// One or more ranges, one of which is the primary one.
#[derive(Clone, Debug, PartialEq, Eq)]
pub struct Selection {
    ranges: Vec<Range>,
    primary_index: usize,
}

impl Selection {
    /// The ranges of the selection.
    pub closed spec fn view(&self) -> Seq<Range> {
        self.ranges@
    }

    /// The index of the primary range.
    pub closed spec fn primary_at(&self) -> int {
        self.primary_index as int
    }

    /// Whether there is a primary range.
    pub open spec fn wf(&self) -> bool {
        0 <= self.primary_at() < self@.len()
    }

    /// Whether every range lies in the text `s`.
    pub open spec fn within(&self, s: Seq<char>) -> bool {
        forall|i: int| 0 <= i < self@.len() ==> (#[trigger] self@[i]).within(s)
    }

    /// Whether this is the selection of `ranges` with the primary range `primary`.
    pub open spec fn selects(&self, ranges: Seq<Range>, primary: Range) -> bool {
        &&& self.wf()
        &&& self@ == normalized(ranges, primary).0
        &&& self@[self.primary_at()] == normalized(ranges, primary).1
        &&& forall|i: int| 0 <= i < self.primary_at() ==> self@[i] != normalized(ranges, primary).1
    }

    /// The ranges `ranges`, which may overlap.
    pub fn new(ranges: Vec<Range>, primary_index: usize) -> (selection: Selection)
        requires
            primary_index < ranges@.len(),
        ensures
            selection.selects(ranges@, ranges@[primary_index as int]),
    {
        let ghost given = ranges@;
        let mut primary: Range = ranges[primary_index];
        let ghost first = primary;
        proof {
            assert(given[primary_index as int] == first);
            lemma_normalized(given, first);
        }
        let sorted: Vec<Range> = stable_sort(ranges, test_starts_first, Ghost(starts_first()));
        let mut joint: Vec<Range> = Vec::new();
        let mut i: usize = 0;
        while i < sorted.len()
            invariant
                i <= sorted.len(),
                (joint@, primary) == joined(sorted@.take(i as int), first),
            decreases sorted.len() - i,
        {
            let next: Range = sorted[i];
            proof {
                assert(sorted@.take(i + 1).drop_last() =~= sorted@.take(i as int));
            }
            if joint.len() > 0 && joint[joint.len() - 1].overlaps(&next) {
                let last: Range = joint[joint.len() - 1];
                let both: Range = next.merge(last);
                if last == primary || next == primary {
                    primary = both;
                }
                joint.pop();
                joint.push(both);
            } else {
                joint.push(next);
            }
            i += 1;
        }
        assert(sorted@.take(i as int) =~= sorted@);
        let mut at: usize = 0;
        while at < joint.len() && joint[at] != primary
            invariant
                at <= joint.len(),
                joint@.contains(primary),
                forall|k: int| 0 <= k < at ==> joint@[k] != primary,
            decreases joint.len() - at,
        {
            at += 1;
        }
        Selection { ranges: joint, primary_index: at }
    }

    /// A selection of one range.
    pub fn single(anchor: usize, head: usize) -> (selection: Selection)
        ensures
            selection.wf(),
            selection@ == seq![range_between(anchor as nat, head as nat)],
    {
        let mut ranges: Vec<Range> = Vec::new();
        ranges.push(Range::new(anchor, head));
        Selection { ranges, primary_index: 0 }
    }

    /// The ranges of the selection aligned to grapheme clusters.
    pub open spec fn aligned(&self, s: Seq<char>) -> Seq<Range> {
        self@.map_values(|range: Range| range.aligned(s))
    }

    /// The selection with its ranges aligned to grapheme clusters, at least one of them wide unless at
    /// the end of the text, and those that overlap joined.
    pub fn ensure_invariants(&self, text: RopeSlice) -> (selection: Selection)
        requires
            self.wf(),
            self.within(chars_of(text)),
        ensures
            selection.selects(
                self.aligned(chars_of(text)),
                self@[self.primary_at()].aligned(chars_of(text)),
            ),
    {
        let ghost s = chars_of(text);
        let mut ranges: Vec<Range> = Vec::new();
        let mut i: usize = 0;
        while i < self.ranges.len()
            invariant
                i <= self.ranges@.len(),
                s == chars_of(text),
                self.within(s),
                ranges@ == self.aligned(s).take(i as int),
            decreases self.ranges.len() - i,
        {
            assert(self@[i as int].within(s));
            ranges.push(self.ranges[i].grapheme_aligned(text));
            i += 1;
            assert(ranges@ =~= self.aligned(s).take(i as int));
        }
        assert(ranges@ =~= self.aligned(s));
        Selection::new(ranges, self.primary_index)
    }

    /// A selection of one empty range.
    pub fn point(pos: usize) -> (selection: Selection)
        ensures
            selection.wf(),
            selection@ == seq![range_between(pos as nat, pos as nat)],
    {
        Selection::single(pos, pos)
    }

    /// All ranges.
    pub fn ranges(&self) -> (ranges: &Vec<Range>)
        ensures
            ranges@ == self@,
    {
        &self.ranges
    }

    /// The index of the primary range.
    pub fn primary_index(&self) -> (index: usize)
        ensures
            index == self.primary_at(),
    {
        self.primary_index
    }

    /// The primary range.
    pub fn primary(&self) -> (range: Range)
        requires
            self.wf(),
        ensures
            range == self@[self.primary_at()],
    {
        self.ranges[self.primary_index]
    }

    /// Whether the selection is the same as `other`.
    pub open spec fn is_same(&self, other: &Selection) -> bool {
        self@ == other@ && self.primary_at() == other.primary_at()
    }

    /// A copy of the selection.
    pub fn copy(&self) -> (copy: Selection)
        ensures
            copy.is_same(self),
    {
        let mut ranges: Vec<Range> = Vec::new();
        let mut i: usize = 0;
        while i < self.ranges.len()
            invariant
                i <= self.ranges@.len(),
                ranges@ == self.ranges@.take(i as int),
            decreases self.ranges.len() - i,
        {
            ranges.push(self.ranges[i]);
            i += 1;
            assert(ranges@ =~= self.ranges@.take(i as int));
        }
        assert(self.ranges@.take(i as int) =~= self.ranges@);
        Selection { ranges, primary_index: self.primary_index }
    }

    /// Whether the selection is the same as `other`.
    pub fn same(&self, other: &Selection) -> (same: bool)
        ensures
            same == self.is_same(other),
    {
        if self.primary_index != other.primary_index || self.ranges.len() != other.ranges.len() {
            return false;
        }
        let mut i: usize = 0;
        while i < self.ranges.len()
            invariant
                i <= self.ranges@.len(),
                self.ranges@.len() == other.ranges@.len(),
                forall|k: int| 0 <= k < i ==> self.ranges@[k] == other.ranges@[k],
            decreases self.ranges.len() - i,
        {
            if self.ranges[i] != other.ranges[i] {
                return false;
            }
            i += 1;
        }
        assert(self.ranges@ =~= other.ranges@);
        true
    }
}

/// The sides of a range are its ends in the text, whichever way it goes.
pub proof fn law_ranges_have_two_sides(range: Range)
    ensures
        range.low() <= range.high(),
        (range.low() == range.anchor && range.high() == range.head) || (range.low() == range.head
            && range.high() == range.anchor),
        range_between(range.head as nat, range.anchor as nat).low() == range.low(),
        range_between(range.head as nat, range.anchor as nat).high() == range.high(),
{
}

/// Two ranges that are not empty overlap exactly if they have a char in common.
pub proof fn law_overlapping_ranges_share_chars(a: Range, b: Range)
    requires
        a.anchor != a.head,
        b.anchor != b.head,
    ensures
        a.overlaps_with(b) <==> exists|i: int| #[trigger]
            crate::fold::anywhere(i) && a.low() <= i < a.high() && b.low() <= i < b.high(),
        a.overlaps_with(b) == b.overlaps_with(a),
{
    if a.overlaps_with(b) {
        let i = if a.low() < b.low() {
            b.low() as int
        } else {
            a.low() as int
        };
        assert(crate::fold::anywhere(i));
    }
}

/// Two ranges are merged to one that covers both and nothing before or after them. It is backward if
/// both of them are, and forward otherwise.
pub proof fn law_merged_ranges_cover_both(a: Range, b: Range)
    ensures
        a.merged_with(b).low() <= a.low() && a.merged_with(b).low() <= b.low(),
        a.merged_with(b).high() >= a.high() && a.merged_with(b).high() >= b.high(),
        a.merged_with(b).low() == a.low() || a.merged_with(b).low() == b.low(),
        a.merged_with(b).high() == a.high() || a.merged_with(b).high() == b.high(),
        a.head < a.anchor && b.head < b.anchor ==> a.merged_with(b).head < a.merged_with(b).anchor,
        a.head >= a.anchor || b.head >= b.anchor ==> a.merged_with(b).head >= a.merged_with(
            b,
        ).anchor,
{
}

/// A range extended to a position on the same side of its anchor keeps the anchor: forward, it goes up
/// to the end of the cluster there, and backward to its start. When it turns round, the anchor moves
/// over the cluster that it was at, which stays in the range.
pub proof fn law_extending_keeps_the_anchor(range: Range, s: Seq<char>, pos: nat)
    requires
        range.within(s),
        pos <= s.len(),
        s.len() <= usize::MAX,
    ensures
        range.head >= range.anchor && pos >= range.anchor ==> range.extended_to(s, pos)
            == range_between(range.anchor as nat, next_boundary(s, pos)),
        range.head < range.anchor && pos < range.anchor ==> range.extended_to(s, pos)
            == range_between(range.anchor as nat, pos),
        range.head >= range.anchor && pos < range.anchor && pos < next_boundary(
            s,
            range.anchor as nat,
        ) ==> range.extended_to(s, pos) == range_between(next_boundary(s, range.anchor as nat), pos),
        range.head < range.anchor && pos >= range.anchor && prev_boundary(s, range.anchor as nat)
            <= pos ==> range.extended_to(s, pos) == range_between(
            prev_boundary(s, range.anchor as nat),
            next_boundary(s, pos),
        ),
{
}

/// The cursor of a range is on its last cluster if it goes forward, and on its head if not.
pub proof fn law_cursors_are_at_the_head(range: Range, s: Seq<char>)
    ensures
        range.anchor < range.head ==> range.cursor_in(s) == prev_boundary(s, range.head as nat),
        range.anchor >= range.head ==> range.cursor_in(s) == range.head,
{
}

proof fn lemma_joined_covers(sorted: Seq<Range>, primary: Range, i: int)
    requires
        in_order(sorted, starts_first()),
        0 <= i < sorted.len(),
    ensures
        exists|k: int|
            0 <= k < joined(sorted, primary).0.len() && (#[trigger] joined(
                sorted,
                primary,
            ).0[k]).low() <= sorted[i].low() && sorted[i].high() <= joined(
                sorted,
                primary,
            ).0[k].high(),
    decreases sorted.len(),
{
    let rest = sorted.drop_last();
    assert(in_order(rest, starts_first())) by {
        assert forall|i: int, j: int|
            #![trigger rest[i], rest[j]]
            0 <= i < j < rest.len() implies starts_first()(rest[i], rest[j]) by {
            assert(starts_first()(sorted[i], sorted[j]));
        }
    }
    let (ranges, _) = joined(rest, primary);
    let all = joined(sorted, primary).0;
    let next = sorted.last();
    if i < rest.len() {
        lemma_joined_covers(rest, primary, i);
        assert(rest[i] == sorted[i]);
        let k = choose|k: int|
            0 <= k < ranges.len() && (#[trigger] ranges[k]).low() <= rest[i].low()
                && rest[i].high() <= ranges[k].high();
        if k < ranges.len() - 1 || !(ranges.len() > 0 && ranges.last().overlaps_with(next)) {
            assert(all[k] == ranges[k]);
        } else {
            law_merged_ranges_cover_both(next, ranges.last());
            assert(all[k] == next.merged_with(ranges.last()));
        }
    } else {
        if ranges.len() > 0 && ranges.last().overlaps_with(next) {
            law_merged_ranges_cover_both(next, ranges.last());
        }
        assert(all[all.len() - 1].low() <= next.low() && next.high() <= all[all.len() - 1].high());
    }
}

/// A selection covers all that its ranges do, with ranges that are sorted and do not overlap.
pub proof fn law_selections_cover_their_ranges(ranges: Seq<Range>, primary: Range, i: int)
    requires
        ranges.contains(primary),
        0 <= i < ranges.len(),
    ensures
        ({
            let selected = normalized(ranges, primary).0;
            &&& forall|a: int, b: int|
                #![trigger selected[a], selected[b]]
                0 <= a < b < selected.len() ==> selected[a].high() <= selected[b].low()
            &&& exists|k: int|
                0 <= k < selected.len() && (#[trigger] selected[k]).low() <= ranges[i].low()
                    && ranges[i].high() <= selected[k].high()
        }),
{
    lemma_normalized(ranges, primary);
    let sorted = sorted_by(ranges, starts_first());
    assert(total_preorder(starts_first()));
    lemma_sorted_by(ranges, starts_first());
    assert(ranges.contains(ranges[i]));
    lemma_sorted_by_contains(ranges, starts_first(), ranges[i]);
    let k = sorted.index_of(ranges[i]);
    lemma_joined_covers(sorted, primary, k);
}

/// A range is aligned by moving its sides apart: the lower one back to the start of the cluster that it
/// is in, and the upper one on to the end of its. An empty range grows over the cluster after it. The
/// way that a range goes stays the same.
pub proof fn law_aligned_ranges_grow(range: Range, s: Seq<char>)
    requires
        range.within(s),
        s.len() <= usize::MAX,
        next_boundary(s, range.head as nat) <= s.len(),
    ensures
        range.anchor < range.head ==> range.aligned(s).anchor == boundary_up_to(
            s,
            range.anchor as nat,
        ) as usize && range.aligned(s).head == boundary_from(s, range.head as nat) as usize,
        range.head < range.anchor ==> range.aligned(s).anchor == boundary_from(
            s,
            range.anchor as nat,
        ) as usize && range.aligned(s).head == boundary_up_to(s, range.head as nat) as usize,
        range.anchor == range.head && range.head < next_boundary(s, range.head as nat)
            ==> range.aligned(s).anchor == boundary_up_to(s, range.anchor as nat) as usize
            && range.aligned(s).head == boundary_from(
            s,
            next_boundary(s, range.head as nat),
        ) as usize,
{
}

/// The ends of a text are boundaries: nothing is before its start or after its end.
pub proof fn law_the_ends_of_a_text_are_boundaries(s: Seq<char>)
    ensures
        boundary_up_to(s, s.len()) == s.len(),
        boundary_from(s, 0) == 0,
        next_boundary(s, s.len()) == s.len(),
        prev_boundary(s, 0) == 0,
{
}

/// Aligning a range keeps the visual position that it tries to keep as long as its anchor stays.
pub proof fn law_aligned_ranges_keep_their_column(range: Range, s: Seq<char>)
    requires
        range.within(s),
        boundary_up_to(s, range.anchor as nat) <= usize::MAX,
        boundary_from(s, range.anchor as nat) <= usize::MAX,
    ensures
        range.aligned(s).anchor == range.anchor ==> range.aligned(s).old_visual_position
            == range.old_visual_position,
        range.aligned(s).anchor != range.anchor ==> range.aligned(s).old_visual_position is None,
{
}

} // verus!
