//! Code folding: text hidden behind a placeholder at the end of its first line.
//!
//! A [`Fold`] hides everything from the line break of its first line, the *header*, up to the
//! point where the header's visual row continues. The hidden text is drawn as a single
//! placeholder, the *fold cell*:
//!
//! ```text
//! fn new() -> Self {                fn new() -> Self {…}
//!     Self { pos: 0 }
//! }
//! ```
//!
//! A closing bracket that starts the last line and closes a bracket of the header line is pulled
//! up onto the row. Otherwise the fold hides the rest of the region, up to the end of its last
//! line's content. The hidden lines after the header form the fold's *interior*. Folds chain, so
//! one visual row can span several document lines: `if a {…} else {…}`.

use crate::selection::Range;
use crate::sorting::{
    in_order, lemma_sorted_by, lemma_sorted_by_contains, sorted_by, stable_sort, total_preorder,
};
use crate::text::{
    break_at, breaks, chars_of, last_non_whitespace, last_visible, lemma_break_at,
    lemma_first_visible, lemma_in_line, lemma_last_visible, lemma_line_end, lemma_line_of_bound,
    lemma_line_of_monotone, lemma_line_start, lemma_line_start_bound, line_end,
    line_end_char_index, line_first_non_whitespace, line_first_visible, line_of, line_start,
    next_boundary, next_grapheme_boundary, white_space,
};
use ropey::RopeSlice;
use vstd::prelude::*;

verus! {

/// A region of text hidden behind the fold cell at the end of its header line.
#[derive(Clone, Copy, Debug, PartialEq, Eq, Structural)]
pub struct Fold {
    /// The char index of the header line's line break, where the fold cell is drawn.
    pub start: usize,
    /// The char index where the header's visual row continues after the hidden text.
    pub end: usize,
    /// Whether `end` is a closing bracket pulled up from the last hidden line. Edits keep such an
    /// end on the first non-whitespace char of its line.
    pub pulled_up: bool,
}

/// Whether `c` closes a bracket that folds pull up onto the header's row.
pub open spec fn closing_bracket(c: char) -> bool {
    c == ')' || c == ']' || c == '}'
}

/// The fold that hides the region `from..to` behind its first line, see [`Fold::from_region`].
pub open spec fn region_fold(s: Seq<char>, from: int, to: int, closer: Option<usize>) -> Option<
    Fold,
> {
    let header = line_of(s, from);
    match last_visible(s, from, to) {
        Some(last) if line_of(s, last) != header => {
            let fold = Fold {
                start: line_end(s, header) as usize,
                end: match closer {
                    Some(closer) => closer,
                    None => next_boundary(s, last as nat) as usize,
                },
                pulled_up: closer is Some,
            };
            if last_visible(s, line_start(s, header + 1) as int, fold.end as int) is Some {
                Some(fold)
            } else {
                None
            }
        },
        _ => None,
    }
}

impl Fold {
    /// The line the fold is drawn on.
    pub open spec fn header(self, s: Seq<char>) -> nat {
        line_of(s, self.start as int)
    }

    /// The line on which the header's row continues after the fold.
    pub open spec fn last(self, s: Seq<char>) -> nat {
        line_of(s, self.end as int)
    }

    /// The start of the hidden text after the header's line break.
    pub open spec fn inner_start(self, s: Seq<char>) -> nat {
        line_start(s, self.header(s) + 1)
    }

    /// Whether `pos` is in the hidden text after the header's line break.
    pub open spec fn inner(self, s: Seq<char>, pos: nat) -> bool {
        self.inner_start(s) <= pos < self.end
    }

    /// Whether the fold lies in the text.
    pub open spec fn within(self, s: Seq<char>) -> bool {
        self.start <= self.end <= s.len()
    }

    /// Whether the fold hides the line break of its header line and some text after it.
    pub open spec fn hides(self, s: Seq<char>) -> bool {
        &&& break_at(s, self.start as int)
        &&& self.inner_start(s) < self.end <= s.len()
    }

    /// Whether `range` covers part of the interior, but not all of it.
    pub open spec fn cut_by(self, s: Seq<char>, range: Range) -> bool {
        &&& range.low() < self.end
        &&& self.inner_start(s) < range.high()
        &&& !(range.low() <= self.inner_start(s) && self.end <= range.high())
    }

    /// The fold after an edit moved its positions, or `None` if it no longer hides a header line's
    /// line break and some text after it. A pulled up end stays on a closing bracket that starts
    /// its line; if there is none, it is no longer pulled up.
    pub open spec fn revalidated(self, s: Seq<char>) -> Option<Fold> {
        let fold = if !self.pulled_up {
            self
        } else {
            match line_first_visible(s, self.last(s)) {
                Some(closer) if closing_bracket(s[closer]) => Fold { end: closer as usize, ..self },
                _ => Fold { pulled_up: false, ..self },
            }
        };
        if self.start < self.end <= s.len() && break_at(s, self.start as int) && fold.hides(s) {
            Some(fold)
        } else {
            None
        }
    }

    /// Whether the fold comes before `other` in the order that puts outer folds first.
    pub open spec fn before(self, other: Fold) -> bool {
        self.start < other.start || (self.start == other.start && self.end > other.end)
    }

    /// Returns the fold hiding the region `region` (char indices) behind its first line, or
    /// `None` if the region has no content after its first line.
    ///
    /// `closer` is the char index of a closing bracket that starts the region's last line and
    /// closes a bracket opened on its first line. It is pulled up onto the header's row.
    pub fn from_region(
        text: RopeSlice,
        region: std::ops::Range<usize>,
        closer: Option<usize>,
    ) -> (fold: Option<Fold>)
        requires
            region.start <= region.end <= chars_of(text).len(),
            closer matches Some(closer) ==> line_start(
                chars_of(text),
                line_of(chars_of(text), region.start as int) + 1,
            ) <= closer <= chars_of(text).len(),
        ensures
            fold == region_fold(
                chars_of(text),
                region.start as int,
                region.end as int,
                closer,
            ),
            fold matches Some(fold) ==> fold.hides(chars_of(text)) && fold.header(chars_of(text))
                == line_of(chars_of(text), region.start as int),
    {
        let ghost s = chars_of(text);
        proof {
            lemma_last_visible(s, region.start as int, region.end as int);
            lemma_line_of_bound(s, region.start as int);
        }
        let last: usize = match last_non_whitespace(text, region.start, region.end) {
            Some(last) => last,
            None => return None,
        };
        let header: usize = text.char_to_line(region.start);
        if text.char_to_line(last) == header {
            return None;
        }
        proof {
            lemma_line_of_monotone(s, region.start as int, last as int);
            lemma_line_of_bound(s, last as int);
            lemma_line_start(s, header as nat + 1, last as int);
            lemma_line_end(s, header as nat);
        }
        let (end, pulled_up): (usize, bool) = match closer {
            Some(closer) => (closer, true),
            None => (next_grapheme_boundary(text, last), false),
        };
        let fold = Fold { start: line_end_char_index(text, header), end, pulled_up };
        let interior = fold.interior(text);
        proof {
            lemma_last_visible(s, interior.start as int, interior.end as int);
        }
        match last_non_whitespace(text, interior.start, interior.end) {
            Some(_) => Some(fold),
            None => None,
        }
    }

    /// The line the fold is drawn on.
    pub fn header_line(&self, text: RopeSlice) -> (line: usize)
        requires
            self.start <= chars_of(text).len(),
        ensures
            line as nat == self.header(chars_of(text)),
    {
        text.char_to_line(self.start)
    }

    /// The line on which the header's row continues after the fold.
    pub fn last_line(&self, text: RopeSlice) -> (line: usize)
        requires
            self.end <= chars_of(text).len(),
        ensures
            line as nat == self.last(chars_of(text)),
    {
        text.char_to_line(self.end)
    }

    /// The hidden text after the header's line break.
    pub fn interior(&self, text: RopeSlice) -> (interior: std::ops::Range<usize>)
        requires
            self.start <= chars_of(text).len(),
        ensures
            interior.start as nat == self.inner_start(chars_of(text)),
            interior.end == self.end,
    {
        proof {
            lemma_line_of_bound(chars_of(text), self.start as int);
        }
        let lines: usize = text.len_lines();
        let header: usize = self.header_line(text);
        assert(header < lines);
        text.line_to_char(header + 1)..self.end
    }

    /// Whether `range` covers part of the interior, but not all of it.
    pub fn cuts(&self, text: RopeSlice, range: &Range) -> (cuts: bool)
        requires
            self.start <= chars_of(text).len(),
        ensures
            cuts == self.cut_by(chars_of(text), *range),
    {
        let interior = self.interior(text);
        let intersects: bool = range.from() < interior.end && interior.start < range.to();
        let covers: bool = range.from() <= interior.start && interior.end <= range.to();
        intersects && !covers
    }

    /// Returns the fold after an edit moved its positions, or `None` if it no longer hides a
    /// header line's line break and some text after it.
    pub fn revalidate(self, text: RopeSlice) -> (fold: Option<Fold>)
        ensures
            fold == self.revalidated(chars_of(text)),
    {
        let ghost s = chars_of(text);
        if self.start >= self.end || self.end > text.len_chars() {
            return None;
        }
        let header: usize = self.header_line(text);
        let lines: usize = text.len_lines();
        proof {
            lemma_line_of_bound(s, self.start as int);
            lemma_break_at(s, self.start as int);
        }
        assert(header < lines);
        if header + 1 >= lines || line_end_char_index(text, header) != self.start {
            return None;
        }
        let mut fold = self;
        if self.pulled_up {
            let line: usize = self.last_line(text);
            proof {
                lemma_line_of_bound(s, self.end as int);
                lemma_line_start_bound(s, line as nat + 1);
                lemma_first_visible(
                    s,
                    line_start(s, line as nat) as int,
                    line_start(s, line as nat + 1) as int,
                );
            }
            let first: Option<usize> = line_first_non_whitespace(text, line);
            match first {
                Some(closer) => {
                    if is_closing_bracket(text.char(closer)) {
                        fold.end = closer;
                    } else {
                        fold.pulled_up = false;
                    }
                },
                None => {
                    fold.pulled_up = false;
                },
            }
        }
        if text.line_to_char(header + 1) < fold.end {
            Some(fold)
        } else {
            None
        }
    }
}

/// Whether `ch` closes a bracket that folds pull up onto the header's row.
pub fn is_closing_bracket(ch: char) -> (closing: bool)
    ensures
        closing == closing_bracket(ch),
{
    ch == ')' || ch == ']' || ch == '}'
}

/// A fold that still hides text stays as it is: revalidating a fold twice is the same as doing it
/// once.
pub proof fn law_revalidated_folds_are_valid(fold: Fold, s: Seq<char>)
    requires
        s.len() <= usize::MAX,
    ensures
        fold.revalidated(s) matches Some(valid) ==> valid.hides(s) && valid.revalidated(s) == Some(
            valid,
        ),
{
    if let Some(valid) = fold.revalidated(s) {
        if fold.pulled_up {
            let line = fold.last(s);
            lemma_line_of_bound(s, fold.end as int);
            lemma_line_start_bound(s, line + 1);
            let from = line_start(s, line) as int;
            let to = line_start(s, line + 1) as int;
            lemma_first_visible(s, from, to);
            if valid.pulled_up {
                let closer = valid.end as int;
                lemma_line_start(s, line, closer);
                if line < breaks(s) {
                    lemma_line_start(s, line + 1, closer);
                }
                lemma_line_of_bound(s, closer);
                assert(line_of(s, closer) == line);
            }
        }
        lemma_break_at(s, valid.start as int);
        lemma_in_line(s, valid.start as int);
    }
}

/// A fold of a region with a closing bracket that starts its line stays as it is when it is
/// revalidated.
pub proof fn law_region_folds_are_valid(s: Seq<char>, from: int, to: int, closer: Option<usize>)
    requires
        0 <= from <= to <= s.len(),
        closer matches Some(closer) ==> {
            &&& closer < s.len()
            &&& closing_bracket(s[closer as int])
            &&& line_first_visible(s, line_of(s, closer as int)) == Some(closer as int)
        },
    ensures
        region_fold(s, from, to, closer) matches Some(fold) ==> (fold.hides(s) ==> fold.revalidated(
            s,
        ) == Some(fold)),
{
    if let Some(fold) = region_fold(s, from, to, closer) {
        if fold.hides(s) {
            lemma_break_at(s, fold.start as int);
            lemma_in_line(s, fold.start as int);
        }
    }
}

/// The order in which folds are nested: outer folds first, and the preferred one of two folds that
/// hide the same text.
pub open spec fn outer_first() -> spec_fn((Fold, bool), (Fold, bool)) -> bool {
    |a: (Fold, bool), b: (Fold, bool)|
        a.0.before(b.0) || (a.0.start == b.0.start && a.0.end == b.0.end && (a.1 || !b.1))
}

fn test_outer_first(a: &(Fold, bool), b: &(Fold, bool)) -> (le: bool)
    ensures
        le == outer_first()(*a, *b),
{
    a.0.start < b.0.start || (a.0.start == b.0.start && (a.0.end > b.0.end || (a.0.end == b.0.end
        && (a.1 || !b.1))))
}

/// Whether the folds hide the same text.
pub open spec fn same_text(a: Fold, b: Fold) -> bool {
    a.start == b.start && a.end == b.end
}

/// Drops the folds that hide the same text as the one before them.
pub open spec fn distinct(sorted: Seq<(Fold, bool)>) -> Seq<(Fold, bool)>
    decreases sorted.len(),
{
    if sorted.len() == 0 {
        Seq::empty()
    } else {
        let rest = distinct(sorted.drop_last());
        if rest.len() > 0 && same_text(rest.last().0, sorted.last().0) {
            rest
        } else {
            rest.push(sorted.last())
        }
    }
}

/// What is left of the nested folds `kept` once `fold`, which starts after them, is tried: going
/// outwards, it removes the folds that it crosses, if it is preferred and as long as they are not.
pub open spec fn cleared(kept: Seq<(Fold, bool)>, fold: (Fold, bool)) -> Seq<(Fold, bool)>
    decreases kept.len(),
{
    if kept.len() == 0 {
        kept
    } else {
        let last = kept.last();
        if last.0.end <= fold.0.start {
            cleared(kept.drop_last(), fold).push(last)
        } else if last.0.end < fold.0.end && fold.1 && !last.1 {
            cleared(kept.drop_last(), fold)
        } else {
            kept
        }
    }
}

/// Whether `fold`, which starts after the nested folds `kept`, is kept: it crosses none of them
/// but those that it removes.
pub open spec fn fits(kept: Seq<(Fold, bool)>, fold: (Fold, bool)) -> bool
    decreases kept.len(),
{
    if kept.len() == 0 {
        true
    } else {
        let last = kept.last();
        if last.0.end <= fold.0.start {
            fits(kept.drop_last(), fold)
        } else if last.0.end < fold.0.end {
            fold.1 && !last.1 && fits(kept.drop_last(), fold)
        } else {
            true
        }
    }
}

/// The folds of `sorted` that do not cross another fold, see [`nest`].
pub open spec fn uncrossed(sorted: Seq<(Fold, bool)>) -> Seq<(Fold, bool)>
    decreases sorted.len(),
{
    if sorted.len() == 0 {
        Seq::empty()
    } else {
        let kept = uncrossed(sorted.drop_last());
        let fold = sorted.last();
        if fits(kept, fold) {
            cleared(kept, fold).push(fold)
        } else {
            cleared(kept, fold)
        }
    }
}

/// The folds without the word on which of them are preferred.
pub open spec fn folds_of(folds: Seq<(Fold, bool)>) -> Seq<Fold> {
    folds.map_values(|fold: (Fold, bool)| fold.0)
}

/// The folds with the word that all of them or none are preferred.
pub open spec fn tagged(folds: Seq<Fold>, preferred: bool) -> Seq<(Fold, bool)> {
    folds.map_values(|fold: Fold| (fold, preferred))
}

/// The sorted folds of `folds`, without duplicates and without those that cross another one.
pub open spec fn nested(folds: Seq<(Fold, bool)>) -> Seq<Fold> {
    folds_of(uncrossed(distinct(sorted_by(folds, outer_first()))))
}

/// Whether outer folds come first and any two folds are nested or disjoint.
pub open spec fn laminar(folds: Seq<Fold>) -> bool {
    forall|i: int, j: int|
        #![trigger folds[i], folds[j]]
        0 <= i < j < folds.len() ==> folds[i].before(folds[j]) && (folds[j].end <= folds[i].end
            || folds[i].end <= folds[j].start)
}

proof fn lemma_distinct(sorted: Seq<(Fold, bool)>)
    requires
        in_order(sorted, outer_first()),
    ensures
        forall|i: int, j: int|
            #![trigger distinct(sorted)[i], distinct(sorted)[j]]
            0 <= i < j < distinct(sorted).len() ==> distinct(sorted)[i].0.before(
                distinct(sorted)[j].0,
            ),
        forall|i: int|
            0 <= i < distinct(sorted).len() ==> sorted.contains(#[trigger] distinct(sorted)[i]),
        sorted.len() > 0 ==> distinct(sorted).len() > 0 && same_text(
            distinct(sorted).last().0,
            sorted.last().0,
        ),
    decreases sorted.len(),
{
    if sorted.len() > 0 {
        let t = sorted.drop_last();
        assert forall|i: int, j: int|
            #![trigger t[i], t[j]]
            0 <= i < j < t.len() implies outer_first()(t[i], t[j]) by {
            assert(outer_first()(sorted[i], sorted[j]));
        }
        lemma_distinct(t);
        let rest = distinct(t);
        let all = distinct(sorted);
        let x = sorted.last();
        assert(sorted.contains(x)) by {
            assert(sorted[sorted.len() - 1] == x);
        }
        assert forall|i: int| 0 <= i < rest.len() implies sorted.contains(#[trigger] rest[i]) by {
            let k = choose|k: int| 0 <= k < t.len() && t[k] == rest[i];
            assert(sorted[k] == rest[i]);
        }
        if rest.len() > 0 && same_text(rest.last().0, x.0) {
        } else {
            assert(all == rest.push(x));
            if rest.len() > 0 {
                assert(outer_first()(sorted[t.len() - 1], sorted[t.len() as int]));
                assert(rest.last().0.before(x.0));
                assert forall|i: int, j: int|
                    #![trigger all[i], all[j]]
                    0 <= i < j < all.len() implies all[i].0.before(all[j].0) by {
                    if j == rest.len() && i < rest.len() - 1 {
                        assert(rest[i].0.before(rest[rest.len() - 1].0));
                    }
                }
            }
        }
    }
}

/// Whether the folds are ordered and nested or disjoint, see `laminar`.
spec fn tagged_laminar(folds: Seq<(Fold, bool)>) -> bool {
    forall|i: int, j: int|
        #![trigger folds[i], folds[j]]
        0 <= i < j < folds.len() ==> folds[i].0.before(folds[j].0) && (folds[j].0.end
            <= folds[i].0.end || folds[i].0.end <= folds[j].0.start)
}

proof fn lemma_cleared(kept: Seq<(Fold, bool)>, fold: (Fold, bool))
    requires
        tagged_laminar(kept),
        forall|i: int| 0 <= i < kept.len() ==> (#[trigger] kept[i]).0.before(fold.0),
    ensures
        tagged_laminar(cleared(kept, fold)),
        forall|i: int|
            0 <= i < cleared(kept, fold).len() ==> kept.contains(
                #[trigger] cleared(kept, fold)[i],
            ),
        fits(kept, fold) ==> forall|i: int|
            0 <= i < cleared(kept, fold).len() ==> (#[trigger] cleared(kept, fold)[i]).0.end
                <= fold.0.start || cleared(kept, fold)[i].0.end >= fold.0.end,
    decreases kept.len(),
{
    if kept.len() > 0 {
        let rest = kept.drop_last();
        let last = kept.last();
        assert(tagged_laminar(rest)) by {
            assert forall|i: int, j: int|
                #![trigger rest[i], rest[j]]
                0 <= i < j < rest.len() implies rest[i].0.before(rest[j].0) && (rest[j].0.end
                <= rest[i].0.end || rest[i].0.end <= rest[j].0.start) by {
                assert(kept[i].0.before(kept[j].0));
            }
        }
        assert forall|i: int| 0 <= i < rest.len() implies (#[trigger] rest[i]).0.before(fold.0) by {
            assert(kept[i].0.before(fold.0));
        }
        lemma_cleared(rest, fold);
        let inner = cleared(rest, fold);
        let all = cleared(kept, fold);
        assert forall|i: int| 0 <= i < inner.len() implies kept.contains(#[trigger] inner[i]) by {
            let k = choose|k: int| 0 <= k < rest.len() && rest[k] == inner[i];
            assert(kept[k] == inner[i]);
        }
        if last.0.end <= fold.0.start {
            assert(all == inner.push(last));
            assert forall|i: int| 0 <= i < all.len() implies kept.contains(#[trigger] all[i]) by {
                if i < inner.len() {
                    assert(all[i] == inner[i]);
                } else {
                    assert(kept[kept.len() - 1] == all[i]);
                }
            }
            assert forall|i: int, j: int|
                #![trigger all[i], all[j]]
                0 <= i < j < all.len() implies all[i].0.before(all[j].0) && (all[j].0.end
                <= all[i].0.end || all[i].0.end <= all[j].0.start) by {
                if j == inner.len() {
                    let k = choose|k: int| 0 <= k < rest.len() && rest[k] == inner[i];
                    assert(kept[k].0.before(kept[kept.len() - 1].0));
                } else {
                    assert(inner[i].0.before(inner[j].0));
                }
            }
            if fits(kept, fold) {
                assert forall|i: int| 0 <= i < all.len() implies (#[trigger] all[i]).0.end
                    <= fold.0.start || all[i].0.end >= fold.0.end by {
                    if i < inner.len() {
                        assert(all[i] == inner[i]);
                    }
                }
            }
        } else if last.0.end < fold.0.end && fold.1 && !last.1 {
        } else {
            assert(all == kept);
            assert forall|i: int| 0 <= i < all.len() implies kept.contains(#[trigger] all[i]) by {
                assert(kept[i] == all[i]);
            }
            if fits(kept, fold) {
                assert forall|i: int| 0 <= i < all.len() implies (#[trigger] all[i]).0.end
                    <= fold.0.start || all[i].0.end >= fold.0.end by {
                    if i < rest.len() {
                        assert(kept[i].0.before(kept[kept.len() - 1].0));
                        assert(kept[kept.len() - 1].0.before(fold.0));
                    }
                }
            }
        }
    }
}

proof fn lemma_uncrossed(sorted: Seq<(Fold, bool)>)
    requires
        forall|i: int, j: int|
            #![trigger sorted[i], sorted[j]]
            0 <= i < j < sorted.len() ==> sorted[i].0.before(sorted[j].0),
    ensures
        tagged_laminar(uncrossed(sorted)),
        forall|i: int|
            0 <= i < uncrossed(sorted).len() ==> sorted.contains(#[trigger] uncrossed(sorted)[i]),
    decreases sorted.len(),
{
    if sorted.len() > 0 {
        let t = sorted.drop_last();
        let fold = sorted.last();
        assert forall|i: int, j: int|
            #![trigger t[i], t[j]]
            0 <= i < j < t.len() implies t[i].0.before(t[j].0) by {
            assert(sorted[i].0.before(sorted[j].0));
        }
        lemma_uncrossed(t);
        let kept = uncrossed(t);
        assert forall|i: int| 0 <= i < kept.len() implies (#[trigger] kept[i]).0.before(fold.0) by {
            let k = choose|k: int| 0 <= k < t.len() && t[k] == kept[i];
            assert(sorted[k].0.before(sorted[sorted.len() - 1].0));
        }
        lemma_cleared(kept, fold);
        let all = uncrossed(sorted);
        let left = cleared(kept, fold);
        assert forall|i: int| 0 <= i < left.len() implies sorted.contains(#[trigger] left[i])
            && left[i].0.before(fold.0) by {
            let k = choose|k: int| 0 <= k < kept.len() && kept[k] == left[i];
            let m = choose|m: int| 0 <= m < t.len() && t[m] == kept[k];
            assert(sorted[m] == left[i]);
        }
        assert(sorted[sorted.len() - 1] == fold);
        if fits(kept, fold) {
            assert(all == left.push(fold));
            assert forall|i: int| 0 <= i < all.len() implies sorted.contains(#[trigger] all[i]) by {
                if i < left.len() {
                    assert(all[i] == left[i]);
                }
            }
            assert forall|i: int, j: int|
                #![trigger all[i], all[j]]
                0 <= i < j < all.len() implies all[i].0.before(all[j].0) && (all[j].0.end
                <= all[i].0.end || all[i].0.end <= all[j].0.start) by {
                if j == left.len() {
                    assert(left[i].0.before(fold.0));
                } else {
                    assert(left[i].0.before(left[j].0));
                }
            }
        }
    }
}

/// Whether the folds cross: one starts inside the other and ends after it.
pub open spec fn crosses(a: Fold, b: Fold) -> bool {
    a.start < b.start < a.end < b.end || b.start < a.start < b.end < a.end
}

proof fn lemma_fits_among(kept: Seq<(Fold, bool)>, fold: (Fold, bool))
    requires
        forall|i: int|
            0 <= i < kept.len() ==> (#[trigger] kept[i]).0.before(fold.0) && !crosses(
                kept[i].0,
                fold.0,
            ),
    ensures
        fits(kept, fold),
        cleared(kept, fold) == kept,
    decreases kept.len(),
{
    if kept.len() > 0 {
        let rest = kept.drop_last();
        assert(kept[kept.len() - 1].0.before(fold.0));
        assert forall|i: int| 0 <= i < rest.len() implies (#[trigger] rest[i]).0.before(fold.0)
            && !crosses(rest[i].0, fold.0) by {
            assert(kept[i].0.before(fold.0));
        }
        lemma_fits_among(rest, fold);
        assert(rest.push(kept.last()) =~= kept);
    }
}

proof fn lemma_does_not_fit(kept: Seq<(Fold, bool)>, fold: (Fold, bool), new: (Fold, bool))
    requires
        tagged_laminar(kept),
        kept.contains(new),
        forall|i: int| 0 <= i < kept.len() ==> (#[trigger] kept[i]).0.before(fold.0),
        !fold.1,
        new.0.start < fold.0.start < new.0.end < fold.0.end,
    ensures
        !fits(kept, fold),
        cleared(kept, fold) == kept,
    decreases kept.len(),
{
    let rest = kept.drop_last();
    let last = kept.last();
    let k = kept.index_of(new);
    assert(kept[kept.len() - 1].0.before(fold.0));
    assert forall|i: int| 0 <= i < rest.len() implies (#[trigger] rest[i]).0.before(fold.0) by {
        assert(kept[i].0.before(fold.0));
    }
    assert(tagged_laminar(rest)) by {
        assert forall|i: int, j: int|
            #![trigger rest[i], rest[j]]
            0 <= i < j < rest.len() implies rest[i].0.before(rest[j].0) && (rest[j].0.end
            <= rest[i].0.end || rest[i].0.end <= rest[j].0.start) by {
            assert(kept[i].0.before(kept[j].0));
        }
    }
    if k < kept.len() - 1 {
        assert(kept[k].0.before(kept[kept.len() - 1].0));
        assert(rest[k] == new);
        lemma_does_not_fit(rest, fold, new);
    }
    assert(rest.push(last) =~= kept);
}

proof fn lemma_clears_what_it_crosses(kept: Seq<(Fold, bool)>, new: (Fold, bool))
    requires
        tagged_laminar(kept),
        forall|i: int|
            0 <= i < kept.len() ==> (#[trigger] kept[i]).0.before(new.0) && (kept[i].1 ==> !crosses(
                kept[i].0,
                new.0,
            )) && kept[i].0.start < kept[i].0.end,
        new.1,
        new.0.start < new.0.end,
    ensures
        fits(kept, new),
        forall|x: (Fold, bool)| #[trigger]
            cleared(kept, new).contains(x) <==> kept.contains(x) && !crosses(x.0, new.0),
    decreases kept.len(),
{
    if kept.len() > 0 {
        let rest = kept.drop_last();
        let last = kept.last();
        let all = cleared(kept, new);
        assert(kept[kept.len() - 1].0.before(new.0));
        assert forall|i: int| 0 <= i < rest.len() implies (#[trigger] rest[i]).0.before(new.0) && (
        rest[i].1 ==> !crosses(rest[i].0, new.0)) && rest[i].0.start < rest[i].0.end by {
            assert(kept[i].0.before(new.0));
        }
        assert(tagged_laminar(rest)) by {
            assert forall|i: int, j: int|
                #![trigger rest[i], rest[j]]
                0 <= i < j < rest.len() implies rest[i].0.before(rest[j].0) && (rest[j].0.end
                <= rest[i].0.end || rest[i].0.end <= rest[j].0.start) by {
                assert(kept[i].0.before(kept[j].0));
            }
        }
        lemma_clears_what_it_crosses(rest, new);
        let inner = cleared(rest, new);
        assert forall|x: (Fold, bool)| #[trigger] all.contains(x) <==> kept.contains(x) && !crosses(
            x.0,
            new.0,
        ) by {
            if kept.contains(x) {
                let k = kept.index_of(x);
                if k < rest.len() {
                    assert(rest[k] == x);
                    assert(kept[k].0.before(kept[kept.len() - 1].0));
                    if last.0.end <= new.0.start && inner.contains(x) {
                        assert(all[inner.index_of(x)] == x);
                    }
                } else if last.0.end <= new.0.start {
                    assert(all[inner.len() as int] == x);
                }
            }
            if all.contains(x) {
                let k = all.index_of(x);
                if last.0.end <= new.0.start {
                    if k < inner.len() {
                        assert(inner[k] == x);
                        assert(inner.contains(x));
                        assert(kept[rest.index_of(x)] == x);
                    } else {
                        assert(kept[kept.len() - 1] == x);
                    }
                } else if last.0.end < new.0.end {
                    assert(inner.contains(x));
                    assert(kept[rest.index_of(x)] == x);
                } else if k < rest.len() {
                    assert(kept[k].0.before(kept[kept.len() - 1].0));
                }
            }
        }
    } else {
        assert(cleared(kept, new) == kept);
    }
}

/// Whether a fold of `sorted` that is preferred crosses `fold`.
spec fn crossed_by_preferred(sorted: Seq<(Fold, bool)>, fold: Fold) -> bool {
    exists|i: int| 0 <= i < sorted.len() && (#[trigger] sorted[i]).1 && crosses(fold, sorted[i].0)
}

/// Where neither the preferred folds nor the others cross each other, the preferred ones are kept,
/// and of the others those that no preferred one crosses.
proof fn lemma_uncrossed_around(sorted: Seq<(Fold, bool)>)
    requires
        forall|i: int, j: int|
            #![trigger sorted[i], sorted[j]]
            0 <= i < j < sorted.len() ==> sorted[i].0.before(sorted[j].0) && (sorted[i].1
                == sorted[j].1 ==> !crosses(sorted[i].0, sorted[j].0)),
        forall|i: int| 0 <= i < sorted.len() ==> (#[trigger] sorted[i]).0.start < sorted[i].0.end,
    ensures
        forall|x: (Fold, bool)| #[trigger]
            uncrossed(sorted).contains(x) <==> sorted.contains(x) && (x.1 || !crossed_by_preferred(
                sorted,
                x.0,
            )),
    decreases sorted.len(),
{
    if sorted.len() > 0 {
        let t = sorted.drop_last();
        let fold = sorted.last();
        let n = sorted.len() - 1;
        assert(sorted[n] == fold);
        assert forall|i: int, j: int|
            #![trigger t[i], t[j]]
            0 <= i < j < t.len() implies t[i].0.before(t[j].0) && (t[i].1 == t[j].1 ==> !crosses(
            t[i].0,
            t[j].0,
        )) by {
            assert(sorted[i].0.before(sorted[j].0));
        }
        assert forall|i: int| 0 <= i < t.len() implies (#[trigger] t[i]).0.start < t[i].0.end by {
            assert(sorted[i] == t[i]);
        }
        lemma_uncrossed_around(t);
        lemma_uncrossed(t);
        let kept = uncrossed(t);
        let all = uncrossed(sorted);
        assert forall|i: int| 0 <= i < kept.len() implies t.contains(#[trigger] kept[i])
            && kept[i].0.before(fold.0) && kept[i].0.start < kept[i].0.end && (kept[i].1 == fold.1
            ==> !crosses(kept[i].0, fold.0)) by {
            assert(kept.contains(kept[i]));
            let k = choose|k: int| 0 <= k < t.len() && t[k] == kept[i];
            assert(sorted[k].0.before(sorted[n].0));
        }
        assert forall|x: (Fold, bool)| #[trigger] sorted.contains(x) <==> t.contains(x) || x
            == fold by {
            if sorted.contains(x) {
                let k = sorted.index_of(x);
                if k < n {
                    assert(t[k] == x);
                }
            }
            if t.contains(x) {
                assert(sorted[t.index_of(x)] == x);
            }
        }
        assert(!t.contains(fold)) by {
            if t.contains(fold) {
                let k = t.index_of(fold);
                assert(sorted[k].0.before(sorted[n].0));
            }
        }
        assert forall|f: Fold| #[trigger] crossed_by_preferred(sorted, f) <==> crossed_by_preferred(
            t,
            f,
        ) || (fold.1 && crosses(f, fold.0)) by {
            if crossed_by_preferred(sorted, f) {
                let k = choose|k: int|
                    0 <= k < sorted.len() && (#[trigger] sorted[k]).1 && crosses(f, sorted[k].0);
                if k < n {
                    assert(t[k] == sorted[k]);
                }
            }
            if crossed_by_preferred(t, f) {
                let k = choose|k: int|
                    0 <= k < t.len() && (#[trigger] t[k]).1 && crosses(f, t[k].0);
                assert(sorted[k] == t[k]);
            }
        }
        if fold.1 {
            lemma_clears_what_it_crosses(kept, fold);
            let left = cleared(kept, fold);
            assert(all == left.push(fold));
            assert forall|x: (Fold, bool)| #[trigger] all.contains(x) <==> sorted.contains(x) && (
            x.1 || !crossed_by_preferred(sorted, x.0)) by {
                if left.contains(x) {
                    assert(all[left.index_of(x)] == x);
                }
                if x == fold {
                    assert(all[left.len() as int] == x);
                }
                if all.contains(x) {
                    let k = all.index_of(x);
                    if k < left.len() {
                        assert(left[k] == x);
                        assert(left.contains(x));
                    }
                }
                if t.contains(x) && x.1 {
                    let k = t.index_of(x);
                    assert(!crosses(sorted[k].0, sorted[n].0));
                    assert(kept.contains(x));
                }
                if t.contains(x) && !crossed_by_preferred(t, x.0) {
                    assert(kept.contains(x));
                }
            }
        } else {
            let crossing = crossed_by_preferred(t, fold.0);
            if crossing {
                let k = choose|k: int|
                    0 <= k < t.len() && (#[trigger] t[k]).1 && crosses(fold.0, t[k].0);
                assert(sorted[k].0.before(sorted[n].0));
                assert(t.contains(t[k]));
                assert(kept.contains(t[k]));
                lemma_does_not_fit(kept, fold, t[k]);
            } else {
                assert forall|i: int| 0 <= i < kept.len() implies (#[trigger] kept[i]).0.before(
                    fold.0,
                ) && !crosses(kept[i].0, fold.0) by {
                    assert(t.contains(kept[i]));
                    let k = t.index_of(kept[i]);
                    if kept[i].1 && crosses(kept[i].0, fold.0) {
                        assert(t[k].1 && crosses(fold.0, t[k].0));
                    }
                }
                lemma_fits_among(kept, fold);
                assert(all == kept.push(fold));
                assert(all[kept.len() as int] == fold);
            }
            assert forall|x: (Fold, bool)| #[trigger] all.contains(x) <==> sorted.contains(x) && (
            x.1 || !crossed_by_preferred(sorted, x.0)) by {
                if kept.contains(x) && !crossing {
                    assert(all[kept.index_of(x)] == x);
                }
                if all.contains(x) && !crossing {
                    let k = all.index_of(x);
                    if k < kept.len() {
                        assert(kept[k] == x);
                        assert(kept.contains(x));
                    }
                }
            }
        }
    }
}

proof fn lemma_distinct_stands_for(sorted: Seq<(Fold, bool)>, x: (Fold, bool))
    requires
        in_order(sorted, outer_first()),
        sorted.contains(x),
    ensures
        exists|y: (Fold, bool)| #[trigger]
            distinct(sorted).contains(y) && same_text(y.0, x.0) && (x.1 ==> y.1),
    decreases sorted.len(),
{
    let t = sorted.drop_last();
    let rest = distinct(t);
    let all = distinct(sorted);
    let last = sorted.last();
    let n = sorted.len() - 1;
    assert(in_order(t, outer_first())) by {
        assert forall|i: int, j: int|
            #![trigger t[i], t[j]]
            0 <= i < j < t.len() implies outer_first()(t[i], t[j]) by {
            assert(outer_first()(sorted[i], sorted[j]));
        }
    }
    lemma_distinct(t);
    let k = sorted.index_of(x);
    if k < n {
        assert(t[k] == x);
        lemma_distinct_stands_for(t, x);
        let y = choose|y: (Fold, bool)| #[trigger]
            rest.contains(y) && same_text(y.0, x.0) && (x.1 ==> y.1);
        assert(all[rest.index_of(y)] == y);
        assert(all.contains(y));
    } else if rest.len() > 0 && same_text(rest.last().0, last.0) {
        let y = rest[rest.len() - 1];
        assert(t.contains(y));
        assert(outer_first()(sorted[t.index_of(y)], sorted[n]));
        assert(all.contains(y));
    } else {
        assert(all[rest.len() as int] == x);
        assert(all.contains(x));
    }
}

/// Whether no two of the folds cross: they are nested or disjoint.
pub open spec fn none_cross(folds: Seq<Fold>) -> bool {
    forall|i: int, j: int|
        #![trigger folds[i], folds[j]]
        0 <= i < folds.len() && 0 <= j < folds.len() ==> !crosses(folds[i], folds[j])
}

/// Whether one of `folds` crosses `fold` or hides the same text.
pub open spec fn displaces(folds: Seq<Fold>, fold: Fold) -> bool {
    exists|i: int|
        0 <= i < folds.len() && (crosses(fold, #[trigger] folds[i]) || same_text(fold, folds[i]))
}

/// The folds that are left of `closed` and the new ones `new` once of those that hide the same text
/// one is taken.
spec fn unique_of(closed: Seq<Fold>, new: Seq<Fold>) -> Seq<(Fold, bool)> {
    distinct(sorted_by(tagged(closed, false) + tagged(new, true), outer_first()))
}

proof fn lemma_unique_of(closed: Seq<Fold>, new: Seq<Fold>)
    ensures
        forall|i: int, j: int|
            #![trigger unique_of(closed, new)[i], unique_of(closed, new)[j]]
            0 <= i < j < unique_of(closed, new).len() ==> unique_of(closed, new)[i].0.before(
                unique_of(closed, new)[j].0,
            ),
        forall|x: (Fold, bool)| #[trigger]
            unique_of(closed, new).contains(x) ==> if x.1 {
                new.contains(x.0)
            } else {
                closed.contains(x.0)
            },
{
    let folds = tagged(closed, false) + tagged(new, true);
    let sorted = sorted_by(folds, outer_first());
    let unique = unique_of(closed, new);
    assert(total_preorder(outer_first()));
    lemma_sorted_by(folds, outer_first());
    lemma_distinct(sorted);
    assert forall|x: (Fold, bool)| #[trigger] unique.contains(x) implies if x.1 {
        new.contains(x.0)
    } else {
        closed.contains(x.0)
    } by {
        assert(sorted.contains(unique[unique.index_of(x)]));
        lemma_sorted_by_contains(folds, outer_first(), x);
        let k = folds.index_of(x);
        if k < closed.len() {
            assert(closed[k] == x.0);
        } else {
            assert(new[k - closed.len()] == x.0);
        }
    }
}

/// Every new fold has a preferred one in its place.
proof fn lemma_unique_new(closed: Seq<Fold>, new: Seq<Fold>, i: int) -> (y: (Fold, bool))
    requires
        0 <= i < new.len(),
    ensures
        unique_of(closed, new).contains(y),
        same_text(y.0, new[i]),
        y.1,
{
    let folds = tagged(closed, false) + tagged(new, true);
    let sorted = sorted_by(folds, outer_first());
    let x = (new[i], true);
    assert(total_preorder(outer_first()));
    lemma_sorted_by(folds, outer_first());
    assert(folds[closed.len() + i] == x);
    lemma_sorted_by_contains(folds, outer_first(), x);
    lemma_distinct_stands_for(sorted, x);
    choose|y: (Fold, bool)| #[trigger]
        distinct(sorted).contains(y) && same_text(y.0, x.0) && (x.1 ==> y.1)
}

/// A closed fold is still there, unless a new one hides the same text.
proof fn lemma_unique_closed(closed: Seq<Fold>, new: Seq<Fold>, i: int)
    requires
        laminar(closed),
        0 <= i < closed.len(),
        !displaces(new, closed[i]),
    ensures
        unique_of(closed, new).contains((closed[i], false)),
{
    let folds = tagged(closed, false) + tagged(new, true);
    let sorted = sorted_by(folds, outer_first());
    let x = (closed[i], false);
    assert(total_preorder(outer_first()));
    lemma_sorted_by(folds, outer_first());
    assert(folds[i] == x);
    lemma_sorted_by_contains(folds, outer_first(), x);
    lemma_distinct_stands_for(sorted, x);
    let y = choose|y: (Fold, bool)| #[trigger]
        distinct(sorted).contains(y) && same_text(y.0, x.0) && (x.1 ==> y.1);
    lemma_unique_of(closed, new);
    assert(unique_of(closed, new).contains(y));
    if y.1 {
        let k = new.index_of(y.0);
        assert(same_text(closed[i], new[k]));
    } else {
        let k = closed.index_of(y.0);
        if k < i {
            assert(closed[k].before(closed[i]));
        } else if i < k {
            assert(closed[i].before(closed[k]));
        }
    }
}

/// What is left of the closed folds and the new ones once none cross any more.
proof fn lemma_uncrossed_of(closed: Seq<Fold>, new: Seq<Fold>)
    requires
        laminar(closed),
        forall|i: int| 0 <= i < closed.len() ==> (#[trigger] closed[i]).start < closed[i].end,
        none_cross(new),
        forall|i: int| 0 <= i < new.len() ==> (#[trigger] new[i]).start < new[i].end,
    ensures
        forall|x: (Fold, bool)| #[trigger]
            uncrossed(unique_of(closed, new)).contains(x) <==> unique_of(closed, new).contains(x) && (
            x.1 || !crossed_by_preferred(unique_of(closed, new), x.0)),
{
    let unique = unique_of(closed, new);
    lemma_unique_of(closed, new);
    assert forall|i: int| 0 <= i < unique.len() implies (#[trigger] unique[i]).0.start
        < unique[i].0.end by {
        assert(unique.contains(unique[i]));
        if unique[i].1 {
            let k = new.index_of(unique[i].0);
            assert(new[k].start < new[k].end);
        } else {
            let k = closed.index_of(unique[i].0);
            assert(closed[k].start < closed[k].end);
        }
    }
    assert forall|i: int, j: int|
        #![trigger unique[i], unique[j]]
        0 <= i < j < unique.len() implies unique[i].0.before(unique[j].0) && (unique[i].1
        == unique[j].1 ==> !crosses(unique[i].0, unique[j].0)) by {
        assert(unique.contains(unique[i]) && unique.contains(unique[j]));
        if unique[i].1 && unique[j].1 {
            let a = new.index_of(unique[i].0);
            let b = new.index_of(unique[j].0);
            assert(!crosses(new[a], new[b]));
        } else if !unique[i].1 && !unique[j].1 {
            let a = closed.index_of(unique[i].0);
            let b = closed.index_of(unique[j].0);
            if a < b {
                assert(closed[a].before(closed[b]));
            } else if b < a {
                assert(closed[b].before(closed[a]));
            }
        }
    }
    lemma_uncrossed_around(unique);
}

proof fn lemma_kept_closed(closed: Seq<Fold>, new: Seq<Fold>, fold: Fold)
    requires
        unique_of(closed, new).contains((fold, false)),
        !crossed_by_preferred(unique_of(closed, new), fold),
    ensures
        !displaces(new, fold),
{
    let unique = unique_of(closed, new);
    lemma_unique_of(closed, new);
    if displaces(new, fold) {
        let i = choose|i: int|
            0 <= i < new.len() && (crosses(fold, #[trigger] new[i]) || same_text(fold, new[i]));
        let y = lemma_unique_new(closed, new, i);
        let k = unique.index_of(y);
        let m = unique.index_of((fold, false));
        if crosses(fold, new[i]) {
            assert(crosses(fold, unique[k].0));
        } else if k < m {
            assert(unique[k].0.before(unique[m].0));
        } else if m < k {
            assert(unique[m].0.before(unique[k].0));
        }
    }
}

/// Closing folds opens the closed folds that they cross, and no others: the new folds are closed, one
/// for each text that they hide, and so are the folds that were, but for those that a new one crosses
/// or takes the place of.
pub proof fn law_closing_opens_what_it_crosses(closed: Seq<Fold>, new: Seq<Fold>)
    requires
        laminar(closed),
        forall|i: int| 0 <= i < closed.len() ==> (#[trigger] closed[i]).start < closed[i].end,
        none_cross(new),
        forall|i: int| 0 <= i < new.len() ==> (#[trigger] new[i]).start < new[i].end,
    ensures
        ({
            let all = nested(tagged(closed, false) + tagged(new, true));
            &&& laminar(all)
            &&& forall|i: int|
                0 <= i < new.len() ==> exists|k: int|
                    0 <= k < all.len() && same_text(#[trigger] all[k], #[trigger] new[i])
                        && new.contains(all[k])
            &&& forall|fold: Fold| #[trigger]
                all.contains(fold) && !new.contains(fold) ==> closed.contains(fold) && !displaces(
                    new,
                    fold,
                )
            &&& forall|i: int|
                0 <= i < closed.len() && !displaces(new, #[trigger] closed[i]) ==> all.contains(
                    closed[i],
                )
        }),
{
    let unique = unique_of(closed, new);
    let kept = uncrossed(unique);
    let folds = tagged(closed, false) + tagged(new, true);
    let all = nested(folds);
    law_nested_folds(folds);
    lemma_unique_of(closed, new);
    lemma_uncrossed_of(closed, new);
    assert forall|i: int| 0 <= i < new.len() implies exists|k: int|
        0 <= k < all.len() && same_text(#[trigger] all[k], #[trigger] new[i]) && new.contains(
            all[k],
        ) by {
        let y = lemma_unique_new(closed, new, i);
        assert(kept.contains(y));
        let k = kept.index_of(y);
        assert(all[k] == y.0);
        assert(same_text(all[k], new[i]));
    }
    assert forall|fold: Fold| #[trigger]
        all.contains(fold) && !new.contains(fold) implies closed.contains(fold) && !displaces(
        new,
        fold,
    ) by {
        let x = kept[all.index_of(fold)];
        assert(kept.contains(x));
        assert(unique.contains(x));
        assert(x == (fold, false));
        lemma_kept_closed(closed, new, fold);
    }
    assert forall|i: int|
        0 <= i < closed.len() && !displaces(new, #[trigger] closed[i]) implies all.contains(
        closed[i],
    ) by {
        let x = (closed[i], false);
        lemma_unique_closed(closed, new, i);
        if crossed_by_preferred(unique, closed[i]) {
            let m = choose|m: int|
                0 <= m < unique.len() && (#[trigger] unique[m]).1 && crosses(
                    closed[i],
                    unique[m].0,
                );
            assert(unique.contains(unique[m]));
            let j = new.index_of(unique[m].0);
            assert(crosses(closed[i], new[j]));
        }
        assert(kept.contains(x));
        assert(all[kept.index_of(x)] == closed[i]);
    }
}

/// Two sorted sequences of the same folds are the same.
pub proof fn lemma_same_laminar(a: Seq<Fold>, b: Seq<Fold>)
    requires
        laminar(a),
        laminar(b),
        forall|fold: Fold|
            #![trigger a.contains(fold)]
            #![trigger b.contains(fold)]
            a.contains(fold) <==> b.contains(fold),
    ensures
        a == b,
    decreases a.len(),
{
    if a.len() == 0 {
        if b.len() > 0 {
            assert(b.contains(b[0]));
        }
        assert(a =~= b);
    } else {
        assert(a.contains(a[a.len() - 1]));
        assert(b.contains(a.last()));
        assert(b.contains(b[b.len() - 1]));
        let i = a.index_of(b.last());
        let k = b.index_of(a.last());
        if i < a.len() - 1 {
            assert(a[i].before(a[a.len() - 1]));
        }
        if k < b.len() - 1 {
            assert(b[k].before(b[b.len() - 1]));
        }
        let x = a.drop_last();
        let y = b.drop_last();
        lemma_laminar_prefix(a);
        lemma_laminar_prefix(b);
        assert forall|fold: Fold|
            #![trigger x.contains(fold)]
            #![trigger y.contains(fold)]
            x.contains(fold) <==> y.contains(fold) by {
            if x.contains(fold) {
                let m = x.index_of(fold);
                assert(a[m] == fold && a[m].before(a[a.len() - 1]));
                assert(a.contains(fold));
                let n = b.index_of(fold);
                assert(n < y.len());
                assert(y[n] == fold);
            }
            if y.contains(fold) {
                let m = y.index_of(fold);
                assert(b[m] == fold && b[m].before(b[b.len() - 1]));
                assert(b.contains(fold));
                let n = a.index_of(fold);
                assert(n < x.len());
                assert(x[n] == fold);
            }
        }
        lemma_same_laminar(x, y);
        assert(a =~= x.push(a.last()));
        assert(b =~= y.push(b.last()));
    }
}

pub proof fn lemma_laminar_prefix(folds: Seq<Fold>)
    requires
        laminar(folds),
        folds.len() > 0,
    ensures
        laminar(folds.drop_last()),
{
    let t = folds.drop_last();
    assert forall|i: int, j: int|
        #![trigger t[i], t[j]]
        0 <= i < j < t.len() implies t[i].before(t[j]) && (t[j].end <= t[i].end || t[i].end
        <= t[j].start) by {
        assert(folds[i].before(folds[j]));
    }
}

/// Nesting makes any folds nested or disjoint, outer folds first, and adds no fold.
pub proof fn law_nested_folds(folds: Seq<(Fold, bool)>)
    ensures
        laminar(nested(folds)),
        forall|i: int|
            0 <= i < nested(folds).len() ==> folds_of(folds).contains(#[trigger] nested(folds)[i]),
{
    let sorted = sorted_by(folds, outer_first());
    assert(total_preorder(outer_first()));
    lemma_sorted_by(folds, outer_first());
    lemma_distinct(sorted);
    let unique = distinct(sorted);
    lemma_uncrossed(unique);
    let kept = uncrossed(unique);
    let all = nested(folds);
    assert forall|i: int, j: int|
        #![trigger all[i], all[j]]
        0 <= i < j < all.len() implies all[i].before(all[j]) && (all[j].end <= all[i].end
        || all[i].end <= all[j].start) by {
        assert(kept[i].0.before(kept[j].0));
    }
    assert forall|i: int| 0 <= i < all.len() implies folds_of(folds).contains(#[trigger] all[i]) by {
        let x = kept[i];
        assert(unique.contains(x));
        let k = choose|k: int| 0 <= k < unique.len() && unique[k] == x;
        assert(sorted.contains(unique[k]));
        lemma_sorted_by_contains(folds, outer_first(), x);
        let m = choose|m: int| 0 <= m < folds.len() && folds[m] == x;
        assert(folds_of(folds)[m] == all[i]);
    }
}

/// Folds that end before `fold` starts take no part in whether it is kept.
proof fn lemma_cleared_tail(
    kept: Seq<(Fold, bool)>,
    tail: Seq<(Fold, bool)>,
    fold: (Fold, bool),
)
    requires
        forall|i: int| 0 <= i < tail.len() ==> (#[trigger] tail[i]).0.end <= fold.0.start,
    ensures
        cleared(kept + tail, fold) == cleared(kept, fold) + tail,
        fits(kept + tail, fold) == fits(kept, fold),
    decreases tail.len(),
{
    if tail.len() == 0 {
        assert(kept + tail =~= kept);
        assert(cleared(kept, fold) + tail =~= cleared(kept, fold));
    } else {
        let all = kept + tail;
        assert(all.drop_last() =~= kept + tail.drop_last());
        assert(all.last() == tail[tail.len() - 1]);
        assert forall|i: int| 0 <= i < tail.drop_last().len() implies (
        #[trigger] tail.drop_last()[i]).0.end <= fold.0.start by {
            assert(tail[i].0.end <= fold.0.start);
        }
        lemma_cleared_tail(kept, tail.drop_last(), fold);
        assert(cleared(all, fold) =~= cleared(kept, fold) + tail);
    }
}

/// Sorts `folds` outermost first and drops duplicates and folds that cross another fold (overlap
/// without nesting). Of two crossing folds the preferred one is kept, or else the earlier one.
pub fn nest(folds: Vec<(Fold, bool)>) -> (kept: Vec<Fold>)
    ensures
        kept@ == nested(folds@),
        laminar(kept@),
{
    let ghost given = folds@;
    let sorted: Vec<(Fold, bool)> = stable_sort(folds, test_outer_first, Ghost(outer_first()));
    let mut unique: Vec<(Fold, bool)> = Vec::new();
    let mut i: usize = 0;
    while i < sorted.len()
        invariant
            i <= sorted.len(),
            unique@ == distinct(sorted@.take(i as int)),
        decreases sorted.len() - i,
    {
        let item: (Fold, bool) = sorted[i];
        proof {
            assert(sorted@.take(i + 1).drop_last() =~= sorted@.take(i as int));
        }
        let duplicate: bool = unique.len() > 0 && unique[unique.len() - 1].0.start == item.0.start
            && unique[unique.len() - 1].0.end == item.0.end;
        if !duplicate {
            unique.push(item);
        }
        i += 1;
    }
    proof {
        assert(sorted@.take(i as int) =~= sorted@);
        assert(total_preorder(outer_first()));
        lemma_sorted_by(given, outer_first());
        lemma_distinct(sorted@);
    }

    let mut kept: Vec<(Fold, bool)> = Vec::new();
    // indices into `kept` of the folds enclosing the current one, innermost last
    let mut enclosing: Vec<usize> = Vec::new();
    let mut n: usize = 0;
    while n < unique.len()
        invariant
            n <= unique.len(),
            kept@ == uncrossed(unique@.take(n as int)),
            forall|a: int, b: int|
                #![trigger unique@[a], unique@[b]]
                0 <= a < b < unique@.len() ==> unique@[a].0.before(unique@[b].0),
            forall|a: int, b: int|
                #![trigger enclosing@[a], enclosing@[b]]
                0 <= a < b < enclosing@.len() ==> enclosing@[a] < enclosing@[b],
            forall|a: int| 0 <= a < enclosing@.len() ==> #[trigger] enclosing@[a] < kept@.len(),
            forall|k: int|
                0 <= k < kept@.len() && !enclosing@.contains(k as usize) ==> n > 0 && (
                #[trigger] kept@[k]).0.end <= unique@[n - 1].0.start,
        decreases unique.len() - n,
    {
        let item: (Fold, bool) = unique[n];
        let ghost before = kept@;
        proof {
            assert(unique@.take(n + 1).drop_last() =~= unique@.take(n as int));
            if n > 0 {
                assert(unique@[n - 1].0.before(unique@[n as int].0));
            }
        }
        let mut crossed: bool = false;
        let mut placed: bool = false;
        while !crossed && !placed
            invariant
                cleared(before, item) == cleared(kept@, item),
                fits(before, item) == fits(kept@, item),
                forall|a: int, b: int|
                    #![trigger enclosing@[a], enclosing@[b]]
                    0 <= a < b < enclosing@.len() ==> enclosing@[a] < enclosing@[b],
                forall|a: int| 0 <= a < enclosing@.len() ==> #[trigger] enclosing@[a] < kept@.len(),
                forall|k: int|
                    0 <= k < kept@.len() && !enclosing@.contains(k as usize) ==> (
                    #[trigger] kept@[k]).0.end <= item.0.start,
                kept.len() == kept@.len(),
                crossed ==> !fits(kept@, item) && cleared(kept@, item) == kept@,
                placed ==> fits(kept@, item) && cleared(kept@, item) == kept@,
                !(crossed && placed),
            decreases enclosing.len(), (if crossed || placed {
                0int
            } else {
                1
            }),
        {
            if enclosing.len() == 0 {
                proof {
                    assert(!enclosing@.contains(0usize));
                    assert forall|k: int| 0 <= k < kept@.len() implies (#[trigger] kept@[k]).0.end
                        <= item.0.start by {
                        assert(!enclosing@.contains(k as usize));
                    }
                    assert(kept@ =~= Seq::<(Fold, bool)>::empty() + kept@);
                    lemma_cleared_tail(Seq::empty(), kept@, item);
                }
                placed = true;
            } else {
                let parent: usize = enclosing[enclosing.len() - 1];
                let (parent_fold, parent_preferred): (Fold, bool) = kept[parent];
                let ghost head = kept@.take(parent as int);
                let ghost tail = kept@.skip(parent + 1);
                proof {
                    assert forall|k: int| 0 <= k < tail.len() implies (#[trigger] tail[k]).0.end
                        <= item.0.start by {
                        let at = k + parent + 1;
                        assert(!enclosing@.contains(at as usize)) by {
                            if enclosing@.contains(at as usize) {
                                let a = choose|a: int|
                                    0 <= a < enclosing@.len() && enclosing@[a] == at as usize;
                                assert(enclosing@[enclosing@.len() - 1] == parent);
                                assert(a == enclosing@.len() - 1 || enclosing@[a]
                                    < enclosing@[enclosing@.len() - 1]);
                            }
                        }
                        assert(kept@[at].0.end <= item.0.start);
                    }
                    assert(kept@ =~= head.push(kept@[parent as int]) + tail);
                    lemma_cleared_tail(head.push(kept@[parent as int]), tail, item);
                    assert(head.push(kept@[parent as int]).drop_last() =~= head);
                    lemma_cleared_tail(head, tail, item);
                }
                let ghost stack = enclosing@;
                if parent_fold.end <= item.0.start {
                    enclosing.pop();
                    proof {
                        assert(enclosing@ == stack.drop_last());
                        assert forall|k: int|
                            0 <= k < kept@.len() && !enclosing@.contains(k as usize) implies (
                        #[trigger] kept@[k]).0.end <= item.0.start by {
                            if k != parent {
                                assert(!stack.contains(k as usize)) by {
                                    if stack.contains(k as usize) {
                                        let a = choose|a: int|
                                            0 <= a < stack.len() && stack[a] == k as usize;
                                        assert(enclosing@[a] == k as usize);
                                    }
                                }
                            }
                        }
                    }
                } else if parent_fold.end < item.0.end {
                    // the fold starts inside its parent but ends after it
                    if !item.1 || parent_preferred {
                        crossed = true;
                        assert(cleared(kept@, item) =~= kept@);
                    } else {
                        let ghost old_kept = kept@;
                        kept.remove(parent);
                        enclosing.pop();
                        proof {
                            assert(kept@ =~= head + tail);
                            assert(enclosing@ == stack.drop_last());
                            assert forall|a: int| 0 <= a < enclosing@.len() implies #[trigger] enclosing@[a]
                                < kept@.len() by {
                                assert(stack[a] < stack[stack.len() - 1]);
                            }
                            assert forall|k: int|
                                0 <= k < kept@.len() && !enclosing@.contains(k as usize) implies (
                            #[trigger] kept@[k]).0.end <= item.0.start by {
                                if k < parent {
                                    assert(kept@[k] == old_kept[k]);
                                    assert(!stack.contains(k as usize)) by {
                                        if stack.contains(k as usize) {
                                            let a = choose|a: int|
                                                0 <= a < stack.len() && stack[a] == k as usize;
                                            assert(enclosing@[a] == k as usize);
                                        }
                                    }
                                } else {
                                    assert(kept@[k] == tail[k - parent]);
                                }
                            }
                        }
                    }
                } else {
                    placed = true;
                    assert(cleared(kept@, item) =~= kept@);
                }
            }
        }
        let ghost stack = enclosing@;
        let ghost left = kept@;
        if placed {
            enclosing.push(kept.len());
            kept.push(item);
        }
        proof {
            assert(kept@ == uncrossed(unique@.take(n + 1)));
            assert forall|k: int|
                0 <= k < kept@.len() && !enclosing@.contains(k as usize) implies (
            #[trigger] kept@[k]).0.end <= unique@[n as int].0.start by {
                if k < left.len() {
                    assert(kept@[k] == left[k]);
                    assert(!stack.contains(k as usize)) by {
                        if stack.contains(k as usize) {
                            let a = choose|a: int| 0 <= a < stack.len() && stack[a] == k as usize;
                            assert(enclosing@[a] == k as usize);
                        }
                    }
                } else {
                    assert(enclosing@[enclosing@.len() - 1] == k as usize);
                }
            }
        }
        n += 1;
    }
    proof {
        assert(unique@.take(n as int) =~= unique@);
        law_nested_folds(given);
    }
    let mut folds: Vec<Fold> = Vec::new();
    let mut j: usize = 0;
    while j < kept.len()
        invariant
            j <= kept.len(),
            folds@ == folds_of(kept@.take(j as int)),
        decreases kept.len() - j,
    {
        folds.push(kept[j].0);
        proof {
            assert(folds_of(kept@.take(j + 1)) =~= folds_of(kept@.take(j as int)).push(
                kept@[j as int].0,
            ));
        }
        j += 1;
    }
    proof {
        assert(kept@.take(j as int) =~= kept@);
    }
    folds
}

/// A pulled up end stays on the first char of its line that is not white space if that is `)`, `]` or
/// `}`. If it is another char, the end is no longer pulled up, and stays where it is.
pub proof fn law_pulled_up_ends_stay_on_brackets(fold: Fold, s: Seq<char>, c: int)
    requires
        s.len() <= usize::MAX,
        fold.pulled_up,
        fold.start < fold.end <= s.len(),
        break_at(s, fold.start as int),
        line_start(s, line_of(s, fold.end as int)) <= c < line_start(
            s,
            line_of(s, fold.end as int) + 1,
        ),
        !white_space(s[c]),
        forall|k: int|
            line_start(s, line_of(s, fold.end as int)) <= k < c ==> white_space(#[trigger] s[k]),
    ensures
        ({
            let inner = line_start(s, line_of(s, fold.start as int) + 1);
            &&& (s[c] == ')' || s[c] == ']' || s[c] == '}') && inner < c ==> fold.revalidated(s)
                == Some(Fold { start: fold.start, end: c as usize, pulled_up: true })
            &&& (s[c] == ')' || s[c] == ']' || s[c] == '}') && inner >= c ==> fold.revalidated(s)
                is None
            &&& s[c] != ')' && s[c] != ']' && s[c] != '}' && inner < fold.end ==> fold.revalidated(
                s,
            ) == Some(Fold { start: fold.start, end: fold.end, pulled_up: false })
            &&& s[c] != ')' && s[c] != ']' && s[c] != '}' && inner >= fold.end ==> fold.revalidated(
                s,
            ) is None
        }),
{
    let line = line_of(s, fold.end as int);
    let (from, to) = (line_start(s, line) as int, line_start(s, line + 1) as int);
    lemma_line_of_bound(s, fold.end as int);
    lemma_line_start_bound(s, line + 1);
    lemma_first_visible(s, from, to);
    let first = line_first_visible(s, line);
    if first is None {
        assert(white_space(s[c]));
    } else if first->0 < c {
        assert(white_space(s[first->0]));
    } else if c < first->0 {
        assert(white_space(s[c]));
    }
}

/// A fold whose end is not pulled up is kept as it is while it hides its header's line break and some
/// text after it, and is dropped if it does not.
pub proof fn law_other_folds_are_kept_or_dropped(fold: Fold, s: Seq<char>)
    requires
        !fold.pulled_up,
    ensures
        fold.revalidated(s) == if fold.start < fold.end <= s.len() && break_at(s, fold.start as int)
            && line_start(s, line_of(s, fold.start as int) + 1) < fold.end {
            Some(fold)
        } else {
            None
        },
{
}

/// A range cuts a fold if it covers some of the text that the fold hides after its header, and not
/// all of it.
pub proof fn law_ranges_cut_what_they_cover_in_part(fold: Fold, s: Seq<char>, range: Range)
    requires
        range.anchor != range.head,
        line_start(s, line_of(s, fold.start as int) + 1) < fold.end,
    ensures
        ({
            let inner = line_start(s, line_of(s, fold.start as int) + 1) as int;
            let (low, high) = if range.anchor < range.head {
                (range.anchor as int, range.head as int)
            } else {
                (range.head as int, range.anchor as int)
            };
            fold.cut_by(s, range) <==> {
                &&& exists|p: int| inner <= p < fold.end && low <= p < high && #[trigger] anywhere(p)
                &&& exists|p: int| inner <= p < fold.end && !(low <= p < high) && #[trigger] anywhere(p)
            }
        }),
{
    let inner = line_start(s, line_of(s, fold.start as int) + 1) as int;
    let (low, high) = if range.anchor < range.head {
        (range.anchor as int, range.head as int)
    } else {
        (range.head as int, range.anchor as int)
    };
    if fold.cut_by(s, range) {
        let covered = if inner < low {
            low
        } else {
            inner
        };
        assert(anywhere(covered));
        let left = if inner < low {
            inner
        } else {
            fold.end - 1
        };
        assert(anywhere(left));
    }
}

/// Any position will do.
pub open spec fn anywhere(position: int) -> bool {
    true
}

proof fn lemma_nothing_cleared(kept: Seq<(Fold, bool)>, fold: (Fold, bool))
    requires
        !fold.1,
    ensures
        cleared(kept, fold) == kept,
        !fits(kept, fold) ==> exists|i: int|
            0 <= i < kept.len() && fold.0.start < (#[trigger] kept[i]).0.end < fold.0.end,
    decreases kept.len(),
{
    if kept.len() > 0 {
        let rest = kept.drop_last();
        let last = kept.last();
        lemma_nothing_cleared(rest, fold);
        assert(rest.push(last) =~= kept);
        assert(kept[kept.len() - 1] == last);
        if !fits(kept, fold) && last.0.end <= fold.0.start {
            let i = choose|i: int|
                0 <= i < rest.len() && fold.0.start < (#[trigger] rest[i]).0.end < fold.0.end;
            assert(kept[i] == rest[i]);
        }
    }
}

proof fn lemma_kept_or_crossed(sorted: Seq<(Fold, bool)>, i: int)
    requires
        forall|i: int, j: int|
            #![trigger sorted[i], sorted[j]]
            0 <= i < j < sorted.len() ==> sorted[i].0.before(sorted[j].0),
        forall|i: int| 0 <= i < sorted.len() ==> !(#[trigger] sorted[i]).1,
        0 <= i < sorted.len(),
    ensures
        exists|k: int|
            0 <= k < uncrossed(sorted).len() && (#[trigger] uncrossed(sorted)[k] == sorted[i] || (
            uncrossed(sorted)[k].0.start < sorted[i].0.start < uncrossed(sorted)[k].0.end
                < sorted[i].0.end)),
    decreases sorted.len(),
{
    let rest = sorted.drop_last();
    let fold = sorted.last();
    assert forall|i: int, j: int|
        #![trigger rest[i], rest[j]]
        0 <= i < j < rest.len() implies rest[i].0.before(rest[j].0) by {
        assert(sorted[i].0.before(sorted[j].0));
    }
    assert forall|i: int| 0 <= i < rest.len() implies !(#[trigger] rest[i]).1 by {
        assert(rest[i] == sorted[i]);
    }
    assert(sorted[sorted.len() - 1] == fold);
    let kept = uncrossed(rest);
    let all = uncrossed(sorted);
    lemma_nothing_cleared(kept, fold);
    if i < rest.len() {
        lemma_kept_or_crossed(rest, i);
        assert(rest[i] == sorted[i]);
        let k = choose|k: int|
            0 <= k < kept.len() && (#[trigger] kept[k] == rest[i] || (kept[k].0.start
                < rest[i].0.start < kept[k].0.end < rest[i].0.end));
        assert(all[k] == kept[k]);
    } else if fits(kept, fold) {
        assert(all[kept.len() as int] == fold);
    } else {
        let k = choose|k: int|
            0 <= k < kept.len() && fold.0.start < (#[trigger] kept[k]).0.end < fold.0.end;
        lemma_uncrossed(rest);
        assert(rest.contains(kept[k]));
        let m = rest.index_of(kept[k]);
        assert(sorted[m].0.before(sorted[sorted.len() - 1].0));
        assert(all[k] == kept[k]);
    }
}

proof fn lemma_distinct_covers(sorted: Seq<(Fold, bool)>, i: int)
    requires
        0 <= i < sorted.len(),
    ensures
        exists|k: int|
            0 <= k < distinct(sorted).len() && same_text(
                (#[trigger] distinct(sorted)[k]).0,
                sorted[i].0,
            ),
    decreases sorted.len(),
{
    let rest = sorted.drop_last();
    let kept = distinct(rest);
    let all = distinct(sorted);
    if i < rest.len() {
        lemma_distinct_covers(rest, i);
        let k = choose|k: int|
            0 <= k < kept.len() && same_text((#[trigger] kept[k]).0, rest[i].0);
        assert(all[k] == kept[k]);
    } else {
        assert(same_text(all[all.len() - 1].0, sorted[i].0));
    }
}

/// Of regions that cross, the one that starts first is kept: every region is kept, or another one is
/// that hides the same text, or one that starts before it and ends inside it.
pub proof fn law_crossed_regions_give_way_to_earlier_ones(folds: Seq<Fold>, fold: Fold)
    requires
        folds.contains(fold),
    ensures
        exists|k: int|
            0 <= k < nested(tagged(folds, false)).len() && ({
                let other = #[trigger] nested(tagged(folds, false))[k];
                (other.start == fold.start && other.end == fold.end) || other.start < fold.start
                    < other.end < fold.end
            }),
{
    let all = tagged(folds, false);
    let sorted = sorted_by(all, outer_first());
    let once = distinct(sorted);
    assert(all[folds.index_of(fold)] == (fold, false));
    assert(all.contains((fold, false)));
    assert(total_preorder(outer_first()));
    lemma_sorted_by(all, outer_first());
    lemma_sorted_by_contains(all, outer_first(), (fold, false));
    let i = sorted.index_of((fold, false));
    lemma_distinct_covers(sorted, i);
    let j = choose|j: int| 0 <= j < once.len() && same_text((#[trigger] once[j]).0, sorted[i].0);
    lemma_distinct(sorted);
    assert forall|m: int| 0 <= m < once.len() implies !(#[trigger] once[m]).1 by {
        assert(sorted.contains(once[m]));
        lemma_sorted_by_contains(all, outer_first(), once[m]);
        assert(all[all.index_of(once[m])] == once[m]);
    }
    lemma_kept_or_crossed(once, j);
    let kept = uncrossed(once);
    let k = choose|k: int|
        0 <= k < kept.len() && (#[trigger] kept[k] == once[j] || (kept[k].0.start < once[j].0.start
            < kept[k].0.end < once[j].0.end));
    assert(nested(all)[k] == kept[k].0);
}

} // verus!
