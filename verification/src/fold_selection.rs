//! What closed folds do to a selection: they may not hide a part of it.

use crate::fold::{laminar, same_text, Fold};
use crate::fold_rows::{all_hide, count_ended, disjoint, fold_at, hidden, lemma_fold_lines};
use crate::folds::{all_hold_text, enclosed, encloses, law_outermost, outer, Folds};
use crate::selection::{lemma_normalized_single, range_between, Range, Selection};
use crate::seqs::{lemma_select, lemma_select_agree, lemma_select_twice, select};
use crate::text::{
    break_at, break_len, chars_of, lemma_line_end, line_of, line_start, next_boundary,
    next_grapheme_boundary, on_boundary,
};
use ropey::RopeSlice;
use vstd::prelude::*;

verus! {

/// Whether a range of `ranges` covers only a part of what the fold hides after its header, or has
/// its cursor there.
pub open spec fn partly_hides(fold: Fold, s: Seq<char>, ranges: Seq<Range>) -> bool {
    exists|i: int|
        0 <= i < ranges.len() && (fold.cut_by(s, #[trigger] ranges[i]) || fold.inner(
            s,
            ranges[i].cursor_in(s),
        ))
}

/// Whether `fold` has to be opened so that `closed` hides no part of `ranges`: it and all closed
/// folds around it partly hide them.
pub open spec fn in_the_way(
    closed: Seq<Fold>,
    s: Seq<char>,
    ranges: Seq<Range>,
    fold: Fold,
) -> bool {
    forall|j: int|
        0 <= j < closed.len() && encloses(#[trigger] closed[j], fold) ==> partly_hides(
            closed[j],
            s,
            ranges,
        )
}

/// The fold of `folds` that hides `pos` after its header.
pub open spec fn hiding(folds: Seq<Fold>, s: Seq<char>, pos: nat) -> Option<Fold> {
    if exists|i: int|
        0 <= i < folds.len() && (#[trigger] folds[i]).start <= pos && folds[i].inner(s, pos) {
        Some(
            folds[choose|i: int|
                0 <= i < folds.len() && (#[trigger] folds[i]).start <= pos && folds[i].inner(
                    s,
                    pos,
                )],
        )
    } else {
        None
    }
}

/// The range moved out of what the folds hide: its cursor goes to the fold cell, its anchor grows
/// the range over the whole fold.
pub open spec fn snapped(folds: Seq<Fold>, s: Seq<char>, range: Range) -> Range {
    if range.anchor == range.head {
        match hiding(folds, s, range.head as nat) {
            Some(fold) => range_between(fold.start as nat, fold.start as nat),
            None => range,
        }
    } else {
        let anchor = match hiding(folds, s, range.anchor as nat) {
            Some(fold) => if range.head < range.anchor {
                fold.end as nat
            } else {
                fold.start as nat
            },
            None => range.anchor as nat,
        };
        let range = range_between(anchor, range.head as nat);
        match hiding(folds, s, range.cursor_in(s)) {
            Some(fold) => range.extended_to(s, fold.start as nat),
            None => range,
        }
    }
}

/// The range, widened to the whole fold if it covers exactly a fold cell.
pub open spec fn widened(folds: Seq<Fold>, s: Seq<char>, range: Range) -> Range {
    if exists|i: int|
        0 <= i < folds.len() && (#[trigger] folds[i]).start == range.low() && range.high()
            == next_boundary(s, folds[i].start as nat) {
        let fold = folds[choose|i: int|
            0 <= i < folds.len() && (#[trigger] folds[i]).start == range.low() && range.high()
                == next_boundary(s, folds[i].start as nat)];
        if range.head < range.anchor {
            range_between(fold.end as nat, fold.start as nat)
        } else {
            range_between(fold.start as nat, fold.end as nat)
        }
    } else {
        range
    }
}

/// The interior of a fold that hides text starts right after the line break at its start.
proof fn lemma_inner_start(fold: Fold, s: Seq<char>)
    requires
        fold.hides(s),
    ensures
        fold.inner_start(s) == fold.start + break_len(s, fold.start as int),
        fold.start < fold.inner_start(s) < fold.end <= s.len(),
{
    lemma_fold_lines(fold, s);
    lemma_line_end(s, fold.header(s));
}

/// Folds that hide text are not empty.
proof fn lemma_hold_text(folds: Seq<Fold>, s: Seq<char>)
    requires
        all_hide(folds, s),
    ensures
        all_hold_text(folds),
{
    assert forall|i: int| 0 <= i < folds.len() implies (#[trigger] folds[i]).start
        < folds[i].end by {
        lemma_fold_lines(folds[i], s);
    }
}

/// The outermost ones of folds that hide text are disjoint and hide text.
pub proof fn lemma_top(folds: &Folds, s: Seq<char>)
    requires
        folds.valid(s),
    ensures
        disjoint(folds.top()),
        all_hide(folds.top(), s),
        all_hold_text(folds@),
{
    lemma_hold_text(folds@, s);
    law_outermost(folds@);
    assert forall|i: int| 0 <= i < folds.top().len() implies (#[trigger] folds.top()[i]).hides(s) by {
        assert(folds@.contains(folds.top()[i]));
        let k = choose|k: int| 0 <= k < folds@.len() && folds@[k] == folds.top()[i];
        assert(folds@[k].hides(s));
    }
}

/// The fold that hides a position is the only one that does.
proof fn lemma_hiding(folds: Seq<Fold>, s: Seq<char>, i: int, pos: nat)
    requires
        disjoint(folds),
        0 <= i < folds.len(),
        folds[i].start <= pos < folds[i].end,
    ensures
        hiding(folds, s, pos) == (if folds[i].inner(s, pos) {
            Some(folds[i])
        } else {
            None
        }),
{
    if exists|k: int|
        0 <= k < folds.len() && (#[trigger] folds[k]).start <= pos && folds[k].inner(s, pos) {
        let k = choose|k: int|
            0 <= k < folds.len() && (#[trigger] folds[k]).start <= pos && folds[k].inner(s, pos);
        if k < i {
            assert(folds[k].end <= folds[i].start);
        } else if i < k {
            assert(folds[i].end <= folds[k].start);
        }
    }
}

/// The start of a fold is hidden by no fold.
proof fn lemma_start_not_hidden(folds: Seq<Fold>, s: Seq<char>, i: int)
    requires
        disjoint(folds),
        all_hide(folds, s),
        0 <= i < folds.len(),
    ensures
        hiding(folds, s, folds[i].start as nat) is None,
{
    assert(folds[i].hides(s));
    lemma_inner_start(folds[i], s);
    lemma_hiding(folds, s, i, folds[i].start as nat);
}

/// Whether no fold of `folds` partly hides a range.
pub open spec fn none_hides(folds: Seq<Fold>, s: Seq<char>, ranges: Seq<Range>) -> bool {
    forall|i: int| 0 <= i < folds.len() ==> !partly_hides(#[trigger] folds[i], s, ranges)
}

/// Whether `pos` is not strictly inside what one of the folds hides after its header.
spec fn outside(folds: Seq<Fold>, s: Seq<char>, pos: nat) -> bool {
    forall|i: int|
        0 <= i < folds.len() ==> !((#[trigger] folds[i]).inner_start(s) < pos < folds[i].end)
}

/// The line feed of the header's line break is right before what the fold hides after it.
proof fn lemma_inner_end_of_header(fold: Fold, s: Seq<char>)
    requires
        fold.hides(s),
    ensures
        fold.start < fold.inner_start(s) < fold.end <= s.len(),
        s[fold.inner_start(s) - 1] == '\n',
        fold.start + 1 < fold.inner_start(s) ==> fold.inner_start(s) == fold.start + 2
            && s[fold.start + 1] == '\n',
{
    lemma_inner_start(fold, s);
}

/// The cursor that a fold hides of a forward range, whose anchor lies outside of what folds hide, is
/// not before the anchor, and neither is the fold, unless the anchor splits its line break.
proof fn lemma_snapped_anchor(
    top: Seq<Fold>,
    s: Seq<char>,
    given: Range,
    around: int,
    anchor: usize,
    cursor: usize,
    i: int,
)
    requires
        disjoint(top),
        all_hide(top, s),
        given.within(s),
        on_boundary(s, given.anchor as nat),
        0 <= i < top.len(),
        top[i].inner(s, cursor as nat),
        given.head > given.anchor ==> cursor < given.head <= next_boundary(s, cursor as nat)
            && forall|k: int| cursor <= k < given.head - 1 ==> s[k] != '\n',
        given.head < given.anchor ==> cursor == given.head && anchor >= given.anchor,
        given.head > given.anchor ==> if around < 0 {
            anchor == given.anchor
        } else {
            around < top.len() && top[around].inner(s, given.anchor as nat) && anchor
                == top[around].start
        },
        hiding(top, s, anchor as nat) is None || given.head < given.anchor,
    ensures
        given.head > given.anchor ==> anchor <= top[i].start || (anchor + 1 == top[i].inner_start(s)
            && anchor < s.len() && s[anchor as int] == '\n'),
{
    assert(top[i].hides(s));
    lemma_inner_end_of_header(top[i], s);
    if given.head > given.anchor {
        lemma_not_hidden(top, s, anchor as nat);
        assert(!top[i].inner(s, anchor as nat));
        if around < 0 {
            if cursor < given.anchor {
                assert(next_boundary(s, cursor as nat) <= given.anchor);
            }
        } else {
            assert(top[around].hides(s));
            lemma_inner_end_of_header(top[around], s);
            assert(cursor >= top[around].inner_start(s));
            if around < i {
                assert(top[around].end <= top[i].start);
            } else if i < around {
                assert(top[i].end <= top[around].start);
            }
        }
    }
}

/// A position that no fold hides lies inside none.
proof fn lemma_not_hidden(folds: Seq<Fold>, s: Seq<char>, pos: nat)
    requires
        all_hide(folds, s),
        hiding(folds, s, pos) is None,
    ensures
        outside(folds, s, pos),
        forall|i: int| 0 <= i < folds.len() ==> !(#[trigger] folds[i]).inner(s, pos),
{
    assert forall|i: int| 0 <= i < folds.len() implies !(#[trigger] folds[i]).inner(s, pos) by {
        assert(folds[i].hides(s));
        lemma_inner_start(folds[i], s);
    }
    assert forall|i: int| 0 <= i < folds.len() implies !((#[trigger] folds[i]).inner_start(s) < pos
        < folds[i].end) by {
        assert(!folds[i].inner(s, pos));
    }
}

/// The ends of what a fold hides lie inside no fold.
proof fn lemma_ends_outside(folds: Seq<Fold>, s: Seq<char>, i: int)
    requires
        disjoint(folds),
        all_hide(folds, s),
        0 <= i < folds.len(),
    ensures
        outside(folds, s, folds[i].inner_start(s)),
        outside(folds, s, folds[i].end as nat),
{
    assert(folds[i].hides(s));
    lemma_inner_start(folds[i], s);
    assert forall|k: int| 0 <= k < folds.len() implies !((#[trigger] folds[k]).inner_start(s)
        < folds[i].inner_start(s) < folds[k].end) && !(folds[k].inner_start(s) < folds[i].end
        < folds[k].end) by {
        assert(folds[k].hides(s));
        lemma_inner_start(folds[k], s);
        if k < i {
            assert(folds[k].end <= folds[i].start);
        } else if i < k {
            assert(folds[i].end <= folds[k].start);
        }
    }
}

/// A range with both sides and its cursor outside of what the folds hide is not partly hidden.
proof fn lemma_none_hides(folds: Seq<Fold>, s: Seq<char>, range: Range)
    requires
        all_hide(folds, s),
        outside(folds, s, range.anchor as nat),
        outside(folds, s, range.head as nat),
        hiding(folds, s, range.cursor_in(s)) is None,
    ensures
        none_hides(folds, s, seq![range]),
{
    lemma_not_hidden(folds, s, range.cursor_in(s));
    assert forall|i: int| 0 <= i < folds.len() implies !partly_hides(
        #[trigger] folds[i],
        s,
        seq![range],
    ) by {
        assert(!folds[i].inner(s, range.cursor_in(s)));
        assert(folds[i].hides(s));
        lemma_inner_start(folds[i], s);
    }
}

/// Where no outermost fold partly hides a range, revealing the ranges opens nothing.
pub proof fn law_nothing_hidden_is_revealed(closed: Seq<Fold>, s: Seq<char>, ranges: Seq<Range>)
    requires
        laminar(closed),
        all_hide(closed, s),
        none_hides(outer(closed), s, ranges),
    ensures
        select(closed, |fold: Fold| !in_the_way(closed, s, ranges, fold)) == closed,
{
    let stays = |fold: Fold| !in_the_way(closed, s, ranges, fold);
    lemma_hold_text(closed, s);
    law_outermost(closed);
    assert forall|i: int| 0 <= i < closed.len() implies stays(#[trigger] closed[i]) by {
        assert(enclosed(outer(closed), closed[i]));
        let m = choose|m: int|
            0 <= m < outer(closed).len() && encloses(#[trigger] outer(closed)[m], closed[i]);
        assert(closed.contains(outer(closed)[m]));
        let k = choose|k: int| 0 <= k < closed.len() && closed[k] == outer(closed)[m];
        assert(encloses(closed[k], closed[i]));
        assert(!partly_hides(closed[k], s, ranges));
    }
    lemma_select(closed, stays);
}

/// Revealing a selection leaves nothing of it partly hidden: no fold that stays closed and is not
/// inside another such fold partly hides a range.
pub proof fn law_reveal_leaves_nothing_hidden(closed: Seq<Fold>, s: Seq<char>, ranges: Seq<Range>)
    requires
        laminar(closed),
        all_hide(closed, s),
    ensures
        ({
            let left = select(closed, |fold: Fold| !in_the_way(closed, s, ranges, fold));
            forall|i: int|
                0 <= i < outer(left).len() ==> !partly_hides(#[trigger] outer(left)[i], s, ranges)
        }),
{
    let stays = |fold: Fold| !in_the_way(closed, s, ranges, fold);
    let left = select(closed, stays);
    lemma_select(closed, stays);
    crate::folds::lemma_laminar_select(closed, stays);
    assert forall|i: int| 0 <= i < left.len() implies (#[trigger] left[i]).hides(s) by {
        assert(closed.contains(left[i]));
        let k = choose|k: int| 0 <= k < closed.len() && closed[k] == left[i];
        assert(closed[k].hides(s));
    }
    lemma_hold_text(left, s);
    law_outermost(left);
    assert forall|i: int| 0 <= i < outer(left).len() implies !partly_hides(
        #[trigger] outer(left)[i],
        s,
        ranges,
    ) by {
        let fold = outer(left)[i];
        assert(left.contains(fold));
        let k = choose|k: int| 0 <= k < left.len() && left[k] == fold;
        assert(stays(left[k]));
        // some closed fold around it does not partly hide a range; that one stays closed as well
        let j = choose|j: int|
            0 <= j < closed.len() && encloses(#[trigger] closed[j], fold) && !partly_hides(
                closed[j],
                s,
                ranges,
            );
        let around = closed[j];
        assert(encloses(around, around));
        assert(!in_the_way(closed, s, ranges, around));
        assert(closed.contains(around));
        assert(left.contains(around));
        let m = choose|m: int| 0 <= m < left.len() && left[m] == around;
        assert(encloses(left[m], outer(left)[i]));
        assert(left[m] == outer(left)[i]);
    }
}

impl Folds {
    /// The outermost fold whose cell or hidden text covers `char_idx`.
    pub fn fold_at(&self, char_idx: usize) -> (found: Option<&Fold>)
        requires
            self.wf(),
            all_hold_text(self@),
        ensures
            match found {
                Some(fold) => self.top().contains(*fold) && fold.start <= char_idx < fold.end,
                None => !hidden(self.top(), char_idx as int),
            },
    {
        proof {
            law_outermost(self@);
        }
        fold_at(self.outermost(), char_idx)
    }

    /// The outermost folds that `selection` would partly hide behind.
    fn offending(&self, text: RopeSlice, selection: &Selection) -> (open: Vec<Fold>)
        requires
            self.valid(chars_of(text)),
            selection.within(chars_of(text)),
            chars_of(text).len() < usize::MAX,
        ensures
            forall|i: int|
                0 <= i < open@.len() ==> self.top().contains(#[trigger] open@[i]) && partly_hides(
                    open@[i],
                    chars_of(text),
                    selection@,
                ),
            forall|i: int|
                0 <= i < self.top().len() && partly_hides(
                    #[trigger] self.top()[i],
                    chars_of(text),
                    selection@,
                ) ==> open@.contains(self.top()[i]),
    {
        let ghost s = chars_of(text);
        let ghost top = self.top();
        proof {
            lemma_top(self, s);
        }
        let outermost: &[Fold] = self.outermost();
        let ranges: &Vec<Range> = selection.ranges();
        let mut open: Vec<Fold> = Vec::new();
        let mut r: usize = 0;
        while r < ranges.len()
            invariant
                s == chars_of(text),
                s.len() < usize::MAX,
                top == outermost@,
                ranges@ == selection@,
                selection.within(s),
                disjoint(top),
                all_hide(top, s),
                r <= ranges@.len(),
                forall|i: int|
                    0 <= i < open@.len() ==> top.contains(#[trigger] open@[i]) && partly_hides(
                        open@[i],
                        s,
                        ranges@,
                    ),
                forall|i: int|
                    0 <= i < top.len() && partly_hides(
                        #[trigger] top[i],
                        s,
                        ranges@.take(r as int),
                    ) ==> open@.contains(top[i]),
            decreases ranges.len() - r,
        {
            let range: Range = ranges[r];
            assert(selection@[r as int].within(s));
            let cursor: usize = range.cursor(text);
            let from: usize = if cursor < range.from() {
                cursor
            } else {
                range.from()
            };
            let to: usize = if cursor + 1 > range.to() {
                cursor + 1
            } else {
                range.to()
            };
            let first: usize = count_ended(outermost, from);
            let ghost found = open@;
            let mut i: usize = first;
            while i < outermost.len() && outermost[i].start < to
                invariant
                    s == chars_of(text),
                    top == outermost@,
                    disjoint(top),
                    all_hide(top, s),
                    first <= i <= top.len(),
                    r < ranges@.len(),
                    range == ranges@[r as int],
                    range.within(s),
                    cursor as nat == range.cursor_in(s),
                    forall|k: int| first <= k < i ==> (#[trigger] top[k]).start < to,
                    found.len() <= open@.len(),
                    forall|k: int| 0 <= k < found.len() ==> found[k] == open@[k],
                    forall|k: int|
                        0 <= k < open@.len() ==> top.contains(#[trigger] open@[k]) && partly_hides(
                            open@[k],
                            s,
                            ranges@,
                        ),
                    forall|k: int|
                        first <= k < i && ((#[trigger] top[k]).cut_by(s, range) || top[k].inner(
                            s,
                            cursor as nat,
                        )) ==> open@.contains(top[k]),
                decreases outermost.len() - i,
            {
                let fold: Fold = outermost[i];
                let ghost before = open@;
                proof {
                    assert(top[i as int].hides(s));
                    lemma_inner_start(fold, s);
                }
                let interior = fold.interior(text);
                if fold.cuts(text, &range) || (interior.start <= cursor && cursor < interior.end) {
                    assert(fold.cut_by(s, ranges@[r as int]) || fold.inner(
                        s,
                        ranges@[r as int].cursor_in(s),
                    ));
                    assert(partly_hides(fold, s, ranges@));
                    open.push(fold);
                    assert(open@[before.len() as int] == fold);
                }
                proof {
                    assert forall|k: int|
                        first <= k < i + 1 && ((#[trigger] top[k]).cut_by(s, range) || top[k].inner(
                            s,
                            cursor as nat,
                        )) implies open@.contains(top[k]) by {
                        if k < i {
                            let m = choose|m: int| 0 <= m < before.len() && before[m] == top[k];
                            assert(open@[m] == top[k]);
                        }
                    }
                }
                i += 1;
            }
            proof {
                assert forall|k: int|
                    0 <= k < top.len() && partly_hides(
                        #[trigger] top[k],
                        s,
                        ranges@.take(r + 1),
                    ) implies open@.contains(top[k]) by {
                    let fold = top[k];
                    assert(fold.hides(s));
                    lemma_inner_start(fold, s);
                    let seen = ranges@.take(r + 1);
                    let q = choose|q: int|
                        0 <= q < seen.len() && (fold.cut_by(s, #[trigger] seen[q]) || fold.inner(
                            s,
                            seen[q].cursor_in(s),
                        ));
                    if q < r {
                        assert(ranges@.take(r as int)[q] == seen[q]);
                        assert(partly_hides(top[k], s, ranges@.take(r as int)));
                        assert(found.contains(top[k]));
                        let m = choose|m: int| 0 <= m < found.len() && found[m] == top[k];
                        assert(open@[m] == top[k]);
                    } else {
                        assert(seen[q] == range);
                        assert(fold.end > from);
                        assert(fold.start < to);
                        assert(k >= first);
                        assert(k < i) by {
                            if k >= i {
                                if k > i {
                                    assert(top[i as int].end <= top[k].start);
                                    assert(top[i as int].start < top[i as int].end);
                                }
                            }
                        }
                    }
                }
            }
            r += 1;
        }
        assert(ranges@.take(r as int) =~= ranges@);
        open
    }

    /// Opens the folds that `selection` would otherwise partly hide: a range may not cover only a
    /// part of a fold's interior, and its cursor may not lie inside an interior. Returns whether
    /// any fold was opened.
    pub fn reveal_selection(&mut self, text: RopeSlice, selection: &Selection) -> (revealed: bool)
        requires
            old(self).valid(chars_of(text)),
            selection.within(chars_of(text)),
            chars_of(text).len() < usize::MAX,
        ensures
            final(self).valid(chars_of(text)),
            final(self)@ == select(
                old(self)@,
                |fold: Fold| !in_the_way(old(self)@, chars_of(text), selection@, fold),
            ),
            revealed == (final(self)@.len() < old(self)@.len()),
            !revealed ==> *final(self) == *old(self),
            revealed ==> final(self).number() != old(self).number(),
    {
        let ghost s = chars_of(text);
        let ghost closed = self@;
        let count: usize = self.closed().len();
        let ghost mut rounds: nat = 0;
        let ghost mut gone: Set<Fold> = Set::empty();
        let mut revealed: bool = false;
        proof {
            lemma_select(closed, |fold: Fold| !gone.contains(fold));
        }
        loop
            invariant
                s == chars_of(text),
                closed == old(self)@,
                old(self).valid(s),
                self.valid(s),
                selection.within(s),
                s.len() < usize::MAX,
                self@ == select(closed, |fold: Fold| !gone.contains(fold)),
                forall|fold: Fold| #[trigger]
                    gone.contains(fold) ==> in_the_way(closed, s, selection@, fold),
                !revealed ==> *self == *old(self),
                revealed ==> self@.len() < closed.len(),
                closed.len() == count,
                rounds + self@.len() <= count,
                revealed ==> rounds > 0,
                // every round adds one to the revision
                self.number() == if old(self).number() + rounds <= usize::MAX {
                    old(self).number() + rounds
                } else {
                    old(self).number() + rounds - usize::MAX - 1
                },
            decreases self@.len(),
        {
            let open: Vec<Fold> = self.offending(text, selection);
            let ghost stays = |fold: Fold| !gone.contains(fold);
            let ghost current = self@;
            proof {
                lemma_top(self, s);
                law_outermost(current);
                lemma_select(closed, stays);
            }
            if open.len() == 0 {
                proof {
                    assert forall|i: int| 0 <= i < closed.len() implies stays(#[trigger] closed[i])
                        == !in_the_way(closed, s, selection@, closed[i]) by {
                        if stays(closed[i]) {
                            assert(closed.contains(closed[i]));
                            assert(current.contains(closed[i]));
                            let k = choose|k: int| 0 <= k < current.len() && current[k] == closed[i];
                            assert(enclosed(outer(current), current[k]));
                            let m = choose|m: int|
                                0 <= m < outer(current).len() && encloses(
                                    #[trigger] outer(current)[m],
                                    current[k],
                                );
                            let around = outer(current)[m];
                            assert(current.contains(around));
                            let n = choose|n: int| 0 <= n < current.len() && current[n] == around;
                            assert(closed.contains(current[n]));
                            let j = choose|j: int| 0 <= j < closed.len() && closed[j] == around;
                            assert(encloses(closed[j], closed[i]));
                            assert(!partly_hides(self.top()[m], s, selection@));
                        }
                    }
                    lemma_select_agree(
                        closed,
                        stays,
                        |fold: Fold| !in_the_way(closed, s, selection@, fold),
                    );
                    if !revealed {
                        assert(self@ == closed);
                    }
                }
                return revealed;
            }
            self.open(open.as_slice());
            proof {
                let opened = Set::new(
                    |fold: Fold| exists|i: int| 0 <= i < open@.len() && open@[i] == fold,
                );
                let unopened = |fold: Fold|
                    !exists|i: int| 0 <= i < open@.len() && same_text(#[trigger] open@[i], fold);
                let next = gone.union(opened);
                let stays_now = |fold: Fold| !next.contains(fold);
                // the opened folds are closed ones, of which no two hide the same text
                assert forall|i: int, k: int|
                    #![trigger open@[i], current[k]]
                    0 <= i < open@.len() && 0 <= k < current.len() && same_text(
                        open@[i],
                        current[k],
                    ) implies open@[i] == current[k] by {
                    assert(self.wf());
                    assert(outer(current).contains(open@[i]));
                    let m = choose|m: int| 0 <= m < outer(current).len() && outer(current)[m] == open@[i];
                    assert(encloses(current[k], outer(current)[m]));
                }
                assert forall|i: int| 0 <= i < closed.len() implies (#[trigger] stays(closed[i])
                    && unopened(closed[i])) == stays_now(closed[i]) by {
                    if stays(closed[i]) {
                        assert(closed.contains(closed[i]));
                        assert(current.contains(closed[i]));
                        let k = choose|k: int| 0 <= k < current.len() && current[k] == closed[i];
                        if !unopened(closed[i]) {
                            let m = choose|m: int|
                                0 <= m < open@.len() && same_text(#[trigger] open@[m], closed[i]);
                            assert(open@[m] == current[k]);
                            assert(opened.contains(closed[i]));
                        } else {
                            assert(!opened.contains(closed[i]));
                        }
                    }
                }
                lemma_select_twice(closed, stays, unopened);
                lemma_select_agree(closed, |fold: Fold| stays(fold) && unopened(fold), stays_now);
                assert(self@ == select(closed, stays_now));
                assert forall|fold: Fold| #[trigger] next.contains(fold) implies in_the_way(
                    closed,
                    s,
                    selection@,
                    fold,
                ) by {
                    if !gone.contains(fold) {
                        let i = choose|i: int| 0 <= i < open@.len() && open@[i] == fold;
                        assert(outer(current).contains(open@[i]));
                        let m = choose|m: int|
                            0 <= m < outer(current).len() && outer(current)[m] == fold;
                        assert forall|j: int|
                            0 <= j < closed.len() && encloses(
                                #[trigger] closed[j],
                                fold,
                            ) implies partly_hides(closed[j], s, selection@) by {
                            if gone.contains(closed[j]) {
                                assert(encloses(closed[j], closed[j]));
                            } else {
                                assert(closed.contains(closed[j]));
                                assert(current.contains(closed[j]));
                                let k = choose|k: int|
                                    0 <= k < current.len() && current[k] == closed[j];
                                assert(encloses(current[k], outer(current)[m]));
                            }
                        }
                    }
                }
                // at least one fold was opened
                lemma_select(current, unopened);
                assert(outer(current).contains(open@[0]));
                let m = choose|m: int| 0 <= m < outer(current).len() && outer(current)[m] == open@[0];
                assert(current.contains(outer(current)[m]));
                let k = choose|k: int| 0 <= k < current.len() && current[k] == open@[0];
                assert(same_text(open@[0], current[k]));
                assert(!unopened(current[k]));
                lemma_select(closed, stays_now);
                assert forall|i: int| 0 <= i < self@.len() implies (#[trigger] self@[i]).hides(s) by {
                    assert(closed.contains(self@[i]));
                    let k = choose|k: int| 0 <= k < closed.len() && closed[k] == self@[i];
                    assert(closed[k].hides(s));
                }
                gone = next;
                rounds = rounds + 1;
            }
            revealed = true;
        }
    }

    /// The outermost fold that hides `pos` after its header.
    fn find_hiding(&self, text: RopeSlice, pos: usize) -> (found: Option<Fold>)
        requires
            self.valid(chars_of(text)),
        ensures
            found == hiding(self.top(), chars_of(text), pos as nat),
            found matches Some(fold) ==> self.top().contains(fold),
    {
        let ghost s = chars_of(text);
        let ghost top = self.top();
        proof {
            lemma_top(self, s);
        }
        match self.fold_at(pos) {
            Some(fold) => {
                let ghost i = choose|i: int| 0 <= i < top.len() && top[i] == *fold;
                proof {
                    assert(top[i].hides(s));
                    lemma_inner_start(*fold, s);
                    lemma_hiding(top, s, i, pos as nat);
                }
                let interior = fold.interior(text);
                if interior.start <= pos && pos < interior.end {
                    Some(*fold)
                } else {
                    None
                }
            },
            None => {
                proof {
                    assert forall|i: int| 0 <= i < top.len() implies !((#[trigger] top[i]).start
                        <= pos && top[i].inner(s, pos as nat)) by {
                        if top[i].start <= pos && top[i].inner(s, pos as nat) {
                            assert(hidden(top, pos as int));
                        }
                    }
                }
                None
            },
        }
    }

    /// Moves the parts of `range` that lie inside a fold's interior out of it: the cursor goes to
    /// the fold cell and the anchor grows the range over the whole fold.
    pub fn snap_range(&self, text: RopeSlice, range: Range) -> (snap: Range)
        requires
            self.valid(chars_of(text)),
            range.within(chars_of(text)),
        ensures
            snap == snapped(self.top(), chars_of(text), range),
            snap.within(chars_of(text)),
            hiding(self.top(), chars_of(text), snap.cursor_in(chars_of(text))) is None,
            on_boundary(chars_of(text), range.anchor as nat) ==> none_hides(
                self.top(),
                chars_of(text),
                seq![snap],
            ),
    {
        let ghost s = chars_of(text);
        let ghost top = self.top();
        proof {
            lemma_top(self, s);
        }
        if range.is_empty() {
            return match self.find_hiding(text, range.head) {
                Some(fold) => {
                    proof {
                        let i = choose|i: int| 0 <= i < top.len() && top[i] == fold;
                        assert(top[i].hides(s));
                        lemma_inner_start(fold, s);
                        lemma_start_not_hidden(top, s, i);
                        lemma_not_hidden(top, s, fold.start as nat);
                        lemma_none_hides(top, s, range_between(fold.start as nat, fold.start as nat));
                    }
                    Range::point(fold.start)
                },
                None => {
                    proof {
                        lemma_not_hidden(top, s, range.head as nat);
                        lemma_none_hides(top, s, range);
                    }
                    range
                },
            };
        }
        let mut anchor: usize = range.anchor;
        let ghost mut around: int = -1;
        if let Some(fold) = self.find_hiding(text, anchor) {
            proof {
                let i = choose|i: int| 0 <= i < top.len() && top[i] == fold;
                assert(top[i].hides(s));
                lemma_inner_start(fold, s);
                lemma_start_not_hidden(top, s, i);
                lemma_not_hidden(top, s, fold.start as nat);
                lemma_ends_outside(top, s, i);
                around = i;
            }
            anchor = if range.head < range.anchor {
                fold.end
            } else {
                fold.start
            };
        } else {
            proof {
                lemma_not_hidden(top, s, anchor as nat);
            }
        }
        assert(outside(top, s, anchor as nat));
        let ghost given = range;
        let range = Range::new(anchor, range.head);
        let cursor: usize = range.cursor(text);
        match self.find_hiding(text, cursor) {
            Some(fold) => {
                let snap: Range = range.put_cursor(text, fold.start, true);
                proof {
                    let i = choose|i: int| 0 <= i < top.len() && top[i] == fold;
                    assert(top[i].hides(s));
                    lemma_inner_start(fold, s);
                    lemma_start_not_hidden(top, s, i);
                    assert(break_at(s, fold.start as int));
                    lemma_not_hidden(top, s, fold.start as nat);
                    lemma_ends_outside(top, s, i);
                    if on_boundary(s, given.anchor as nat) {
                        lemma_snapped_anchor(top, s, given, around, anchor, cursor, i);
                        lemma_none_hides(top, s, snap);
                    }
                }
                snap
            },
            None => {
                proof {
                    lemma_not_hidden(top, s, cursor as nat);
                    assert(outside(top, s, range.head as nat)) by {
                        assert forall|i: int| 0 <= i < top.len() implies !(
                        (#[trigger] top[i]).inner_start(s) < range.head < top[i].end) by {
                            assert(top[i].hides(s));
                            assert(!top[i].inner(s, cursor as nat));
                            lemma_inner_end_of_header(top[i], s);
                        }
                    }
                    lemma_none_hides(top, s, range);
                }
                range
            },
        }
    }

    /// Moves the parts of `selection` that lie inside a fold's interior out of it: cursors go to
    /// the fold cell and anchors grow the range over the whole fold.
    pub fn snap(&self, text: RopeSlice, selection: Selection) -> (snap: Selection)
        requires
            self.valid(chars_of(text)),
            selection.wf(),
            selection.within(chars_of(text)),
        ensures
            snap.selects(
                selection@.map_values(|range: Range| snapped(self.top(), chars_of(text), range)),
                snapped(self.top(), chars_of(text), selection@[selection.primary_at()]),
            ),
            // a snapped range has nothing to reveal
            selection@.len() == 1 && on_boundary(chars_of(text), selection@[0].anchor as nat)
                ==> none_hides(self.top(), chars_of(text), snap@),
    {
        let ghost s = chars_of(text);
        let ghost move_out = |range: Range| snapped(self.top(), s, range);
        let given: &Vec<Range> = selection.ranges();
        let mut ranges: Vec<Range> = Vec::new();
        let mut i: usize = 0;
        while i < given.len()
            invariant
                i <= given@.len(),
                s == chars_of(text),
                self.valid(s),
                given@ == selection@,
                selection.within(s),
                move_out == (|range: Range| snapped(self.top(), s, range)),
                i == 1 && on_boundary(s, given@[0].anchor as nat) ==> none_hides(
                    self.top(),
                    s,
                    seq![ranges@[0]],
                ),
                ranges@ == given@.take(i as int).map_values(move_out),
            decreases given.len() - i,
        {
            assert(selection@[i as int].within(s));
            ranges.push(self.snap_range(text, given[i]));
            i += 1;
            assert(ranges@ =~= given@.take(i as int).map_values(move_out));
        }
        assert(given@.take(i as int) =~= given@);
        proof {
            if given@.len() == 1 {
                assert(ranges@ =~= seq![ranges@[0]]);
                lemma_normalized_single(ranges@[0]);
            }
        }
        Selection::new(ranges, selection.primary_index())
    }

    /// Widens a range that covers exactly a fold cell to the text hidden behind it.
    pub fn widen_range(&self, text: RopeSlice, range: Range) -> (wide: Range)
        requires
            self.valid(chars_of(text)),
        ensures
            wide == widened(self.top(), chars_of(text), range),
    {
        let ghost s = chars_of(text);
        let ghost top = self.top();
        proof {
            lemma_top(self, s);
        }
        match self.fold_at(range.from()) {
            Some(fold) => {
                let ghost i = choose|i: int| 0 <= i < top.len() && top[i] == *fold;
                proof {
                    assert forall|k: int|
                        0 <= k < top.len() && (#[trigger] top[k]).start == range.low() implies k
                        == i by {
                        assert(top[k].start < top[k].end);
                        if k < i {
                            assert(top[k].end <= top[i].start);
                        } else if i < k {
                            assert(top[i].end <= top[k].start);
                        }
                    }
                    assert(top[i].start < top[i].end);
                }
                if range.from() == fold.start && range.to() == next_grapheme_boundary(
                    text,
                    fold.start,
                ) {
                    assert(top[i].start == range.low());
                    Range::new(fold.start, fold.end).with_direction(range.direction())
                } else {
                    range
                }
            },
            None => {
                proof {
                    assert forall|k: int| 0 <= k < top.len() implies (#[trigger] top[k]).start
                        != range.low() by {
                        assert(top[k].start < top[k].end);
                        if top[k].start == range.low() {
                            assert(hidden(top, range.low() as int));
                        }
                    }
                }
                range
            },
        }
    }

    /// Widens every range that covers exactly a fold cell to the text hidden behind it.
    pub fn widen_cells(&self, text: RopeSlice, selection: Selection) -> (wide: Selection)
        requires
            self.valid(chars_of(text)),
            selection.wf(),
        ensures
            wide.selects(
                selection@.map_values(|range: Range| widened(self.top(), chars_of(text), range)),
                widened(self.top(), chars_of(text), selection@[selection.primary_at()]),
            ),
    {
        let ghost s = chars_of(text);
        let ghost widen = |range: Range| widened(self.top(), s, range);
        let given: &Vec<Range> = selection.ranges();
        let mut ranges: Vec<Range> = Vec::new();
        let mut i: usize = 0;
        while i < given.len()
            invariant
                i <= given@.len(),
                s == chars_of(text),
                self.valid(s),
                given@ == selection@,
                widen == (|range: Range| widened(self.top(), s, range)),
                ranges@ == given@.take(i as int).map_values(widen),
            decreases given.len() - i,
        {
            ranges.push(self.widen_range(text, given[i]));
            i += 1;
            assert(ranges@ =~= given@.take(i as int).map_values(widen));
        }
        assert(given@.take(i as int) =~= given@);
        Selection::new(ranges, selection.primary_index())
    }
}

/// A position is hidden exactly if it is after the header of one of the folds and before its end.
pub proof fn law_hidden_positions_are_inside(folds: Seq<Fold>, s: Seq<char>, pos: nat)
    requires
        all_hide(folds, s),
    ensures
        match hiding(folds, s, pos) {
            Some(fold) => folds.contains(fold) && line_start(
                s,
                line_of(s, fold.start as int) + 1,
            ) <= pos < fold.end,
            None => forall|i: int|
                0 <= i < folds.len() ==> !(line_start(
                    s,
                    line_of(s, (#[trigger] folds[i]).start as int) + 1,
                ) <= pos < folds[i].end),
        },
{
    assert forall|i: int| 0 <= i < folds.len() implies (#[trigger] folds[i]).start
        < folds[i].inner_start(s) by {
        lemma_inner_start(folds[i], s);
    }
}

/// A cursor that is hidden goes to the cell of its fold. A range grows over the fold that its anchor
/// is hidden in: back to the start of it if it is forward, and up to its end if it is backward. What
/// is not hidden stays where it is.
pub proof fn law_hidden_ranges_go_to_the_fold(folds: Seq<Fold>, s: Seq<char>, range: Range)
    ensures
        range.anchor == range.head && hiding(folds, s, range.head as nat) is None ==> snapped(
            folds,
            s,
            range,
        ) == range,
        range.anchor == range.head ==> (hiding(folds, s, range.head as nat) matches Some(fold)
            ==> snapped(folds, s, range).anchor == fold.start && snapped(folds, s, range).head
            == fold.start),
        range.anchor < range.head ==> (hiding(folds, s, range.anchor as nat) matches Some(fold) ==> ({
            let grown = range_between(fold.start as nat, range.head as nat);
            hiding(folds, s, grown.cursor_in(s)) is None ==> snapped(folds, s, range) == grown
        })),
        range.head < range.anchor ==> (hiding(folds, s, range.anchor as nat) matches Some(fold) ==> ({
            let grown = range_between(fold.end as nat, range.head as nat);
            hiding(folds, s, grown.cursor_in(s)) is None ==> snapped(folds, s, range) == grown
        })),
        range.anchor != range.head && hiding(folds, s, range.anchor as nat) is None && hiding(
            folds,
            s,
            range_between(range.anchor as nat, range.head as nat).cursor_in(s),
        ) is None ==> snapped(folds, s, range).anchor == range.anchor && snapped(
            folds,
            s,
            range,
        ).head == range.head,
        range.anchor != range.head && hiding(folds, s, range.anchor as nat) is None ==> (hiding(
            folds,
            s,
            range_between(range.anchor as nat, range.head as nat).cursor_in(s),
        ) matches Some(fold) ==> snapped(folds, s, range) == range_between(
            range.anchor as nat,
            range.head as nat,
        ).extended_to(s, fold.start as nat)),
{
}

/// A range over just the cell of a fold stands for all of the fold, in its own direction, and any
/// other range for itself.
pub proof fn law_cells_stand_for_their_folds(folds: Seq<Fold>, s: Seq<char>, range: Range, i: int)
    requires
        disjoint(folds),
    ensures
        0 <= i < folds.len() && folds[i].start == range.low() && next_boundary(
            s,
            folds[i].start as nat,
        ) == range.high() ==> widened(folds, s, range).low() == folds[i].start && widened(
            folds,
            s,
            range,
        ).high() == folds[i].end && (widened(folds, s, range).head < widened(
            folds,
            s,
            range,
        ).anchor <==> range.head < range.anchor),
        (forall|k: int|
            0 <= k < folds.len() ==> (#[trigger] folds[k]).start != range.low()) ==> widened(
            folds,
            s,
            range,
        ) == range,
{
    if 0 <= i < folds.len() && folds[i].start == range.low() && next_boundary(
        s,
        folds[i].start as nat,
    ) == range.high() {
        let k = choose|k: int|
            0 <= k < folds.len() && (#[trigger] folds[k]).start == range.low() && range.high()
                == next_boundary(s, folds[k].start as nat);
        if k < i {
            assert(folds[k].end <= folds[i].start);
        } else if i < k {
            assert(folds[i].end <= folds[k].start);
        }
    }
}

/// A closed fold that hides no part of a selection stays closed when the selection is revealed, and so
/// do the folds inside it.
pub proof fn law_folds_that_hide_nothing_stay_closed(
    closed: Seq<Fold>,
    s: Seq<char>,
    ranges: Seq<Range>,
    around: Fold,
    fold: Fold,
)
    requires
        closed.contains(around),
        closed.contains(fold),
        around.start <= fold.start && fold.end <= around.end,
        forall|i: int|
            0 <= i < ranges.len() ==> !around.cut_by(s, #[trigger] ranges[i]) && !around.inner(
                s,
                ranges[i].cursor_in(s),
            ),
    ensures
        select(closed, |fold: Fold| !in_the_way(closed, s, ranges, fold)).contains(fold),
{
    let pick = |fold: Fold| !in_the_way(closed, s, ranges, fold);
    let k = closed.index_of(around);
    assert(encloses(closed[k], fold));
    assert(!partly_hides(around, s, ranges));
    assert(pick(fold));
    crate::seqs::lemma_select(closed, pick);
}

} // verus!
