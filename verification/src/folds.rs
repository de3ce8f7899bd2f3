//! The folds of a document in one view.

use crate::changes::{
    applied, lemma_applied_len, lemma_moved_bound, lemma_untouched, lemma_untouched_gap,
    lemma_untouched_order, moved, new_len, old_len, touches, Assoc, ChangeSet, Operation,
};
use crate::fold::{
    crosses, displaces, folds_of, laminar, law_closing_opens_what_it_crosses, law_nested_folds,
    law_revalidated_folds_are_valid, lemma_laminar_prefix, lemma_same_laminar, nest, nested,
    same_text, tagged, Fold,
};
use crate::fold_rows::{all_hide, disjoint, lemma_fold_lines};
use crate::seqs::{lemma_select, select};
use crate::text::{break_at, chars_of, lemma_break_at, lemma_line_end};
use ropey::RopeSlice;
use vstd::prelude::*;

verus! {

/// The folds of `closed` that are not inside an earlier one.
pub open spec fn outer(closed: Seq<Fold>) -> Seq<Fold>
    decreases closed.len(),
{
    if closed.len() == 0 {
        closed
    } else {
        let rest = outer(closed.drop_last());
        if rest.len() == 0 || rest.last().end <= closed.last().start {
            rest.push(closed.last())
        } else {
            rest
        }
    }
}

/// Whether `inside` lies in the text that `fold` hides.
pub open spec fn encloses(fold: Fold, inside: Fold) -> bool {
    fold.start <= inside.start && inside.end <= fold.end
}

/// Whether one of the folds encloses `inside`.
pub open spec fn enclosed(folds: Seq<Fold>, inside: Fold) -> bool {
    exists|i: int| 0 <= i < folds.len() && encloses(#[trigger] folds[i], inside)
}

/// Whether no fold is empty.
pub open spec fn all_hold_text(folds: Seq<Fold>) -> bool {
    forall|i: int| 0 <= i < folds.len() ==> (#[trigger] folds[i]).start < folds[i].end
}

/// A fold after disjoint ones is disjoint from them.
proof fn lemma_disjoint_push(folds: Seq<Fold>, fold: Fold)
    requires
        disjoint(folds),
        fold.start < fold.end,
        folds.len() > 0 ==> folds.last().end <= fold.start,
    ensures
        disjoint(folds.push(fold)),
{
    let all = folds.push(fold);
    assert forall|i: int| 0 <= i < all.len() implies (#[trigger] all[i]).start < all[i].end by {
        if i < folds.len() {
            assert(all[i] == folds[i]);
        }
    }
    assert forall|i: int, j: int|
        #![trigger all[i], all[j]]
        0 <= i < j < all.len() implies all[i].end <= all[j].start by {
        if j == folds.len() {
            if i < folds.len() - 1 {
                assert(folds[i].end <= folds[folds.len() - 1].start);
                assert(folds[folds.len() - 1].start < folds[folds.len() - 1].end);
            }
        } else {
            assert(folds[i].end <= folds[j].start);
        }
    }
}

/// What is enclosed by one of the folds is so too if there is one more.
proof fn lemma_enclosed_push(folds: Seq<Fold>, fold: Fold, inside: Fold)
    requires
        enclosed(folds, inside) || encloses(fold, inside),
    ensures
        enclosed(folds.push(fold), inside),
{
    let all = folds.push(fold);
    if enclosed(folds, inside) {
        let i = choose|i: int| 0 <= i < folds.len() && encloses(#[trigger] folds[i], inside);
        assert(encloses(all[i], inside));
    } else {
        assert(encloses(all[folds.len() as int], inside));
    }
}

proof fn lemma_outer_contained(closed: Seq<Fold>)
    ensures
        forall|i: int| 0 <= i < outer(closed).len() ==> closed.contains(#[trigger] outer(closed)[i]),
    decreases closed.len(),
{
    if closed.len() > 0 {
        let t = closed.drop_last();
        let rest = outer(t);
        let all = outer(closed);
        lemma_outer_contained(t);
        assert(closed[closed.len() - 1] == closed.last());
        assert forall|i: int| 0 <= i < all.len() implies closed.contains(#[trigger] all[i]) by {
            if i < rest.len() {
                assert(all[i] == rest[i]);
                assert(t.contains(rest[i]));
                let k = choose|k: int| 0 <= k < t.len() && t[k] == rest[i];
                assert(closed[k] == rest[i]);
            }
        }
    }
}

/// The last fold lies inside the last of the outermost ones before it, unless it comes after it.
proof fn lemma_last_enclosed(closed: Seq<Fold>)
    requires
        laminar(closed),
        closed.len() > 0,
        outer(closed.drop_last()).len() > 0,
        outer(closed.drop_last()).last().end > closed.last().start,
    ensures
        encloses(outer(closed.drop_last()).last(), closed.last()),
{
    let t = closed.drop_last();
    let rest = outer(t);
    lemma_outer_contained(t);
    assert(t.contains(rest[rest.len() - 1]));
    let k = choose|k: int| 0 <= k < t.len() && t[k] == rest[rest.len() - 1];
    assert(closed[k].before(closed[closed.len() - 1]));
}

proof fn lemma_outer_disjoint(closed: Seq<Fold>)
    requires
        all_hold_text(closed),
    ensures
        disjoint(outer(closed)),
    decreases closed.len(),
{
    if closed.len() > 0 {
        let t = closed.drop_last();
        assert(all_hold_text(t)) by {
            assert forall|i: int| 0 <= i < t.len() implies (#[trigger] t[i]).start < t[i].end by {
                assert(closed[i].start < closed[i].end);
            }
        }
        lemma_outer_disjoint(t);
        assert(closed[closed.len() - 1].start < closed[closed.len() - 1].end);
        if outer(t).len() == 0 || outer(t).last().end <= closed.last().start {
            lemma_disjoint_push(outer(t), closed.last());
        }
    }
}

proof fn lemma_outer_encloses(closed: Seq<Fold>, j: int)
    requires
        laminar(closed),
        0 <= j < closed.len(),
    ensures
        enclosed(outer(closed), closed[j]),
    decreases closed.len(),
{
    let t = closed.drop_last();
    let rest = outer(t);
    lemma_laminar_prefix(closed);
    if j < t.len() {
        lemma_outer_encloses(t, j);
    }
    if rest.len() == 0 || rest.last().end <= closed.last().start {
        lemma_enclosed_push(rest, closed.last(), closed[j]);
    } else if j == t.len() {
        lemma_last_enclosed(closed);
        assert(encloses(rest[rest.len() - 1], closed[j]));
    }
}

proof fn lemma_outer(closed: Seq<Fold>)
    requires
        laminar(closed),
        all_hold_text(closed),
    ensures
        disjoint(outer(closed)),
        forall|i: int| 0 <= i < outer(closed).len() ==> closed.contains(#[trigger] outer(closed)[i]),
        forall|j: int| 0 <= j < closed.len() ==> enclosed(outer(closed), #[trigger] closed[j]),
{
    lemma_outer_disjoint(closed);
    assert forall|j: int| 0 <= j < closed.len() implies enclosed(
        outer(closed),
        #[trigger] closed[j],
    ) by {
        lemma_outer_encloses(closed, j);
    }
    lemma_outer_contained(closed);
}

/// The outermost folds are disjoint, they are closed folds that no other closed fold encloses, and
/// every closed fold lies inside one of them.
pub proof fn law_outermost(closed: Seq<Fold>)
    requires
        laminar(closed),
        all_hold_text(closed),
    ensures
        disjoint(outer(closed)),
        forall|i: int, j: int|
            #![trigger outer(closed)[i], closed[j]]
            0 <= i < outer(closed).len() && 0 <= j < closed.len() && encloses(
                closed[j],
                outer(closed)[i],
            ) ==> closed[j] == outer(closed)[i],
        forall|i: int| 0 <= i < outer(closed).len() ==> closed.contains(#[trigger] outer(closed)[i]),
        forall|j: int| 0 <= j < closed.len() ==> enclosed(outer(closed), #[trigger] closed[j]),
{
    lemma_outer(closed);
    let all = outer(closed);
    assert forall|i: int, j: int|
        #![trigger all[i], closed[j]]
        0 <= i < all.len() && 0 <= j < closed.len() && encloses(closed[j], all[i]) implies closed[j]
        == all[i] by {
        assert(enclosed(all, closed[j]));
        let m = choose|m: int| 0 <= m < all.len() && encloses(#[trigger] all[m], closed[j]);
        assert(all[i].start < all[i].end);
        assert(m == i) by {
            if m < i {
                assert(all[m].end <= all[i].start);
            } else if i < m {
                assert(all[i].end <= all[m].start);
            }
        }
        let k = choose|k: int| 0 <= k < closed.len() && closed[k] == all[i];
        if k < j {
            assert(closed[k].before(closed[j]));
        } else if j < k {
            assert(closed[j].before(closed[k]));
        }
    }
}

/// Any of nested or disjoint folds are so too.
pub proof fn lemma_laminar_select(folds: Seq<Fold>, pick: spec_fn(Fold) -> bool)
    requires
        laminar(folds),
    ensures
        laminar(select(folds, pick)),
    decreases folds.len(),
{
    if folds.len() > 0 {
        let t = folds.drop_last();
        lemma_laminar_prefix(folds);
        lemma_laminar_select(t, pick);
        lemma_select(t, pick);
        let rest = select(t, pick);
        let all = select(folds, pick);
        assert forall|i: int, j: int|
            #![trigger all[i], all[j]]
            0 <= i < j < all.len() implies all[i].before(all[j]) && (all[j].end <= all[i].end
            || all[i].end <= all[j].start) by {
            if j < rest.len() {
                assert(rest[i].before(rest[j]));
            } else {
                assert(t.contains(rest[i]));
                let k = choose|k: int| 0 <= k < t.len() && t[k] == rest[i];
                assert(folds[k].before(folds[folds.len() - 1]));
            }
        }
    }
}

/// The fold with its positions moved by an edit. Text typed at either end stays outside.
pub open spec fn moved_fold(ops: Seq<Operation>, fold: Fold) -> Fold {
    Fold {
        start: moved(ops, fold.start as nat, Assoc::After) as usize,
        end: moved(ops, fold.end as nat, Assoc::Before) as usize,
        pulled_up: fold.pulled_up,
    }
}

/// Whether an edit changes the text at one of the ends of the fold.
pub open spec fn touched(ops: Seq<Operation>, fold: Fold) -> bool {
    touches(ops, fold.start as nat) || touches(ops, fold.end as nat)
}

/// The folds that an edit, which made the text `s`, leaves of `folds`: all of them with their
/// positions moved, but the touched ones only as far as they still hide text.
pub open spec fn left_by(ops: Seq<Operation>, s: Seq<char>, folds: Seq<Fold>) -> Seq<Fold>
    decreases folds.len(),
{
    if folds.len() == 0 {
        folds
    } else {
        let rest = left_by(ops, s, folds.drop_last());
        let fold = moved_fold(ops, folds.last());
        if !touched(ops, folds.last()) {
            rest.push(fold)
        } else {
            match fold.revalidated(s) {
                Some(fold) => rest.push(fold),
                None => rest,
            }
        }
    }
}

/// Whether an edit touches any of the folds.
pub open spec fn any_touched(ops: Seq<Operation>, folds: Seq<Fold>) -> bool {
    exists|i: int| 0 <= i < folds.len() && touched(ops, #[trigger] folds[i])
}

/// The closed folds after an edit that made the text `s`. Touched folds may have collapsed onto or
/// across others.
pub open spec fn edited(ops: Seq<Operation>, s: Seq<char>, folds: Seq<Fold>) -> Seq<Fold> {
    if any_touched(ops, folds) {
        nested(tagged(left_by(ops, s, folds), false))
    } else {
        left_by(ops, s, folds)
    }
}

/// Whether every fold lies in a text of length `len`.
pub open spec fn all_up_to(folds: Seq<Fold>, len: nat) -> bool {
    forall|i: int| 0 <= i < folds.len() ==> (#[trigger] folds[i]).start <= len && folds[i].end <= len
}

proof fn lemma_untouched_laminar(ops: Seq<Operation>, s: Seq<char>, folds: Seq<Fold>)
    requires
        laminar(folds),
        all_up_to(folds, old_len(ops)),
        new_len(ops) <= usize::MAX,
        !any_touched(ops, folds),
    ensures
        left_by(ops, s, folds).len() == folds.len(),
        forall|i: int|
            0 <= i < folds.len() ==> #[trigger] left_by(ops, s, folds)[i] == moved_fold(
                ops,
                folds[i],
            ),
        laminar(left_by(ops, s, folds)),
    decreases folds.len(),
{
    let all = left_by(ops, s, folds);
    if folds.len() > 0 {
        let t = folds.drop_last();
        lemma_laminar_prefix(folds);
        assert forall|i: int| 0 <= i < t.len() implies (#[trigger] t[i]).start <= old_len(ops)
            && t[i].end <= old_len(ops) by {
            assert(folds[i].start <= old_len(ops));
        }
        assert(!any_touched(ops, t)) by {
            assert forall|i: int| 0 <= i < t.len() implies !touched(ops, #[trigger] t[i]) by {
                assert(!touched(ops, folds[i]));
            }
        }
        lemma_untouched_laminar(ops, s, t);
        assert(!touched(ops, folds[folds.len() - 1]));
        assert(all == left_by(ops, s, t).push(moved_fold(ops, folds.last())));
        assert forall|i: int| 0 <= i < folds.len() implies #[trigger] all[i] == moved_fold(
            ops,
            folds[i],
        ) by {
            if i < t.len() {
                assert(all[i] == left_by(ops, s, t)[i]);
            }
        }
        assert forall|i: int, j: int|
            #![trigger all[i], all[j]]
            0 <= i < j < all.len() implies all[i].before(all[j]) && (all[j].end <= all[i].end
            || all[i].end <= all[j].start) by {
            lemma_moved_order(ops, folds[i], folds[j]);
        }
    }
}

proof fn lemma_moved_order(ops: Seq<Operation>, a: Fold, b: Fold)
    requires
        a.start <= old_len(ops),
        a.end <= old_len(ops),
        b.start <= old_len(ops),
        b.end <= old_len(ops),
        new_len(ops) <= usize::MAX,
        !touched(ops, a),
        !touched(ops, b),
        a.before(b),
        b.end <= a.end || a.end <= b.start,
    ensures
        moved_fold(ops, a).before(moved_fold(ops, b)),
        moved_fold(ops, b).end <= moved_fold(ops, a).end || moved_fold(ops, a).end <= moved_fold(
            ops,
            b,
        ).start,
{
    let s = Seq::new(old_len(ops), |i: int| 'x');
    lemma_untouched(ops, s, a.start as nat);
    lemma_untouched(ops, s, a.end as nat);
    lemma_untouched(ops, s, b.start as nat);
    lemma_untouched(ops, s, b.end as nat);
    lemma_moved_bound(ops, a.start as nat, Assoc::After);
    lemma_moved_bound(ops, a.end as nat, Assoc::Before);
    lemma_moved_bound(ops, b.start as nat, Assoc::After);
    lemma_moved_bound(ops, b.end as nat, Assoc::Before);
    if a.start < b.start {
        lemma_untouched_order(ops, a.start as nat, b.start as nat, Assoc::After);
    }
    if b.end < a.end {
        lemma_untouched_order(ops, b.end as nat, a.end as nat, Assoc::Before);
    }
    if a.end < b.start {
        lemma_untouched_order(ops, a.end as nat, b.start as nat, Assoc::After);
    }
}

/// Whether the edit goes between the carriage return and the line feed of the fold's header, and
/// not to the fold's ends.
pub open spec fn splits_break(ops: Seq<Operation>, s: Seq<char>, fold: Fold) -> bool {
    s[fold.start as int] == '\r' && !touched(ops, fold) && touches(ops, (fold.start + 1) as nat)
}

proof fn lemma_moved_hides(ops: Seq<Operation>, s: Seq<char>, fold: Fold)
    requires
        old_len(ops) == s.len(),
        s.len() <= usize::MAX,
        new_len(ops) <= usize::MAX,
        fold.hides(s),
        !touched(ops, fold),
        !splits_break(ops, s, fold),
    ensures
        moved_fold(ops, fold).hides(applied(ops, s)),
{
    let t = applied(ops, s);
    let start = fold.start as nat;
    let end = fold.end as nat;
    let new = moved_fold(ops, fold);
    lemma_applied_len(ops, s);
    lemma_fold_lines(fold, s);
    lemma_untouched(ops, s, start);
    lemma_untouched(ops, s, end);
    lemma_moved_bound(ops, start, Assoc::After);
    lemma_moved_bound(ops, end, Assoc::Before);
    lemma_line_end(s, fold.header(s));
    if s[start as int] == '\r' {
        lemma_untouched(ops, s, start + 1);
        lemma_untouched_order(ops, start, start + 1, Assoc::After);
        lemma_untouched_gap(ops, s, start + 1, end);
    } else {
        lemma_untouched_gap(ops, s, start, end);
    }
    assert(break_at(t, new.start as int));
    lemma_break_at(t, new.start as int);
    lemma_line_end(t, new.header(t));
}

proof fn lemma_left_hide(ops: Seq<Operation>, s: Seq<char>, folds: Seq<Fold>)
    requires
        old_len(ops) == s.len(),
        s.len() <= usize::MAX,
        new_len(ops) <= usize::MAX,
        all_hide(folds, s),
        forall|i: int|
            0 <= i < folds.len() && splits_break(ops, s, #[trigger] folds[i]) ==> moved_fold(
                ops,
                folds[i],
            ).hides(applied(ops, s)),
    ensures
        all_hide(left_by(ops, applied(ops, s), folds), applied(ops, s)),
    decreases folds.len(),
{
    let t = applied(ops, s);
    if folds.len() > 0 {
        let rest = folds.drop_last();
        assert forall|i: int| 0 <= i < rest.len() implies (#[trigger] rest[i]).hides(s) && (
        splits_break(ops, s, rest[i]) ==> moved_fold(ops, rest[i]).hides(t)) by {
            assert(folds[i].hides(s));
        }
        lemma_left_hide(ops, s, rest);
        lemma_applied_len(ops, s);
        let last = folds[folds.len() - 1];
        assert(last.hides(s));
        if !touched(ops, last) {
            if !splits_break(ops, s, last) {
                lemma_moved_hides(ops, s, last);
            }
        } else {
            law_revalidated_folds_are_valid(moved_fold(ops, last), t);
        }
        let all = left_by(ops, t, folds);
        let before = left_by(ops, t, rest);
        assert forall|i: int| 0 <= i < all.len() implies (#[trigger] all[i]).hides(t) by {
            if i < before.len() {
                assert(all[i] == before[i]);
            }
        }
    }
}

/// Folds stay valid through edits: what an edit leaves of folds that hide text are nested or
/// disjoint folds that hide text of the edited text. This holds of every edit but one between the
/// carriage return and the line feed of a header's line break that leaves the fold with nothing to
/// hide.
pub proof fn law_edits_keep_folds(ops: Seq<Operation>, s: Seq<char>, folds: Seq<Fold>)
    requires
        old_len(ops) == s.len(),
        s.len() <= usize::MAX,
        new_len(ops) <= usize::MAX,
        laminar(folds),
        all_hide(folds, s),
        forall|i: int|
            0 <= i < folds.len() && splits_break(ops, s, #[trigger] folds[i]) ==> moved_fold(
                ops,
                folds[i],
            ).hides(applied(ops, s)),
    ensures
        laminar(edited(ops, applied(ops, s), folds)),
        all_hide(edited(ops, applied(ops, s), folds), applied(ops, s)),
{
    let t = applied(ops, s);
    lemma_left_hide(ops, s, folds);
    let left = left_by(ops, t, folds);
    if any_touched(ops, folds) {
        let all = nested(tagged(left, false));
        law_nested_folds(tagged(left, false));
        assert forall|i: int| 0 <= i < all.len() implies (#[trigger] all[i]).hides(t) by {
            let plain = folds_of(tagged(left, false));
            assert(plain.contains(all[i]));
            let k = choose|k: int| 0 <= k < plain.len() && plain[k] == all[i];
            assert(left[k] == all[i]);
        }
    } else {
        assert forall|i: int| 0 <= i < folds.len() implies (#[trigger] folds[i]).start <= s.len()
            && folds[i].end <= s.len() by {
            assert(folds[i].hides(s));
            lemma_fold_lines(folds[i], s);
        }
        lemma_untouched_laminar(ops, t, folds);
    }
}

/// Whether the fold `new` is the fold `old` with its positions moved by an edit that made the text
/// `s`, or what that still hides.
pub open spec fn comes_from(ops: Seq<Operation>, s: Seq<char>, old: Fold, new: Fold) -> bool {
    new == moved_fold(ops, old) || moved_fold(ops, old).revalidated(s) == Some(new)
}

proof fn lemma_left_come_from(ops: Seq<Operation>, s: Seq<char>, folds: Seq<Fold>)
    ensures
        forall|i: int|
            0 <= i < left_by(ops, s, folds).len() ==> exists|k: int|
                0 <= k < folds.len() && comes_from(
                    ops,
                    s,
                    #[trigger] folds[k],
                    #[trigger] left_by(ops, s, folds)[i],
                ),
    decreases folds.len(),
{
    if folds.len() > 0 {
        let t = folds.drop_last();
        let before = left_by(ops, s, t);
        let all = left_by(ops, s, folds);
        lemma_left_come_from(ops, s, t);
        assert forall|i: int| 0 <= i < all.len() implies exists|k: int|
            0 <= k < folds.len() && comes_from(ops, s, #[trigger] folds[k], #[trigger] all[i]) by {
            if i < before.len() {
                let k = choose|k: int|
                    0 <= k < t.len() && comes_from(ops, s, #[trigger] t[k], before[i]);
                assert(comes_from(ops, s, folds[k], all[i]));
            } else {
                assert(comes_from(ops, s, folds[folds.len() - 1], all[i]));
            }
        }
    }
}

/// An edit adds no folds: what it leaves are nested or disjoint folds, each of which comes from one
/// that was closed. This holds of every edit.
pub proof fn law_edits_add_no_folds(ops: Seq<Operation>, s: Seq<char>, folds: Seq<Fold>)
    requires
        laminar(folds),
        all_up_to(folds, old_len(ops)),
        new_len(ops) <= usize::MAX,
    ensures
        laminar(edited(ops, s, folds)),
        forall|i: int|
            0 <= i < edited(ops, s, folds).len() ==> exists|k: int|
                0 <= k < folds.len() && comes_from(
                    ops,
                    s,
                    #[trigger] folds[k],
                    #[trigger] edited(ops, s, folds)[i],
                ),
{
    let left = left_by(ops, s, folds);
    lemma_left_come_from(ops, s, folds);
    if any_touched(ops, folds) {
        let all = nested(tagged(left, false));
        law_nested_folds(tagged(left, false));
        assert forall|i: int| 0 <= i < all.len() implies exists|k: int|
            0 <= k < folds.len() && comes_from(ops, s, #[trigger] folds[k], #[trigger] all[i]) by {
            let plain = folds_of(tagged(left, false));
            assert(plain.contains(all[i]));
            let k = choose|k: int| 0 <= k < plain.len() && plain[k] == all[i];
            assert(left[k] == all[i]);
        }
    } else {
        lemma_untouched_laminar(ops, s, folds);
    }
}

/// Opening a fold undoes closing it: the folds inside it stay as they were.
pub proof fn law_opening_undoes_closing(closed: Seq<Fold>, fold: Fold)
    requires
        laminar(closed),
        forall|i: int| 0 <= i < closed.len() ==> (#[trigger] closed[i]).start < closed[i].end,
        fold.start < fold.end,
        forall|i: int|
            0 <= i < closed.len() ==> !crosses(#[trigger] closed[i], fold) && !same_text(
                closed[i],
                fold,
            ),
    ensures
        select(
            nested(tagged(closed, false) + tagged(seq![fold], true)),
            |other: Fold|
                !exists|i: int|
                    0 <= i < seq![fold].len() && same_text(#[trigger] seq![fold][i], other),
        ) == closed,
{
    let new = seq![fold];
    let all = nested(tagged(closed, false) + tagged(new, true));
    let stays = |other: Fold|
        !exists|i: int| 0 <= i < seq![fold].len() && same_text(#[trigger] seq![fold][i], other);
    law_closing_opens_what_it_crosses(closed, new);
    let left = select(all, stays);
    lemma_select(all, stays);
    lemma_laminar_select(all, stays);
    assert forall|other: Fold|
        #![trigger left.contains(other)]
        #![trigger closed.contains(other)]
        left.contains(other) <==> closed.contains(other) by {
        if left.contains(other) {
            let k = left.index_of(other);
            assert(all.contains(left[k]) && stays(left[k]));
            if new.contains(other) {
                assert(same_text(seq![fold][0], other));
            }
        }
        if closed.contains(other) {
            let i = closed.index_of(other);
            assert(!crosses(closed[i], fold) && !same_text(closed[i], fold));
            assert(!displaces(new, closed[i]));
            assert(all.contains(other));
            assert(stays(other));
        }
    }
    lemma_same_laminar(left, closed);
}

/// The folds of a document in one view.
///
/// Closed folds are nested or disjoint. A fold inside another closed fold stays closed when the
/// outer one is opened.
#[derive(Clone, Debug)]
pub struct Folds {
    /// All closed folds, outermost first.
    closed: Vec<Fold>,
    /// The closed folds that are not inside another closed fold, which is what is hidden.
    outermost: Vec<Fold>,
    /// Changes whenever the folds do, so that views can tell that the layout changed.
    revision: usize,
}

impl Default for Folds {
    fn default() -> (folds: Folds)
        ensures
            folds.wf(),
            folds@ == Seq::<Fold>::empty(),
            folds.number() == 0,
    {
        Folds { closed: Vec::new(), outermost: Vec::new(), revision: 0 }
    }
}

impl Folds {
    /// All closed folds.
    pub closed spec fn view(&self) -> Seq<Fold> {
        self.closed@
    }

    /// The folds that are stored as the outermost ones.
    pub closed spec fn top(&self) -> Seq<Fold> {
        self.outermost@
    }

    /// The number that changes with the folds.
    pub closed spec fn number(&self) -> usize {
        self.revision
    }

    /// Whether the closed folds are nested or disjoint, and the outermost ones are known.
    pub open spec fn wf(&self) -> bool {
        laminar(self@) && self.top() == outer(self@)
    }

    /// Whether every closed fold hides text of `s`.
    pub open spec fn valid(&self, s: Seq<char>) -> bool {
        self.wf() && all_hide(self@, s)
    }

    /// All closed folds, sorted by start and outermost first.
    pub fn closed(&self) -> (closed: &[Fold])
        ensures
            closed@ == self@,
    {
        self.closed.as_slice()
    }

    /// The closed folds that are not inside another closed fold, sorted and disjoint.
    pub fn outermost(&self) -> (folds: &[Fold])
        ensures
            folds@ == self.top(),
    {
        self.outermost.as_slice()
    }

    pub fn is_empty(&self) -> (empty: bool)
        ensures
            empty == (self@.len() == 0),
    {
        self.closed.len() == 0
    }

    /// A number that changes whenever the folds change.
    pub fn revision(&self) -> (revision: usize)
        ensures
            revision == self.number(),
    {
        self.revision
    }

    /// Finds out which of the closed folds are outermost.
    fn changed(&mut self)
        ensures
            final(self)@ == old(self)@,
            final(self).top() == outer(old(self)@),
            final(self).number() == old(self).number().wrapping_add(1),
    {
        let mut outermost: Vec<Fold> = Vec::new();
        let mut i: usize = 0;
        while i < self.closed.len()
            invariant
                i <= self.closed.len(),
                self.closed@ == old(self).closed@,
                self.revision == old(self).revision,
                outermost@ == outer(self.closed@.take(i as int)),
            decreases self.closed.len() - i,
        {
            let fold: Fold = self.closed[i];
            proof {
                assert(self.closed@.take(i + 1).drop_last() =~= self.closed@.take(i as int));
            }
            if outermost.len() == 0 || outermost[outermost.len() - 1].end <= fold.start {
                outermost.push(fold);
            }
            i += 1;
        }
        assert(self.closed@.take(i as int) =~= self.closed@);
        self.outermost = outermost;
        self.revision = self.revision.wrapping_add(1);
    }

    /// Closes `folds`. A closed fold that crosses a new one is opened.
    pub fn close(&mut self, folds: Vec<Fold>)
        ensures
            final(self).wf(),
            final(self)@ == nested(tagged(old(self)@, false) + tagged(folds@, true)),
            final(self).number() == old(self).number().wrapping_add(1),
    {
        let mut all: Vec<(Fold, bool)> = Vec::new();
        let mut i: usize = 0;
        while i < self.closed.len()
            invariant
                i <= self.closed.len(),
                *self == *old(self),
                all@ == tagged(self.closed@.take(i as int), false),
            decreases self.closed.len() - i,
        {
            all.push((self.closed[i], false));
            i += 1;
            assert(all@ =~= tagged(self.closed@.take(i as int), false));
        }
        assert(self.closed@.take(i as int) =~= self.closed@);
        let mut j: usize = 0;
        while j < folds.len()
            invariant
                j <= folds.len(),
                *self == *old(self),
                all@ == tagged(self@, false) + tagged(folds@.take(j as int), true),
            decreases folds.len() - j,
        {
            all.push((folds[j], true));
            j += 1;
            assert(all@ =~= tagged(self@, false) + tagged(folds@.take(j as int), true));
        }
        assert(folds@.take(j as int) =~= folds@);
        self.closed = nest(all);
        self.changed();
    }

    /// Opens `folds`, leaving the closed folds inside them closed.
    pub fn open(&mut self, folds: &[Fold])
        requires
            old(self).wf(),
        ensures
            final(self).wf(),
            final(self)@ == select(
                old(self)@,
                |fold: Fold|
                    !exists|i: int| 0 <= i < folds@.len() && same_text(#[trigger] folds@[i], fold),
            ),
            final(self).number() == old(self).number().wrapping_add(1),
    {
        let ghost stays = |fold: Fold|
            !exists|i: int| 0 <= i < folds@.len() && same_text(#[trigger] folds@[i], fold);
        let mut left: Vec<Fold> = Vec::new();
        let mut i: usize = 0;
        while i < self.closed.len()
            invariant
                i <= self.closed.len(),
                *self == *old(self),
                stays == (|fold: Fold|
                    !exists|i: int| 0 <= i < folds@.len() && same_text(#[trigger] folds@[i], fold)),
                left@ == select(self.closed@.take(i as int), stays),
            decreases self.closed.len() - i,
        {
            let fold: Fold = self.closed[i];
            proof {
                assert(self.closed@.take(i + 1).drop_last() =~= self.closed@.take(i as int));
            }
            let mut opened: bool = false;
            let mut j: usize = 0;
            while j < folds.len() && !opened
                invariant
                    j <= folds.len(),
                    opened ==> exists|k: int|
                        0 <= k < folds@.len() && same_text(#[trigger] folds@[k], fold),
                    !opened ==> forall|k: int|
                        0 <= k < j ==> !same_text(#[trigger] folds@[k], fold),
                decreases folds.len() - j,
            {
                if folds[j].start == fold.start && folds[j].end == fold.end {
                    assert(same_text(folds@[j as int], fold));
                    opened = true;
                }
                j += 1;
            }
            if !opened {
                left.push(fold);
            }
            i += 1;
        }
        proof {
            assert(self.closed@.take(i as int) =~= self.closed@);
            lemma_laminar_select(self.closed@, stays);
        }
        self.closed = left;
        self.changed();
    }

    /// Opens `folds` and every closed fold inside them.
    pub fn open_recursive(&mut self, folds: &[Fold])
        requires
            old(self).wf(),
        ensures
            final(self).wf(),
            final(self)@ == select(
                old(self)@,
                |fold: Fold|
                    !exists|i: int| 0 <= i < folds@.len() && encloses(#[trigger] folds@[i], fold),
            ),
            final(self).number() == old(self).number().wrapping_add(1),
    {
        let ghost stays = |fold: Fold|
            !exists|i: int| 0 <= i < folds@.len() && encloses(#[trigger] folds@[i], fold);
        let mut left: Vec<Fold> = Vec::new();
        let mut i: usize = 0;
        while i < self.closed.len()
            invariant
                i <= self.closed.len(),
                *self == *old(self),
                stays == (|fold: Fold|
                    !exists|i: int| 0 <= i < folds@.len() && encloses(#[trigger] folds@[i], fold)),
                left@ == select(self.closed@.take(i as int), stays),
            decreases self.closed.len() - i,
        {
            let fold: Fold = self.closed[i];
            proof {
                assert(self.closed@.take(i + 1).drop_last() =~= self.closed@.take(i as int));
            }
            let mut opened: bool = false;
            let mut j: usize = 0;
            while j < folds.len() && !opened
                invariant
                    j <= folds.len(),
                    opened ==> exists|k: int|
                        0 <= k < folds@.len() && encloses(#[trigger] folds@[k], fold),
                    !opened ==> forall|k: int|
                        0 <= k < j ==> !encloses(#[trigger] folds@[k], fold),
                decreases folds.len() - j,
            {
                if folds[j].start <= fold.start && fold.end <= folds[j].end {
                    assert(encloses(folds@[j as int], fold));
                    opened = true;
                }
                j += 1;
            }
            if !opened {
                left.push(fold);
            }
            i += 1;
        }
        proof {
            assert(self.closed@.take(i as int) =~= self.closed@);
            lemma_laminar_select(self.closed@, stays);
        }
        self.closed = left;
        self.changed();
    }

    /// Opens every fold.
    pub fn clear(&mut self)
        ensures
            final(self).wf(),
            final(self)@ == Seq::<Fold>::empty(),
            final(self).number() == old(self).number().wrapping_add(1),
    {
        self.closed.clear();
        self.changed();
    }

    /// Maps the folds through `changes`, which turned the text into `text`. Folds touched by a
    /// change that no longer hide text behind a header line are dropped.
    pub fn map(&mut self, text: RopeSlice, changes: &ChangeSet)
        requires
            old(self).wf(),
            changes.fits(),
            all_up_to(old(self)@, old_len(changes@)),
        ensures
            final(self).wf(),
            old(self)@.len() == 0 || changes@.len() == 0 ==> *final(self) == *old(self),
            old(self)@.len() != 0 && changes@.len() != 0 ==> final(self)@ == edited(
                changes@,
                chars_of(text),
                old(self)@,
            ) && final(self).number() == old(self).number().wrapping_add(1),
    {
        if self.closed.len() == 0 || changes.is_empty() {
            return;
        }
        let ghost s = chars_of(text);
        let ghost ops = changes@;
        let ranges: Vec<(usize, usize)> = changes.changed_ranges();
        let mut any: bool = false;
        let mut mapped: Vec<Fold> = Vec::new();
        let mut i: usize = 0;
        while i < self.closed.len()
            invariant
                i <= self.closed.len(),
                *self == *old(self),
                changes.fits(),
                ops == changes@,
                s == chars_of(text),
                all_up_to(self.closed@, old_len(ops)),
                ranges@.len() == crate::changes::changed(ops, 0).len(),
                forall|k: int|
                    0 <= k < ranges@.len() ==> (#[trigger] ranges@[k]).0 as nat
                        == crate::changes::changed(ops, 0)[k].0 && ranges@[k].1 as nat
                        == crate::changes::changed(ops, 0)[k].1,
                mapped@ == left_by(ops, s, self.closed@.take(i as int)),
                any == any_touched(ops, self.closed@.take(i as int)),
            decreases self.closed.len() - i,
        {
            let fold: Fold = self.closed[i];
            let ghost before = self.closed@.take(i as int);
            let ghost after = self.closed@.take(i + 1);
            proof {
                assert(after.drop_last() =~= before);
                assert(after.last() == fold);
                assert(self.closed@[i as int].start <= old_len(ops));
            }
            let touched_here: bool = range_touches(changes, &ranges, fold.start) || range_touches(
                changes,
                &ranges,
                fold.end,
            );
            let new = Fold {
                start: changes.map_pos(fold.start, Assoc::After),
                end: changes.map_pos(fold.end, Assoc::Before),
                pulled_up: fold.pulled_up,
            };
            assert(new == moved_fold(ops, fold));
            proof {
                if any {
                    let k = choose|k: int|
                        0 <= k < before.len() && touched(ops, #[trigger] before[k]);
                    assert(touched(ops, after[k]));
                }
                if touched_here {
                    assert(touched(ops, after[i as int]));
                }
                if any_touched(ops, after) {
                    let k = choose|k: int| 0 <= k < after.len() && touched(ops, #[trigger] after[k]);
                    if k < i {
                        assert(touched(ops, before[k]));
                    }
                }
            }
            if touched_here {
                any = true;
                match new.revalidate(text) {
                    Some(valid) => {
                        mapped.push(valid);
                    },
                    None => {},
                }
            } else {
                mapped.push(new);
            }
            i += 1;
        }
        assert(self.closed@.take(i as int) =~= self.closed@);
        // touched folds may have collapsed onto or across others
        if any {
            let mut all: Vec<(Fold, bool)> = Vec::new();
            let mut j: usize = 0;
            while j < mapped.len()
                invariant
                    j <= mapped.len(),
                    all@ == tagged(mapped@.take(j as int), false),
                decreases mapped.len() - j,
            {
                all.push((mapped[j], false));
                j += 1;
                assert(all@ =~= tagged(mapped@.take(j as int), false));
            }
            assert(mapped@.take(j as int) =~= mapped@);
            self.closed = nest(all);
        } else {
            proof {
                lemma_untouched_laminar(ops, s, self.closed@);
            }
            self.closed = mapped;
        }
        self.changed();
    }
}

/// Whether one of the ranges that an edit changes has `pos` in it or at its end.
fn range_touches(changes: &ChangeSet, ranges: &Vec<(usize, usize)>, pos: usize) -> (touches_pos:
    bool)
    requires
        ranges@.len() == crate::changes::changed(changes@, 0).len(),
        forall|k: int|
            0 <= k < ranges@.len() ==> (#[trigger] ranges@[k]).0 as nat == crate::changes::changed(
                changes@,
                0,
            )[k].0 && ranges@[k].1 as nat == crate::changes::changed(changes@, 0)[k].1,
    ensures
        touches_pos == touches(changes@, pos as nat),
{
    let mut i: usize = 0;
    while i < ranges.len()
        invariant
            i <= ranges.len(),
            ranges@.len() == crate::changes::changed(changes@, 0).len(),
            forall|k: int|
                0 <= k < ranges@.len() ==> (#[trigger] ranges@[k]).0 as nat
                    == crate::changes::changed(changes@, 0)[k].0 && ranges@[k].1 as nat
                    == crate::changes::changed(changes@, 0)[k].1,
            forall|k: int|
                0 <= k < i ==> !((#[trigger] crate::changes::changed(changes@, 0)[k]).0 <= pos
                    && pos <= crate::changes::changed(changes@, 0)[k].1),
        decreases ranges.len() - i,
    {
        let (from, to): (usize, usize) = ranges[i];
        assert(ranges@[i as int].0 as nat == crate::changes::changed(changes@, 0)[i as int].0);
        if from <= pos && pos <= to {
            return true;
        }
        i += 1;
    }
    false
}

/// Text typed at either end of a fold stays outside of it, and text typed in between goes with it.
pub proof fn law_typed_text_stays_outside_at_the_ends(
    fold: Fold,
    at: usize,
    text: String,
    after: usize,
)
    requires
        fold.start < fold.end < at + after,
        at + text@.len() + after <= usize::MAX,
    ensures
        ({
            let ops = seq![Operation::Retain(at), Operation::Insert(text), Operation::Retain(after)];
            let then = moved_fold(ops, fold);
            &&& at == fold.start ==> then.start == fold.start + text@.len() && then.end == fold.end
                + text@.len()
            &&& at == fold.end ==> then.start == fold.start && then.end == fold.end
            &&& fold.start < at < fold.end ==> then.start == fold.start && then.end == fold.end
                + text@.len()
            &&& at < fold.start ==> then.start == fold.start + text@.len() && then.end == fold.end
                + text@.len()
            &&& fold.end < at ==> then.start == fold.start && then.end == fold.end
            &&& then.pulled_up == fold.pulled_up
        }),
{
    crate::changes::law_insertions_move_what_is_after(
        at,
        text,
        after,
        fold.start as nat,
        Assoc::After,
    );
    crate::changes::law_insertions_move_what_is_after(
        at,
        text,
        after,
        fold.end as nat,
        Assoc::Before,
    );
}

/// A fold that an edit does not touch at its ends only moves. One that it does touch is kept as far as
/// it still hides text, and dropped if it does not.
pub proof fn law_touched_folds_are_looked_at_again(
    ops: Seq<Operation>,
    s: Seq<char>,
    folds: Seq<Fold>,
    fold: Fold,
)
    ensures
        ({
            let before = left_by(ops, s, folds);
            let after = left_by(ops, s, folds.push(fold));
            let at_ends = touches(ops, fold.start as nat) || touches(ops, fold.end as nat);
            let then = moved_fold(ops, fold);
            &&& !at_ends ==> after == before.push(then)
            &&& at_ends && then.revalidated(s) is None ==> after == before
            &&& at_ends ==> (then.revalidated(s) matches Some(valid) ==> after == before.push(valid))
        }),
{
    assert(folds.push(fold).drop_last() =~= folds);
}

} // verus!
