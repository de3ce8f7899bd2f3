//! The commands that fold a text by its syntax.

use crate::fold::{folds_of, law_nested_folds, nested, same_text, tagged, Fold};
use crate::fold_rows::{all_hide, lemma_all_within, lemma_fold_lines};
use crate::fold_selection::snapped;
use crate::fold_toggle::{headed_by, lemma_region_target, region_target, Toggle};
use crate::folds::{encloses, Folds};
use crate::selection::{Range, Selection};
use crate::seqs::{lemma_select, select};
use crate::syntax_tree::{regions, regions_in, SyntaxTree};
use crate::text::{
    chars_of, lemma_line_of_bound, lemma_line_of_monotone, lemma_line_start_bound,
    lemma_line_start_monotone, line_of, line_start,
};
use ropey::RopeSlice;
use vstd::prelude::*;
use vstd::utf8::encode_utf8;

verus! {

/// The foldable regions around the lines of `range`.
pub open spec fn regions_around(tree: &SyntaxTree, s: Seq<char>, range: Range) -> Seq<Fold> {
    regions_in(
        tree,
        s,
        line_start(s, line_of(s, range.low() as int)) as int,
        line_start(s, line_of(s, range.last_in(s) as int) + 1) as int,
    )
}

/// What toggling a fold at `range` does.
pub open spec fn toggle_at(
    folds: Seq<Fold>,
    s: Seq<char>,
    tree: &SyntaxTree,
    range: Range,
) -> Option<Toggle> {
    match headed_by(folds, s, line_of(s, range.cursor_in(s) as int)) {
        Some(fold) => Some(Toggle::Open(fold)),
        None => region_target(folds, s, range, regions_around(tree, s, range)),
    }
}

/// The folds that toggling at `ranges` opens.
pub open spec fn toggled_open(
    folds: Seq<Fold>,
    s: Seq<char>,
    tree: &SyntaxTree,
    ranges: Seq<Range>,
) -> Seq<Fold>
    decreases ranges.len(),
{
    if ranges.len() == 0 {
        Seq::empty()
    } else {
        let before = toggled_open(folds, s, tree, ranges.drop_last());
        match toggle_at(folds, s, tree, ranges.last()) {
            Some(Toggle::Open(fold)) => before.push(fold),
            _ => before,
        }
    }
}

/// The regions inside `region`.
pub open spec fn regions_inside(tree: &SyntaxTree, s: Seq<char>, region: Fold) -> Seq<Fold> {
    select(
        regions_in(tree, s, region.start as int, region.end as int),
        |inner: Fold| encloses(region, inner),
    )
}

/// The regions that toggling at `ranges` closes, with those inside them if it is `recursive`.
pub open spec fn toggled_closed(
    folds: Seq<Fold>,
    s: Seq<char>,
    tree: &SyntaxTree,
    ranges: Seq<Range>,
    recursive: bool,
) -> Seq<Fold>
    decreases ranges.len(),
{
    if ranges.len() == 0 {
        Seq::empty()
    } else {
        let before = toggled_closed(folds, s, tree, ranges.drop_last(), recursive);
        match toggle_at(folds, s, tree, ranges.last()) {
            Some(Toggle::Close(region)) => if recursive {
                before.push(region) + regions_inside(tree, s, region)
            } else {
                before.push(region)
            },
            _ => before,
        }
    }
}

/// The closed folds that stay closed when `opened` are opened.
pub open spec fn still_closed(closed: Seq<Fold>, opened: Seq<Fold>, recursive: bool) -> Seq<Fold> {
    if recursive {
        select(
            closed,
            |fold: Fold|
                !exists|i: int| 0 <= i < opened.len() && encloses(#[trigger] opened[i], fold),
        )
    } else {
        select(
            closed,
            |fold: Fold|
                !exists|i: int| 0 <= i < opened.len() && same_text(#[trigger] opened[i], fold),
        )
    }
}

/// Closing folds that hide text leaves only folds that hide text.
proof fn lemma_close_hides(closed: Seq<Fold>, new: Seq<Fold>, s: Seq<char>)
    requires
        all_hide(closed, s),
        all_hide(new, s),
    ensures
        all_hide(nested(tagged(closed, false) + tagged(new, true)), s),
{
    let all = tagged(closed, false) + tagged(new, true);
    let left = nested(all);
    law_nested_folds(all);
    assert forall|i: int| 0 <= i < left.len() implies (#[trigger] left[i]).hides(s) by {
        assert(folds_of(all).contains(left[i]));
        let k = choose|k: int| 0 <= k < folds_of(all).len() && folds_of(all)[k] == left[i];
        if k < closed.len() {
            assert(all[k] == tagged(closed, false)[k]);
            assert(closed[k] == left[i]);
        } else {
            assert(all[k] == tagged(new, true)[k - closed.len()]);
            assert(new[k - closed.len()] == left[i]);
        }
    }
}

proof fn lemma_still_closed(closed: Seq<Fold>, opened: Seq<Fold>, recursive: bool, s: Seq<char>)
    requires
        all_hide(closed, s),
    ensures
        all_hide(still_closed(closed, opened, recursive), s),
{
    let pick = if recursive {
        |fold: Fold| !exists|i: int| 0 <= i < opened.len() && encloses(#[trigger] opened[i], fold)
    } else {
        |fold: Fold| !exists|i: int| 0 <= i < opened.len() && same_text(#[trigger] opened[i], fold)
    };
    lemma_select(closed, pick);
    let left = select(closed, pick);
    assert forall|i: int| 0 <= i < left.len() implies (#[trigger] left[i]).hides(s) by {
        assert(closed.contains(left[i]));
        let k = choose|k: int| 0 <= k < closed.len() && closed[k] == left[i];
        assert(closed[k].hides(s));
    }
}

impl Folds {
    /// What toggling a fold at `range` does, going by the regions of `tree`.
    fn target(&self, text: RopeSlice, tree: &SyntaxTree, range: &Range) -> (target: Option<Toggle>)
        requires
            self.valid(chars_of(text)),
            tree.wf(),
            tree.fits(encode_utf8(chars_of(text)).len()),
            range.within(chars_of(text)),
        ensures
            target == toggle_at(self.top(), chars_of(text), tree, *range),
            target matches Some(Toggle::Close(region)) ==> region.hides(chars_of(text)),
    {
        let ghost s = chars_of(text);
        if let Some(fold) = self.fold_under_cursor(text, range) {
            return Some(Toggle::Open(fold));
        }
        let (from_line, to_line): (usize, usize) = range.line_range(text);
        let lines: usize = text.len_lines();
        proof {
            lemma_line_of_bound(s, range.low() as int);
            lemma_line_of_bound(s, range.last_in(s) as int);
            lemma_line_of_monotone(s, range.low() as int, range.last_in(s) as int);
            lemma_line_start_monotone(s, from_line as nat, to_line as nat + 1);
            lemma_line_start_bound(s, to_line as nat + 1);
            assert(to_line < lines);
        }
        let found: Vec<Fold> = regions(
            tree,
            text,
            text.line_to_char(from_line)..text.line_to_char(to_line + 1),
        );
        proof {
            lemma_all_within(found@, s);
            lemma_region_target(self.top(), s, *range, found@);
            if let Some(Toggle::Close(region)) = region_target(self.top(), s, *range, found@) {
                let k = choose|k: int| 0 <= k < found@.len() && found@[k] == region;
                assert(found@[k].hides(s));
            }
        }
        self.region_toggle(text, range, &found)
    }

    /// Toggles a fold at every range of `selection`, see [`Folds::toggle_target`]. `recursive`
    /// also opens the closed folds inside an opened fold, or closes the regions inside a closed
    /// one. Returns `selection` moved out of the new folds.
    pub fn toggle(
        &mut self,
        text: RopeSlice,
        tree: &SyntaxTree,
        selection: Selection,
        recursive: bool,
    ) -> (snap: Selection)
        requires
            old(self).valid(chars_of(text)),
            tree.wf(),
            tree.fits(encode_utf8(chars_of(text)).len()),
            selection.wf(),
            selection.within(chars_of(text)),
        ensures
            final(self).valid(chars_of(text)),
            ({
                let s = chars_of(text);
                let opened = toggled_open(old(self).top(), s, tree, selection@);
                let closed = toggled_closed(old(self).top(), s, tree, selection@, recursive);
                final(self)@ == nested(
                    tagged(still_closed(old(self)@, opened, recursive), false) + tagged(
                        closed,
                        true,
                    ),
                )
            }),
            final(self).number() == old(self).number().wrapping_add(1).wrapping_add(1),
            snap.selects(
                selection@.map_values(
                    |range: Range| snapped(final(self).top(), chars_of(text), range),
                ),
                snapped(final(self).top(), chars_of(text), selection@[selection.primary_at()]),
            ),
    {
        let ghost s = chars_of(text);
        let ghost top = self.top();
        let ghost before = self@;
        let ranges: &Vec<Range> = selection.ranges();
        let mut open: Vec<Fold> = Vec::new();
        let mut close: Vec<Fold> = Vec::new();
        let mut i: usize = 0;
        while i < ranges.len()
            invariant
                *self == *old(self),
                self.valid(s),
                s == chars_of(text),
                top == self.top(),
                tree.wf(),
                tree.fits(encode_utf8(s).len()),
                ranges@ == selection@,
                selection.within(s),
                i <= ranges@.len(),
                open@ == toggled_open(top, s, tree, ranges@.take(i as int)),
                close@ == toggled_closed(top, s, tree, ranges@.take(i as int), recursive),
                all_hide(close@, s),
            decreases ranges.len() - i,
        {
            let range: Range = ranges[i];
            proof {
                assert(selection@[i as int].within(s));
                assert(ranges@.take(i + 1).drop_last() =~= ranges@.take(i as int));
            }
            match self.target(text, tree, &range) {
                Some(Toggle::Open(fold)) => {
                    open.push(fold);
                },
                Some(Toggle::Close(region)) => {
                    let ghost closed = close@;
                    close.push(region);
                    proof {
                        assert forall|k: int| 0 <= k < close@.len() implies (
                        #[trigger] close@[k]).hides(s) by {
                            if k < closed.len() {
                                assert(close@[k] == closed[k]);
                            }
                        }
                    }
                    if recursive {
                        self.add_inner(text, tree, region, &mut close);
                    }
                },
                None => {},
            }
            i += 1;
        }
        proof {
            assert(ranges@.take(i as int) =~= ranges@);
            lemma_still_closed(before, open@, recursive, s);
        }
        if recursive {
            self.open_recursive(open.as_slice());
        } else {
            self.open(open.as_slice());
        }
        proof {
            lemma_close_hides(self@, close@, s);
        }
        self.close(close);
        self.snap(text, selection)
    }

    /// Adds the regions inside `region` to `close`.
    fn add_inner(&self, text: RopeSlice, tree: &SyntaxTree, region: Fold, close: &mut Vec<Fold>)
        requires
            tree.wf(),
            tree.fits(encode_utf8(chars_of(text)).len()),
            region.hides(chars_of(text)),
            all_hide(old(close)@, chars_of(text)),
        ensures
            final(close)@ == old(close)@ + regions_inside(tree, chars_of(text), region),
            all_hide(final(close)@, chars_of(text)),
    {
        let ghost s = chars_of(text);
        let ghost inside = |inner: Fold| encloses(region, inner);
        proof {
            lemma_fold_lines(region, s);
        }
        let inner: Vec<Fold> = regions(tree, text, region.start..region.end);
        let mut i: usize = 0;
        assert(close@ =~= old(close)@ + select(inner@.take(0), inside));
        while i < inner.len()
            invariant
                i <= inner@.len(),
                inside == (|inner: Fold| encloses(region, inner)),
                close@ == old(close)@ + select(inner@.take(i as int), inside),
                all_hide(inner@, s),
                all_hide(close@, s),
            decreases inner.len() - i,
        {
            let fold: Fold = inner[i];
            let ghost before = close@;
            proof {
                assert(inner@.take(i + 1).drop_last() =~= inner@.take(i as int));
                assert(inner@[i as int].hides(s));
            }
            if region.start <= fold.start && fold.end <= region.end {
                close.push(fold);
                proof {
                    assert forall|k: int| 0 <= k < close@.len() implies (
                    #[trigger] close@[k]).hides(s) by {
                        if k < before.len() {
                            assert(close@[k] == before[k]);
                        }
                    }
                }
            }
            assert(close@ =~= old(close)@ + select(inner@.take(i + 1), inside));
            i += 1;
        }
        assert(inner@.take(i as int) =~= inner@);
    }

    /// Closes every foldable region of the text. Returns `selection` moved out of the folds.
    pub fn close_all(&mut self, text: RopeSlice, tree: &SyntaxTree, selection: Selection) -> (snap:
        Selection)
        requires
            old(self).valid(chars_of(text)),
            tree.wf(),
            tree.fits(encode_utf8(chars_of(text)).len()),
            selection.wf(),
            selection.within(chars_of(text)),
        ensures
            final(self).valid(chars_of(text)),
            final(self)@ == nested(
                tagged(old(self)@, false) + tagged(
                    regions_in(tree, chars_of(text), 0, chars_of(text).len() as int),
                    true,
                ),
            ),
            final(self).number() == old(self).number().wrapping_add(1),
            snap.selects(
                selection@.map_values(
                    |range: Range| snapped(final(self).top(), chars_of(text), range),
                ),
                snapped(final(self).top(), chars_of(text), selection@[selection.primary_at()]),
            ),
    {
        let all: Vec<Fold> = regions(tree, text, 0..text.len_chars());
        proof {
            lemma_close_hides(self@, all@, chars_of(text));
        }
        self.close(all);
        self.snap(text, selection)
    }
}

/// Toggling opens the fold that is drawn on the line of the cursor, if there is one.
pub proof fn law_toggling_opens_the_fold_of_the_line(
    folds: Seq<Fold>,
    s: Seq<char>,
    tree: &SyntaxTree,
    range: Range,
)
    ensures
        ({
            let line = line_of(s, range.cursor_in(s) as int);
            &&& (exists|i: int|
                0 <= i < folds.len() && line_of(s, (#[trigger] folds[i]).start as int) == line)
                ==> (toggle_at(folds, s, tree, range) matches Some(Toggle::Open(fold))
                && folds.contains(fold) && line_of(s, fold.start as int) == line)
            &&& (forall|i: int|
                0 <= i < folds.len() ==> line_of(s, (#[trigger] folds[i]).start as int) != line)
                ==> toggle_at(folds, s, tree, range) == region_target(
                folds,
                s,
                range,
                regions_in(
                    tree,
                    s,
                    line_start(s, line_of(s, range.low() as int)) as int,
                    line_start(s, line_of(s, range.last_in(s) as int) + 1) as int,
                ),
            )
        }),
{
}

/// What is opened is what toggling at one of the ranges opens.
#[verifier::spinoff_prover]
#[verifier::rlimit(40)]
pub proof fn law_every_range_opens_its_fold(
    folds: Seq<Fold>,
    s: Seq<char>,
    tree: &SyntaxTree,
    ranges: Seq<Range>,
    fold: Fold,
)
    ensures
        toggled_open(folds, s, tree, ranges).contains(fold) <==> exists|i: int|
            0 <= i < ranges.len() && #[trigger] toggle_at(folds, s, tree, ranges[i]) == Some(
                Toggle::Open(fold),
            ),
    decreases ranges.len(),
{
    if ranges.len() > 0 {
        let rest = ranges.drop_last();
        law_every_range_opens_its_fold(folds, s, tree, rest, fold);
        let last = ranges.len() - 1;
        let opened = toggled_open(folds, s, tree, rest);
        let all = toggled_open(folds, s, tree, ranges);
        let target = toggle_at(folds, s, tree, ranges[last]);
        assert(all == match target {
            Some(Toggle::Open(fold)) => opened.push(fold),
            _ => opened,
        });
        if opened.contains(fold) {
            let i = choose|i: int|
                0 <= i < rest.len() && #[trigger] toggle_at(folds, s, tree, rest[i]) == Some(
                    Toggle::Open(fold),
                );
            assert(toggle_at(folds, s, tree, ranges[i]) == Some(Toggle::Open(fold)));
            assert(all[opened.index_of(fold)] == fold);
        } else if target == Some(Toggle::Open(fold)) {
            assert(all[opened.len() as int] == fold);
        } else {
            if all.contains(fold) {
                let k = all.index_of(fold);
                assert(opened[k] == fold);
            }
            assert forall|i: int| 0 <= i < ranges.len() implies #[trigger] toggle_at(
                folds,
                s,
                tree,
                ranges[i],
            ) != Some(Toggle::Open(fold)) by {
                if i < last {
                    assert(toggle_at(folds, s, tree, rest[i]) != Some(Toggle::Open(fold)));
                }
            }
        }
    }
}

/// Whether toggling closes `fold`, by its target: it is that, or lies in that if toggling is
/// recursive.
pub open spec fn closes(
    tree: &SyntaxTree,
    s: Seq<char>,
    target: Option<Toggle>,
    recursive: bool,
    fold: Fold,
) -> bool {
    target matches Some(Toggle::Close(region)) && (fold == region || (recursive && regions_inside(
        tree,
        s,
        region,
    ).contains(fold)))
}

/// What is closed is what toggling at one of the ranges closes, with the regions in it if toggling is
/// recursive.
#[verifier::spinoff_prover]
#[verifier::rlimit(40)]
pub proof fn law_every_range_closes_its_region(
    folds: Seq<Fold>,
    s: Seq<char>,
    tree: &SyntaxTree,
    ranges: Seq<Range>,
    recursive: bool,
    fold: Fold,
)
    ensures
        toggled_closed(folds, s, tree, ranges, recursive).contains(fold) <==> exists|i: int|
            0 <= i < ranges.len() && closes(
                tree,
                s,
                #[trigger] toggle_at(folds, s, tree, ranges[i]),
                recursive,
                fold,
            ),
    decreases ranges.len(),
{
    if ranges.len() > 0 {
        let rest = ranges.drop_last();
        law_every_range_closes_its_region(folds, s, tree, rest, recursive, fold);
        let last = ranges.len() - 1;
        let closed = toggled_closed(folds, s, tree, rest, recursive);
        let all = toggled_closed(folds, s, tree, ranges, recursive);
        let target = toggle_at(folds, s, tree, ranges[last]);
        let added = match target {
            Some(Toggle::Close(region)) => if recursive {
                seq![region] + regions_inside(tree, s, region)
            } else {
                seq![region]
            },
            _ => Seq::empty(),
        };
        assert(all =~= closed + added);
        assert(added.contains(fold) <==> closes(tree, s, target, recursive, fold)) by {
            if let Some(Toggle::Close(region)) = target {
                let inside = regions_inside(tree, s, region);
                assert(added[0] == region);
                if recursive && inside.contains(fold) {
                    assert(added[1 + inside.index_of(fold)] == fold);
                }
                if added.contains(fold) && fold != region {
                    let k = added.index_of(fold);
                    assert(inside[k - 1] == fold);
                }
            }
        }
        if closed.contains(fold) {
            let i = choose|i: int|
                0 <= i < rest.len() && closes(
                    tree,
                    s,
                    #[trigger] toggle_at(folds, s, tree, rest[i]),
                    recursive,
                    fold,
                );
            assert(closes(tree, s, toggle_at(folds, s, tree, ranges[i]), recursive, fold));
            assert(all[closed.index_of(fold)] == fold);
        } else if added.contains(fold) {
            assert(all[closed.len() + added.index_of(fold)] == fold);
        } else {
            if all.contains(fold) {
                let k = all.index_of(fold);
                if k < closed.len() {
                    assert(closed[k] == fold);
                } else {
                    assert(added[k - closed.len()] == fold);
                }
            }
            assert forall|i: int| 0 <= i < ranges.len() implies !closes(
                tree,
                s,
                #[trigger] toggle_at(folds, s, tree, ranges[i]),
                recursive,
                fold,
            ) by {
                if i < last {
                    assert(!closes(tree, s, toggle_at(folds, s, tree, rest[i]), recursive, fold));
                }
            }
        }
    }
}

/// Of the closed folds, those that are opened are not closed any more, with all folds in them if they
/// are opened recursively, and all others still are.
pub proof fn law_only_opened_folds_are_open(
    closed: Seq<Fold>,
    opened: Seq<Fold>,
    recursive: bool,
    fold: Fold,
)
    ensures
        still_closed(closed, opened, recursive).contains(fold) <==> closed.contains(fold) && forall|
            i: int,
        |
            0 <= i < opened.len() ==> !(if recursive {
                (#[trigger] opened[i]).start <= fold.start && fold.end <= opened[i].end
            } else {
                opened[i].start == fold.start && fold.end == opened[i].end
            }),
{
    let pick = if recursive {
        |fold: Fold| !exists|i: int| 0 <= i < opened.len() && encloses(#[trigger] opened[i], fold)
    } else {
        |fold: Fold| !exists|i: int| 0 <= i < opened.len() && same_text(#[trigger] opened[i], fold)
    };
    let left = still_closed(closed, opened, recursive);
    assert(left == select(closed, pick));
    crate::seqs::lemma_select(closed, pick);
    if left.contains(fold) {
        let k = left.index_of(fold);
        assert(closed.contains(left[k]) && pick(left[k]));
    }
}

/// The regions inside a region are those that reach into it and lie in it.
pub proof fn law_regions_inside_lie_in_the_region(
    tree: &SyntaxTree,
    s: Seq<char>,
    region: Fold,
    inner: Fold,
)
    ensures
        regions_inside(tree, s, region).contains(inner) <==> regions_in(
            tree,
            s,
            region.start as int,
            region.end as int,
        ).contains(inner) && region.start <= inner.start && inner.end <= region.end,
{
    let pick = |inner: Fold| encloses(region, inner);
    let all = regions_in(tree, s, region.start as int, region.end as int);
    let inside = regions_inside(tree, s, region);
    assert(inside == select(all, pick));
    crate::seqs::lemma_select(all, pick);
    if inside.contains(inner) {
        let k = inside.index_of(inner);
        assert(all.contains(inside[k]) && pick(inside[k]));
    }
}

} // verus!
