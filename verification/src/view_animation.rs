//! The animation of a view that scrolls smoothly, and of the selections it moves.

use crate::folds::Folds;
use crate::selection::{Direction, Range, Selection};
use crate::smooth_scroll::{abs_diff, apart, step_towards, stepped, Motion, Transition};
use crate::text::chars_of;
use crate::view_scroll::{
    magnitude, sign, signum, size, FrameKey, Movement, Path, SelectionMotion, ViewPosition, Walk,
};
use ropey::RopeSlice;
use vstd::prelude::*;

verus! {

/// How a scroll moves the selections.
#[derive(Debug)]
pub struct ScrollHint {
    /// The selection on screen before the scroll.
    pub from: Selection,
    pub motion: SelectionMotion,
}

/// How far a view has moved of all its rows, when it is walked row by row.
#[derive(Clone, Copy, Debug, PartialEq, Eq, Structural)]
pub struct ViewRows {
    pub moved: i64,
    pub total: i64,
}

#[derive(Debug)]
pub struct SelectionAnimation {
    pub motion: SelectionMotion,
    /// The selection drawn when the animation started.
    pub from: Selection,
    /// The real selection the animation ends with. Once the real selection changes, it is drawn
    /// instead.
    pub target: Selection,
    /// The selection of the last frame and the synced rows it moved.
    pub stepped: Selection,
    pub moved: i64,
    /// `stepped` fit for drawing: ranges aligned to grapheme clusters, overlapping ones merged.
    pub drawn: Selection,
}

/// What a frame does to the selections.
#[derive(Clone, Copy, Debug, PartialEq, Eq, Structural)]
pub enum SelectionStep {
    Stay,
    /// Move every range of the stepped selection by `count` visual rows.
    Move { direction: Direction, count: u64, movement: Movement, moved: i64 },
    /// Push the primary range of the first selection into view.
    Push { range: Range, direction: Direction, movement: Movement },
}

/// How far the selections have moved on their own, and of how many rows.
#[derive(Clone, Copy, Debug, PartialEq, Eq, Structural)]
pub struct Drift {
    pub step: u64,
    pub total: u64,
}

impl SelectionAnimation {
    /// The rows the selections move on their own, apart from following the view.
    pub open spec fn own_rows(&self, view_rows: Option<ViewRows>) -> int {
        match view_rows {
            Some(view) => self.motion.synced_rows() - view.total,
            None => self.motion.synced_rows(),
        }
    }

    /// The rows moved when `own` of the selections' own rows are done: in lockstep with the view, so
    /// the selections keep their place on screen, plus whatever distance the view cannot follow.
    pub open spec fn rows_moved(view_rows: Option<ViewRows>, own: i64) -> int {
        match view_rows {
            Some(view) => view.moved + own,
            None => own as int,
        }
    }

    pub fn new(hint: ScrollHint, target: Selection) -> (animation: SelectionAnimation)
        ensures
            animation.motion == hint.motion,
            animation.from == hint.from,
            animation.target == target,
            animation.stepped.is_same(&hint.from),
            animation.drawn.is_same(&hint.from),
            animation.moved == 0,
    {
        SelectionAnimation {
            motion: hint.motion,
            stepped: hint.from.copy(),
            drawn: hint.from.copy(),
            from: hint.from,
            target,
            moved: 0,
        }
    }

    /// The part of the motion that is not drawn yet.
    pub open spec fn left(&self) -> SelectionMotion {
        match self.motion {
            SelectionMotion::Synced { rows, movement } => SelectionMotion::Synced {
                rows: (rows - self.moved) as i64,
                movement,
            },
            motion => motion,
        }
    }

    pub fn remaining(&self) -> (motion: SelectionMotion)
        requires
            i64::MIN <= self.motion.synced_rows() - self.moved <= i64::MAX,
        ensures
            motion == self.left(),
    {
        match self.motion {
            SelectionMotion::Synced { rows, movement } => SelectionMotion::Synced {
                rows: rows - self.moved,
                movement,
            },
            motion => motion,
        }
    }

    /// The rows the selections move on their own, apart from following the view.
    pub fn own(&self, view_rows: Option<ViewRows>) -> (rows: i64)
        requires
            i64::MIN <= self.own_rows(view_rows) <= i64::MAX,
        ensures
            rows == self.own_rows(view_rows),
    {
        let rows: i64 = match self.motion {
            SelectionMotion::Synced { rows, .. } => rows,
            SelectionMotion::Pushed { .. } => 0,
        };
        match view_rows {
            Some(view) => rows - view.total,
            None => rows,
        }
    }

    /// What the frame does, for which `own` of the selections' own rows are done.
    pub fn plan(&self, view_rows: Option<ViewRows>, own: i64) -> (step: SelectionStep)
        requires
            self.from.wf(),
            i64::MIN <= SelectionAnimation::rows_moved(view_rows, own) <= i64::MAX,
            i64::MIN <= SelectionAnimation::rows_moved(view_rows, own) - self.moved <= i64::MAX,
        ensures
            ({
                let moved = SelectionAnimation::rows_moved(view_rows, own);
                let delta = (moved - self.moved) as i64;
                step == match self.motion {
                    SelectionMotion::Synced { movement, .. } => if delta == 0 {
                        SelectionStep::Stay
                    } else {
                        SelectionStep::Move {
                            direction: if delta > 0 {
                                Direction::Forward
                            } else {
                                Direction::Backward
                            },
                            count: size(delta) as u64,
                            movement,
                            moved: moved as i64,
                        }
                    },
                    SelectionMotion::Pushed { direction, movement } => SelectionStep::Push {
                        range: self.from@[self.from.primary_at()],
                        direction,
                        movement,
                    },
                }
            }),
    {
        match self.motion {
            SelectionMotion::Synced { movement, .. } => {
                let moved: i64 = match view_rows {
                    Some(view) => view.moved + own,
                    None => own,
                };
                let delta: i64 = moved - self.moved;
                if delta == 0 {
                    return SelectionStep::Stay;
                }
                let direction: Direction = if delta > 0 {
                    Direction::Forward
                } else {
                    Direction::Backward
                };
                SelectionStep::Move { direction, count: magnitude(delta), movement, moved }
            },
            SelectionMotion::Pushed { direction, movement } => SelectionStep::Push {
                range: self.from.primary(),
                direction,
                movement,
            },
        }
    }

    /// Takes the selection moved by a step, and makes it fit for drawing.
    pub fn take_moved(&mut self, text: RopeSlice, moved: i64, selection: Selection)
        requires
            selection.wf(),
            selection.within(chars_of(text)),
        ensures
            *final(self) == (SelectionAnimation {
                stepped: selection,
                moved,
                drawn: final(self).drawn,
                ..*old(self)
            }),
            final(self).drawn.selects(
                selection.aligned(chars_of(text)),
                selection@[selection.primary_at()].aligned(chars_of(text)),
            ),
    {
        self.drawn = selection.ensure_invariants(text);
        self.stepped = selection;
        self.moved = moved;
    }

    /// The ranges of the first selection with the primary one replaced, if it is pushed.
    pub open spec fn ranges_with(&self, pushed: Option<Range>) -> Seq<Range> {
        match pushed {
            Some(range) => self.from@.update(self.from.primary_at(), range),
            None => self.from@,
        }
    }

    /// Takes the first selection with the primary range pushed into view, if it had to be, and makes
    /// it fit for drawing.
    pub fn take_pushed(&mut self, text: RopeSlice, pushed: Option<Range>)
        requires
            old(self).from.wf(),
            old(self).from.within(chars_of(text)),
            pushed matches Some(range) ==> range.within(chars_of(text)),
        ensures
            *final(self) == (SelectionAnimation { drawn: final(self).drawn, ..*old(self) }),
            final(self).drawn.selects(
                old(self).ranges_with(pushed).map_values(
                    |range: Range| range.aligned(chars_of(text)),
                ),
                old(self).ranges_with(pushed)[old(self).from.primary_at()].aligned(chars_of(text)),
            ),
    {
        let ghost s = chars_of(text);
        let ghost align = |range: Range| range.aligned(s);
        let ghost goal = self.ranges_with(pushed).map_values(align);
        let mut ranges: Vec<Range> = Vec::new();
        let all: &Vec<Range> = self.from.ranges();
        let primary: usize = self.from.primary_index();
        let mut i: usize = 0;
        while i < all.len()
            invariant
                i <= all@.len(),
                all@ == self.from@,
                self.from.wf(),
                self.from.within(s),
                s == chars_of(text),
                pushed matches Some(range) ==> range.within(s),
                primary == self.from.primary_at(),
                align == (|range: Range| range.aligned(s)),
                goal == self.ranges_with(pushed).map_values(align),
                ranges@ == goal.take(i as int),
            decreases all.len() - i,
        {
            assert(self.from@[i as int].within(s));
            let next: Range = match pushed {
                Some(range) => if i == primary {
                    range
                } else {
                    all[i]
                },
                None => all[i],
            };
            ranges.push(next.grapheme_aligned(text));
            i += 1;
            assert(ranges@ =~= goal.take(i as int));
        }
        assert(ranges@ =~= goal);
        self.drawn = Selection::new(ranges, primary);
    }

    /// How far the selections have moved on their own, if they do so by steps.
    pub fn drift(&self, view_rows: Option<ViewRows>) -> (drift: Option<Drift>)
        requires
            i64::MIN <= self.own_rows(view_rows) <= i64::MAX,
            view_rows matches Some(view) ==> i64::MIN <= self.moved - view.moved <= i64::MAX,
        ensures
            drift == match self.motion {
                SelectionMotion::Synced { .. } => Some(
                    Drift {
                        step: size(
                            match view_rows {
                                Some(view) => (self.moved - view.moved) as i64,
                                None => self.moved,
                            },
                        ) as u64,
                        total: size(self.own_rows(view_rows) as i64) as u64,
                    },
                ),
                SelectionMotion::Pushed { .. } => None,
            },
    {
        match self.motion {
            SelectionMotion::Synced { .. } => {
                let own: i64 = self.own(view_rows);
                let moved: i64 = match view_rows {
                    Some(view) => self.moved - view.moved,
                    None => self.moved,
                };
                Some(Drift { step: magnitude(moved), total: magnitude(own) })
            },
            SelectionMotion::Pushed { .. } => None,
        }
    }
}

/// The selections end where the scroll moves them: once all rows of the view and of their own are
/// done, they have moved all of their rows.
pub proof fn law_selections_arrive(
    animation: SelectionAnimation,
    view_rows: Option<ViewRows>,
    own: i64,
)
    requires
        view_rows matches Some(view) ==> view.moved == view.total,
        own == animation.own_rows(view_rows),
    ensures
        SelectionAnimation::rows_moved(view_rows, own) == animation.motion.synced_rows(),
{
}

#[derive(Debug)]
pub struct Animation {
    pub transition: Transition,
    pub key: FrameKey,
    pub from: ViewPosition,
    pub to: ViewPosition,
    pub path: Path,
    /// The offset drawn last and how many steps of `path` it covers.
    pub offset: ViewPosition,
    pub step: usize,
    pub selection: Option<SelectionAnimation>,
}

/// What a frame of an animation takes: the column to draw from, and a walk to the first row.
#[derive(Clone, Copy, Debug, PartialEq, Eq, Structural)]
pub struct FramePlan {
    pub horizontal_offset: usize,
    pub walk: Walk,
}

impl Animation {
    /// The path and the step of it that is drawn fit together.
    pub open spec fn wf(&self) -> bool {
        &&& self.path.wf()
        &&& self.path.length() <= i64::MAX
        &&& self.step <= self.path.length()
    }

    /// The columns to scroll.
    pub open spec fn column_count(&self) -> usize {
        apart(self.from.horizontal_offset, self.to.horizontal_offset)
    }

    /// An animation of the way `path`, unless that is only a step.
    pub fn new(
        key: FrameKey,
        from: ViewPosition,
        to: ViewPosition,
        path: Path,
        hint: Option<ScrollHint>,
        target: Selection,
        duration: u64,
        now: u64,
    ) -> (animation: Option<Animation>)
        requires
            path.wf(),
            path.length() <= i64::MAX,
        ensures
            animation is None <==> path.length() <= 1 && apart(
                from.horizontal_offset,
                to.horizontal_offset,
            ) <= 1,
            animation matches Some(animation) ==> {
                &&& animation.wf()
                &&& animation == (Animation {
                    transition: Transition::starting(now, duration),
                    key,
                    from,
                    to,
                    path,
                    offset: from,
                    step: 0,
                    selection: animation.selection,
                })
                &&& match hint {
                    Some(hint) => {
                        &&& animation.selection matches Some(selection)
                        &&& selection.motion == hint.motion
                        &&& selection.from == hint.from
                        &&& selection.target == target
                        &&& selection.stepped.is_same(&hint.from)
                        &&& selection.drawn.is_same(&hint.from)
                        &&& selection.moved == 0
                    },
                    None => animation.selection is None,
                }
            },
    {
        let columns: usize = abs_diff(from.horizontal_offset, to.horizontal_offset);
        if path.len() <= 1 && columns <= 1 {
            return None;
        }
        let selection: Option<SelectionAnimation> = match hint {
            Some(hint) => Some(SelectionAnimation::new(hint, target)),
            None => None,
        };
        Some(
            Animation {
                transition: Transition::new(now, duration),
                key,
                from,
                to,
                path,
                offset: from,
                step: 0,
                selection,
            },
        )
    }

    /// The movement along the path.
    pub fn rows_motion(&self) -> (motion: Motion)
        requires
            self.wf(),
        ensures
            motion.transition == self.transition,
            motion.total == self.path.length(),
    {
        Motion { transition: self.transition, total: self.path.len() }
    }

    /// The movement over the columns.
    pub fn columns_motion(&self) -> (motion: Motion)
        ensures
            motion == (Motion { transition: self.transition, total: self.column_count() }),
    {
        Motion {
            transition: self.transition,
            total: abs_diff(self.from.horizontal_offset, self.to.horizontal_offset),
        }
    }

    /// What the frame takes at which `column_step` columns and `step` steps of the path are done.
    pub fn plan(&self, text: RopeSlice, folds: &Folds, column_step: usize, step: usize) -> (plan:
        FramePlan)
        requires
            self.wf(),
            folds.valid(chars_of(text)),
            column_step <= self.column_count(),
            step <= self.path.length(),
            self.path matches Path::Far { start_row, lines, .. } ==> start_row + size(lines)
                <= usize::MAX,
        ensures
            plan.horizontal_offset == stepped(
                self.from.horizontal_offset,
                self.to.horizontal_offset,
                column_step,
            ),
            plan.walk == self.path.walk_between(
                chars_of(text),
                *folds,
                self.offset,
                self.step as int,
                step as int,
            ),
    {
        let horizontal_offset: usize = step_towards(
            self.from.horizontal_offset,
            self.to.horizontal_offset,
            column_step,
        );
        let walk: Walk = self.path.walk(text, folds, self.offset, self.step, step);
        FramePlan { horizontal_offset, walk }
    }

    /// The rows the view has moved at the step `step`.
    pub open spec fn rows_at(&self, step: int) -> Option<ViewRows> {
        match self.path {
            Path::Rows(rows) => Some(
                ViewRows { moved: (sign(rows) * step) as i64, total: rows },
            ),
            Path::Far { .. } => None,
        }
    }

    /// Moves to the frame at the step `step`, whose first row was found at `anchor` and
    /// `vertical_offset`. Once the real selection is another one than the animation ends with, it
    /// is drawn instead. Returns the rows the view has moved.
    pub fn reach(
        &mut self,
        plan: FramePlan,
        step: usize,
        anchor: usize,
        vertical_offset: usize,
        selected: &Selection,
    ) -> (view_rows: Option<ViewRows>)
        requires
            old(self).wf(),
            step <= old(self).path.length(),
        ensures
            final(self).wf(),
            *final(self) == (Animation {
                offset: ViewPosition {
                    anchor,
                    vertical_offset,
                    horizontal_offset: plan.horizontal_offset,
                },
                step,
                selection: match old(self).selection {
                    Some(selection) => if selected.is_same(&selection.target) {
                        Some(selection)
                    } else {
                        None
                    },
                    None => None,
                },
                ..*old(self)
            }),
            view_rows == old(self).rows_at(step as int),
    {
        let reached: ViewPosition = plan.walk.reached(anchor, vertical_offset);
        self.offset = ViewPosition { horizontal_offset: plan.horizontal_offset, ..reached };
        self.step = step;
        let stale: bool = match &self.selection {
            Some(selection) => !selected.same(&selection.target),
            None => false,
        };
        if stale {
            self.selection = None;
        }
        match self.path {
            Path::Rows(rows) => {
                let s: i64 = signum(rows);
                let moved: i64 = if s > 0 {
                    step as i64
                } else if s < 0 {
                    -(step as i64)
                } else {
                    0
                };
                assert(moved == sign(rows) * step) by (nonlinear_arith)
                    requires
                        sign(rows) == 1 && moved == step || sign(rows) == -1 && moved == -step
                            || sign(rows) == 0 && moved == 0,
                ;
                Some(ViewRows { moved, total: rows })
            },
            Path::Far { .. } => None,
        }
    }
}

/// The last frame of a path walked row by row is where all its rows are done, at the column of the
/// target.
pub proof fn law_views_arrive(animation: Animation)
    requires
        animation.wf(),
    ensures
        animation.rows_at(animation.path.length()) matches Some(view) ==> view.moved == view.total,
        stepped(
            animation.from.horizontal_offset,
            animation.to.horizontal_offset,
            animation.column_count(),
        ) == animation.to.horizontal_offset,
{
    match animation.path {
        Path::Rows(rows) => {
            crate::view_scroll::law_walks_add_up(rows, 0, 0, 0);
        },
        _ => {},
    }
}

/// A view's offset at a frame.
#[derive(Clone, Copy, Debug, PartialEq, Eq, Structural)]
pub struct Shown {
    pub key: FrameKey,
    pub offset: ViewPosition,
}

/// A view's smooth scrolling: what the last frame showed, and the animation from there to the
/// view's real offset.
#[derive(Debug)]
pub struct SmoothScroll {
    pub last: Option<Shown>,
    /// How scrolling moved the selections since the last frame.
    pub hint: Option<ScrollHint>,
    pub animation: Option<Animation>,
}

/// A document and how often it and its folds changed.
#[derive(Clone, Copy, Debug, PartialEq, Eq, Structural)]
pub struct DocState {
    pub doc: usize,
    pub version: i32,
    pub folds: usize,
}

/// A new way for a view to go.
#[derive(Debug)]
pub struct NewWay {
    pub from: ViewPosition,
    pub hint: Option<ScrollHint>,
}

impl SmoothScroll {
    /// Whether the animation is drawn for the document as it is.
    pub open spec fn is_current(&self, state: DocState) -> bool {
        &&& self.animation matches Some(animation)
        &&& animation.key.doc == state.doc
        &&& animation.key.version == state.version
        &&& animation.key.folds == state.folds
    }

    pub fn new() -> (scroll: SmoothScroll)
        ensures
            scroll.last is None,
            scroll.hint is None,
            scroll.animation is None,
    {
        SmoothScroll { last: None, hint: None, animation: None }
    }

    /// The animation drawn for the document in the view, unless the document or its folds changed
    /// since the last frame.
    pub fn current(&self, state: DocState) -> (animation: Option<&Animation>)
        ensures
            match animation {
                Some(animation) => self.is_current(state) && *animation == self.animation->0,
                None => !self.is_current(state),
            },
    {
        match &self.animation {
            Some(animation) => if animation.key.doc == state.doc && animation.key.version
                == state.version && animation.key.folds == state.folds {
                Some(animation)
            } else {
                None
            },
            None => None,
        }
    }

    pub fn offset(&self, state: DocState) -> (offset: Option<ViewPosition>)
        ensures
            offset == if self.is_current(state) {
                Some(self.animation->0.offset)
            } else {
                None
            },
    {
        match self.current(state) {
            Some(animation) => Some(animation.offset),
            None => None,
        }
    }

    pub fn selection(&self, state: DocState) -> (selection: Option<&Selection>)
        ensures
            match selection {
                Some(selection) => self.is_current(state) && self.animation->0.selection is Some
                    && *selection == self.animation->0.selection->0.drawn,
                None => !self.is_current(state) || self.animation->0.selection is None,
            },
    {
        match self.current(state) {
            Some(animation) => match &animation.selection {
                Some(selection) => Some(&selection.drawn),
                None => None,
            },
            None => None,
        }
    }

    pub fn is_animating(&self, state: DocState) -> (is: bool)
        ensures
            is == self.is_current(state),
    {
        self.current(state).is_some()
    }

    /// What of the motion going on is left to be drawn.
    pub open spec fn motion_left(&self, state: DocState) -> Option<SelectionMotion> {
        if self.is_current(state) && self.animation->0.selection is Some {
            Some(self.animation->0.selection->0.left())
        } else {
            None
        }
    }

    /// The motion that one by `motion` follows: that of a scroll since the last frame, or else what
    /// is left of the one going on.
    pub open spec fn earlier_motion(&self, state: DocState) -> Option<SelectionMotion> {
        match self.hint {
            Some(pending) => Some(pending.motion),
            None => self.motion_left(state),
        }
    }

    /// Records that scrolling moves the selections by `motion`, `drawn` being the selection on
    /// screen. With several scrolls since the last frame, the screen still shows the first one's
    /// start.
    pub fn hint(&mut self, drawn: Selection, motion: SelectionMotion, state: DocState)
        requires
            old(self).animation matches Some(animation) ==> (animation.selection matches Some(
                selection,
            ) ==> i64::MIN <= selection.motion.synced_rows() - selection.moved <= i64::MAX),
            old(self).earlier_motion(state) matches Some(earlier) ==> i64::MIN
                <= earlier.synced_rows() + motion.synced_rows() <= i64::MAX,
        ensures
            *final(self) == (SmoothScroll {
                hint: Some(
                    ScrollHint {
                        from: match old(self).hint {
                            Some(pending) => pending.from,
                            None => drawn,
                        },
                        motion: motion.following(old(self).earlier_motion(state)),
                    },
                ),
                ..*old(self)
            }),
    {
        let hint: ScrollHint = match self.hint.take() {
            Some(pending) => ScrollHint {
                from: pending.from,
                motion: motion.after(Some(pending.motion)),
            },
            None => {
                let remaining: Option<SelectionMotion> = match self.current(state) {
                    Some(animation) => match &animation.selection {
                        Some(selection) => Some(selection.remaining()),
                        None => None,
                    },
                    None => None,
                };
                ScrollHint { from: drawn, motion: motion.after(remaining) }
            },
        };
        self.hint = Some(hint);
    }

    /// Takes what the next frame depends on and the real offset. Returns the new way to go, if the
    /// view was scrolled; the animation along it replaces the one going on.
    pub fn aim(&mut self, enabled: bool, hide_cursor: bool, key: FrameKey, offset: ViewPosition) -> (way:
        Option<NewWay>)
        ensures
            final(self).hint is None,
            if !enabled {
                way is None && final(self).last is None && final(self).animation is None
            } else {
                &&& final(self).last == Some(Shown { key, offset })
                &&& match old(self).last {
                    Some(last) => if last.key != key {
                        way is None && final(self).animation is None
                    } else if offset == last.offset {
                        way is None && final(self).animation == old(self).animation
                    } else {
                        &&& final(self).animation == old(self).animation
                        &&& way == Some(
                            NewWay {
                                from: match old(self).animation {
                                    Some(animation) => animation.offset,
                                    None => last.offset,
                                },
                                hint: if hide_cursor {
                                    None
                                } else {
                                    old(self).hint
                                },
                            },
                        )
                    },
                    None => way is None && final(self).animation is None,
                }
            },
    {
        let hint: Option<ScrollHint> = self.hint.take();
        if !enabled {
            self.last = None;
            self.animation = None;
            return None;
        }
        let last: Option<Shown> = self.last;
        self.last = Some(Shown { key, offset });
        match last {
            Some(last) => {
                if last.key != key {
                    self.animation = None;
                    None
                } else if offset == last.offset {
                    None
                } else {
                    let from: ViewPosition = match &self.animation {
                        Some(animation) => animation.offset,
                        None => last.offset,
                    };
                    let hint: Option<ScrollHint> = if hide_cursor {
                        None
                    } else {
                        hint
                    };
                    Some(NewWay { from, hint })
                }
            },
            None => {
                self.animation = None;
                None
            },
        }
    }

    /// Ends the animation once no frame is due any more.
    pub fn finish(&mut self, next_frame: Option<u64>)
        ensures
            *final(self) == (SmoothScroll {
                animation: if next_frame is None {
                    None
                } else {
                    old(self).animation
                },
                ..*old(self)
            }),
    {
        if next_frame.is_none() {
            self.animation = None;
        }
    }
}

/// A frame is only drawn for the document as it was animated: after an edit, or after folds were
/// opened or closed, the view is drawn at its real offset.
pub proof fn law_stale_frames_are_not_drawn(scroll: SmoothScroll, state: DocState)
    requires
        scroll.animation matches Some(animation) ==> animation.key.doc != state.doc
            || animation.key.version != state.version || animation.key.folds != state.folds,
    ensures
        !scroll.is_current(state),
{
}

impl SelectionAnimation {
    /// What is left of a motion are the rows that are not drawn yet, the same way.
    pub proof fn law_motions_have_rows_left(self, rows: i64, movement: Movement)
        requires
            self.motion == (SelectionMotion::Synced { rows, movement }),
            i64::MIN <= rows - self.moved <= i64::MAX,
        ensures
            self.left().synced_rows() + self.moved == rows,
            self.left() matches SelectionMotion::Synced { movement: left, .. } && left == movement,
    {
    }

    /// The rows that the selections move on their own are those that the view does not, and they are
    /// drawn where the view and their own rows take them.
    pub proof fn law_selections_follow_the_view(self, view: ViewRows, own: i64)
        ensures
            self.own_rows(Some(view)) + view.total == self.motion.synced_rows(),
            self.own_rows(None) == self.motion.synced_rows(),
            SelectionAnimation::rows_moved(Some(view), own) == view.moved + own,
            SelectionAnimation::rows_moved(None, own) == own,
    {
    }

    /// A push replaces the primary range and no other.
    pub proof fn law_only_the_primary_range_is_pushed(self, range: Range, i: int)
        requires
            0 <= self.from.primary_at() < self.from@.len(),
            0 <= i < self.from@.len(),
        ensures
            self.ranges_with(None) == self.from@,
            self.ranges_with(Some(range)).len() == self.from@.len(),
            i == self.from.primary_at() ==> self.ranges_with(Some(range))[i] == range,
            i != self.from.primary_at() ==> self.ranges_with(Some(range))[i] == self.from@[i],
    {
    }
}

impl SmoothScroll {
    /// A motion follows that of a scroll since the last frame, or else what is left of the one that is
    /// going on in the document as it is, or else none.
    pub proof fn law_motions_follow_the_latest(self, state: DocState)
        ensures
            self.hint matches Some(hint) ==> self.earlier_motion(state) == Some(hint.motion),
            self.hint is None && (self.animation matches Some(animation) && animation.key.doc
                == state.doc && animation.key.version == state.version && animation.key.folds
                == state.folds && animation.selection is Some) ==> self.earlier_motion(state) == Some(
                self.animation->0.selection->0.left(),
            ),
            self.hint is None && self.animation is None ==> self.earlier_motion(state) is None,
    {
    }
}

} // verus!
