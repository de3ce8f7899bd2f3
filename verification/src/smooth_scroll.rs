//! Smooth scrolling of popups and lists.
//!
//! They keep their real scroll position; what is drawn glides towards it over a fixed duration, fast
//! at first and slowing down as it arrives. Only the drawing is animated, so commands always act on
//! the real state. Times are in nanoseconds.

use vstd::prelude::*;

verus! {

/// Minimum time between two frames of an animation, about 120 frames per second.
pub const FRAME_INTERVAL: u64 = 8_000_000;

/// The timing shared by all smooth scrolling: a movement that takes `duration` whatever its
/// distance, and slows down towards its end.
#[derive(Clone, Copy, Debug, PartialEq, Eq, Structural)]
pub struct Transition {
    pub start: u64,
    pub duration: u64,
}

/// The earliest of the times at which a step is due.
pub open spec fn first_due(next_steps: Seq<Option<u64>>) -> Option<u64>
    decreases next_steps.len(),
{
    if next_steps.len() == 0 {
        None
    } else {
        match (first_due(next_steps.drop_last()), next_steps.last()) {
            (None, due) => due,
            (due, None) => due,
            (Some(a), Some(b)) => Some(
                if a < b {
                    a
                } else {
                    b
                },
            ),
        }
    }
}

impl Transition {
    /// A transition that starts at `now`. It starts a frame early, so the frame drawn right after a
    /// key press already moves.
    pub open spec fn starting(now: u64, duration: u64) -> Transition {
        Transition {
            start: if now < FRAME_INTERVAL {
                now
            } else {
                (now - FRAME_INTERVAL) as u64
            },
            duration,
        }
    }

    /// When the transition ends.
    pub open spec fn end_time(self) -> int {
        self.start + self.duration
    }

    /// When the next frame is due, if the next step is due at `due`.
    pub open spec fn frame_at(self, now: u64, due: u64) -> int {
        let due = if due > now + FRAME_INTERVAL {
            due as int
        } else {
            now + FRAME_INTERVAL
        };
        if due < self.end_time() {
            due
        } else {
            self.end_time()
        }
    }

    pub fn new(now: u64, duration: u64) -> (transition: Transition)
        ensures
            transition == Transition::starting(now, duration),
    {
        Transition {
            start: if now < FRAME_INTERVAL {
                now
            } else {
                now - FRAME_INTERVAL
            },
            duration,
        }
    }

    pub fn end(&self) -> (end: u64)
        requires
            self.end_time() <= u64::MAX,
        ensures
            end == self.end_time(),
    {
        self.start + self.duration
    }

    pub fn is_finished(&self, now: u64) -> (finished: bool)
        ensures
            finished == (now >= self.end_time()),
    {
        now >= self.start && now - self.start >= self.duration
    }

    /// When the next frame is due, given when the next step of each moving part is due. `None`
    /// once all parts have arrived.
    pub fn next_frame(&self, now: u64, next_steps: &[Option<u64>]) -> (frame: Option<u64>)
        requires
            self.end_time() <= u64::MAX,
            now + FRAME_INTERVAL <= u64::MAX,
        ensures
            match first_due(next_steps@) {
                Some(due) => frame is Some && frame->0 == self.frame_at(now, due),
                None => frame is None,
            },
    {
        let mut first: Option<u64> = None;
        let mut i: usize = 0;
        while i < next_steps.len()
            invariant
                i <= next_steps@.len(),
                first == first_due(next_steps@.take(i as int)),
            decreases next_steps.len() - i,
        {
            assert(next_steps@.take(i + 1).drop_last() =~= next_steps@.take(i as int));
            assert(next_steps@.take(i + 1).last() == next_steps@[i as int]);
            first = match (first, next_steps[i]) {
                (None, due) => due,
                (due, None) => due,
                (Some(a), Some(b)) => Some(
                    if a < b {
                        a
                    } else {
                        b
                    },
                ),
            };
            i += 1;
        }
        assert(next_steps@.take(i as int) =~= next_steps@);
        match first {
            Some(due) => {
                let soonest: u64 = now + FRAME_INTERVAL;
                let due: u64 = if due > soonest {
                    due
                } else {
                    soonest
                };
                let end: u64 = self.end();
                Some(
                    if due < end {
                        due
                    } else {
                        end
                    },
                )
            },
            None => None,
        }
    }
}

/// Until a transition has ended, its next frame comes later than now, at its end at the latest, and
/// no sooner than the frame interval unless the end is sooner.
pub proof fn law_frames_go_on_to_the_end(transition: Transition, now: u64, due: u64)
    requires
        now < transition.end_time(),
    ensures
        now < transition.frame_at(now, due) <= transition.end_time(),
        transition.frame_at(now, due) >= now + FRAME_INTERVAL || transition.frame_at(now, due)
            == transition.end_time(),
{
}

/// The distance of two offsets.
pub open spec fn apart(a: usize, b: usize) -> usize {
    if a < b {
        (b - a) as usize
    } else {
        (a - b) as usize
    }
}

/// `from` moved by `step` towards `to`.
pub open spec fn stepped(from: usize, to: usize, step: usize) -> int {
    if to >= from {
        from + step
    } else {
        from - step
    }
}

/// The distance of two offsets.
pub fn abs_diff(a: usize, b: usize) -> (distance: usize)
    ensures
        distance == apart(a, b),
{
    if a < b {
        b - a
    } else {
        a - b
    }
}

/// Moves `from` by `step` towards `to`, not past it.
pub fn step_towards(from: usize, to: usize, step: usize) -> (at: usize)
    requires
        step <= apart(from, to),
    ensures
        at == stepped(from, to, step),
{
    if to >= from {
        from + step
    } else {
        from - step
    }
}

/// A step towards a target stays between where it came from and the target, each further step is
/// closer to the target, and the last one reaches it.
pub proof fn law_steps_approach_the_target(from: usize, to: usize, step: usize, next: usize)
    requires
        step <= next <= apart(from, to),
    ensures
        from <= to ==> from <= stepped(from, to, step) <= stepped(from, to, next) <= to,
        to <= from ==> to <= stepped(from, to, next) <= stepped(from, to, step) <= from,
        stepped(from, to, 0) == from,
        stepped(from, to, apart(from, to)) == to,
{
}

/// The offset and the visible height at a frame.
#[derive(Clone, Copy, Debug, PartialEq, Eq, Structural)]
pub struct ShownOffset {
    pub offset: usize,
    pub height: u16,
}

#[derive(Clone, Copy, Debug, PartialEq, Eq, Structural)]
pub struct OffsetAnimation {
    pub transition: Transition,
    pub from: usize,
    pub to: usize,
    /// The offset drawn last.
    pub offset: usize,
}

/// The scroll offset of a popup or list, drawn gliding towards its real value.
#[derive(Clone, Copy, Debug, PartialEq, Eq, Structural)]
pub struct SmoothOffset {
    /// The real offset and the visible height at the last frame.
    pub last: Option<ShownOffset>,
    pub animation: Option<OffsetAnimation>,
}

/// A movement: what it takes to tell how far it is.
#[derive(Clone, Copy, Debug, PartialEq, Eq, Structural)]
pub struct Motion {
    pub transition: Transition,
    /// The number of its steps.
    pub total: usize,
}

impl SmoothOffset {
    /// The animation after the real offset is told to be `offset`: it goes on as long as nothing
    /// changes. A new offset is glided to from what was drawn last, unless it is only a step away;
    /// another height or being switched off ends the gliding.
    pub open spec fn aimed(
        self,
        offset: usize,
        height: u16,
        enabled: bool,
        duration: u64,
        now: u64,
    ) -> SmoothOffset {
        SmoothOffset {
            last: Some(ShownOffset { offset, height }),
            animation: match self.last {
                Some(last) => if !enabled || last.height != height {
                    None
                } else if offset == last.offset {
                    self.animation
                } else {
                    let from = match self.animation {
                        Some(animation) => animation.offset,
                        None => last.offset,
                    };
                    if apart(from, offset) > 1 {
                        Some(
                            OffsetAnimation {
                                transition: Transition::starting(now, duration),
                                from,
                                to: offset,
                                offset: from,
                            },
                        )
                    } else {
                        None
                    }
                },
                None => None,
            },
        }
    }

    /// What is drawn once `step` steps of the movement are done, and how it goes on.
    pub open spec fn advanced(self, offset: usize, step: usize, now: u64) -> (usize, SmoothOffset) {
        match self.animation {
            Some(animation) => if step == apart(animation.from, animation.to) || now
                >= animation.transition.end_time() {
                (offset, SmoothOffset { animation: None, ..self })
            } else {
                let at = stepped(animation.from, animation.to, step) as usize;
                (
                    at,
                    SmoothOffset {
                        animation: Some(OffsetAnimation { offset: at, ..animation }),
                        ..self
                    },
                )
            },
            None => (offset, self),
        }
    }

    /// The movement going on.
    pub open spec fn motion(self) -> Option<Motion> {
        match self.animation {
            Some(animation) => Some(
                Motion {
                    transition: animation.transition,
                    total: apart(animation.from, animation.to),
                },
            ),
            None => None,
        }
    }

    pub fn new() -> (smooth: SmoothOffset)
        ensures
            smooth == (SmoothOffset { last: None, animation: None }),
    {
        SmoothOffset { last: None, animation: None }
    }

    /// Draws the next frame at the real offset right away, e.g. because the content was replaced.
    pub fn reset(&mut self)
        ensures
            *final(self) == (SmoothOffset { last: None, animation: None }),
    {
        self.last = None;
        self.animation = None;
    }

    /// Takes the real offset and the visible height of the next frame. Returns the movement to draw
    /// a part of, if there is one.
    pub fn aim(&mut self, offset: usize, height: u16, enabled: bool, duration: u64, now: u64) -> (motion:
        Option<Motion>)
        ensures
            *final(self) == old(self).aimed(offset, height, enabled, duration, now),
            motion == final(self).motion(),
    {
        let last: Option<ShownOffset> = self.last;
        self.last = Some(ShownOffset { offset, height });
        match last {
            Some(last) => {
                if !enabled || last.height != height {
                    self.animation = None;
                } else if offset != last.offset {
                    let from: usize = match self.animation {
                        Some(animation) => animation.offset,
                        None => last.offset,
                    };
                    self.animation = if abs_diff(from, offset) > 1 {
                        Some(
                            OffsetAnimation {
                                transition: Transition::new(now, duration),
                                from,
                                to: offset,
                                offset: from,
                            },
                        )
                    } else {
                        None
                    };
                }
            },
            None => {
                self.animation = None;
            },
        }
        match self.animation {
            Some(animation) => Some(
                Motion {
                    transition: animation.transition,
                    total: abs_diff(animation.from, animation.to),
                },
            ),
            None => None,
        }
    }

    /// The offset to draw when the real one is `offset` and `step` steps of the movement are done.
    pub fn advance(&mut self, offset: usize, step: usize, now: u64) -> (drawn: usize)
        requires
            old(self).motion() matches Some(motion) ==> step <= motion.total,
        ensures
            (drawn, *final(self)) == old(self).advanced(offset, step, now),
    {
        match self.animation {
            Some(animation) => {
                if step == abs_diff(animation.from, animation.to)
                    || animation.transition.is_finished(now) {
                    self.animation = None;
                    offset
                } else {
                    let at: usize = step_towards(animation.from, animation.to, step);
                    self.animation = Some(OffsetAnimation { offset: at, ..animation });
                    at
                }
            },
            None => offset,
        }
    }

    /// How many steps of the movement are drawn.
    pub fn step(&self) -> (step: usize)
        ensures
            step == match self.animation {
                Some(animation) => apart(animation.offset, animation.from),
                None => 0,
            },
    {
        match self.animation {
            Some(animation) => abs_diff(animation.offset, animation.from),
            None => 0,
        }
    }

    /// When the next frame is due, given when the next step is.
    pub fn next_frame(&self, now: u64, next_step: Option<u64>) -> (frame: Option<u64>)
        requires
            self.animation matches Some(animation) ==> animation.transition.end_time() <= u64::MAX,
            now + FRAME_INTERVAL <= u64::MAX,
        ensures
            match (self.animation, next_step) {
                (Some(animation), Some(due)) => frame is Some && frame->0
                    == animation.transition.frame_at(now, due),
                _ => frame is None,
            },
    {
        match self.animation {
            Some(animation) => {
                let steps: [Option<u64>; 1] = [next_step];
                assert(steps@ =~= seq![next_step]);
                proof {
                    reveal_with_fuel(first_due, 2);
                    assert(steps@.drop_last() =~= Seq::<Option<u64>>::empty());
                }
                animation.transition.next_frame(now, &steps)
            },
            None => None,
        }
    }
}

/// What is drawn is never further from the real offset than what the movement started from, and it
/// is the real offset once the movement has ended.
pub proof fn law_drawn_offsets_arrive(smooth: SmoothOffset, offset: usize, step: usize, now: u64)
    requires
        smooth.animation matches Some(animation) ==> animation.to == offset && step <= apart(
            animation.from,
            offset,
        ),
    ensures
        smooth.animation matches Some(animation) ==> apart(
            smooth.advanced(offset, step, now).0,
            offset,
        ) <= apart(animation.from, offset),
        smooth.animation is None ==> smooth.advanced(offset, step, now).0 == offset,
        smooth.animation matches Some(animation) && now >= animation.transition.end_time()
            ==> smooth.advanced(offset, step, now).0 == offset,
        smooth.advanced(offset, step, now).1.animation is None ==> smooth.advanced(
            offset,
            step,
            now,
        ).0 == offset,
{
}

/// The step due first is one of those that are due, and none is due before it.
pub proof fn law_the_first_step_is_due_first(next_steps: Seq<Option<u64>>)
    ensures
        match first_due(next_steps) {
            Some(due) => {
                &&& next_steps.contains(Some(due))
                &&& forall|i: int|
                    0 <= i < next_steps.len() ==> (#[trigger] next_steps[i] matches Some(other)
                        ==> due <= other)
            },
            None => forall|i: int| 0 <= i < next_steps.len() ==> #[trigger] next_steps[i] is None,
        },
    decreases next_steps.len(),
{
    if next_steps.len() > 0 {
        let rest = next_steps.drop_last();
        law_the_first_step_is_due_first(rest);
        assert forall|i: int| 0 <= i < rest.len() implies rest[i] == #[trigger] next_steps[i] by {}
        assert(next_steps[next_steps.len() - 1] == next_steps.last());
        if let Some(due) = first_due(rest) {
            assert(next_steps[rest.index_of(Some(due))] == Some(due));
        }
    }
}

/// A transition starts a frame early, and lasts as long as it is said to.
pub proof fn law_transitions_start_early(now: u64, duration: u64)
    requires
        now >= FRAME_INTERVAL,
    ensures
        Transition::starting(now, duration).start + FRAME_INTERVAL == now,
        Transition::starting(now, duration).end_time() + FRAME_INTERVAL == now + duration,
{
}

impl SmoothOffset {
    /// A new offset is glided to from what was drawn last, if it is more than a step away. Nothing
    /// glides the first time, when it is switched off, or when the height changes, and what glides to
    /// the same offset goes on.
    pub proof fn law_new_offsets_are_glided_to(
        self,
        offset: usize,
        height: u16,
        enabled: bool,
        duration: u64,
        now: u64,
    )
        ensures
            ({
                let then = self.aimed(offset, height, enabled, duration, now);
                &&& then.last == Some(ShownOffset { offset, height })
                &&& self.last is None || !enabled ==> then.animation is None
                &&& self.last matches Some(last) ==> {
                    let from = match self.animation {
                        Some(animation) => animation.offset,
                        None => last.offset,
                    };
                    let same_height = enabled && last.height == height;
                    let far = offset > from + 1 || from > offset + 1;
                    &&& last.height != height ==> then.animation is None
                    &&& same_height && offset == last.offset ==> then.animation == self.animation
                    &&& same_height && offset != last.offset && !far ==> then.animation is None
                    &&& same_height && offset != last.offset && far ==> (then.animation matches Some(
                        animation,
                    ) && animation.from == from && animation.to == offset && animation.offset == from
                        && animation.transition == Transition::starting(now, duration))
                }
            }),
    {
    }

    /// What is drawn goes one step after another from the old offset to the new one, the way that
    /// leads there.
    pub proof fn law_steps_lead_to_the_offset(self, offset: usize, step: usize, now: u64)
        requires
            self.animation matches Some(animation) && step < apart(animation.from, animation.to)
                && now < animation.transition.end_time(),
        ensures
            ({
                let animation = self.animation->0;
                let (drawn, then) = self.advanced(offset, step, now);
                &&& animation.from <= animation.to ==> drawn == animation.from + step
                &&& animation.to < animation.from ==> drawn == animation.from - step
                &&& then.animation matches Some(going_on) && going_on.offset == drawn && going_on.to
                    == animation.to && going_on.from == animation.from
            }),
    {
    }
}

} // verus!
