//! Smooth scrolling, in a view of a text whose lines are not wrapped.

use helix_views::fold::Fold;
use helix_views::folds::Folds;
use helix_views::rect::Rect;
use helix_views::selection::{Direction, Range, Selection};
use helix_views::smooth_scroll::{
    abs_diff, step_towards, SmoothOffset, Transition, FRAME_INTERVAL,
};
use helix_views::view_animation::{Animation, DocState, SelectionStep, SmoothScroll};
use helix_views::view_scroll::{
    measure, FrameKey, Movement, Path, SelectionMotion, ViewPosition,
};
use ropey::Rope;

const MILLISECOND: u64 = 1_000_000;
const DURATION: u64 = 100 * MILLISECOND;
const NOW: u64 = 1_000_000 * MILLISECOND;
const SCROLLOFF: usize = 5;

/// How many of a movement's `total` steps are done at `now`: fast at first, slowing down.
fn steps(transition: &Transition, now: u64, total: usize) -> usize {
    let time = now.saturating_sub(transition.start) as f64 / transition.duration as f64;
    let progress = 1.0 - (1.0 - time.min(1.0)).powi(3);
    ((total as f64 * progress).round() as usize).min(total)
}

/// When the step after `step` is due.
fn next_step(transition: &Transition, step: usize, total: usize) -> Option<u64> {
    (step < total).then(|| {
        let progress = (step as f64 + 0.5) / total as f64;
        let time = 1.0 - (1.0 - progress).cbrt();
        transition.start + (transition.duration as f64 * time).round() as u64
    })
}

/// A document of numbered lines, shown in a view with 20 rows of text.
struct View {
    text: Rope,
    folds: Folds,
    version: i32,
    area: Rect,
    enabled: bool,
    hide_cursor: bool,
    offset: ViewPosition,
    selection: Selection,
    scroll: SmoothScroll,
}

impl View {
    fn new(lines: usize, enabled: bool, hide_cursor: bool) -> View {
        let text: String = (0..lines).map(|line| format!("line {line}\n")).collect();
        View {
            text: Rope::from(text),
            folds: Folds::default(),
            version: 0,
            area: Rect::new(0, 0, 80, 20),
            enabled,
            hide_cursor,
            offset: ViewPosition {
                anchor: 0,
                vertical_offset: 0,
                horizontal_offset: 0,
            },
            selection: Selection::point(0),
            scroll: SmoothScroll::new(),
        }
    }

    fn state(&self) -> DocState {
        DocState {
            doc: 1,
            version: self.version,
            folds: self.folds.revision(),
        }
    }

    fn key(&self) -> FrameKey {
        FrameKey {
            doc: 1,
            version: self.version,
            area: self.area,
            soft_wrap: false,
            folds: self.folds.revision(),
        }
    }

    fn row(&self, anchor: usize) -> usize {
        self.folds
            .row(self.text.slice(..), self.text.char_to_line(anchor))
    }

    /// The start of the row that is `rows` rows below that of `anchor`, above if negative.
    fn row_at(&self, anchor: usize, rows: i64) -> usize {
        let last = self.row(self.text.len_chars()) as i64;
        let row = (self.row(anchor) as i64 + rows).clamp(0, last);
        let line = self.folds.row_start(self.text.slice(..), row as usize);
        self.text.line_to_char(line)
    }

    fn path(&self, from: ViewPosition, to: ViewPosition) -> Path {
        let measure = measure(from, to, self.area.height as usize);
        let distance = self.row(measure.bottom.anchor) - self.row(measure.top.anchor);
        match measure.near((distance <= measure.limit).then_some(distance)) {
            Ok(path) => path,
            Err(rows) => {
                let anchor = self.row_at(to.anchor, -rows);
                Path::far(self.text.slice(..), &self.folds, from, to, rows, anchor, 0)
            }
        }
    }

    /// Advances to the frame drawn at `now` and returns when the next frame is due.
    fn update(&mut self, now: u64) -> Option<u64> {
        let key = self.key();
        let way = self
            .scroll
            .aim(self.enabled, self.hide_cursor, key, self.offset);
        if let Some(way) = way {
            let path = self.path(way.from, self.offset);
            let target = self.selection.copy();
            let (from, to) = (way.from, self.offset);
            self.scroll.animation =
                Animation::new(key, from, to, path, way.hint, target, DURATION, now);
        }
        let animation = self.scroll.animation.take();
        let next_frame = animation.and_then(|animation| self.advance(animation, now));
        self.scroll.finish(next_frame);
        next_frame
    }

    fn advance(&mut self, mut animation: Animation, now: u64) -> Option<u64> {
        let transition = animation.transition;
        if transition.is_finished(now) {
            return None;
        }
        let columns = animation.columns_motion().total;
        let column_step = steps(&transition, now, columns);
        let rows = animation.rows_motion().total;
        let step = steps(&transition, now, rows);
        let plan = animation.plan(self.text.slice(..), &self.folds, column_step, step);
        let anchor = self.row_at(plan.walk.from.anchor, plan.walk.rows);
        let view_rows = animation.reach(plan, step, anchor, 0, &self.selection);
        let offset = animation.offset;
        let mut selection_step = None;
        if let Some(selection) = &mut animation.selection {
            let own = selection.own(view_rows);
            let done = steps(&transition, now, own.unsigned_abs() as usize) as i64;
            match selection.plan(view_rows, own.signum() * done) {
                SelectionStep::Stay => {}
                SelectionStep::Move {
                    direction,
                    count,
                    moved,
                    ..
                } => {
                    let rows = match direction {
                        Direction::Forward => count as i64,
                        Direction::Backward => -(count as i64),
                    };
                    let head = self.row_at(selection.stepped.primary().head, rows);
                    let stepped = Selection::point(head);
                    selection.take_moved(self.text.slice(..), moved, stepped);
                }
                SelectionStep::Push { range, .. } => {
                    let margin = self.row_at(offset.anchor, SCROLLOFF as i64);
                    let pushed = (range.head < margin).then(|| Range::point(margin));
                    selection.take_pushed(self.text.slice(..), pushed);
                }
            }
            selection_step = selection.drift(view_rows).and_then(|drift| {
                next_step(&transition, drift.step as usize, drift.total as usize)
            });
        }
        let next_steps = [
            next_step(&transition, step, rows),
            next_step(&transition, column_step, columns),
            selection_step,
        ];
        let next_frame = transition.next_frame(now, &next_steps);
        self.scroll.animation = Some(animation);
        next_frame
    }

    fn render_offset(&self) -> ViewPosition {
        self.scroll.offset(self.state()).unwrap_or(self.offset)
    }

    fn render_selection(&self) -> &Selection {
        self.scroll
            .selection(self.state())
            .unwrap_or(&self.selection)
    }

    fn draws_selection(&self) -> bool {
        self.render_selection().same(&self.selection)
    }

    fn top_line(&self) -> usize {
        self.text.char_to_line(self.render_offset().anchor)
    }

    fn cursor_line(&self) -> usize {
        self.text
            .char_to_line(self.render_selection().primary().head)
    }

    fn scroll_to_line(&mut self, line: usize) {
        self.offset.anchor = self.text.line_to_char(line);
    }

    fn select_line(&mut self, line: usize) {
        self.selection = Selection::point(self.text.line_to_char(line));
    }

    /// Scrolls `rows` rows down, with the cursor or pushing it along.
    fn scroll_down(&mut self, rows: usize, sync_cursor: bool) {
        let drawn = self.render_selection().copy();
        let movement = Movement::Move;
        let motion = if sync_cursor {
            SelectionMotion::Synced {
                rows: rows as i64,
                movement,
            }
        } else {
            SelectionMotion::Pushed {
                direction: Direction::Forward,
                movement,
            }
        };
        let state = self.state();
        self.scroll.hint(drawn, motion, state);
        self.offset.anchor = self.row_at(self.offset.anchor, rows as i64);
        let head = self.selection.primary().head;
        let head = if sync_cursor {
            self.row_at(head, rows as i64)
        } else {
            head.max(self.row_at(self.offset.anchor, SCROLLOFF as i64))
        };
        self.selection = Selection::point(head);
    }

    /// Draws frames until the animation ends, returning `frame` of each.
    fn frames<T>(&mut self, now: u64, frame: impl Fn(&View) -> T) -> Vec<T> {
        let mut next_frame = self.update(now);
        let mut frames = vec![frame(self)];
        while let Some(deadline) = next_frame {
            next_frame = self.update(deadline);
            frames.push(frame(self));
        }
        frames
    }

    /// Folds the lines after `header` up to and including the start of `last`.
    fn fold_lines(&mut self, header: usize, last: usize) {
        let text = self.text.slice(..);
        let region = text.line_to_char(header)..text.line_to_char(last) + 1;
        self.folds
            .close(Fold::from_region(text, region, None).into_iter().collect());
    }

    fn edit(&mut self) {
        self.text.insert(0, "x");
        self.version += 1;
    }
}

/// The offset to draw, as a list with `offset` gives it.
fn drawn(smooth: &mut SmoothOffset, offset: usize, height: u16, enabled: bool, now: u64) -> usize {
    let motion = smooth.aim(offset, height, enabled, DURATION, now);
    let step = motion.map_or(0, |motion| steps(&motion.transition, now, motion.total));
    smooth.advance(offset, step, now)
}

fn next_frame(smooth: &SmoothOffset, now: u64) -> Option<u64> {
    let next = smooth.animation.and_then(|animation| {
        let total = abs_diff(animation.from, animation.to);
        next_step(&animation.transition, smooth.step(), total)
    });
    smooth.next_frame(now, next)
}

#[test]
fn smooth_offset_glides_to_a_new_offset() {
    let mut offset = SmoothOffset::new();
    // nothing to glide from on the first frame, and single rows snap
    assert_eq!(drawn(&mut offset, 0, 20, true, NOW), 0);
    assert_eq!(drawn(&mut offset, 1, 20, true, NOW), 1);
    assert_eq!(next_frame(&offset, NOW), None);

    let drawn: Vec<_> = [0, 10, 20, 40, 60, 80, 99, 100]
        .into_iter()
        .map(|ms| drawn(&mut offset, 31, 20, true, NOW + ms * MILLISECOND))
        .collect();
    assert!(drawn[0] > 1 && drawn[0] < 31, "{drawn:?}");
    assert!(
        drawn.windows(2).all(|drawn| drawn[0] <= drawn[1]),
        "{drawn:?}"
    );
    assert_eq!(drawn.last(), Some(&31));
    assert_eq!(next_frame(&offset, NOW + DURATION), None);
}

#[test]
fn smooth_offset_snaps() {
    let mut offset = SmoothOffset::new();
    drawn(&mut offset, 0, 20, true, NOW);
    // the visible height changed
    assert_eq!(drawn(&mut offset, 30, 10, true, NOW), 30);
    // the content was replaced
    offset.reset();
    assert_eq!(drawn(&mut offset, 0, 10, true, NOW), 0);
    // disabled
    assert_eq!(drawn(&mut offset, 30, 10, false, NOW), 30);
}

#[test]
fn smooth_offset_turns_back_where_it_is_drawn() {
    let mut offset = SmoothOffset::new();
    drawn(&mut offset, 0, 20, true, NOW);
    let at = drawn(&mut offset, 40, 20, true, NOW);
    assert!(at > 0 && at < 40);
    let frame = next_frame(&offset, NOW).unwrap();
    assert!(frame >= NOW + FRAME_INTERVAL && frame < NOW + DURATION);
    let back = drawn(&mut offset, 0, 20, true, frame);
    assert!(back < at, "{back} is on the way from {at} to the start");
    assert_eq!(offset.animation.map(|animation| animation.from), Some(at));
}

#[test]
fn transitions_start_a_frame_early() {
    let transition = Transition::new(NOW, DURATION);
    assert_eq!(transition.start, NOW - FRAME_INTERVAL);
    assert_eq!(transition.end(), NOW - FRAME_INTERVAL + DURATION);
    assert!(!transition.is_finished(transition.end() - 1));
    assert!(transition.is_finished(transition.end()));
    // close to the beginning of time there is no earlier frame
    assert_eq!(Transition::new(3, DURATION).start, 3);
    // no frame sooner than the interval, none later than the end
    let due = |steps: &[Option<u64>]| transition.next_frame(NOW, steps);
    assert_eq!(due(&[None, None]), None);
    assert_eq!(due(&[Some(NOW + 1), None]), Some(NOW + FRAME_INTERVAL));
    assert_eq!(
        due(&[Some(NOW + DURATION), Some(NOW + 20 * MILLISECOND)]),
        Some(NOW + 20 * MILLISECOND)
    );
    assert_eq!(due(&[Some(NOW + DURATION)]), Some(transition.end()));
}

#[test]
fn steps_go_towards_the_target() {
    assert_eq!(step_towards(3, 10, 4), 7);
    assert_eq!(step_towards(10, 3, 4), 6);
    assert_eq!((abs_diff(3, 10), abs_diff(10, 3)), (7, 7));
    assert_eq!(step_towards(10, 3, abs_diff(10, 3)), 3);
}

#[test]
fn view_glides_to_its_new_offset() {
    for target in [12, 300] {
        let mut view = View::new(500, true, false);
        assert_eq!(view.update(NOW), None);

        view.scroll_to_line(target);
        let lines = view.frames(NOW, View::top_line);
        assert!(lines.len() > 2, "{lines:?}");
        assert!(lines[0] > 0, "the first frame moves: {lines:?}");
        assert!(
            lines.windows(2).all(|lines| lines[0] <= lines[1]),
            "{lines:?}"
        );
        assert_eq!(lines.last(), Some(&target));
        assert_eq!(view.render_offset(), view.offset);

        // and back, gliding the other way
        view.scroll_to_line(0);
        let lines = view.frames(NOW + DURATION, View::top_line);
        assert!(
            lines.windows(2).all(|lines| lines[0] >= lines[1]),
            "{lines:?}"
        );
        assert_eq!(lines.last(), Some(&0));
    }
}

#[test]
fn view_glides_horizontally() {
    let mut view = View::new(10, true, false);
    view.update(NOW);

    view.offset.horizontal_offset = 50;
    let columns = view.frames(NOW, |view| view.render_offset().horizontal_offset);
    assert!(columns.windows(2).all(|columns| columns[0] <= columns[1]));
    assert!(columns[0] > 0 && columns[0] < 50, "{columns:?}");
    assert_eq!(columns.last(), Some(&50));
}

#[test]
fn view_snaps() {
    // a single row
    let mut view = View::new(500, true, false);
    view.update(NOW);
    view.scroll_to_line(1);
    assert_eq!(view.update(NOW), None);
    assert_eq!(view.top_line(), 1);

    // the document was edited
    view.scroll_to_line(100);
    view.edit();
    view.scroll_to_line(100);
    assert_eq!(view.update(NOW), None);
    assert_eq!(view.top_line(), 100);

    // the view was resized
    view.scroll_to_line(0);
    view.area = Rect::new(0, 0, 80, 30);
    assert_eq!(view.update(NOW), None);
    assert_eq!(view.top_line(), 0);

    // smooth scrolling is disabled
    let mut view = View::new(500, false, false);
    view.update(NOW);
    view.scroll_to_line(100);
    assert_eq!(view.update(NOW), None);
    assert_eq!(view.top_line(), 100);
}

#[test]
fn synced_scroll_keeps_the_cursor_on_its_screen_row() {
    let mut view = View::new(500, true, false);
    view.select_line(8);
    view.update(NOW);

    view.scroll_down(10, true);
    let rows = view.frames(NOW, |view| view.cursor_line() - view.top_line());
    assert!(rows.len() > 2, "{rows:?}");
    assert!(rows.iter().all(|&row| row == 8), "{rows:?}");
    assert!(view.draws_selection());
    assert_eq!(view.cursor_line(), 18);
}

#[test]
fn synced_scroll_drifts_smoothly_where_the_view_cannot_follow() {
    let mut view = View::new(500, true, false);
    view.update(NOW);

    // At the start of the document, keeping the cursor out of the scrolloff margin afterwards
    // moves the view back, so the cursor ends up lower on screen.
    view.scroll_down(10, true);
    view.scroll_to_line(10 - SCROLLOFF);
    let rows = view.frames(NOW, |view| view.cursor_line() - view.top_line());
    assert!(rows.windows(2).all(|rows| rows[0] <= rows[1]), "{rows:?}");
    assert_eq!(rows.last(), Some(&SCROLLOFF));
    assert!(view.draws_selection());
}

#[test]
fn pushed_scroll_keeps_the_cursor_within_the_margin() {
    let mut view = View::new(500, true, false);
    view.select_line(8);
    view.update(NOW);

    view.scroll_down(20, false);
    let frames = view.frames(NOW, |view| (view.top_line(), view.cursor_line()));
    for &(top, cursor) in &frames {
        // the cursor keeps its line until the margin reaches it, then rides the margin
        assert_eq!(cursor, (top + SCROLLOFF).max(8), "{frames:?}");
    }
    assert_eq!(frames.last(), Some(&(20, 25)));
    assert!(view.draws_selection());
}

#[test]
fn real_selection_change_is_drawn_at_once() {
    let mut view = View::new(500, true, false);
    view.update(NOW);
    view.scroll_down(10, true);
    view.update(NOW);
    assert!(!view.draws_selection());

    view.select_line(15);
    assert!(view.update(NOW).is_some());
    assert!(view.draws_selection());
}

#[test]
fn stale_frames_are_not_drawn() {
    let mut view = View::new(500, true, true);
    view.update(NOW);
    view.scroll_to_line(100);
    view.update(NOW);
    assert_ne!(view.render_offset(), view.offset);
    assert!(view.scroll.is_animating(view.state()));

    // a new split has not drawn anything yet
    assert_eq!(SmoothScroll::new().offset(view.state()), None);

    // an edit before the next frame
    view.edit();
    assert_eq!(view.render_offset(), view.offset);
    assert!(!view.scroll.is_animating(view.state()));
}

#[test]
fn view_snaps_when_folds_change() {
    let mut view = View::new(500, true, false);
    view.update(NOW);
    view.scroll_to_line(300);
    view.update(NOW);
    assert_ne!(view.render_offset(), view.offset);

    // a fold changes the layout under the animation, so its frames are stale
    view.fold_lines(10, 20);
    assert_eq!(view.render_offset(), view.offset);
    assert_eq!(view.update(NOW), None);
    assert_eq!(view.top_line(), 300);
}

#[test]
fn view_glides_across_folds_row_by_row() {
    let mut view = View::new(2000, true, false);
    view.fold_lines(0, 1900);
    view.update(NOW);

    view.scroll_to_line(1960);
    let rows = view.frames(NOW, |view| view.row(view.render_offset().anchor));
    // no frame lands inside the fold and every frame moves, rather than stalling on the lines
    // the fold hides
    assert!(rows.windows(2).all(|rows| rows[0] < rows[1]), "{rows:?}");
    assert_eq!(rows.last(), Some(&60));
    assert_eq!(view.top_line(), 1960);
}

#[test]
fn scrolls_since_the_last_frame_add_up() {
    let mut view = View::new(500, true, false);
    view.select_line(8);
    view.update(NOW);
    view.scroll_down(10, true);
    view.scroll_down(5, true);
    let hint = view.scroll.hint.as_ref().unwrap();
    assert!(hint.from.same(&Selection::point(view.text.line_to_char(8))));
    assert_eq!(
        hint.motion,
        SelectionMotion::Synced {
            rows: 15,
            movement: Movement::Move
        }
    );
    // a scroll while another is drawn goes on with what is left of it
    view.update(NOW);
    let moved = view
        .scroll
        .animation
        .as_ref()
        .and_then(|animation| animation.selection.as_ref())
        .map(|selection| selection.moved)
        .unwrap();
    assert!(moved > 0);
    view.scroll_down(10, true);
    assert_eq!(
        view.scroll.hint.as_ref().unwrap().motion,
        SelectionMotion::Synced {
            rows: 25 - moved,
            movement: Movement::Move
        }
    );
}

#[test]
fn paths_are_as_long_as_their_rows() {
    let at = |anchor, vertical_offset| ViewPosition {
        anchor,
        vertical_offset,
        horizontal_offset: 0,
    };
    // the distance counts from the top one, with the rows above and below the anchors
    let down = measure(at(0, 1), at(70, 2), 20);
    assert!(down.forward && down.limit == 40);
    assert_eq!(down.near(Some(10)), Ok(Path::Rows(11)));
    let up = measure(at(70, 2), at(0, 1), 20);
    assert!(!up.forward);
    assert_eq!(up.near(Some(10)), Ok(Path::Rows(-11)));
    assert_eq!(up.near(None), Err(-40));
    assert_eq!(measure(at(0, 0), at(0, 0), 0).limit, 2);
    assert_eq!(Path::Rows(-11).len(), 11);

    let view = View::new(500, true, false);
    let path = view.path(at(0, 0), at(view.text.line_to_char(300), 0));
    let Path::Far {
        start_row,
        lines,
        rows,
        ..
    } = path
    else {
        panic!("{path:?} is too far to be walked row by row");
    };
    assert_eq!((start_row, lines, rows), (0, 260, 40));
    assert_eq!(path.len(), 300);
}
