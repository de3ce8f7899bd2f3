//! The mouse in the file tree: clicking rows, the wheel, and the rail between tree and editor.
//! Dragging the rail's thumb scrolls, pressing its track pages, and dragging it sideways resizes
//! the tree. The first move of a drag decides which of the two it is.

use crate::arena::{Kind, NodeId};
use crate::names::{joined, TreePath};
use crate::panel::{limited, FileTree, Gesture, TreeOptions, MIN_WIDTH};
use crate::rect::Rect;
use crate::render::FileTreeSide;
use crate::rows::RowView;
use crate::workspace::Workspace;
use crate::workspace_mouse::{row_drawn_at, thumb_drawn};
use crate::workspace_update::Updated;
use vstd::prelude::*;

verus! {

#[derive(Clone, Copy, Debug, PartialEq, Eq, Structural)]
pub enum MouseButton {
    Left,
    Right,
    Middle,
}

#[derive(Clone, Copy, Debug, PartialEq, Eq, Structural)]
pub enum MouseEventKind {
    Down(MouseButton),
    Up(MouseButton),
    Drag(MouseButton),
    Moved,
    ScrollDown,
    ScrollUp,
}

#[derive(Clone, Copy, Debug, PartialEq, Eq, Structural)]
pub struct MouseEvent {
    pub kind: MouseEventKind,
    pub column: u16,
    pub row: u16,
}

/// What a mouse event leaves to be done.
#[derive(Debug)]
pub enum MouseOutcome {
    /// The editor handles the event.
    Ignored,
    Consumed,
    /// A directory was expanded or collapsed.
    Toggled(Updated),
    /// Open the file at the absolute path; the tree gives its focus back if that works.
    Open(TreePath),
}

impl Gesture {
    /// Where the rail was pressed, while the drag has not decided what it is yet.
    pub open spec fn pressed_at(self) -> Option<(u16, u16)> {
        match self {
            Gesture::ThumbPressed { column, row, .. } => Some((column, row)),
            Gesture::TrackPressed { column, row } => Some((column, row)),
            _ => None,
        }
    }

    pub fn origin(self) -> (origin: Option<(u16, u16)>)
        ensures
            origin == self.pressed_at(),
    {
        match self {
            Gesture::ThumbPressed { column, row, .. } => Some((column, row)),
            Gesture::TrackPressed { column, row } => Some((column, row)),
            _ => None,
        }
    }

    /// The gesture after a move to `column` and `row`: the first move that goes further in one
    /// direction decides between scrolling and resizing.
    pub open spec fn moved(self, column: u16, row: u16) -> Gesture {
        match self.pressed_at() {
            Some((from_column, from_row)) => {
                let dx = distance(from_column, column);
                let dy = distance(from_row, row);
                if dx == dy {
                    self
                } else if dx > dy {
                    Gesture::Resizing
                } else {
                    match self {
                        Gesture::ThumbPressed { grab, .. } => Gesture::Scrolling { grab },
                        _ => Gesture::Ignoring,
                    }
                }
            },
            None => self,
        }
    }
}

/// The distance of two numbers.
pub open spec fn distance(a: u16, b: u16) -> int {
    if a < b {
        b - a
    } else {
        a - b
    }
}

fn abs_diff(a: u16, b: u16) -> (diff: u16)
    ensures
        diff == distance(a, b),
{
    if a < b {
        b - a
    } else {
        a - b
    }
}

/// Once a drag has decided what it is, it stays that.
pub proof fn law_drags_stay_what_they_are(gesture: Gesture, column: u16, row: u16)
    requires
        gesture.pressed_at() is None,
    ensures
        gesture.moved(column, row) == gesture,
{
}

/// The width of the tree with its rail at `column`.
pub open spec fn width_to(area: Rect, side: FileTreeSide, column: u16) -> int {
    let width = match side {
        FileTreeSide::Left => column + 1 - area.x,
        FileTreeSide::Right => area.right_edge() - column,
    };
    if width < 0 {
        0
    } else {
        width
    }
}

/// The column of the rail.
pub open spec fn rail_column(area: Rect, side: FileTreeSide) -> int {
    match side {
        FileTreeSide::Left => area.right_edge() - 1,
        FileTreeSide::Right => area.x as int,
    }
}

impl FileTree {
    /// The tree knows where its rows were drawn.
    pub open spec fn drawn(&self) -> bool {
        &&& self.wf()
        &&& self.fresh()
        &&& self.workspace matches Some(workspace) ==> workspace.drawn()
    }

    /// The tree with its rail moved to `column`.
    pub open spec fn resized(self, column: u16, side: FileTreeSide) -> FileTree {
        match self.area {
            Some(area) => FileTree {
                width: Some(limited(width_to(area, side, column), self.max_width) as u16),
                ..self
            },
            None => self,
        }
    }

    /// Whether `after` is the tree with its workspace scrolled, as `start` says.
    pub open spec fn scrolled(self, after: FileTree, start: spec_fn(Workspace) -> int) -> bool {
        match self.workspace {
            Some(workspace) => {
                &&& after == FileTree { workspace: after.workspace, ..self }
                &&& after.workspace matches Some(then)
                &&& then == Workspace { start: then.start, ..workspace }
                &&& then.start == start(workspace)
            },
            None => after == self,
        }
    }

    /// Whether `after` is the tree with a gesture continued by an event.
    pub open spec fn continued(
        self,
        after: FileTree,
        gesture: Gesture,
        released: bool,
        column: u16,
        row: u16,
        side: FileTreeSide,
    ) -> bool {
        let now = if released {
            gesture
        } else {
            gesture.moved(column, row)
        };
        let kept = FileTree {
            gesture: if released {
                None
            } else {
                Some(now)
            },
            ..self
        };
        match now {
            Gesture::Scrolling { grab } => kept.scrolled(
                after,
                |workspace: Workspace| workspace.dragged_to(row, grab),
            ),
            Gesture::Resizing => after == kept.resized(column, side),
            Gesture::TrackPressed { row: pressed, .. } => if released {
                kept.scrolled(after, |workspace: Workspace| workspace.paged_to(pressed))
            } else {
                after == kept
            },
            _ => after == kept,
        }
    }

    fn continue_gesture(
        &mut self,
        gesture: Gesture,
        released: bool,
        column: u16,
        row: u16,
        side: FileTreeSide,
    )
        requires
            old(self).drawn(),
            old(self).gesture is None,
        ensures
            final(self).drawn(),
            old(self).continued(*final(self), gesture, released, column, row, side),
    {
        // The first move decides between scrolling and resizing.
        let origin: Option<(u16, u16)> = if released {
            None
        } else {
            gesture.origin()
        };
        let gesture: Gesture = match origin {
            Some((from_column, from_row)) => {
                let dx: u16 = abs_diff(from_column, column);
                let dy: u16 = abs_diff(from_row, row);
                if dx == dy {
                    gesture
                } else if dx > dy {
                    Gesture::Resizing
                } else {
                    match gesture {
                        Gesture::ThumbPressed { grab, .. } => Gesture::Scrolling { grab },
                        _ => Gesture::Ignoring,
                    }
                }
            },
            None => gesture,
        };
        if !released {
            self.gesture = Some(gesture);
        }
        match gesture {
            Gesture::Scrolling { grab } => match &mut self.workspace {
                Some(workspace) => {
                    workspace.drag_thumb(row, grab);
                },
                None => {},
            },
            Gesture::Resizing => {
                self.resize_to(column, side);
            },
            Gesture::TrackPressed { row, .. } => {
                if released {
                    match &mut self.workspace {
                        Some(workspace) => {
                            workspace.page_towards(row);
                        },
                        None => {},
                    }
                }
            },
            _ => {},
        }
    }

    /// Widens or narrows the tree so that its rail is at `column`.
    fn resize_to(&mut self, column: u16, side: FileTreeSide)
        requires
            old(self).drawn(),
        ensures
            final(self).drawn(),
            *final(self) == old(self).resized(column, side),
    {
        let area: Rect = match self.area {
            Some(area) => area,
            None => {
                return ;
            },
        };
        let width: u32 = match side {
            FileTreeSide::Left => (column as u32 + 1).saturating_sub(area.left() as u32),
            FileTreeSide::Right => (area.right() as u32).saturating_sub(column as u32),
        };
        let width: u32 = if width < self.max_width as u32 {
            width
        } else {
            self.max_width as u32
        };
        let width: u16 = if width > MIN_WIDTH as u32 {
            width as u16
        } else {
            MIN_WIDTH
        };
        self.width = Some(width);
    }

    /// Whether `after` is the tree after a click on the screen row `row`.
    pub open spec fn clicked(
        self,
        after: FileTree,
        outcome: MouseOutcome,
        row: u16,
        options: TreeOptions,
    ) -> bool {
        match self.workspace {
            Some(workspace) => match row_drawn_at(
                workspace.rows@,
                workspace.drawn_start as int,
                workspace.rows_area,
                row,
            ) {
                Some(index) => {
                    let view = workspace.rows@[index];
                    let kind = workspace.tree.shape().nodes[view.node].kind;
                    if kind is Directory && index != 0 {
                        &&& after == FileTree { workspace: after.workspace, ..self }
                        &&& after.workspace matches Some(then)
                        &&& outcome matches MouseOutcome::Toggled(updated)
                        &&& workspace.toggled(then, updated, view, options)
                    } else if kind.group_of() is File {
                        &&& after == self
                        &&& outcome matches MouseOutcome::Open(path)
                        &&& path@ == joined(workspace.root@, view.path)
                    } else {
                        after == self && outcome is Consumed
                    }
                },
                None => after == self && outcome is Consumed,
            },
            None => after == self && outcome is Consumed,
        }
    }

    /// Opens the file on the screen row `row`, or expands or collapses the directory on it.
    fn click(&mut self, row: u16, options: TreeOptions) -> (outcome: MouseOutcome)
        requires
            old(self).drawn(),
        ensures
            final(self).wf(),
            final(self).fresh(),
            old(self).clicked(*final(self), outcome, row, options),
    {
        match &mut self.workspace {
            Some(workspace) => {
                let index: usize = match workspace.row_at(row) {
                    Some(index) => index,
                    None => {
                        return MouseOutcome::Consumed;
                    },
                };
                assert(crate::workspace::row_in(
                    workspace.tree.shape(),
                    workspace.rows@[index as int],
                ));
                let node: NodeId = workspace.rows.row(index).node;
                let kind: Kind = workspace.tree.node(node).kind;
                if kind == Kind::Directory && index != 0 {
                    MouseOutcome::Toggled(workspace.toggle(index, options))
                } else if kind.is_file() {
                    MouseOutcome::Open(workspace.root.join_path(&workspace.rows.row(index).path))
                } else {
                    MouseOutcome::Consumed
                }
            },
            None => MouseOutcome::Consumed,
        }
    }

    /// Whether `after` is the tree after a press on the rail.
    pub open spec fn pressed(self, column: u16, row: u16) -> FileTree {
        let thumb = match self.workspace {
            Some(workspace) => thumb_drawn(
                workspace.rows@,
                workspace.drawn_start as int,
                workspace.rows_area,
            ),
            None => None,
        };
        let gesture = match thumb {
            Some((top, bottom)) => if top <= row < bottom {
                Gesture::ThumbPressed { column, row, grab: (row - top) as usize }
            } else {
                Gesture::TrackPressed { column, row }
            },
            None => Gesture::TrackPressed { column, row },
        };
        FileTree { gesture: Some(gesture), ..self }
    }

    /// Whether `after` is the tree after the event, with nothing being dragged before.
    pub open spec fn handled(
        self,
        after: FileTree,
        outcome: MouseOutcome,
        event: MouseEvent,
        area: Rect,
        side: FileTreeSide,
        lines: usize,
        options: TreeOptions,
    ) -> bool {
        if !area.holds(event.column, event.row) {
            after == self && outcome is Ignored
        } else {
            match event.kind {
                MouseEventKind::ScrollDown => outcome is Consumed && self.scrolled(
                    after,
                    |workspace: Workspace| workspace.scrolled_to(lines, true),
                ),
                MouseEventKind::ScrollUp => outcome is Consumed && self.scrolled(
                    after,
                    |workspace: Workspace| workspace.scrolled_to(lines, false),
                ),
                MouseEventKind::Down(MouseButton::Left) => if event.column == rail_column(
                    area,
                    side,
                ) {
                    outcome is Consumed && after == self.pressed(event.column, event.row)
                } else {
                    self.clicked(after, outcome, event.row, options)
                },
                _ => after == self && outcome is Consumed,
            }
        }
    }

    /// Handles a mouse event over the tree, or one of a drag that started on its rail. An ignored
    /// event is left to the editor. The wheel scrolls `lines` rows.
    pub fn handle_mouse(
        &mut self,
        event: MouseEvent,
        side: FileTreeSide,
        lines: usize,
        options: TreeOptions,
    ) -> (outcome: MouseOutcome)
        requires
            old(self).drawn(),
        ensures
            final(self).wf(),
            final(self).fresh(),
            match old(self).area {
                Some(area) => {
                    let still = FileTree { gesture: None, ..*old(self) };
                    if old(self).gesture is Some && drags(event.kind) {
                        &&& outcome is Consumed
                        &&& still.continued(
                            *final(self),
                            old(self).gesture->0,
                            event.kind is Up,
                            event.column,
                            event.row,
                            side,
                        )
                    } else {
                        still.handled(*final(self), outcome, event, area, side, lines, options)
                    }
                },
                None => outcome is Ignored && *final(self) == *old(self),
            },
    {
        let area: Rect = match self.area {
            Some(area) => area,
            None => {
                return MouseOutcome::Ignored;
            },
        };
        if let Some(gesture) = self.gesture.take() {
            match event.kind {
                MouseEventKind::Drag(MouseButton::Left) => {
                    self.continue_gesture(gesture, false, event.column, event.row, side);
                    return MouseOutcome::Consumed;
                },
                MouseEventKind::Up(MouseButton::Left) => {
                    self.continue_gesture(gesture, true, event.column, event.row, side);
                    return MouseOutcome::Consumed;
                },
                _ => {},
            }
        }
        self.handle_other(event, area, side, lines, options)
    }

    fn handle_other(
        &mut self,
        event: MouseEvent,
        area: Rect,
        side: FileTreeSide,
        lines: usize,
        options: TreeOptions,
    ) -> (outcome: MouseOutcome)
        requires
            old(self).drawn(),
        ensures
            final(self).wf(),
            final(self).fresh(),
            old(self).handled(*final(self), outcome, event, area, side, lines, options),
    {
        if !area.contains(event.column, event.row) {
            return MouseOutcome::Ignored;
        }
        let rail: u16 = match side {
            FileTreeSide::Left => area.right() - 1,
            FileTreeSide::Right => area.left(),
        };
        match event.kind {
            MouseEventKind::ScrollDown => {
                self.scroll_rows(lines, true);
                MouseOutcome::Consumed
            },
            MouseEventKind::ScrollUp => {
                self.scroll_rows(lines, false);
                MouseOutcome::Consumed
            },
            MouseEventKind::Down(MouseButton::Left) => if event.column == rail {
                self.press_rail(event.column, event.row);
                MouseOutcome::Consumed
            } else {
                self.click(event.row, options)
            },
            _ => MouseOutcome::Consumed,
        }
    }

    fn scroll_rows(&mut self, lines: usize, down: bool)
        requires
            old(self).drawn(),
        ensures
            final(self).drawn(),
            old(self).scrolled(
                *final(self),
                |workspace: Workspace| workspace.scrolled_to(lines, down),
            ),
    {
        match &mut self.workspace {
            Some(workspace) => {
                workspace.scroll(lines, down);
            },
            None => {},
        }
    }

    fn press_rail(&mut self, column: u16, row: u16)
        requires
            old(self).drawn(),
        ensures
            final(self).drawn(),
            *final(self) == old(self).pressed(column, row),
    {
        // Without a thumb, the whole rail is track, which still resizes.
        let grab: Option<usize> = match &self.workspace {
            Some(workspace) => match workspace.thumb() {
                Some(thumb) => if thumb.start <= row && row < thumb.end {
                    Some((row - thumb.start) as usize)
                } else {
                    None
                },
                None => None,
            },
            None => None,
        };
        self.gesture = Some(
            match grab {
                Some(grab) => Gesture::ThumbPressed { column, row, grab },
                None => Gesture::TrackPressed { column, row },
            },
        );
    }
}

/// Whether the event continues a drag with the left button, or ends it.
pub open spec fn drags(kind: MouseEventKind) -> bool {
    kind == MouseEventKind::Drag(MouseButton::Left) || kind == MouseEventKind::Up(MouseButton::Left)
}

impl Workspace {
    /// Whether `then` is the workspace with the directory of `row` expanded or collapsed, brought
    /// up to date.
    pub open spec fn toggled(
        self,
        then: Workspace,
        updated: Updated,
        row: RowView,
        options: TreeOptions,
    ) -> bool {
        exists|middle: Workspace|
            #![trigger middle.is_updated(then, updated, options.sort, options.flatten_dirs)]
            {
                &&& if self.tree.shape().nodes[row.node].expanded {
                    self.collapsed_row(middle, row, self.cursor)
                } else {
                    self.expanded_row(middle, row, self.cursor)
                }
                &&& middle.is_updated(then, updated, options.sort, options.flatten_dirs)
            }
    }

    fn toggle(&mut self, index: usize, options: TreeOptions) -> (updated: Updated)
        requires
            old(self).wf(),
            old(self).fresh(),
            index < old(self).rows@.len(),
        ensures
            final(self).wf(),
            final(self).fresh(),
            old(self).toggled(*final(self), updated, old(self).rows@[index as int], options),
    {
        self.toggle_row(index);
        let ghost middle = *self;
        // The rows stay where they are under the pointer.
        let updated: Updated = self.update(options.sort, options.flatten_dirs);
        assert(middle.is_updated(*self, updated, options.sort, options.flatten_dirs));
        updated
    }
}

/// The first move of a drag decides what it is: one that goes further sideways resizes the panel,
/// one that goes further up or down scrolls if it holds the thumb and does nothing if not, and one
/// that goes as far in both directions decides nothing yet.
pub proof fn law_the_first_move_decides(column: u16, row: u16, to_column: u16, to_row: u16, grab: usize)
    ensures
        ({
            let sideways = if column < to_column {
                to_column - column
            } else {
                column - to_column
            };
            let along = if row < to_row {
                to_row - row
            } else {
                row - to_row
            };
            let thumb = Gesture::ThumbPressed { column, row, grab };
            let track = Gesture::TrackPressed { column, row };
            &&& sideways > along ==> thumb.moved(to_column, to_row) == Gesture::Resizing
            &&& sideways > along ==> track.moved(to_column, to_row) == Gesture::Resizing
            &&& along > sideways ==> thumb.moved(to_column, to_row) == (Gesture::Scrolling { grab })
            &&& along > sideways ==> track.moved(to_column, to_row) == Gesture::Ignoring
            &&& sideways == along ==> thumb.moved(to_column, to_row) == thumb
            &&& sideways == along ==> track.moved(to_column, to_row) == track
        }),
{
}

/// The rail follows the pointer: a panel of the width that a drag asks for has its rail in the
/// column of the pointer, on either side of the screen.
pub proof fn law_the_rail_follows_the_pointer(area: Rect, column: u16)
    requires
        area.x + area.width <= u16::MAX,
        area.x <= column < area.x + area.width,
    ensures
        ({
            let width = width_to(area, FileTreeSide::Left, column);
            rail_column(Rect { width: width as u16, ..area }, FileTreeSide::Left) == column
        }),
        ({
            let width = width_to(area, FileTreeSide::Right, column);
            let x = area.x + area.width - width;
            rail_column(
                Rect { x: x as u16, width: width as u16, ..area },
                FileTreeSide::Right,
            ) == column
        }),
        rail_column(area, FileTreeSide::Left) == area.x + area.width - 1,
        rail_column(area, FileTreeSide::Right) == area.x,
{
}

impl FileTree {
    /// Dragging the rail changes nothing but the width, to the one that puts it under the pointer
    /// within the limits.
    pub proof fn law_resizing_changes_the_width(self, column: u16, side: FileTreeSide, area: Rect)
        requires
            self.area == Some(area),
            MIN_WIDTH <= width_to(area, side, column) <= self.max_width,
        ensures
            self.resized(column, side).width matches Some(width) && width == width_to(
                area,
                side,
                column,
            ),
            self.resized(column, side).workspace == self.workspace,
            self.resized(column, side).focused == self.focused,
    {
    }

    /// An event outside of the panel is left to the editor. The wheel scrolls the way it turns. A
    /// press of the left button in the column of the rail starts a drag, and elsewhere clicks a row.
    /// Nothing else does anything.
    pub proof fn law_events_do_what_they_are_for(
        self,
        after: FileTree,
        outcome: MouseOutcome,
        event: MouseEvent,
        area: Rect,
        side: FileTreeSide,
        lines: usize,
        options: TreeOptions,
    )
        requires
            self.handled(after, outcome, event, area, side, lines, options),
            area.x + area.width <= u16::MAX,
            area.y + area.height <= u16::MAX,
        ensures
            ({
                let inside = area.x <= event.column < area.x + area.width && area.y <= event.row
                    < area.y + area.height;
                let on_rail = match side {
                    FileTreeSide::Left => event.column == area.x + area.width - 1,
                    FileTreeSide::Right => event.column == area.x,
                };
                &&& !inside ==> outcome is Ignored && after == self
                &&& inside ==> !(outcome is Ignored)
                &&& inside && event.kind == MouseEventKind::ScrollDown && self.workspace is Some
                    ==> after.workspace is Some && after.workspace->0.start
                    == self.workspace->0.scrolled_to(lines, true)
                &&& inside && event.kind == MouseEventKind::ScrollUp && self.workspace is Some
                    ==> after.workspace is Some && after.workspace->0.start
                    == self.workspace->0.scrolled_to(lines, false)
                &&& inside && event.kind == MouseEventKind::Down(MouseButton::Left) && on_rail
                    ==> after == self.pressed(event.column, event.row)
                &&& inside && event.kind == MouseEventKind::Down(MouseButton::Left) && !on_rail
                    ==> self.clicked(after, outcome, event.row, options)
                &&& event.kind is Moved || event.kind is Up || event.kind is Drag || (event.kind
                    is Down && event.kind != MouseEventKind::Down(MouseButton::Left)) ==> after
                    == self
            }),
    {
    }

    /// A press within the thumb holds it where it was pressed, and any other press on the rail is
    /// one of the track.
    pub proof fn law_presses_hold_the_thumb(self, column: u16, row: u16)
        ensures
            ({
                let pressed = self.pressed(column, row).gesture;
                let thumb = match self.workspace {
                    Some(workspace) => thumb_drawn(
                        workspace.rows@,
                        workspace.drawn_start as int,
                        workspace.rows_area,
                    ),
                    None => None,
                };
                &&& thumb matches Some((top, bottom)) ==> (top <= row < bottom ==> (pressed
                    matches Some(Gesture::ThumbPressed { column: x, row: y, grab }) && x == column
                    && y == row && top + grab == row))
                &&& thumb matches Some((top, bottom)) ==> (row < top || row >= bottom ==> pressed
                    == Some(Gesture::TrackPressed { column, row }))
                &&& thumb is None ==> pressed == Some(Gesture::TrackPressed { column, row })
            }),
    {
    }

    /// A click on a file opens it, at its path below the root. A click on a directory below the root
    /// expands or collapses it. A click anywhere else does nothing.
    pub proof fn law_clicks_open_files_and_toggle_directories(
        self,
        after: FileTree,
        outcome: MouseOutcome,
        row: u16,
        options: TreeOptions,
        workspace: Workspace,
    )
        requires
            self.clicked(after, outcome, row, options),
            self.workspace == Some(workspace),
        ensures
            match row_drawn_at(
                workspace.rows@,
                workspace.drawn_start as int,
                workspace.rows_area,
                row,
            ) {
                Some(index) => {
                    let kind = workspace.tree.shape().nodes[workspace.rows@[index].node].kind;
                    &&& kind == Kind::Directory && index > 0 ==> outcome is Toggled
                    &&& kind == Kind::Directory && index == 0 ==> after == self && outcome
                        is Consumed
                    &&& kind is File ==> after == self && (outcome matches MouseOutcome::Open(path)
                        && path@ == joined(workspace.root@, workspace.rows@[index].path))
                },
                None => after == self && outcome is Consumed,
            },
    {
    }

    /// A drag that scrolls moves the rows with the thumb, one that resizes the rail with the pointer,
    /// and letting go of the track without a drag pages towards where it was pressed. Letting go
    /// ends the drag.
    pub proof fn law_drags_do_what_they_are_for(
        self,
        after: FileTree,
        gesture: Gesture,
        released: bool,
        column: u16,
        row: u16,
        side: FileTreeSide,
    )
        requires
            self.continued(after, gesture, released, column, row, side),
        ensures
            released ==> after.gesture is None,
            !released ==> after.gesture == Some(gesture.moved(column, row)),
            gesture matches Gesture::Scrolling { grab } ==> (self.workspace matches Some(workspace)
                ==> after.workspace is Some && after.workspace->0.start == workspace.dragged_to(
                row,
                grab,
            )),
            gesture is Resizing ==> after.width == self.resized(column, side).width,
            released && (gesture is TrackPressed) ==> (self.workspace matches Some(workspace)
                ==> after.workspace is Some && after.workspace->0.start == workspace.paged_to(
                gesture->TrackPressed_row,
            )),
            gesture is Ignoring ==> after.workspace == self.workspace && after.width == self.width,
            released && gesture is ThumbPressed ==> after.workspace == self.workspace && after.width
                == self.width,
    {
    }
}

/// Only the left button drags: moving it while it is held, and letting go of it.
pub proof fn law_only_the_left_button_drags(kind: MouseEventKind)
    ensures
        drags(kind) <==> kind == MouseEventKind::Drag(MouseButton::Left) || kind
            == MouseEventKind::Up(MouseButton::Left),
{
}

impl FileTree {
    /// Scrolling changes where the rows start and nothing else.
    pub proof fn law_scrolling_moves_the_rows_only(
        self,
        after: FileTree,
        start: spec_fn(Workspace) -> int,
        workspace: Workspace,
    )
        requires
            self.scrolled(after, start),
            self.workspace == Some(workspace),
        ensures
            after.workspace matches Some(then) && then.start == start(workspace) && then.cursor
                == workspace.cursor && then.rows == workspace.rows && then.tree == workspace.tree,
            after.width == self.width,
            after.focused == self.focused,
            after.gesture == self.gesture,
    {
    }
}

impl Workspace {
    /// Toggling a row expands a directory that is collapsed and collapses one that is expanded. The
    /// cursor and the rows stay where they are while the tree is brought up to date.
    pub proof fn law_toggling_expands_or_collapses(
        self,
        then: Workspace,
        updated: Updated,
        row: RowView,
        options: TreeOptions,
    )
        requires
            self.toggled(then, updated, row, options),
        ensures
            exists|middle: Workspace|
                #![trigger middle.is_updated(then, updated, options.sort, options.flatten_dirs)]
                {
                    let (before, after) = (self.tree.shape(), middle.tree.shape());
                    &&& middle.is_updated(then, updated, options.sort, options.flatten_dirs)
                    &&& middle.cursor == self.cursor
                    &&& middle.start == self.start
                    &&& before.nodes[row.node].expanded && row.head != before.root
                        ==> before.is_collapsed(after, row.head)
                    &&& !before.nodes[row.node].expanded ==> before.is_expanded(
                        after,
                        before.run_up(row.node, row.head),
                    )
                },
    {
        let middle = choose|middle: Workspace|
            #![trigger middle.is_updated(then, updated, options.sort, options.flatten_dirs)]
            {
                &&& if self.tree.shape().nodes[row.node].expanded {
                    self.collapsed_row(middle, row, self.cursor)
                } else {
                    self.expanded_row(middle, row, self.cursor)
                }
                &&& middle.is_updated(then, updated, options.sort, options.flatten_dirs)
            };
        assert(middle.is_updated(then, updated, options.sort, options.flatten_dirs));
    }
}

} // verus!
