//! Drawing the panel: bringing it up to date for a frame, and the frame itself.

use crate::ls_colors::LsColors;
use crate::marks::BufferMarks;
use crate::panel::{FileTree, TreeOptions};
use crate::panel_run::{edit_area, widened};
use crate::rect::Rect;
use crate::render::{row_marks, FileTreeSide, Scene};
use crate::rows::{RowView, Rows};
use crate::scene::{content_of, row_shown};
use crate::surface::{covers, Surface};
use crate::theme::Styles;
use crate::viewport::{clamped, pinned, pinned_rows, room};
use crate::workspace::Workspace;
use crate::workspace_mouse::row_drawn_at;
use crate::workspace_rows::EditRow;
use crate::workspace_update::Updated;
use vstd::prelude::*;

verus! {

/// What a frame of the panel shows besides the tree.
pub struct Look<'a> {
    pub marks: &'a BufferMarks,
    pub palette: Option<&'a LsColors>,
    pub styles: &'a Styles,
    /// The icons of the rows, if they show any.
    pub icons: Option<&'a Vec<String>>,
    pub guides: bool,
    pub side: FileTreeSide,
}

/// A panel that is ready to be drawn.
#[derive(Debug)]
pub struct Prepared {
    pub updated: Updated,
    /// The first ordinary row, once scrolling has got there.
    pub start: usize,
}

/// The first of `above` from `from` on that is `index`.
pub open spec fn pinned_at(above: Seq<int>, index: int, from: int) -> Option<int>
    decreases above.len() - from,
{
    if !(0 <= from < above.len()) {
        None
    } else if above[from] == index {
        Some(from)
    } else {
        pinned_at(above, index, from + 1)
    }
}

/// Where row `index` is shown, counted from the top: among the ordinary rows, which start at `start`,
/// or pinned above them.
pub open spec fn place_of(rows: Seq<RowView>, start: int, height: int, index: int) -> Option<int> {
    let above = pinned_rows(rows, start, height);
    if index < start {
        pinned_at(above, index, 0)
    } else if above.len() + index - start < height {
        Some(above.len() + index - start)
    } else {
        None
    }
}

/// The columns before the label of a row.
pub open spec fn label_offset(depth: int, root: bool, icons: bool) -> int {
    row_marks(depth, root, icons) - 1
}

/// The area of the label of the row at the `k`th place, without the column of the unsaved mark.
pub open spec fn label_area(content: Rect, k: int, depth: int, root: bool, icons: bool) -> Rect {
    let last = content.width - 1;
    let offset = if label_offset(depth, root, icons) < last {
        label_offset(depth, root, icons)
    } else {
        last
    };
    Rect {
        x: (content.x + offset) as u16,
        y: (content.y + k) as u16,
        width: (last - offset) as u16,
        height: 1,
    }
}

fn label_offset_of(depth: usize, root: bool, icons: bool) -> (offset: usize)
    ensures
        offset == label_offset(depth as int, root, icons) || (offset == usize::MAX && label_offset(
            depth as int,
            root,
            icons,
        ) > usize::MAX),
{
    let marks: usize = if root {
        2
    } else {
        let two: usize = depth.saturating_add(depth);
        two.saturating_add(two).saturating_add(5)
    };
    let icon: usize = match (icons, root) {
        (true, true) => 2,
        (true, false) => 3,
        (false, true) => 0,
        (false, false) => 1,
    };
    marks.saturating_add(icon)
}

fn shown_place(rows: &Rows, start: usize, height: usize, index: usize) -> (place: Option<usize>)
    requires
        rows.wf(),
    ensures
        match place {
            Some(place) => place_of(rows@, start as int, height as int, index as int) == Some(
                place as int,
            ) && place < height,
            None => place_of(rows@, start as int, height as int, index as int) is None,
        },
{
    let above: Vec<usize> = pinned(rows, start, height);
    let ghost shown = pinned_rows(rows@, start as int, height as int);
    proof {
        assert forall|k: int| 0 <= k < above@.len() implies (#[trigger] above@[k]) as int
            == shown[k] by {
            assert(above@.map_values(|i: usize| i as int)[k] == above@[k] as int);
        }
    }
    if index < start {
        let mut k: usize = 0;
        while k < above.len()
            invariant
                k <= above@.len() == shown.len(),
                forall|k: int| 0 <= k < above@.len() ==> (#[trigger] above@[k]) as int == shown[k],
                pinned_at(shown, index as int, 0) == pinned_at(shown, index as int, k as int),
                above@.len() <= height,
                index < start,
                shown == pinned_rows(rows@, start as int, height as int),
            decreases above.len() - k,
        {
            if above[k] == index {
                return Some(k);
            }
            k += 1;
        }
        None
    } else if above.len() <= height && index - start < height - above.len() {
        Some(above.len() + (index - start))
    } else {
        None
    }
}

impl Workspace {
    /// The frame that shows the workspace, with the ordinary rows starting at `start`.
    pub open spec fn scene<'a>(
        &'a self,
        focused: bool,
        start: usize,
        look: &'a Look<'a>,
    ) -> Scene<'a> {
        Scene {
            tree: &self.tree,
            rows: &self.rows,
            git: &self.git,
            marks: look.marks,
            palette: look.palette,
            styles: look.styles,
            cursor: if focused {
                self.row_under_cursor()
            } else {
                None
            },
            start,
            icons: look.icons,
            guides: look.guides,
            side: look.side,
        }
    }

    /// Where the line of an inline edit goes: in place of the label of its row, reaching up to
    /// `right` at most.
    pub open spec fn edit_place(
        &self,
        start: usize,
        content: Rect,
        icons: bool,
        right: u16,
    ) -> Option<Rect> {
        match self.edit_spot() {
            Some((index, depth)) => match place_of(
                self.rows@,
                start as int,
                content.height as int,
                index as int,
            ) {
                Some(k) => if content.width >= 2 {
                    Some(widened(label_area(content, k, depth, index == 0, icons), right))
                } else {
                    None
                },
                None => None,
            },
            None => None,
        }
    }

    /// Where the line of an inline edit goes, when the rows are drawn in `content`.
    fn place_edit(&self, start: usize, content: Rect, icons: bool, right: u16) -> (area: Option<Rect>)
        requires
            self.wf(),
            self.fresh(),
            content.x + content.width <= u16::MAX,
            content.y + content.height <= u16::MAX,
        ensures
            area == self.edit_place(start, content, icons, right),
    {
        let row: EditRow = match self.edit_row() {
            Some(row) => row,
            None => {
                return None;
            },
        };
        let k: usize = match shown_place(&self.rows, start, content.height as usize, row.index) {
            Some(k) => k,
            None => {
                return None;
            },
        };
        if content.width < 2 {
            return None;
        }
        let last: u16 = content.width - 1;
        let offset: usize = label_offset_of(row.depth, row.index == 0, icons);
        let offset: u16 = if offset < last as usize {
            offset as u16
        } else {
            last
        };
        let label = Rect {
            x: content.x + offset,
            y: content.y + k as u16,
            width: last - offset,
            height: 1,
        };
        Some(edit_area(label, right))
    }
}

impl Workspace {
    /// Whether `then` is the workspace brought up to date for a frame of the height `height`.
    pub open spec fn is_prepared(
        self,
        then: Workspace,
        prepared: Prepared,
        options: TreeOptions,
        height: u16,
    ) -> bool {
        exists|middle: Workspace|
            #![trigger self.is_updated(
                middle,
                prepared.updated,
                options.sort,
                options.flatten_dirs,
            )]
            {
                &&& self.is_updated(
                    middle,
                    prepared.updated,
                    options.sort,
                    options.flatten_dirs,
                )
                &&& then == Workspace {
                    height: height as usize,
                    scroll_to: None,
                    start: then.start,
                    ..middle
                }
                &&& then.start == middle.framed_start(height as usize)
                &&& prepared.start == clamped(middle.rows@, then.start as int, height as int)
            }
    }

    fn prepare(&mut self, options: TreeOptions, height: u16) -> (prepared: Prepared)
        requires
            old(self).wf(),
            old(self).settled(),
        ensures
            final(self).wf(),
            final(self).fresh(),
            old(self).is_prepared(*final(self), prepared, options, height),
    {
        let updated: Updated = self.update(options.sort, options.flatten_dirs);
        let ghost middle = *self;
        let start: usize = self.frame(height as usize);
        let prepared = Prepared { updated, start };
        assert(old(self).is_updated(
            middle,
            prepared.updated,
            options.sort,
            options.flatten_dirs,
        ));
        prepared
    }
}

impl FileTree {
    /// Whether `after` is the tree brought up to date for a frame of the height `height`.
    pub open spec fn is_prepared(
        self,
        after: FileTree,
        prepared: Option<Prepared>,
        options: TreeOptions,
        height: u16,
    ) -> bool {
        match self.workspace {
            None => after == self && prepared is None,
            Some(workspace) => {
                &&& after == FileTree { workspace: after.workspace, ..self }
                &&& after.workspace matches Some(then)
                &&& prepared matches Some(prepared)
                &&& workspace.is_prepared(then, prepared, options, height)
            },
        }
    }

    /// Brings the tree up to date for a frame of the height `height`.
    pub fn prepare(&mut self, options: TreeOptions, height: u16) -> (prepared: Option<Prepared>)
        requires
            old(self).wf(),
        ensures
            final(self).wf(),
            final(self).fresh(),
            old(self).is_prepared(*final(self), prepared, options, height),
    {
        match &mut self.workspace {
            Some(workspace) => Some(workspace.prepare(options, height)),
            None => None,
        }
    }

    /// Draws the tree in `area`, with the ordinary rows starting at `start`, which is where
    /// scrolling has got to. Returns where the line of an inline edit goes.
    pub fn render(&mut self, area: Rect, start: usize, look: &Look, surface: &mut Surface) -> (edit:
        Option<Rect>)
        requires
            old(self).wf(),
            old(self).fresh(),
            area.width >= 1,
            old(surface).wf(),
            covers(old(surface).area, area),
            old(self).workspace is Some && look.icons is Some ==> look.icons->0@.len() == old(
                self,
            ).workspace->0.rows@.len(),
        ensures
            final(self).wf(),
            final(self).fresh(),
            final(surface).wf(),
            final(surface).area == old(surface).area,
            match old(self).workspace {
                None => edit is None && *final(self) == *old(self) && final(surface)@ == old(
                    surface,
                )@,
                Some(workspace) => {
                    let content = content_of(look.side, area);
                    &&& *final(self) == (FileTree {
                        workspace: Some(
                            Workspace { rows_area: content, drawn_start: start, ..workspace },
                        ),
                        area: Some(area),
                        ..*old(self)
                    })
                    &&& final(surface)@ == workspace.scene(old(self).focused, start, look).drawn(
                        old(surface)@,
                        area,
                    )
                    &&& edit == workspace.edit_place(
                        start,
                        content,
                        look.icons is Some,
                        old(surface).area.right_edge() as u16,
                    )
                },
            },
    {
        let focused: bool = self.focused;
        let (content, edit) = match &self.workspace {
            None => {
                return None;
            },
            Some(workspace) => {
                let cursor: Option<usize> = if focused {
                    workspace.cursor_row()
                } else {
                    None
                };
                let scene = Scene {
                    tree: &workspace.tree,
                    rows: &workspace.rows,
                    git: &workspace.git,
                    marks: look.marks,
                    palette: look.palette,
                    styles: look.styles,
                    cursor,
                    start,
                    icons: look.icons,
                    guides: look.guides,
                    side: look.side,
                };
                scene.render(area, surface);
                let content = match look.side {
                    FileTreeSide::Left => Rect { width: area.width - 1, ..area },
                    FileTreeSide::Right => Rect { x: area.x + 1, width: area.width - 1, ..area },
                };
                let right: u16 = surface.area.right();
                (content, workspace.place_edit(start, content, look.icons.is_some(), right))
            },
        };
        self.area = Some(area);
        match &mut self.workspace {
            Some(workspace) => {
                workspace.rows_area = content;
                workspace.drawn_start = start;
            },
            None => {},
        }
        edit
    }
}

/// After a frame the mouse finds an ordinary row where it was drawn, and no row at the pinned ones.
pub proof fn law_rows_are_found_where_they_are_drawn(
    rows: Seq<RowView>,
    start: usize,
    area: Rect,
    side: FileTreeSide,
    y: u16,
)
    requires
        area.width >= 1,
        area.y <= y < area.y + area.height <= u16::MAX,
    ensures
        ({
            let height = area.height as int;
            let k = y - area.y;
            row_drawn_at(rows, start as int, content_of(side, area), y) == if k < pinned_rows(
                rows,
                start as int,
                height,
            ).len() {
                None
            } else {
                row_shown(rows, start as int, height, k)
            }
        }),
{
}

proof fn lemma_pinned_at(above: Seq<int>, index: int, from: int)
    requires
        0 <= from,
    ensures
        match pinned_at(above, index, from) {
            Some(k) => from <= k < above.len() && above[k] == index,
            None => forall|k: int| from <= k < above.len() ==> #[trigger] above[k] != index,
        },
    decreases above.len() - from,
{
    if from < above.len() && above[from] != index {
        lemma_pinned_at(above, index, from + 1);
    }
}

/// A row is where it is shown: at the place of a row, that row is shown.
pub proof fn law_rows_are_shown_at_their_places(
    rows: Seq<RowView>,
    start: int,
    height: int,
    index: int,
)
    requires
        0 <= start,
        0 <= index < rows.len(),
    ensures
        place_of(rows, start, height, index) matches Some(k) ==> 0 <= k && row_shown(
            rows,
            start,
            height,
            k,
        ) == Some(index),
        start <= index < start + room(rows, start, height) ==> place_of(rows, start, height, index)
            is Some,
{
    lemma_pinned_at(pinned_rows(rows, start, height), index, 0);
}

/// The label of a row starts after its marks and ends before the column of the unsaved mark.
pub proof fn law_labels_are_between_the_marks(
    content: Rect,
    k: int,
    depth: int,
    root: bool,
    icons: bool,
)
    requires
        content.width >= 1,
        content.x + content.width <= u16::MAX,
        0 <= k < content.height,
        content.y + content.height <= u16::MAX,
        0 <= depth,
    ensures
        ({
            let area = label_area(content, k, depth, root, icons);
            let before = row_marks(depth, root, icons) - 1;
            &&& area.x + area.width == content.x + content.width - 1
            &&& before < content.width - 1 ==> area.x == content.x + before
            &&& before >= content.width - 1 ==> area.width == 0
            &&& area.y == content.y + k
            &&& area.height == 1
        }),
{
}

/// The mouse finds the thumb and the rail where they are drawn.
pub proof fn law_the_thumb_is_found_where_it_is_drawn(
    rows: Seq<RowView>,
    start: int,
    area: Rect,
    side: FileTreeSide,
    k: int,
)
    requires
        area.width >= 1,
        area.x + area.width <= u16::MAX,
        0 <= k < area.height,
    ensures
        crate::scene::thumb_covers(rows, start, area.height as int, k) <==> (
        crate::workspace_mouse::thumb_drawn(rows, start, area) matches Some((top, bottom)) && top
            <= area.y + k < bottom),
        crate::mouse::rail_column(area, side) == crate::scene::rail_of(side, area),
{
}

impl FileTree {
    /// A frame is prepared for a panel with a workspace: it has the height of the frame, nothing is
    /// left to be scrolled to, and the frame starts no later than is useful. Without a workspace there
    /// is nothing to prepare.
    pub proof fn law_frames_are_prepared_for_their_height(
        self,
        after: FileTree,
        prepared: Option<Prepared>,
        options: TreeOptions,
        height: u16,
    )
        requires
            self.is_prepared(after, prepared, options, height),
        ensures
            self.workspace is None ==> after == self && prepared is None,
            self.workspace is Some ==> prepared is Some && after.workspace is Some
                && after.workspace->0.height == height && after.workspace->0.scroll_to is None
                && prepared->0.start == clamped(
                after.workspace->0.rows@,
                after.workspace->0.start as int,
                height as int,
            ) && after.focused == self.focused && after.width == self.width,
    {
    }
}

impl Workspace {
    /// A line is typed in place of the label of its row, where that is shown, and not where it is not or
    /// where there is no room for it.
    pub proof fn law_lines_are_typed_in_place_of_labels(
        self,
        start: usize,
        content: Rect,
        icons: bool,
        right: u16,
        index: usize,
        depth: int,
    )
        requires
            self.edit_spot() == Some((index, depth)),
        ensures
            ({
                let place = place_of(
                    self.rows@,
                    start as int,
                    content.height as int,
                    index as int,
                );
                let area = self.edit_place(start, content, icons, right);
                &&& place is None || content.width < 2 ==> area is None
                &&& content.width >= 2 ==> (place matches Some(k) ==> area == Some(
                    widened(label_area(content, k, depth, index == 0, icons), right),
                ))
            }),
    {
    }
}

} // verus!
