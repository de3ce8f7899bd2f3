//! The file tree docked beside the editor: when it is shown, how wide it is, and what keys do.

use crate::edit::{Edit, EditEvent};
use crate::keys::{Action, KeyEvent};
use crate::marks::{below, files_of, Buffer};
use crate::names::{Part, TreePath};
use crate::order::FileTreeSort;
use crate::rect::Rect;
use crate::render::{full_width, FileTreeSide};
use crate::rows::RowView;
use crate::search::{path_views, Direction};
use crate::workspace::{PendingReveal, Purpose, Workspace};
use crate::workspace_edit::Acted;
use crate::workspace_update::{law_expanded_directories_are_listed, Updated};
use vstd::prelude::*;

verus! {

/// The narrowest and widest the panel gets, its rail included.
pub const MIN_WIDTH: u16 = 16;

pub const MAX_WIDTH: u16 = 64;

/// The columns the panel always leaves to the editor; with fewer it yields.
pub const MIN_EDITOR_WIDTH: u16 = 20;

/// The columns an inline edit gets at least, reaching over the editor if the panel is narrower.
pub const MIN_EDIT_WIDTH: u16 = 30;

/// When the panel is shown.
#[derive(Clone, Copy, Debug, PartialEq, Eq, Structural)]
pub enum Visibility {
    /// Only while the tree is focused.
    WhileFocused,
    Always,
}

/// A press on the rail and the drag that may follow it.
#[derive(Clone, Copy, Debug, PartialEq, Eq, Structural)]
pub enum Gesture {
    /// Pressed the thumb, `grab` rows below its top.
    ThumbPressed { column: u16, row: u16, grab: usize },
    /// Pressed the track, where a release pages.
    TrackPressed { column: u16, row: u16 },
    Scrolling { grab: usize },
    Resizing,
    /// Dragging the track up or down, which does nothing.
    Ignoring,
}

/// The file tree docked beside the editor.
pub struct FileTree {
    pub visibility: Visibility,
    pub focused: bool,
    /// The requested panel width; `None` until it is fitted when first shown.
    pub width: Option<u16>,
    /// The tree of the current workspace, created when the panel is first shown.
    pub workspace: Option<Workspace>,
    pub last_generation: u64,
    /// The keys of an unfinished sequence like `z`.
    pub pending: Vec<KeyEvent>,
    /// The widest the panel may get in the current screen.
    pub max_width: u16,
    /// Where the panel was drawn last.
    pub area: Option<Rect>,
    pub gesture: Option<Gesture>,
}

/// How the file tree is set up.
#[derive(Clone, Copy, Debug)]
pub struct TreeOptions {
    pub sort: FileTreeSort,
    pub flatten_dirs: bool,
}

/// What the file tree needs to know of the editor when it gets a workspace.
#[derive(Debug)]
pub struct Desk {
    /// The working directory.
    pub root: TreePath,
    pub buffers: Vec<Buffer>,
    /// The path of the focused buffer.
    pub focused: Option<TreePath>,
}

/// A width within the limits of the panel.
pub open spec fn limited(width: int, max_width: u16) -> int {
    let width = if width < max_width {
        width
    } else {
        max_width as int
    };
    if width > MIN_WIDTH {
        width
    } else {
        MIN_WIDTH as int
    }
}

/// The columns that the widest of the rows from `from` on needs.
pub open spec fn widest_from(rows: Seq<RowView>, icons: bool, from: int) -> int
    decreases rows.len() - from,
{
    if from >= rows.len() {
        0
    } else {
        let rest = widest_from(rows, icons, from + 1);
        let width = full_width(rows[from], from == 0, icons);
        if width > rest {
            width
        } else {
            rest
        }
    }
}

/// The width that shows the widest row whole, with one more column for the rail, within the limits.
pub open spec fn fitted(widest: int, max_width: u16) -> int {
    limited(widest + 1, max_width)
}

proof fn lemma_widest_from(rows: Seq<RowView>, icons: bool, from: int, i: int)
    requires
        0 <= from <= i < rows.len(),
    ensures
        full_width(rows[i], i == 0, icons) <= widest_from(rows, icons, from),
    decreases rows.len() - from,
{
    if from < i {
        lemma_widest_from(rows, icons, from + 1, i);
    }
}

/// A panel fitted to its rows shows every row whole next to the rail, unless that takes more columns
/// than the panel may get.
pub proof fn law_fitted_panels_show_rows_whole(
    rows: Seq<RowView>,
    icons: bool,
    max_width: u16,
    i: int,
)
    requires
        0 <= i < rows.len(),
        widest_from(rows, icons, 0) + 1 <= max_width,
    ensures
        full_width(rows[i], i == 0, icons) <= fitted(widest_from(rows, icons, 0), max_width) - 1,
{
    lemma_widest_from(rows, icons, 0, i);
}

/// The widest the panel may get beside an editor, in a screen of that width.
pub open spec fn widest_panel(width: u16) -> u16 {
    let left = if width < MIN_EDITOR_WIDTH {
        0
    } else {
        width - MIN_EDITOR_WIDTH
    };
    if left < MAX_WIDTH {
        left as u16
    } else {
        MAX_WIDTH
    }
}

/// Where a panel of the width `width` goes in `main`, if it fits. The statusline below keeps the
/// full width.
pub open spec fn placed(main: Rect, width: u16, side: FileTreeSide) -> Option<Rect> {
    if main.height < 2 || main.width < width + MIN_EDITOR_WIDTH {
        None
    } else {
        Some(
            Rect {
                x: match side {
                    FileTreeSide::Left => main.x,
                    FileTreeSide::Right => (main.right_edge() - width) as u16,
                },
                y: main.y,
                width,
                height: (main.height - 1) as u16,
            },
        )
    }
}

/// A panel lies within the screen, and leaves its columns to the editor.
pub proof fn law_panels_leave_room_for_the_editor(main: Rect, width: u16, side: FileTreeSide)
    requires
        main.x + main.width <= u16::MAX,
        placed(main, width, side) is Some,
    ensures
        ({
            let area = placed(main, width, side)->0;
            &&& area.width + MIN_EDITOR_WIDTH <= main.width
            &&& main.x <= area.x
            &&& area.x + area.width <= main.x + main.width
            &&& side is Left ==> area.x == main.x
            &&& side is Right ==> area.x + area.width == main.x + main.width
        }),
{
}

/// The reveals of the open files.
pub open spec fn shows_files(reveals: Seq<PendingReveal>, files: Seq<Seq<Part>>) -> bool {
    &&& reveals.len() == files.len()
    &&& forall|i: int|
        0 <= i < reveals.len() ==> (#[trigger] reveals[i]).path@ == files[i]
            && reveals[i].purpose is Show
}

/// What a key does.
#[derive(Debug)]
pub enum KeyOutcome {
    /// The editor handles the key.
    Ignored,
    /// The key goes to the edit.
    Edit(EditEvent),
    Run(Action),
    /// The key starts or continues a sequence, whose continuations are shown.
    Pending,
    /// The key continues no sequence, and cancels it.
    Cancelled,
}

/// What an action of the panel leaves to be done.
#[derive(Debug)]
pub enum RunOutcome {
    /// Show the keys.
    Help,
    Done,
    /// Open the file at the absolute path in another program.
    OpenExternally(TreePath),
    /// Go to another match of the last query.
    Find(Direction),
    /// What the action on the tree leaves to be done, after which the tree is to be updated.
    Acted(Acted),
}

impl FileTree {
    /// The workspace is in order, and the width within the limits.
    pub open spec fn wf(&self) -> bool {
        &&& self.workspace matches Some(workspace) ==> workspace.wf() && workspace.settled()
        &&& self.width matches Some(width) ==> MIN_WIDTH <= width <= MAX_WIDTH
        &&& self.max_width <= MAX_WIDTH
    }

    /// The rows are up to date.
    pub open spec fn fresh(&self) -> bool {
        self.workspace matches Some(workspace) ==> workspace.fresh()
    }

    pub open spec fn presented(&self) -> bool {
        self.visibility is Always || self.focused
    }

    /// Whether something is being typed.
    pub open spec fn editing(&self) -> bool {
        self.workspace matches Some(workspace) && workspace.edit is Some
    }

    pub fn new() -> (tree: FileTree)
        ensures
            tree.wf(),
            tree.visibility is WhileFocused,
            !tree.focused,
            tree.width is None,
            tree.workspace is None,
            tree.last_generation == 0,
            tree.pending@.len() == 0,
            tree.max_width == 0,
            tree.area is None,
            tree.gesture is None,
    {
        FileTree {
            visibility: Visibility::WhileFocused,
            focused: false,
            width: None,
            workspace: None,
            last_generation: 0,
            pending: Vec::new(),
            max_width: 0,
            area: None,
            gesture: None,
        }
    }

    pub fn is_focused(&self) -> (focused: bool)
        ensures
            focused == self.focused,
    {
        self.focused
    }

    pub fn is_presented(&self) -> (is: bool)
        ensures
            is == self.presented(),
    {
        self.visibility == Visibility::Always || self.focused
    }

    pub(crate) fn is_editing(&self) -> (is: bool)
        ensures
            is == self.editing(),
    {
        match &self.workspace {
            Some(workspace) => workspace.edit.is_some(),
            None => false,
        }
    }

    /// Whether `after` is the tree with a workspace, showing the open files in a new one.
    pub open spec fn ensured(
        self,
        after: FileTree,
        created: Option<Updated>,
        desk: Desk,
        options: TreeOptions,
    ) -> bool {
        if self.workspace is Some {
            after == self && created is None
        } else {
            &&& after == FileTree {
                workspace: after.workspace,
                last_generation: after.last_generation,
                ..self
            }
            &&& after.last_generation == self.last_generation + 1
            &&& after.workspace matches Some(workspace)
            &&& created matches Some(updated)
            &&& created_for(workspace, updated, after.last_generation, desk, options)
        }
    }

    /// Gives the tree a workspace, unless it has one.
    pub fn ensure_workspace(&mut self, desk: &Desk, options: TreeOptions) -> (created: Option<Updated>)
        requires
            old(self).wf(),
            old(self).last_generation < u64::MAX,
        ensures
            final(self).wf(),
            final(self).workspace is Some,
            old(self).workspace is None ==> final(self).fresh(),
            old(self).ensured(*final(self), created, *desk, options),
    {
        if self.workspace.is_some() {
            return None;
        }
        self.last_generation = self.last_generation + 1;
        let mut workspace: Workspace = Workspace::new(
            desk.root.copy(),
            self.last_generation,
            options.sort,
            options.flatten_dirs,
        );
        let ghost empty = workspace;
        let mut i: usize = 0;
        while i < desk.buffers.len()
            invariant
                i <= desk.buffers@.len(),
                workspace.wf(),
                workspace.fresh(),
                workspace == (Workspace { reveals: workspace.reveals, ..empty }),
                shows_files(
                    workspace.reveals@,
                    files_of(desk.root@, desk.buffers@.take(i as int), false),
                ),
            decreases desk.buffers.len() - i,
        {
            assert(desk.buffers@.take(i + 1).drop_last() =~= desk.buffers@.take(i as int));
            assert(desk.buffers@.take(i + 1).last() == desk.buffers@[i as int]);
            if let Some(path) = &desk.buffers[i].path {
                if let Some(path) = path.strip_prefix(&desk.root) {
                    workspace.reveal_later(path, Purpose::Show);
                }
            }
            i += 1;
        }
        assert(desk.buffers@.take(i as int) =~= desk.buffers@);
        let ghost new = workspace;
        let updated: Updated = workspace.update(options.sort, options.flatten_dirs);
        proof {
            assert(empty.is_new(
                desk.root@,
                self.last_generation,
                options.sort,
                options.flatten_dirs,
            ));
            assert(new.is_updated(workspace, updated, options.sort, options.flatten_dirs));
        }
        self.workspace = Some(workspace);
        Some(updated)
    }

    /// Shows the panel without focusing it, as at startup.
    pub fn show(&mut self, desk: &Desk, options: TreeOptions) -> (created: Option<Updated>)
        requires
            old(self).wf(),
            old(self).last_generation < u64::MAX,
        ensures
            final(self).wf(),
            final(self).presented(),
            (FileTree { visibility: Visibility::Always, ..*old(self) }).ensured(
                *final(self),
                created,
                *desk,
                options,
            ),
    {
        self.visibility = Visibility::Always;
        self.ensure_workspace(desk, options)
    }

    /// Switches between always showing the panel and showing it only while focused.
    pub fn toggle(&mut self, desk: &Desk, options: TreeOptions) -> (created: Option<Updated>)
        requires
            old(self).wf(),
            old(self).last_generation < u64::MAX,
        ensures
            final(self).wf(),
            final(self).presented() == !(old(self).visibility is Always),
            match old(self).visibility {
                Visibility::Always => created is None && *final(self) == (FileTree {
                    visibility: Visibility::WhileFocused,
                    focused: false,
                    ..*old(self)
                }),
                Visibility::WhileFocused => (FileTree {
                    visibility: Visibility::Always,
                    ..*old(self)
                }).ensured(*final(self), created, *desk, options),
            },
    {
        match self.visibility {
            Visibility::Always => {
                self.visibility = Visibility::WhileFocused;
                self.focused = false;
                None
            },
            Visibility::WhileFocused => self.show(desk, options),
        }
    }

    /// Focuses the tree, putting the cursor on the focused buffer's file, or gives focus back
    /// to the editor.
    pub fn toggle_focus(&mut self, desk: &Desk, options: TreeOptions) -> (updates: Updates)
        requires
            old(self).wf(),
            old(self).last_generation < u64::MAX,
        ensures
            final(self).wf(),
            final(self).focused == !old(self).focused,
            if old(self).focused {
                &&& *final(self) == (FileTree { focused: false, ..*old(self) })
                &&& updates.created is None
                &&& updates.updated is None
            } else {
                &&& final(self).fresh()
                &&& exists|ensured: FileTree|
                    #![trigger ensured.wf()]
                    {
                        &&& ensured.wf()
                        &&& (FileTree { focused: true, ..*old(self) }).ensured(
                            ensured,
                            updates.created,
                            *desk,
                            options,
                        )
                        &&& ensured.focused_on(*final(self), updates.updated, *desk, options)
                    }
            },
    {
        if self.focused {
            self.focused = false;
            return Updates { created: None, updated: None };
        }
        self.focused = true;
        let created: Option<Updated> = self.ensure_workspace(desk, options);
        let ghost ensured = *self;
        let updated: Option<Updated> = match &mut self.workspace {
            Some(workspace) => Some(workspace.send_to_focused(desk, options)),
            None => None,
        };
        assert(ensured.wf());
        Updates { created, updated }
    }

    /// Whether `after` is the tree with the cursor on its way to the focused buffer's file.
    pub open spec fn focused_on(
        self,
        after: FileTree,
        updated: Option<Updated>,
        desk: Desk,
        options: TreeOptions,
    ) -> bool {
        &&& after == FileTree { workspace: after.workspace, ..self }
        &&& self.workspace matches Some(workspace)
        &&& after.workspace matches Some(then)
        &&& updated matches Some(updated)
        &&& workspace.sent_to_focused(then, updated, desk, options)
    }

    /// Gives the editor its focus back, abandoning an unfinished edit.
    pub fn unfocus(&mut self)
        requires
            old(self).wf(),
            old(self).workspace matches Some(workspace) ==> workspace.search.generation < u64::MAX,
        ensures
            final(self).wf(),
            *final(self) == (FileTree {
                focused: false,
                workspace: final(self).workspace,
                ..*old(self)
            }),
            match old(self).workspace {
                Some(workspace) => final(self).workspace matches Some(after) && (Workspace {
                    edit: None,
                    dirty: workspace.dirty || workspace.edit is Some,
                    ..workspace
                }).search_finished(after, false),
                None => final(self).workspace is None,
            },
    {
        self.focused = false;
        match &mut self.workspace {
            Some(workspace) => {
                workspace.cancel_edit();
            },
            None => {},
        }
    }
}

impl Workspace {
    /// Whether `then` is the workspace brought up to date with the cursor on its way to the focused
    /// buffer's file, or else on the root.
    pub open spec fn sent_to_focused(
        self,
        then: Workspace,
        updated: Updated,
        desk: Desk,
        options: TreeOptions,
    ) -> bool {
        exists|before: Workspace|
            #![trigger before.is_updated(then, updated, options.sort, options.flatten_dirs)]
            {
                &&& before.is_updated(then, updated, options.sort, options.flatten_dirs)
                &&& before == Workspace {
                    cursor: self.tree.shape().root,
                    reveals: before.reveals,
                    ..self
                }
                &&& match below(self.root@, desk.focused) {
                    Some(path) => {
                        &&& before.reveals@.len() == self.reveals@.len() + 1
                        &&& before.reveals@.drop_last() == self.reveals@
                        &&& before.reveals@.last().path@ == path
                        &&& before.reveals@.last().purpose is Cursor
                    },
                    None => before.reveals@ == self.reveals@,
                }
            }
    }

    fn send_to_focused(&mut self, desk: &Desk, options: TreeOptions) -> (updated: Updated)
        requires
            old(self).wf(),
            old(self).settled(),
        ensures
            final(self).wf(),
            final(self).fresh(),
            old(self).sent_to_focused(*final(self), updated, *desk, options),
    {
        let ghost start = *self;
        self.cursor = self.tree.root();
        if let Some(path) = &desk.focused {
            if let Some(path) = path.strip_prefix(&self.root) {
                self.reveal_later(path, Purpose::Cursor);
                assert(self.reveals@.drop_last() =~= start.reveals@);
            }
        }
        let ghost before = *self;
        let updated: Updated = self.update(options.sort, options.flatten_dirs);
        assert(before.is_updated(*self, updated, options.sort, options.flatten_dirs));
        updated
    }
}

/// What asking for listings and rebuilding rows takes, for a new workspace and for the focused file.
#[derive(Debug)]
pub struct Updates {
    pub created: Option<Updated>,
    pub updated: Option<Updated>,
}

/// Whether `workspace` is a new one brought up to date, that shows the open files.
pub open spec fn created_for(
    workspace: Workspace,
    updated: Updated,
    generation: u64,
    desk: Desk,
    options: TreeOptions,
) -> bool {
    exists|empty: Workspace, new: Workspace|
        #![trigger empty.is_new(
            desk.root@,
            generation,
            options.sort,
            options.flatten_dirs,
        ), new.is_updated(workspace, updated, options.sort, options.flatten_dirs)]
        {
            &&& empty.is_new(desk.root@, generation, options.sort, options.flatten_dirs)
            &&& new == (Workspace { reveals: new.reveals, ..empty })
            &&& new.wf()
            &&& shows_files(new.reveals@, files_of(desk.root@, desk.buffers@, false))
            &&& new.is_updated(workspace, updated, options.sort, options.flatten_dirs)
        }
}

/// A new panel asks for the listing of its root, which is what it shows first.
pub proof fn law_new_panels_list_their_root(
    workspace: Workspace,
    updated: Updated,
    generation: u64,
    desk: Desk,
    options: TreeOptions,
)
    requires
        created_for(workspace, updated, generation, desk, options),
    ensures
        path_views(updated.dirs@).contains(Seq::<Part>::empty()),
{
    let (empty, new) = choose|empty: Workspace, new: Workspace|
        #![trigger empty.is_new(
            desk.root@,
            generation,
            options.sort,
            options.flatten_dirs,
        ), new.is_updated(workspace, updated, options.sort, options.flatten_dirs)]
        {
            &&& empty.is_new(desk.root@, generation, options.sort, options.flatten_dirs)
            &&& new == (Workspace { reveals: new.reveals, ..empty })
            &&& new.wf()
            &&& shows_files(new.reveals@, files_of(desk.root@, desk.buffers@, false))
            &&& new.is_updated(workspace, updated, options.sort, options.flatten_dirs)
        };
    let shape = new.tree.shape();
    assert(new.tree.requests()[0] == shape.root);
    law_expanded_directories_are_listed(
        new,
        workspace,
        updated,
        options.sort,
        options.flatten_dirs,
        shape.root,
    );
}

/// A width within the limits of the panel is kept, and one outside of them becomes the limit. Where
/// the two exclude each other, the panel is as narrow as it may get.
pub proof fn law_widths_are_kept_within_the_limits(width: int, max_width: u16)
    ensures
        MIN_WIDTH <= width <= max_width ==> limited(width, max_width) == width,
        width < MIN_WIDTH ==> limited(width, max_width) == MIN_WIDTH,
        width > max_width >= MIN_WIDTH ==> limited(width, max_width) == max_width,
        max_width < MIN_WIDTH ==> limited(width, max_width) == MIN_WIDTH,
{
}

/// A panel is shown exactly where the screen has a row for it above the statusline and, beside it,
/// the columns that the editor needs.
pub proof fn law_panels_are_shown_where_they_fit(main: Rect, width: u16, side: FileTreeSide)
    ensures
        placed(main, width, side) is Some <==> main.height >= 2 && main.width >= width
            + MIN_EDITOR_WIDTH,
        placed(main, width, side) matches Some(area) ==> area.y == main.y && area.height + 1
            == main.height && area.width == width,
        widest_panel(main.width) <= MAX_WIDTH,
        main.width >= MIN_EDITOR_WIDTH ==> widest_panel(main.width) + MIN_EDITOR_WIDTH
            <= main.width,
        main.width >= MAX_WIDTH + MIN_EDITOR_WIDTH ==> widest_panel(main.width) == MAX_WIDTH,
{
}

impl FileTree {
    /// The panel is presented while it is focused, and always if that is wanted. Something is typed
    /// while the workspace has an edit.
    pub proof fn law_focused_panels_are_presented(self)
        ensures
            self.focused ==> self.presented(),
            self.visibility is Always ==> self.presented(),
            !self.focused && self.visibility is WhileFocused ==> !self.presented(),
            self.editing() <==> self.workspace is Some && self.workspace->0.edit is Some,
    {
    }

    /// A panel keeps the workspace that it has. One without gets a new one, which belongs to the next
    /// generation.
    pub proof fn law_panels_keep_their_workspace(
        self,
        after: FileTree,
        created: Option<Updated>,
        desk: Desk,
        options: TreeOptions,
    )
        requires
            self.ensured(after, created, desk, options),
        ensures
            self.workspace is Some ==> after == self && created is None,
            self.workspace is None ==> after.workspace is Some && created is Some
                && after.last_generation == self.last_generation + 1,
            after.focused == self.focused,
            after.visibility == self.visibility,
    {
    }
}

impl Workspace {
    /// Focusing the tree sends the cursor to the file of the focused buffer, as seen from the root, if
    /// it is below it; the paths that were to be revealed before still are. The other files only show
    /// where they are.
    pub proof fn law_the_cursor_is_sent_to_the_focused_file(
        self,
        then: Workspace,
        updated: Updated,
        desk: Desk,
        options: TreeOptions,
        file: TreePath,
        path: Seq<Part>,
    )
        requires
            self.sent_to_focused(then, updated, desk, options),
            desk.focused == Some(file),
            file@ == self.root@ + path,
        ensures
            exists|before: Workspace|
                #![trigger before.is_updated(then, updated, options.sort, options.flatten_dirs)]
                before.is_updated(then, updated, options.sort, options.flatten_dirs)
                    && before.reveals@.len() == self.reveals@.len() + 1
                    && before.reveals@.last().path@ == path && before.reveals@.last().purpose
                    == Purpose::Cursor && before.cursor == self.tree.shape().root,
    {
        let root = self.root@;
        assert(file@.take(root.len() as int) =~= root);
        assert(file@.skip(root.len() as int) =~= path);
        assert(below(root, desk.focused) == Some(path));
    }
}

impl FileTree {
    /// Sending the cursor to the focused buffer changes nothing but the workspace.
    pub proof fn law_focusing_changes_the_workspace_only(
        self,
        after: FileTree,
        updated: Option<Updated>,
        desk: Desk,
        options: TreeOptions,
    )
        requires
            self.focused_on(after, updated, desk, options),
        ensures
            after.focused == self.focused,
            after.width == self.width,
            after.visibility == self.visibility,
            after.gesture == self.gesture,
            after.last_generation == self.last_generation,
            after.workspace is Some,
            updated is Some,
    {
    }
}

} // verus!
