//! Laying out the panel, and what it does with keys, edits and results from the background.

use crate::chars::{copy_str, same_str};
use crate::edit::{edit_event_of, EditEvent, EditKindView, Placement};
use crate::git::GitStatuses;
use crate::keys::{bound, looked_up, lookup, Action, KeyEvent, Lookup};
use crate::ls_colors::{colors_of, joined_specs, LsColors};
use crate::names::{joined, TreePath};
use crate::panel::{
    fitted, limited, placed, widest_from, widest_panel, FileTree, KeyOutcome, RunOutcome,
    TreeOptions, MAX_WIDTH, MIN_EDITOR_WIDTH, MIN_EDIT_WIDTH, MIN_WIDTH,
};
use crate::rect::Rect;
use crate::render::{counted, natural_width, FileTreeSide};
use crate::rows::Rows;
use crate::search::Direction;
use crate::tree::{is_listing, Listing};
use crate::viewport::{
    align, aligned_start, clamp, clamped, is_visible, revealed_start, visible, Align,
};
use crate::workspace::{at_least_one, Focus, Workspace};
use crate::workspace_edit::{plan, says_yes, Acted, Submitted};
use crate::workspace_update::Updated;
use vstd::prelude::*;

verus! {

fn widest(rows: &Rows, icons: bool) -> (widest: usize)
    ensures
        widest == counted(widest_from(rows@, icons, 0)),
{
    let mut widest: usize = 0;
    let mut i: usize = rows.len();
    while i > 0
        invariant
            i <= rows@.len(),
            widest == counted(widest_from(rows@, icons, i as int)),
        decreases i,
    {
        i -= 1;
        let width: usize = natural_width(rows.row(i), i == 0, icons);
        if width > widest {
            widest = width;
        }
    }
    widest
}

fn limit(width: u16, max_width: u16) -> (limit: u16)
    ensures
        limit == limited(width as int, max_width),
{
    let width: u16 = if width < max_width {
        width
    } else {
        max_width
    };
    if width > MIN_WIDTH {
        width
    } else {
        MIN_WIDTH
    }
}

impl FileTree {
    /// The columns that the widest row needs.
    pub open spec fn widest_row(&self, icons: bool) -> int {
        match self.workspace {
            Some(workspace) => widest_from(workspace.rows@, icons, 0),
            None => 0,
        }
    }

    /// The width that shows the widest row whole, within the limits.
    pub fn fitted_width(&self, icons: bool) -> (width: u16)
        ensures
            width == fitted(self.widest_row(icons), self.max_width),
    {
        let widest: usize = match &self.workspace {
            Some(workspace) => widest(&workspace.rows, icons),
            None => 0,
        };
        // one more column for the rail
        let width: u16 = if widest >= u16::MAX as usize {
            u16::MAX
        } else {
            widest as u16 + 1
        };
        limit(width, self.max_width)
    }

    /// The panel's area in `main`, the area of the editor and the panel above the command line,
    /// or `None` if the panel is hidden or does not fit.
    pub fn layout(&mut self, main: Rect, side: FileTreeSide, icons: bool) -> (area: Option<Rect>)
        requires
            old(self).wf(),
        ensures
            final(self).wf(),
            if old(self).presented() && old(self).workspace is Some && old(self).workspace->0.ready {
                let max_width = widest_panel(main.width);
                let width = match old(self).width {
                    Some(width) => width,
                    None => fitted(old(self).widest_row(icons), max_width) as u16,
                };
                &&& area == placed(main, width, side)
                &&& *final(self) == (FileTree {
                    max_width,
                    width: Some(width),
                    focused: old(self).focused && area is Some,
                    ..*old(self)
                })
            } else {
                area is None && *final(self) == *old(self)
            },
    {
        if !self.is_presented() {
            return None;
        }
        let ready: bool = match &self.workspace {
            Some(workspace) => workspace.ready,
            None => false,
        };
        if !ready {
            return None;
        }
        let left: u16 = main.width.saturating_sub(MIN_EDITOR_WIDTH);
        self.max_width = if left < MAX_WIDTH {
            left
        } else {
            MAX_WIDTH
        };
        let width: u16 = match self.width {
            Some(width) => width,
            None => {
                let width: u16 = self.fitted_width(icons);
                self.width = Some(width);
                width
            },
        };
        if main.height < 2 || main.width < width + MIN_EDITOR_WIDTH {
            self.focused = false;
            return None;
        }
        let x: u16 = match side {
            FileTreeSide::Left => main.left(),
            FileTreeSide::Right => main.right() - width,
        };
        // The statusline below keeps the full width.
        Some(Rect::new(x, main.y, width, main.height - 1))
    }

    /// Whether `after` is the tree brought up to date, with the cursor in view.
    pub open spec fn brought_up(
        self,
        after: FileTree,
        updated: Option<Updated>,
        options: TreeOptions,
        scrolloff: usize,
    ) -> bool {
        &&& after == FileTree { workspace: after.workspace, ..self }
        &&& match self.workspace {
            Some(workspace) => {
                &&& after.workspace matches Some(then)
                &&& updated matches Some(updated)
                &&& workspace.brought_up(then, updated, options, scrolloff)
            },
            None => after.workspace is None && updated is None,
        }
    }

    /// Brings the rows up to date after a change and keeps the cursor in view.
    pub fn update(&mut self, options: TreeOptions, scrolloff: usize) -> (updated:
        Option<Updated>)
        requires
            old(self).wf(),
        ensures
            final(self).wf(),
            final(self).fresh(),
            old(self).brought_up(*final(self), updated, options, scrolloff),
    {
        match &mut self.workspace {
            Some(workspace) => Some(workspace.bring_up(options, scrolloff)),
            None => None,
        }
    }

    /// Handles `key` while the tree is focused. A key it does not bind is ignored, for the
    /// editor to handle.
    pub fn handle_key(&mut self, key: KeyEvent) -> (outcome: KeyOutcome)
        ensures
            *final(self) == (FileTree { pending: final(self).pending, ..*old(self) }),
            if old(self).editing() {
                &&& outcome == KeyOutcome::Edit(edit_event_of(key))
                &&& final(self).pending == old(self).pending
            } else {
                let sequence = old(self).pending@.push(key);
                match looked_up(bound(), sequence) {
                    Lookup::Action(action) => outcome == KeyOutcome::Run(action)
                        && final(self).pending@ == Seq::<KeyEvent>::empty(),
                    Lookup::Prefix => outcome is Pending && final(self).pending@ == sequence,
                    Lookup::Unbound => {
                        &&& final(self).pending@ == Seq::<KeyEvent>::empty()
                        &&& if sequence.len() > 1 {
                            outcome is Cancelled
                        } else {
                            outcome is Ignored
                        }
                    },
                }
            },
    {
        if let Some(workspace) = &self.workspace {
            if let Some(edit) = &workspace.edit {
                return KeyOutcome::Edit(edit.handle_event(key));
            }
        }
        let mut sequence: Vec<KeyEvent> = Vec::new();
        std::mem::swap(&mut sequence, &mut self.pending);
        sequence.push(key);
        match lookup(sequence.as_slice()) {
            Lookup::Action(action) => KeyOutcome::Run(action),
            Lookup::Prefix => {
                self.pending = sequence;
                KeyOutcome::Pending
            },
            // A key that continues no sequence cancels it, like in the editor.
            Lookup::Unbound => if sequence.len() > 1 {
                KeyOutcome::Cancelled
            } else {
                KeyOutcome::Ignored
            },
        }
    }

    /// Whether there is an unfinished edit to hand pasted text to.
    pub fn handle_paste(&self) -> (editing: bool)
        ensures
            editing == self.editing(),
    {
        self.is_editing()
    }

    /// What is left to be done for an event of the edit. The tree is to be updated afterwards,
    /// unless the edit continues.
    pub fn handle_edit(&mut self, event: EditEvent) -> (submitted: Option<Submitted>)
        requires
            old(self).wf(),
            old(self).workspace matches Some(workspace) ==> workspace.search.generation < u64::MAX,
        ensures
            final(self).wf(),
            *final(self) == (FileTree { workspace: final(self).workspace, ..*old(self) }),
            old(self).workspace is None ==> final(self).workspace is None && submitted is None,
            old(self).workspace matches Some(workspace) ==> {
                &&& final(self).workspace matches Some(after)
                &&& workspace.edit_handled(after, submitted, event)
            },
    {
        match &mut self.workspace {
            Some(workspace) => workspace.handle_edit(event),
            None => None,
        }
    }

    /// Goes on after the file of an action was opened or could not be, or an edit was carried out.
    pub fn refocus(&mut self, focus: Focus)
        ensures
            *final(self) == (FileTree {
                focused: old(self).focused && focus is Keep,
                ..*old(self)
            }),
    {
        if focus == Focus::Release {
            self.focused = false;
        }
    }

    /// Runs an action. One on the tree leaves it to be updated.
    pub fn run(&mut self, action: Action, icons: bool) -> (outcome: RunOutcome)
        requires
            old(self).wf(),
            old(self).fresh(),
        ensures
            final(self).wf(),
            match action {
                Action::Help => outcome is Help && *final(self) == *old(self),
                Action::Unfocus => outcome is Done && *final(self) == (FileTree {
                    focused: false,
                    ..*old(self)
                }),
                Action::Grow | Action::Shrink => outcome is Done && *final(self) == (FileTree {
                    width: Some(
                        limited(
                            old(self).current_width() + (if action is Grow {
                                1int
                            } else {
                                -1int
                            }),
                            old(self).max_width,
                        ) as u16,
                    ),
                    ..*old(self)
                }),
                Action::Fit => outcome is Done && *final(self) == (FileTree {
                    width: Some(
                        fitted(old(self).widest_row(icons), old(self).max_width) as u16,
                    ),
                    ..*old(self)
                }),
                Action::OpenExternally => {
                    &&& *final(self) == *old(self)
                    &&& match outcome {
                        RunOutcome::OpenExternally(path) => old(self).workspace matches Some(
                            workspace,
                        ) && workspace.rows.row_of(workspace.cursor) is Some && path@ == joined(
                            workspace.root@,
                            workspace.rows@[workspace.rows.row_of(workspace.cursor)->0 as int].path,
                        ),
                        RunOutcome::Done => old(self).workspace is None
                            || old(self).workspace->0.rows.row_of(
                            old(self).workspace->0.cursor,
                        ) is None,
                        _ => false,
                    }
                },
                Action::NextMatch => *final(self) == *old(self) && outcome == RunOutcome::Find(
                    Direction::Forward,
                ),
                Action::PreviousMatch => *final(self) == *old(self) && outcome
                    == RunOutcome::Find(Direction::Backward),
                Action::Search => {
                    &&& *final(self) == (FileTree {
                        workspace: final(self).workspace,
                        ..*old(self)
                    })
                    &&& outcome is Done
                    &&& match old(self).workspace {
                        Some(workspace) => final(self).workspace matches Some(after)
                            && workspace.search_started(after),
                        None => final(self).workspace is None,
                    }
                },
                _ => {
                    &&& *final(self) == (FileTree {
                        workspace: final(self).workspace,
                        ..*old(self)
                    })
                    &&& outcome matches RunOutcome::Acted(acted)
                    &&& match old(self).workspace {
                        Some(workspace) => final(self).workspace matches Some(after)
                            && workspace.acted_on(after, acted, action),
                        None => final(self).workspace is None && acted is Nothing,
                    }
                },
            },
    {
        match action {
            Action::Help => RunOutcome::Help,
            Action::Unfocus => {
                self.focused = false;
                RunOutcome::Done
            },
            Action::Grow => {
                let width: u16 = self.width_now();
                self.width = Some(limit(width + 1, self.max_width));
                RunOutcome::Done
            },
            Action::Shrink => {
                let width: u16 = self.width_now();
                self.width = Some(limit(width - 1, self.max_width));
                RunOutcome::Done
            },
            Action::Fit => {
                self.width = Some(self.fitted_width(icons));
                RunOutcome::Done
            },
            Action::OpenExternally => match &self.workspace {
                Some(workspace) => match workspace.cursor_path() {
                    Some(path) => RunOutcome::OpenExternally(path),
                    None => RunOutcome::Done,
                },
                None => RunOutcome::Done,
            },
            Action::NextMatch => RunOutcome::Find(Direction::Forward),
            Action::PreviousMatch => RunOutcome::Find(Direction::Backward),
            Action::Search => {
                match &mut self.workspace {
                    Some(workspace) => workspace.start_search(),
                    None => {},
                }
                RunOutcome::Done
            },
            _ => match &mut self.workspace {
                Some(workspace) => RunOutcome::Acted(workspace.act(action)),
                None => RunOutcome::Acted(Acted::Nothing),
            },
        }
    }

    /// The width of the panel, or the narrowest one before it is first shown.
    pub open spec fn current_width(&self) -> u16 {
        match self.width {
            Some(width) => width,
            None => MIN_WIDTH,
        }
    }

    fn width_now(&self) -> (width: u16)
        requires
            self.wf(),
        ensures
            width == self.current_width(),
            MIN_WIDTH <= width <= MAX_WIDTH,
    {
        match self.width {
            Some(width) => width,
            None => MIN_WIDTH,
        }
    }

    /// Merges listings that arrived for the workspace of `generation` and brings it up to date.
    /// Does nothing for another workspace than the current one.
    pub fn apply_listings(
        &mut self,
        generation: u64,
        listings: Vec<(TreePath, Listing)>,
        options: TreeOptions,
    ) -> (updated: Option<Updated>)
        requires
            old(self).wf(),
            forall|k: int| 0 <= k < listings@.len() ==> is_listing((#[trigger] listings@[k]).1),
        ensures
            final(self).wf(),
            match old(self).workspace {
                Some(workspace) => {
                    &&& updated is Some <==> workspace.generation == generation
                    &&& updated is None ==> *final(self) == *old(self)
                    &&& updated matches Some(updated) ==> {
                        &&& *final(self) == (FileTree {
                            workspace: final(self).workspace,
                            ..*old(self)
                        })
                        &&& final(self).workspace matches Some(after)
                        &&& workspace.relisted(after, listings@, updated, options)
                        &&& after.fresh()
                        &&& after.ready
                    }
                },
                None => updated is None && *final(self) == *old(self),
            },
    {
        match &mut self.workspace {
            Some(workspace) => workspace.take_listings(generation, listings, options),
            None => None,
        }
    }

    /// Takes the git status read for the workspace of `generation`. Returns whether to read it
    /// again.
    pub fn apply_git(&mut self, generation: u64, statuses: GitStatuses) -> (again: bool)
        requires
            old(self).wf(),
        ensures
            final(self).wf(),
            match old(self).workspace {
                Some(workspace) => if generation == workspace.generation {
                    &&& again == (workspace.git_refresh is RunningStale)
                    &&& *final(self) == (FileTree {
                        workspace: Some(
                            Workspace {
                                git: statuses,
                                git_refresh: crate::workspace_refresh::refresh_ended(
                                    workspace.git_refresh,
                                ),
                                ..workspace
                            },
                        ),
                        ..*old(self)
                    })
                } else {
                    !again && *final(self) == *old(self)
                },
                None => !again && *final(self) == *old(self),
            },
    {
        match &mut self.workspace {
            Some(workspace) => workspace.apply_git(generation, statuses),
            None => false,
        }
    }

    /// Where the line of an edit is drawn: in the command line, in the area of its row, or not at
    /// all.
    pub fn prompt_area(&self, edit_area: Option<Rect>) -> (area: PromptArea)
        ensures
            area == match self.workspace {
                Some(workspace) => match workspace.edit {
                    Some(edit) => if edit@.kind.place() is CommandLine {
                        PromptArea::CommandLine
                    } else {
                        match edit_area {
                            Some(area) => PromptArea::Row(area),
                            None => PromptArea::Hidden,
                        }
                    },
                    None => PromptArea::Hidden,
                },
                None => PromptArea::Hidden,
            },
    {
        match &self.workspace {
            Some(workspace) => match &workspace.edit {
                Some(edit) => match edit.placement() {
                    Placement::CommandLine => PromptArea::CommandLine,
                    Placement::Row => match edit_area {
                        Some(area) => PromptArea::Row(area),
                        None => PromptArea::Hidden,
                    },
                },
                None => PromptArea::Hidden,
            },
            None => PromptArea::Hidden,
        }
    }
}

/// Where the line of an edit is drawn.
#[derive(Clone, Copy, Debug, PartialEq, Eq, Structural)]
pub enum PromptArea {
    Hidden,
    CommandLine,
    Row(Rect),
}

/// The area of an inline edit in the area of its row, up to `right` at most.
pub open spec fn widened(row: Rect, right: u16) -> Rect {
    let wanted = if row.width > MIN_EDIT_WIDTH {
        row.width
    } else {
        MIN_EDIT_WIDTH
    };
    Rect {
        width: if row.x + wanted <= right {
            wanted
        } else if row.x <= right {
            (right - row.x) as u16
        } else {
            0
        },
        ..row
    }
}

/// The area of an inline edit in the area of its row. A panel fitted to its rows leaves little room
/// to type in, so it may reach up to `right`.
pub fn edit_area(row: Rect, right: u16) -> (area: Rect)
    ensures
        area == widened(row, right),
{
    let wanted: u16 = if row.width > MIN_EDIT_WIDTH {
        row.width
    } else {
        MIN_EDIT_WIDTH
    };
    let room: u16 = right.saturating_sub(row.x);
    let width: u16 = if wanted < room {
        wanted
    } else {
        room
    };
    Rect { width, ..row }
}

impl Workspace {
    /// The start that shows the cursor, from the start `start`.
    pub open spec fn start_for_cursor(self, start: usize, scrolloff: usize) -> int {
        match self.row_under_cursor() {
            Some(row) => revealed_start(
                self.rows@,
                start as int,
                at_least_one(self.height as int),
                row as int,
                scrolloff as int,
            ),
            None => start as int,
        }
    }

    /// Whether `then` is the workspace brought up to date, with the cursor in view.
    pub open spec fn brought_up(
        self,
        then: Workspace,
        updated: Updated,
        options: TreeOptions,
        scrolloff: usize,
    ) -> bool {
        exists|middle: Workspace|
            #![trigger self.is_updated(middle, updated, options.sort, options.flatten_dirs)]
            {
                &&& self.is_updated(middle, updated, options.sort, options.flatten_dirs)
                &&& then == Workspace { start: then.start, ..middle }
                &&& then.start == then.start_for_cursor(middle.start, scrolloff)
            }
    }

    fn bring_up(&mut self, options: TreeOptions, scrolloff: usize) -> (updated:
        Updated)
        requires
            old(self).wf(),
            old(self).settled(),
        ensures
            final(self).wf(),
            final(self).fresh(),
            old(self).brought_up(*final(self), updated, options, scrolloff),
    {
        let updated: Updated = self.update(options.sort, options.flatten_dirs);
        let ghost middle = *self;
        self.reveal_cursor(scrolloff);
        assert(old(self).is_updated(middle, updated, options.sort, options.flatten_dirs));
        updated
    }

    /// Whether `after` is the workspace after an action on it.
    pub open spec fn acted_on(self, after: Workspace, acted: Acted, action: Action) -> bool {
        match self.rows.row_of(self.cursor) {
            None => after == self && acted is Nothing,
            Some(index) => self.acted(after, acted, index as int, action),
        }
    }

    /// Whether `after` is the workspace after an event of its edit.
    pub open spec fn edit_handled(
        self,
        after: Workspace,
        submitted: Option<Submitted>,
        event: EditEvent,
    ) -> bool {
        match self.edit {
            None => after == self && submitted is None,
            Some(edit) => match event {
                EditEvent::Continue => after == self && submitted is None,
                EditEvent::Cancel => {
                    &&& submitted is None
                    &&& (Workspace { edit: None, dirty: true, ..self }).search_finished(
                        after,
                        false,
                    )
                },
                EditEvent::Submit => {
                    let taken = Workspace { edit: None, dirty: true, ..self };
                    &&& submitted matches Some(submitted)
                    &&& submitted@ == plan(self.root@, edit@, self.backslash)
                    &&& match edit.kind@ {
                        EditKindView::Search => taken.search_submitted(after, edit.line),
                        EditKindView::Delete { path, .. } => if says_yes(edit.line@) {
                            taken.moved_off(after, path)
                        } else {
                            after == taken
                        },
                        _ => after == taken,
                    }
                },
            },
        }
    }

    fn handle_edit(&mut self, event: EditEvent) -> (submitted: Option<Submitted>)
        requires
            old(self).wf(),
            old(self).settled(),
            old(self).search.generation < u64::MAX,
        ensures
            final(self).wf(),
            final(self).settled(),
            old(self).edit_handled(*final(self), submitted, event),
    {
        if self.edit.is_none() {
            return None;
        }
        match event {
            EditEvent::Continue => None,
            EditEvent::Cancel => {
                self.cancel_edit();
                None
            },
            EditEvent::Submit => match self.edit.take() {
                Some(edit) => {
                    self.dirty = true;
                    Some(self.submit(edit))
                },
                None => None,
            },
        }
    }

    /// Whether `after` is the workspace with `listings` merged and brought up to date.
    pub open spec fn relisted(
        self,
        after: Workspace,
        listings: Seq<(TreePath, Listing)>,
        updated: Updated,
        options: TreeOptions,
    ) -> bool {
        exists|listed: Workspace|
            #![trigger listed.is_updated(after, updated, options.sort, options.flatten_dirs)]
            {
                &&& listed == Workspace { tree: listed.tree, ready: true, dirty: true, ..self }
                &&& listed.tree.requests() == self.tree.requests()
                &&& listed.tree.sorted_how() == self.tree.sorted_how()
                &&& exists|steps: Seq<crate::shape::Shape>|
                    #![trigger self.tree.shape().relisted_through(self.sort, listings, steps)]
                    self.tree.shape().relisted_through(self.sort, listings, steps) && steps.last()
                        == listed.tree.shape()
                &&& listed.is_updated(after, updated, options.sort, options.flatten_dirs)
            }
    }

    fn take_listings(
        &mut self,
        generation: u64,
        listings: Vec<(TreePath, Listing)>,
        options: TreeOptions,
    ) -> (updated: Option<Updated>)
        requires
            old(self).wf(),
            forall|k: int| 0 <= k < listings@.len() ==> is_listing((#[trigger] listings@[k]).1),
            old(self).settled(),
        ensures
            final(self).wf(),
            final(self).settled(),
            updated is Some <==> old(self).generation == generation,
            updated is None ==> *final(self) == *old(self),
            updated matches Some(updated) ==> final(self).fresh() && final(self).ready && old(
                self,
            ).relisted(*final(self), listings@, updated, options),
    {
        if !self.apply_listings(generation, listings) {
            return None;
        }
        let ghost listed = *self;
        let updated: Updated = self.update(options.sort, options.flatten_dirs);
        assert(listed.is_updated(*self, updated, options.sort, options.flatten_dirs));
        Some(updated)
    }

    /// The start that a frame of the height `height` has, before it is limited to what is useful:
    /// an entry to scroll to goes to the middle unless it is in view.
    pub open spec fn framed_start(&self, height: usize) -> int {
        match self.scroll_to {
            Some(target) => match self.rows.row_of(target) {
                Some(index) => if visible(
                    self.rows@,
                    self.start as int,
                    height as int,
                    index as int,
                ) {
                    self.start as int
                } else {
                    aligned_start(self.rows@, height as int, index as int, Align::Center)
                },
                None => self.start as int,
            },
            None => self.start as int,
        }
    }

    /// Prepares a frame of the height `height`. Returns the first ordinary row of it.
    pub fn frame(&mut self, height: usize) -> (start: usize)
        requires
            old(self).wf(),
        ensures
            *final(self) == (Workspace {
                height,
                scroll_to: None,
                start: old(self).framed_start(height) as usize,
                ..*old(self)
            }),
            final(self).start == old(self).framed_start(height),
            start == clamped(old(self).rows@, final(self).start as int, height as int),
    {
        self.height = height;
        if let Some(target) = self.scroll_to.take() {
            if let Some(index) = self.rows.index_of(target) {
                if !is_visible(&self.rows, self.start, height, index) {
                    self.start = align(&self.rows, height, index, Align::Center);
                }
            }
        }
        clamp(&self.rows, self.start, height)
    }
}

/// Where the rules for colors come from.
#[derive(Debug)]
pub enum LsColorsSource {
    /// The environment, if it is `true`, or nowhere.
    Environment(bool),
    Spec(String),
}

/// Where the rules for colors come from.
pub ghost enum LsColorsSourceView {
    Environment(bool),
    Spec(Seq<char>),
}

impl LsColorsSource {
    pub open spec fn view(&self) -> LsColorsSourceView {
        match self {
            LsColorsSource::Environment(on) => LsColorsSourceView::Environment(*on),
            LsColorsSource::Spec(text) => LsColorsSourceView::Spec(text@),
        }
    }

    fn same(&self, other: &LsColorsSource) -> (same: bool)
        ensures
            same == (self@ == other@),
    {
        match (self, other) {
            (LsColorsSource::Environment(a), LsColorsSource::Environment(b)) => *a == *b,
            (LsColorsSource::Spec(a), LsColorsSource::Spec(b)) => same_str(
                a.as_str(),
                b.as_str(),
            ),
            _ => false,
        }
    }

    fn copy(&self) -> (copy: LsColorsSource)
        ensures
            copy@ == self@,
    {
        match self {
            LsColorsSource::Environment(on) => LsColorsSource::Environment(*on),
            LsColorsSource::Spec(text) => LsColorsSource::Spec(copy_str(text.as_str())),
        }
    }
}

/// The `LS_COLORS` rules of the configured source, parsed once per source.
#[derive(Debug)]
pub struct Palette {
    pub source: Option<LsColorsSource>,
    pub colors: Option<LsColors>,
}

/// The specification of a source, where the environment holds the given values.
pub open spec fn source_text(
    source: LsColorsSourceView,
    ls_colors: Option<&str>,
    eza_colors: Option<&str>,
) -> Option<Seq<char>> {
    match source {
        LsColorsSourceView::Environment(on) => if on {
            joined_specs(ls_colors, eza_colors)
        } else {
            None
        },
        LsColorsSourceView::Spec(text) => Some(text),
    }
}

impl Palette {
    pub fn new() -> (palette: Palette)
        ensures
            palette.source is None,
            palette.colors is None,
    {
        Palette { source: None, colors: None }
    }

    /// The rules of `source`. The values of the environment only count when the source changes.
    pub fn get(
        &mut self,
        source: &LsColorsSource,
        ls_colors: Option<&str>,
        eza_colors: Option<&str>,
    ) -> (colors: Option<&LsColors>)
        ensures
            match (*final(self)).colors {
                Some(rules) => colors is Some && *colors->0 == rules,
                None => colors is None,
            },
            if old(self).source is Some && old(self).source->0@ == source@ {
                *final(self) == *old(self)
            } else {
                &&& final(self).source matches Some(now)
                &&& now@ == source@
                &&& match source_text(source@, ls_colors, eza_colors) {
                    Some(text) => final(self).colors is Some && final(self).colors->0@
                        == colors_of(text),
                    None => final(self).colors is None,
                }
            },
    {
        let unchanged: bool = match &self.source {
            Some(now) => now.same(source),
            None => false,
        };
        if !unchanged {
            self.colors = match source {
                LsColorsSource::Environment(on) => if *on {
                    LsColors::from_environment(ls_colors, eza_colors)
                } else {
                    None
                },
                LsColorsSource::Spec(text) => Some(LsColors::parse(text.as_str())),
            };
            self.source = Some(source.copy());
        }
        self.colors.as_ref()
    }
}

/// An inline edit starts where its row does. It is as wide as the row, or as wide as it takes to type
/// in if that is more, and it does not go past `right`.
pub proof fn law_edits_have_room_to_type(row: Rect, right: u16)
    ensures
        ({
            let area = widened(row, right);
            &&& area.x == row.x && area.y == row.y && area.height == row.height
            &&& row.x <= right ==> area.x + area.width <= right
            &&& row.x + row.width <= right && row.x + MIN_EDIT_WIDTH <= right ==> area.width
                >= row.width && area.width >= MIN_EDIT_WIDTH && (area.width == row.width
                || area.width == MIN_EDIT_WIDTH)
            &&& row.x > right ==> area.width == 0
        }),
{
}

impl Workspace {
    /// An entry to scroll to is in view in the next frame: where it is, if it is in view already, and
    /// in the middle if not. Without one, the rows stay where they are.
    pub proof fn law_frames_show_what_is_scrolled_to(self, height: usize)
        requires
            height > 0,
            self.wf(),
        ensures
            self.scroll_to is None ==> self.framed_start(height) == self.start,
            self.scroll_to matches Some(target) ==> (self.rows.row_of(target) matches Some(index)
                ==> index < self.rows@.len() ==> visible(
                self.rows@,
                self.framed_start(height),
                height as int,
                index as int,
            ) && (visible(self.rows@, self.start as int, height as int, index as int)
                ==> self.framed_start(height) == self.start)),
    {
        if let Some(target) = self.scroll_to {
            if let Some(index) = self.rows.row_of(target) {
                if index < self.rows@.len() {
                    crate::viewport::law_aligned_rows_are_visible(
                        self.rows@,
                        height as int,
                        index as int,
                        Align::Center,
                    );
                }
            }
        }
    }

    /// An edit goes on, is given up or is carried out, as its event says: giving it up undoes a
    /// search and asks for nothing, and carrying it out leaves what it asks for.
    pub proof fn law_edits_end_as_their_events_say(
        self,
        after: Workspace,
        submitted: Option<Submitted>,
        event: EditEvent,
        edit: crate::edit::Edit,
    )
        requires
            self.edit == Some(edit),
            self.edit_handled(after, submitted, event),
        ensures
            event == EditEvent::Continue ==> after == self && submitted is None,
            event != EditEvent::Continue ==> after.edit is None && after.dirty,
            event == EditEvent::Cancel ==> submitted is None,
            event == EditEvent::Submit ==> (submitted matches Some(asked) && asked@ == plan(
                self.root@,
                edit@,
                self.backslash,
            )),
    {
    }
}

/// The rules for colors come from the environment if that is wanted, from the given text if there is
/// one, and from nowhere else.
pub proof fn law_colors_come_from_their_source(
    text: Seq<char>,
    ls_colors: Option<&str>,
    eza_colors: Option<&str>,
)
    ensures
        source_text(LsColorsSourceView::Environment(true), ls_colors, eza_colors) == joined_specs(
            ls_colors,
            eza_colors,
        ),
        source_text(LsColorsSourceView::Environment(false), ls_colors, eza_colors) is None,
        source_text(LsColorsSourceView::Spec(text), ls_colors, eza_colors) == Some(text),
{
}

impl FileTree {
    /// The panel has the width that it was given, and is as narrow as it may get before.
    pub proof fn law_panels_have_their_width(self)
        ensures
            self.width matches Some(width) ==> self.current_width() == width,
            self.width is None ==> self.current_width() == MIN_WIDTH,
    {
    }
}

impl Workspace {
    /// The rows start where they show the row under the cursor, with its margin, and stay where they
    /// are if there is none.
    pub proof fn law_rows_start_where_the_cursor_shows(self, start: usize, scrolloff: usize)
        requires
            self.row_under_cursor() matches Some(row) ==> row < self.rows@.len(),
        ensures
            self.row_under_cursor() is None ==> self.start_for_cursor(start, scrolloff) == start,
            self.row_under_cursor() matches Some(row) ==> visible(
                self.rows@,
                self.start_for_cursor(start, scrolloff),
                if self.height < 1 {
                    1
                } else {
                    self.height as int
                },
                row as int,
            ),
    {
        if let Some(row) = self.row_under_cursor() {
            crate::viewport::law_revealed_rows_are_visible(
                self.rows@,
                start as int,
                at_least_one(self.height as int),
                row as int,
                scrolloff as int,
            );
        }
    }
}

impl Workspace {
    /// Once listings have arrived the panel is ready to be shown, and stays so. The cursor is on a row
    /// of the tree.
    pub proof fn law_listed_workspaces_are_ready(
        self,
        after: Workspace,
        listings: Seq<(TreePath, Listing)>,
        updated: Updated,
        options: TreeOptions,
    )
        requires
            self.relisted(after, listings, updated, options),
        ensures
            after.ready,
            after.sort == options.sort,
            after.flatten_dirs == options.flatten_dirs,
            updated.rebuilt,
            after.rows.row_of(after.cursor) is Some,
            after.edit == self.edit,
    {
    }
}

} // verus!
