//! The file operations of a workspace: starting them on the cursor's entry, typing the name they
//! need, and carrying them out.

use crate::arena::{Kind, NodeId};
use crate::chars::{chars_of_str, copy_str, trim, trimmed};
use crate::edit::{Edit, EditKind, EditKindView, EditView};
use crate::git::leads_to;
use crate::keys::Action;
use crate::names::{
    joined, lossy, name_text, parsed, path_text, split_path, Component, Part, TreePath,
};
use crate::rows::RowView;
use crate::shape::Shape;
use crate::workspace::{row_in, Focus, PendingReveal, Purpose, Search, Workspace};
use vstd::prelude::*;
use vstd::utf8::encode_utf8;

verus! {

/// How a file is opened.
#[derive(Clone, Copy, Debug, PartialEq, Eq, Structural)]
pub enum OpenAction {
    Replace,
    HorizontalSplit,
    VerticalSplit,
}

/// What an action leaves to be done.
#[derive(Debug)]
pub enum Acted {
    Nothing,
    /// Open the file at `path`, which is absolute.
    Open { path: TreePath, how: OpenAction },
}

/// How an action opens files, if it does.
pub open spec fn opens(action: Action) -> Option<OpenAction> {
    match action {
        Action::Open => Some(OpenAction::Replace),
        Action::OpenHorizontal => Some(OpenAction::HorizontalSplit),
        Action::OpenVertical => Some(OpenAction::VerticalSplit),
        _ => None,
    }
}

/// Whether the tree keeps its focus after a file was to be opened: it goes with the file.
pub fn focus_after_open(opened: bool) -> (focus: Focus)
    ensures
        focus == if opened {
            Focus::Release
        } else {
            Focus::Keep
        },
{
    if opened {
        Focus::Release
    } else {
        Focus::Keep
    }
}

impl Workspace {
    /// Whether `after` is the workspace with `edit` started.
    pub open spec fn edit_started(self, after: Workspace, edit: EditView, dirty: bool) -> bool {
        &&& after == Workspace { edit: after.edit, dirty, ..self }
        &&& after.edit matches Some(started)
        &&& started@ == edit
    }

    /// The row of the directory that a new entry goes to: the one under the cursor, or the one
    /// holding it.
    pub open spec fn create_row(self, index: int) -> int {
        let row = self.rows@[index];
        if self.tree.shape().is_directory(row.node) {
            index
        } else {
            match row.parent {
                Some(parent) => parent,
                None => 0,
            }
        }
    }

    /// Whether `after` is the workspace with the naming of a new entry started from row `index`.
    pub open spec fn create_started(self, after: Workspace, index: int, directory: bool) -> bool {
        let at = self.create_row(index);
        let row = self.rows@[at];
        let edit = EditView {
            kind: EditKindView::Create { dir: row.node, dir_path: row.path, directory },
            line: Seq::empty(),
        };
        if at != 0 && !self.tree.shape().nodes[row.node].expanded {
            exists|expanded: Workspace| #[trigger]
                self.expanded_row(expanded, row, self.cursor) && expanded.edit_started(
                    after,
                    edit,
                    true,
                )
        } else {
            self.edit_started(after, edit, true)
        }
    }

    /// Runs a file operation on the cursor's entry or starts typing the name it needs. Returns what
    /// is left to be done.
    pub fn act(&mut self, action: Action) -> (acted: Acted)
        requires
            old(self).wf(),
            old(self).fresh(),
        ensures
            final(self).wf(),
            final(self).settled(),
            match old(self).rows.row_of(old(self).cursor) {
                None => *final(self) == *old(self) && acted is Nothing,
                Some(index) => old(self).acted(*final(self), acted, index as int, action),
            },
    {
        let index: usize = match self.rows.index_of(self.cursor) {
            Some(index) => index,
            None => {
                return Acted::Nothing;
            },
        };
        assert(row_in(self.tree.shape(), self.rows@[index as int]));
        let node: NodeId = self.rows.row(index).node;
        let kind: Kind = self.tree.node(node).kind;
        match action {
            Action::Open => {
                if kind == Kind::Directory && index != 0 {
                    self.toggle_row(index);
                    Acted::Nothing
                } else {
                    self.open(index, OpenAction::Replace)
                }
            },
            Action::OpenHorizontal => self.open(index, OpenAction::HorizontalSplit),
            Action::OpenVertical => self.open(index, OpenAction::VerticalSplit),
            Action::Rename | Action::MoveInWorkspace | Action::Move | Action::Delete => {
                // The workspace root is the one entry that stays put.
                if index != 0 {
                    self.start_edit(index, action);
                }
                Acted::Nothing
            },
            Action::NewFile => {
                self.start_create(index, false);
                Acted::Nothing
            },
            Action::NewDirectory => {
                self.start_create(index, true);
                Acted::Nothing
            },
            _ => {
                self.navigate(action);
                Acted::Nothing
            },
        }
    }

    /// Whether `after` and `acted` are what `action` comes to on row `index`.
    pub open spec fn acted(self, after: Workspace, acted: Acted, index: int, action: Action) -> bool {
        let row = self.rows@[index];
        let node = self.tree.shape().nodes[row.node];
        match action {
            Action::Open | Action::OpenHorizontal | Action::OpenVertical => if action is Open
                && node.kind is Directory && index != 0 {
                &&& acted is Nothing
                &&& if node.expanded {
                    self.collapsed_row(after, row, self.cursor)
                } else {
                    self.expanded_row(after, row, self.cursor)
                }
            } else {
                &&& after == self
                &&& if node.kind.group_of() is File {
                    acted matches Acted::Open { path, how } && path@ == joined(
                        self.root@,
                        row.path,
                    ) && Some(how) == opens(action)
                } else {
                    acted is Nothing
                }
            },
            Action::Rename => {
                &&& acted is Nothing
                &&& if index == 0 {
                    after == self
                } else {
                    self.edit_started(
                        after,
                        EditView {
                            kind: EditKindView::Rename { node: row.node, path: row.path },
                            line: lossy(node.name),
                        },
                        true,
                    )
                }
            },
            Action::MoveInWorkspace | Action::Move => {
                &&& acted is Nothing
                &&& if index == 0 {
                    after == self
                } else {
                    self.edit_started(
                        after,
                        EditView {
                            kind: EditKindView::Move { path: row.path, absolute: action is Move },
                            line: path_text(
                                if action is Move {
                                    joined(self.root@, row.path)
                                } else {
                                    row.path
                                },
                            ),
                        },
                        self.dirty,
                    )
                }
            },
            Action::Delete => {
                &&& acted is Nothing
                &&& if index == 0 {
                    after == self
                } else {
                    self.edit_started(
                        after,
                        EditView {
                            kind: EditKindView::Delete {
                                path: row.path,
                                directory: node.kind is Directory,
                            },
                            line: Seq::empty(),
                        },
                        self.dirty,
                    )
                }
            },
            Action::NewFile => acted is Nothing && self.create_started(after, index, false),
            Action::NewDirectory => acted is Nothing && self.create_started(after, index, true),
            _ => acted is Nothing && self.navigated(after, action),
        }
    }

    /// Opens the file of row `index`, if it is one.
    fn open(&self, index: usize, how: OpenAction) -> (acted: Acted)
        requires
            self.fresh(),
            index < self.rows@.len(),
        ensures
            if self.tree.shape().nodes[self.rows@[index as int].node].kind.group_of() is File {
                acted matches Acted::Open { path, how: asked } && path@ == joined(
                    self.root@,
                    self.rows@[index as int].path,
                ) && asked == how
            } else {
                acted is Nothing
            },
    {
        assert(row_in(self.tree.shape(), self.rows@[index as int]));
        let row = self.rows.row(index);
        if self.tree.node(row.node).kind.is_file() {
            Acted::Open { path: self.root.join_path(&row.path), how }
        } else {
            Acted::Nothing
        }
    }

    /// Starts typing what a rename, a move or a deletion of the entry of row `index` needs.
    fn start_edit(&mut self, index: usize, action: Action)
        requires
            old(self).wf(),
            old(self).fresh(),
            0 < index < old(self).rows@.len(),
            action is Rename || action is MoveInWorkspace || action is Move || action is Delete,
        ensures
            final(self).wf(),
            final(self).settled(),
            old(self).acted(*final(self), Acted::Nothing, index as int, action),
    {
        assert(row_in(self.tree.shape(), self.rows@[index as int]));
        let row = self.rows.row(index);
        let node: NodeId = row.node;
        let path: TreePath = row.path.copy();
        match action {
            Action::Rename => {
                let name: String = name_text(&self.tree.node(node).name);
                self.edit = Some(Edit::new(EditKind::Rename { node, path }, name));
                self.dirty = true;
            },
            Action::Move => {
                let line: String = self.root.join_path(&path).text();
                self.edit = Some(Edit::new(EditKind::Move { path, absolute: true }, line));
            },
            Action::MoveInWorkspace => {
                let line: String = path.text();
                self.edit = Some(Edit::new(EditKind::Move { path, absolute: false }, line));
            },
            _ => {
                let directory: bool = self.tree.node(node).kind == Kind::Directory;
                let line: String = String::new();
                assert(line@ =~= Seq::<char>::empty());
                self.edit = Some(Edit::new(EditKind::Delete { path, directory }, line));
            },
        }
    }

    /// Starts typing the name of a new entry from row `index`.
    fn start_create(&mut self, index: usize, directory: bool)
        requires
            old(self).wf(),
            old(self).fresh(),
            index < old(self).rows@.len(),
        ensures
            final(self).wf(),
            old(self).create_started(*final(self), index as int, directory),
    {
        assert(row_in(self.tree.shape(), self.rows@[index as int]));
        assert(crate::rows::row_fits(self.rows@, index as int, self.rows@[index as int]));
        // New entries go into the directory under the cursor, or the one holding it.
        let row = self.rows.row(index);
        let at: usize = if self.tree.node(row.node).kind == Kind::Directory {
            index
        } else {
            match row.parent {
                Some(parent) => parent,
                None => 0,
            }
        };
        assert(row_in(self.tree.shape(), self.rows@[at as int]));
        let ghost start = *self;
        let expand: bool = at != 0 && !self.tree.node(self.rows.row(at).node).expanded;
        if expand {
            self.expand_row(at);
        }
        let ghost middle = *self;
        let row = self.rows.row(at);
        let kind = EditKind::Create { dir: row.node, dir_path: row.path.copy(), directory };
        let line: String = String::new();
        assert(line@ =~= Seq::<char>::empty());
        let edit = Edit::new(kind, line);
        self.edit = Some(edit);
        self.dirty = true;
        proof {
            let shown = start.rows@[at as int];
            let view = EditView {
                kind: EditKindView::Create { dir: shown.node, dir_path: shown.path, directory },
                line: Seq::empty(),
            };
            assert(middle.edit_started(*self, view, true));
            if expand {
                assert(start.expanded_row(middle, shown, start.cursor));
            }
        }
    }
}

/// What a finished edit leaves to be done. Paths but `path` are absolute.
#[derive(Debug)]
pub enum Submitted {
    Done,
    /// Nothing, as `line` is not a file name.
    NotAName { line: String },
    /// Rename the entry `from`, at `path`, to `to`.
    Rename { path: TreePath, from: TreePath, to: TreePath },
    /// Move the entry `from`, at `path`, to `to`, once that is normalized, or into it if it is a
    /// directory.
    Move { path: TreePath, from: TreePath, to: TreePath },
    /// Move the entry `from`, at `path`, to the full path `line`, or into it if it is a directory.
    MoveTo { path: TreePath, from: TreePath, line: String },
    /// Create a file, which is then opened, or a `directory` at `to`, once that is normalized.
    Create { to: TreePath, directory: bool },
    /// Delete the entry `target`, at `path`.
    Delete { path: TreePath, target: TreePath },
}

/// What a finished edit leaves to be done.
pub ghost enum SubmittedView {
    Done,
    NotAName { line: Seq<char> },
    Rename { path: Seq<Part>, from: Seq<Part>, to: Seq<Part> },
    Move { path: Seq<Part>, from: Seq<Part>, to: Seq<Part> },
    MoveTo { path: Seq<Part>, from: Seq<Part>, line: Seq<char> },
    Create { to: Seq<Part>, directory: bool },
    Delete { path: Seq<Part>, target: Seq<Part> },
}

impl Submitted {
    pub open spec fn view(&self) -> SubmittedView {
        match self {
            Submitted::Done => SubmittedView::Done,
            Submitted::NotAName { line } => SubmittedView::NotAName { line: line@ },
            Submitted::Rename { path, from, to } => SubmittedView::Rename {
                path: path@,
                from: from@,
                to: to@,
            },
            Submitted::Move { path, from, to } => SubmittedView::Move {
                path: path@,
                from: from@,
                to: to@,
            },
            Submitted::MoveTo { path, from, line } => SubmittedView::MoveTo {
                path: path@,
                from: from@,
                line: line@,
            },
            Submitted::Create { to, directory } => SubmittedView::Create {
                to: to@,
                directory: *directory,
            },
            Submitted::Delete { path, target } => SubmittedView::Delete {
                path: path@,
                target: target@,
            },
        }
    }
}

/// Whether a line is nothing but white space.
pub open spec fn is_blank(line: Seq<char>) -> bool {
    trimmed(line).len() == 0
}

/// Whether a char separates the parts of a path: a slash, and with `backslash` a backslash too.
pub open spec fn parts_at(c: char, backslash: bool) -> bool {
    c == '/' || (backslash && c == '\\')
}

/// Whether a line is the name of a file: no path, and none of the names for directories.
pub open spec fn is_file_name(line: Seq<char>, backslash: bool) -> bool {
    &&& forall|i: int| 0 <= i < line.len() ==> !parts_at(#[trigger] line[i], backslash)
    &&& line != seq!['.']
    &&& line != seq!['.', '.']
}

/// Whether a line says yes.
pub open spec fn says_yes(line: Seq<char>) -> bool {
    trimmed(line) == seq!['y'] || trimmed(line) == seq!['Y']
}

/// The path that a line is.
pub open spec fn typed_path(line: Seq<char>, backslash: bool) -> Seq<Part> {
    parsed(encode_utf8(line), backslash)
}

/// The path with another last part.
pub open spec fn renamed(path: Seq<Part>, name: Seq<char>) -> Seq<Part> {
    (if path.len() > 0 && path.last() is Normal {
        path.drop_last()
    } else {
        path
    }).push(Part::Normal(encode_utf8(name)))
}

/// What `edit` in a workspace at `root` leaves to be done, where with `backslash` a backslash
/// separates the parts of a path too.
pub open spec fn plan(root: Seq<Part>, edit: EditView, backslash: bool) -> SubmittedView {
    let line = edit.line;
    if is_blank(line) {
        SubmittedView::Done
    } else {
        match edit.kind {
            EditKindView::Search => SubmittedView::Done,
            EditKindView::Rename { path, .. } => if is_file_name(line, backslash) {
                let from = joined(root, path);
                SubmittedView::Rename { path, from, to: renamed(from, line) }
            } else {
                SubmittedView::NotAName { line }
            },
            EditKindView::Move { path, absolute } => {
                let from = joined(root, path);
                if absolute {
                    SubmittedView::MoveTo { path, from, line }
                } else {
                    SubmittedView::Move { path, from, to: joined(root, typed_path(line, backslash)) }
                }
            },
            EditKindView::Create { dir_path, directory, .. } => SubmittedView::Create {
                to: joined(joined(root, dir_path), typed_path(line, backslash)),
                directory: directory || parts_at(line.last(), backslash),
            },
            EditKindView::Delete { path, .. } => if says_yes(line) {
                SubmittedView::Delete { path, target: joined(root, path) }
            } else {
                SubmittedView::Done
            },
        }
    }
}

fn is_parting(c: char, backslash: bool) -> (parting: bool)
    ensures
        parting == parts_at(c, backslash),
{
    c == '/' || (backslash && c == '\\')
}

fn names_file(chars: &Vec<char>, backslash: bool) -> (names: bool)
    ensures
        names == is_file_name(chars@, backslash),
{
    let mut i: usize = 0;
    while i < chars.len()
        invariant
            i <= chars@.len(),
            forall|k: int| 0 <= k < i ==> !parts_at(#[trigger] chars@[k], backslash),
        decreases chars.len() - i,
    {
        if is_parting(chars[i], backslash) {
            assert(parts_at(chars@[i as int], backslash));
            return false;
        }
        i += 1;
    }
    if chars.len() == 1 && chars[0] == '.' {
        assert(chars@ =~= seq!['.']);
        return false;
    }
    if chars.len() == 2 && chars[0] == '.' && chars[1] == '.' {
        assert(chars@ =~= seq!['.', '.']);
        return false;
    }
    assert(chars@ != seq!['.']) by {
        if chars@ == seq!['.'] {
            assert(chars@[0] == '.');
        }
    }
    assert(chars@ != seq!['.', '.']) by {
        if chars@ == seq!['.', '.'] {
            assert(chars@[0] == '.' && chars@[1] == '.');
        }
    }
    true
}

fn means_yes(chars: &Vec<char>) -> (yes: bool)
    ensures
        yes == says_yes(chars@),
{
    let answer: Vec<char> = trim(chars);
    if answer.len() != 1 {
        return false;
    }
    if answer[0] == 'y' {
        assert(answer@ =~= seq!['y']);
        true
    } else if answer[0] == 'Y' {
        assert(answer@ =~= seq!['Y']);
        true
    } else {
        assert(answer@[0] != seq!['y'][0] && answer@[0] != seq!['Y'][0]);
        false
    }
}

/// The path with another last part.
fn with_file_name(path: &TreePath, name: &str) -> (to: TreePath)
    ensures
        to@ == renamed(path@, name@),
{
    let mut len: usize = path.components.len();
    if len > 0 {
        assert(path@.last() == path.components@[len - 1]@);
        match &path.components[len - 1] {
            Component::Normal(_) => {
                len -= 1;
            },
            _ => {},
        }
    }
    let mut to: TreePath = path.prefix(len);
    assert(to@ =~= (if path@.len() > 0 && path@.last() is Normal {
        path@.drop_last()
    } else {
        path@
    }));
    let ghost before = to@;
    let bytes: Vec<u8> = bytes_of(name);
    let ghost last = Part::Normal(bytes@);
    to.components.push(Component::Normal(bytes));
    assert(to@ =~= before.push(last));
    to
}

fn bytes_of(text: &str) -> (bytes: Vec<u8>)
    ensures
        bytes@ == encode_utf8(text@),
{
    let given: &[u8] = text.as_bytes();
    let mut bytes: Vec<u8> = Vec::new();
    let mut i: usize = 0;
    while i < given.len()
        invariant
            i <= given@.len(),
            bytes@ == given@.take(i as int),
        decreases given.len() - i,
    {
        bytes.push(given[i]);
        i += 1;
        assert(bytes@ =~= given@.take(i as int));
    }
    assert(given@.take(i as int) =~= given@);
    bytes
}

/// What `edit` in a workspace at `root` leaves to be done, where with `backslash` a backslash
/// separates the parts of a path too.
pub fn planned(root: &TreePath, edit: &Edit, backslash: bool) -> (submitted: Submitted)
    ensures
        submitted@ == plan(root@, edit@, backslash),
{
    let chars: Vec<char> = chars_of_str(edit.line.as_str());
    if trim(&chars).len() == 0 {
        return Submitted::Done;
    }
    match &edit.kind {
        EditKind::Search => Submitted::Done,
        EditKind::Rename { path, .. } => {
            if !names_file(&chars, backslash) {
                return Submitted::NotAName { line: copy_str(edit.line.as_str()) };
            }
            let from: TreePath = root.join_path(path);
            let to: TreePath = with_file_name(&from, edit.line.as_str());
            Submitted::Rename { path: path.copy(), from, to }
        },
        EditKind::Move { path, absolute } => {
            let from: TreePath = root.join_path(path);
            if *absolute {
                Submitted::MoveTo {
                    path: path.copy(),
                    from,
                    line: copy_str(edit.line.as_str()),
                }
            } else {
                let to: TreePath = root.join_path(
                    &split_path(edit.line.as_str().as_bytes(), backslash),
                );
                Submitted::Move { path: path.copy(), from, to }
            }
        },
        EditKind::Create { dir_path, directory, .. } => {
            proof {
                lemma_blank_nonempty(chars@);
            }
            let slash: bool = is_parting(chars[chars.len() - 1], backslash);
            let to: TreePath = root.join_path(dir_path).join_path(
                &split_path(edit.line.as_str().as_bytes(), backslash),
            );
            Submitted::Create { to, directory: *directory || slash }
        },
        EditKind::Delete { path, .. } => {
            if means_yes(&chars) {
                Submitted::Delete { path: path.copy(), target: root.join_path(path) }
            } else {
                Submitted::Done
            }
        },
    }
}

/// A line without chars is blank.
proof fn lemma_blank_nonempty(line: Seq<char>)
    requires
        !is_blank(line),
    ensures
        line.len() > 0,
{
    if line.len() == 0 {
        assert(trimmed(line) == line);
    }
}

/// The first row after `index` that is not at or below `path`, or the row before.
pub open spec fn row_off(rows: Seq<RowView>, index: int, path: Seq<Part>) -> int {
    match first_off(rows, index + 1, path) {
        Some(i) => i,
        None => if index == 0 {
            0
        } else {
            index - 1
        },
    }
}

/// The first of the rows from `i` on that is not at or below `path`.
pub open spec fn first_off(rows: Seq<RowView>, i: int, path: Seq<Part>) -> Option<int>
    decreases rows.len() - i,
{
    if i >= rows.len() {
        None
    } else if !leads_to(path, rows[i].path) {
        Some(i)
    } else {
        first_off(rows, i + 1, path)
    }
}

impl Workspace {
    /// Carries out a finished edit, as far as the tree goes. Returns what is left to be done.
    pub fn submit(&mut self, edit: Edit) -> (submitted: Submitted)
        requires
            old(self).wf(),
            old(self).search.generation < u64::MAX,
        ensures
            final(self).wf(),
            old(self).settled() ==> final(self).settled(),
            submitted@ == plan(old(self).root@, edit@, old(self).backslash),
            match edit.kind@ {
                EditKindView::Search => old(self).search_submitted(*final(self), edit.line),
                EditKindView::Delete { path, .. } => if says_yes(edit.line@) {
                    old(self).moved_off(*final(self), path)
                } else {
                    *final(self) == *old(self)
                },
                _ => *final(self) == *old(self),
            },
    {
        let submitted: Submitted = planned(&self.root, &edit, self.backslash);
        match &edit.kind {
            EditKind::Search => {
                let kept: bool = trim(&chars_of_str(edit.line.as_str())).len() > 0;
                let ghost start = *self;
                let ghost line = edit.line;
                if kept {
                    self.search.query = edit.line;
                }
                self.finish_search(kept);
                proof {
                    assert(start.search_submitted(*self, line));
                }
            },
            EditKind::Delete { path, .. } => {
                proof {
                    lemma_yes_is_said(edit.line@);
                }
                if let Submitted::Delete { .. } = &submitted {
                    self.move_off(path);
                }
            },
            _ => {},
        }
        submitted
    }

    /// Whether `after` is the workspace with the search for `line` finished.
    pub open spec fn search_submitted(self, after: Workspace, line: String) -> bool {
        let kept = !is_blank(line@);
        let asked = if kept {
            Workspace { search: Search { query: line, ..self.search }, ..self }
        } else {
            self
        };
        asked.search_finished(after, kept)
    }

    /// Whether `after` is the workspace with the cursor moved off the entry at `path`.
    pub open spec fn moved_off(self, after: Workspace, path: Seq<Part>) -> bool {
        after == Workspace {
            cursor: match self.rows.row_of(self.cursor) {
                Some(index) => self.rows@[row_off(self.rows@, index as int, path)].node,
                None => self.cursor,
            },
            ..self
        }
    }

    /// Moves the cursor off the entry at `path`, relative to the root, before it is deleted.
    fn move_off(&mut self, path: &TreePath)
        requires
            old(self).wf(),
        ensures
            final(self).wf(),
            old(self).moved_off(*final(self), path@),
    {
        let index: usize = match self.rows.index_of(self.cursor) {
            Some(index) => index,
            None => {
                return ;
            },
        };
        let ghost rows = self.rows@;
        let len: usize = self.rows.len();
        let mut i: usize = index + 1;
        while i < len
            invariant
                index < i <= len == rows.len(),
                rows == self.rows@,
                self.wf(),
                *self == *old(self),
                old(self).rows.row_of(old(self).cursor) == Some(index),
                first_off(rows, index + 1, path@) == first_off(rows, i as int, path@),
            decreases rows.len() - i,
        {
            if !self.rows.row(i).path.starts_with(path) {
                self.cursor = self.rows.row(i).node;
                return ;
            }
            i += 1;
        }
        let neighbour: usize = if index == 0 {
            0
        } else {
            index - 1
        };
        self.cursor = self.rows.row(neighbour).node;
    }

    /// Lists the directories of `from` (relative) and `to` (absolute) again after an entry was
    /// moved, created (`from` is `None`) or deleted, and puts the cursor on `to`.
    pub fn moved(&mut self, from: Option<&TreePath>, to: &TreePath)
        requires
            old(self).wf(),
        ensures
            final(self).wf(),
            old(self).move_followed(
                *final(self),
                match from {
                    Some(from) => Some(from@),
                    None => None,
                },
                to@,
            ),
            old(self).settled() ==> final(self).settled(),
    {
        if let Some(from) = from {
            if let Some(parent) = from.parent() {
                self.invalidate(&parent);
            }
        }
        if let Some(inside) = to.strip_prefix(&self.root) {
            if let Some(parent) = inside.parent() {
                self.invalidate(&parent);
            }
            self.reveals.push(PendingReveal { path: inside, purpose: Purpose::Cursor });
            assert(self.reveals@.drop_last() =~= old(self).reveals@);
        }
    }

    /// The tree and its requests for listings, when the directory of `path` is to be listed again.
    pub open spec fn relist(
        tree: (Shape, Seq<NodeId>),
        path: Seq<Part>,
    ) -> (Shape, Seq<NodeId>) {
        if path.len() == 0 {
            tree
        } else {
            let dir = tree.0.closest(tree.0.root, path.drop_last());
            (tree.0.outdated(dir), tree.1.push(dir))
        }
    }

    /// The tree and its requests for listings.
    pub open spec fn listings(self) -> (Shape, Seq<NodeId>) {
        (self.tree.shape(), self.tree.requests())
    }

    /// The tree and its requests for listings after an entry was moved.
    pub open spec fn listings_after_move(self, from: Option<Seq<Part>>, to: Seq<Part>) -> (
        Shape,
        Seq<NodeId>,
    ) {
        let first = match from {
            Some(from) => Workspace::relist(self.listings(), from),
            None => self.listings(),
        };
        if leads_to(self.root@, to) {
            Workspace::relist(first, to.skip(self.root@.len() as int))
        } else {
            first
        }
    }

    /// Whether `after` is the workspace after an entry was moved from `from` to `to`: their
    /// directories are to be listed again, and the cursor goes to `to`.
    pub open spec fn move_followed(
        self,
        after: Workspace,
        from: Option<Seq<Part>>,
        to: Seq<Part>,
    ) -> bool {
        &&& after == Workspace { tree: after.tree, reveals: after.reveals, ..self }
        &&& after.listings() == self.listings_after_move(from, to)
        &&& if leads_to(self.root@, to) {
            &&& after.reveals@.len() == self.reveals@.len() + 1
            &&& after.reveals@.drop_last() == self.reveals@
            &&& after.reveals@.last().path@ == to.skip(self.root@.len() as int)
            &&& after.reveals@.last().purpose is Cursor
        } else {
            after.reveals@ == self.reveals@
        }
    }

    /// Lists the directory of `path`, relative to the root, again after the entry there was
    /// deleted.
    pub fn deleted(&mut self, path: &TreePath)
        requires
            old(self).wf(),
        ensures
            final(self).wf(),
            *final(self) == (Workspace { tree: final(self).tree, ..*old(self) }),
            final(self).listings() == Workspace::relist(old(self).listings(), path@),
            old(self).settled() ==> final(self).settled(),
    {
        if let Some(parent) = path.parent() {
            self.invalidate(&parent);
        }
    }

    /// Asks for a fresh listing of the directory at `path`.
    fn invalidate(&mut self, path: &TreePath)
        requires
            old(self).wf(),
        ensures
            final(self).wf(),
            *final(self) == (Workspace { tree: final(self).tree, ..*old(self) }),
            ({
                let shape = old(self).tree.shape();
                let dir = shape.closest(shape.root, path@);
                final(self).listings() == (
                    shape.outdated(dir),
                    old(self).tree.requests().push(dir),
                )
            }),
            old(self).settled() ==> final(self).settled(),
    {
        let ghost shape = self.tree.shape();
        let ghost dir = shape.closest(shape.root, path@);
        self.tree.invalidate(path);
        proof {
            shape.lemma_outdated(self.sort, dir);
            if old(self).fresh() {
                assert forall|i: int| 0 <= i < self.rows@.len() implies row_in(
                    self.tree.shape(),
                    #[trigger] self.rows@[i],
                ) by {
                    let row = self.rows@[i];
                    assert(row_in(shape, row));
                    shape.lemma_places_kept(
                        Set::empty(),
                        shape.outdated(dir),
                        row.node,
                        row.head,
                    );
                }
            }
        }
    }

    /// Brings the tree up to date with an edit that was carried out: the entry `from`, if it is not
    /// a new one, is now at `to`. The focus goes with a file that is new.
    pub fn finished(&mut self, from: Option<&TreePath>, to: &TreePath, to_is_file: bool) -> (focus:
        Focus)
        requires
            old(self).wf(),
        ensures
            final(self).wf(),
            old(self).move_followed(
                *final(self),
                match from {
                    Some(from) => Some(from@),
                    None => None,
                },
                to@,
            ),
            old(self).settled() ==> final(self).settled(),
            focus == if to_is_file && from is None {
                Focus::Release
            } else {
                Focus::Keep
            },
    {
        self.moved(from, to);
        if to_is_file && from.is_none() {
            Focus::Release
        } else {
            Focus::Keep
        }
    }

    /// Abandons an unfinished edit and the search that it is for.
    pub fn cancel_edit(&mut self)
        requires
            old(self).wf(),
            old(self).search.generation < u64::MAX,
        ensures
            final(self).wf(),
            old(self).settled() ==> final(self).settled(),
            (Workspace {
                edit: None,
                dirty: old(self).dirty || old(self).edit is Some,
                ..*old(self)
            }).search_finished(*final(self), false),
    {
        if self.edit.is_some() {
            self.edit = None;
            self.dirty = true;
        }
        self.finish_search(false);
    }
}

proof fn lemma_waited_for(shape: Shape, id: NodeId, path: Seq<Part>)
    requires
        shape.wf(),
        shape.has(id),
        path.len() > 0,
        forall|i: int| 0 <= i < path.len() ==> (#[trigger] path[i]) is Normal,
        ({
            let dir = shape.closest(id, path.drop_last());
            &&& shape.in_directories(dir)
            &&& !(shape.nodes[dir].children is Unreadable)
            &&& !shape.nodes[dir].listed
        }),
    ensures
        !(shape.revealed(id, path) is Missing),
    decreases path.len(),
{
    assert(path[0] is Normal);
    let name = path[0]->Normal_0;
    let ids = shape.ids(id);
    assert(shape.fits(Set::empty(), id));
    shape.lemma_closest(id, path.drop_last(), id);
    assert(shape.is_directory(id));
    if let Some(child) = shape.named(ids, name) {
        shape.lemma_named_some(ids, name);
        assert(shape.holds(Set::empty(), id, shape.ids(id)[ids.index_of(child)]));
        if path.len() > 1 {
            assert(path.drop_last()[0] == path[0]);
            assert(path.drop_last().skip(1) =~= path.skip(1).drop_last());
            lemma_waited_for(shape, child, path.skip(1));
        } else {
            assert(path.skip(1) =~= Seq::<Part>::empty());
        }
    } else if path.len() > 1 {
        assert(path.drop_last()[0] == path[0]);
    }
}

/// The cursor waits for a moved or new entry: until the directory that it went to, or the closest one
/// above it that is known, is listed again, the search for it is not given up. Nothing is found where
/// the way leads through what is no directory.
pub proof fn law_moved_entries_are_waited_for(
    workspace: Workspace,
    after: Workspace,
    from: Option<Seq<Part>>,
    to: Seq<Part>,
)
    requires
        workspace.wf(),
        workspace.move_followed(after, from, to),
        leads_to(workspace.root@, to),
        workspace.root@.len() < to.len(),
        forall|i: int| workspace.root@.len() <= i < to.len() ==> (#[trigger] to[i]) is Normal,
        ({
            let shape = workspace.tree.shape();
            let inside = to.skip(workspace.root@.len() as int);
            let dir = shape.closest(shape.root, inside.drop_last());
            &&& shape.in_directories(dir)
            &&& !(shape.nodes[dir].children is Unreadable)
        }),
    ensures
        after.reveals@.last().path@ == to.skip(workspace.root@.len() as int),
        after.reveals@.last().purpose is Cursor,
        !(after.tree.shape().revealed(
            after.tree.shape().root,
            after.reveals@.last().path@,
        ) is Missing),
{
    let shape = workspace.tree.shape();
    let inside = to.skip(workspace.root@.len() as int);
    let up = inside.drop_last();
    let dir = shape.closest(shape.root, up);
    let first = match from {
        Some(from) => Workspace::relist(workspace.listings(), from),
        None => workspace.listings(),
    };
    shape.lemma_closest(shape.root, up, shape.root);
    if let Some(from) = from {
        if from.len() > 0 {
            let old = shape.closest(shape.root, from.drop_last());
            shape.lemma_closest(shape.root, from.drop_last(), shape.root);
            shape.lemma_outdated(workspace.sort, old);
            shape.lemma_closest(shape.root, up, old);
        }
    }
    first.0.lemma_outdated(workspace.sort, dir);
    first.0.lemma_closest(shape.root, up, dir);
    assert forall|i: int| 0 <= i < inside.len() implies (#[trigger] inside[i]) is Normal by {
        assert(to[i + workspace.root@.len()] is Normal);
    }
    let last = after.tree.shape();
    assert(last.in_directories(dir)) by {
        assert forall|x: NodeId| #[trigger] last.has(x) && last.within(dir, x) implies last.is_directory(
            x,
        ) by {
            assert(shape.has(x));
            assert(shape.places_kept(last)) by {
                assert forall|y: NodeId| #[trigger] shape.has(y) implies last.parent(y)
                    == shape.parent(y) && last.depths[y] == shape.depths[y] by {}
            }
            shape.lemma_places_kept(Set::empty(), last, dir, x);
        }
    }
    lemma_waited_for(last, shape.root, inside);
}

/// A line that says yes is not blank.
proof fn lemma_yes_is_said(line: Seq<char>)
    ensures
        says_yes(line) ==> !is_blank(line),
{
}

impl Workspace {
    /// Files are opened at their paths below the root, in the view, in one below it or in one beside
    /// it, as the action says. Opening a directory below the root expands or collapses it, and
    /// splitting the view for one does nothing.
    pub proof fn law_files_open_as_asked(
        self,
        after: Workspace,
        acted: Acted,
        index: int,
        action: Action,
    )
        requires
            self.acted(after, acted, index, action),
            action == Action::Open || action == Action::OpenHorizontal || action
                == Action::OpenVertical,
        ensures
            ({
                let row = self.rows@[index];
                let kind = self.tree.shape().nodes[row.node].kind;
                &&& kind is File ==> after == self && (acted matches Acted::Open { path, how }
                    && path@ == joined(self.root@, row.path) && (action == Action::Open ==> how
                    == OpenAction::Replace) && (action == Action::OpenHorizontal ==> how
                    == OpenAction::HorizontalSplit) && (action == Action::OpenVertical ==> how
                    == OpenAction::VerticalSplit))
                &&& kind is Directory ==> acted is Nothing
                &&& kind is Directory && (action != Action::Open || index == 0) ==> after == self
            }),
    {
    }

    /// Renaming starts with the name of the entry, moving with its path in the workspace or with its
    /// full path, and deleting with a question. The root itself is neither renamed, moved nor
    /// deleted.
    pub proof fn law_edits_start_with_what_they_are_for(
        self,
        after: Workspace,
        acted: Acted,
        index: int,
        action: Action,
    )
        requires
            self.acted(after, acted, index, action),
            action == Action::Rename || action == Action::MoveInWorkspace || action == Action::Move
                || action == Action::Delete,
        ensures
            acted is Nothing,
            after.cursor == self.cursor,
            index == 0 ==> after == self,
            index != 0 && action == Action::Rename ==> after.dirty,
            index != 0 && action != Action::Rename ==> after.dirty == self.dirty,
            after.tree == self.tree,
            index != 0 ==> (after.edit matches Some(edit) && {
                let row = self.rows@[index];
                let node = self.tree.shape().nodes[row.node];
                &&& action == Action::Rename ==> edit@.line == lossy(node.name) && edit@.kind == (
                EditKindView::Rename { node: row.node, path: row.path })
                &&& action == Action::MoveInWorkspace ==> edit@.line == path_text(row.path)
                    && edit@.kind == (EditKindView::Move { path: row.path, absolute: false })
                &&& action == Action::Move ==> edit@.line == path_text(joined(self.root@, row.path))
                    && edit@.kind == (EditKindView::Move { path: row.path, absolute: true })
                &&& action == Action::Delete ==> edit@.line.len() == 0 && edit@.kind == (
                EditKindView::Delete { path: row.path, directory: node.kind is Directory })
            }),
    {
    }

    /// A new entry goes to the directory under the cursor, which is expanded for it, or to the one
    /// that the entry under the cursor is in. It is a file or a directory, as the action says.
    pub proof fn law_new_entries_go_to_the_directory(
        self,
        after: Workspace,
        acted: Acted,
        index: int,
        action: Action,
    )
        requires
            self.acted(after, acted, index, action),
            action == Action::NewFile || action == Action::NewDirectory,
        ensures
            acted is Nothing,
            after.dirty,
            after.cursor == self.cursor,
            after.edit matches Some(edit) && edit@.line.len() == 0 && (edit@.kind matches
                EditKindView::Create { dir, dir_path, directory } && directory == (action
                == Action::NewDirectory) && {
                let row = self.rows@[index];
                let parent = match row.parent {
                    Some(parent) => parent,
                    None => 0,
                };
                &&& self.tree.shape().is_directory(row.node) ==> dir == row.node && dir_path
                    == row.path
                &&& !self.tree.shape().is_directory(row.node) ==> dir == self.rows@[parent].node
                    && dir_path == self.rows@[parent].path
            }),
    {
    }
}

/// A blank line asks for nothing. An entry is renamed within its directory, to a line that is a name:
/// one without a slash that is neither `.` nor `..`. Anything else is refused.
pub proof fn law_entries_are_renamed_in_place(
    root: Seq<Part>,
    node: NodeId,
    path: Seq<Part>,
    line: Seq<char>,
)
    requires
        path.len() > 0,
        path[0] is Normal,
        path[path.len() - 1] is Normal,
    ensures
        ({
            let edit = EditView { kind: EditKindView::Rename { node, path }, line };
            let asked = plan(root, edit, false);
            let a_name = !line.contains('/') && line != seq!['.'] && line != seq!['.', '.'];
            &&& trimmed(line).len() == 0 ==> asked is Done
            &&& trimmed(line).len() > 0 && !a_name ==> asked == (SubmittedView::NotAName { line })
            &&& trimmed(line).len() > 0 && a_name ==> asked == (SubmittedView::Rename {
                path,
                from: root + path,
                to: (root + path.drop_last()).push(Part::Normal(encode_utf8(line))),
            })
        }),
{
    assert(joined(root, path) == root + path);
    assert((root + path).drop_last() =~= root + path.drop_last());
    assert((root + path).last() == path[path.len() - 1]);
    if line.contains('/') {
        let i = line.index_of('/');
        assert(parts_at(line[i], false));
    } else {
        assert forall|i: int| 0 <= i < line.len() implies !parts_at(#[trigger] line[i], false) by {
            if line[i] == '/' {
                assert(line.contains('/'));
            }
        }
    }
}

/// An entry is moved to the typed path as seen from the root, or to the full path as it is typed. A
/// new entry is made at the typed path as seen from its directory: a directory if it is to be one,
/// or if the line ends with a slash.
pub proof fn law_typed_paths_are_seen_from_where_they_go(
    root: Seq<Part>,
    path: Seq<Part>,
    dir: NodeId,
    directory: bool,
    line: Seq<char>,
)
    requires
        trimmed(line).len() > 0,
        line.len() > 0,
    ensures
        plan(
            root,
            EditView { kind: EditKindView::Move { path, absolute: false }, line },
            false,
        ) == (SubmittedView::Move {
            path,
            from: joined(root, path),
            to: joined(root, parsed(encode_utf8(line), false)),
        }),
        plan(
            root,
            EditView { kind: EditKindView::Move { path, absolute: true }, line },
            false,
        ) == (SubmittedView::MoveTo { path, from: joined(root, path), line }),
        plan(
            root,
            EditView { kind: EditKindView::Create { dir, dir_path: path, directory }, line },
            false,
        ) == (SubmittedView::Create {
            to: joined(joined(root, path), parsed(encode_utf8(line), false)),
            directory: directory || line[line.len() - 1] == '/',
        }),
{
}

/// Nothing is deleted but on a clear yes: `y` or `Y`, with nothing but white space around it.
pub proof fn law_only_a_yes_deletes(
    root: Seq<Part>,
    path: Seq<Part>,
    directory: bool,
    line: Seq<char>,
    backslash: bool,
)
    ensures
        ({
            let edit = EditView { kind: EditKindView::Delete { path, directory }, line };
            let asked = plan(root, edit, backslash);
            let yes = trimmed(line).len() == 1 && (trimmed(line)[0] == 'y' || trimmed(line)[0]
                == 'Y');
            &&& yes ==> asked == (SubmittedView::Delete { path, target: joined(root, path) })
            &&& !yes ==> asked is Done
        }),
{
    let answer = trimmed(line);
    if answer.len() == 1 {
        assert(answer =~= seq![answer[0]]);
    }
    if answer == seq!['y'] || answer == seq!['Y'] {
        assert(answer.len() == 1);
    }
}

/// Before an entry is deleted, the cursor goes to the first row after it that is not in it, or to the
/// row before if there is none.
pub proof fn law_the_cursor_leaves_what_is_deleted(rows: Seq<RowView>, index: int, path: Seq<Part>)
    requires
        0 <= index < rows.len(),
    ensures
        ({
            let then = row_off(rows, index, path);
            &&& 0 <= then < rows.len()
            &&& then > index ==> !leads_to(path, rows[then].path) && forall|i: int|
                index < i < then ==> leads_to(path, (#[trigger] rows[i]).path)
            &&& then <= index ==> (then == index - 1 || index == 0) && forall|i: int|
                index < i < rows.len() ==> leads_to(path, (#[trigger] rows[i]).path)
        }),
{
    lemma_first_off(rows, index + 1, path);
}

proof fn lemma_first_off(rows: Seq<RowView>, i: int, path: Seq<Part>)
    requires
        0 <= i,
    ensures
        match first_off(rows, i, path) {
            Some(k) => i <= k < rows.len() && !leads_to(path, rows[k].path) && forall|j: int|
                i <= j < k ==> leads_to(path, (#[trigger] rows[j]).path),
            None => forall|j: int|
                i <= j < rows.len() ==> leads_to(path, (#[trigger] rows[j]).path),
        },
    decreases rows.len() - i,
{
    if i < rows.len() && leads_to(path, rows[i].path) {
        lemma_first_off(rows, i + 1, path);
    }
}

impl Workspace {
    /// A search for something is kept, with what was searched for, and one for nothing but white space
    /// is given up.
    pub proof fn law_blank_searches_are_given_up(self, after: Workspace, line: String)
        requires
            self.search_submitted(after, line),
            self.search.origin is Some,
        ensures
            trimmed(line@).len() > 0 ==> after.search.query == line && after.start == self.start
                && after.cursor == self.cursor,
            trimmed(line@).len() == 0 ==> after.search.query == self.search.query && after.start
                == self.search.origin->0.start,
    {
    }

    /// When a directory is to be listed again, it is marked so and asked for, and nothing else changes.
    pub proof fn law_directories_are_listed_again(
        tree: (Shape, Seq<NodeId>),
        path: Seq<Part>,
        id: NodeId,
    )
        requires
            path.len() > 0,
        ensures
            ({
                let dir = tree.0.closest(tree.0.root, path.drop_last());
                let then = Workspace::relist(tree, path);
                &&& then.1 == tree.1.push(dir)
                &&& !then.0.nodes[dir].listed
                &&& then.0.nodes[dir].children == tree.0.nodes[dir].children
                &&& id != dir ==> then.0.nodes[id] == tree.0.nodes[id]
            }),
    {
    }
}

impl Workspace {
    /// After an entry was moved the cursor is to go to where it is now, as seen from the root, and all
    /// that was to be revealed before still is. An entry that is now elsewhere is not waited for.
    pub proof fn law_the_cursor_follows_what_is_moved(
        self,
        after: Workspace,
        from: Option<Seq<Part>>,
        path: Seq<Part>,
    )
        requires
            self.move_followed(after, from, self.root@ + path),
        ensures
            after.reveals@.len() == self.reveals@.len() + 1,
            after.reveals@[self.reveals@.len() as int].path@ == path,
            after.reveals@[self.reveals@.len() as int].purpose is Cursor,
            forall|i: int|
                0 <= i < self.reveals@.len() ==> #[trigger] after.reveals@[i] == self.reveals@[i],
            after.rows == self.rows,
            after.start == self.start,
    {
        let to = self.root@ + path;
        assert(to.take(self.root@.len() as int) =~= self.root@);
        assert(to.skip(self.root@.len() as int) =~= path);
        assert forall|i: int| 0 <= i < self.reveals@.len() implies #[trigger] after.reveals@[i]
            == self.reveals@[i] by {
            assert(after.reveals@.drop_last()[i] == after.reveals@[i]);
        }
    }
}

} // verus!
