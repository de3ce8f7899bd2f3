//! Typing a name or path for a file operation: inline in a row of the tree, or in the command
//! line like `:move`.

use crate::arena::NodeId;
use crate::chars::{chars_of_str, copy_str, string_of};
use crate::keys::{KeyCode, KeyEvent};
use crate::names::{path_text, Part, TreePath};
use vstd::prelude::*;

verus! {

#[derive(Debug)]
pub enum EditKind {
    /// Renaming `node`, at `path`, within its directory; the line holds its name.
    Rename { node: NodeId, path: TreePath },
    /// Moving the entry at `path` to the path the line holds: relative to the workspace root,
    /// or `absolute`.
    Move { path: TreePath, absolute: bool },
    /// Creating a file, or a `directory`, in `dir` (at `dir_path`), typed in an input row.
    Create { dir: NodeId, dir_path: TreePath, directory: bool },
    /// Deleting the entry at `path`, a `directory` or not, once the line says `y`.
    Delete { path: TreePath, directory: bool },
    /// Searching for a file, moving the cursor to the matches while the line is typed.
    Search,
}

/// What is typed for.
pub ghost enum EditKindView {
    Rename { node: NodeId, path: Seq<Part> },
    Move { path: Seq<Part>, absolute: bool },
    Create { dir: NodeId, dir_path: Seq<Part>, directory: bool },
    Delete { path: Seq<Part>, directory: bool },
    Search,
}

impl EditKind {
    pub open spec fn view(&self) -> EditKindView {
        match self {
            EditKind::Rename { node, path } => EditKindView::Rename { node: *node, path: path@ },
            EditKind::Move { path, absolute } => EditKindView::Move {
                path: path@,
                absolute: *absolute,
            },
            EditKind::Create { dir, dir_path, directory } => EditKindView::Create {
                dir: *dir,
                dir_path: dir_path@,
                directory: *directory,
            },
            EditKind::Delete { path, directory } => EditKindView::Delete {
                path: path@,
                directory: *directory,
            },
            EditKind::Search => EditKindView::Search,
        }
    }
}

/// Where the line of an edit is drawn.
#[derive(Clone, Copy, Debug, PartialEq, Eq, Structural)]
pub enum Placement {
    /// In place of the label of a row.
    Row,
    /// In the command line, below the statusline.
    CommandLine,
}

/// A line being typed, and what for.
#[derive(Debug)]
pub struct Edit {
    pub kind: EditKind,
    pub line: String,
}

/// A line being typed, and what for.
pub ghost struct EditView {
    pub kind: EditKindView,
    pub line: Seq<char>,
}

/// What an event means for a line being typed.
#[derive(Clone, Copy, Debug, PartialEq, Eq, Structural)]
pub enum EditEvent {
    Submit,
    Cancel,
    Continue,
}

impl EditKindView {
    /// What is asked before the line.
    pub open spec fn prompt(self) -> Seq<char> {
        match self {
            EditKindView::Move { .. } => "move-to:"@,
            EditKindView::Delete { path, directory } => "Delete "@ + path_text(path) + (
            if directory {
                "/"@
            } else {
                ""@
            }) + "? (y/n):"@,
            EditKindView::Search => "file search:"@,
            _ => ""@,
        }
    }

    /// Where the line is drawn.
    pub open spec fn place(self) -> Placement {
        match self {
            EditKindView::Rename { .. } | EditKindView::Create { .. } => Placement::Row,
            _ => Placement::CommandLine,
        }
    }
}

impl Edit {
    pub open spec fn view(&self) -> EditView {
        EditView { kind: self.kind@, line: self.line@ }
    }

    /// Starts editing `line`.
    pub fn new(kind: EditKind, line: String) -> (edit: Edit)
        ensures
            edit@ == (EditView { kind: kind@, line: line@ }),
    {
        Edit { kind, line }
    }

    /// What is asked before the line.
    pub fn prompt(&self) -> (prompt: String)
        ensures
            prompt@ == self@.kind.prompt(),
    {
        match &self.kind {
            EditKind::Move { .. } => copy_str("move-to:"),
            EditKind::Delete { path, directory } => {
                let mut prompt: Vec<char> = chars_of_str("Delete ");
                let mut name: Vec<char> = chars_of_str(path.text().as_str());
                prompt.append(&mut name);
                let mut mark: Vec<char> = chars_of_str(
                    if *directory {
                        "/"
                    } else {
                        ""
                    },
                );
                prompt.append(&mut mark);
                let mut question: Vec<char> = chars_of_str("? (y/n):");
                prompt.append(&mut question);
                string_of(&prompt)
            },
            EditKind::Search => copy_str("file search:"),
            _ => copy_str(""),
        }
    }

    /// What a key means for the line: one that neither carries it out nor abandons it edits it.
    pub fn handle_event(&self, key: KeyEvent) -> (event: EditEvent)
        ensures
            event == edit_event_of(key),
    {
        edit_event(key)
    }

    pub fn placement(&self) -> (placement: Placement)
        ensures
            placement == self@.kind.place(),
    {
        match &self.kind {
            EditKind::Rename { .. } | EditKind::Create { .. } => Placement::Row,
            _ => Placement::CommandLine,
        }
    }
}

/// What a key means for a line being typed: enter carries it out, escape and `C-c` abandon it, and
/// everything else is editing.
pub open spec fn edit_event_of(key: KeyEvent) -> EditEvent {
    if key == KeyEvent::plain_key(KeyCode::Enter) {
        EditEvent::Submit
    } else if key == KeyEvent::plain_key(KeyCode::Esc) || key == KeyEvent::control_key('c') {
        EditEvent::Cancel
    } else {
        EditEvent::Continue
    }
}

/// What a key means for a line being typed.
fn edit_event(key: KeyEvent) -> (event: EditEvent)
    ensures
        event == edit_event_of(key),
{
    if key == KeyEvent::plain(KeyCode::Enter) {
        EditEvent::Submit
    } else if key == KeyEvent::plain(KeyCode::Esc) || key == KeyEvent::control('c') {
        EditEvent::Cancel
    } else {
        EditEvent::Continue
    }
}

/// Enter carries a line out, escape and `C-c` abandon it, and with any other key the line is edited
/// further.
pub proof fn law_enter_submits_and_escape_cancels(key: KeyEvent)
    ensures
        edit_event_of(key) == EditEvent::Submit <==> key.code == KeyCode::Enter && !key.shift
            && !key.alt && !key.control,
        edit_event_of(key) == EditEvent::Cancel <==> !key.shift && !key.alt && ((key.code
            == KeyCode::Esc && !key.control) || (key.code == KeyCode::Char('c') && key.control)),
{
}

/// Names are typed in the row of the entry. Paths, answers and queries are typed in the command
/// line, after what is asked for.
pub proof fn law_lines_are_typed_where_they_belong(
    node: NodeId,
    path: Seq<Part>,
    absolute: bool,
    directory: bool,
)
    ensures
        (EditKindView::Rename { node, path }).place() == Placement::Row,
        (EditKindView::Create { dir: node, dir_path: path, directory }).place() == Placement::Row,
        (EditKindView::Move { path, absolute }).place() == Placement::CommandLine,
        (EditKindView::Delete { path, directory }).place() == Placement::CommandLine,
        EditKindView::Search.place() == Placement::CommandLine,
        (EditKindView::Rename { node, path }).prompt() == ""@,
        (EditKindView::Create { dir: node, dir_path: path, directory }).prompt() == ""@,
        (EditKindView::Move { path, absolute }).prompt() == "move-to:"@,
        EditKindView::Search.prompt() == "file search:"@,
        (EditKindView::Delete { path, directory: true }).prompt() == "Delete "@ + path_text(path)
            + "/"@ + "? (y/n):"@,
        (EditKindView::Delete { path, directory: false }).prompt() == "Delete "@ + path_text(path)
            + "? (y/n):"@,
{
    reveal_strlit("");
    assert("Delete "@ + path_text(path) + ""@ + "? (y/n):"@ =~= "Delete "@ + path_text(path)
        + "? (y/n):"@);
}

} // verus!
