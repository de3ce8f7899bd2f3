//! What a version control system reports of files.

use crate::names::{Part, TreePath};
use vstd::prelude::*;

verus! {

/// States for a file having been changed.
#[derive(Debug)]
pub enum FileChange {
    /// Not tracked by the VCS.
    Untracked { path: TreePath },
    /// A new file staged in the index. Only reported with [`StatusOptions::staged`].
    Added { path: TreePath },
    /// File has been modified.
    Modified { path: TreePath },
    /// File modification is in conflict with a different update.
    Conflict { path: TreePath },
    /// File has been deleted.
    Deleted { path: TreePath },
    /// File has been renamed.
    Renamed { from_path: TreePath, to_path: TreePath },
    /// File or directory is ignored. Only reported with [`StatusOptions::ignored`].
    Ignored { path: TreePath },
}

/// What a status query reports besides the changes between the index and the working tree.
#[derive(Clone, Copy, Debug, PartialEq, Eq, Structural)]
pub struct StatusOptions {
    /// Also report the changes staged in the index, i.e. between `HEAD` and the index.
    pub staged: bool,
    /// Also report what is ignored.
    pub ignored: bool,
}

impl Default for StatusOptions {
    fn default() -> (options: StatusOptions)
        ensures
            !options.staged,
            !options.ignored,
    {
        StatusOptions { staged: false, ignored: false }
    }
}

impl FileChange {
    /// Where the changed file is.
    pub open spec fn place(&self) -> Seq<Part> {
        match self {
            FileChange::Untracked { path } => path@,
            FileChange::Added { path } => path@,
            FileChange::Modified { path } => path@,
            FileChange::Conflict { path } => path@,
            FileChange::Deleted { path } => path@,
            FileChange::Renamed { to_path, .. } => to_path@,
            FileChange::Ignored { path } => path@,
        }
    }

    pub fn path(&self) -> (path: &TreePath)
        ensures
            path@ == self.place(),
    {
        match self {
            FileChange::Untracked { path } => path,
            FileChange::Added { path } => path,
            FileChange::Modified { path } => path,
            FileChange::Conflict { path } => path,
            FileChange::Deleted { path } => path,
            FileChange::Renamed { to_path, .. } => to_path,
            FileChange::Ignored { path } => path,
        }
    }
}

} // verus!
