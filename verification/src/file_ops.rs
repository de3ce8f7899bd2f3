//! The file operations of the tree, on absolute paths, and moving files across file systems.

use crate::git::leads_to;
use crate::listing::FileType;
use crate::marks::Buffer;
use crate::names::{Component, Part, TreePath};
use crate::status_elements::base_name;
use vstd::prelude::*;

verus! {

/// Where an entry that is moved to `to` ends up: with `into_directory`, moving onto a directory
/// moves into it. `None` for the workspace root, which has no name to go by.
pub fn destination(from: &TreePath, to: &TreePath, into_directory: bool, to_is_dir: bool) -> (path:
    Option<TreePath>)
    ensures
        if into_directory && to_is_dir {
            match base_name(from@) {
                Some(name) => path matches Some(path) && path@ == to@.push(Part::Normal(name)),
                None => path is None,
            }
        } else {
            path matches Some(path) && path@ == to@
        },
{
    if !(into_directory && to_is_dir) {
        return Some(to.copy());
    }
    let len: usize = from.components.len();
    if len > 0 {
        assert(from@.last() == from.components@[len - 1]@);
        if let Component::Normal(name) = &from.components[len - 1] {
            return Some(to.join(name));
        }
    }
    None
}

/// What is to be done for an entry to be moved or created.
#[derive(Clone, Copy, Debug, PartialEq, Eq, Structural)]
pub enum PlacePlan {
    /// It is there already.
    Stay,
    /// Something else is there.
    Refuse,
    /// Make the directories that are missing, and put it there.
    Place,
}

/// What is to be done for the entry at `from`, or a new one, to be at `to`. Nothing is overwritten.
pub fn plan_place(from: Option<&TreePath>, to: &TreePath, taken: bool) -> (plan: PlacePlan)
    ensures
        plan == if from matches Some(from) && from@ == to@ {
            PlacePlan::Stay
        } else if taken {
            PlacePlan::Refuse
        } else {
            PlacePlan::Place
        },
{
    if let Some(from) = from {
        if from.same(to) {
            return PlacePlan::Stay;
        }
    }
    if taken {
        PlacePlan::Refuse
    } else {
        PlacePlan::Place
    }
}

/// Whether the buffer is one of a file at `path` or below it.
pub open spec fn is_below(buffer: Buffer, path: Seq<Part>) -> bool {
    buffer.path matches Some(file) && leads_to(path, file@)
}

/// Which buffers to close when the entry at `path` is deleted: those of files at `path` or below it.
/// While one of them has unsaved changes nothing is deleted, and the first of those is returned.
pub fn delete(buffers: &Vec<Buffer>, path: &TreePath) -> (below: Result<Vec<usize>, usize>)
    ensures
        match below {
            Ok(below) => {
                &&& forall|k: int|
                    0 <= k < below@.len() ==> (#[trigger] below@[k]) < buffers@.len() && is_below(
                        buffers@[below@[k] as int],
                        path@,
                    )
                &&& forall|i: int|
                    0 <= i < buffers@.len() && is_below(#[trigger] buffers@[i], path@)
                        ==> !buffers@[i].modified && below@.contains(i as usize)
                &&& forall|j: int, k: int|
                    0 <= j < k < below@.len() ==> #[trigger] below@[j] < #[trigger] below@[k]
            },
            Err(unsaved) => {
                &&& unsaved < buffers@.len()
                &&& is_below(buffers@[unsaved as int], path@)
                &&& buffers@[unsaved as int].modified
                &&& forall|i: int|
                    0 <= i < unsaved && is_below(#[trigger] buffers@[i], path@)
                        ==> !buffers@[i].modified
            },
        },
{
    let mut below: Vec<usize> = Vec::new();
    let mut i: usize = 0;
    while i < buffers.len()
        invariant
            i <= buffers@.len(),
            forall|k: int|
                0 <= k < below@.len() ==> (#[trigger] below@[k]) < i && is_below(
                    buffers@[below@[k] as int],
                    path@,
                ),
            forall|j: int|
                0 <= j < i && is_below(#[trigger] buffers@[j], path@) ==> !buffers@[j].modified
                    && below@.contains(j as usize),
            forall|j: int, k: int|
                0 <= j < k < below@.len() ==> #[trigger] below@[j] < #[trigger] below@[k],
        decreases buffers.len() - i,
    {
        let is_below: bool = match &buffers[i].path {
            Some(file) => file.starts_with(path),
            None => false,
        };
        if is_below {
            if buffers[i].modified {
                return Err(i);
            }
            let ghost before = below@;
            below.push(i);
            proof {
                assert forall|j: int|
                    0 <= j < i + 1 && self::is_below(
                        #[trigger] buffers@[j],
                        path@,
                    ) implies !buffers@[j].modified && below@.contains(j as usize) by {
                    if j < i {
                        assert(before.contains(j as usize));
                        let k = before.index_of(j as usize);
                        assert(below@[k] == j as usize);
                    } else {
                        assert(below@[below@.len() - 1] == i);
                    }
                }
            }
        }
        i += 1;
    }
    Ok(below)
}

/// How far moving a file or directory has come.
#[derive(Clone, Copy, Debug, PartialEq, Eq, Structural)]
pub enum MoveState {
    /// Rename it.
    Rename,
    /// Test whether there is something at the destination.
    Check,
    /// Copy it, with permissions and links.
    Copy,
    /// Remove the part of it that was copied.
    Undo,
    /// Remove it from where it was.
    Remove,
    Moved,
    /// Nothing was moved, for the reason that is given.
    Failed(MoveError),
}

#[derive(Clone, Copy, Debug, PartialEq, Eq, Structural)]
pub enum MoveError {
    /// What the last step failed with.
    Step,
    /// There is something at the destination.
    AlreadyExists,
    /// What copying failed with.
    Copy,
}

/// How a step of moving went.
#[derive(Clone, Copy, Debug, PartialEq, Eq, Structural)]
pub enum MoveEvent {
    Done,
    Failed,
    /// The two paths are on different file systems.
    CrossesDevices,
}

/// What comes next. A path that cannot be renamed because it is on another file system is copied and
/// then removed, unless there is something at the destination. A check succeeds if there is.
pub open spec fn moved_on(state: MoveState, event: MoveEvent) -> MoveState {
    match (state, event) {
        (MoveState::Rename, MoveEvent::Done) => MoveState::Moved,
        (MoveState::Rename, MoveEvent::CrossesDevices) => MoveState::Check,
        (MoveState::Rename, MoveEvent::Failed) => MoveState::Failed(MoveError::Step),
        (MoveState::Check, MoveEvent::Done) => MoveState::Failed(MoveError::AlreadyExists),
        (MoveState::Check, _) => MoveState::Copy,
        (MoveState::Copy, MoveEvent::Done) => MoveState::Remove,
        (MoveState::Copy, _) => MoveState::Undo,
        // Best effort: the first error is the one worth reporting.
        (MoveState::Undo, _) => MoveState::Failed(MoveError::Copy),
        (MoveState::Remove, MoveEvent::Done) => MoveState::Moved,
        (MoveState::Remove, _) => MoveState::Failed(MoveError::Step),
        (state, _) => state,
    }
}

/// What comes next when moving a path.
pub fn next_move(state: MoveState, event: MoveEvent) -> (next: MoveState)
    ensures
        next == moved_on(state, event),
{
    match (state, event) {
        (MoveState::Rename, MoveEvent::Done) => MoveState::Moved,
        (MoveState::Rename, MoveEvent::CrossesDevices) => MoveState::Check,
        (MoveState::Rename, MoveEvent::Failed) => MoveState::Failed(MoveError::Step),
        (MoveState::Check, MoveEvent::Done) => MoveState::Failed(MoveError::AlreadyExists),
        (MoveState::Check, _) => MoveState::Copy,
        (MoveState::Copy, MoveEvent::Done) => MoveState::Remove,
        (MoveState::Copy, _) => MoveState::Undo,
        (MoveState::Undo, _) => MoveState::Failed(MoveError::Copy),
        (MoveState::Remove, MoveEvent::Done) => MoveState::Moved,
        (MoveState::Remove, _) => MoveState::Failed(MoveError::Step),
        (state, _) => state,
    }
}

/// What was moved is only removed from where it was once all of it is copied, nothing is copied onto
/// something else, and what was copied in part is removed again before the failure is reported.
pub proof fn law_moving_loses_nothing(state: MoveState, event: MoveEvent)
    ensures
        moved_on(state, event) is Remove ==> state is Remove || state is Copy && event is Done,
        moved_on(state, event) is Copy ==> state is Copy || state is Check && !(event is Done),
        state is Copy && !(event is Done) ==> moved_on(state, event) is Undo,
        state is Undo ==> moved_on(state, event) == MoveState::Failed(MoveError::Copy),
{
}

/// How an entry is copied.
#[derive(Clone, Copy, Debug, PartialEq, Eq, Structural)]
pub enum CopyPlan {
    /// Make a link to the same target.
    Link,
    /// Make the directory, copy what is in it, and set its permissions last, so that a read-only
    /// directory can still be filled.
    Directory,
    File,
}

/// How an entry is copied. Links are recreated, not followed.
pub fn copy_plan(file_type: FileType) -> (plan: CopyPlan)
    ensures
        plan == match file_type {
            FileType::Link => CopyPlan::Link,
            FileType::Directory => CopyPlan::Directory,
            _ => CopyPlan::File,
        },
{
    match file_type {
        FileType::Link => CopyPlan::Link,
        FileType::Directory => CopyPlan::Directory,
        _ => CopyPlan::File,
    }
}

/// Moving goes by renaming, and is done when that is. Between file systems it goes by copying, if
/// nothing is at the destination, and is done when the original is removed. Every failure says what
/// it was, and what has ended goes no further.
pub proof fn law_moves_end_as_their_steps_do(state: MoveState, event: MoveEvent)
    ensures
        moved_on(MoveState::Rename, MoveEvent::Done) == MoveState::Moved,
        moved_on(MoveState::Rename, MoveEvent::CrossesDevices) == MoveState::Check,
        moved_on(MoveState::Rename, MoveEvent::Failed) == MoveState::Failed(MoveError::Step),
        moved_on(MoveState::Check, MoveEvent::Done) == MoveState::Failed(MoveError::AlreadyExists),
        moved_on(MoveState::Check, MoveEvent::Failed) == MoveState::Copy,
        moved_on(MoveState::Copy, MoveEvent::Done) == MoveState::Remove,
        moved_on(MoveState::Copy, MoveEvent::Failed) == MoveState::Undo,
        moved_on(MoveState::Remove, MoveEvent::Done) == MoveState::Moved,
        moved_on(MoveState::Remove, MoveEvent::Failed) == MoveState::Failed(MoveError::Step),
        moved_on(MoveState::Moved, event) == MoveState::Moved,
        state is Failed ==> moved_on(state, event) == state,
        moved_on(state, event) is Moved ==> state is Moved || (event is Done && (state is Rename
            || state is Remove)),
{
}

/// A buffer is below a path if its file is at the path or in the directory there. A buffer without a
/// file is not.
pub proof fn law_buffers_are_below_their_directories(
    buffer: Buffer,
    path: Seq<Part>,
    file: TreePath,
    rest: Seq<Part>,
)
    ensures
        buffer.path == Some(file) && file@ == path + rest ==> is_below(buffer, path),
        is_below(buffer, path) ==> (buffer.path matches Some(file) && file@ == path + file@.skip(
            path.len() as int,
        )),
        buffer.path is None ==> !is_below(buffer, path),
{
    assert((path + rest).take(path.len() as int) =~= path);
    if is_below(buffer, path) {
        let at = buffer.path->0@;
        assert(at =~= path + at.skip(path.len() as int));
    }
}

} // verus!
