//! Which files of a workspace are open in buffers.

use crate::git::leads_to;
use crate::names::{Part, TreePath};
use crate::search::path_views;
use vstd::prelude::*;

verus! {

/// A buffer of the editor.
#[derive(Debug)]
pub struct Buffer {
    /// The absolute path of its file, if it has one.
    pub path: Option<TreePath>,
    pub modified: bool,
}

/// Which workspace files are open in buffers, as paths relative to the root.
#[derive(Debug)]
pub struct BufferMarks {
    pub open: Vec<TreePath>,
    pub focused: Option<TreePath>,
    /// Modified files. Every directory holding one is marked too.
    pub modified: Vec<TreePath>,
}

/// A path as seen from `root`, if it is below it.
pub open spec fn below(root: Seq<Part>, path: Option<TreePath>) -> Option<Seq<Part>> {
    match path {
        Some(path) => if leads_to(root, path@) {
            Some(path@.skip(root.len() as int))
        } else {
            None
        },
        None => None,
    }
}

/// The files of the buffers below `root`, or only of the modified ones.
pub open spec fn files_of(root: Seq<Part>, buffers: Seq<Buffer>, modified: bool) -> Seq<Seq<Part>>
    decreases buffers.len(),
{
    if buffers.len() == 0 {
        Seq::empty()
    } else {
        let files = files_of(root, buffers.drop_last(), modified);
        match below(root, buffers.last().path) {
            Some(path) => if !modified || buffers.last().modified {
                files.push(path)
            } else {
                files
            },
            None => files,
        }
    }
}

fn push_path(paths: &mut Vec<TreePath>, path: TreePath)
    ensures
        path_views(final(paths)@) == path_views(old(paths)@).push(path@),
{
    let ghost before = path_views(paths@);
    let ghost view = path@;
    paths.push(path);
    assert(path_views(paths@) =~= before.push(view));
}

impl BufferMarks {
    /// Whether the file at `path` is open.
    pub open spec fn opens(&self, path: Seq<Part>) -> bool {
        path_views(self.open@).contains(path)
    }

    /// Whether the file at `path` is the focused buffer's.
    pub open spec fn focuses(&self, path: Seq<Part>) -> bool {
        self.focused matches Some(focused) && focused@ == path
    }

    /// Whether the entry at `path` is a modified file or a directory holding one.
    pub open spec fn marks(&self, path: Seq<Part>) -> bool {
        exists|i: int|
            0 <= i < self.modified@.len() && leads_to(path, (#[trigger] self.modified@[i])@)
    }

    /// The marks of `buffers` below `root`. `focused` is the path of the focused buffer.
    pub fn new(buffers: &Vec<Buffer>, focused: &Option<TreePath>, root: &TreePath) -> (marks:
        BufferMarks)
        ensures
            path_views(marks.open@) == files_of(root@, buffers@, false),
            path_views(marks.modified@) == files_of(root@, buffers@, true),
            match marks.focused {
                Some(path) => below(root@, *focused) == Some(path@),
                None => below(root@, *focused) is None,
            },
    {
        let mut open: Vec<TreePath> = Vec::new();
        let mut modified: Vec<TreePath> = Vec::new();
        assert(path_views(open@) =~= Seq::empty());
        let mut i: usize = 0;
        while i < buffers.len()
            invariant
                i <= buffers@.len(),
                path_views(open@) == files_of(root@, buffers@.take(i as int), false),
                path_views(modified@) == files_of(root@, buffers@.take(i as int), true),
            decreases buffers.len() - i,
        {
            assert(buffers@.take(i + 1).drop_last() =~= buffers@.take(i as int));
            assert(buffers@.take(i + 1).last() == buffers@[i as int]);
            if let Some(path) = &buffers[i].path {
                if let Some(path) = path.strip_prefix(root) {
                    if buffers[i].modified {
                        push_path(&mut modified, path.copy());
                    }
                    push_path(&mut open, path);
                }
            }
            i += 1;
        }
        assert(buffers@.take(i as int) =~= buffers@);
        let focused: Option<TreePath> = match focused {
            Some(path) => path.strip_prefix(root),
            None => None,
        };
        BufferMarks { open, focused, modified }
    }

    pub fn is_open(&self, path: &TreePath) -> (is: bool)
        ensures
            is == self.opens(path@),
    {
        let ghost views = path_views(self.open@);
        let mut i: usize = 0;
        while i < self.open.len()
            invariant
                i <= self.open@.len(),
                views == path_views(self.open@),
                forall|k: int| 0 <= k < i ==> #[trigger] views[k] != path@,
            decreases self.open.len() - i,
        {
            assert(views[i as int] == self.open@[i as int]@);
            if self.open[i].same(path) {
                return true;
            }
            i += 1;
        }
        false
    }

    pub fn is_focused(&self, path: &TreePath) -> (is: bool)
        ensures
            is == self.focuses(path@),
    {
        match &self.focused {
            Some(focused) => focused.same(path),
            None => false,
        }
    }

    pub fn is_modified(&self, path: &TreePath) -> (is: bool)
        ensures
            is == self.marks(path@),
    {
        let mut i: usize = 0;
        while i < self.modified.len()
            invariant
                i <= self.modified@.len(),
                forall|k: int| 0 <= k < i ==> !leads_to(path@, (#[trigger] self.modified@[k])@),
            decreases self.modified.len() - i,
        {
            if self.modified[i].starts_with(path) {
                return true;
            }
            i += 1;
        }
        false
    }
}

/// Every directory that holds a modified file is marked like the file.
pub proof fn law_directories_show_unsaved_files(marks: BufferMarks, dir: Seq<Part>, path: Seq<Part>)
    requires
        leads_to(dir, path),
        marks.marks(path),
    ensures
        marks.marks(dir),
{
    let i = choose|i: int|
        0 <= i < marks.modified@.len() && leads_to(path, (#[trigger] marks.modified@[i])@);
    let file = marks.modified@[i]@;
    assert(file.take(dir.len() as int) =~= file.take(path.len() as int).take(dir.len() as int));
    assert(leads_to(dir, marks.modified@[i]@));
}

/// The files of the buffers are those of buffers with a path below the root, as seen from there; with
/// `modified` only those of modified buffers.
pub proof fn law_files_are_those_of_buffers(
    root: Seq<Part>,
    buffers: Seq<Buffer>,
    modified: bool,
    path: Seq<Part>,
)
    ensures
        files_of(root, buffers, modified).contains(path) <==> exists|i: int|
            0 <= i < buffers.len() && ((#[trigger] buffers[i]).path matches Some(file) && file@
                == root + path) && (modified ==> buffers[i].modified),
    decreases buffers.len(),
{
    if buffers.len() > 0 {
        let rest = buffers.drop_last();
        law_files_are_those_of_buffers(root, rest, modified, path);
        let earlier = files_of(root, rest, modified);
        let all = files_of(root, buffers, modified);
        let last = buffers.last();
        assert forall|i: int| 0 <= i < rest.len() implies #[trigger] rest[i] == buffers[i] by {}
        assert(last == buffers[buffers.len() - 1]);
        if let Some(file) = last.path {
            if leads_to(root, file@) {
                assert(file@ =~= root + file@.skip(root.len() as int));
            }
            if file@ == root + path {
                assert(file@.take(root.len() as int) =~= root);
                assert(file@.skip(root.len() as int) =~= path);
            }
        }
        if all.contains(path) {
            let k = all.index_of(path);
            if k < earlier.len() {
                assert(earlier[k] == path);
                let i = choose|i: int|
                    0 <= i < rest.len() && ((#[trigger] rest[i]).path matches Some(file) && file@
                        == root + path) && (modified ==> rest[i].modified);
                assert(buffers[i] == rest[i]);
            } else {
                assert(buffers[buffers.len() - 1].path is Some);
            }
        }
        if exists|i: int|
            0 <= i < buffers.len() && ((#[trigger] buffers[i]).path matches Some(file) && file@
                == root + path) && (modified ==> buffers[i].modified) {
            let i = choose|i: int|
                0 <= i < buffers.len() && ((#[trigger] buffers[i]).path matches Some(file) && file@
                    == root + path) && (modified ==> buffers[i].modified);
            if i < rest.len() {
                assert(rest[i] == buffers[i]);
                assert(earlier.contains(path));
                assert(all[earlier.index_of(path)] == path);
            } else {
                assert(all[all.len() - 1] == path);
            }
        }
    }
}

/// An entry is marked as unsaved exactly if a modified buffer is of a file at its path or below it,
/// and as open if a buffer is of the file at its path.
pub proof fn law_marks_follow_the_buffers(
    marks: BufferMarks,
    root: Seq<Part>,
    buffers: Seq<Buffer>,
    path: Seq<Part>,
)
    requires
        path_views(marks.open@) == files_of(root, buffers, false),
        path_views(marks.modified@) == files_of(root, buffers, true),
    ensures
        marks.opens(path) <==> exists|i: int|
            0 <= i < buffers.len() && ((#[trigger] buffers[i]).path matches Some(file) && file@
                == root + path),
        marks.marks(path) <==> exists|i: int|
            0 <= i < buffers.len() && (#[trigger] buffers[i]).modified && (
            buffers[i].path matches Some(file) && file@.len() >= (root + path).len() && file@.take(
                (root + path).len() as int,
            ) == root + path),
{
    law_files_are_those_of_buffers(root, buffers, false, path);
    let views = path_views(marks.modified@);
    if marks.marks(path) {
        let k = choose|k: int|
            0 <= k < marks.modified@.len() && leads_to(path, (#[trigger] marks.modified@[k])@);
        let below = marks.modified@[k]@;
        assert(views[k] == below);
        assert(views.contains(below));
        law_files_are_those_of_buffers(root, buffers, true, below);
        let i = choose|i: int|
            0 <= i < buffers.len() && ((#[trigger] buffers[i]).path matches Some(file) && file@
                == root + below) && buffers[i].modified;
        let file = buffers[i].path->0@;
        assert(file.take((root + path).len() as int) =~= root + below.take(path.len() as int));
    }
    if exists|i: int|
        0 <= i < buffers.len() && (#[trigger] buffers[i]).modified && (buffers[i].path matches Some(
            file,
        ) && file@.len() >= (root + path).len() && file@.take((root + path).len() as int) == root
            + path) {
        let i = choose|i: int|
            0 <= i < buffers.len() && (#[trigger] buffers[i]).modified && (
            buffers[i].path matches Some(file) && file@.len() >= (root + path).len() && file@.take(
                (root + path).len() as int,
            ) == root + path);
        let file = buffers[i].path->0@;
        let below = file.skip(root.len() as int);
        assert(file.take(root.len() as int) =~= (root + path).take(root.len() as int));
        assert((root + path).take(root.len() as int) =~= root);
        assert(file =~= root + below);
        assert(below.take(path.len() as int) =~= (root + path).skip(root.len() as int));
        assert((root + path).skip(root.len() as int) =~= path);
        law_files_are_those_of_buffers(root, buffers, true, below);
        let k = views.index_of(below);
        assert(marks.modified@[k]@ == below);
    }
}

/// A file is that of the focused buffer exactly if the buffer's path is the root's followed by the
/// path of the file.
pub proof fn law_the_focused_file_is_marked(
    marks: BufferMarks,
    root: Seq<Part>,
    focused: Option<TreePath>,
    path: Seq<Part>,
)
    requires
        match marks.focused {
            Some(path) => below(root, focused) == Some(path@),
            None => below(root, focused) is None,
        },
    ensures
        marks.focuses(path) <==> (focused matches Some(file) && file@ == root + path),
{
    if let Some(file) = focused {
        if leads_to(root, file@) {
            assert(file@ =~= root + file@.skip(root.len() as int));
        }
        if file@ == root + path {
            assert(file@.take(root.len() as int) =~= root);
            assert(file@.skip(root.len() as int) =~= path);
        }
    }
}

} // verus!
