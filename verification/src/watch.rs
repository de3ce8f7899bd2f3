//! Watching the directories the tree has listed, so that it follows changes made outside of it:
//! in another program, by `git`, or by a build.

use crate::names::{Part, TreePath};
use crate::search::path_views;
use crate::seqs::select;
use vstd::prelude::*;

verus! {

/// How long changes are collected before the tree handles them, in milliseconds, so that a burst
/// of them, like `git checkout` rewriting many files, is handled at once.
pub const DEBOUNCE: u64 = 100;

/// What happened to a watched file.
#[derive(Clone, Copy, Debug, PartialEq, Eq, Structural)]
pub enum FileEvent {
    /// A file that was open for writing was closed.
    FinishedWrite,
    /// Another access, such as opening.
    Access,
    /// Anything else, such as a new name.
    Other,
}

/// Whether something changed. Listing a directory opens it; only a finished write is a change.
pub fn is_change(event: FileEvent) -> (change: bool)
    ensures
        change == !(event is Access),
{
    match event {
        FileEvent::Access => false,
        _ => true,
    }
}

/// Whether `paths` has the path.
fn has_path(paths: &Vec<TreePath>, path: &TreePath) -> (has: bool)
    ensures
        has == path_views(paths@).contains(path@),
{
    let ghost views = path_views(paths@);
    let mut i: usize = 0;
    while i < paths.len()
        invariant
            i <= paths@.len(),
            views == path_views(paths@),
            forall|k: int| 0 <= k < i ==> #[trigger] views[k] != path@,
        decreases paths.len() - i,
    {
        assert(views[i as int] == paths@[i as int]@);
        if paths[i].same(path) {
            return true;
        }
        i += 1;
    }
    false
}

/// Whether a path is none of `paths`.
pub open spec fn none_of(paths: Seq<Seq<Part>>) -> spec_fn(Seq<Part>) -> bool {
    |path: Seq<Part>| !paths.contains(path)
}

/// The ones of `paths` that are none of `others`.
pub fn difference(paths: &Vec<TreePath>, others: &Vec<TreePath>) -> (left: Vec<TreePath>)
    ensures
        path_views(left@) == select(path_views(paths@), none_of(path_views(others@))),
{
    let ghost views = path_views(paths@);
    let ghost pick = none_of(path_views(others@));
    let mut left: Vec<TreePath> = Vec::new();
    assert(path_views(left@) =~= views.take(0));
    let mut i: usize = 0;
    while i < paths.len()
        invariant
            i <= paths@.len(),
            views == path_views(paths@),
            pick == none_of(path_views(others@)),
            path_views(left@) == select(views.take(i as int), pick),
        decreases paths.len() - i,
    {
        assert(views.take(i + 1).drop_last() =~= views.take(i as int));
        assert(views.take(i + 1).last() == paths@[i as int]@);
        if !has_path(others, &paths[i]) {
            let copy: TreePath = paths[i].copy();
            let ghost before = path_views(left@);
            let ghost view = copy@;
            left.push(copy);
            assert(path_views(left@) =~= before.push(view));
        }
        i += 1;
    }
    assert(views.take(i as int) =~= views);
    left
}

/// The directories that are watched.
#[derive(Debug)]
pub struct Watched {
    dirs: Vec<TreePath>,
}

impl Watched {
    pub closed spec fn view(&self) -> Seq<Seq<Part>> {
        path_views(self.dirs@)
    }

    pub fn new() -> (watched: Watched)
        ensures
            watched@ == Seq::<Seq<Part>>::empty(),
    {
        let watched = Watched { dirs: Vec::new() };
        assert(watched@ =~= Seq::<Seq<Part>>::empty());
        watched
    }

    /// Watches exactly the directories `dirs`. Returns the ones to stop and the ones to start
    /// watching.
    pub fn watch(&mut self, dirs: Vec<TreePath>) -> (changes: (Vec<TreePath>, Vec<TreePath>))
        ensures
            final(self)@ == path_views(dirs@),
            path_views(changes.0@) == select(old(self)@, none_of(path_views(dirs@))),
            path_views(changes.1@) == select(path_views(dirs@), none_of(old(self)@)),
    {
        let stopped: Vec<TreePath> = difference(&self.dirs, &dirs);
        let started: Vec<TreePath> = difference(&dirs, &self.dirs);
        self.dirs = dirs;
        (stopped, started)
    }
}

/// Collects changed paths, to be handed to the tree in batches.
#[derive(Debug)]
pub struct Changes {
    pub generation: u64,
    pub paths: Vec<TreePath>,
}

impl Changes {
    pub open spec fn view(&self) -> Seq<Seq<Part>> {
        path_views(self.paths@)
    }

    pub fn new(generation: u64) -> (changes: Changes)
        ensures
            changes.generation == generation,
            changes@ == Seq::<Seq<Part>>::empty(),
    {
        let changes = Changes { generation, paths: Vec::new() };
        assert(changes@ =~= Seq::<Seq<Part>>::empty());
        changes
    }

    /// Adds a changed path. Returns when the changes are handed on: at most `DEBOUNCE` after the
    /// first change, even while more keep coming.
    pub fn handle_event(&mut self, path: TreePath, timeout: Option<u64>, now: u64) -> (deadline: u64)
        requires
            now <= u64::MAX - DEBOUNCE,
        ensures
            deadline == match timeout {
                Some(timeout) => timeout,
                None => (now + DEBOUNCE) as u64,
            },
            final(self).generation == old(self).generation,
            final(self)@ == if old(self)@.contains(path@) {
                old(self)@
            } else {
                old(self)@.push(path@)
            },
    {
        if !has_path(&self.paths, &path) {
            let ghost before = self@;
            let ghost view = path@;
            self.paths.push(path);
            assert(self@ =~= before.push(view));
        }
        match timeout {
            Some(timeout) => timeout,
            None => now + DEBOUNCE,
        }
    }

    /// Hands the changes on.
    pub fn finish_debounce(&mut self) -> (paths: Vec<TreePath>)
        ensures
            path_views(paths@) == old(self)@,
            final(self)@ == Seq::<Seq<Part>>::empty(),
            final(self).generation == old(self).generation,
    {
        let mut paths: Vec<TreePath> = Vec::new();
        std::mem::swap(&mut paths, &mut self.paths);
        assert(self@ =~= Seq::<Seq<Part>>::empty());
        paths
    }
}

/// After an update exactly the directories that were watched before, without the stopped and with
/// the started ones, are watched.
pub proof fn law_watching_follows_the_tree(before: Seq<Seq<Part>>, dirs: Seq<Seq<Part>>, x: Seq<Part>)
    ensures
        dirs.contains(x) <==> (before.contains(x) && !select(before, none_of(dirs)).contains(x))
            || select(dirs, none_of(before)).contains(x),
{
    crate::seqs::lemma_select(before, none_of(dirs));
    crate::seqs::lemma_select(dirs, none_of(before));
    let stopped = select(before, none_of(dirs));
    let started = select(dirs, none_of(before));
    if stopped.contains(x) {
        assert(stopped[stopped.index_of(x)] == x);
    }
    if started.contains(x) {
        assert(started[started.index_of(x)] == x);
    }
}

} // verus!
