//! What comes back to a workspace from the background: listings, the git status and changes of
//! watched directories.

use crate::arena::{ChildrenView, NodeId, NodeView};
use crate::git::GitStatuses;
use crate::names::{joined, Part, TreePath};
use crate::order::FileTreeSort;
use crate::search::path_views;
use crate::shape::Shape;
use crate::tree::{is_listing, Listing, Tree};
use crate::workspace::{GitRefresh, Workspace};
use vstd::prelude::*;

verus! {

impl Shape {
    /// Whether `after` is the shape with the directory `dir` as listed.
    pub open spec fn relisted(
        self,
        after: Shape,
        sort: FileTreeSort,
        dir: NodeId,
        listing: Listing,
    ) -> bool {
        &&& self.only_below(after, dir)
        &&& match listing {
            Some(entries) => exists|ids: Seq<NodeId>| #[trigger]
                self.merged(after, sort, dir, entries@, ids),
            None => after.nodes[dir] == (NodeView {
                children: ChildrenView::Unreadable,
                listed: true,
                ..self.nodes[dir]
            }),
        }
    }

    /// Whether `after` is the shape with a listing of what lies at `path` merged. A path that leads
    /// nowhere, and a listing that there is no room for, change nothing.
    pub open spec fn relisted_at(
        self,
        after: Shape,
        sort: FileTreeSort,
        path: Seq<Part>,
        listing: Listing,
    ) -> bool {
        match self.find(self.root, path) {
            Some(dir) => if self.takes(dir, listing) {
                self.relisted(after, sort, dir, listing)
            } else {
                after == self
            },
            None => after == self,
        }
    }

    /// Whether merging the listings one after another goes from this shape through `steps`.
    pub open spec fn relisted_through(
        self,
        sort: FileTreeSort,
        listings: Seq<(TreePath, Listing)>,
        steps: Seq<Shape>,
    ) -> bool {
        &&& steps.len() == listings.len() + 1
        &&& steps[0] == self
        &&& forall|k: int|
            0 <= k < listings.len() ==> (#[trigger] steps[k]).relisted_at(
                steps[k + 1],
                sort,
                listings[k].0@,
                listings[k].1,
            )
    }
}

/// Merges a listing of what lies at `path`, if there is something and there is room.
fn relist(tree: &mut Tree, path: &TreePath, listing: Listing)
    requires
        old(tree).wf(),
        is_listing(listing),
    ensures
        final(tree).wf(),
        final(tree).sorted_how() == old(tree).sorted_how(),
        final(tree).requests() == old(tree).requests(),
        old(tree).shape().relisted_at(
            final(tree).shape(),
            old(tree).sorted_how(),
            path@,
            listing,
        ),
{
    if let Some(dir) = tree.find(path) {
        if tree.accepts(dir, &listing) {
            tree.apply_listing(dir, listing);
        }
    }
}

/// The state of the git status once another refresh is asked for.
pub open spec fn refresh_asked(state: GitRefresh) -> GitRefresh {
    if state is Idle {
        GitRefresh::Running
    } else {
        GitRefresh::RunningStale
    }
}

/// The state of the git status once a refresh has ended.
pub open spec fn refresh_ended(state: GitRefresh) -> GitRefresh {
    if state is RunningStale {
        GitRefresh::Running
    } else {
        GitRefresh::Idle
    }
}

/// A refresh asked for is never lost: it starts at once, or as soon as the one that is running has
/// ended. No two run at a time, however often it is asked for meanwhile.
pub proof fn law_refreshes_follow_one_another(state: GitRefresh)
    ensures
        state is Idle ==> refresh_asked(state) is Running,
        !(state is Idle) ==> refresh_ended(refresh_asked(state)) is Running,
        refresh_asked(refresh_asked(refresh_asked(state))) == refresh_asked(refresh_asked(state)),
        refresh_ended(refresh_ended(refresh_asked(state))) is Idle,
{
}

/// Whether `path` is the absolute path of a directory of the tree that is loaded.
pub open spec fn is_loaded_at(root: Seq<Part>, shape: Shape, id: NodeId, path: Seq<Part>) -> bool {
    &&& shape.has(id)
    &&& shape.nodes[id].children is Loaded
    &&& path == joined(root, shape.path(id))
}

impl Workspace {
    /// Merges listings that arrived for the workspace of `generation`, in order. Returns whether
    /// that is this one.
    pub fn apply_listings(&mut self, generation: u64, listings: Vec<(TreePath, Listing)>) -> (applied:
        bool)
        requires
            old(self).wf(),
            forall|k: int| 0 <= k < listings@.len() ==> is_listing((#[trigger] listings@[k]).1),
        ensures
            final(self).wf(),
            applied == (generation == old(self).generation),
            !applied ==> *final(self) == *old(self),
            applied ==> {
                &&& *final(self) == (Workspace {
                    tree: final(self).tree,
                    ready: true,
                    dirty: true,
                    ..*old(self)
                })
                &&& final(self).tree.requests() == old(self).tree.requests()
                &&& exists|steps: Seq<Shape>|
                    #![trigger old(self).tree.shape().relisted_through(
                        old(self).sort,
                        listings@,
                        steps,
                    )]
                    old(self).tree.shape().relisted_through(old(self).sort, listings@, steps)
                        && steps.last() == final(self).tree.shape()
            },
    {
        if generation != self.generation {
            return false;
        }
        let ghost before = *self;
        let ghost all = listings@;
        let ghost mut steps: Seq<Shape> = seq![self.tree.shape()];
        assert(before.tree.shape().relisted_through(before.sort, all.take(0), steps));
        for item in iter: listings
            invariant
                iter.seq() == all,
                forall|k: int| 0 <= k < all.len() ==> is_listing((#[trigger] all[k]).1),
                self.wf(),
                before.wf(),
                *self == (Workspace { tree: self.tree, ..before }),
                self.tree.sorted_how() == before.sort,
                self.tree.requests() == before.tree.requests(),
                before.tree.shape().relisted_through(
                    before.sort,
                    all.take(iter.index() as int),
                    steps,
                ),
                steps.last() == self.tree.shape(),
        {
            let ghost at = iter.index() as int;
            let ghost done = steps;
            assert(item == all[at]);
            let (path, listing) = item;
            relist(&mut self.tree, &path, listing);
            proof {
                steps = steps.push(self.tree.shape());
                assert(all.take(at + 1).drop_last() =~= all.take(at));
                assert forall|k: int| 0 <= k < all.take(at + 1).len() implies (
                #[trigger] steps[k]).relisted_at(
                    steps[k + 1],
                    before.sort,
                    all.take(at + 1)[k].0@,
                    all.take(at + 1)[k].1,
                ) by {
                    if k < at {
                        assert(done[k].relisted_at(
                            done[k + 1],
                            before.sort,
                            all.take(at)[k].0@,
                            all.take(at)[k].1,
                        ));
                    }
                }
            }
        }
        assert(all.take(all.len() as int) =~= all);
        self.ready = true;
        self.dirty = true;
        true
    }

    /// Asks for the git status. Returns whether to read it now; while it is being read, it is read
    /// again afterwards.
    pub fn refresh_git(&mut self) -> (start: bool)
        ensures
            start == (old(self).git_refresh is Idle),
            *final(self) == (Workspace {
                git_refresh: refresh_asked(old(self).git_refresh),
                ..*old(self)
            }),
    {
        match self.git_refresh {
            GitRefresh::Idle => {
                self.git_refresh = GitRefresh::Running;
                true
            },
            _ => {
                self.git_refresh = GitRefresh::RunningStale;
                false
            },
        }
    }

    /// Takes the git status read for the workspace of `generation`. Returns whether to read it
    /// again.
    pub fn apply_git(&mut self, generation: u64, statuses: GitStatuses) -> (again: bool)
        ensures
            if generation == old(self).generation {
                &&& again == (old(self).git_refresh is RunningStale)
                &&& *final(self) == (Workspace {
                    git: statuses,
                    git_refresh: refresh_ended(old(self).git_refresh),
                    ..*old(self)
                })
            } else {
                !again && *final(self) == *old(self)
            },
    {
        if generation != self.generation {
            return false;
        }
        self.git = statuses;
        let stale: bool = self.git_refresh == GitRefresh::RunningStale;
        self.git_refresh = GitRefresh::Idle;
        if stale {
            self.refresh_git()
        } else {
            false
        }
    }

    /// The directories to watch: the ones the tree has listed, and `.git`.
    pub fn watched_directories(&self, git_dir: Option<TreePath>) -> (dirs: Vec<TreePath>)
        requires
            self.wf(),
        ensures
            forall|path: Seq<Part>| #[trigger]
                path_views(dirs@).contains(path) <==> (git_dir matches Some(git_dir) && path
                    == git_dir@) || exists|id: NodeId| #[trigger]
                    is_loaded_at(self.root@, self.tree.shape(), id, path),
    {
        let ids: Vec<NodeId> = self.tree.loaded_directories();
        let mut dirs: Vec<TreePath> = Vec::new();
        let mut i: usize = 0;
        while i < ids.len()
            invariant
                i <= ids@.len(),
                self.wf(),
                forall|id: NodeId| #[trigger]
                    ids@.contains(id) <==> self.tree.shape().has(id)
                        && self.tree.shape().nodes[id].children is Loaded,
                dirs@.len() == i,
                forall|k: int|
                    0 <= k < i ==> is_loaded_at(
                        self.root@,
                        self.tree.shape(),
                        #[trigger] ids@[k],
                        dirs@[k]@,
                    ),
            decreases ids.len() - i,
        {
            assert(ids@.contains(ids@[i as int]));
            let path: TreePath = self.root.join_path(&self.tree.path(ids[i]));
            dirs.push(path);
            i += 1;
        }
        let ghost loaded = dirs@;
        if let Some(git_dir) = git_dir {
            dirs.push(git_dir);
        }
        proof {
            let views = path_views(dirs@);
            assert forall|path: Seq<Part>| #[trigger] views.contains(path) <==> (git_dir matches Some(
                git_dir,
            ) && path == git_dir@) || exists|id: NodeId| #[trigger]
                is_loaded_at(self.root@, self.tree.shape(), id, path) by {
                if views.contains(path) {
                    let k = views.index_of(path);
                    if k < ids@.len() {
                        assert(is_loaded_at(self.root@, self.tree.shape(), ids@[k], loaded[k]@));
                        assert(dirs@[k] == loaded[k]);
                    }
                }
                if exists|id: NodeId| #[trigger]
                    is_loaded_at(self.root@, self.tree.shape(), id, path) {
                    let id = choose|id: NodeId| #[trigger]
                        is_loaded_at(self.root@, self.tree.shape(), id, path);
                    assert(ids@.contains(id));
                    let k = ids@.index_of(id);
                    assert(is_loaded_at(self.root@, self.tree.shape(), ids@[k], loaded[k]@));
                    assert(views[k] == path);
                }
                if git_dir matches Some(git_dir) && path == git_dir@ {
                    assert(views[views.len() - 1] == path);
                }
            }
        }
        dirs
    }
}

} // verus!
