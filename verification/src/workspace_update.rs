//! Bringing a workspace up to date: revealing paths, asking for listings and rebuilding rows.

use crate::arena::{NodeId, NodeView};
use crate::git::leads_to;
use crate::names::{Part, TreePath};
use crate::order::FileTreeSort;
use crate::rows::Rows;
use crate::search::path_views;
use crate::shape::Shape;
use crate::sorting::{
    in_order, lemma_sorted_by, lemma_sorted_by_contains, lemma_sorted_by_map, sorted_by, stable_sort, total_preorder,
};
use crate::tree::Reveal;
use crate::workspace::{
    law_rows_are_found_by_their_nodes, PendingReveal, Purpose, Workspace,
};
use vstd::prelude::*;

verus! {

impl Shape {
    /// The shape with the directories `ids` expanded.
    pub open spec fn with_expanded(self, ids: Seq<NodeId>) -> Shape {
        Shape {
            nodes: Map::new(
                |x: NodeId| self.has(x),
                |x: NodeId|
                    if ids.contains(x) {
                        self.expanded_node(x)
                    } else {
                        self.nodes[x]
                    },
            ),
            ..self
        }
    }

    /// The shape with the entries of every directory sorted in another way.
    pub open spec fn resorted(self, sort: FileTreeSort) -> Shape {
        Shape {
            nodes: Map::new(
                |x: NodeId| self.has(x),
                |x: NodeId| NodeView { children: self.sorted_children(sort, x), ..self.nodes[x] },
            ),
            ..self
        }
    }

    proof fn lemma_with_expanded(self, after: Shape, ids: Seq<NodeId>)
        requires
            self.is_expanded(after, ids),
        ensures
            after == self.with_expanded(ids),
    {
        assert(after.nodes =~= self.with_expanded(ids).nodes) by {
            assert forall|x: NodeId| after.nodes.dom().contains(x) implies after.nodes[x]
                == self.with_expanded(ids).nodes[x] by {
                assert(self.has(x));
            }
        }
    }

    proof fn lemma_resorted(self, after: Shape, sort: FileTreeSort)
        requires
            self.is_sorted(after, sort),
        ensures
            after == self.resorted(sort),
    {
        assert(after.nodes =~= self.resorted(sort).nodes) by {
            assert forall|x: NodeId| after.nodes.dom().contains(x) implies after.nodes[x]
                == self.resorted(sort).nodes[x] by {
                assert(self.has(x));
            }
        }
    }
}

/// The directories that `path` is in, the closest first, from those that `base` leads to.
pub open spec fn ways(path: Seq<Part>, base: Seq<Part>) -> Seq<Seq<Part>>
    decreases path.len(),
{
    if path.len() == 0 {
        Seq::empty()
    } else {
        let up = path.drop_last();
        if leads_to(base, up) {
            seq![up] + ways(up, base)
        } else {
            ways(up, base)
        }
    }
}

/// How far paths are revealed.
pub ghost struct Revealing {
    pub shape: Shape,
    pub requests: Seq<NodeId>,
    pub cursor: NodeId,
    pub scroll_to: Option<NodeId>,
    /// The paths that are still to be revealed.
    pub kept: Seq<PendingReveal>,
    /// The directories that have to be listed first.
    pub unlisted: Seq<Seq<Part>>,
    pub revealed: bool,
}

impl Revealing {
    /// Reveals one more path.
    pub open spec fn reveal_one(self, reveal: PendingReveal) -> Revealing {
        let root = self.shape.root;
        let passed = self.shape.passed(root, reveal.path@);
        let shape = self.shape.with_expanded(passed);
        let requests = self.requests + self.shape.to_list(passed);
        match self.shape.revealed(root, reveal.path@) {
            Reveal::Found(node) => Revealing {
                shape,
                requests,
                cursor: if reveal.purpose is Show {
                    self.cursor
                } else {
                    node
                },
                scroll_to: if reveal.purpose is Show {
                    self.scroll_to
                } else {
                    Some(node)
                },
                revealed: true,
                ..self
            },
            Reveal::Unlisted(dir) => Revealing {
                shape,
                requests,
                kept: self.kept.push(reveal),
                unlisted: self.unlisted + ways(reveal.path@, shape.path(dir)),
                revealed: true,
                ..self
            },
            Reveal::Missing => Revealing { shape, requests, ..self },
        }
    }

    /// Reveals paths one after the other.
    pub open spec fn reveal_all(self, reveals: Seq<PendingReveal>) -> Revealing
        decreases reveals.len(),
    {
        if reveals.len() == 0 {
            self
        } else {
            self.reveal_all(reveals.drop_last()).reveal_one(reveals.last())
        }
    }
}

/// Paths with fewer parts first.
pub open spec fn shorter_first() -> spec_fn(Seq<Part>, Seq<Part>) -> bool {
    |a: Seq<Part>, b: Seq<Part>| a.len() <= b.len()
}

spec fn shorter_path_first() -> spec_fn(TreePath, TreePath) -> bool {
    |a: TreePath, b: TreePath| a@.len() <= b@.len()
}

fn test_shorter(a: &TreePath, b: &TreePath) -> (before: bool)
    ensures
        before == shorter_path_first()(*a, *b),
{
    a.components.len() <= b.components.len()
}

/// `s` without the paths that equal the one before them.
pub open spec fn without_repeats(s: Seq<Seq<Part>>) -> Seq<Seq<Part>>
    decreases s.len(),
{
    if s.len() <= 1 {
        s
    } else if s.last() == s[s.len() - 2] {
        without_repeats(s.drop_last())
    } else {
        without_repeats(s.drop_last()).push(s.last())
    }
}

/// The directories to list, parents before their children.
pub open spec fn listing_order(dirs: Seq<Seq<Part>>) -> Seq<Seq<Part>> {
    without_repeats(sorted_by(dirs, shorter_first()))
}

proof fn lemma_without_repeats(s: Seq<Seq<Part>>)
    requires
        in_order(s, shorter_first()),
    ensures
        in_order(without_repeats(s), shorter_first()),
        s.len() > 0 ==> without_repeats(s).len() > 0 && without_repeats(s).last() == s.last(),
    decreases s.len(),
{
    if s.len() > 1 {
        let t = s.drop_last();
        assert(in_order(t, shorter_first())) by {
            assert forall|i: int, j: int|
                #![trigger t[i], t[j]]
                0 <= i < j < t.len() implies shorter_first()(t[i], t[j]) by {
                assert(shorter_first()(s[i], s[j]));
            }
        }
        lemma_without_repeats(t);
        let rest = without_repeats(t);
        let all = without_repeats(s);
        assert(shorter_first()(s[s.len() - 2], s[s.len() - 1]));
        assert(t.last() == s[s.len() - 2]);
        if s.last() != s[s.len() - 2] {
            assert forall|i: int, j: int|
                #![trigger all[i], all[j]]
                0 <= i < j < all.len() implies shorter_first()(all[i], all[j]) by {
                if j == rest.len() {
                    if i < rest.len() - 1 {
                        assert(shorter_first()(rest[i], rest[rest.len() - 1]));
                    }
                } else {
                    assert(shorter_first()(rest[i], rest[j]));
                }
            }
        }
    }
}

/// Directories are listed after those that they are in, so that they are known when their listings
/// arrive.
pub proof fn law_parents_are_listed_first(dirs: Seq<Seq<Part>>)
    ensures
        in_order(listing_order(dirs), shorter_first()),
{
    lemma_sorted_by(dirs, shorter_first());
    assert(total_preorder(shorter_first()));
    lemma_without_repeats(sorted_by(dirs, shorter_first()));
}

fn list_in_order(dirs: Vec<TreePath>) -> (ordered: Vec<TreePath>)
    ensures
        path_views(ordered@) == listing_order(path_views(dirs@)),
{
    let ghost given = dirs@;
    let sorted: Vec<TreePath> = stable_sort(dirs, test_shorter, Ghost(shorter_path_first()));
    let ghost views = path_views(sorted@);
    proof {
        let f = |path: TreePath| path@;
        lemma_sorted_by_map(given, f, shorter_path_first(), shorter_first());
        assert(views =~= sorted@.map_values(f));
        assert(path_views(given) =~= given.map_values(f));
    }
    let mut ordered: Vec<TreePath> = Vec::new();
    assert(path_views(ordered@) =~= Seq::<Seq<Part>>::empty());
    let mut i: usize = 0;
    while i < sorted.len()
        invariant
            i <= sorted@.len(),
            views == path_views(sorted@),
            path_views(ordered@) == without_repeats(views.take(i as int)),
        decreases sorted.len() - i,
    {
        let ghost taken = views.take(i + 1);
        let ghost before = path_views(ordered@);
        assert(taken.drop_last() =~= views.take(i as int));
        assert(taken.last() == sorted@[i as int]@);
        if i == 0 || !sorted[i].same(&sorted[i - 1]) {
            let copy: TreePath = sorted[i].copy();
            let ghost view = copy@;
            ordered.push(copy);
            assert(path_views(ordered@) =~= before.push(view));
        } else {
            assert(taken[taken.len() - 2] == sorted@[i - 1]@);
        }
        i += 1;
        assert(path_views(ordered@) =~= without_repeats(views.take(i as int)));
    }
    assert(views.take(i as int) =~= views);
    ordered
}

/// The directories that `path` is in, the closest first, from those that `base` leads to.
fn ways_to(path: &TreePath, base: &TreePath) -> (dirs: Vec<TreePath>)
    ensures
        path_views(dirs@) == ways(path@, base@),
{
    let mut dirs: Vec<TreePath> = Vec::new();
    let mut len: usize = path.components.len();
    assert(path@.take(len as int) =~= path@);
    assert(path_views(dirs@) + ways(path@, base@) =~= ways(path@, base@));
    while len > 0
        invariant
            len <= path@.len(),
            path_views(dirs@) + ways(path@.take(len as int), base@) == ways(path@, base@),
        decreases len,
    {
        let up: TreePath = path.prefix(len - 1);
        let ghost before = path_views(dirs@);
        let ghost view = up@;
        assert(path@.take(len as int).drop_last() =~= view);
        if up.starts_with(base) {
            dirs.push(up);
            assert(path_views(dirs@) =~= before.push(view));
            assert(before.push(view) + ways(view, base@) =~= before + (seq![view] + ways(
                view,
                base@,
            )));
        }
        len -= 1;
    }
    assert(path_views(dirs@) + ways(path@.take(0), base@) =~= path_views(dirs@));
    dirs
}

/// What an update leaves to be done.
#[derive(Debug)]
pub struct Updated {
    /// The directories to list, relative to the root, parents before their children.
    pub dirs: Vec<TreePath>,
    /// Whether the rows were rebuilt, and so the directories to watch may be others.
    pub rebuilt: bool,
}

impl Shape {
    /// Whether `after` has the same nodes at the same places.
    spec fn same_places(self, after: Shape) -> bool {
        &&& after.nodes.dom() == self.nodes.dom()
        &&& after.root == self.root
        &&& after.depths == self.depths
        &&& forall|x: NodeId| #[trigger] self.has(x) ==> after.parent(x) == self.parent(x)
    }

    proof fn lemma_same_places(self, after: Shape, x: NodeId, y: NodeId)
        requires
            self.wf(),
            self.same_places(after),
            self.has(x),
        ensures
            after.within(x, y) == self.within(x, y),
    {
        assert(self.places_kept(after));
        self.lemma_places_kept(Set::empty(), after, x, y);
    }
}

impl Workspace {
    /// How far paths are revealed before any is.
    pub open spec fn before_revealing(self, shape: Shape) -> Revealing {
        Revealing {
            shape,
            requests: self.tree.requests(),
            cursor: self.cursor,
            scroll_to: self.scroll_to,
            kept: Seq::empty(),
            unlisted: Seq::empty(),
            revealed: false,
        }
    }

    /// Reveals what can be revealed. Returns the directories that have to be listed first, and
    /// whether anything was revealed.
    fn reveal_pending(&mut self) -> (unlisted: (Vec<TreePath>, bool))
        requires
            old(self).wf(),
        ensures
            final(self).wf(),
            *final(self) == (Workspace {
                tree: final(self).tree,
                cursor: final(self).cursor,
                scroll_to: final(self).scroll_to,
                reveals: final(self).reveals,
                ..*old(self)
            }),
            old(self).tree.shape().same_places(final(self).tree.shape()),
            ({
                let done = old(self).before_revealing(old(self).tree.shape()).reveal_all(
                    old(self).reveals@,
                );
                &&& final(self).tree.shape() == done.shape
                &&& final(self).tree.requests() == done.requests
                &&& final(self).cursor == done.cursor
                &&& final(self).scroll_to == done.scroll_to
                &&& final(self).reveals@ == done.kept
                &&& path_views(unlisted.0@) == done.unlisted
                &&& unlisted.1 == done.revealed
            }),
    {
        let ghost start = *self;
        let ghost first = start.before_revealing(start.tree.shape());
        let mut all: Vec<PendingReveal> = Vec::new();
        std::mem::swap(&mut all, &mut self.reveals);
        let ghost given = all@;
        let mut unlisted: Vec<TreePath> = Vec::new();
        let mut revealed: bool = false;
        assert(path_views(unlisted@) =~= Seq::<Seq<Part>>::empty());
        for reveal in iter: all
            invariant
                iter.seq() == given,
                given == start.reveals@,
                start == *old(self),
                first == start.before_revealing(start.tree.shape()),
                start.tree.shape().wf(),
                self.wf(),
                *self == (Workspace {
                    tree: self.tree,
                    cursor: self.cursor,
                    scroll_to: self.scroll_to,
                    reveals: self.reveals,
                    ..start
                }),
                start.tree.shape().same_places(self.tree.shape()),
                ({
                    let done = first.reveal_all(given.take(iter.index() as int));
                    &&& self.tree.shape() == done.shape
                    &&& self.tree.requests() == done.requests
                    &&& self.cursor == done.cursor
                    &&& self.scroll_to == done.scroll_to
                    &&& self.reveals@ == done.kept
                    &&& path_views(unlisted@) == done.unlisted
                    &&& revealed == done.revealed
                }),
        {
            let ghost k = iter.index() as int;
            let ghost done = first.reveal_all(given.take(k));
            let ghost s = self.tree.shape();
            assert(given.take(k + 1).drop_last() =~= given.take(k));
            assert(given.take(k + 1).last() == reveal);
            let found: Reveal = self.tree.reveal_path(&reveal.path);
            proof {
                s.lemma_with_expanded(
                    self.tree.shape(),
                    s.passed(s.root, reveal.path@),
                );
                assert(start.tree.shape().same_places(self.tree.shape())) by {
                    let t = self.tree.shape();
                    assert forall|x: NodeId| #[trigger] start.tree.shape().has(x) implies t.parent(x)
                        == start.tree.shape().parent(x) by {
                        assert(s.has(x));
                    }
                }
            }
            match found {
                Reveal::Found(node) => {
                    match reveal.purpose {
                        Purpose::Show => {},
                        _ => {
                            self.cursor = node;
                            self.scroll_to = Some(node);
                        },
                    }
                    revealed = true;
                },
                Reveal::Unlisted(dir) => {
                    // List the whole way down at once rather than one directory per round trip.
                    let base: TreePath = self.tree.path(dir);
                    let mut dirs: Vec<TreePath> = ways_to(&reveal.path, &base);
                    let ghost before = path_views(unlisted@);
                    let ghost added = path_views(dirs@);
                    unlisted.append(&mut dirs);
                    assert(path_views(unlisted@) =~= before + added);
                    revealed = true;
                    self.reveals.push(reveal);
                },
                Reveal::Missing => {},
            }
        }
        assert(given.take(given.len() as int) =~= given);
        (unlisted, revealed)
    }

    /// The shape after the settings are applied.
    pub open spec fn settings_applied(self, sort: FileTreeSort) -> Shape {
        if sort == self.sort {
            self.tree.shape()
        } else {
            self.tree.shape().resorted(sort)
        }
    }

    /// How far paths are revealed by an update.
    pub open spec fn revealed_by_update(self, sort: FileTreeSort) -> Revealing {
        self.before_revealing(self.settings_applied(sort)).reveal_all(self.reveals@)
    }

    /// Whether an update rebuilds the rows.
    pub open spec fn rebuilt_by_update(self, sort: FileTreeSort, flatten_dirs: bool) -> bool {
        self.dirty || sort != self.sort || flatten_dirs != self.flatten_dirs
            || self.revealed_by_update(sort).revealed
    }

    /// The workspace before an update rebuilds its rows.
    pub open spec fn before_rebuild(
        self,
        after: Workspace,
        sort: FileTreeSort,
        flatten_dirs: bool,
    ) -> Workspace {
        Workspace {
            tree: after.tree,
            sort,
            flatten_dirs,
            cursor: self.revealed_by_update(sort).cursor,
            scroll_to: after.scroll_to,
            reveals: after.reveals,
            dirty: false,
            ..self
        }
    }

    /// Whether `after` is the workspace brought up to date: the pending reveals are worked off, the
    /// directories to list are asked for, and the rows rebuilt where something changed.
    pub open spec fn is_updated(
        self,
        after: Workspace,
        updated: Updated,
        sort: FileTreeSort,
        flatten_dirs: bool,
    ) -> bool {
        let done = self.revealed_by_update(sort);
        let dirs = done.shape.wanted(done.requests).map_values(|id: NodeId| done.shape.path(id))
            + done.unlisted;
        let before = self.before_rebuild(after, sort, flatten_dirs);
        &&& after.tree.shape() == done.shape
        &&& after.tree.requests() == Seq::<NodeId>::empty()
        &&& after.scroll_to == done.scroll_to
        &&& after.reveals@ == done.kept
        &&& path_views(updated.dirs@) == listing_order(dirs)
        &&& updated.rebuilt == self.rebuilt_by_update(sort, flatten_dirs)
        &&& if updated.rebuilt {
            &&& after == Workspace {
                rows: after.rows,
                start: after.start,
                cursor: after.cursor,
                ..before
            }
            &&& after.shows_tree()
            &&& after.start == before.kept_start(after.rows)
            &&& after.cursor == before.kept_cursor(after.rows)
            &&& after.rows.row_of(after.cursor) is Some
        } else {
            after == before
        }
    }

    /// Brings everything derived from the tree up to date: pending reveals, listings, rows.
    #[verifier::spinoff_prover]
    #[verifier::rlimit(40)]
    pub fn update(&mut self, sort: FileTreeSort, flatten_dirs: bool) -> (updated: Updated)
        requires
            old(self).wf(),
            old(self).settled(),
        ensures
            final(self).wf(),
            final(self).fresh(),
            !final(self).dirty,
            old(self).is_updated(*final(self), updated, sort, flatten_dirs),
    {
        let ghost start = *self;
        if sort != self.sort {
            self.sort = sort;
            self.tree.set_sort(sort);
            self.dirty = true;
            proof {
                start.tree.shape().lemma_resorted(self.tree.shape(), sort);
            }
        }
        if flatten_dirs != self.flatten_dirs {
            self.flatten_dirs = flatten_dirs;
            self.dirty = true;
        }
        let ghost m = *self;
        let (unlisted, revealed) = self.reveal_pending();
        proof {
            assert(m.before_revealing(m.tree.shape()) == start.before_revealing(
                start.settings_applied(sort),
            ));
        }
        if revealed {
            self.dirty = true;
        }
        let ghost shape = self.tree.shape();
        let requests: Vec<NodeId> = self.tree.take_listing_requests();
        let mut dirs: Vec<TreePath> = Vec::new();
        let ghost paths = requests@.map_values(|id: NodeId| shape.path(id));
        let mut i: usize = 0;
        proof {
            assert(path_views(dirs@) =~= paths.take(0));
            shape.lemma_wanted(start.revealed_by_update(sort).requests);
        }
        while i < requests.len()
            invariant
                i <= requests@.len(),
                self.tree.wf(),
                shape == self.tree.shape(),
                paths == requests@.map_values(|id: NodeId| shape.path(id)),
                forall|k: int| 0 <= k < requests@.len() ==> shape.has(#[trigger] requests@[k]),
                path_views(dirs@) == paths.take(i as int),
            decreases requests.len() - i,
        {
            assert(shape.has(requests@[i as int]));
            let path: TreePath = self.tree.path(requests[i]);
            let ghost before = path_views(dirs@);
            let ghost view = path@;
            dirs.push(path);
            assert(path_views(dirs@) =~= before.push(view));
            i += 1;
            assert(path_views(dirs@) =~= paths.take(i as int));
        }
        let ghost more = path_views(unlisted@);
        let mut unlisted: Vec<TreePath> = unlisted;
        dirs.append(&mut unlisted);
        proof {
            assert(paths.take(i as int) =~= paths);
            assert(path_views(dirs@) =~= paths + more);
        }
        // Parents first, so their children exist when the listings are merged.
        let ordered: Vec<TreePath> = list_in_order(dirs);
        let rebuilt: bool = self.dirty;
        if rebuilt {
            self.dirty = false;
            self.rebuild_rows();
        } else {
            proof {
                assert forall|i: int| 0 <= i < self.rows@.len() implies crate::workspace::row_in(
                    shape,
                    #[trigger] self.rows@[i],
                ) by {
                    assert(crate::workspace::row_in(start.tree.shape(), start.rows@[i]));
                    m.tree.shape().lemma_same_places(
                        shape,
                        self.rows@[i].node,
                        self.rows@[i].head,
                    );
                }
            }
        }
        Updated { dirs: ordered, rebuilt }
    }
}

/// The directory that a hidden entry is found by is the closest one above it that has a row.
proof fn lemma_closest_row(shape: Shape, rows: Rows, node: NodeId) -> (top: NodeId)
    requires
        shape.wf(),
        shape.has(node),
        shape.closest_row(rows, node) is Some,
    ensures
        shape.has(top),
        shape.within(node, top),
        rows.row_of(top) == shape.closest_row(rows, node),
        forall|x: NodeId|
            shape.within(node, x) && shape.within(x, top) && x != top ==> #[trigger] rows.row_of(
                x,
            ) is None,
    decreases shape.depths[node],
{
    assert(shape.fits(Set::empty(), node));
    match rows.row_of(node) {
        Some(_) => {
            assert forall|x: NodeId|
                shape.within(node, x) && shape.within(x, node) && x != node implies (
            #[trigger] rows.row_of(x)) is None by {
                shape.lemma_depth(node, x);
                shape.lemma_depth(x, node);
            }
            node
        },
        None => {
            let parent = shape.parent(node)->0;
            let top = lemma_closest_row(shape, rows, parent);
            shape.lemma_within_parent(Set::empty(), node);
            shape.lemma_within_transitive(node, parent, top);
            top
        },
    }
}

/// An update that rebuilds the rows keeps the cursor on its entry, or where that has no row, puts it
/// on the closest directory above it that has one.
pub proof fn law_updates_keep_the_cursor(
    workspace: Workspace,
    after: Workspace,
    updated: Updated,
    sort: FileTreeSort,
    flatten_dirs: bool,
) -> (top: NodeId)
    requires
        after.wf(),
        workspace.is_updated(after, updated, sort, flatten_dirs),
        updated.rebuilt,
        after.tree.shape().has(workspace.revealed_by_update(sort).cursor),
    ensures
        ({
            let shape = after.tree.shape();
            let cursor = workspace.revealed_by_update(sort).cursor;
            &&& shape.within(cursor, top)
            &&& after.rows.row_of(top) is Some
            &&& after.rows.row_of(after.cursor) == after.rows.row_of(top)
            &&& after.rows.row_of(cursor) is Some ==> top == cursor
            &&& forall|x: NodeId|
                shape.within(cursor, x) && shape.within(x, top) && x != top
                    ==> #[trigger] after.rows.row_of(x) is None
        }),
{
    let shape = after.tree.shape();
    let rows = after.rows;
    let cursor = workspace.revealed_by_update(sort).cursor;
    lemma_root_has_row(after);
    lemma_some_row(shape, rows, cursor);
    let top = lemma_closest_row(shape, rows, cursor);
    law_rows_are_found_by_their_nodes(after, rows.row_of(top)->0 as int);
    top
}

/// The root has a row.
proof fn lemma_root_has_row(workspace: Workspace)
    requires
        workspace.wf(),
        workspace.shows_tree(),
    ensures
        workspace.rows.row_of(workspace.tree.shape().root) is Some,
{
    let shape = workspace.tree.shape();
    assert(workspace.rows@[0] == shape.root_row());
    assert(shape.shows(workspace.rows@[0], shape.root));
    assert(shape.shown_at(workspace.rows@, shape.root, workspace.rows.row_of(shape.root)));
}

proof fn lemma_some_row(shape: Shape, rows: Rows, node: NodeId)
    requires
        shape.wf(),
        shape.has(node),
        rows.row_of(shape.root) is Some,
    ensures
        shape.closest_row(rows, node) is Some,
    decreases shape.depths[node],
{
    assert(shape.fits(Set::empty(), node));
    if node != shape.root {
        lemma_some_row(shape, rows, shape.parent(node)->0);
    }
}

impl Shape {
    /// Whether `after` has the nodes of the shape with their names and places, and those expanded
    /// that were.
    pub open spec fn still_expanded(self, after: Shape) -> bool {
        forall|x: NodeId| #[trigger]
            self.has(x) ==> {
                &&& after.has(x)
                &&& after.parent(x) == self.parent(x)
                &&& after.depths[x] == self.depths[x]
                &&& after.nodes[x].name == self.nodes[x].name
                &&& after.nodes[x].kind == self.nodes[x].kind
                &&& self.nodes[x].expanded && self.is_directory(x) ==> after.nodes[x].expanded
            }
    }

    proof fn lemma_same_path(self, after: Shape, id: NodeId)
        requires
            self.wf(),
            self.has(id),
            self.still_expanded(after),
        ensures
            after.path(id) == self.path(id),
        decreases self.depths[id],
    {
        assert(self.fits(Set::empty(), id));
        if id != self.root {
            self.lemma_same_path(after, self.parent(id)->0);
        }
    }

    proof fn lemma_wanted_contains(self, requests: Seq<NodeId>, id: NodeId)
        requires
            requests.contains(id),
            self.has(id),
            self.nodes[id].expanded,
        ensures
            self.wanted(requests).contains(id),
        decreases requests.len(),
    {
        let earlier = requests.drop_last();
        if earlier.contains(id) {
            self.lemma_wanted_contains(earlier, id);
            let k = self.wanted(earlier).index_of(id);
            assert(self.wanted(requests)[k] == id);
        } else {
            let k = requests.index_of(id);
            if k < earlier.len() {
                assert(earlier[k] == id);
            }
            let all = self.wanted(requests);
            assert(all[all.len() - 1] == id);
        }
    }
}

impl Revealing {
    proof fn lemma_reveal_all(self, reveals: Seq<PendingReveal>, id: NodeId)
        requires
            self.requests.contains(id),
        ensures
            self.reveal_all(reveals).requests.contains(id),
            self.shape.still_expanded(self.reveal_all(reveals).shape),
        decreases reveals.len(),
    {
        if reveals.len() > 0 {
            self.lemma_reveal_all(reveals.drop_last(), id);
            let before = self.reveal_all(reveals.drop_last());
            let after = self.reveal_all(reveals);
            let k = before.requests.index_of(id);
            assert(after.requests[k] == id);
            assert forall|x: NodeId| #[trigger] self.shape.has(x) implies {
                &&& after.shape.has(x)
                &&& after.shape.parent(x) == self.shape.parent(x)
                &&& after.shape.depths[x] == self.shape.depths[x]
                &&& after.shape.nodes[x].name == self.shape.nodes[x].name
                &&& after.shape.nodes[x].kind == self.shape.nodes[x].kind
                &&& self.shape.nodes[x].expanded && self.shape.is_directory(x)
                    ==> after.shape.nodes[x].expanded
            } by {
                assert(before.shape.has(x));
            }
        }
    }
}

proof fn lemma_without_repeats_contains(s: Seq<Seq<Part>>, path: Seq<Part>)
    requires
        s.contains(path),
    ensures
        without_repeats(s).contains(path),
    decreases s.len(),
{
    if s.len() > 1 {
        let t = s.drop_last();
        let all = without_repeats(s);
        let k = s.index_of(path);
        if k < t.len() {
            assert(t[k] == path);
        } else if s.last() == s[s.len() - 2] {
            assert(t[t.len() - 1] == path);
        }
        if t.contains(path) {
            lemma_without_repeats_contains(t, path);
            let j = without_repeats(t).index_of(path);
            assert(all[j] == path);
        } else {
            assert(all[all.len() - 1] == path);
        }
    }
}

/// A directory that is expanded and waits for its listing is listed after the next update.
pub proof fn law_expanded_directories_are_listed(
    workspace: Workspace,
    after: Workspace,
    updated: Updated,
    sort: FileTreeSort,
    flatten_dirs: bool,
    id: NodeId,
)
    requires
        workspace.wf(),
        workspace.is_updated(after, updated, sort, flatten_dirs),
        workspace.tree.requests().contains(id),
        workspace.tree.shape().has(id),
        workspace.tree.shape().nodes[id].expanded,
    ensures
        path_views(updated.dirs@).contains(workspace.tree.shape().path(id)),
{
    let shape = workspace.tree.shape();
    let first = workspace.settings_applied(sort);
    let done = workspace.revealed_by_update(sort);
    let paths = done.shape.wanted(done.requests).map_values(|id: NodeId| done.shape.path(id));
    let dirs = paths + done.unlisted;
    let path = shape.path(id);
    assert(shape.fits(Set::empty(), id));
    workspace.before_revealing(first).lemma_reveal_all(workspace.reveals@, id);
    assert(shape.still_expanded(done.shape)) by {
        assert forall|x: NodeId| #[trigger] shape.has(x) implies {
            &&& done.shape.has(x)
            &&& done.shape.parent(x) == shape.parent(x)
            &&& done.shape.depths[x] == shape.depths[x]
            &&& done.shape.nodes[x].name == shape.nodes[x].name
            &&& done.shape.nodes[x].kind == shape.nodes[x].kind
            &&& shape.nodes[x].expanded && shape.is_directory(x) ==> done.shape.nodes[x].expanded
        } by {
            assert(first.has(x));
        }
    }
    shape.lemma_same_path(done.shape, id);
    assert(done.shape.has(id));
    done.shape.lemma_wanted_contains(done.requests, id);
    let k = done.shape.wanted(done.requests).index_of(id);
    assert(paths[k] == path);
    assert(dirs[k] == path);
    lemma_sorted_by_contains(dirs, shorter_first(), path);
    lemma_without_repeats_contains(sorted_by(dirs, shorter_first()), path);
}

/// The directories on the way to a path are those that it is in, from one of them down: each is a
/// start of the path, shorter than it, and the closest comes first.
pub proof fn law_the_way_leads_to_the_path(path: Seq<Part>, base: Seq<Part>)
    ensures
        forall|dir: Seq<Part>|
            #[trigger] ways(path, base).contains(dir) <==> dir.len() < path.len() && path.take(
                dir.len() as int,
            ) == dir && leads_to(base, dir),
        forall|i: int, k: int|
            #![trigger ways(path, base)[i], ways(path, base)[k]]
            0 <= i < k < ways(path, base).len() ==> ways(path, base)[i].len() > ways(
                path,
                base,
            )[k].len(),
    decreases path.len(),
{
    if path.len() > 0 {
        let up = path.drop_last();
        law_the_way_leads_to_the_path(up, base);
        let rest = ways(up, base);
        let all = ways(path, base);
        assert(path.take(up.len() as int) =~= up);
        assert forall|dir: Seq<Part>| #[trigger] all.contains(dir) <==> dir.len() < path.len()
            && path.take(dir.len() as int) == dir && leads_to(base, dir) by {
            if dir.len() < up.len() {
                assert(up.take(dir.len() as int) =~= path.take(dir.len() as int));
            }
            if all.contains(dir) {
                let k = all.index_of(dir);
                if leads_to(base, up) && k > 0 {
                    assert(rest[k - 1] == dir);
                    assert(rest.contains(dir));
                } else if !leads_to(base, up) {
                    assert(rest.contains(dir));
                }
            }
            if dir.len() < path.len() && path.take(dir.len() as int) == dir && leads_to(base, dir) {
                if dir.len() == up.len() {
                    assert(all[0] == dir);
                } else {
                    assert(rest.contains(dir));
                    let k = rest.index_of(dir);
                    if leads_to(base, up) {
                        assert(all[k + 1] == dir);
                    }
                }
            }
        }
        assert forall|i: int, k: int|
            #![trigger all[i], all[k]]
            0 <= i < k < all.len() implies all[i].len() > all[k].len() by {
            if leads_to(base, up) {
                assert(all[k] == rest[k - 1]);
                if i > 0 {
                    assert(all[i] == rest[i - 1]);
                } else {
                    assert(rest.contains(rest[k - 1]));
                }
            }
        }
    }
}

proof fn lemma_repeats_dropped(s: Seq<Seq<Part>>, x: Seq<Part>)
    ensures
        without_repeats(s).contains(x) <==> s.contains(x),
    decreases s.len(),
{
    if s.len() > 1 {
        let t = s.drop_last();
        lemma_repeats_dropped(t, x);
        let all = without_repeats(s);
        let rest = without_repeats(t);
        if s.contains(x) {
            let k = s.index_of(x);
            if k < t.len() {
                assert(t[k] == x);
                let m = rest.index_of(x);
                assert(all[m] == x);
            } else if s.last() == s[s.len() - 2] {
                assert(t[s.len() - 2] == x);
            } else {
                assert(all[all.len() - 1] == x);
            }
        }
        if all.contains(x) {
            let m = all.index_of(x);
            if m < rest.len() {
                assert(rest[m] == x);
                assert(t[t.index_of(x)] == x);
                assert(s[t.index_of(x)] == x);
            } else {
                assert(s[s.len() - 1] == x);
            }
        }
    }
}

/// All directories that have to be listed are listed, and no others.
pub proof fn law_all_directories_are_listed(dirs: Seq<Seq<Part>>, dir: Seq<Part>)
    ensures
        listing_order(dirs).contains(dir) <==> dirs.contains(dir),
{
    lemma_repeats_dropped(sorted_by(dirs, shorter_first()), dir);
    crate::sorting::lemma_sorted_by_contains(dirs, shorter_first(), dir);
}

impl Revealing {
    /// A path that is found is revealed: the cursor goes there and it is scrolled to, unless it is
    /// only to be shown. One below a directory that is not listed yet is tried again later, and one
    /// that is not there is not. Either way the directories on its way are expanded.
    pub proof fn law_reveals_go_where_they_are_for(self, reveal: PendingReveal)
        ensures
            ({
                let then = self.reveal_one(reveal);
                let way = self.shape.passed(self.shape.root, reveal.path@);
                &&& then.shape == self.shape.with_expanded(way)
                &&& match self.shape.revealed(self.shape.root, reveal.path@) {
                    Reveal::Found(node) => {
                        &&& then.revealed
                        &&& then.kept == self.kept
                        &&& reveal.purpose == Purpose::Show ==> then.cursor == self.cursor
                            && then.scroll_to == self.scroll_to
                        &&& reveal.purpose == Purpose::Cursor || reveal.purpose == Purpose::Match
                            ==> then.cursor == node && then.scroll_to == Some(node)
                    },
                    Reveal::Unlisted(dir) => {
                        &&& then.revealed
                        &&& then.cursor == self.cursor
                        &&& then.scroll_to == self.scroll_to
                        &&& then.kept == self.kept.push(reveal)
                    },
                    Reveal::Missing => {
                        &&& then.revealed == self.revealed
                        &&& then.cursor == self.cursor
                        &&& then.scroll_to == self.scroll_to
                        &&& then.kept == self.kept
                    },
                }
            }),
    {
    }
}

impl Workspace {
    /// The rows are rebuilt when something that they show has changed, and are left alone when
    /// nothing has.
    pub proof fn law_rows_are_rebuilt_when_something_changed(
        self,
        sort: FileTreeSort,
        flatten_dirs: bool,
    )
        ensures
            self.dirty ==> self.rebuilt_by_update(sort, flatten_dirs),
            sort != self.sort ==> self.rebuilt_by_update(sort, flatten_dirs),
            flatten_dirs != self.flatten_dirs ==> self.rebuilt_by_update(sort, flatten_dirs),
            !self.dirty && sort == self.sort && flatten_dirs == self.flatten_dirs
                && self.reveals@.len() == 0 ==> !self.rebuilt_by_update(sort, flatten_dirs),
            sort == self.sort ==> self.settings_applied(sort) == self.tree.shape(),
    {
    }
}

impl Shape {
    /// Sorting a tree in another way puts the entries of every directory in that order, and changes
    /// nothing else: each directory has the entries that it had.
    pub proof fn law_resorting_keeps_the_entries(self, sort: FileTreeSort, dir: NodeId, id: NodeId)
        requires
            self.has(dir),
        ensures
            self.resorted(sort).ids(dir).contains(id) <==> self.ids(dir).contains(id),
            self.resorted(sort).ids(dir).len() == self.ids(dir).len(),
            in_order(self.resorted(sort).ids(dir), self.comes_before(sort)),
            self.resorted(sort).nodes[dir].expanded == self.nodes[dir].expanded,
            self.resorted(sort).nodes[dir].listed == self.nodes[dir].listed,
            self.resorted(sort).root == self.root,
    {
        let le = self.comes_before(sort);
        assert forall|a: NodeId, b: NodeId, c: NodeId|
            #![trigger le(a, b), le(b, c)]
            le(a, b) && le(b, c) implies le(a, c) by {
            crate::order::law_entry_order_is_total(
                sort,
                crate::names::lossy(self.nodes[a].name),
                self.nodes[a].kind.group_of(),
                crate::names::lossy(self.nodes[b].name),
                self.nodes[b].kind.group_of(),
                crate::names::lossy(self.nodes[c].name),
                self.nodes[c].kind.group_of(),
            );
        }
        assert forall|a: NodeId, b: NodeId| #[trigger] le(a, b) || le(b, a) by {
            crate::order::law_entry_order_is_total(
                sort,
                crate::names::lossy(self.nodes[a].name),
                self.nodes[a].kind.group_of(),
                crate::names::lossy(self.nodes[b].name),
                self.nodes[b].kind.group_of(),
                crate::names::lossy(self.nodes[b].name),
                self.nodes[b].kind.group_of(),
            );
        }
        assert(total_preorder(le));
        lemma_sorted_by(self.ids(dir), le);
        crate::sorting::lemma_sorted_by_contains(self.ids(dir), le, id);
        if !(self.nodes[dir].children is Loaded) {
            assert(self.ids(dir) =~= Seq::<NodeId>::empty());
        }
    }
}

/// Directories are listed in the order of their depth: none after one that has more parts.
pub proof fn law_shorter_paths_are_listed_first(dirs: Seq<Seq<Part>>, i: int, j: int)
    requires
        0 <= i < j < listing_order(dirs).len(),
    ensures
        listing_order(dirs)[i].len() <= listing_order(dirs)[j].len(),
{
    law_parents_are_listed_first(dirs);
    assert(shorter_first()(listing_order(dirs)[i], listing_order(dirs)[j]));
}

} // verus!
