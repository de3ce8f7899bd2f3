//! The entries the file tree knows about and which directories are expanded.
//!
//! Directories are listed in the background and merged in with [`Tree::apply_listing`]. A
//! collapsed directory holds nothing but its single-child run (see [`Entry::only_child`]), so a
//! run of single-child directories can be shown as one row before it is expanded. Merging keeps
//! the [`NodeId`] of every entry that survives, so the cursor and expansion survive refreshes.

use crate::arena::{
    get_node, insert_node, new_nodes, node_count, node_ids, node_mut, nodes_of, remove_node, Arena, Children,
    ChildrenView, Kind, Node, NodeId, NodeView,
};
use crate::names::{copy_name, name_text, same_name, Component, Part, TreePath};
use crate::order::{order_entries, FileTreeSort, Order};
use crate::seqs::{lemma_select, lemma_select_distinct, select};
use crate::shape::Shape;
use crate::sorting::{
    lemma_insert_at, lemma_sorted_by, lemma_sorted_by_agree, lemma_sorted_by_contains,
    lemma_sorted_by_distinct, sorted_by,
};
use vstd::prelude::*;

verus! {

/// One entry of a directory listing.
#[derive(Debug, PartialEq, Eq)]
pub struct Entry {
    pub name: Vec<u8>,
    pub kind: Kind,
    /// Whether git ignores the entry.
    pub ignored: bool,
    /// For a directory whose only entry is a directory: that directory, probed the same way.
    pub only_child: Option<Box<Entry>>,
}

/// The names of the directories that a probe found.
pub open spec fn run_names(only_child: Option<Box<Entry>>) -> Seq<Seq<u8>>
    decreases only_child,
{
    match only_child {
        Some(entry) => seq![entry.name@] + run_names(entry.only_child),
        None => Seq::empty(),
    }
}

/// Whether a probe found nothing but directories.
pub open spec fn run_of_directories(only_child: Option<Box<Entry>>) -> bool
    decreases only_child,
{
    match only_child {
        Some(entry) => entry.kind is Directory && run_of_directories(entry.only_child),
        None => true,
    }
}

/// The entries of a directory, or `None` if it could not be read.
pub type Listing = Option<Vec<Entry>>;

pub struct Tree {
    nodes: Arena,
    root: NodeId,
    sort: FileTreeSort,
    /// Directories that were expanded since the last [`Tree::take_listing_requests`].
    listing_requests: Vec<NodeId>,
    /// How deep each node lies below the root.
    depths: Ghost<Map<NodeId, nat>>,
}

impl Tree {
    /// The nodes of the tree.
    pub closed spec fn shape(&self) -> Shape {
        Shape { nodes: nodes_of(self.nodes), depths: self.depths@, root: self.root }
    }

    /// The directories that were expanded since requests were last taken.
    pub closed spec fn requests(&self) -> Seq<NodeId> {
        self.listing_requests@
    }

    /// How the entries of each directory are sorted.
    pub closed spec fn sorted_how(&self) -> FileTreeSort {
        self.sort
    }

    /// The nodes form a tree, and the known entries of every directory are in order.
    pub open spec fn wf(&self) -> bool {
        self.shape().wf() && self.shape().ordered(self.sorted_how())
    }

    /// The nodes in the arena.
    spec fn stored(&self) -> Set<NodeId> {
        nodes_of(self.nodes).dom()
    }

    /// The nodes of the tree without the ones in `trash`, which are taken out of the arena later.
    spec fn live(&self, trash: Seq<NodeId>) -> Shape {
        Shape {
            nodes: nodes_of(self.nodes).remove_keys(trash.to_set()),
            depths: self.depths@,
            root: self.root,
        }
    }

    /// Whether the nodes in `trash` are still in the arena.
    spec fn stores(&self, trash: Seq<NodeId>) -> bool {
        &&& self.stored().finite()
        &&& trash.to_set().subset_of(self.stored())
    }

    proof fn lemma_no_trash(&self)
        ensures
            self.live(Seq::empty()) == self.shape(),
    {
        assert(self.live(Seq::empty()).nodes =~= self.shape().nodes);
    }

    /// Takes the nodes in `trash` out of the arena.
    fn empty_trash(&mut self, trash: &Vec<NodeId>)
        ensures
            final(self).shape() == old(self).live(trash@),
            final(self).sort == old(self).sort,
            final(self).listing_requests@ == old(self).listing_requests@,
    {
        let ghost b = nodes_of(self.nodes);
        let mut i: usize = 0;
        assert(b.remove_keys(trash@.take(0).to_set()) =~= b);
        while i < trash.len()
            invariant
                i <= trash@.len(),
                b == nodes_of(old(self).nodes),
                nodes_of(self.nodes) == b.remove_keys(trash@.take(i as int).to_set()),
                self.root == old(self).root,
                self.depths == old(self).depths,
                self.sort == old(self).sort,
                self.listing_requests@ == old(self).listing_requests@,
            decreases trash.len() - i,
        {
            remove_node(&mut self.nodes, trash[i]);
            proof {
                let done = trash@.take(i as int);
                assert(trash@.take(i + 1) =~= done.push(trash@[i as int]));
                assert(trash@.take(i + 1).to_set() =~= done.to_set().insert(trash@[i as int])) by {
                    lemma_push_to_set(done, trash@[i as int]);
                }
                assert(nodes_of(self.nodes) =~= b.remove_keys(trash@.take(i + 1).to_set()));
            }
            i += 1;
        }
        assert(trash@.take(i as int) =~= trash@);
    }

    /// Puts the loose node `id` and everything below it into the trash.
    fn remove_subtree(&self, id: NodeId, trash: &mut Vec<NodeId>, Ghost(loose): Ghost<Set<NodeId>>)
        requires
            self.stores(old(trash)@),
            self.live(old(trash)@).linked(loose),
            loose.contains(id),
            forall|x: NodeId| #[trigger]
                loose.contains(x) && self.live(old(trash)@).within(x, id) ==> x == id,
        ensures
            self.stores(final(trash)@),
            self.live(old(trash)@).is_cut(self.live(final(trash)@), id),
            self.live(final(trash)@).linked(loose.remove(id)),
    {
        let ghost b = self.live(trash@);
        let mut stack: Vec<NodeId> = Vec::new();
        stack.push(id);
        assert(stack@[0] == id);
        assert(b.fits(loose, id));
        while stack.len() > 0
            invariant
                self.stores(trash@),
                b == self.live(old(trash)@),
                b.linked(loose),
                b.has(id),
                forall|x: NodeId| #[trigger]
                    self.live(trash@).has(x) ==> b.has(x) && self.live(trash@).nodes[x]
                        == b.nodes[x],
                forall|x: NodeId|
                    #![trigger b.has(x)]
                    b.has(x) && !self.live(trash@).has(x) ==> b.within(x, id) && (x == id
                        || !self.live(trash@).has(b.parent(x)->0)),
                stack@.no_duplicates(),
                forall|k: int|
                    0 <= k < stack@.len() ==> self.live(trash@).has(#[trigger] stack@[k])
                        && b.within(stack@[k], id) && (stack@[k] == id || !self.live(trash@).has(
                        b.parent(stack@[k])->0,
                    )),
                self.live(trash@).has(id) ==> stack@.contains(id),
                forall|x: NodeId, i: int|
                    #![trigger b.ids(x)[i]]
                    b.has(x) && !self.live(trash@).has(x) && 0 <= i < b.ids(x).len()
                        && self.live(trash@).has(b.ids(x)[i]) ==> stack@.contains(b.ids(x)[i]),
            decreases self.live(trash@).nodes.len(),
        {
            let ghost before = stack@;
            let ghost s = self.live(trash@);
            let ghost held = trash@;
            let top: usize = stack.len() - 1;
            let current: NodeId = stack[top];
            stack.pop();
            let ghost popped = stack@;
            proof {
                assert(s.has(before[top as int]));
                assert(b.fits(loose, current));
                assert forall|x: NodeId| before.contains(x) && x != current implies popped.contains(
                    x,
                ) by {
                    let k = before.index_of(x);
                    assert(popped[k] == x);
                }
                assert forall|k: int| 0 <= k < popped.len() implies popped[k] == before[k]
                    && popped[k] != current by {}
            }
            let mut children: Vec<NodeId> = self.children(current);
            let ghost ids = children@;
            trash.push(current);
            stack.append(&mut children);
            proof {
                let t = self.live(trash@);
                lemma_push_to_set(held, current);
                assert(t.nodes =~= s.nodes.remove(current));
                assert(s.nodes.dom().finite()) by {
                    assert forall|x: NodeId| #[trigger]
                        s.nodes.dom().contains(x) implies b.nodes.dom().contains(x) by {
                        assert(s.has(x));
                    }
                    vstd::set_lib::lemma_len_subset(s.nodes.dom(), b.nodes.dom());
                }
                assert(ids == b.ids(current));
                assert(stack@ == popped + ids);
                assert forall|i: int| 0 <= i < ids.len() implies b.has(#[trigger] ids[i]) && b.parent(
                    ids[i],
                ) == Some(current) && b.within(ids[i], id) && ids[i] != id && ids[i] != current && s.has(
                    ids[i],
                ) by {
                    assert(b.holds(loose, current, b.ids(current)[i]));
                    assert(b.fits(loose, ids[i]));
                    b.lemma_depth(current, id);
                }
                assert forall|x: NodeId| popped.contains(x) || ids.contains(x) implies stack@.contains(
                    x,
                ) by {
                    if popped.contains(x) {
                        assert(stack@[popped.index_of(x)] == x);
                    } else {
                        assert(stack@[popped.len() + ids.index_of(x)] == x);
                    }
                }
            }
            proof {
                let t = self.live(trash@);
                assert forall|k: int| 0 <= k < stack@.len() implies t.has(#[trigger] stack@[k])
                    && b.within(stack@[k], id) && (stack@[k] == id || !t.has(
                    b.parent(stack@[k])->0,
                )) by {
                    if k >= popped.len() {
                        assert(stack@[k] == ids[k - popped.len()]);
                    } else {
                        assert(stack@[k] == before[k]);
                    }
                }
                assert forall|j: int, k: int|
                    0 <= j < stack@.len() && 0 <= k < stack@.len() && j != k implies stack@[j]
                    != stack@[k] by {
                    if j >= popped.len() {
                        assert(stack@[j] == ids[j - popped.len()]);
                    } else {
                        assert(stack@[j] == before[j]);
                    }
                    if k >= popped.len() {
                        assert(stack@[k] == ids[k - popped.len()]);
                    } else {
                        assert(stack@[k] == before[k]);
                    }
                }
                assert forall|i: int| 0 <= i < b.ids(current).len() implies stack@.contains(
                    #[trigger] b.ids(current)[i],
                ) by {
                    assert(ids.contains(ids[i]));
                }
                assert forall|x: NodeId| #[trigger] t.has(x) implies b.has(x) && t.nodes[x]
                    == b.nodes[x] by {
                    assert(s.has(x));
                }
            }
        }
        proof {
            let after = self.live(trash@);
            assert forall|x: NodeId| b.has(x) && b.within(x, id) implies !after.has(x) by {
                lemma_all_gone(b, loose, after, id, x);
            }
            assert forall|x: NodeId| #[trigger] after.has(x) <==> b.has(x) && !b.within(x, id) by {
            }
            assert forall|x: NodeId| #[trigger]
                after.nodes.dom().contains(x) implies b.nodes.dom().contains(x) by {
                assert(after.has(x));
            }
            vstd::set_lib::lemma_len_subset(after.nodes.dom(), b.nodes.dom());
            b.lemma_cut(loose, after, id);
        }
    }

    /// Puts the loose nodes `ids`, which hang below `dir`, and everything below them into the
    /// trash.
    fn remove_subtrees(
        &self,
        ids: &Vec<NodeId>,
        trash: &mut Vec<NodeId>,
        Ghost(dir): Ghost<NodeId>,
    )
        requires
            self.stores(old(trash)@),
            self.live(old(trash)@).linked(ids@.to_set()),
            ids@.no_duplicates(),
            forall|i: int|
                0 <= i < ids@.len() ==> self.live(old(trash)@).parent(#[trigger] ids@[i]) == Some(dir),
        ensures
            self.stores(final(trash)@),
            self.live(old(trash)@).are_cut(self.live(final(trash)@), ids@),
            self.live(final(trash)@).wf(),
    {
        let ghost b = self.live(trash@);
        let ghost loose = ids@.to_set();
        let mut k: usize = 0;
        proof {
            assert(ids@.skip(0) =~= ids@);
            assert(b.are_cut(b, ids@.take(0)));
        }
        while k < ids.len()
            invariant
                self.stores(trash@),
                k <= ids@.len(),
                ids@.no_duplicates(),
                b == self.live(old(trash)@),
                loose == ids@.to_set(),
                b.linked(loose),
                forall|i: int| 0 <= i < ids@.len() ==> b.parent(#[trigger] ids@[i]) == Some(dir),
                b.are_cut(self.live(trash@), ids@.take(k as int)),
                self.live(trash@).linked(ids@.skip(k as int).to_set()),
            decreases ids.len() - k,
        {
            let id: NodeId = ids[k];
            let ghost s = self.live(trash@);
            let ghost left = ids@.skip(k as int);
            proof {
                assert(left[0] == id);
                assert(left.contains(id));
                assert(s.has(id));
                assert forall|x: NodeId| #[trigger]
                    left.to_set().contains(x) && s.within(x, id) implies x == id by {
                    let i = left.index_of(x);
                    assert(left[i] == x);
                    assert(ids@[k + i] == x);
                    assert(s.has(x));
                    assert(s.fits(left.to_set(), x));
                    assert(s.fits(left.to_set(), id));
                    s.lemma_depth(x, id);
                }
            }
            self.remove_subtree(id, trash, Ghost(left.to_set()));
            proof {
                let t = self.live(trash@);
                let after = ids@.skip(k + 1);
                assert(left.to_set().remove(id) =~= after.to_set()) by {
                    assert forall|x: NodeId| left.to_set().remove(id).contains(x)
                        <==> after.to_set().contains(x) by {
                        if left.to_set().remove(id).contains(x) {
                            let i = left.index_of(x);
                            assert(left[i] == x);
                            assert(i > 0);
                            assert(after[i - 1] == x);
                        }
                        if after.contains(x) {
                            let i = after.index_of(x);
                            assert(after[i] == x);
                            assert(left[i + 1] == x);
                            assert(ids@[k + i + 1] == x);
                            assert(ids@[k as int] == id);
                        }
                    }
                }
                let taken = ids@.take(k + 1);
                assert forall|x: NodeId| #[trigger] t.has(x) <==> b.has(x) && !b.below_any(
                    taken,
                    x,
                ) by {
                    if s.has(x) {
                        s.lemma_places_kept(left.to_set(), b, x, id);
                    }
                    assert(taken[k as int] == id);
                    if b.below_any(taken, x) {
                        let i = choose|i: int|
                            0 <= i < taken.len() && b.within(x, #[trigger] taken[i]);
                        if i < k {
                            assert(ids@.take(k as int)[i] == taken[i]);
                        }
                    }
                    if b.below_any(ids@.take(k as int), x) {
                        let i = choose|i: int|
                            0 <= i < k && b.within(x, #[trigger] ids@.take(k as int)[i]);
                        assert(taken[i] == ids@.take(k as int)[i]);
                    }
                }
                assert forall|x: NodeId| #[trigger] t.has(x) implies t.nodes[x] == b.nodes[x] by {
                    assert(s.has(x));
                }
            }
            k += 1;
        }
        proof {
            assert(ids@.take(k as int) =~= ids@);
            assert(ids@.skip(k as int).to_set() =~= Set::<NodeId>::empty());
        }
    }

    /// Adds a loose node for `entry` below `parent`.
    fn insert(&mut self, parent: NodeId, entry: &Entry, Ghost(trash): Ghost<Seq<NodeId>>, Ghost(loose): Ghost<Set<NodeId>>) -> (id:
        NodeId)
        requires
            old(self).stores(trash),
            old(self).live(trash).linked(loose),
            old(self).live(trash).has(parent),
            old(self).stored().len() < u32::MAX - 1,
        ensures
            !old(self).stored().contains(id),
            final(self).stored() == old(self).stored().insert(id),
            final(self).live(trash) == (Shape {
                nodes: old(self).live(trash).nodes.insert(id, new_node(parent, entry.name@, entry.kind)),
                depths: old(self).live(trash).depths.insert(
                    id,
                    (old(self).live(trash).depths[parent] + 1) as nat,
                ),
                root: old(self).live(trash).root,
            }),
            final(self).live(trash).linked(loose.insert(id)),
            final(self).stores(trash),
            final(self).sort == old(self).sort,
            final(self).listing_requests@ == old(self).listing_requests@,
    {
        let ghost b = self.live(trash);
        let node = Node {
            name: copy_name(&entry.name),
            kind: entry.kind,
            parent: Some(parent),
            children: Children::Unloaded,
            expanded: false,
            listed: false,
        };
        let id: NodeId = insert_node(&mut self.nodes, node);
        self.depths = Ghost(self.depths@.insert(id, (self.depths@[parent] + 1) as nat));
        proof {
            assert(self.live(trash).nodes =~= b.nodes.insert(id, node@));
            b.lemma_insert(loose, id, node@);
        }
        id
    }

    /// Sets what the directory `id` knows of its entries.
    fn set_entries(
        &mut self,
        id: NodeId,
        children: Children,
        listed: bool,
        Ghost(trash): Ghost<Seq<NodeId>>,
        Ghost(loose): Ghost<Set<NodeId>>,
        Ghost(after_loose): Ghost<Set<NodeId>>,
    )
        requires
            old(self).stores(trash),
            old(self).live(trash).linked(loose),
            old(self).live(trash).has(id),
            old(self).live(trash).can_list(loose, id, children@, after_loose),
        ensures
            final(self).live(trash) == (Shape {
                nodes: old(self).live(trash).nodes.insert(
                    id,
                    (NodeView { children: children@, listed, ..old(self).live(trash).nodes[id] }),
                ),
                ..old(self).live(trash)
            }),
            final(self).live(trash).linked(after_loose),
            final(self).stored() == old(self).stored(),
            final(self).stores(trash),
            final(self).sort == old(self).sort,
            final(self).listing_requests@ == old(self).listing_requests@,
    {
        let ghost b = self.live(trash);
        let node: &mut Node = node_mut(&mut self.nodes, id);
        node.children = children;
        node.listed = listed;
        proof {
            let node = NodeView { children: children@, listed, ..b.nodes[id] };
            assert(self.live(trash).nodes =~= b.nodes.insert(id, node));
            assert(self.stored() =~= old(self).stored());
            assert(b.fits(loose, id));
            b.lemma_update(loose, id, node, after_loose);
        }
    }

    /// Makes the directory `id` forget its entries, and puts them into the trash.
    fn forget_entries(
        &mut self,
        id: NodeId,
        children: Children,
        listed: bool,
        trash: &mut Vec<NodeId>,
    )
        requires
            old(self).stores(old(trash)@),
            old(self).live(old(trash)@).wf(),
            old(self).live(old(trash)@).has(id),
            !(children@ is Loaded),
        ensures
            final(self).live(final(trash)@).wf(),
            old(self).live(old(trash)@).only_below(final(self).live(final(trash)@), id),
            final(self).live(final(trash)@).nodes[id] == (NodeView {
                children: children@,
                listed,
                ..old(self).live(old(trash)@).nodes[id]
            }),
            final(self).stored() == old(self).stored(),
            final(self).stores(final(trash)@),
            old(self).live(old(trash)@).renewed(final(self).live(final(trash)@), old(self).stored()),
            final(self).sort == old(self).sort,
            final(self).listing_requests@ == old(self).listing_requests@,
    {
        let ghost b = self.live(trash@);
        let ids: Vec<NodeId> = self.children(id);
        proof {
            b.lemma_forget(id, children@);
        }
        self.set_entries(
            id,
            children,
            listed,
            Ghost(trash@),
            Ghost(Set::empty()),
            Ghost(ids@.to_set()),
        );
        let ghost m = self.live(trash@);
        proof {
            assert forall|i: int| 0 <= i < ids@.len() implies m.parent(#[trigger] ids@[i]) == Some(
                id,
            ) by {
                assert(b.parent(b.ids(id)[i]) == Some(id));
            }
            assert(m.nodes.dom() =~= b.nodes.dom());
        }
        self.remove_subtrees(&ids, trash, Ghost(id));
        proof {
            let a = self.live(trash@);
            assert forall|i: int| 0 <= i < ids@.len() implies b.has(#[trigger] ids@[i]) && b.parent(
                ids@[i],
            ) == Some(id) by {
                assert(b.has(b.ids(id)[i]));
            }
            b.lemma_replaced(m, ids@.to_set(), a, id, ids@);
        }
    }

    /// Makes the collapsed directory `dir` hold exactly its probed single-child run.
    fn set_run(
        &mut self,
        dir: NodeId,
        only_child: &Option<Box<Entry>>,
        trash: &mut Vec<NodeId>,
    )
        requires
            old(self).stores(old(trash)@),
            old(self).live(old(trash)@).wf(),
            old(self).live(old(trash)@).has(dir),
            old(self).live(old(trash)@).is_directory(dir),
            !old(self).live(old(trash)@).nodes[dir].expanded,
            run_of_directories(*only_child),
            old(self).stored().len() + run_names(*only_child).len() < u32::MAX,
        ensures
            final(self).live(final(trash)@).wf(),
            old(self).live(old(trash)@).only_below(final(self).live(final(trash)@), dir),
            final(self).live(final(trash)@).is_run(dir, run_names(*only_child)),
            old(self).live(old(trash)@).run_kept(final(self).live(final(trash)@), dir, run_names(*only_child)),
            old(self).live(old(trash)@).keeps_only_runs(
                final(self).live(final(trash)@),
                dir,
                old(self).stored(),
            ),
            final(self).stored().len() <= old(self).stored().len() + run_names(
                *only_child,
            ).len(),
            final(self).stores(final(trash)@),
            old(self).stored().subset_of(final(self).stored()),
            old(self).live(old(trash)@).renewed(final(self).live(final(trash)@), old(self).stored()),
            final(self).sort == old(self).sort,
            final(self).listing_requests@ == old(self).listing_requests@,
        decreases only_child,
    {
        let ghost b = self.live(trash@);
        let ghost names = run_names(*only_child);
        match only_child {
            None => {
                self.forget_entries(dir, Children::Unloaded, false, trash);
                proof {
                    let a = self.live(trash@);
                    a.lemma_nothing_below(dir);
                }
            },
            Some(entry) => {
                let olds: Vec<NodeId> = self.children(dir);
                let ghost rest = run_names(entry.only_child);
                proof {
                    assert(names =~= seq![entry.name@] + rest);
                    assert(names[0] == entry.name@);
                    assert(names.skip(1) =~= rest);
                    assert(b.fits(Set::empty(), dir));
                }
                let mut reused: bool = false;
                if olds.len() == 1 {
                    proof {
                        assert(b.holds(Set::empty(), dir, b.ids(dir)[0]));
                    }
                    match get_node(&self.nodes, olds[0]) {
                        Some(node) => {
                            reused = same_name(&node.name, &entry.name) && node.kind
                                == Kind::Directory;
                        },
                        None => {},
                    }
                }
                assert(reused == b.starts_run(dir, entry.name@));
                if reused {
                    let child: NodeId = olds[0];
                    assert(olds@ =~= seq![child]);
                    self.collapse_step(dir, child, Ghost(trash@));
                    let ghost m = self.live(trash@);
                    let ghost stored = self.stored();
                    self.set_run(child, &entry.only_child, trash);
                    proof {
                        let a = self.live(trash@);
                        m.lemma_only_below_deeper(a, dir, child);
                        b.lemma_only_below_transitive(m, a, dir);
                        b.lemma_renewed(m, a, old(self).stored(), stored);
                        b.lemma_run_kept_same(m, a, child, child, rest);
                        assert(a.ids(dir) == b.ids(dir));
                        b.lemma_only_runs_reused(m, a, dir, child, stored);
                    }
                } else {
                    let child: NodeId = self.replace_entries(dir, entry, &olds, trash);
                    let ghost m = self.live(trash@);
                    let ghost stored = self.stored();
                    self.set_run(child, &entry.only_child, trash);
                    proof {
                        let a = self.live(trash@);
                        m.lemma_only_below_deeper(a, dir, child);
                        b.lemma_only_below_transitive(m, a, dir);
                        b.lemma_renewed(m, a, old(self).stored(), stored);
                        b.lemma_only_runs_new(m, a, dir, child, old(self).stored(), stored);
                    }
                }
            },
        }
    }

    /// Collapses `child`, the only entry of `dir`, of which nothing but that is known any more.
    fn collapse_step(&mut self, dir: NodeId, child: NodeId, Ghost(trash): Ghost<Seq<NodeId>>)
        requires
            old(self).stores(trash),
            old(self).live(trash).wf(),
            old(self).live(trash).has(dir),
            old(self).live(trash).nodes[dir].children is Loaded,
            old(self).live(trash).ids(dir) == seq![child],
            old(self).live(trash).is_directory(child),
        ensures
            final(self).live(trash).wf(),
            old(self).live(trash).only_below(final(self).live(trash), dir),
            final(self).live(trash).nodes == old(self).live(trash).nodes.insert(
                dir,
                (NodeView { listed: false, ..old(self).live(trash).nodes[dir] }),
            ).insert(child, (NodeView { expanded: false, ..old(self).live(trash).nodes[child] })),
            final(self).live(trash).depths == old(self).live(trash).depths,
            final(self).live(trash).root == old(self).live(trash).root,
            final(self).stored() == old(self).stored(),
            old(self).live(trash).renewed(final(self).live(trash), old(self).stored()),
            final(self).stores(trash),
            final(self).sort == old(self).sort,
            final(self).listing_requests@ == old(self).listing_requests@,
    {
        let ghost b = self.live(trash);
        let ghost none = Set::<NodeId>::empty();
        proof {
            assert(b.fits(none, dir));
            assert(b.ids(dir)[0] == child);
            assert(b.holds(none, dir, b.ids(dir)[0]));
            assert(b.fits(none, child));
            assert forall|x: NodeId|
                b.has(x) && #[trigger] b.parent(x) == Some(dir) implies b.ids(dir).contains(x) by {
                assert(b.fits(none, x));
            }
            assert forall|x: NodeId|
                b.has(x) && #[trigger] b.parent(x) == Some(child) implies b.ids(child).contains(
                x,
            ) by {
                assert(b.fits(none, x));
            }
        }
        let node: &mut Node = node_mut(&mut self.nodes, dir);
        node.listed = false;
        let ghost m = self.live(trash);
        proof {
            let node = NodeView { listed: false, ..b.nodes[dir] };
            b.lemma_update(none, dir, node, none);
            assert(m.nodes =~= b.nodes.insert(dir, node));
            assert(m.fits(none, child));
            assert forall|x: NodeId|
                m.has(x) && #[trigger] m.parent(x) == Some(child) implies m.ids(child).contains(
                x,
            ) by {
                assert(m.fits(none, x));
            }
        }
        let node: &mut Node = node_mut(&mut self.nodes, child);
        node.expanded = false;
        proof {
            let node = NodeView { expanded: false, ..m.nodes[child] };
            m.lemma_update(none, child, node, none);
            let a = self.live(trash);
            assert(a.nodes =~= m.nodes.insert(child, node));
            assert(self.stored() =~= old(self).stored());
            b.lemma_within_parent(none, child);
            assert(a.places_kept(b));
            assert forall|x: NodeId| #[trigger] a.has(x) && !a.within(x, dir) implies b.has(x)
                && !b.within(x, dir) by {
                a.lemma_places_kept(none, b, x, dir);
            }
        }
    }

    /// Replaces the entries `olds` of `dir` by `entry`.
    fn replace_entries(
        &mut self,
        dir: NodeId,
        entry: &Entry,
        olds: &Vec<NodeId>,
        trash: &mut Vec<NodeId>,
    ) -> (child: NodeId)
        requires
            old(self).stores(old(trash)@),
            old(self).live(old(trash)@).wf(),
            old(self).live(old(trash)@).has(dir),
            old(self).live(old(trash)@).ids(dir) == olds@,
            old(self).stored().len() < u32::MAX - 1,
        ensures
            !old(self).stored().contains(child),
            final(self).live(final(trash)@).wf(),
            old(self).live(old(trash)@).only_below(final(self).live(final(trash)@), dir),
            final(self).live(final(trash)@).nodes[dir] == (NodeView {
                children: ChildrenView::Loaded(seq![child]),
                listed: false,
                ..old(self).live(old(trash)@).nodes[dir]
            }),
            final(self).live(final(trash)@).has(child),
            final(self).live(final(trash)@).nodes[child] == new_node(dir, entry.name@, entry.kind),
            final(self).stored().len() <= old(self).stored().len() + 1,
            final(self).stores(final(trash)@),
            old(self).stored().subset_of(final(self).stored()),
            old(self).live(old(trash)@).renewed(final(self).live(final(trash)@), old(self).stored()),
            final(self).sort == old(self).sort,
            final(self).listing_requests@ == old(self).listing_requests@,
    {
        let ghost b = self.live(trash@);
        let ghost none = Set::<NodeId>::empty();
        proof {
            b.lemma_forget(dir, ChildrenView::Unloaded);
        }
        let child: NodeId = self.insert(dir, entry, Ghost(trash@), Ghost(none));
        let ghost m = self.live(trash@);
        let mut children: Vec<NodeId> = Vec::new();
        children.push(child);
        proof {
            assert(children@ =~= seq![child]);
            assert(children@[0] == child);
            assert forall|i: int| 0 <= i < olds@.len() implies m.has(#[trigger] olds@[i]) && m.parent(
                olds@[i],
            ) == Some(dir) && b.has(olds@[i]) && olds@[i] != child && olds@[i] != m.root by {
                assert(b.has(b.ids(dir)[i]));
                assert(b.fits(none, b.ids(dir)[i]));
            }
            assert forall|x: NodeId| #[trigger] olds@.to_set().contains(x) implies m.has(x) && x
                != m.root && m.parent(x) == Some(dir) && x != child by {
                assert(olds@[olds@.index_of(x)] == x);
            }
            assert forall|x: NodeId|
                m.has(x) && #[trigger] m.parent(x) == Some(dir) && !olds@.to_set().contains(
                    x,
                ) implies children@.contains(x) by {
                if x != child {
                    assert(b.has(x));
                    assert(b.fits(none, x));
                }
            }
            assert(m.can_list(
                none.insert(child),
                dir,
                Children::Loaded(children)@,
                olds@.to_set(),
            ));
        }
        self.set_entries(
            dir,
            Children::Loaded(children),
            false,
            Ghost(trash@),
            Ghost(none.insert(child)),
            Ghost(olds@.to_set()),
        );
        let ghost n = self.live(trash@);
        proof {
            assert forall|i: int| 0 <= i < olds@.len() implies n.parent(#[trigger] olds@[i]) == Some(
                dir,
            ) by {
                assert(m.has(olds@[i]));
            }
        }
        self.remove_subtrees(olds, trash, Ghost(dir));
        proof {
            let a = self.live(trash@);
            assert(n.nodes.dom() =~= b.nodes.dom().insert(child));
            b.lemma_replaced(n, olds@.to_set(), a, dir, olds@);
            if n.below_any(olds@, child) {
                let i = choose|i: int| 0 <= i < olds@.len() && n.within(child, #[trigger] olds@[i]);
                n.lemma_within_parent(olds@.to_set(), child);
                n.lemma_within_parent(olds@.to_set(), olds@[i]);
                n.lemma_depth(child, olds@[i]);
            }
            assert(n.has(child));
            assert(a.has(child));
        }
        child
    }

    /// Takes the node for each of the `entries` from the known entries of `dir`, or adds one. The
    /// nodes are left loose.
    fn match_entries(&mut self, dir: NodeId, olds: &Vec<NodeId>, entries: &Vec<Entry>) -> (ids: Vec<
        NodeId,
    >)
        requires
            old(self).shape().wf(),
            old(self).shape().has(dir),
            old(self).shape().ids(dir) == olds@,
            distinct_names(entries@),
            old(self).shape().nodes.len() + entries@.len() < u32::MAX,
        ensures
            final(self).shape().linked(olds@.to_set().union(ids@.to_set())),
            old(self).shape().matched(final(self).shape(), dir, entries@, ids@),
            ids@.len() == entries@.len(),
            ids@.no_duplicates(),
            final(self).shape().nodes.len() <= old(self).shape().nodes.len() + entries@.len(),
            old(self).stored().subset_of(final(self).stored()),
            final(self).sort == old(self).sort,
            final(self).listing_requests@ == old(self).listing_requests@,
    {
        let ghost b = self.shape();
        let ghost none = Set::<NodeId>::empty();
        let listed: bool = match get_node(&self.nodes, dir) {
            Some(node) => node.listed,
            None => false,
        };
        proof {
            b.lemma_forget(dir, ChildrenView::Unloaded);
            self.lemma_no_trash();
        }
        self.set_entries(
            dir,
            Children::Unloaded,
            listed,
            Ghost(Seq::empty()),
            Ghost(none),
            Ghost(olds@.to_set()),
        );
        let mut ids: Vec<NodeId> = Vec::new();
        proof {
            self.lemma_no_trash();
            assert(self.shape().nodes.dom() =~= b.nodes.dom());
            assert(olds@.to_set().union(ids@.to_set()) =~= olds@.to_set());
        }
        let mut i: usize = 0;
        while i < entries.len()
            invariant
                i <= entries@.len(),
                ids@.len() == i,
                b == old(self).shape(),
                b.wf(),
                b.has(dir),
                b.ids(dir) == olds@,
                distinct_names(entries@),
                b.nodes.len() + entries@.len() < u32::MAX,
                self.shape().nodes.len() <= b.nodes.len() + i,
                self.shape().linked(olds@.to_set().union(ids@.to_set())),
                b.matched(self.shape(), dir, entries@.take(i as int), ids@),
                ids@.no_duplicates(),
                old(self).stored().subset_of(self.stored()),
                self.sort == old(self).sort,
                self.listing_requests@ == old(self).listing_requests@,
            decreases entries.len() - i,
        {
            proof {
                self.lemma_no_trash();
            }
            let entry: &Entry = &entries[i];
            let ghost s = self.shape();
            let ghost loose = olds@.to_set().union(ids@.to_set());
            let ghost done = entries@.take(i as int);
            proof {
                b.lemma_forget(dir, ChildrenView::Unloaded);
                assert forall|k: int| 0 <= k < olds@.len() implies s.has(#[trigger] olds@[k])
                    && s.nodes[olds@[k]].name == b.nodes[olds@[k]].name && s.is_directory(olds@[k])
                    == b.is_directory(olds@[k]) && b.has(olds@[k]) && olds@[k] != dir by {
                    assert(b.has(b.ids(dir)[k]));
                    b.lemma_within_parent(Set::empty(), olds@[k]);
                    b.lemma_matched_old(s, dir, done, ids@, olds@[k]);
                }
                b.lemma_named_same(s, olds@, entry.name@);
            }
            let is_directory: bool = entry.kind == Kind::Directory;
            let mut reused: Option<NodeId> = None;
            match self.first_named(olds, &entry.name) {
                Some(known) => {
                    proof {
                        b.lemma_named_some(olds@, entry.name@);
                        assert(olds@[olds@.index_of(known)] == known);
                    }
                    match get_node(&self.nodes, known) {
                        Some(node) => {
                            if (node.kind == Kind::Directory) == is_directory {
                                reused = Some(known);
                            }
                        },
                        None => {},
                    }
                },
                None => {},
            }
            assert(reused == b.reusable(dir, entry.name@, entry.kind));
            let id: NodeId = match reused {
                Some(known) => {
                    proof {
                        assert(s.fits(loose, known));
                        assert forall|x: NodeId|
                            s.has(x) && #[trigger] s.parent(x) == Some(known) && !loose.contains(
                                x,
                            ) implies s.ids(known).contains(x) by {
                            assert(s.fits(loose, x));
                        }
                        assert forall|x: NodeId| #[trigger] loose.contains(x) implies s.has(x) && x
                            != s.root by {}
                        let node = NodeView { kind: entry.kind, ..s.nodes[known] };
                        s.lemma_update(loose, known, node, loose);
                    }
                    let node: &mut Node = node_mut(&mut self.nodes, known);
                    node.kind = entry.kind;
                    proof {
                        assert(self.shape().nodes.dom() =~= s.nodes.dom());
                    }
                    known
                },
                None => self.insert(dir, entry, Ghost(Seq::empty()), Ghost(loose)),
            };
            proof {
                self.lemma_no_trash();
            }
            let ghost before = ids@;
            ids.push(id);
            i += 1;
            proof {
                let t = self.shape();
                b.lemma_matched_push(s, t, dir, done, before, *entry, id);
                assert(entries@.take(i as int) =~= done.push(*entry));
                assert forall|k: int| 0 <= k < before.len() implies before[k] != id by {
                    assert(done[k] == entries@[k]);
                    assert(b.taken_over(s, dir, done[k], before[k]));
                    assert(s.nodes[before[k]].name == done[k].name@) by {
                        b.lemma_reusable(dir, done[k].name@, done[k].kind);
                    }
                    b.lemma_reusable(dir, entry.name@, entry.kind);
                    assert(entries@[i - 1].name@ != entries@[k].name@);
                }
                let after = olds@.to_set().union(ids@.to_set());
                assert(after =~= loose.insert(id)) by {
                    assert forall|x: NodeId| ids@.contains(x) <==> before.contains(x) || x == id by {
                        if ids@.contains(x) {
                            let k = ids@.index_of(x);
                            if k < before.len() {
                                assert(before[k] == x);
                            }
                        }
                        if before.contains(x) {
                            assert(ids@[before.index_of(x)] == x);
                        }
                        assert(ids@[before.len() as int] == id);
                    }
                }
                if reused is Some {
                    assert(loose.contains(id));
                    assert(loose.insert(id) =~= loose);
                }
            }
        }
        proof {
            assert(entries@.take(i as int) =~= entries@);
        }
        ids
    }

    /// The ones of `olds` that are not among `ids`.
    fn left_over(olds: &Vec<NodeId>, ids: &Vec<NodeId>) -> (left: Vec<NodeId>)
        requires
            olds@.no_duplicates(),
        ensures
            left@.no_duplicates(),
            forall|x: NodeId| #[trigger]
                left@.contains(x) <==> olds@.contains(x) && !ids@.contains(x),
    {
        let mut left: Vec<NodeId> = Vec::new();
        let mut i: usize = 0;
        while i < olds.len()
            invariant
                i <= olds@.len(),
                olds@.no_duplicates(),
                left@.no_duplicates(),
                forall|x: NodeId| #[trigger]
                    left@.contains(x) <==> olds@.take(i as int).contains(x) && !ids@.contains(x),
            decreases olds.len() - i,
        {
            let id: NodeId = olds[i];
            let mut k: usize = 0;
            while k < ids.len() && ids[k] != id
                invariant
                    k <= ids@.len(),
                    forall|j: int| 0 <= j < k ==> ids@[j] != id,
                decreases ids.len() - k,
            {
                k += 1;
            }
            assert(ids@.contains(id) <==> k < ids@.len());
            let ghost before = left@;
            let ghost done = olds@.take(i as int);
            assert(!done.contains(id)) by {
                if done.contains(id) {
                    let j = done.index_of(id);
                    assert(olds@[j] == olds@[i as int]);
                }
            }
            if k == ids.len() {
                assert(!before.contains(id));
                left.push(id);
                assert forall|j: int, l: int|
                    0 <= j < left@.len() && 0 <= l < left@.len() && j != l implies left@[j]
                    != left@[l] by {
                    if j < before.len() {
                        assert(before.contains(before[j]));
                    }
                    if l < before.len() {
                        assert(before.contains(before[l]));
                    }
                }
            }
            i += 1;
            assert forall|x: NodeId| #[trigger] left@.contains(x) <==> olds@.take(
                i as int,
            ).contains(x) && !ids@.contains(x) by {
                let taken = olds@.take(i as int);
                assert(taken =~= done.push(id));
                assert(taken[done.len() as int] == id);
                if taken.contains(x) && x != id {
                    assert(done[taken.index_of(x)] == x);
                }
                if done.contains(x) {
                    assert(taken[done.index_of(x)] == x);
                }
                if before.contains(x) {
                    assert(left@[before.index_of(x)] == x);
                }
                if left@.contains(x) && x != id {
                    assert(before[left@.index_of(x)] == x);
                }
                if k == ids@.len() {
                    assert(left@[before.len() as int] == id);
                }
            }
        }
        assert(olds@.take(i as int) =~= olds@);
        left
    }

    /// Makes `dir` list the nodes `ids` for its `entries`, and puts the other `olds` into the
    /// trash.
    fn attach_entries(
        &mut self,
        dir: NodeId,
        olds: &Vec<NodeId>,
        ids: &Vec<NodeId>,
        trash: &mut Vec<NodeId>,
        Ghost(b): Ghost<Shape>,
        Ghost(entries): Ghost<Seq<Entry>>,
    )
        requires
            old(trash)@.len() == 0,
            b.wf(),
            b.has(dir),
            b.ids(dir) == olds@,
            distinct_names(entries),
            old(self).shape().linked(olds@.to_set().union(ids@.to_set())),
            b.matched(old(self).shape(), dir, entries, ids@),
            ids@.no_duplicates(),
        ensures
            final(self).live(final(trash)@).wf(),
            b.only_below(final(self).live(final(trash)@), dir),
            final(self).live(final(trash)@).nodes[dir] == (NodeView {
                children: ChildrenView::Loaded(
                    sorted_by(ids@, final(self).live(final(trash)@).comes_before(final(self).sort)),
                ),
                listed: true,
                ..b.nodes[dir]
            }),
            forall|k: int|
                0 <= k < ids@.len() ==> b.taken_over(
                    final(self).live(final(trash)@),
                    dir,
                    entries[k],
                    #[trigger] ids@[k],
                ) && (b.has(ids@[k]) ==> b.kept_below(final(self).live(final(trash)@), ids@[k])),
            final(self).stored() == old(self).stored(),
            final(self).stores(final(trash)@),
            b.renewed(final(self).live(final(trash)@), b.nodes.dom()),
            final(self).sort == old(self).sort,
            final(self).listing_requests@ == old(self).listing_requests@,
    {
        let ghost m = self.shape();
        assert(self.live(trash@).nodes =~= m.nodes);
        let ghost none = Set::<NodeId>::empty();
        let ghost loose = olds@.to_set().union(ids@.to_set());
        let ghost le = m.comes_before(self.sort);
        proof {
            b.lemma_forget(dir, ChildrenView::Unloaded);
            assert forall|k: int| 0 <= k < ids@.len() implies m.has(#[trigger] ids@[k]) && m.parent(
                ids@[k],
            ) == Some(dir) && m.nodes[ids@[k]].name == entries[k].name@ && ids@[k] != m.root by {
                assert(b.taken_over(m, dir, entries[k], ids@[k]));
                b.lemma_reusable(dir, entries[k].name@, entries[k].kind);
                assert(m.fits(loose, ids@[k]));
            }
        }
        let left: Vec<NodeId> = Self::left_over(olds, ids);
        let sorted: Vec<NodeId> = self.sort_children(ids);
        proof {
            lemma_sorted_by(ids@, le);
            lemma_sorted_by_distinct(ids@, le);
            assert forall|i: int| 0 <= i < sorted@.len() implies ids@.contains(
                #[trigger] sorted@[i],
            ) && m.holds(left@.to_set(), dir, sorted@[i]) by {
                assert(sorted@.contains(sorted@[i]));
                lemma_sorted_by_contains(ids@, le, sorted@[i]);
                assert(ids@[ids@.index_of(sorted@[i])] == sorted@[i]);
            }
            assert forall|i: int, j: int|
                #![trigger sorted@[i], sorted@[j]]
                0 <= i < j < sorted@.len() implies m.nodes[sorted@[i]].name
                != m.nodes[sorted@[j]].name by {
                let p = ids@.index_of(sorted@[i]);
                let q = ids@.index_of(sorted@[j]);
                assert(ids@[p] == sorted@[i] && ids@[q] == sorted@[j]);
                assert(p != q);
                assert(m.nodes[ids@[p]].name == entries[p].name@);
                assert(m.nodes[ids@[q]].name == entries[q].name@);
                if p < q {
                    assert(entries[p].name@ != entries[q].name@);
                } else {
                    assert(entries[q].name@ != entries[p].name@);
                }
            }
            assert forall|x: NodeId|
                m.has(x) && #[trigger] m.parent(x) == Some(dir) && !left@.to_set().contains(
                    x,
                ) implies sorted@.contains(x) by {
                lemma_sorted_by_contains(ids@, le, x);
                if b.has(x) {
                    assert(b.fits(none, x));
                    assert(olds@.contains(x));
                    assert(!left@.contains(x));
                }
            }
            assert forall|x: NodeId| #[trigger] left@.to_set().contains(x) implies m.has(x) && x
                != m.root && b.has(x) && b.parent(x) == Some(dir) by {
                assert(left@.contains(x));
                assert(olds@[olds@.index_of(x)] == x);
                assert(b.has(b.ids(dir)[olds@.index_of(x)]));
                assert(m.fits(loose, x));
            }
            assert forall|x: NodeId| m.has(x) && #[trigger] m.parent(x) != Some(dir) implies (
            loose.contains(x) <==> left@.to_set().contains(x)) by {
                if olds@.contains(x) {
                    assert(b.has(b.ids(dir)[olds@.index_of(x)]));
                }
                if ids@.contains(x) {
                    assert(ids@[ids@.index_of(x)] == x);
                }
            }
            assert(m.can_list(loose, dir, Children::Loaded(sorted)@, left@.to_set()));
        }
        self.set_entries(
            dir,
            Children::Loaded(sorted),
            true,
            Ghost(trash@),
            Ghost(loose),
            Ghost(left@.to_set()),
        );
        let ghost n = self.live(trash@);
        proof {
            assert(n.nodes.dom() =~= m.nodes.dom());
            assert forall|i: int| 0 <= i < left@.len() implies n.parent(#[trigger] left@[i])
                == Some(dir) && b.has(left@[i]) && b.parent(left@[i]) == Some(dir) by {
                assert(left@.to_set().contains(left@[i]));
            }
            assert forall|x: NodeId| #[trigger] n.has(x) && !b.has(x) implies n.parent(x) == Some(
                dir,
            ) by {
                assert(m.has(x));
            }
            assert forall|x: NodeId| #[trigger] b.has(x) implies n.has(x) && n.parent(x) == b.parent(
                x,
            ) && n.depths[x] == b.depths[x] by {
                assert(m.has(x));
            }
        }
        self.remove_subtrees(&left, trash, Ghost(dir));
        proof {
            let a = self.live(trash@);
            assert forall|x: NodeId| #[trigger] b.has(x) && !b.within(x, dir) implies n.nodes[x]
                == b.nodes[x] by {
                if ids@.contains(x) {
                    assert(b.parent(x) == Some(dir)) by {
                        assert(m.parent(ids@[ids@.index_of(x)]) == Some(dir));
                    }
                    b.lemma_within_parent(none, x);
                }
            }
            b.lemma_replaced(n, left@.to_set(), a, dir, left@);
            assert forall|k: int| 0 <= k < ids@.len() implies b.taken_over(
                a,
                dir,
                entries[k],
                #[trigger] ids@[k],
            ) && (b.has(ids@[k]) ==> b.kept_below(a, ids@[k])) by {
                let id = ids@[k];
                assert(b.taken_over(m, dir, entries[k], id));
                b.lemma_reusable(dir, entries[k].name@, entries[k].kind);
                assert forall|x: NodeId| #[trigger] b.has(x) && b.within(x, id) && x != id implies n.nodes[x]
                    == b.nodes[x] by {
                    b.lemma_within_has(none, x, id);
                    b.lemma_within_parent(none, id);
                    b.lemma_depth(x, id);
                    b.lemma_depth(id, dir);
                    assert(x != dir);
                    if ids@.contains(x) {
                        assert(m.parent(ids@[ids@.index_of(x)]) == Some(dir));
                        b.lemma_within_parent(none, x);
                    }
                }
                b.lemma_attached(n, a, dir, entries[k], id, left@);
            }
            assert(a.nodes[dir] == n.nodes[dir]);
            let after = a.comes_before(self.sort);
            assert forall|x: NodeId, y: NodeId|
                #![trigger le(x, y)]
                #![trigger after(x, y)]
                ids@.contains(x) && ids@.contains(y) implies le(x, y) == after(x, y) by {
                assert(ids@[ids@.index_of(x)] == x);
                assert(ids@[ids@.index_of(y)] == y);
                assert(a.has(x) && a.has(y));
            }
            lemma_sorted_by_agree(ids@, le, after);
        }
    }

    /// Makes the collapsed ones of the entries `ids` of `dir` hold exactly their probed runs.
    fn set_runs(
        &mut self,
        dir: NodeId,
        entries: &Vec<Entry>,
        ids: &Vec<NodeId>,
        trash: &mut Vec<NodeId>,
    )
        requires
            old(self).stores(old(trash)@),
            old(self).live(old(trash)@).wf(),
            old(self).live(old(trash)@).has(dir),
            ids@.no_duplicates(),
            ids@.len() == entries@.len(),
            forall|k: int|
                0 <= k < ids@.len() ==> old(self).live(old(trash)@).holds(Set::empty(), dir, #[trigger] ids@[k])
                    && old(self).live(old(trash)@).is_directory(ids@[k]) == (entries@[k].kind is Directory),
            runs_of_directories(entries@),
            old(self).stored().len() + runs_from(entries@, 0) < u32::MAX,
        ensures
            final(self).live(final(trash)@).wf(),
            old(self).live(old(trash)@).only_below(final(self).live(final(trash)@), dir),
            final(self).live(final(trash)@).nodes[dir] == old(self).live(old(trash)@).nodes[dir],
            forall|k: int|
                0 <= k < ids@.len() ==> old(self).live(old(trash)@).run_set(
                    final(self).live(final(trash)@),
                    entries@[k],
                    #[trigger] ids@[k],
                    old(self).stored(),
                ),
            final(self).stores(final(trash)@),
            old(self).stored().subset_of(final(self).stored()),
            old(self).live(old(trash)@).renewed(final(self).live(final(trash)@), old(self).stored()),
            final(self).sort == old(self).sort,
            final(self).listing_requests@ == old(self).listing_requests@,
    {
        let ghost p = self.live(trash@);
        let ghost none = Set::<NodeId>::empty();
        let mut i: usize = 0;
        while i < ids.len()
            invariant
                i <= ids@.len(),
                p == old(self).live(old(trash)@),
                p.wf(),
                p.has(dir),
                none == Set::<NodeId>::empty(),
                ids@.no_duplicates(),
                ids@.len() == entries@.len(),
                runs_of_directories(entries@),
                self.live(trash@).wf(),
                p.only_below(self.live(trash@), dir),
                self.live(trash@).nodes[dir] == p.nodes[dir],
                self.stored().len() + runs_from(entries@, i as int) < u32::MAX,
                forall|k: int|
                    0 <= k < ids@.len() ==> p.holds(none, dir, #[trigger] ids@[k])
                        && p.is_directory(ids@[k]) == (entries@[k].kind is Directory)
                        && self.live(trash@).holds(none, dir, ids@[k]),
                forall|k: int|
                    0 <= k < i ==> p.run_set(
                        self.live(trash@),
                        entries@[k],
                        #[trigger] ids@[k],
                        old(self).stored(),
                    ),
                forall|k: int|
                    i <= k < ids@.len() ==> p.same_within(self.live(trash@), #[trigger] ids@[k]),
                self.stores(trash@),
                old(self).stored().subset_of(self.stored()),
                p.renewed(self.live(trash@), old(self).stored()),
                self.sort == old(self).sort,
                self.listing_requests@ == old(self).listing_requests@,
            decreases ids.len() - i,
        {
            let id: NodeId = ids[i];
            let ghost c = self.live(trash@);
            let ghost stored = self.stored();
            let mut collapsed: bool = false;
            proof {
                assert(p.same_within(c, ids@[i as int]));
                assert(p.has(id) && p.within(id, id));
                assert(c.nodes[id] == p.nodes[id]);
            }
            if entries[i].kind == Kind::Directory {
                match get_node(&self.nodes, id) {
                    Some(node) => {
                        collapsed = !node.expanded;
                    },
                    None => {},
                }
            }
            if collapsed {
                assert(run_of_directories(entries@[i as int].only_child));
                self.set_run(id, &entries[i].only_child, trash);
                proof {
                    let t = self.live(trash@);
                    let names = run_names(entries@[i as int].only_child);
                    c.lemma_only_below_deeper(t, dir, id);
                    p.lemma_only_below_transitive(c, t, dir);
                    p.lemma_renewed(c, t, old(self).stored(), stored);
                    assert forall|x: NodeId| #[trigger] p.has(x) && p.within(
                        x,
                        id,
                    ) implies p.same_step(c, x) by {
                        assert(c.has(x));
                    }
                    p.lemma_run_kept_same(c, t, id, id, names);
                    p.lemma_only_runs_same(c, t, id, old(self).stored(), stored);
                    assert forall|k: int| 0 <= k < ids@.len() && k != i implies c.same_within(
                        t,
                        #[trigger] ids@[k],
                    ) && t.holds(none, dir, ids@[k]) by {
                        assert(c.holds(none, dir, ids@[k]));
                        c.lemma_sibling(t, dir, id, ids@[k]);
                        assert(c.has(ids@[k]) && c.within(ids@[k], ids@[k]));
                    }
                    assert forall|k: int| 0 <= k < i implies p.run_set(
                        t,
                        entries@[k],
                        #[trigger] ids@[k],
                        old(self).stored(),
                    ) by {
                        p.lemma_run_set_after(c, t, entries@[k], ids@[k], old(self).stored());
                    }
                    assert forall|k: int| i < k < ids@.len() implies p.same_within(
                        t,
                        #[trigger] ids@[k],
                    ) by {
                        p.lemma_same_within_transitive(c, t, ids@[k]);
                    }
                }
            }
            i += 1;
        }
    }

    /// Merges a listing of the directory `dir`. Entries that are still present keep their ids. The
    /// others leave the arena only once all new ones are in it, so that no id is used again.
    pub fn apply_listing(&mut self, dir: NodeId, listing: Listing)
        requires
            old(self).wf(),
            is_listing(listing),
            old(self).shape().takes(dir, listing),
        ensures
            final(self).wf(),
            old(self).shape().only_below(final(self).shape(), dir),
            match listing {
                Some(entries) => exists|ids: Seq<NodeId>| #[trigger]
                    old(self).shape().merged(
                        final(self).shape(),
                        old(self).sorted_how(),
                        dir,
                        entries@,
                        ids,
                    ),
                None => final(self).shape().nodes[dir] == (NodeView {
                    children: ChildrenView::Unreadable,
                    listed: true,
                    ..old(self).shape().nodes[dir]
                }),
            },
            final(self).sorted_how() == old(self).sorted_how(),
            final(self).requests() == old(self).requests(),
    {
        let ghost b = self.shape();
        let mut trash: Vec<NodeId> = Vec::new();
        assert(self.live(trash@).nodes =~= b.nodes);
        match listing {
            None => {
                self.forget_entries(dir, Children::Unreadable, true, &mut trash);
                self.empty_trash(&trash);
                proof {
                    let a = self.shape();
                    assert forall|x: NodeId| a.has(x) implies #[trigger] a.lists_in_order(
                        self.sort,
                        x,
                    ) by {
                        if a.within(x, dir) {
                            if x != dir {
                                let none = Set::<NodeId>::empty();
                                let y = a.lemma_step(none, x, dir);
                                assert(a.fits(none, y));
                            }
                        } else {
                            b.lemma_ordered_outside(a, self.sort, dir, x);
                        }
                    }
                }
            },
            Some(entries) => {
                let olds: Vec<NodeId> = self.children(dir);
                let ids: Vec<NodeId> = self.match_entries(dir, &olds, &entries);
                self.attach_entries(dir, &olds, &ids, &mut trash, Ghost(b), Ghost(entries@));
                let ghost p = self.live(trash@);
                let ghost stored = self.stored();
                proof {
                    assert forall|k: int| 0 <= k < ids@.len() implies p.holds(
                        Set::empty(),
                        dir,
                        #[trigger] ids@[k],
                    ) && p.is_directory(ids@[k]) == (entries@[k].kind is Directory) by {
                        assert(b.taken_over(p, dir, entries@[k], ids@[k]));
                        b.lemma_reusable(dir, entries@[k].name@, entries@[k].kind);
                    }
                }
                self.set_runs(dir, &entries, &ids, &mut trash);
                self.empty_trash(&trash);
                proof {
                    let a = self.shape();
                    b.lemma_only_below_transitive(p, a, dir);
                    b.lemma_renewed(p, a, b.nodes.dom(), stored);
                    assert forall|k: int| 0 <= k < ids@.len() implies b.listed_as(
                        a,
                        dir,
                        entries@[k],
                        #[trigger] ids@[k],
                    ) && a.nodes[ids@[k]].name == p.nodes[ids@[k]].name && a.nodes[ids@[k]].kind
                        == p.nodes[ids@[k]].kind by {
                        assert(p.holds(Set::empty(), dir, ids@[k]));
                        assert(b.taken_over(p, dir, entries@[k], ids@[k]));
                        assert(p.run_set(a, entries@[k], ids@[k], stored));
                        b.lemma_listed_as(p, a, dir, entries@[k], ids@[k], stored);
                    }
                    let before = p.comes_before(self.sort);
                    let after = a.comes_before(self.sort);
                    assert forall|x: NodeId, y: NodeId|
                        #![trigger before(x, y)]
                        #![trigger after(x, y)]
                        ids@.contains(x) && ids@.contains(y) implies before(x, y) == after(x, y) by {
                        assert(ids@[ids@.index_of(x)] == x);
                        assert(ids@[ids@.index_of(y)] == y);
                    }
                    lemma_sorted_by_agree(ids@, before, after);
                    assert(b.merged(a, self.sort, dir, entries@, ids@));
                    assert forall|x: NodeId| a.has(x) implies #[trigger] a.lists_in_order(
                        self.sort,
                        x,
                    ) by {
                        b.lemma_merged_in_order(a, self.sort, dir, entries@, ids@, x);
                    }
                }
            },
        }
    }

    /// Whether `a` comes before `b`, or ties with it, as entries of one directory.
    fn in_tree_order(&self, a: NodeId, b: NodeId) -> (before: bool)
        requires
            self.shape().has(a),
            self.shape().has(b),
        ensures
            before == self.shape().comes_before(self.sort)(a, b),
    {
        match (get_node(&self.nodes, a), get_node(&self.nodes, b)) {
            (Some(a), Some(b)) => {
                let a_name: String = name_text(&a.name);
                let b_name: String = name_text(&b.name);
                match order_entries(
                    self.sort,
                    a_name.as_str(),
                    a.kind.group(),
                    b_name.as_str(),
                    b.kind.group(),
                ) {
                    Order::Greater => false,
                    _ => true,
                }
            },
            _ => false,
        }
    }

    /// Sorts entries of one directory.
    fn sort_children(&self, children: &Vec<NodeId>) -> (sorted: Vec<NodeId>)
        requires
            forall|i: int| 0 <= i < children@.len() ==> self.shape().has(#[trigger] children@[i]),
        ensures
            sorted@ == sorted_by(children@, self.shape().comes_before(self.sort)),
    {
        let ghost le = self.shape().comes_before(self.sort);
        let mut sorted: Vec<NodeId> = Vec::new();
        let mut k: usize = 0;
        while k < children.len()
            invariant
                k <= children@.len(),
                le == self.shape().comes_before(self.sort),
                forall|i: int| 0 <= i < children@.len() ==> self.shape().has(#[trigger] children@[i]),
                sorted@ == sorted_by(children@.take(k as int), le),
                sorted@.len() == k,
                forall|i: int| 0 <= i < sorted@.len() ==> self.shape().has(#[trigger] sorted@[i]),
            decreases children.len() - k,
        {
            let child: NodeId = children[k];
            let mut at: usize = sorted.len();
            while at > 0 && !self.in_tree_order(sorted[at - 1], child)
                invariant
                    at <= sorted@.len(),
                    le == self.shape().comes_before(self.sort),
                    self.shape().has(child),
                    forall|i: int|
                        0 <= i < sorted@.len() ==> self.shape().has(#[trigger] sorted@[i]),
                    forall|i: int| at <= i < sorted@.len() ==> !#[trigger] le(sorted@[i], child),
                ensures
                    at > 0 ==> le(sorted@[at - 1], child),
                decreases at,
            {
                at -= 1;
            }
            proof {
                lemma_insert_at(sorted@, child, le, at as int);
                assert(children@.take(k + 1).drop_last() =~= children@.take(k as int));
            }
            sorted.insert(at, child);
            k += 1;
        }
        proof {
            assert(children@.take(k as int) =~= children@);
        }
        sorted
    }

    /// The first of `ids` that is named `name`.
    fn first_named(&self, ids: &Vec<NodeId>, name: &Vec<u8>) -> (found: Option<NodeId>)
        requires
            forall|i: int| 0 <= i < ids@.len() ==> self.shape().has(#[trigger] ids@[i]),
        ensures
            found == self.shape().named(ids@, name@),
    {
        let mut i: usize = 0;
        while i < ids.len()
            invariant
                i <= ids@.len(),
                forall|i: int| 0 <= i < ids@.len() ==> self.shape().has(#[trigger] ids@[i]),
                forall|k: int|
                    0 <= k < i ==> self.shape().nodes[#[trigger] ids@[k]].name != name@,
            decreases ids.len() - i,
        {
            assert(self.shape().has(ids@[i as int]));
            match get_node(&self.nodes, ids[i]) {
                Some(node) => {
                    if same_name(&node.name, name) {
                        proof {
                            self.shape().lemma_named(ids@, name@, i as int);
                        }
                        return Some(ids[i]);
                    }
                },
                None => {},
            }
            i += 1;
        }
        proof {
            self.shape().lemma_unnamed(ids@, name@);
        }
        None
    }

    /// A tree holding only its (expanded, unlisted) root, named `root_name`.
    pub fn new(root_name: Vec<u8>, sort: FileTreeSort) -> (tree: Tree)
        ensures
            tree.wf(),
            tree.shape().nodes.dom() == Set::empty().insert(tree.shape().root),
            tree.shape().nodes[tree.shape().root] == (NodeView {
                name: root_name@,
                kind: Kind::Directory,
                parent: None,
                children: ChildrenView::Unloaded,
                expanded: true,
                listed: false,
            }),
            tree.sorted_how() == sort,
            tree.requests() == seq![tree.shape().root],
    {
        let mut nodes: Arena = new_nodes();
        let root: NodeId = insert_node(
            &mut nodes,
            Node {
                name: root_name,
                kind: Kind::Directory,
                parent: None,
                children: Children::Unloaded,
                expanded: true,
                listed: false,
            },
        );
        let mut listing_requests: Vec<NodeId> = Vec::new();
        listing_requests.push(root);
        let tree = Tree {
            nodes,
            root,
            sort,
            listing_requests,
            depths: Ghost(Map::empty().insert(root, 0)),
        };
        assert(tree.shape().wf()) by {
            assert forall|id: NodeId| tree.shape().has(id) implies #[trigger] tree.shape().fits(
                Set::empty(),
                id,
            ) by {}
        }
        assert(tree.requests() =~= seq![root]);
        tree
    }

    pub fn root(&self) -> (root: NodeId)
        ensures
            root == self.shape().root,
    {
        self.root
    }

    pub fn get(&self, id: NodeId) -> (node: Option<&Node>)
        ensures
            match node {
                Some(node) => self.shape().has(id) && self.shape().nodes[id] == node@,
                None => !self.shape().has(id),
            },
    {
        get_node(&self.nodes, id)
    }

    /// The node `id`, which must exist.
    pub fn node(&self, id: NodeId) -> (node: &Node)
        requires
            self.shape().has(id),
        ensures
            node@ == self.shape().nodes[id],
    {
        get_node(&self.nodes, id).unwrap()
    }

    /// How many nodes the tree has.
    pub(crate) fn size(&self) -> (size: usize)
        ensures
            size == self.shape().nodes.len(),
    {
        node_count(&self.nodes)
    }

    pub fn contains(&self, id: NodeId) -> (contains: bool)
        ensures
            contains == self.shape().has(id),
    {
        get_node(&self.nodes, id).is_some()
    }

    /// The listed children of `id`, in tree order.
    pub fn children(&self, id: NodeId) -> (ids: Vec<NodeId>)
        requires
            self.shape().has(id),
        ensures
            ids@ == self.shape().ids(id),
    {
        match &self.node(id).children {
            Children::Loaded(children) => children.clone(),
            _ => Vec::new(),
        }
    }

    /// The only child of `id` if that is a directory: the next step of a single-child run.
    pub fn only_directory_child(&self, id: NodeId) -> (child: Option<NodeId>)
        requires
            self.wf(),
            self.shape().has(id),
        ensures
            child == self.shape().only_directory(id),
    {
        let children: Vec<NodeId> = self.children(id);
        if children.len() != 1 {
            return None;
        }
        proof {
            assert(self.shape().fits(Set::empty(), id));
            assert(self.shape().holds(Set::empty(), id, self.shape().ids(id)[0]));
        }
        if self.node(children[0]).kind == Kind::Directory {
            Some(children[0])
        } else {
            None
        }
    }

    /// The path of `id` relative to the root; empty for the root itself.
    pub fn path(&self, id: NodeId) -> (path: TreePath)
        requires
            self.wf(),
            self.shape().has(id),
        ensures
            path@ == self.shape().path(id),
        decreases self.shape().depths[id],
    {
        proof {
            assert(self.shape().fits(Set::empty(), id));
        }
        match self.node(id).parent {
            Some(parent) => self.path(parent).join(&self.node(id).name),
            None => TreePath::empty(),
        }
    }

    /// The node at `path`, relative to the root.
    pub fn find(&self, path: &TreePath) -> (found: Option<NodeId>)
        requires
            self.wf(),
        ensures
            found == self.shape().find(self.shape().root, path@),
            found matches Some(id) ==> self.shape().has(id),
    {
        let mut current: NodeId = self.root;
        let mut i: usize = 0;
        assert(path@.skip(0) =~= path@);
        while i < path.components.len()
            invariant
                i <= path.components@.len(),
                self.wf(),
                self.shape().has(current),
                self.shape().find(self.shape().root, path@) == self.shape().find(
                    current,
                    path@.skip(i as int),
                ),
            decreases path.components.len() - i,
        {
            let ghost rest = path@.skip(i as int);
            proof {
                assert(rest[0] == path.components@[i as int]@);
                assert(rest.skip(1) =~= path@.skip(i + 1));
            }
            match &path.components[i] {
                Component::Normal(name) => {
                    match self.child_named(current, name) {
                        Some(child) => {
                            current = child;
                        },
                        None => {
                            return None;
                        },
                    }
                },
                _ => {
                    return None;
                },
            }
            i += 1;
        }
        assert(path@.skip(i as int) =~= Seq::<Part>::empty());
        Some(current)
    }

    fn child_named(&self, id: NodeId, name: &Vec<u8>) -> (child: Option<NodeId>)
        requires
            self.wf(),
            self.shape().has(id),
        ensures
            child == self.shape().named(self.shape().ids(id), name@),
            child matches Some(child) ==> self.shape().holds(Set::empty(), id, child),
    {
        let children: Vec<NodeId> = self.children(id);
        let ghost s = self.shape();
        proof {
            assert(s.fits(Set::empty(), id));
            assert forall|i: int| 0 <= i < children@.len() implies s.has(
                #[trigger] children@[i],
            ) by {
                assert(s.holds(Set::empty(), id, s.ids(id)[i]));
            }
        }
        let child: Option<NodeId> = self.first_named(&children, name);
        proof {
            if child is Some {
                s.lemma_named_some(s.ids(id), name@);
                let i = s.ids(id).index_of(child->0);
                assert(s.holds(Set::empty(), id, s.ids(id)[i]));
            }
        }
        child
    }

    /// Whether `id` is `ancestor` or lies below it.
    pub fn is_within(&self, id: NodeId, ancestor: NodeId) -> (within: bool)
        requires
            self.wf(),
            self.shape().has(id),
        ensures
            within == self.shape().within(id, ancestor),
    {
        let mut current: NodeId = id;
        while current != ancestor
            invariant
                self.wf(),
                self.shape().has(current),
                self.shape().within(id, ancestor) == self.shape().within(current, ancestor),
            decreases self.shape().depths[current],
        {
            proof {
                assert(self.shape().fits(Set::empty(), current));
            }
            match self.node(current).parent {
                Some(parent) => {
                    current = parent;
                },
                None => {
                    return false;
                },
            }
        }
        true
    }
}

/// What [`Tree::reveal_path`] came to.
#[derive(Clone, Copy, Debug, PartialEq, Eq, Structural)]
pub enum Reveal {
    Found(NodeId),
    Unlisted(NodeId),
    Missing,
}

impl Shape {
    /// The ones of `requests` that are expanded, each where it comes first.
    pub open spec fn wanted(self, requests: Seq<NodeId>) -> Seq<NodeId>
        decreases requests.len(),
    {
        if requests.len() == 0 {
            Seq::empty()
        } else {
            let earlier = requests.drop_last();
            let id = requests.last();
            if !earlier.contains(id) && self.has(id) && self.nodes[id].expanded {
                self.wanted(earlier).push(id)
            } else {
                self.wanted(earlier)
            }
        }
    }

    /// What is wanted is expanded, and no request is answered twice.
    pub proof fn lemma_wanted(self, requests: Seq<NodeId>)
        ensures
            forall|k: int|
                0 <= k < self.wanted(requests).len() ==> self.has(
                    #[trigger] self.wanted(requests)[k],
                ) && self.nodes[self.wanted(requests)[k]].expanded && requests.contains(
                    self.wanted(requests)[k],
                ),
            self.wanted(requests).no_duplicates(),
        decreases requests.len(),
    {
        if requests.len() > 0 {
            let earlier = requests.drop_last();
            self.lemma_wanted(earlier);
            let rest = self.wanted(earlier);
            let all = self.wanted(requests);
            assert(requests[requests.len() - 1] == requests.last());
            assert forall|k: int| 0 <= k < rest.len() implies requests.contains(
                #[trigger] rest[k],
            ) by {
                assert(requests[earlier.index_of(rest[k])] == rest[k]);
            }
            assert forall|k: int| 0 <= k < all.len() implies self.has(#[trigger] all[k])
                && self.nodes[all[k]].expanded && requests.contains(all[k]) by {
                if k < rest.len() {
                    assert(all[k] == rest[k]);
                }
            }
        }
    }

    /// The node `id`, expanded if it is a directory.
    pub open spec fn expanded_node(self, id: NodeId) -> NodeView {
        NodeView { expanded: self.is_directory(id), ..self.nodes[id] }
    }

    /// Whether expanding `id` asks for a listing.
    pub open spec fn needs_listing(self, id: NodeId) -> bool {
        self.is_directory(id) && !self.nodes[id].expanded && !self.nodes[id].listed
    }

    /// The node at `path`, seen from `id`, or the closest one above it that is known.
    pub open spec fn closest(self, id: NodeId, path: Seq<Part>) -> NodeId
        decreases path.len(),
    {
        if path.len() == 0 || !(path[0] is Normal) {
            id
        } else {
            match self.named(self.ids(id), path[0]->Normal_0) {
                Some(child) => self.closest(child, path.skip(1)),
                None => id,
            }
        }
    }

    /// Whether `id` and all that it lies within are directories.
    pub open spec fn in_directories(self, id: NodeId) -> bool {
        forall|x: NodeId| #[trigger] self.has(x) && self.within(id, x) ==> self.is_directory(x)
    }

    /// The shape with a fresh listing of `id` to come.
    pub open spec fn outdated(self, id: NodeId) -> Shape {
        Shape {
            nodes: self.nodes.insert(id, NodeView { listed: false, ..self.nodes[id] }),
            ..self
        }
    }

    /// What the search for `path`, seen from `id`, comes to.
    pub open spec fn revealed(self, id: NodeId, path: Seq<Part>) -> Reveal
        decreases path.len(),
    {
        if path.len() == 0 {
            Reveal::Found(id)
        } else {
            match path[0] {
                Part::Normal(name) => if !self.is_directory(id) {
                    Reveal::Missing
                } else {
                    match self.nodes[id].children {
                        ChildrenView::Unloaded => Reveal::Unlisted(id),
                        ChildrenView::Unreadable => Reveal::Missing,
                        ChildrenView::Loaded(ids) => match self.named(ids, name) {
                            Some(child) => self.revealed(child, path.skip(1)),
                            None => if self.nodes[id].listed {
                                Reveal::Missing
                            } else {
                                Reveal::Unlisted(id)
                            },
                        },
                    }
                },
                _ => Reveal::Missing,
            }
        }
    }

    /// The directories that the search for `path`, seen from `id`, goes through.
    pub open spec fn passed(self, id: NodeId, path: Seq<Part>) -> Seq<NodeId>
        decreases path.len(),
    {
        if path.len() == 0 || !(path[0] is Normal) || !self.is_directory(id) {
            Seq::empty()
        } else {
            match self.named(self.ids(id), path[0]->Normal_0) {
                Some(child) => seq![id] + self.passed(child, path.skip(1)),
                None => seq![id],
            }
        }
    }

    /// The ones of `ids` for which expanding asks for a listing.
    pub open spec fn to_list(self, ids: Seq<NodeId>) -> Seq<NodeId>
        decreases ids.len(),
    {
        if ids.len() == 0 {
            Seq::empty()
        } else if self.needs_listing(ids.last()) {
            self.to_list(ids.drop_last()).push(ids.last())
        } else {
            self.to_list(ids.drop_last())
        }
    }

    /// Whether `after` is the shape with the directories `ids` expanded.
    pub open spec fn is_expanded(self, after: Shape, ids: Seq<NodeId>) -> bool {
        &&& after.root == self.root
        &&& after.depths == self.depths
        &&& after.nodes.dom() == self.nodes.dom()
        &&& forall|x: NodeId| #[trigger]
            self.has(x) ==> after.nodes[x] == if ids.contains(x) {
                self.expanded_node(x)
            } else {
                self.nodes[x]
            }
    }

    /// A listing to come changes neither the tree nor the order of entries.
    pub proof fn lemma_outdated(self, sort: FileTreeSort, id: NodeId)
        requires
            self.wf(),
            self.ordered(sort),
            self.has(id),
        ensures
            self.outdated(id).wf(),
            self.outdated(id).ordered(sort),
            self.outdated(id).nodes.dom() == self.nodes.dom(),
            self.places_kept(self.outdated(id)),
    {
        let none = Set::<NodeId>::empty();
        let after = self.outdated(id);
        assert(self.fits(none, id));
        assert forall|x: NodeId|
            self.has(x) && #[trigger] self.parent(x) == Some(id) implies self.ids(id).contains(x) by {
            assert(self.fits(none, x));
        }
        self.lemma_update(none, id, NodeView { listed: false, ..self.nodes[id] }, none);
        assert(after.nodes.dom() =~= self.nodes.dom());
        assert forall|x: NodeId| after.has(x) implies #[trigger] after.lists_in_order(sort, x) by {
            assert(self.lists_in_order(sort, x));
            self.lemma_still_in_order(after, sort, x);
        }
    }

    /// The closest known node is one of the tree, and stays the closest when a listing is to come.
    pub proof fn lemma_closest(self, from: NodeId, path: Seq<Part>, id: NodeId)
        requires
            self.wf(),
            self.has(from),
            self.has(id),
        ensures
            self.has(self.closest(from, path)),
            self.within(self.closest(from, path), from),
            self.outdated(id).closest(from, path) == self.closest(from, path),
        decreases path.len(),
    {
        if path.len() > 0 && path[0] is Normal {
            let name = path[0]->Normal_0;
            let ids = self.ids(from);
            let after = self.outdated(id);
            assert(self.fits(Set::empty(), from));
            assert forall|k: int| 0 <= k < ids.len() implies after.nodes[#[trigger] ids[k]].name
                == self.nodes[ids[k]].name by {
                assert(self.holds(Set::empty(), from, self.ids(from)[k]));
            }
            self.lemma_named_same(after, ids, name);
            if let Some(child) = self.named(ids, name) {
                self.lemma_named_some(ids, name);
                let k = ids.index_of(child);
                assert(self.holds(Set::empty(), from, self.ids(from)[k]));
                self.lemma_closest(child, path.skip(1), id);
                self.lemma_within_parent(Set::empty(), child);
                self.lemma_within_transitive(self.closest(from, path), child, from);
            }
        }
    }

    /// Expanding changes neither the tree nor the order of entries.
    proof fn lemma_expand(self, after: Shape, sort: FileTreeSort, id: NodeId)
        requires
            self.wf(),
            self.ordered(sort),
            self.has(id),
            after == (Shape { nodes: self.nodes.insert(id, self.expanded_node(id)), ..self }),
        ensures
            after.wf(),
            after.ordered(sort),
            after.nodes.dom() == self.nodes.dom(),
    {
        let none = Set::<NodeId>::empty();
        assert(self.fits(none, id));
        assert forall|x: NodeId|
            self.has(x) && #[trigger] self.parent(x) == Some(id) implies self.ids(id).contains(x) by {
            assert(self.fits(none, x));
        }
        self.lemma_update(none, id, self.expanded_node(id), none);
        assert(after.nodes.dom() =~= self.nodes.dom());
        assert forall|x: NodeId| after.has(x) implies #[trigger] after.lists_in_order(sort, x) by {
            assert(self.lists_in_order(sort, x));
            self.lemma_still_in_order(after, sort, x);
        }
    }
}

impl Tree {
    /// The directories that were expanded since the last call and so need a (fresh) listing.
    pub fn take_listing_requests(&mut self) -> (requests: Vec<NodeId>)
        ensures
            requests@ == old(self).shape().wanted(old(self).requests()),
            final(self).shape() == old(self).shape(),
            final(self).sorted_how() == old(self).sorted_how(),
            final(self).requests() == Seq::<NodeId>::empty(),
    {
        let ghost all = self.listing_requests@;
        let mut requests: Vec<NodeId> = Vec::new();
        let mut i: usize = 0;
        while i < self.listing_requests.len()
            invariant
                i <= self.listing_requests@.len(),
                all == self.listing_requests@,
                *self == *old(self),
                requests@ == self.shape().wanted(all.take(i as int)),
            decreases self.listing_requests.len() - i,
        {
            let id: NodeId = self.listing_requests[i];
            let mut k: usize = 0;
            while k < i && self.listing_requests[k] != id
                invariant
                    k <= i < self.listing_requests@.len(),
                    all == self.listing_requests@,
                    forall|j: int| 0 <= j < k ==> all[j] != id,
                decreases i - k,
            {
                k += 1;
            }
            proof {
                let earlier = all.take(i as int);
                assert(all.take(i + 1).drop_last() =~= earlier);
                assert(earlier.contains(id) <==> k < i) by {
                    if k < i {
                        assert(earlier[k as int] == id);
                    }
                }
            }
            let expanded: bool = match get_node(&self.nodes, id) {
                Some(node) => node.expanded,
                None => false,
            };
            if k == i && expanded {
                requests.push(id);
            }
            i += 1;
        }
        assert(all.take(i as int) =~= all);
        self.listing_requests = Vec::new();
        requests
    }

    /// Expands the directory `id`. Unless it has been listed, it is requested by
    /// [`take_listing_requests`](Self::take_listing_requests).
    pub fn expand(&mut self, id: NodeId)
        requires
            old(self).wf(),
            old(self).shape().has(id),
        ensures
            final(self).wf(),
            final(self).shape() == (Shape {
                nodes: old(self).shape().nodes.insert(id, old(self).shape().expanded_node(id)),
                ..old(self).shape()
            }),
            final(self).requests() == if old(self).shape().needs_listing(id) {
                old(self).requests().push(id)
            } else {
                old(self).requests()
            },
            final(self).sorted_how() == old(self).sorted_how(),
    {
        let ghost b = self.shape();
        let is_directory: bool = self.node(id).kind == Kind::Directory;
        let expanded: bool = self.node(id).expanded;
        let listed: bool = self.node(id).listed;
        proof {
            assert(b.fits(Set::empty(), id));
        }
        if is_directory && !expanded {
            let node: &mut Node = node_mut(&mut self.nodes, id);
            node.expanded = true;
            if !listed {
                self.listing_requests.push(id);
            }
        }
        proof {
            let node = b.expanded_node(id);
            assert(self.shape().nodes =~= b.nodes.insert(id, node));
            b.lemma_expand(self.shape(), self.sort, id);
        }
    }

    /// Asks for a fresh listing of the directory at `path`, or of the closest one above it that the
    /// tree holds.
    pub fn invalidate(&mut self, path: &TreePath)
        requires
            old(self).wf(),
        ensures
            final(self).wf(),
            ({
                let dir = old(self).shape().closest(old(self).shape().root, path@);
                &&& old(self).shape().has(dir)
                &&& final(self).shape() == old(self).shape().outdated(dir)
                &&& final(self).requests() == old(self).requests().push(dir)
            }),
            final(self).sorted_how() == old(self).sorted_how(),
    {
        let ghost b = self.shape();
        let mut current: NodeId = self.root;
        let mut i: usize = 0;
        assert(path@.skip(0) =~= path@);
        while i < path.components.len()
            invariant
                i <= path.components@.len(),
                self.wf(),
                self.shape() == b,
                *self == *old(self),
                b.has(current),
                b.closest(b.root, path@) == b.closest(current, path@.skip(i as int)),
            decreases path.components.len() - i,
        {
            let ghost rest = path@.skip(i as int);
            proof {
                assert(rest[0] == path.components@[i as int]@);
                assert(rest.skip(1) =~= path@.skip(i + 1));
            }
            let next: Option<NodeId> = match &path.components[i] {
                Component::Normal(name) => self.child_named(current, name),
                _ => None,
            };
            match next {
                Some(child) => {
                    current = child;
                    i += 1;
                },
                None => {
                    assert(b.closest(current, rest) == current);
                    self.outdate(current);
                    return;
                },
            }
        }
        assert(path@.skip(i as int) =~= Seq::<Part>::empty());
        self.outdate(current);
    }

    fn outdate(&mut self, id: NodeId)
        requires
            old(self).wf(),
            old(self).shape().has(id),
        ensures
            final(self).wf(),
            final(self).shape() == old(self).shape().outdated(id),
            final(self).requests() == old(self).requests().push(id),
            final(self).sorted_how() == old(self).sorted_how(),
    {
        let ghost b = self.shape();
        let node: &mut Node = node_mut(&mut self.nodes, id);
        node.listed = false;
        self.listing_requests.push(id);
        proof {
            assert(self.shape().nodes =~= b.outdated(id).nodes);
            b.lemma_outdated(self.sort, id);
        }
    }

    /// Expands the directories leading to `path` as far as they are listed. Returns the node at
    /// `path`, or where the search stopped: [`Reveal::Unlisted`] means the listing of that
    /// directory has to arrive first.
    pub fn reveal_path(&mut self, path: &TreePath) -> (revealed: Reveal)
        requires
            old(self).wf(),
        ensures
            final(self).wf(),
            revealed == old(self).shape().revealed(old(self).shape().root, path@),
            revealed matches Reveal::Found(id) ==> final(self).shape().has(id),
            revealed matches Reveal::Unlisted(id) ==> final(self).shape().has(id),
            old(self).shape().is_expanded(
                final(self).shape(),
                old(self).shape().passed(old(self).shape().root, path@),
            ),
            final(self).requests() == old(self).requests() + old(self).shape().to_list(
                old(self).shape().passed(old(self).shape().root, path@),
            ),
            final(self).sorted_how() == old(self).sorted_how(),
    {
        let ghost b = self.shape();
        let ghost none = Set::<NodeId>::empty();
        let ghost mut done = Seq::<NodeId>::empty();
        let mut current: NodeId = self.root;
        let mut i: usize = 0;
        proof {
            assert(path@.skip(0) =~= path@);
            assert(done + b.passed(b.root, path@) =~= b.passed(b.root, path@));
            assert(old(self).requests() + b.to_list(done) =~= old(self).requests());
        }
        while i < path.components.len()
            invariant
                i <= path.components@.len(),
                none == Set::<NodeId>::empty(),
                b == old(self).shape(),
                b.wf(),
                self.wf(),
                b.has(current),
                b.is_expanded(self.shape(), done),
                self.sort == old(self).sort,
                self.requests() == old(self).requests() + b.to_list(done),
                b.revealed(b.root, path@) == b.revealed(current, path@.skip(i as int)),
                b.passed(b.root, path@) == done + b.passed(current, path@.skip(i as int)),
                forall|k: int| 0 <= k < done.len() ==> b.depths[#[trigger] done[k]] < b.depths[current],
            decreases path.components.len() - i,
        {
            let ghost rest = path@.skip(i as int);
            let ghost s = self.shape();
            proof {
                assert(rest[0] == path.components@[i as int]@);
                assert(rest.skip(1) =~= path@.skip(i + 1));
                assert(!done.contains(current));
                assert(s.nodes[current] == b.nodes[current]);
            }
            match &path.components[i] {
                Component::Normal(name) => {
                    if self.node(current).kind != Kind::Directory {
                        assert(done + Seq::<NodeId>::empty() =~= done);
                        return Reveal::Missing;
                    }
                    self.expand(current);
                    let ghost before = done;
                    proof {
                        done = done.push(current);
                        let t = self.shape();
                        assert(done.drop_last() =~= before);
                        assert forall|x: NodeId| #[trigger] b.has(x) implies t.nodes[x]
                            == if done.contains(x) {
                            b.expanded_node(x)
                        } else {
                            b.nodes[x]
                        } by {
                            assert(done[before.len() as int] == current);
                            if done.contains(x) && x != current {
                                assert(before[done.index_of(x)] == x);
                            }
                            if before.contains(x) {
                                assert(done[before.index_of(x)] == x);
                            }
                            assert(s.nodes[x] == if before.contains(x) {
                                b.expanded_node(x)
                            } else {
                                b.nodes[x]
                            });
                        }
                        assert(s.has(current));
                        assert(t.nodes.dom() =~= b.nodes.dom());
                        assert(b.is_expanded(t, done));
                        assert(self.requests() =~= old(self).requests() + b.to_list(done));
                        let children = b.ids(current);
                        assert(b.fits(none, current));
                        assert forall|k: int| 0 <= k < children.len() implies t.nodes[
                            #[trigger] children[k]
                        ].name == b.nodes[children[k]].name by {
                            assert(b.holds(none, current, b.ids(current)[k]));
                        }
                        b.lemma_named_same(t, children, name@);
                        assert(t.nodes[current].children == b.nodes[current].children);
                        assert(before + seq![current] =~= done);
                    }
                    match &self.node(current).children {
                        Children::Unloaded => {
                            assert(b.named(b.ids(current), name@) is None);
                            assert(b.passed(b.root, path@) =~= done);
                            return Reveal::Unlisted(current);
                        },
                        Children::Unreadable => {
                            assert(b.named(b.ids(current), name@) is None);
                            assert(b.passed(b.root, path@) =~= done);
                            return Reveal::Missing;
                        },
                        Children::Loaded(_) => {},
                    }
                    match self.child_named(current, name) {
                        Some(child) => {
                            proof {
                                assert(b.nodes[child].parent == Some(current)) by {
                                    b.lemma_named_some(b.ids(current), name@);
                                    let k = b.ids(current).index_of(child);
                                    assert(b.holds(none, current, b.ids(current)[k]));
                                }
                                b.lemma_within_parent(none, child);
                                assert(before + (seq![current] + b.passed(child, rest.skip(1)))
                                    =~= done + b.passed(child, rest.skip(1)));
                                assert forall|k: int| 0 <= k < done.len() implies b.depths[
                                    #[trigger] done[k]
                                ] < b.depths[child] by {
                                    if k < before.len() {
                                        assert(done[k] == before[k]);
                                    }
                                }
                            }
                            current = child;
                        },
                        None => {
                            assert(b.passed(b.root, path@) =~= done);
                            return if self.node(current).listed {
                                Reveal::Missing
                            } else {
                                Reveal::Unlisted(current)
                            };
                        },
                    }
                },
                _ => {
                    assert(done + Seq::<NodeId>::empty() =~= done);
                    return Reveal::Missing;
                },
            }
            i += 1;
        }
        proof {
            assert(path@.skip(i as int) =~= Seq::<Part>::empty());
            assert(done + Seq::<NodeId>::empty() =~= done);
        }
        Reveal::Found(current)
    }
}

impl Shape {
    /// Whether `x` is on the single-child run that starts at `id`.
    pub open spec fn on_run(self, id: NodeId, x: NodeId) -> bool
        decreases self.depths[x],
    {
        x == id || match self.parent(x) {
            Some(parent) => self.depths[parent] < self.depths[x] && self.on_run(id, parent)
                && self.only_directory(parent) == Some(x),
            None => false,
        }
    }

    /// The node `x` when it is collapsed: of its entries it only knows a single directory.
    pub open spec fn collapsed_node(self, x: NodeId) -> NodeView {
        NodeView {
            expanded: false,
            listed: false,
            children: if self.only_directory(x) is Some || self.nodes[x].children is Unreadable {
                self.nodes[x].children
            } else {
                ChildrenView::Unloaded
            },
            ..self.nodes[x]
        }
    }

    /// Whether `after` is the shape with `id` and everything below it collapsed.
    pub open spec fn is_collapsed(self, after: Shape, id: NodeId) -> bool {
        &&& after.root == self.root
        &&& forall|x: NodeId| #[trigger]
            after.has(x) <==> self.has(x) && (self.within(x, id) ==> self.on_run(id, x))
        &&& forall|x: NodeId| #[trigger]
            after.has(x) ==> after.depths[x] == self.depths[x] && after.nodes[x] == if self.within(
                x,
                id,
            ) {
                self.collapsed_node(x)
            } else {
                self.nodes[x]
            }
    }

    /// Whether `x` is one of the nodes that collapsing `dirs` leaves: it is on the single-child run
    /// of each of them that it lies within.
    pub open spec fn stays_collapsed(self, dirs: Set<NodeId>, x: NodeId) -> bool {
        forall|dir: NodeId| #[trigger]
            dirs.contains(dir) && self.within(x, dir) ==> self.on_run(dir, x)
    }

    /// Whether `x` lies within one of `dirs`.
    pub open spec fn within_any(self, dirs: Set<NodeId>, x: NodeId) -> bool {
        exists|dir: NodeId| #[trigger] dirs.contains(dir) && self.within(x, dir)
    }

    /// Whether `after` is the shape with all of `dirs` and everything below them collapsed.
    pub open spec fn are_collapsed(self, after: Shape, dirs: Set<NodeId>) -> bool {
        &&& after.root == self.root
        &&& forall|x: NodeId| #[trigger]
            after.has(x) <==> self.has(x) && self.stays_collapsed(dirs, x)
        &&& forall|x: NodeId| #[trigger]
            after.has(x) ==> after.depths[x] == self.depths[x] && after.nodes[x]
                == if self.within_any(dirs, x) {
                self.collapsed_node(x)
            } else {
                self.nodes[x]
            }
    }

    /// A run leads through every directory between its ends.
    proof fn lemma_run_between(self, top: NodeId, dir: NodeId, x: NodeId)
        requires
            self.on_run(top, x),
            self.within(x, dir),
            self.within(dir, top),
        ensures
            self.on_run(top, dir),
        decreases self.depths[x],
    {
        if x != dir {
            if x == top {
                self.lemma_depth(x, dir);
                self.lemma_depth(dir, top);
            } else {
                self.lemma_run_between(top, dir, self.parent(x)->0);
            }
        }
    }

    /// What is left after `dirs` were collapsed has the runs that it had.
    proof fn lemma_runs_stay(self, after: Shape, dirs: Set<NodeId>, top: NodeId, x: NodeId)
        requires
            self.wf(),
            after.wf(),
            self.are_collapsed(after, dirs),
            after.has(x),
        ensures
            after.on_run(top, x) == self.on_run(top, x),
        decreases self.depths[x],
    {
        assert(self.fits(Set::empty(), x));
        assert(after.fits(Set::empty(), x));
        assert(after.parent(x) == self.parent(x));
        if x != top && self.parent(x) is Some {
            let parent = self.parent(x)->0;
            self.lemma_runs_stay(after, dirs, top, parent);
            self.lemma_step_stays(after, dirs, parent);
        }
    }

    /// What is left after `dirs` were collapsed still leads to the same single directory, and is
    /// the same when it is collapsed.
    proof fn lemma_step_stays(self, after: Shape, dirs: Set<NodeId>, x: NodeId)
        requires
            self.wf(),
            after.wf(),
            self.are_collapsed(after, dirs),
            after.has(x),
        ensures
            after.only_directory(x) == self.only_directory(x),
            after.collapsed_node(x) == self.collapsed_node(x),
    {
        let none = Set::<NodeId>::empty();
        assert(after.fits(none, x));
        assert(self.fits(none, x));
        if after.ids(x).len() == 1 {
            assert(after.holds(none, x, after.ids(x)[0]));
        }
    }

    /// Collapsing one more directory.
    pub proof fn lemma_collapse_one(
        self,
        middle: Shape,
        after: Shape,
        dirs: Set<NodeId>,
        dir: NodeId,
    )
        requires
            self.wf(),
            middle.wf(),
            self.are_collapsed(middle, dirs),
            middle.is_collapsed(after, dir),
        ensures
            self.are_collapsed(after, dirs.insert(dir)),
    {
        let none = Set::<NodeId>::empty();
        let all = dirs.insert(dir);
        assert(middle.places_kept(self)) by {
            assert forall|x: NodeId| #[trigger] middle.has(x) implies self.parent(x)
                == middle.parent(x) && self.depths[x] == middle.depths[x] by {}
        }
        assert forall|x: NodeId| #[trigger] middle.has(x) implies middle.within(x, dir)
            == self.within(x, dir) && middle.on_run(dir, x) == self.on_run(dir, x)
            && middle.collapsed_node(x) == self.collapsed_node(x) by {
            middle.lemma_places_kept(none, self, x, dir);
            self.lemma_runs_stay(middle, dirs, dir, x);
            self.lemma_step_stays(middle, dirs, x);
        }
        assert(all.contains(dir));
        assert(forall|d: NodeId| #[trigger] dirs.contains(d) ==> all.contains(d));
        assert forall|x: NodeId| #[trigger] after.has(x) <==> self.has(x) && self.stays_collapsed(
            all,
            x,
        ) by {
            if self.has(x) && self.stays_collapsed(all, x) {
                assert(self.stays_collapsed(dirs, x));
                assert(middle.has(x));
            }
            if after.has(x) {
                assert(middle.has(x));
            }
        }
        assert forall|x: NodeId| #[trigger] after.has(x) implies after.depths[x] == self.depths[x]
            && after.nodes[x] == if self.within_any(all, x) {
            self.collapsed_node(x)
        } else {
            self.nodes[x]
        } by {
            assert(middle.has(x));
            if self.within_any(dirs, x) {
                let d = choose|d: NodeId| #[trigger] dirs.contains(d) && self.within(x, d);
                assert(all.contains(d));
            }
        }
    }

    /// A directory that went when others were collapsed is as good as collapsed.
    pub proof fn lemma_collapse_gone(self, after: Shape, dirs: Set<NodeId>, dir: NodeId)
        requires
            self.wf(),
            self.are_collapsed(after, dirs),
            self.has(dir),
            !after.has(dir),
        ensures
            self.are_collapsed(after, dirs.insert(dir)),
    {
        let all = dirs.insert(dir);
        let top = choose|top: NodeId| #[trigger]
            dirs.contains(top) && self.within(dir, top) && !self.on_run(top, dir);
        assert(dirs.contains(top) && self.within(dir, top) && !self.on_run(top, dir));
        assert(forall|d: NodeId| #[trigger] dirs.contains(d) ==> all.contains(d));
        assert forall|x: NodeId| #[trigger] self.has(x) && self.within(x, dir) implies !after.has(
            x,
        ) by {
            self.lemma_within_transitive(x, dir, top);
            if self.on_run(top, x) {
                self.lemma_run_between(top, dir, x);
            }
        }
        assert forall|x: NodeId| #[trigger] after.has(x) <==> self.has(x) && self.stays_collapsed(
            all,
            x,
        ) by {
            if self.has(x) && self.stays_collapsed(all, x) {
                assert(self.stays_collapsed(dirs, x));
            }
            if after.has(x) {
                assert(self.has(x));
            }
        }
        assert forall|x: NodeId| #[trigger] after.has(x) implies self.within_any(all, x)
            == self.within_any(dirs, x) by {
            assert(self.has(x));
            if self.within_any(dirs, x) {
                let d = choose|d: NodeId| #[trigger] dirs.contains(d) && self.within(x, d);
                assert(all.contains(d));
            }
        }
    }

    /// A node below `id` is one of the steps from `id` to `last`, or lies below `last`.
    proof fn lemma_off_run(
        self,
        id: NodeId,
        steps: Set<NodeId>,
        last: NodeId,
        x: NodeId,
    )
        requires
            self.wf(),
            self.has(x),
            self.within(x, id),
            steps.contains(id),
            forall|y: NodeId| #[trigger]
                steps.contains(y) && y != last ==> self.only_directory(y) is Some && steps.contains(
                    self.only_directory(y)->0,
                ),
        ensures
            steps.contains(x) || self.within(x, last),
        decreases self.depths[x],
    {
        let none = Set::<NodeId>::empty();
        assert(self.fits(none, x));
        if x != id {
            let parent = self.parent(x)->0;
            self.lemma_within_parent(none, x);
            self.lemma_off_run(id, steps, last, parent);
            if self.within(parent, last) {
                self.lemma_within_transitive(x, parent, last);
            } else {
                assert(parent != last);
                assert(self.ids(parent).contains(x));
                assert(self.ids(parent)[0] == x);
            }
        }
    }

    /// The steps from `id` to `last`, where the run ends, are the run.
    proof fn lemma_steps_are_run(self, id: NodeId, steps: Set<NodeId>, last: NodeId, x: NodeId)
        requires
            steps.contains(id),
            self.only_directory(last) is None,
            forall|y: NodeId| #[trigger]
                steps.contains(y) && y != last ==> self.only_directory(y) is Some && steps.contains(
                    self.only_directory(y)->0,
                ),
            self.on_run(id, x),
        ensures
            steps.contains(x),
        decreases self.depths[x],
    {
        if x != id {
            self.lemma_steps_are_run(id, steps, last, self.parent(x)->0);
        }
    }

    proof fn lemma_collapsed_in_order(self, after: Shape, sort: FileTreeSort, id: NodeId)
        requires
            self.wf(),
            self.ordered(sort),
            after.wf(),
            self.is_collapsed(after, id),
        ensures
            after.ordered(sort),
    {
        let none = Set::<NodeId>::empty();
        assert forall|x: NodeId| after.has(x) implies #[trigger] after.lists_in_order(sort, x) by {
            assert(self.has(x));
            assert(self.lists_in_order(sort, x));
            assert(after.fits(none, x));
            assert(self.fits(none, x));
            if after.ids(x) == self.ids(x) {
                let ids = self.ids(x);
                assert forall|i: int| 0 <= i < ids.len() implies after.nodes[#[trigger] ids[i]].name
                    == self.nodes[ids[i]].name && after.nodes[ids[i]].kind
                    == self.nodes[ids[i]].kind by {
                    assert(after.holds(none, x, after.ids(x)[i]));
                    assert(after.has(ids[i]));
                }
                self.lemma_still_in_order(after, sort, x);
            } else {
                assert(after.ids(x).len() == 0);
            }
        }
    }
}

impl Tree {
    /// Collapses the directory `id` and everything below it, forgetting all entries below it but
    /// its single-child run.
    pub fn collapse(&mut self, id: NodeId)
        requires
            old(self).wf(),
            old(self).shape().has(id),
        ensures
            final(self).wf(),
            if id == old(self).shape().root {
                final(self).shape() == old(self).shape()
            } else {
                old(self).shape().is_collapsed(final(self).shape(), id)
            },
            final(self).sorted_how() == old(self).sorted_how(),
            final(self).requests() == old(self).requests(),
    {
        if id == self.root {
            return;
        }
        let ghost b = self.shape();
        let ghost none = Set::<NodeId>::empty();
        let ghost mut steps = Set::<NodeId>::empty().insert(id);
        let mut current: NodeId = id;
        self.collapse_node(current);
        proof {
            assert forall|x: NodeId| #[trigger] b.has(x) implies self.shape().nodes[x]
                == b.stepped_node(steps, x) by {}
            assert(self.shape().nodes.dom() =~= b.nodes.dom());
        }
        loop
            invariant
                none == Set::<NodeId>::empty(),
                b == old(self).shape(),
                b.wf(),
                b.has(current),
                steps.contains(id),
                steps.contains(current),
                steps.finite(),
                steps.subset_of(b.nodes.dom()),
                forall|y: NodeId| #[trigger]
                    steps.contains(y) ==> b.on_run(id, y) && b.within(y, id) && b.depths[y]
                        <= b.depths[current],
                forall|y: NodeId| #[trigger]
                    steps.contains(y) && y != current ==> b.only_directory(y) is Some
                        && steps.contains(b.only_directory(y)->0),
                self.shape().wf(),
                self.shape().nodes.dom() == b.nodes.dom(),
                self.shape().depths == b.depths,
                self.shape().root == b.root,
                forall|x: NodeId| #[trigger]
                    b.has(x) ==> self.shape().nodes[x] == b.stepped_node(steps, x),
                self.sort == old(self).sort,
                self.listing_requests@ == old(self).listing_requests@,
            ensures
                b.only_directory(current) is None,
            decreases b.nodes.len() - steps.len(),
        {
            let ghost s = self.shape();
            proof {
                assert(b.fits(none, current));
                assert(s.nodes[current] == b.stepped_node(steps, current));
            }
            let children: Vec<NodeId> = self.children(current);
            if children.len() != 1 {
                break;
            }
            let child: NodeId = children[0];
            proof {
                assert(b.holds(none, current, b.ids(current)[0]));
                assert(s.nodes[child] == b.stepped_node(steps, child));
            }
            if self.node(child).kind != Kind::Directory {
                break;
            }
            proof {
                b.lemma_within_parent(none, child);
                b.lemma_within_transitive(child, current, id);
                assert(b.only_directory(current) == Some(child));
                assert(!steps.contains(child));
                vstd::set_lib::lemma_len_subset(steps.insert(child), b.nodes.dom());
            }
            self.collapse_node(child);
            proof {
                let next = steps.insert(child);
                assert forall|x: NodeId| #[trigger] b.has(x) implies self.shape().nodes[x]
                    == b.stepped_node(next, x) by {
                    assert(s.nodes[x] == b.stepped_node(steps, x));
                }
                assert(self.shape().nodes.dom() =~= b.nodes.dom());
                assert forall|y: NodeId| #[trigger] next.contains(y) && y != child implies b.only_directory(
                    y,
                ) is Some && next.contains(b.only_directory(y)->0) by {
                    assert(steps.contains(y));
                }
                steps = next;
            }
            current = child;
        }
        let ghost s = self.shape();
        proof {
            assert(s.nodes[current] == b.stepped_node(steps, current));
            assert(b.fits(none, current));
        }
        let forget: bool = match &self.node(current).children {
            Children::Loaded(_) => true,
            _ => false,
        };
        if forget {
            let mut trash: Vec<NodeId> = Vec::new();
            assert(self.live(trash@).nodes =~= s.nodes);
            self.forget_entries(current, Children::Unloaded, false, &mut trash);
            self.empty_trash(&trash);
        }
        proof {
            let a = self.shape();
            if !forget {
                assert(s.only_below(a, current));
                assert(a.ids(current).len() == 0);
            }
            assert(a.ids(current).len() == 0);
            assert forall|x: NodeId| #[trigger] b.has(x) implies s.parent(x) == b.parent(x)
                && s.depths[x] == b.depths[x] by {
                assert(s.nodes[x] == b.stepped_node(steps, x));
            }
            assert forall|x: NodeId| #[trigger] a.has(x) <==> b.has(x) && (b.within(x, id)
                ==> b.on_run(id, x)) by {
                if a.has(x) && a.within(x, current) && x != current {
                    let y = a.lemma_step(none, x, current);
                    assert(a.fits(none, y));
                }
                if b.has(x) {
                    b.lemma_places_kept(none, s, x, current);
                    assert(s.has(x));
                    if b.within(x, id) {
                        b.lemma_off_run(id, steps, current, x);
                        if b.on_run(id, x) {
                            b.lemma_steps_are_run(id, steps, current, x);
                        }
                        if steps.contains(x) {
                            if b.within(x, current) {
                                b.lemma_depth(x, current);
                            }
                        }
                    } else {
                        if b.within(x, current) {
                            b.lemma_within_transitive(x, current, id);
                        }
                    }
                }
                if a.has(x) && x != current {
                    assert(s.has(x) && !s.within(x, current));
                }
            }
            assert forall|x: NodeId| #[trigger] a.has(x) implies a.depths[x] == b.depths[x]
                && a.nodes[x] == if b.within(x, id) {
                b.collapsed_node(x)
            } else {
                b.nodes[x]
            } by {
                assert(b.has(x));
                assert(s.has(x));
                b.lemma_places_kept(none, s, x, current);
                if a.within(x, current) && x != current {
                    let y = a.lemma_step(none, x, current);
                    assert(a.fits(none, y));
                }
                if b.within(x, id) {
                    b.lemma_steps_are_run(id, steps, current, x);
                } else {
                    assert(!steps.contains(x));
                }
            }
            b.lemma_collapsed_in_order(a, self.sort, id);
        }
    }

    /// Marks the node `id` as collapsed.
    fn collapse_node(&mut self, id: NodeId)
        requires
            old(self).shape().wf(),
            old(self).shape().has(id),
        ensures
            final(self).shape().wf(),
            final(self).shape() == (Shape {
                nodes: old(self).shape().nodes.insert(
                    id,
                    (NodeView { expanded: false, listed: false, ..old(self).shape().nodes[id] }),
                ),
                ..old(self).shape()
            }),
            final(self).sort == old(self).sort,
            final(self).listing_requests@ == old(self).listing_requests@,
    {
        let ghost b = self.shape();
        let node: &mut Node = node_mut(&mut self.nodes, id);
        node.expanded = false;
        node.listed = false;
        proof {
            let none = Set::<NodeId>::empty();
            let node = NodeView { expanded: false, listed: false, ..b.nodes[id] };
            assert(b.fits(none, id));
            assert forall|x: NodeId|
                b.has(x) && #[trigger] b.parent(x) == Some(id) implies b.ids(id).contains(x) by {
                assert(b.fits(none, x));
            }
            b.lemma_update(none, id, node, none);
        }
    }
}

impl Shape {
    /// The node `x` where the nodes `steps` are marked as collapsed.
    spec fn stepped_node(self, steps: Set<NodeId>, x: NodeId) -> NodeView {
        if steps.contains(x) {
            NodeView { expanded: false, listed: false, ..self.nodes[x] }
        } else {
            self.nodes[x]
        }
    }
}

impl Shape {
    /// What is known of the entries of `x`, sorted in another way.
    pub open spec fn sorted_children(self, sort: FileTreeSort, x: NodeId) -> ChildrenView {
        match self.nodes[x].children {
            ChildrenView::Loaded(ids) => ChildrenView::Loaded(
                sorted_by(ids, self.comes_before(sort)),
            ),
            children => children,
        }
    }

    /// Whether `after` is the shape with the entries of every directory sorted in another way.
    pub open spec fn is_sorted(self, after: Shape, sort: FileTreeSort) -> bool {
        &&& after.root == self.root
        &&& after.depths == self.depths
        &&& after.nodes.dom() == self.nodes.dom()
        &&& forall|x: NodeId| #[trigger]
            self.has(x) ==> after.nodes[x] == NodeView {
                children: self.sorted_children(sort, x),
                ..self.nodes[x]
            }
    }

    /// A directory can list its entries in another order.
    proof fn lemma_resort(self, id: NodeId, le: spec_fn(NodeId, NodeId) -> bool)
        requires
            self.wf(),
            self.has(id),
            self.nodes[id].children is Loaded,
        ensures
            self.can_list(
                Set::empty(),
                id,
                ChildrenView::Loaded(sorted_by(self.ids(id), le)),
                Set::empty(),
            ),
    {
        let none = Set::<NodeId>::empty();
        let ids = self.ids(id);
        let sorted = sorted_by(ids, le);
        assert(self.fits(none, id));
        lemma_sorted_by(ids, le);
        lemma_sorted_by_distinct(ids, le);
        assert forall|i: int| 0 <= i < sorted.len() implies ids.contains(#[trigger] sorted[i])
            && self.holds(none, id, sorted[i]) by {
            assert(sorted.contains(sorted[i]));
            lemma_sorted_by_contains(ids, le, sorted[i]);
            assert(self.holds(none, id, self.ids(id)[ids.index_of(sorted[i])]));
        }
        assert forall|i: int, j: int|
            #![trigger sorted[i], sorted[j]]
            0 <= i < j < sorted.len() implies self.nodes[sorted[i]].name
            != self.nodes[sorted[j]].name by {
            let p = ids.index_of(sorted[i]);
            let q = ids.index_of(sorted[j]);
            assert(self.ids(id)[p] == sorted[i] && self.ids(id)[q] == sorted[j]);
            assert(p != q);
            if p < q {
                assert(self.nodes[self.ids(id)[p]].name != self.nodes[self.ids(id)[q]].name);
            } else {
                assert(self.nodes[self.ids(id)[q]].name != self.nodes[self.ids(id)[p]].name);
            }
        }
        assert forall|x: NodeId|
            self.has(x) && #[trigger] self.parent(x) == Some(id) implies sorted.contains(x) by {
            assert(self.fits(none, x));
            lemma_sorted_by_contains(ids, le, x);
        }
    }
}

impl Tree {
    pub fn set_sort(&mut self, sort: FileTreeSort)
        requires
            old(self).wf(),
        ensures
            final(self).wf(),
            if sort == old(self).sorted_how() {
                final(self).shape() == old(self).shape()
            } else {
                old(self).shape().is_sorted(final(self).shape(), sort)
            },
            final(self).sorted_how() == sort,
            final(self).requests() == old(self).requests(),
    {
        if self.sort == sort {
            return;
        }
        self.sort = sort;
        let ghost b = self.shape();
        let ghost none = Set::<NodeId>::empty();
        let ids: Vec<NodeId> = node_ids(&self.nodes);
        let mut i: usize = 0;
        while i < ids.len()
            invariant
                i <= ids@.len(),
                b == old(self).shape(),
                b.wf(),
                none == Set::<NodeId>::empty(),
                self.shape().wf(),
                self.shape().root == b.root,
                self.shape().depths == b.depths,
                self.shape().nodes.dom() == b.nodes.dom(),
                ids@.no_duplicates(),
                forall|x: NodeId| #[trigger] ids@.contains(x) <==> b.has(x),
                forall|k: int|
                    0 <= k < ids@.len() ==> self.shape().nodes[#[trigger] ids@[k]] == if k < i {
                        NodeView {
                            children: b.sorted_children(sort, ids@[k]),
                            ..b.nodes[ids@[k]]
                        }
                    } else {
                        b.nodes[ids@[k]]
                    },
                self.sort == sort,
                self.listing_requests@ == old(self).listing_requests@,
            decreases ids.len() - i,
        {
            let id: NodeId = ids[i];
            let ghost s = self.shape();
            proof {
                assert(ids@.contains(ids@[i as int]));
                assert(s.has(id));
                assert(s.nodes[ids@[i as int]] == b.nodes[id]);
            }
            let listed: bool = self.node(id).listed;
            let loaded: bool = match &self.node(id).children {
                Children::Loaded(_) => true,
                _ => false,
            };
            if loaded {
                let children: Vec<NodeId> = self.children(id);
                proof {
                    assert(s.fits(none, id));
                    assert forall|k: int| 0 <= k < children@.len() implies s.has(
                        #[trigger] children@[k],
                    ) by {
                        assert(s.holds(none, id, s.ids(id)[k]));
                    }
                }
                let sorted: Vec<NodeId> = self.sort_children(&children);
                proof {
                    let le = s.comes_before(sort);
                    let first = b.comes_before(sort);
                    assert forall|x: NodeId, y: NodeId|
                        #![trigger le(x, y)]
                        #![trigger first(x, y)]
                        children@.contains(x) && children@.contains(y) implies le(x, y) == first(
                        x,
                        y,
                    ) by {
                        assert(s.has(children@[children@.index_of(x)]));
                        assert(s.has(children@[children@.index_of(y)]));
                        assert(ids@.contains(x) && ids@.contains(y));
                        assert(ids@[ids@.index_of(x)] == x);
                        assert(ids@[ids@.index_of(y)] == y);
                    }
                    lemma_sorted_by_agree(children@, le, first);
                    s.lemma_resort(id, le);
                }
                proof {
                    self.lemma_no_trash();
                }
                self.set_entries(
                    id,
                    Children::Loaded(sorted),
                    listed,
                    Ghost(Seq::empty()),
                    Ghost(none),
                    Ghost(none),
                );
                proof {
                    self.lemma_no_trash();
                    assert(self.shape().nodes.dom() =~= b.nodes.dom());
                }
            }
            i += 1;
        }
        proof {
            let a = self.shape();
            assert forall|x: NodeId| #[trigger] b.has(x) implies a.nodes[x] == (NodeView {
                children: b.sorted_children(sort, x),
                ..b.nodes[x]
            }) by {
                assert(ids@.contains(x));
                assert(ids@[ids@.index_of(x)] == x);
            }
            assert forall|x: NodeId| a.has(x) implies #[trigger] a.lists_in_order(sort, x) by {
                assert(b.has(x));
                let le = b.comes_before(sort);
                let list = b.ids(x);
                b.lemma_comes_before_is_total(sort);
                lemma_sorted_by(list, le);
                assert(b.fits(none, x));
                if a.nodes[x].children is Loaded {
                    let sorted = a.ids(x);
                    assert forall|i: int, j: int|
                        #![trigger sorted[i], sorted[j]]
                        0 <= i < j < sorted.len() implies a.comes_before(sort)(
                        sorted[i],
                        sorted[j],
                    ) by {
                        assert(le(sorted[i], sorted[j]));
                        assert(a.fits(none, x));
                        assert(a.holds(none, x, a.ids(x)[i]));
                        assert(a.holds(none, x, a.ids(x)[j]));
                        assert(b.has(sorted[i]) && b.has(sorted[j]));
                    }
                }
            }
        }
    }

    /// Every directory whose entries are loaded, i.e. the directories worth watching.
    pub fn loaded_directories(&self) -> (ids: Vec<NodeId>)
        ensures
            ids@.no_duplicates(),
            forall|id: NodeId| #[trigger]
                ids@.contains(id) <==> self.shape().has(id)
                    && self.shape().nodes[id].children is Loaded,
    {
        let all: Vec<NodeId> = node_ids(&self.nodes);
        let mut ids: Vec<NodeId> = Vec::new();
        let mut i: usize = 0;
        while i < all.len()
            invariant
                i <= all@.len(),
                all@.no_duplicates(),
                forall|id: NodeId| #[trigger] all@.contains(id) <==> self.shape().has(id),
                ids@ == select(all@.take(i as int), self.loaded()),
            decreases all.len() - i,
        {
            proof {
                assert(all@.contains(all@[i as int]));
                assert(all@.take(i + 1).drop_last() =~= all@.take(i as int));
            }
            let loaded: bool = match &self.node(all[i]).children {
                Children::Loaded(_) => true,
                _ => false,
            };
            if loaded {
                ids.push(all[i]);
            }
            i += 1;
        }
        proof {
            assert(all@.take(i as int) =~= all@);
            lemma_select(all@, self.loaded());
            lemma_select_distinct(all@, self.loaded());
        }
        ids
    }

    /// Every directory that is expanded.
    pub fn expanded_directories(&self) -> (ids: Vec<NodeId>)
        ensures
            ids@.no_duplicates(),
            forall|id: NodeId| #[trigger]
                ids@.contains(id) <==> self.shape().has(id) && self.shape().nodes[id].expanded,
    {
        let all: Vec<NodeId> = node_ids(&self.nodes);
        let mut ids: Vec<NodeId> = Vec::new();
        let mut i: usize = 0;
        while i < all.len()
            invariant
                i <= all@.len(),
                all@.no_duplicates(),
                forall|id: NodeId| #[trigger] all@.contains(id) <==> self.shape().has(id),
                ids@ == select(all@.take(i as int), self.expanded()),
            decreases all.len() - i,
        {
            proof {
                assert(all@.contains(all@[i as int]));
                assert(all@.take(i + 1).drop_last() =~= all@.take(i as int));
            }
            if self.node(all[i]).expanded {
                ids.push(all[i]);
            }
            i += 1;
        }
        proof {
            assert(all@.take(i as int) =~= all@);
            lemma_select(all@, self.expanded());
            lemma_select_distinct(all@, self.expanded());
        }
        ids
    }

    spec fn loaded(&self) -> spec_fn(NodeId) -> bool {
        |id: NodeId| self.shape().nodes[id].children is Loaded
    }

    spec fn expanded(&self) -> spec_fn(NodeId) -> bool {
        |id: NodeId| self.shape().nodes[id].expanded
    }
}

impl Entry {
    pub fn new(name: Vec<u8>, kind: Kind) -> (entry: Entry)
        ensures
            entry.name@ == name@,
            entry.kind == kind,
            !entry.ignored,
            entry.only_child is None,
    {
        Entry { name, kind, ignored: false, only_child: None }
    }
}

/// Whether a probe found nothing but directories.
fn finds_directories(only_child: &Option<Box<Entry>>) -> (directories: bool)
    ensures
        directories == run_of_directories(*only_child),
    decreases only_child,
{
    match only_child {
        Some(entry) => entry.kind == Kind::Directory && finds_directories(&entry.only_child),
        None => true,
    }
}

/// What is left of `room` when each directory that a probe found takes one place.
fn room_after(only_child: &Option<Box<Entry>>, room: u32) -> (left: Option<u32>)
    ensures
        match left {
            Some(left) => left == room - run_names(*only_child).len(),
            None => run_names(*only_child).len() > room,
        },
    decreases only_child,
{
    match only_child {
        Some(entry) => if room == 0 {
            None
        } else {
            room_after(&entry.only_child, room - 1)
        },
        None => Some(room),
    }
}

impl Tree {
    /// Whether `listing` can be merged into `dir` with [`apply_listing`](Self::apply_listing): it is
    /// a node of the tree, no two entries have the same name, the probes found directories only, and
    /// there is room.
    pub fn accepts(&self, dir: NodeId, listing: &Listing) -> (accepts: bool)
        ensures
            accepts == (is_listing(*listing) && self.shape().takes(dir, *listing)),
    {
        match get_node(&self.nodes, dir) {
            Some(_) => {},
            None => {
                return false;
            },
        }
        match listing {
            None => true,
            Some(entries) => {
                let count: usize = node_count(&self.nodes);
                if count >= u32::MAX as usize {
                    return false;
                }
                let mut room: u32 = u32::MAX - 1 - count as u32;
                if entries.len() > room as usize {
                    return false;
                }
                room -= entries.len() as u32;
                let ghost total = room;
                let mut i: usize = 0;
                while i < entries.len()
                    invariant
                        i <= entries@.len(),
                        *listing == Some(*entries),
                        self.shape().nodes.len() + entries@.len() + total == u32::MAX - 1,
                        room + runs_from(entries@, 0) == total + runs_from(entries@, i as int),
                        forall|k: int|
                            0 <= k < i ==> run_of_directories((#[trigger] entries@[k]).only_child),
                        forall|j: int, k: int|
                            #![trigger entries@[j], entries@[k]]
                            0 <= j < k < i ==> entries@[j].name@ != entries@[k].name@,
                    decreases entries.len() - i,
                {
                    if !finds_directories(&entries[i].only_child) {
                        assert(!run_of_directories(entries@[i as int].only_child));
                        return false;
                    }
                    match room_after(&entries[i].only_child, room) {
                        Some(left) => {
                            room = left;
                        },
                        None => {
                            return false;
                        },
                    }
                    let mut k: usize = 0;
                    while k < i
                        invariant
                            k <= i < entries@.len(),
                            *listing == Some(*entries),
                            forall|j: int|
                                0 <= j < k ==> (#[trigger] entries@[j]).name@
                                    != entries@[i as int].name@,
                        decreases i - k,
                    {
                        if same_name(&entries[k].name, &entries[i].name) {
                            assert(entries@[k as int].name@ == entries@[i as int].name@);
                            return false;
                        }
                        k += 1;
                    }
                    i += 1;
                }
                true
            },
        }
    }
}

/// A node for an entry that the tree does not know yet.
pub open spec fn new_node(parent: NodeId, name: Seq<u8>, kind: Kind) -> NodeView {
    NodeView {
        name,
        kind,
        parent: Some(parent),
        children: ChildrenView::Unloaded,
        expanded: false,
        listed: false,
    }
}

impl Shape {
    /// Whether the directory `id` can list `children` where the `loose` nodes become the nodes
    /// `after_loose`: it then lists just those below it that are not loose.
    spec fn can_list(
        self,
        loose: Set<NodeId>,
        id: NodeId,
        children: ChildrenView,
        after_loose: Set<NodeId>,
    ) -> bool {
        &&& self.can_hold(id, children.ids(), after_loose)
        &&& forall|x: NodeId|
            self.has(x) && #[trigger] self.parent(x) == Some(id) && !after_loose.contains(x)
                ==> children.ids().contains(x)
        &&& forall|x: NodeId| #[trigger] after_loose.contains(x) ==> self.has(x) && x != self.root
        &&& forall|x: NodeId|
            self.has(x) && #[trigger] self.parent(x) != Some(id) ==> (loose.contains(x)
                <==> after_loose.contains(x))
    }

    spec fn can_hold(self, id: NodeId, ids: Seq<NodeId>, loose: Set<NodeId>) -> bool {
        &&& ids.no_duplicates()
        &&& forall|i: int| 0 <= i < ids.len() ==> self.holds(loose, id, #[trigger] ids[i])
        &&& forall|i: int, j: int|
            #![trigger ids[i], ids[j]]
            0 <= i < j < ids.len() ==> self.nodes[ids[i]].name != self.nodes[ids[j]].name
    }

    /// A directory can forget its entries, which become loose.
    proof fn lemma_forget(self, id: NodeId, children: ChildrenView)
        requires
            self.wf(),
            self.has(id),
            !(children is Loaded),
        ensures
            self.can_list(Set::empty(), id, children, self.ids(id).to_set()),
            self.ids(id).no_duplicates(),
            forall|i: int|
                0 <= i < self.ids(id).len() ==> self.has(#[trigger] self.ids(id)[i]) && self.parent(
                    self.ids(id)[i],
                ) == Some(id),
    {
        let none = Set::<NodeId>::empty();
        assert(self.fits(none, id));
        let ids = self.ids(id);
        assert forall|i: int| 0 <= i < ids.len() implies self.has(#[trigger] ids[i]) && self.parent(
            ids[i],
        ) == Some(id) by {
            assert(self.holds(none, id, self.ids(id)[i]));
        }
        assert forall|x: NodeId| #[trigger] ids.to_set().contains(x) implies self.has(x) && x
            != self.root by {
            assert(ids[ids.index_of(x)] == x);
            assert(self.fits(none, x));
        }
        assert forall|x: NodeId|
            self.has(x) && #[trigger] self.parent(x) == Some(id) && !ids.to_set().contains(
                x,
            ) implies Seq::<NodeId>::empty().contains(x) by {
            assert(self.fits(none, x));
        }
        assert forall|x: NodeId| self.has(x) && #[trigger] self.parent(x) != Some(id) implies (
        none.contains(x) <==> ids.to_set().contains(x)) by {
            if ids.contains(x) {
                assert(ids[ids.index_of(x)] == x);
            }
        }
    }
}

/// Whether no two of the entries have the same name, as in a directory.
pub open spec fn distinct_names(entries: Seq<Entry>) -> bool {
    forall|i: int, j: int|
        #![trigger entries[i], entries[j]]
        0 <= i < j < entries.len() ==> entries[i].name@ != entries[j].name@
}

/// Whether `listing` can be that of a directory: no two entries have the same name, and the probes
/// found directories only.
pub open spec fn is_listing(listing: Listing) -> bool {
    listing matches Some(entries) ==> distinct_names(entries@) && runs_of_directories(entries@)
}

impl Shape {
    /// Whether there is a node `dir` and room for what is listed in it.
    pub open spec fn takes(self, dir: NodeId, listing: Listing) -> bool {
        &&& self.has(dir)
        &&& listing matches Some(entries) ==> self.nodes.len() + room_for(entries@) < u32::MAX
    }
}

impl Shape {
    /// The known entry of `dir` that an entry with this name and kind is: one with the same name
    /// that is a directory just if it is one.
    pub open spec fn reusable(self, dir: NodeId, name: Seq<u8>, kind: Kind) -> Option<NodeId> {
        match self.named(self.ids(dir), name) {
            Some(known) => if self.is_directory(known) == (kind is Directory) {
                Some(known)
            } else {
                None
            },
            None => None,
        }
    }

    /// Whether `id` is the node for `entry` of `dir` in `after`, but for what lies below it.
    spec fn taken_over(self, after: Shape, dir: NodeId, entry: Entry, id: NodeId) -> bool {
        &&& after.has(id)
        &&& match self.reusable(dir, entry.name@, entry.kind) {
            Some(known) => id == known && after.nodes[id] == (NodeView {
                kind: entry.kind,
                ..self.nodes[known]
            }),
            None => !self.has(id) && after.nodes[id] == new_node(dir, entry.name@, entry.kind),
        }
    }

    /// Whether `ids` are the nodes for `entries` of `dir` in `after`, which is the same otherwise,
    /// but for `dir`, which has forgotten its entries.
    spec fn matched(self, after: Shape, dir: NodeId, entries: Seq<Entry>, ids: Seq<NodeId>) -> bool {
        &&& after.root == self.root
        &&& self.places_kept(after)
        &&& forall|x: NodeId| #[trigger] self.has(x) ==> after.has(x)
        &&& after.nodes[dir] == NodeView { children: ChildrenView::Unloaded, ..self.nodes[dir] }
        &&& forall|x: NodeId| #[trigger]
            self.has(x) && x != dir && !ids.contains(x) ==> after.nodes[x] == self.nodes[x]
        &&& forall|x: NodeId| #[trigger]
            after.has(x) && !self.has(x) ==> ids.contains(x) && after.parent(x) == Some(dir)
        &&& ids.len() == entries.len()
        &&& forall|k: int|
            0 <= k < ids.len() ==> self.taken_over(after, dir, entries[k], #[trigger] ids[k])
    }

    proof fn lemma_reusable(self, dir: NodeId, name: Seq<u8>, kind: Kind)
        requires
            self.wf(),
            self.has(dir),
        ensures
            self.reusable(dir, name, kind) matches Some(known) ==> self.has(known) && self.parent(
                known,
            ) == Some(dir) && self.nodes[known].name == name && self.is_directory(known) == (
            kind is Directory) && known != dir && self.ids(dir).contains(known),
    {
        if self.named(self.ids(dir), name) is Some {
            self.lemma_named_some(self.ids(dir), name);
            let known = self.named(self.ids(dir), name)->0;
            let ids = self.ids(dir);
            assert(ids[ids.index_of(known)] == known);
            assert(self.fits(Set::empty(), dir));
            assert(self.holds(Set::empty(), dir, self.ids(dir)[ids.index_of(known)]));
            self.lemma_within_parent(Set::empty(), known);
        }
    }

    /// A known node keeps all but its kind.
    proof fn lemma_matched_old(
        self,
        after: Shape,
        dir: NodeId,
        entries: Seq<Entry>,
        ids: Seq<NodeId>,
        x: NodeId,
    )
        requires
            self.wf(),
            self.has(dir),
            self.has(x),
            x != dir,
            self.matched(after, dir, entries, ids),
        ensures
            after.nodes[x] == (NodeView { kind: after.nodes[x].kind, ..self.nodes[x] }),
            after.is_directory(x) == self.is_directory(x),
    {
        if ids.contains(x) {
            let k = ids.index_of(x);
            assert(self.taken_over(after, dir, entries[k], ids[k]));
            self.lemma_reusable(dir, entries[k].name@, entries[k].kind);
        }
    }

    proof fn lemma_matched_push(
        self,
        middle: Shape,
        after: Shape,
        dir: NodeId,
        entries: Seq<Entry>,
        ids: Seq<NodeId>,
        entry: Entry,
        id: NodeId,
    )
        requires
            self.wf(),
            self.has(dir),
            self.matched(middle, dir, entries, ids),
            after.root == middle.root,
            after.nodes.dom() == middle.nodes.dom().insert(id),
            forall|x: NodeId| x != id ==> #[trigger] after.nodes[x] == middle.nodes[x],
            forall|x: NodeId| #[trigger] middle.has(x) ==> after.depths[x] == middle.depths[x],
            match self.reusable(dir, entry.name@, entry.kind) {
                Some(known) => id == known && middle.has(id) && after.nodes[id] == (NodeView {
                    kind: entry.kind,
                    ..middle.nodes[id]
                }),
                None => !middle.has(id) && after.nodes[id] == new_node(
                    dir,
                    entry.name@,
                    entry.kind,
                ),
            },
            forall|k: int| 0 <= k < entries.len() ==> (#[trigger] entries[k]).name@ != entry.name@,
        ensures
            self.matched(after, dir, entries.push(entry), ids.push(id)),
    {
        self.lemma_reusable(dir, entry.name@, entry.kind);
        let after_ids = ids.push(id);
        let after_entries = entries.push(entry);
        if self.has(id) {
            self.lemma_matched_old(middle, dir, entries, ids, id);
        }
        assert(id != dir);
        assert forall|k: int| 0 <= k < after_ids.len() implies self.taken_over(
            after,
            dir,
            after_entries[k],
            #[trigger] after_ids[k],
        ) by {
            if k < ids.len() {
                assert(self.taken_over(middle, dir, entries[k], ids[k]));
                self.lemma_reusable(dir, entries[k].name@, entries[k].kind);
                assert(middle.nodes[ids[k]].name == entries[k].name@);
                if ids[k] == id {
                    assert(middle.nodes[id].name == entry.name@);
                }
            }
        }
        assert forall|x: NodeId| #[trigger]
            self.has(x) && x != dir && !after_ids.contains(x) implies after.nodes[x]
            == self.nodes[x] by {
            if ids.contains(x) {
                assert(after_ids[ids.index_of(x)] == x);
            }
            assert(after_ids[ids.len() as int] == id);
        }
        assert forall|x: NodeId| #[trigger] after.has(x) && !self.has(x) implies after_ids.contains(x)
            && after.parent(x) == Some(dir) by {
            assert(after_ids[ids.len() as int] == id);
            if x != id {
                assert(middle.has(x));
                assert(after_ids[ids.index_of(x)] == x);
            }
        }
        assert forall|x: NodeId| #[trigger] self.has(x) implies after.parent(x) == self.parent(x)
            && after.depths[x] == self.depths[x] && after.has(x) by {
            assert(middle.has(x));
        }
    }
}

impl Shape {
    /// Whether what lies below `id` is the same in `after`.
    pub open spec fn kept_below(self, after: Shape, id: NodeId) -> bool {
        &&& forall|x: NodeId| #[trigger]
            self.has(x) && self.within(x, id) ==> after.has(x) && after.within(x, id)
                && after.depths[x] == self.depths[x] && (x != id ==> after.nodes[x]
                == self.nodes[x])
        &&& forall|x: NodeId| #[trigger]
            after.has(x) && after.within(x, id) ==> self.has(x) && self.within(x, id)
    }

    /// A node for an entry stays when other entries of its directory are taken out.
    proof fn lemma_attached(
        self,
        middle: Shape,
        after: Shape,
        dir: NodeId,
        entry: Entry,
        id: NodeId,
        trash: Seq<NodeId>,
    )
        requires
            self.wf(),
            self.has(dir),
            middle.linked(trash.to_set()),
            after.wf(),
            self.places_kept(middle),
            forall|x: NodeId| #[trigger] self.has(x) ==> middle.has(x),
            forall|x: NodeId| #[trigger]
                middle.has(x) && !self.has(x) ==> middle.parent(x) == Some(dir),
            middle.are_cut(after, trash),
            !trash.contains(id),
            forall|i: int| 0 <= i < trash.len() ==> middle.parent(#[trigger] trash[i]) == Some(dir),
            self.taken_over(middle, dir, entry, id),
            forall|x: NodeId| #[trigger]
                self.has(x) && self.within(x, id) && x != id ==> middle.nodes[x] == self.nodes[x],
        ensures
            self.taken_over(after, dir, entry, id),
            self.has(id) ==> self.kept_below(after, id),
    {
        let loose = trash.to_set();
        self.lemma_reusable(dir, entry.name@, entry.kind);
        middle.lemma_within_parent(loose, id);
        assert forall|x: NodeId| #[trigger] middle.has(x) && middle.within(x, id) implies after.has(
            x,
        ) by {
            if middle.below_any(trash, x) {
                let i = choose|i: int| 0 <= i < trash.len() && middle.within(x, #[trigger] trash[i]);
                assert(trash.contains(trash[i]));
                assert(middle.has(trash[i]));
                middle.lemma_within_parent(loose, trash[i]);
                middle.lemma_one_ancestor(x, id, trash[i]);
            }
        }
        assert(middle.has(id) && middle.within(id, id));
        assert(after.has(id));
        if self.has(id) {
            assert forall|x: NodeId| #[trigger] self.has(x) && self.within(x, id) implies after.has(x)
                && after.within(x, id) && after.depths[x] == self.depths[x] && (x != id
                ==> after.nodes[x] == self.nodes[x]) by {
                assert(middle.has(x));
                self.lemma_places_kept(Set::empty(), middle, x, id);
                assert(after.has(x));
                assert(after.places_kept(middle));
                after.lemma_places_kept(Set::empty(), middle, x, id);
            }
            assert forall|x: NodeId| #[trigger] after.has(x) && after.within(x, id) implies self.has(
                x,
            ) && self.within(x, id) by {
                assert(middle.has(x));
                assert(after.places_kept(middle));
                after.lemma_places_kept(Set::empty(), middle, x, id);
                if self.has(x) {
                    self.lemma_places_kept(Set::empty(), middle, x, id);
                } else {
                    middle.lemma_within_parent(loose, x);
                    middle.lemma_depth(x, id);
                }
            }
        }
    }
}

/// Whether the probes of the entries found nothing but directories.
pub open spec fn runs_of_directories(entries: Seq<Entry>) -> bool {
    forall|i: int|
        0 <= i < entries.len() ==> run_of_directories((#[trigger] entries[i]).only_child)
}

/// How many directories the probes of the entries from `from` on found.
pub open spec fn runs_from(entries: Seq<Entry>, from: int) -> nat
    decreases entries.len() - from,
{
    if 0 <= from < entries.len() {
        run_names(entries[from].only_child).len() + runs_from(entries, from + 1)
    } else {
        0
    }
}

/// How many nodes the entries and what their probes found take at most.
pub open spec fn room_for(entries: Seq<Entry>) -> nat {
    entries.len() + runs_from(entries, 0)
}

impl Shape {
    proof fn lemma_nothing_below(self, id: NodeId)
        requires
            self.wf(),
            self.has(id),
            self.ids(id).len() == 0,
        ensures
            forall|x: NodeId| #[trigger] self.has(x) && self.within(x, id) ==> x == id,
    {
        assert forall|x: NodeId| #[trigger] self.has(x) && self.within(x, id) implies x == id by {
            if x != id {
                let y = self.lemma_step(Set::empty(), x, id);
                assert(self.fits(Set::empty(), y));
            }
        }
    }

    /// A run that starts with the known `child` keeps it, and of what is below it what it keeps.
    proof fn lemma_only_runs_reused(
        self,
        middle: Shape,
        after: Shape,
        dir: NodeId,
        child: NodeId,
        known: Set<NodeId>,
    )
        requires
            self.wf(),
            after.wf(),
            self.has(dir),
            self.ids(dir) == seq![child],
            self.is_directory(child),
            middle.nodes.dom() == self.nodes.dom(),
            forall|x: NodeId| #[trigger]
                self.has(x) ==> self.same_step(middle, x) && middle.parent(x) == self.parent(x),
            middle.keeps_only_runs(after, child, known),
            after.has(dir),
            after.ids(dir) == self.ids(dir),
        ensures
            self.keeps_only_runs(after, dir, known),
    {
        let none = Set::<NodeId>::empty();
        assert(self.fits(none, dir));
        assert(self.ids(dir)[0] == child);
        assert(self.holds(none, dir, self.ids(dir)[0]));
        assert forall|x: NodeId| #[trigger] after.has(x) && after.within(x, dir) && x != dir
            && known.contains(x) implies self.has(x) && self.parent(x) is Some
            && self.only_directory(self.parent(x)->0) == Some(x) by {
            let y = after.lemma_step(none, x, dir);
            assert(after.fits(none, y));
            assert(y == child);
            if x != child {
                assert(middle.has(x));
                assert(self.has(x));
                assert(self.fits(none, x));
                assert(self.has(self.parent(x)->0));
            }
        }
    }

    /// A run that starts with a new `child` keeps nothing.
    proof fn lemma_only_runs_new(
        self,
        middle: Shape,
        after: Shape,
        dir: NodeId,
        child: NodeId,
        known: Set<NodeId>,
        later: Set<NodeId>,
    )
        requires
            middle.wf(),
            after.wf(),
            middle.has(child),
            middle.ids(child).len() == 0,
            middle.renewed(after, later),
            middle.nodes.dom().subset_of(later),
            known.subset_of(later),
            !known.contains(child),
            after.has(dir),
            after.ids(dir) == seq![child],
        ensures
            self.keeps_only_runs(after, dir, known),
    {
        let none = Set::<NodeId>::empty();
        assert forall|x: NodeId| #[trigger] after.has(x) && after.within(x, dir) && x
            != dir implies !known.contains(x) by {
            let y = after.lemma_step(none, x, dir);
            assert(after.fits(none, y));
            assert(after.ids(dir)[0] == child);
            assert(y == child);
            if known.contains(x) {
                assert(later.contains(x));
                middle.lemma_renewed_within(after, later, child, x);
                middle.lemma_nothing_below(child);
            }
        }
    }

    /// What was kept of what lies within `id` was the same before.
    proof fn lemma_only_runs_same(
        self,
        middle: Shape,
        after: Shape,
        id: NodeId,
        known: Set<NodeId>,
        later: Set<NodeId>,
    )
        requires
            middle.wf(),
            after.wf(),
            self.same_within(middle, id),
            middle.keeps_only_runs(after, id, later),
            middle.renewed(after, later),
            middle.nodes.dom().subset_of(later),
            known.subset_of(later),
        ensures
            self.keeps_only_runs(after, id, known),
    {
        assert forall|x: NodeId| #[trigger] after.has(x) && after.within(x, id) && x != id
            && known.contains(x) implies self.has(x) && self.parent(x) is Some
            && self.only_directory(self.parent(x)->0) == Some(x) by {
            assert(later.contains(x));
            middle.lemma_renewed_within(after, later, id, x);
            assert(middle.has(x));
            assert(middle.fits(Set::empty(), x));
            let parent = middle.parent(x)->0;
            assert(middle.has(parent) && middle.within(parent, id));
            assert(self.has(parent) && self.within(parent, id));
            assert(self.has(x) && self.within(x, id));
        }
    }

    /// Whether the node `id` for `entry` holds exactly its probed run in `after` if it is a
    /// collapsed directory, and what it held otherwise.
    spec fn run_set(self, after: Shape, entry: Entry, id: NodeId, known: Set<NodeId>) -> bool {
        if entry.kind is Directory && !self.nodes[id].expanded {
            &&& after.is_run(id, run_names(entry.only_child))
            &&& self.run_kept(after, id, run_names(entry.only_child))
            &&& self.keeps_only_runs(after, id, known)
            &&& after.nodes[id] == NodeView {
                children: after.nodes[id].children,
                listed: after.nodes[id].listed,
                ..self.nodes[id]
            }
        } else {
            self.same_within(after, id)
        }
    }

    proof fn lemma_run_set_after(
        self,
        middle: Shape,
        after: Shape,
        entry: Entry,
        id: NodeId,
        known: Set<NodeId>,
    )
        requires
            self.has(id),
            middle.wf(),
            middle.has(id),
            self.run_set(middle, entry, id, known),
            middle.same_within(after, id),
        ensures
            self.run_set(after, entry, id, known),
    {
        assert(middle.has(id) && middle.within(id, id));
        assert(after.nodes[id] == middle.nodes[id]);
        if entry.kind is Directory && !self.nodes[id].expanded {
            let names = run_names(entry.only_child);
            middle.lemma_is_run_same(after, id, id, names);
            self.lemma_run_kept_after(middle, after, id, id, names);
            assert forall|x: NodeId| #[trigger] after.has(x) && after.within(x, id) && x != id
                && known.contains(x) implies self.has(x) && self.parent(x) is Some
                && self.only_directory(self.parent(x)->0) == Some(x) by {
                assert(middle.has(x));
            }
        } else {
            self.lemma_same_within_transitive(middle, after, id);
        }
    }

    /// Whether `id` is the node for `entry` of `dir` in `after`: the known one if there is one, and
    /// a new one if not. A collapsed directory holds exactly its probed run, of which the known
    /// nodes stay, as far as they were a run, and the others are new; an expanded one holds what it
    /// held.
    pub open spec fn listed_as(self, after: Shape, dir: NodeId, entry: Entry, id: NodeId) -> bool {
        let names = run_names(entry.only_child);
        &&& after.has(id)
        &&& match self.reusable(dir, entry.name@, entry.kind) {
            Some(known) => {
                &&& id == known
                &&& if entry.kind is Directory && !self.nodes[known].expanded {
                    &&& after.is_run(id, names)
                    &&& self.run_kept(after, id, names)
                    &&& self.keeps_only_runs(after, id, self.nodes.dom())
                    &&& after.nodes[id] == NodeView {
                        children: after.nodes[id].children,
                        listed: false,
                        ..self.nodes[id]
                    }
                } else {
                    &&& after.nodes[id] == NodeView { kind: entry.kind, ..self.nodes[id] }
                    &&& self.kept_below(after, id)
                }
            },
            None => {
                &&& !self.has(id)
                &&& after.nodes[id] == NodeView {
                    children: after.nodes[id].children,
                    ..new_node(dir, entry.name@, entry.kind)
                }
                &&& if entry.kind is Directory {
                    after.is_run(id, names)
                } else {
                    after.nodes[id].children is Unloaded
                }
            },
        }
    }

    /// Whether `after` has the `entries` of `dir`, in order, as the nodes `ids`.
    pub open spec fn merged(
        self,
        after: Shape,
        sort: FileTreeSort,
        dir: NodeId,
        entries: Seq<Entry>,
        ids: Seq<NodeId>,
    ) -> bool {
        &&& ids.len() == entries.len()
        &&& forall|k: int|
            0 <= k < ids.len() ==> self.listed_as(after, dir, entries[k], #[trigger] ids[k])
        &&& after.nodes[dir] == NodeView {
            children: ChildrenView::Loaded(sorted_by(ids, after.comes_before(sort))),
            listed: true,
            ..self.nodes[dir]
        }
        &&& self.renewed(after, self.nodes.dom())
    }

    /// A listing keeps the node of each entry that it names.
    pub proof fn law_listed_entries_keep_their_ids(
        self,
        after: Shape,
        sort: FileTreeSort,
        dir: NodeId,
        entries: Seq<Entry>,
        ids: Seq<NodeId>,
        k: int,
        child: NodeId,
    )
        requires
            self.wf(),
            self.has(dir),
            self.merged(after, sort, dir, entries, ids),
            0 <= k < entries.len(),
            self.ids(dir).contains(child),
            entries[k].name@ == self.nodes[child].name,
            (entries[k].kind is Directory) == self.is_directory(child),
        ensures
            ids[k] == child,
            after.has(child),
            after.ids(dir).contains(child),
            after.nodes[child].expanded == self.nodes[child].expanded,
    {
        let known = self.ids(dir);
        let i = known.index_of(child);
        assert(known[i] == child);
        assert(self.fits(Set::empty(), dir));
        self.lemma_named(known, entries[k].name@, i);
        assert(self.listed_as(after, dir, entries[k], ids[k]));
        assert(ids.contains(ids[k]));
        lemma_sorted_by_contains(ids, after.comes_before(sort), child);
    }

    /// A listing takes out every other entry, with all that lies below it.
    pub proof fn law_unlisted_entries_are_gone(
        self,
        after: Shape,
        sort: FileTreeSort,
        dir: NodeId,
        entries: Seq<Entry>,
        ids: Seq<NodeId>,
        child: NodeId,
        x: NodeId,
    )
        requires
            self.wf(),
            self.has(dir),
            after.wf(),
            self.merged(after, sort, dir, entries, ids),
            self.ids(dir).contains(child),
            forall|k: int|
                0 <= k < entries.len() ==> !((#[trigger] entries[k]).name@
                    == self.nodes[child].name && (entries[k].kind is Directory)
                    == self.is_directory(child)),
            self.has(x),
            self.within(x, child),
        ensures
            !after.has(x),
        decreases self.depths[x],
    {
        let none = Set::<NodeId>::empty();
        if after.has(x) {
            assert(self.nodes.dom().contains(x));
            assert(after.fits(none, x));
            assert(self.fits(none, x));
            if x == child {
                let i = self.ids(dir).index_of(child);
                assert(self.fits(none, dir));
                assert(self.holds(none, dir, self.ids(dir)[i]));
                assert(after.ids(dir).contains(child));
                lemma_sorted_by_contains(ids, after.comes_before(sort), child);
                let k = ids.index_of(child);
                assert(self.listed_as(after, dir, entries[k], ids[k]));
                self.lemma_reusable(dir, entries[k].name@, entries[k].kind);
            } else {
                self.law_unlisted_entries_are_gone(
                    after,
                    sort,
                    dir,
                    entries,
                    ids,
                    child,
                    self.parent(x)->0,
                );
            }
        }
    }

    proof fn lemma_listed_as(
        self,
        middle: Shape,
        after: Shape,
        dir: NodeId,
        entry: Entry,
        id: NodeId,
        known: Set<NodeId>,
    )
        requires
            self.wf(),
            self.has(dir),
            middle.wf(),
            self.taken_over(middle, dir, entry, id),
            self.has(id) ==> self.kept_below(middle, id),
            middle.run_set(after, entry, id, known),
            middle.nodes.dom().subset_of(known),
            self.nodes.dom().subset_of(known),
            middle.renewed(after, known),
            after.wf(),
        ensures
            self.listed_as(after, dir, entry, id),
            after.nodes[id].name == middle.nodes[id].name,
            after.nodes[id].kind == middle.nodes[id].kind,
    {
        let names = run_names(entry.only_child);
        self.lemma_reusable(dir, entry.name@, entry.kind);
        assert(middle.has(id) && middle.within(id, id));
        if entry.kind is Directory && !middle.nodes[id].expanded {
            if self.has(id) {
                assert forall|x: NodeId| #[trigger] self.has(x) && self.within(
                    x,
                    id,
                ) implies self.same_step(middle, x) by {
                    assert(middle.has(x));
                }
                self.lemma_run_kept_same(middle, after, id, id, names);
                assert forall|x: NodeId| #[trigger] after.has(x) && after.within(x, id) && x != id
                    && self.nodes.dom().contains(x) implies self.has(x) && self.parent(x) is Some
                    && self.only_directory(self.parent(x)->0) == Some(x) by {
                    assert(known.contains(x));
                    middle.lemma_renewed_within(after, known, id, x);
                    assert(middle.has(x));
                    let parent = middle.parent(x)->0;
                    assert(middle.fits(Set::empty(), x));
                    assert(middle.has(parent) && middle.within(parent, id));
                    assert(self.has(parent));
                }
            }
        } else {
            assert(after.nodes[id] == middle.nodes[id]);
            if self.has(id) {
                assert forall|x: NodeId| #[trigger] self.has(x) && self.within(x, id) implies after.has(
                    x,
                ) && after.within(x, id) && after.depths[x] == self.depths[x] && (x != id
                    ==> after.nodes[x] == self.nodes[x]) by {
                    assert(middle.has(x));
                }
                assert forall|x: NodeId| #[trigger] after.has(x) && after.within(
                    x,
                    id,
                ) implies self.has(x) && self.within(x, id) by {
                    assert(middle.has(x));
                }
            }
        }
    }

    /// What lies outside of `dir` still lists its entries in order.
    proof fn lemma_ordered_outside(self, after: Shape, sort: FileTreeSort, dir: NodeId, x: NodeId)
        requires
            self.wf(),
            self.ordered(sort),
            self.only_below(after, dir),
            after.has(x),
            !after.within(x, dir),
        ensures
            after.lists_in_order(sort, x),
    {
        let none = Set::<NodeId>::empty();
        assert(self.has(x));
        assert(self.fits(none, x));
        assert(self.lists_in_order(sort, x));
        let ids = self.ids(x);
        assert forall|i: int| 0 <= i < ids.len() implies after.nodes[#[trigger] ids[i]].name
            == self.nodes[ids[i]].name && after.nodes[ids[i]].kind == self.nodes[ids[i]].kind by {
            assert(self.holds(none, x, self.ids(x)[i]));
            assert(self.fits(none, ids[i]));
            assert(self.has(ids[i]));
            assert(ids[i] == dir || !self.within(ids[i], dir));
        }
        self.lemma_still_in_order(after, sort, x);
    }

    proof fn lemma_merged_in_order(
        self,
        after: Shape,
        sort: FileTreeSort,
        dir: NodeId,
        entries: Seq<Entry>,
        ids: Seq<NodeId>,
        x: NodeId,
    )
        requires
            self.wf(),
            self.has(dir),
            self.ordered(sort),
            after.wf(),
            self.only_below(after, dir),
            self.merged(after, sort, dir, entries, ids),
            after.has(x),
        ensures
            after.lists_in_order(sort, x),
    {
        let none = Set::<NodeId>::empty();
        let le = after.comes_before(sort);
        if x == dir {
            after.lemma_comes_before_is_total(sort);
            lemma_sorted_by(ids, le);
        } else if after.within(x, dir) {
            let y = after.lemma_step(none, x, dir);
            assert(after.fits(none, y));
            assert(after.ids(dir).contains(y));
            lemma_sorted_by_contains(ids, le, y);
            let k = ids.index_of(y);
            assert(self.listed_as(after, dir, entries[k], ids[k]));
            if after.is_run(y, run_names(entries[k].only_child)) {
                after.lemma_run_below(y, run_names(entries[k].only_child), x);
            } else if self.has(y) {
                self.lemma_reusable(dir, entries[k].name@, entries[k].kind);
                assert(self.has(x) && self.within(x, y));
                assert(self.fits(none, x));
                assert(self.lists_in_order(sort, x));
                let list = self.ids(x);
                assert forall|i: int| 0 <= i < list.len() implies after.nodes[#[trigger] list[i]].name
                    == self.nodes[list[i]].name && after.nodes[list[i]].kind
                    == self.nodes[list[i]].kind by {
                    assert(self.holds(none, x, self.ids(x)[i]));
                    self.lemma_within_parent(none, list[i]);
                    self.lemma_within_transitive(list[i], x, y);
                    self.lemma_depth(x, y);
                    assert(self.has(list[i]));
                }
                self.lemma_still_in_order(after, sort, x);
            } else {
                if x != y {
                    let z = after.lemma_step(none, x, y);
                    assert(after.fits(none, z));
                }
            }
        } else {
            self.lemma_ordered_outside(after, sort, dir, x);
        }
    }
}

proof fn lemma_push_to_set(ids: Seq<NodeId>, id: NodeId)
    ensures
        ids.push(id).to_set() == ids.to_set().insert(id),
{
    assert forall|x: NodeId| #[trigger]
        ids.push(id).to_set().contains(x) <==> ids.to_set().insert(id).contains(x) by {
        if ids.contains(x) {
            assert(ids.push(id)[ids.index_of(x)] == x);
        }
        assert(ids.push(id)[ids.len() as int] == id);
        if ids.push(id).contains(x) && x != id {
            assert(ids[ids.push(id).index_of(x)] == x);
        }
    }
    assert(ids.push(id).to_set() =~= ids.to_set().insert(id));
}

proof fn lemma_all_gone(b: Shape, loose: Set<NodeId>, after: Shape, id: NodeId, x: NodeId)
    requires
        b.linked(loose),
        b.has(x),
        b.within(x, id),
        !after.has(id),
        forall|x: NodeId| #[trigger] loose.contains(x) && b.within(x, id) ==> x == id,
        forall|x: NodeId, i: int|
            #![trigger b.ids(x)[i]]
            b.has(x) && !after.has(x) && 0 <= i < b.ids(x).len() ==> !after.has(b.ids(x)[i]),
    ensures
        !after.has(x),
    decreases b.depths[x],
{
    assert(b.fits(loose, x));
    if x != id {
        let parent = b.parent(x)->0;
        lemma_all_gone(b, loose, after, id, parent);
        let i = b.ids(parent).index_of(x);
        assert(b.ids(parent)[i] == x);
    }
}

impl Shape {
    /// Expanding directories expands them and changes nothing else, and only what is a directory can
    /// be expanded.
    pub proof fn law_expanding_changes_nothing_else(self, after: Shape, ids: Seq<NodeId>, id: NodeId)
        requires
            self.is_expanded(after, ids),
            self.has(id),
        ensures
            after.has(id),
            ids.contains(id) && self.nodes[id].kind == Kind::Directory ==> after.nodes[id].expanded,
            ids.contains(id) && self.nodes[id].kind != Kind::Directory ==> !after.nodes[id].expanded,
            !ids.contains(id) ==> after.nodes[id] == self.nodes[id],
            after.nodes[id].children == self.nodes[id].children,
            after.nodes[id].listed == self.nodes[id].listed,
            after.nodes[id].name == self.nodes[id].name,
    {
    }

    /// Collapsing a directory collapses it and all below it, and forgets what is below it but for a run
    /// of single directories. Nothing else changes.
    pub proof fn law_collapsing_forgets_what_is_below(self, after: Shape, dir: NodeId, id: NodeId)
        requires
            self.is_collapsed(after, dir),
            self.has(id),
        ensures
            id == dir ==> after.has(id) && !after.nodes[id].expanded && !after.nodes[id].listed,
            !self.within(id, dir) ==> after.has(id) && after.nodes[id] == self.nodes[id],
            after.has(id) && self.within(id, dir) ==> !after.nodes[id].expanded,
            after.has(id) && self.within(id, dir) && id != dir ==> self.parent(id) is Some
                && self.ids(self.parent(id)->0).len() == 1,
            after.has(id) && self.within(id, dir) && self.ids(id).len() != 1 && !(
            self.nodes[id].children is Unreadable) ==> after.nodes[id].children is Unloaded,
    {
        assert(after.has(id) <==> self.has(id) && (self.within(id, dir) ==> self.on_run(dir, id)));
    }

    /// A listing is asked for when a directory is expanded that is neither expanded nor listed yet.
    pub proof fn law_unlisted_directories_ask_for_listings(self, ids: Seq<NodeId>, id: NodeId)
        ensures
            self.to_list(ids).contains(id) <==> ids.contains(id) && self.nodes[id].kind
                == Kind::Directory && !self.nodes[id].expanded && !self.nodes[id].listed,
        decreases ids.len(),
    {
        if ids.len() > 0 {
            let rest = ids.drop_last();
            self.law_unlisted_directories_ask_for_listings(rest, id);
            let earlier = self.to_list(rest);
            let all = self.to_list(ids);
            if ids.contains(id) {
                let k = ids.index_of(id);
                if k < rest.len() {
                    assert(rest[k] == id);
                }
            }
            if rest.contains(id) {
                assert(ids[rest.index_of(id)] == id);
            }
            assert(ids[ids.len() - 1] == ids.last());
            if earlier.contains(id) {
                assert(all[earlier.index_of(id)] == id);
            }
            if self.needs_listing(ids.last()) {
                assert(all[all.len() - 1] == ids.last());
                if all.contains(id) && id != ids.last() {
                    assert(earlier[all.index_of(id)] == id);
                }
            }
        }
    }

    /// A path is found exactly where looking it up finds an entry, as long as what is on its way are
    /// directories.
    pub proof fn law_reveals_find_entries(self, id: NodeId, path: Seq<Part>)
        requires
            self.wf(),
            self.has(id),
            forall|x: NodeId| #[trigger] self.has(x) && self.ids(x).len() > 0 ==> self.is_directory(x),
        ensures
            match self.find(id, path) {
                Some(found) => self.revealed(id, path) == Reveal::Found(found),
                None => !(self.revealed(id, path) is Found),
            },
        decreases path.len(),
    {
        if path.len() > 0 {
            if let Part::Normal(name) = path[0] {
                if let Some(child) = self.named(self.ids(id), name) {
                    self.lemma_named_is_listed(self.ids(id), name);
                    assert(self.fits(Set::empty(), id));
                    let i = self.ids(id).index_of(child);
                    assert(self.holds(Set::empty(), id, self.ids(id)[i]));
                    self.law_reveals_find_entries(child, path.skip(1));
                }
            }
        }
    }

    proof fn lemma_named_is_listed(self, ids: Seq<NodeId>, name: Seq<u8>)
        ensures
            self.named(ids, name) matches Some(child) ==> ids.contains(child),
        decreases ids.len(),
    {
        if ids.len() > 0 {
            if self.nodes[ids[0]].name == name {
                assert(ids.contains(ids[0]));
            } else {
                self.lemma_named_is_listed(ids.skip(1), name);
                if let Some(child) = self.named(ids.skip(1), name) {
                    assert(ids[ids.skip(1).index_of(child) + 1] == child);
                }
            }
        }
    }
}

impl Shape {
    /// A listing tells what is in a directory: every listed entry has a node there, with its name and
    /// its kind, and there are no other nodes. Entries that were not known before are collapsed.
    pub proof fn law_listings_tell_what_is_there(
        self,
        after: Shape,
        sort: FileTreeSort,
        dir: NodeId,
        entries: Seq<Entry>,
        ids: Seq<NodeId>,
        k: int,
    )
        requires
            self.wf(),
            self.has(dir),
            self.merged(after, sort, dir, entries, ids),
            0 <= k < entries.len(),
        ensures
            after.nodes[dir].listed,
            after.ids(dir).contains(ids[k]),
            after.ids(dir).len() == entries.len(),
            after.has(ids[k]),
            after.nodes[ids[k]].name == entries[k].name@,
            after.nodes[ids[k]].parent == Some(dir),
            (after.nodes[ids[k]].kind == Kind::Directory) == (entries[k].kind == Kind::Directory),
            entries[k].kind != Kind::Directory ==> after.nodes[ids[k]].kind == entries[k].kind,
            !self.has(ids[k]) ==> !after.nodes[ids[k]].expanded && !after.nodes[ids[k]].listed,
    {
        assert(self.listed_as(after, dir, entries[k], ids[k]));
        self.lemma_reusable(dir, entries[k].name@, entries[k].kind);
        assert(ids.contains(ids[k]));
        lemma_sorted_by_contains(ids, after.comes_before(sort), ids[k]);
        crate::sorting::lemma_sorted_by(ids, after.comes_before(sort));
    }
}

impl Shape {
    /// The listings that are wanted are those asked for of directories that are still there and
    /// expanded.
    pub proof fn law_expanded_requests_are_wanted(self, requests: Seq<NodeId>, id: NodeId)
        ensures
            self.wanted(requests).contains(id) <==> requests.contains(id) && self.has(id)
                && self.nodes[id].expanded,
        decreases requests.len(),
    {
        if requests.len() > 0 {
            let earlier = requests.drop_last();
            let last = requests.last();
            self.law_expanded_requests_are_wanted(earlier, id);
            self.law_expanded_requests_are_wanted(earlier, last);
            let before = self.wanted(earlier);
            let all = self.wanted(requests);
            assert(requests[requests.len() - 1] == last);
            if requests.contains(id) && id != last {
                assert(earlier[requests.index_of(id)] == id);
            }
            if earlier.contains(id) {
                assert(requests[earlier.index_of(id)] == id);
            }
            if before.contains(id) {
                assert(all[before.index_of(id)] == id);
            }
            if all.contains(id) && id != last {
                let k = all.index_of(id);
                assert(before[k] == id);
            }
            if !earlier.contains(last) && self.has(last) && self.nodes[last].expanded {
                assert(all[all.len() - 1] == last);
            }
        }
    }
}

} // verus!
