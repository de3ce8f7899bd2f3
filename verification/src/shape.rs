//! The shape of the file tree: how its nodes hang together.

use crate::arena::{NodeId, NodeView};
use crate::names::{lossy, Part};
use crate::order::{entry_order, law_entry_order_is_total, FileTreeSort};
use crate::sorting::{in_order, total_preorder};
use vstd::prelude::*;

verus! {

/// The nodes of a tree, each with its depth below the root.
pub ghost struct Shape {
    pub nodes: Map<NodeId, NodeView>,
    pub depths: Map<NodeId, nat>,
    pub root: NodeId,
}

impl Shape {
    pub open spec fn has(self, id: NodeId) -> bool {
        self.nodes.dom().contains(id)
    }

    pub open spec fn parent(self, id: NodeId) -> Option<NodeId> {
        self.nodes[id].parent
    }

    /// The known entries of a node.
    pub open spec fn ids(self, id: NodeId) -> Seq<NodeId> {
        self.nodes[id].ids()
    }

    pub open spec fn is_directory(self, id: NodeId) -> bool {
        self.nodes[id].kind is Directory
    }

    /// Whether the node `id` fits in: its parent is one step less deep and lists it (unless it is
    /// `loose`), it lists each of its entries once, and no two of them have the same name. What is
    /// no directory is not expanded.
    pub open spec fn fits(self, loose: Set<NodeId>, id: NodeId) -> bool {
        &&& match self.parent(id) {
            None => id == self.root && self.is_directory(id) && self.depths[id] == 0,
            Some(parent) => {
                &&& id != self.root
                &&& self.has(parent)
                &&& self.depths[id] == self.depths[parent] + 1
                &&& !loose.contains(id) ==> self.ids(parent).contains(id)
            },
        }
        &&& forall|i: int|
            0 <= i < self.ids(id).len() ==> self.holds(loose, id, #[trigger] self.ids(id)[i])
        &&& self.ids(id).no_duplicates()
        &&& forall|i: int, j: int|
            #![trigger self.ids(id)[i], self.ids(id)[j]]
            0 <= i < j < self.ids(id).len() ==> self.nodes[self.ids(id)[i]].name
                != self.nodes[self.ids(id)[j]].name
        &&& !self.is_directory(id) ==> !self.nodes[id].expanded
    }

    /// Whether `id` can list `child`.
    pub open spec fn holds(self, loose: Set<NodeId>, id: NodeId, child: NodeId) -> bool {
        self.has(child) && self.parent(child) == Some(id) && !loose.contains(child)
    }

    /// Whether the nodes form a tree, but for the `loose` ones, which no parent lists.
    pub open spec fn linked(self, loose: Set<NodeId>) -> bool {
        &&& self.nodes.dom().finite()
        &&& self.has(self.root)
        &&& self.parent(self.root) is None
        &&& !loose.contains(self.root)
        &&& loose.subset_of(self.nodes.dom())
        &&& forall|id: NodeId| self.has(id) ==> #[trigger] self.fits(loose, id)
    }

    /// Whether the nodes form a tree.
    pub open spec fn wf(self) -> bool {
        self.linked(Set::empty())
    }

    /// Whether `id` is `ancestor` or lies below it.
    pub open spec fn within(self, id: NodeId, ancestor: NodeId) -> bool
        decreases self.depths[id],
    {
        id == ancestor || match self.parent(id) {
            Some(parent) => self.depths[parent] < self.depths[id] && self.within(parent, ancestor),
            None => false,
        }
    }

    /// The only known entry of `id`, if that is a directory.
    pub open spec fn only_directory(self, id: NodeId) -> Option<NodeId> {
        if self.ids(id).len() == 1 && self.is_directory(self.ids(id)[0]) {
            Some(self.ids(id)[0])
        } else {
            None
        }
    }

    /// The path of `id` relative to the root.
    pub open spec fn path(self, id: NodeId) -> Seq<Part>
        decreases self.depths[id],
    {
        match self.parent(id) {
            Some(parent) => if self.depths[parent] < self.depths[id] {
                self.path(parent).push(Part::Normal(self.nodes[id].name))
            } else {
                Seq::empty()
            },
            None => Seq::empty(),
        }
    }

    /// The first of `ids` with the name `name`.
    pub open spec fn named(self, ids: Seq<NodeId>, name: Seq<u8>) -> Option<NodeId>
        decreases ids.len(),
    {
        if ids.len() == 0 {
            None
        } else if self.nodes[ids[0]].name == name {
            Some(ids[0])
        } else {
            self.named(ids.skip(1), name)
        }
    }

    /// The node at `path`, seen from `id`.
    pub open spec fn find(self, id: NodeId, path: Seq<Part>) -> Option<NodeId>
        decreases path.len(),
    {
        if path.len() == 0 {
            Some(id)
        } else {
            match path[0] {
                Part::Normal(name) => match self.named(self.ids(id), name) {
                    Some(child) => self.find(child, path.skip(1)),
                    None => None,
                },
                _ => None,
            }
        }
    }

    /// Whether `after` has all nodes of the shape, at their places.
    pub open spec fn places_kept(self, after: Shape) -> bool {
        forall|id: NodeId| #[trigger]
            self.has(id) ==> after.parent(id) == self.parent(id) && after.depths[id]
                == self.depths[id]
    }

    /// Whether `after` is the shape without `id` and what lies below it.
    pub open spec fn is_cut(self, after: Shape, id: NodeId) -> bool {
        &&& after.root == self.root
        &&& after.depths == self.depths
        &&& forall|x: NodeId| #[trigger] after.has(x) <==> self.has(x) && !self.within(x, id)
        &&& forall|x: NodeId| #[trigger] after.has(x) ==> after.nodes[x] == self.nodes[x]
    }

    /// Whether `x` is one of `ids` or lies below one.
    pub open spec fn below_any(self, ids: Seq<NodeId>, x: NodeId) -> bool {
        exists|i: int| 0 <= i < ids.len() && self.within(x, #[trigger] ids[i])
    }

    /// Whether `after` is the shape without `ids` and what lies below them.
    pub open spec fn are_cut(self, after: Shape, ids: Seq<NodeId>) -> bool {
        &&& after.root == self.root
        &&& after.depths == self.depths
        &&& forall|x: NodeId| #[trigger] after.has(x) <==> self.has(x) && !self.below_any(ids, x)
        &&& forall|x: NodeId| #[trigger] after.has(x) ==> after.nodes[x] == self.nodes[x]
    }

    /// What lies within a node lies as deep or deeper.
    pub proof fn lemma_depth(self, id: NodeId, ancestor: NodeId)
        requires
            self.within(id, ancestor),
        ensures
            self.depths[ancestor] <= self.depths[id],
            self.depths[ancestor] == self.depths[id] ==> id == ancestor,
        decreases self.depths[id],
    {
        if id != ancestor {
            self.lemma_depth(self.parent(id)->0, ancestor);
        }
    }

    /// A node lies within one node of each depth at most.
    pub proof fn lemma_one_ancestor(self, id: NodeId, a: NodeId, b: NodeId)
        requires
            self.within(id, a),
            self.within(id, b),
            self.depths[a] == self.depths[b],
        ensures
            a == b,
        decreases self.depths[id],
    {
        self.lemma_depth(id, a);
        self.lemma_depth(id, b);
        if id != a && id != b {
            self.lemma_one_ancestor(self.parent(id)->0, a, b);
        }
    }

    pub proof fn lemma_within_transitive(self, a: NodeId, b: NodeId, c: NodeId)
        requires
            self.within(a, b),
            self.within(b, c),
        ensures
            self.within(a, c),
        decreases self.depths[a],
    {
        if a != b {
            self.lemma_within_transitive(self.parent(a)->0, b, c);
        }
    }

    /// A node lies within its parent.
    pub proof fn lemma_within_parent(self, loose: Set<NodeId>, id: NodeId)
        requires
            self.linked(loose),
            self.has(id),
            self.parent(id) is Some,
        ensures
            self.within(id, self.parent(id)->0),
            self.has(self.parent(id)->0),
            self.depths[id] == self.depths[self.parent(id)->0] + 1,
    {
        reveal_with_fuel(Shape::within, 2);
        assert(self.fits(loose, id));
    }

    /// What a node lies within is a node.
    pub proof fn lemma_within_has(self, loose: Set<NodeId>, id: NodeId, ancestor: NodeId)
        requires
            self.linked(loose),
            self.has(id),
            self.within(id, ancestor),
        ensures
            self.has(ancestor),
        decreases self.depths[id],
    {
        assert(self.fits(loose, id));
        if id != ancestor {
            self.lemma_within_has(loose, self.parent(id)->0, ancestor);
        }
    }

    /// Everything lies within the root.
    pub proof fn lemma_within_root(self, loose: Set<NodeId>, id: NodeId)
        requires
            self.linked(loose),
            self.has(id),
        ensures
            self.within(id, self.root),
        decreases self.depths[id],
    {
        assert(self.fits(loose, id));
        if id != self.root {
            self.lemma_within_root(loose, self.parent(id)->0);
        }
    }

    /// As long as nodes keep their places, what lies within what stays.
    pub proof fn lemma_places_kept(self, loose: Set<NodeId>, after: Shape, id: NodeId, a: NodeId)
        requires
            self.linked(loose),
            self.places_kept(after),
            self.has(id),
        ensures
            after.within(id, a) == self.within(id, a),
        decreases self.depths[id],
    {
        assert(self.fits(loose, id));
        if id != a && id != self.root {
            self.lemma_places_kept(loose, after, self.parent(id)->0, a);
        }
    }

    /// What lies below a node lies within one of the nodes right below it.
    pub proof fn lemma_step(self, loose: Set<NodeId>, id: NodeId, ancestor: NodeId) -> (child: NodeId)
        requires
            self.linked(loose),
            self.has(id),
            self.within(id, ancestor),
            id != ancestor,
        ensures
            self.has(child),
            self.parent(child) == Some(ancestor),
            self.within(id, child),
        decreases self.depths[id],
    {
        assert(self.fits(loose, id));
        let parent = self.parent(id)->0;
        if parent == ancestor {
            id
        } else {
            self.lemma_step(loose, parent, ancestor)
        }
    }

    pub proof fn lemma_named(self, ids: Seq<NodeId>, name: Seq<u8>, i: int)
        requires
            0 <= i < ids.len(),
            self.nodes[ids[i]].name == name,
            forall|k: int| 0 <= k < i ==> self.nodes[#[trigger] ids[k]].name != name,
        ensures
            self.named(ids, name) == Some(ids[i]),
        decreases i,
    {
        if i > 0 {
            assert(ids[0] != ids[i]);
            assert forall|k: int| 0 <= k < i - 1 implies self.nodes[#[trigger] ids.skip(1)[k]].name
                != name by {
                assert(ids.skip(1)[k] == ids[k + 1]);
            }
            self.lemma_named(ids.skip(1), name, i - 1);
        }
    }

    pub proof fn lemma_unnamed(self, ids: Seq<NodeId>, name: Seq<u8>)
        requires
            forall|k: int| 0 <= k < ids.len() ==> self.nodes[#[trigger] ids[k]].name != name,
        ensures
            self.named(ids, name) is None,
        decreases ids.len(),
    {
        if ids.len() > 0 {
            assert(self.nodes[ids[0]].name != name);
            assert forall|k: int| 0 <= k < ids.len() - 1 implies self.nodes[#[trigger] ids.skip(
                1,
            )[k]].name != name by {
                assert(ids.skip(1)[k] == ids[k + 1]);
            }
            self.lemma_unnamed(ids.skip(1), name);
        }
    }

    proof fn lemma_find_push(self, id: NodeId, path: Seq<Part>, last: Part)
        ensures
            self.find(id, path.push(last)) == match self.find(id, path) {
                Some(found) => self.find(found, seq![last]),
                None => None,
            },
        decreases path.len(),
    {
        let whole = path.push(last);
        if path.len() == 0 {
            assert(whole =~= seq![last]);
        } else {
            assert(whole[0] == path[0]);
            assert(whole.skip(1) =~= path.skip(1).push(last));
            if let Part::Normal(name) = path[0] {
                if let Some(child) = self.named(self.ids(id), name) {
                    self.lemma_find_push(child, path.skip(1), last);
                }
            }
        }
    }

    /// Looking up the path of a node finds the node.
    pub proof fn law_find_path(self, id: NodeId)
        requires
            self.wf(),
            self.has(id),
        ensures
            self.find(self.root, self.path(id)) == Some(id),
        decreases self.depths[id],
    {
        assert(self.fits(Set::empty(), id));
        if id != self.root {
            let parent = self.parent(id)->0;
            let name = self.nodes[id].name;
            self.law_find_path(parent);
            self.lemma_find_push(self.root, self.path(parent), Part::Normal(name));
            assert(self.fits(Set::empty(), parent));
            let i = self.ids(parent).index_of(id);
            assert(self.ids(parent)[i] == id);
            assert forall|k: int| 0 <= k < i implies self.nodes[#[trigger] self.ids(parent)[k]].name
                != name by {}
            self.lemma_named(self.ids(parent), name, i);
            reveal_with_fuel(Shape::find, 3);
            let last = seq![Part::Normal(name)];
            assert(last.skip(1) =~= Seq::<Part>::empty());
            assert(last[0] == Part::Normal(name));
        }
    }

    /// A node can be changed where it keeps its name, place and kind and lists what hangs below it
    /// and is not loose.
    pub proof fn lemma_update(
        self,
        loose: Set<NodeId>,
        id: NodeId,
        node: NodeView,
        after_loose: Set<NodeId>,
    )
        requires
            self.linked(loose),
            self.has(id),
            node.parent == self.parent(id),
            node.name == self.nodes[id].name,
            node.kind is Directory <==> self.is_directory(id),
            !(node.kind is Directory) ==> !node.expanded,
            node.ids().no_duplicates(),
            forall|i: int|
                0 <= i < node.ids().len() ==> self.holds(after_loose, id, #[trigger] node.ids()[i]),
            forall|i: int, j: int|
                #![trigger node.ids()[i], node.ids()[j]]
                0 <= i < j < node.ids().len() ==> self.nodes[node.ids()[i]].name
                    != self.nodes[node.ids()[j]].name,
            forall|x: NodeId|
                self.has(x) && #[trigger] self.parent(x) == Some(id) && !after_loose.contains(x)
                    ==> node.ids().contains(x),
            forall|x: NodeId| #[trigger]
                after_loose.contains(x) ==> self.has(x) && x != self.root,
            forall|x: NodeId|
                self.has(x) && #[trigger] self.parent(x) != Some(id) ==> (loose.contains(x)
                    <==> after_loose.contains(x)),
        ensures
            (Shape { nodes: self.nodes.insert(id, node), ..self }).linked(after_loose),
    {
        let after = Shape { nodes: self.nodes.insert(id, node), ..self };
        assert(after.nodes.dom() =~= self.nodes.dom());
        assert forall|x: NodeId| after.has(x) implies #[trigger] after.fits(after_loose, x) by {
            assert(self.fits(loose, x));
            assert(self.fits(loose, id));
            assert(after.parent(x) == self.parent(x));
            assert(after.is_directory(x) == self.is_directory(x));
            if let Some(parent) = self.parent(x) {
                if parent != id {
                    assert(self.parent(x) != Some(id));
                    assert(after.ids(parent) == self.ids(parent));
                }
            }
            assert forall|i: int| 0 <= i < after.ids(x).len() implies after.holds(
                after_loose,
                x,
                #[trigger] after.ids(x)[i],
            ) by {
                let child = after.ids(x)[i];
                if x == id {
                    assert(self.holds(after_loose, id, node.ids()[i]));
                } else {
                    assert(self.holds(loose, x, self.ids(x)[i]));
                    assert(self.parent(child) != Some(id));
                }
                assert(after.parent(child) == self.parent(child));
            }
            assert forall|i: int, j: int|
                #![trigger after.ids(x)[i], after.ids(x)[j]]
                0 <= i < j < after.ids(x).len() implies after.nodes[after.ids(x)[i]].name
                != after.nodes[after.ids(x)[j]].name by {
                if x == id {
                    assert(node.ids()[i] == after.ids(x)[i] && node.ids()[j] == after.ids(x)[j]);
                } else {
                    assert(self.ids(x)[i] == after.ids(x)[i] && self.ids(x)[j] == after.ids(x)[j]);
                }
            }
        }
    }

    /// A loose node without entries can be added below a directory.
    pub proof fn lemma_insert(self, loose: Set<NodeId>, id: NodeId, node: NodeView)
        requires
            self.linked(loose),
            !self.has(id),
            node.parent is Some,
            self.has(node.parent->0),
            node.children is Unloaded,
            !node.expanded,
        ensures
            (Shape {
                nodes: self.nodes.insert(id, node),
                depths: self.depths.insert(id, (self.depths[node.parent->0] + 1) as nat),
                root: self.root,
            }).linked(loose.insert(id)),
    {
        let parent = node.parent->0;
        let after = Shape {
            nodes: self.nodes.insert(id, node),
            depths: self.depths.insert(id, (self.depths[parent] + 1) as nat),
            root: self.root,
        };
        let after_loose = loose.insert(id);
        assert forall|x: NodeId| after.has(x) implies #[trigger] after.fits(after_loose, x) by {
            if x != id {
                assert(self.fits(loose, x));
                if let Some(above) = self.parent(x) {
                    assert(above != id);
                }
                assert(after.ids(x) == self.ids(x));
                assert forall|i: int| 0 <= i < after.ids(x).len() implies after.holds(
                    after_loose,
                    x,
                    #[trigger] after.ids(x)[i],
                ) by {
                    assert(self.holds(loose, x, self.ids(x)[i]));
                }
                assert forall|i: int, j: int|
                    #![trigger after.ids(x)[i], after.ids(x)[j]]
                    0 <= i < j < after.ids(x).len() implies after.nodes[after.ids(x)[i]].name
                    != after.nodes[after.ids(x)[j]].name by {
                    assert(self.holds(loose, x, self.ids(x)[i]));
                    assert(self.holds(loose, x, self.ids(x)[j]));
                }
            }
        }
    }

    /// Without a loose node and what lies below it the nodes still form a tree.
    pub proof fn lemma_cut(self, loose: Set<NodeId>, after: Shape, id: NodeId)
        requires
            self.linked(loose),
            loose.contains(id),
            self.is_cut(after, id),
            after.nodes.dom().finite(),
            forall|x: NodeId| #[trigger] loose.contains(x) && self.within(x, id) ==> x == id,
        ensures
            after.linked(loose.remove(id)),
            after.places_kept(self),
    {
        let after_loose = loose.remove(id);
        assert(self.fits(loose, id));
        assert(self.fits(loose, self.root));
        assert(after.has(self.root));
        assert forall|x: NodeId| after.has(x) implies #[trigger] after.fits(after_loose, x) by {
            assert(self.fits(loose, x));
            if let Some(parent) = self.parent(x) {
                assert(!self.within(parent, id));
                assert(after.has(parent));
            }
            assert forall|i: int| 0 <= i < after.ids(x).len() implies after.holds(
                after_loose,
                x,
                #[trigger] after.ids(x)[i],
            ) by {
                let child = self.ids(x)[i];
                assert(self.holds(loose, x, child));
                assert(self.fits(loose, child));
                assert(after.has(child));
            }
            assert forall|i: int, j: int|
                #![trigger after.ids(x)[i], after.ids(x)[j]]
                0 <= i < j < after.ids(x).len() implies after.nodes[after.ids(x)[i]].name
                != after.nodes[after.ids(x)[j]].name by {
                assert(after.holds(after_loose, x, after.ids(x)[i]));
                assert(after.holds(after_loose, x, after.ids(x)[j]));
            }
        }
        assert forall|x: NodeId| #[trigger] after_loose.contains(x) implies after.has(x) by {
            assert(loose.contains(x));
        }
    }

    /// Whether `after` differs only in what lies below `dir`, and in what `dir` knows of its entries.
    pub open spec fn only_below(self, after: Shape, dir: NodeId) -> bool {
        &&& after.root == self.root
        &&& self.has(dir)
        &&& after.has(dir)
        &&& after.depths[dir] == self.depths[dir]
        &&& after.nodes[dir] == NodeView {
            children: after.nodes[dir].children,
            listed: after.nodes[dir].listed,
            ..self.nodes[dir]
        }
        &&& forall|x: NodeId|
            #![trigger self.has(x)]
            #![trigger after.has(x)]
            self.has(x) && !self.within(x, dir) ==> after.has(x) && after.nodes[x] == self.nodes[x]
                && after.depths[x] == self.depths[x]
        &&& forall|x: NodeId| #[trigger]
            after.has(x) && !after.within(x, dir) ==> self.has(x) && !self.within(x, dir)
    }

    /// Whether the nodes of `after` are nodes of the shape, with their names and places, or none of
    /// the `known` ones.
    pub open spec fn renewed(self, after: Shape, known: Set<NodeId>) -> bool {
        forall|x: NodeId| #[trigger]
            after.has(x) && known.contains(x) ==> {
                &&& self.has(x)
                &&& after.parent(x) == self.parent(x)
                &&& after.depths[x] == self.depths[x]
                &&& after.nodes[x].name == self.nodes[x].name
                &&& after.is_directory(x) == self.is_directory(x)
            }
    }

    pub proof fn lemma_renewed(
        self,
        middle: Shape,
        after: Shape,
        known: Set<NodeId>,
        later: Set<NodeId>,
    )
        requires
            self.renewed(middle, known),
            middle.renewed(after, later),
            known.subset_of(later),
        ensures
            self.renewed(after, known),
    {
        assert forall|x: NodeId| #[trigger] after.has(x) && known.contains(x) implies {
            &&& self.has(x)
            &&& after.parent(x) == self.parent(x)
            &&& after.depths[x] == self.depths[x]
            &&& after.nodes[x].name == self.nodes[x].name
            &&& after.is_directory(x) == self.is_directory(x)
        } by {
            assert(later.contains(x));
            assert(middle.has(x));
        }
    }

    /// What lies within `top` and was known lay there before.
    pub proof fn lemma_renewed_within(
        self,
        after: Shape,
        known: Set<NodeId>,
        top: NodeId,
        x: NodeId,
    )
        requires
            self.wf(),
            after.wf(),
            self.renewed(after, known),
            self.nodes.dom().subset_of(known),
            after.has(x),
            known.contains(x),
            after.within(x, top),
        ensures
            self.has(x),
            self.within(x, top),
        decreases after.depths[x],
    {
        assert(self.has(x));
        assert(self.fits(Set::empty(), x));
        assert(after.fits(Set::empty(), x));
        if x != top {
            let parent = after.parent(x)->0;
            assert(self.nodes.dom().contains(parent));
            self.lemma_renewed_within(after, known, top, parent);
        }
    }

    /// Whether of the `known` nodes only those are below `id` in `after` that were the only entry of
    /// the directory they are in.
    pub open spec fn keeps_only_runs(self, after: Shape, id: NodeId, known: Set<NodeId>) -> bool {
        forall|x: NodeId| #[trigger]
            after.has(x) && after.within(x, id) && x != id && known.contains(x) ==> self.has(x)
                && self.parent(x) is Some && self.only_directory(self.parent(x)->0) == Some(x)
    }

    /// What lies outside of the changes keeps its place.
    pub proof fn lemma_outside(self, after: Shape, dir: NodeId, x: NodeId, y: NodeId)
        requires
            self.wf(),
            self.only_below(after, dir),
            self.has(x),
            !self.within(x, dir),
        ensures
            after.within(x, y) == self.within(x, y),
        decreases self.depths[x],
    {
        assert(self.fits(Set::empty(), x));
        if x != y && x != self.root {
            let parent = self.parent(x)->0;
            assert(self.has(parent));
            self.lemma_outside(after, dir, parent, y);
        }
    }

    pub proof fn lemma_only_below_transitive(self, middle: Shape, after: Shape, dir: NodeId)
        requires
            self.wf(),
            middle.wf(),
            self.only_below(middle, dir),
            middle.only_below(after, dir),
        ensures
            self.only_below(after, dir),
    {
        assert forall|x: NodeId|
            #![trigger self.has(x)]
            #![trigger after.has(x)]
            self.has(x) && !self.within(x, dir) implies after.has(x) && after.nodes[x]
            == self.nodes[x] && after.depths[x] == self.depths[x] by {
            self.lemma_outside(middle, dir, x, dir);
            assert(middle.has(x));
        }
        assert forall|x: NodeId| #[trigger] after.has(x) && !after.within(x, dir) implies self.has(x)
            && !self.within(x, dir) by {
            assert(middle.has(x));
        }
    }

    pub proof fn lemma_only_below_deeper(self, after: Shape, dir: NodeId, child: NodeId)
        requires
            self.wf(),
            after.wf(),
            self.only_below(after, child),
            self.parent(child) == Some(dir),
        ensures
            self.only_below(after, dir),
            after.nodes[dir] == self.nodes[dir],
    {
        self.lemma_within_parent(Set::empty(), child);
        after.lemma_within_parent(Set::empty(), child);
        if self.within(dir, child) {
            self.lemma_depth(dir, child);
        }
        assert forall|x: NodeId|
            #![trigger self.has(x)]
            #![trigger after.has(x)]
            self.has(x) && !self.within(x, dir) implies after.has(x) && after.nodes[x]
            == self.nodes[x] && after.depths[x] == self.depths[x] by {
            if self.within(x, child) {
                self.lemma_within_transitive(x, child, dir);
            }
        }
        assert forall|x: NodeId| #[trigger] after.has(x) && !after.within(x, dir) implies self.has(x)
            && !self.within(x, dir) by {
            if after.within(x, child) {
                after.lemma_within_transitive(x, child, dir);
            }
            self.lemma_outside(after, child, x, dir);
        }
    }

    /// Taking out entries of `dir` after changes below it only changes what lies below it.
    pub proof fn lemma_replaced(
        self,
        middle: Shape,
        loose: Set<NodeId>,
        after: Shape,
        dir: NodeId,
        removed: Seq<NodeId>,
    )
        requires
            self.wf(),
            self.has(dir),
            middle.linked(loose),
            middle.root == self.root,
            middle.nodes[dir] == (NodeView {
                children: middle.nodes[dir].children,
                listed: middle.nodes[dir].listed,
                ..self.nodes[dir]
            }),
            self.places_kept(middle),
            forall|x: NodeId| #[trigger] self.has(x) ==> middle.has(x),
            forall|x: NodeId| #[trigger]
                self.has(x) && !self.within(x, dir) ==> middle.nodes[x] == self.nodes[x],
            forall|x: NodeId| #[trigger]
                middle.has(x) && !self.has(x) ==> middle.parent(x) == Some(dir),
            forall|i: int|
                0 <= i < removed.len() ==> self.has(#[trigger] removed[i]) && self.parent(removed[i])
                    == Some(dir),
            middle.are_cut(after, removed),
            after.wf(),
        ensures
            self.only_below(after, dir),
    {
        assert forall|i: int| 0 <= i < removed.len() implies self.within(
            #[trigger] removed[i],
            dir,
        ) by {
            self.lemma_within_parent(Set::empty(), removed[i]);
        }
        assert(middle.has(dir));
        if middle.below_any(removed, dir) {
            let i = choose|i: int| 0 <= i < removed.len() && middle.within(dir, #[trigger] removed[i]);
            self.lemma_places_kept(Set::empty(), middle, dir, removed[i]);
            self.lemma_depth(dir, removed[i]);
            assert(self.fits(Set::empty(), removed[i]));
        }
        assert(after.has(dir));
        assert forall|x: NodeId|
            #![trigger self.has(x)]
            #![trigger after.has(x)]
            self.has(x) && !self.within(x, dir) implies after.has(x) && after.nodes[x]
            == self.nodes[x] && after.depths[x] == self.depths[x] by {
            assert(middle.has(x));
            if middle.below_any(removed, x) {
                let i = choose|i: int|
                    0 <= i < removed.len() && middle.within(x, #[trigger] removed[i]);
                self.lemma_places_kept(Set::empty(), middle, x, removed[i]);
                assert(self.within(removed[i], dir));
                self.lemma_within_transitive(x, removed[i], dir);
            }
            assert(after.has(x));
            assert(after.nodes[x] == middle.nodes[x]);
        }
        assert forall|x: NodeId| #[trigger] after.has(x) && !after.within(x, dir) implies self.has(x)
            && !self.within(x, dir) by {
            assert(middle.has(x));
            if after.parent(x) is Some {
                after.lemma_within_parent(Set::empty(), x);
            }
            if self.has(x) {
                self.lemma_places_kept(Set::empty(), middle, x, dir);
                assert(after.places_kept(middle));
                after.lemma_places_kept(Set::empty(), middle, x, dir);
            }
        }
    }

    /// Whether `id` is a collapsed directory that holds nothing but the run of directories `names`.
    pub open spec fn is_run(self, id: NodeId, names: Seq<Seq<u8>>) -> bool
        decreases names.len(),
    {
        &&& self.has(id)
        &&& self.is_directory(id)
        &&& !self.nodes[id].expanded
        &&& !self.nodes[id].listed
        &&& if names.len() == 0 {
            self.nodes[id].children is Unloaded
        } else {
            &&& self.nodes[id].children is Loaded
            &&& self.ids(id).len() == 1
            &&& self.nodes[self.ids(id)[0]].name == names[0]
            &&& self.is_run(self.ids(id)[0], names.skip(1))
        }
    }

    /// Whether the only entry of `id` is the directory `name`.
    pub open spec fn starts_run(self, id: NodeId, name: Seq<u8>) -> bool {
        &&& self.ids(id).len() == 1
        &&& self.nodes[self.ids(id)[0]].name == name
        &&& self.is_directory(self.ids(id)[0])
    }

    /// Whether the nodes of the run `names` below `id` are still those of before in `after`, as far
    /// as the run was there.
    pub open spec fn run_kept(self, after: Shape, id: NodeId, names: Seq<Seq<u8>>) -> bool
        decreases names.len(),
    {
        names.len() > 0 && self.starts_run(id, names[0]) ==> after.ids(id) == self.ids(id)
            && self.run_kept(after, self.ids(id)[0], names.skip(1))
    }

    /// Whether `other` knows the same of `x` as a place in a run.
    pub open spec fn same_step(self, other: Shape, x: NodeId) -> bool {
        &&& other.ids(x) == self.ids(x)
        &&& other.nodes[x].name == self.nodes[x].name
        &&& other.is_directory(x) == self.is_directory(x)
    }

    pub proof fn lemma_run_kept_same(
        self,
        other: Shape,
        after: Shape,
        top: NodeId,
        id: NodeId,
        names: Seq<Seq<u8>>,
    )
        requires
            self.wf(),
            self.has(id),
            self.within(id, top),
            forall|x: NodeId| #[trigger]
                self.has(x) && self.within(x, top) ==> self.same_step(other, x),
            other.run_kept(after, id, names),
        ensures
            self.run_kept(after, id, names),
        decreases names.len(),
    {
        if names.len() > 0 && self.starts_run(id, names[0]) {
            assert(self.fits(Set::empty(), id));
            let child = self.ids(id)[0];
            assert(self.holds(Set::empty(), id, child));
            self.lemma_within_parent(Set::empty(), child);
            self.lemma_within_transitive(child, id, top);
            assert(self.same_step(other, id));
            assert(self.same_step(other, child));
            self.lemma_run_kept_same(other, after, top, child, names.skip(1));
        }
    }

    /// Whether what lies within `top` is the same in `other`.
    pub open spec fn same_within(self, other: Shape, top: NodeId) -> bool {
        &&& forall|x: NodeId| #[trigger]
            self.has(x) && self.within(x, top) ==> other.has(x) && other.within(x, top)
                && other.nodes[x] == self.nodes[x] && other.depths[x] == self.depths[x]
        &&& forall|x: NodeId| #[trigger]
            other.has(x) && other.within(x, top) ==> self.has(x) && self.within(x, top)
    }

    /// Changes below one node leave what lies within its siblings.
    pub proof fn lemma_sibling(self, after: Shape, dir: NodeId, changed: NodeId, other: NodeId)
        requires
            self.wf(),
            after.wf(),
            self.only_below(after, changed),
            self.has(other),
            self.parent(changed) == Some(dir),
            self.parent(other) == Some(dir),
            changed != other,
        ensures
            self.same_within(after, other),
            after.parent(other) == Some(dir),
            after.parent(changed) == Some(dir),
    {
        self.lemma_within_parent(Set::empty(), changed);
        self.lemma_within_parent(Set::empty(), other);
        if self.within(other, changed) {
            self.lemma_depth(other, changed);
        }
        assert(after.has(other));
        assert forall|x: NodeId| #[trigger] self.has(x) && self.within(x, other) implies after.has(x)
            && after.within(x, other) && after.nodes[x] == self.nodes[x] && after.depths[x]
            == self.depths[x] by {
            if self.within(x, changed) {
                self.lemma_one_ancestor(x, changed, other);
            }
            self.lemma_outside(after, changed, x, other);
        }
        assert forall|x: NodeId| #[trigger] after.has(x) && after.within(x, other) implies self.has(x)
            && self.within(x, other) by {
            if after.within(x, changed) {
                after.lemma_one_ancestor(x, changed, other);
            }
            self.lemma_outside(after, changed, x, other);
        }
    }

    pub proof fn lemma_same_within_transitive(self, middle: Shape, after: Shape, top: NodeId)
        requires
            self.same_within(middle, top),
            middle.same_within(after, top),
        ensures
            self.same_within(after, top),
    {
        assert forall|x: NodeId| #[trigger] self.has(x) && self.within(x, top) implies after.has(x)
            && after.within(x, top) && after.nodes[x] == self.nodes[x] && after.depths[x]
            == self.depths[x] by {
            assert(middle.has(x));
        }
        assert forall|x: NodeId| #[trigger] after.has(x) && after.within(x, top) implies self.has(x)
            && self.within(x, top) by {
            assert(middle.has(x));
        }
    }

    pub proof fn lemma_is_run_same(self, after: Shape, top: NodeId, id: NodeId, names: Seq<Seq<u8>>)
        requires
            self.wf(),
            self.same_within(after, top),
            self.is_run(id, names),
            self.within(id, top),
        ensures
            after.is_run(id, names),
        decreases names.len(),
    {
        assert(after.has(id) && after.nodes[id] == self.nodes[id]);
        if names.len() > 0 {
            assert(self.fits(Set::empty(), id));
            let child = self.ids(id)[0];
            assert(self.holds(Set::empty(), id, child));
            self.lemma_within_parent(Set::empty(), child);
            self.lemma_within_transitive(child, id, top);
            assert(after.nodes[child] == self.nodes[child]);
            self.lemma_is_run_same(after, top, child, names.skip(1));
        }
    }

    /// A run that was kept is still kept where it stays the same.
    pub proof fn lemma_run_kept_after(
        self,
        middle: Shape,
        after: Shape,
        top: NodeId,
        id: NodeId,
        names: Seq<Seq<u8>>,
    )
        requires
            middle.wf(),
            middle.same_within(after, top),
            middle.is_run(id, names),
            middle.within(id, top),
            self.run_kept(middle, id, names),
        ensures
            self.run_kept(after, id, names),
        decreases names.len(),
    {
        if names.len() > 0 && self.starts_run(id, names[0]) {
            assert(middle.fits(Set::empty(), id));
            let child = middle.ids(id)[0];
            assert(middle.holds(Set::empty(), id, child));
            middle.lemma_within_parent(Set::empty(), child);
            middle.lemma_within_transitive(child, id, top);
            assert(after.nodes[id] == middle.nodes[id]);
            self.lemma_run_kept_after(middle, after, top, child, names.skip(1));
        }
    }

    /// In a run no node has more than one entry.
    pub proof fn lemma_run_below(self, id: NodeId, names: Seq<Seq<u8>>, x: NodeId)
        requires
            self.wf(),
            self.is_run(id, names),
            self.has(x),
            self.within(x, id),
        ensures
            self.ids(x).len() <= 1,
        decreases names.len(),
    {
        if x != id {
            let none = Set::<NodeId>::empty();
            let child = self.lemma_step(none, x, id);
            assert(self.fits(none, child));
            assert(self.ids(id).contains(child));
            assert(names.len() > 0);
            assert(self.ids(id)[0] == child);
            self.lemma_run_below(child, names.skip(1), x);
        }
    }

    /// The order of nodes as entries of one directory.
    pub open spec fn comes_before(self, sort: FileTreeSort) -> spec_fn(NodeId, NodeId) -> bool {
        |a: NodeId, b: NodeId|
            entry_order(
                sort,
                lossy(self.nodes[a].name),
                self.nodes[a].kind.group_of(),
                lossy(self.nodes[b].name),
                self.nodes[b].kind.group_of(),
            ).sign() <= 0
    }

    /// Whether the known entries of `id` are in order.
    pub open spec fn lists_in_order(self, sort: FileTreeSort, id: NodeId) -> bool {
        in_order(self.ids(id), self.comes_before(sort))
    }

    /// Whether the known entries of every directory are in order.
    pub open spec fn ordered(self, sort: FileTreeSort) -> bool {
        forall|id: NodeId| self.has(id) ==> #[trigger] self.lists_in_order(sort, id)
    }

    pub proof fn lemma_still_in_order(self, after: Shape, sort: FileTreeSort, id: NodeId)
        requires
            self.lists_in_order(sort, id),
            after.ids(id) == self.ids(id),
            forall|i: int|
                0 <= i < self.ids(id).len() ==> after.nodes[#[trigger] self.ids(id)[i]].name
                    == self.nodes[self.ids(id)[i]].name && after.nodes[self.ids(id)[i]].kind
                    == self.nodes[self.ids(id)[i]].kind,
        ensures
            after.lists_in_order(sort, id),
    {
        let ids = self.ids(id);
        assert forall|i: int, j: int|
            #![trigger ids[i], ids[j]]
            0 <= i < j < ids.len() implies after.comes_before(sort)(ids[i], ids[j]) by {
            assert(self.comes_before(sort)(ids[i], ids[j]));
        }
    }

    pub proof fn lemma_comes_before_is_total(self, sort: FileTreeSort)
        ensures
            total_preorder(self.comes_before(sort)),
    {
        let le = self.comes_before(sort);
        assert forall|a: NodeId, b: NodeId| #[trigger] le(a, b) || le(b, a) by {
            law_entry_order_is_total(
                sort,
                lossy(self.nodes[a].name),
                self.nodes[a].kind.group_of(),
                lossy(self.nodes[b].name),
                self.nodes[b].kind.group_of(),
                lossy(self.nodes[a].name),
                self.nodes[a].kind.group_of(),
            );
        }
        assert forall|a: NodeId, b: NodeId, c: NodeId|
            #![trigger le(a, b), le(b, c)]
            le(a, b) && le(b, c) implies le(a, c) by {
            law_entry_order_is_total(
                sort,
                lossy(self.nodes[a].name),
                self.nodes[a].kind.group_of(),
                lossy(self.nodes[b].name),
                self.nodes[b].kind.group_of(),
                lossy(self.nodes[c].name),
                self.nodes[c].kind.group_of(),
            );
        }
    }

    pub proof fn lemma_named_same(self, other: Shape, ids: Seq<NodeId>, name: Seq<u8>)
        requires
            forall|k: int|
                0 <= k < ids.len() ==> other.nodes[#[trigger] ids[k]].name
                    == self.nodes[ids[k]].name,
        ensures
            other.named(ids, name) == self.named(ids, name),
        decreases ids.len(),
    {
        if ids.len() > 0 {
            assert(other.nodes[ids[0]].name == self.nodes[ids[0]].name);
            assert forall|k: int| 0 <= k < ids.len() - 1 implies other.nodes[#[trigger] ids.skip(
                1,
            )[k]].name == self.nodes[ids.skip(1)[k]].name by {
                assert(ids.skip(1)[k] == ids[k + 1]);
            }
            self.lemma_named_same(other, ids.skip(1), name);
        }
    }

    /// What is found by its name is one of `ids` and has the name.
    pub proof fn lemma_named_some(self, ids: Seq<NodeId>, name: Seq<u8>)
        requires
            self.named(ids, name) is Some,
        ensures
            ids.contains(self.named(ids, name)->0),
            self.nodes[self.named(ids, name)->0].name == name,
        decreases ids.len(),
    {
        if ids.len() > 0 {
            assert(ids[0] == ids[0] && ids.contains(ids[0]));
            if self.nodes[ids[0]].name != name {
                self.lemma_named_some(ids.skip(1), name);
                let found = self.named(ids, name)->0;
                let k = ids.skip(1).index_of(found);
                assert(ids[k + 1] == found);
            }
        }
    }
}

impl Shape {
    /// The known entries of a directory are in the order of the tree: none comes after a later one.
    pub proof fn law_entries_are_listed_in_tree_order(
        self,
        sort: FileTreeSort,
        dir: NodeId,
        i: int,
        j: int,
    )
        requires
            self.has(dir),
            self.ordered(sort),
            0 <= i < j < self.ids(dir).len(),
        ensures
            ({
                let (a, b) = (self.nodes[self.ids(dir)[i]], self.nodes[self.ids(dir)[j]]);
                !(entry_order(
                    sort,
                    lossy(a.name),
                    a.kind.group_of(),
                    lossy(b.name),
                    b.kind.group_of(),
                ) is Greater)
            }),
    {
        assert(self.lists_in_order(sort, dir));
        assert(self.comes_before(sort)(self.ids(dir)[i], self.ids(dir)[j]));
    }

    /// The path of an entry is that of its directory and its name, and the root has none.
    pub proof fn law_paths_are_made_of_names(self, id: NodeId)
        requires
            self.wf(),
            self.has(id),
        ensures
            id == self.root ==> self.path(id).len() == 0,
            id != self.root ==> (self.parent(id) matches Some(parent) && self.path(id) == self.path(
                parent,
            ).push(Part::Normal(self.nodes[id].name))),
    {
        assert(self.fits(Set::empty(), id));
    }
}

} // verus!
