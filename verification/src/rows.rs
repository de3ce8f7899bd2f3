//! The rows the file tree shows: the expanded part of the [`Tree`] flattened in tree order.

use crate::arena::{Kind, NodeId};
use crate::chars::{chars_of_str, string_of};
use crate::names::{copy_name, lossy, name_text, Component, Part, TreePath};
use crate::shape::Shape;
use crate::tree::Tree;
use crate::width::{text_width, width_of};
use vstd::prelude::*;

verus! {

#[derive(Debug)]
pub struct Row {
    /// The entry the row stands for. For a single-child run this is its last directory.
    pub node: NodeId,
    /// The first directory of a single-child run, else `node`.
    pub head: NodeId,
    /// The row this one hangs from; `None` only for the root row.
    pub parent: Option<usize>,
    /// The number of rows between this one and the root row: its ancestor lanes.
    pub depth: usize,
    /// Whether no later row hangs from the same parent.
    pub last: bool,
    /// The path of `node` relative to the root.
    pub path: TreePath,
    /// What the row reads: the entry's name, or the path of a run like `src/main/java`.
    pub label: String,
    /// The display width of `label`.
    pub label_width: usize,
}

/// What a row holds.
pub ghost struct RowView {
    pub node: NodeId,
    pub head: NodeId,
    pub parent: Option<int>,
    pub depth: int,
    pub last: bool,
    pub path: Seq<Part>,
    pub label: Seq<char>,
    pub label_width: int,
}

impl Row {
    pub open spec fn view(&self) -> RowView {
        RowView {
            node: self.node,
            head: self.head,
            parent: match self.parent {
                Some(parent) => Some(parent as int),
                None => None,
            },
            depth: self.depth as int,
            last: self.last,
            path: self.path@,
            label: self.label@,
            label_width: self.label_width as int,
        }
    }
}

/// A control code. Those are the chars of the general category `Cc`.
pub open spec fn is_control(c: char) -> bool {
    c as u32 <= 0x1f || 0x7f <= c as u32 <= 0x9f
}

/// `char::is_control` holds of the control codes.
pub assume_specification[ char::is_control ](c: char) -> (control: bool)
    ensures
        control == is_control(c),
;

/// A name with control codes replaced.
pub open spec fn cleaned(text: Seq<char>) -> Seq<char> {
    text.map_values(
        |c: char|
            if is_control(c) {
                '?'
            } else {
                c
            },
    )
}

/// A file name as the tree shows it.
pub open spec fn shown_name(name: Seq<u8>) -> Seq<char> {
    cleaned(lossy(name))
}

/// A file name as the tree shows it: lossily decoded, with control characters replaced so they
/// cannot corrupt the terminal.
fn display_name(name: &Vec<u8>) -> (shown: Vec<char>)
    ensures
        shown@ == shown_name(name@),
{
    let text: String = name_text(name);
    let chars: Vec<char> = chars_of_str(text.as_str());
    let mut shown: Vec<char> = Vec::new();
    let mut i: usize = 0;
    while i < chars.len()
        invariant
            i <= chars@.len(),
            shown@ == cleaned(chars@.take(i as int)),
        decreases chars.len() - i,
    {
        let c: char = chars[i];
        let ghost before = chars@.take(i as int);
        assert(chars@.take(i + 1) =~= before.push(c));
        if c.is_control() {
            shown.push('?');
        } else {
            shown.push(c);
        }
        i += 1;
        assert(shown@ =~= cleaned(chars@.take(i as int)));
    }
    assert(chars@.take(i as int) =~= chars@);
    shown
}

impl Shape {
    /// How far the nodes below `id` can go on.
    pub open spec fn levels_left(self, id: NodeId) -> nat {
        if self.depths[id] < self.nodes.len() {
            (self.nodes.len() - self.depths[id]) as nat
        } else {
            0
        }
    }

    /// The last directory of the single-child run that starts at `id`.
    pub open spec fn run_end(self, id: NodeId) -> NodeId
        decreases self.levels_left(id),
    {
        match self.only_directory(id) {
            Some(next) => if self.levels_left(next) < self.levels_left(id) {
                self.run_end(next)
            } else {
                id
            },
            None => id,
        }
    }

    /// The entry that the row of `head` stands for.
    pub open spec fn row_node(self, flatten_dirs: bool, head: NodeId) -> NodeId {
        if flatten_dirs && self.is_directory(head) {
            self.run_end(head)
        } else {
            head
        }
    }

    /// What the row of a run from `head` to `node` reads.
    pub open spec fn run_label(self, head: NodeId, node: NodeId) -> Seq<char>
        decreases self.depths[node],
    {
        let name = shown_name(self.nodes[node].name);
        match self.parent(node) {
            Some(parent) => if node != head && self.depths[parent] < self.depths[node] {
                self.run_label(head, parent) + seq!['/'] + name
            } else {
                name
            },
            None => name,
        }
    }

    /// The row of `head`.
    pub open spec fn row(
        self,
        flatten_dirs: bool,
        head: NodeId,
        parent: Option<int>,
        depth: int,
        last: bool,
    ) -> RowView {
        let node = self.row_node(flatten_dirs, head);
        let label = self.run_label(head, node);
        RowView {
            node,
            head,
            parent,
            depth,
            last,
            path: self.path(node),
            label,
            label_width: width_of(label) as int,
        }
    }

    /// The rows of the entries of `dir` from the one at `i` on and of what is expanded below them,
    /// where `dir` has the row `parent`, the next row is `next`, and the rows of the entries have
    /// `depth` lanes.
    pub open spec fn rows_from(
        self,
        flatten_dirs: bool,
        dir: NodeId,
        i: int,
        parent: int,
        next: int,
        depth: int,
    ) -> Seq<RowView>
        decreases self.levels_left(dir), self.ids(dir).len() - i,
    {
        if 0 <= i < self.ids(dir).len() {
            let head = self.ids(dir)[i];
            let last = i + 1 == self.ids(dir).len();
            let row = self.row(flatten_dirs, head, Some(parent), depth, last);
            let below = if self.nodes[row.node].expanded && self.levels_left(row.node)
                < self.levels_left(dir) {
                self.rows_from(flatten_dirs, row.node, 0, next, next + 1, depth + 1)
            } else {
                Seq::empty()
            };
            seq![row] + below + self.rows_from(
                flatten_dirs,
                dir,
                i + 1,
                parent,
                next + 1 + below.len(),
                depth,
            )
        } else {
            Seq::empty()
        }
    }

    /// The row of the root.
    pub open spec fn root_row(self) -> RowView {
        let label = shown_name(self.nodes[self.root].name);
        RowView {
            node: self.root,
            head: self.root,
            parent: None,
            depth: 0,
            last: true,
            path: Seq::empty(),
            label,
            label_width: width_of(label) as int,
        }
    }

    /// The rows of the tree.
    pub open spec fn rows(self, flatten_dirs: bool) -> Seq<RowView> {
        seq![self.root_row()] + self.rows_from(flatten_dirs, self.root, 0, 0, 1, 0)
    }

    /// Whether `row` shows `id`: it stands for it, or for a run that it is part of.
    pub open spec fn shows(self, row: RowView, id: NodeId) -> bool {
        self.has(id) && self.within(row.node, id) && self.within(id, row.head)
    }

    /// Whether the row `at` of `rows` shows `id`, or none does.
    pub open spec fn shown_at(self, rows: Seq<RowView>, id: NodeId, at: Option<usize>) -> bool {
        match at {
            Some(i) => i < rows.len() && self.shows(rows[i as int], id),
            None => forall|i: int| 0 <= i < rows.len() ==> !self.shows(#[trigger] rows[i], id),
        }
    }

    spec fn above(self, id: NodeId) -> Set<NodeId>
        decreases self.depths[id],
    {
        match self.parent(id) {
            Some(parent) => if self.depths[parent] < self.depths[id] {
                self.above(parent).insert(id)
            } else {
                Set::empty().insert(id)
            },
            None => Set::empty().insert(id),
        }
    }

    proof fn lemma_above(self, id: NodeId)
        requires
            self.wf(),
            self.has(id),
        ensures
            self.above(id).finite(),
            self.above(id).len() == self.depths[id] + 1,
            self.above(id).subset_of(self.nodes.dom()),
            forall|x: NodeId| #[trigger] self.above(id).contains(x) ==> self.depths[x] <= self.depths[id],
        decreases self.depths[id],
    {
        assert(self.fits(Set::empty(), id));
        if self.parent(id) is Some {
            self.lemma_above(self.parent(id)->0);
        }
    }

    /// No node lies as deep as there are nodes.
    pub proof fn lemma_depth_bound(self, id: NodeId)
        requires
            self.wf(),
            self.has(id),
        ensures
            self.depths[id] < self.nodes.len(),
    {
        self.lemma_above(id);
        vstd::set_lib::lemma_len_subset(self.above(id), self.nodes.dom());
    }

    /// The end of a run is a node within its start.
    pub proof fn lemma_run_end(self, id: NodeId)
        requires
            self.wf(),
            self.has(id),
        ensures
            self.has(self.run_end(id)),
            self.within(self.run_end(id), id),
            self.levels_left(self.run_end(id)) <= self.levels_left(id),
            self.depths[id] <= self.depths[self.run_end(id)],
        decreases self.levels_left(id),
    {
        let none = Set::<NodeId>::empty();
        self.lemma_depth_bound(id);
        if self.only_directory(id) is Some {
            let next = self.only_directory(id)->0;
            assert(self.fits(none, id));
            assert(self.holds(none, id, self.ids(id)[0]));
            self.lemma_within_parent(none, next);
            self.lemma_depth_bound(next);
            self.lemma_run_end(next);
            self.lemma_within_transitive(self.run_end(next), next, id);
        }
    }
}

impl Shape {
    /// Whether `x` lies within one of the entries of `dir` from the one at `i` on.
    spec fn in_entries(self, dir: NodeId, i: int, x: NodeId) -> bool {
        exists|k: int| i <= k < self.ids(dir).len() && self.within(x, #[trigger] self.ids(dir)[k])
    }

    /// Whether the row is one of a node that lies within an entry of `dir` from the one at `i` on.
    spec fn row_in_entries(self, dir: NodeId, i: int, row: RowView) -> bool {
        &&& self.has(row.head)
        &&& self.has(row.node)
        &&& self.within(row.node, row.head)
        &&& self.in_entries(dir, i, row.head)
    }

    spec fn share_no_node(self, a: RowView, b: RowView) -> bool {
        forall|x: NodeId| !(self.shows(a, x) && self.shows(b, x))
    }

    proof fn lemma_rows_from(
        self,
        flatten_dirs: bool,
        dir: NodeId,
        i: int,
        parent: int,
        next: int,
        depth: int,
    )
        requires
            self.wf(),
            self.has(dir),
            0 <= i,
        ensures
            ({
                let rows = self.rows_from(flatten_dirs, dir, i, parent, next, depth);
                &&& forall|r: int|
                    0 <= r < rows.len() ==> self.row_in_entries(dir, i, #[trigger] rows[r])
                &&& forall|q: int, r: int|
                    0 <= q < r < rows.len() ==> self.share_no_node(
                        #[trigger] rows[q],
                        #[trigger] rows[r],
                    )
            }),
        decreases self.levels_left(dir), self.ids(dir).len() - i,
    {
        let rows = self.rows_from(flatten_dirs, dir, i, parent, next, depth);
        if i < self.ids(dir).len() {
            let none = Set::<NodeId>::empty();
            let head = self.ids(dir)[i];
            let last = i + 1 == self.ids(dir).len();
            let row = self.row(flatten_dirs, head, Some(parent), depth, last);
            let node = row.node;
            assert(self.fits(none, dir));
            assert(self.holds(none, dir, self.ids(dir)[i]));
            self.lemma_within_parent(none, head);
            self.lemma_run_end(head);
            self.lemma_depth_bound(dir);
            self.lemma_depth_bound(node);
            self.lemma_depth(node, head);
            let below = if self.nodes[node].expanded {
                self.rows_from(flatten_dirs, node, 0, next, next + 1, depth + 1)
            } else {
                Seq::empty()
            };
            if self.nodes[node].expanded {
                self.lemma_rows_from(flatten_dirs, node, 0, next, next + 1, depth + 1);
            }
            let rest = self.rows_from(
                flatten_dirs,
                dir,
                i + 1,
                parent,
                next + 1 + below.len(),
                depth,
            );
            self.lemma_rows_from(flatten_dirs, dir, i + 1, parent, next + 1 + below.len(), depth);
            assert(rows == seq![row] + below + rest);
            assert(self.within(head, head));
            assert(self.in_entries(dir, i, head));
            assert forall|r: int| 0 <= r < below.len() implies self.has((#[trigger] below[r]).head)
                && self.has(below[r].node) && self.within(below[r].node, below[r].head)
                && self.within(below[r].head, head) && self.depths[below[r].head]
                > self.depths[node] by {
                assert(self.row_in_entries(node, 0, below[r]));
                let k = choose|k: int|
                    0 <= k < self.ids(node).len() && self.within(
                        below[r].head,
                        #[trigger] self.ids(node)[k],
                    );
                let child = self.ids(node)[k];
                assert(self.fits(none, node));
                assert(self.holds(none, node, self.ids(node)[k]));
                self.lemma_within_parent(none, child);
                self.lemma_depth(below[r].head, child);
                self.lemma_within_transitive(below[r].head, child, node);
                self.lemma_within_transitive(below[r].head, node, head);
            }
            let first = seq![row] + below;
            assert forall|r: int| 0 <= r < first.len() implies self.has((#[trigger] first[r]).head)
                && self.has(first[r].node) && self.within(first[r].node, first[r].head)
                && self.within(first[r].head, head) by {
                if r > 0 {
                    assert(first[r] == below[r - 1]);
                }
            }
            assert forall|r: int| 0 <= r < rows.len() implies self.row_in_entries(
                dir,
                i,
                #[trigger] rows[r],
            ) by {
                if r < first.len() {
                    assert(rows[r] == first[r]);
                    assert(self.within(first[r].head, self.ids(dir)[i]));
                } else {
                    assert(rows[r] == rest[r - first.len()]);
                    assert(self.row_in_entries(dir, i + 1, rest[r - first.len()]));
                    let k = choose|k: int|
                        i + 1 <= k < self.ids(dir).len() && self.within(
                            rows[r].head,
                            #[trigger] self.ids(dir)[k],
                        );
                    assert(self.within(rows[r].head, self.ids(dir)[k]));
                }
            }
            assert forall|q: int, r: int| 0 <= q < r < rows.len() implies self.share_no_node(
                #[trigger] rows[q],
                #[trigger] rows[r],
            ) by {
                if r < first.len() {
                    assert(rows[r] == below[r - 1]);
                    if q == 0 {
                        assert(rows[0] == row);
                        assert forall|x: NodeId| !(self.shows(row, x) && self.shows(
                            below[r - 1],
                            x,
                        )) by {
                            if self.shows(row, x) && self.shows(below[r - 1], x) {
                                self.lemma_depth(node, x);
                                self.lemma_depth(x, below[r - 1].head);
                            }
                        }
                    } else {
                        assert(rows[q] == below[q - 1]);
                    }
                } else if q >= first.len() {
                    assert(rows[q] == rest[q - first.len()]);
                    assert(rows[r] == rest[r - first.len()]);
                } else {
                    assert(rows[q] == first[q]);
                    assert(rows[r] == rest[r - first.len()]);
                    assert(self.row_in_entries(dir, i + 1, rest[r - first.len()]));
                    let k = choose|k: int|
                        i + 1 <= k < self.ids(dir).len() && self.within(
                            rows[r].head,
                            #[trigger] self.ids(dir)[k],
                        );
                    let other = self.ids(dir)[k];
                    assert(self.holds(none, dir, self.ids(dir)[k]));
                    self.lemma_within_parent(none, other);
                    assert(head != other);
                    assert forall|x: NodeId| !(self.shows(rows[q], x) && self.shows(
                        rows[r],
                        x,
                    )) by {
                        if self.shows(rows[q], x) && self.shows(rows[r], x) {
                            self.lemma_within_transitive(x, rows[q].head, head);
                            self.lemma_within_transitive(x, rows[r].head, other);
                            self.lemma_one_ancestor(x, head, other);
                        }
                    }
                }
            }
        }
    }

    /// The rows are those of nodes, each within the first of its run.
    pub proof fn lemma_rows_in_tree(self, flatten_dirs: bool, i: int)
        requires
            self.wf(),
            0 <= i < self.rows(flatten_dirs).len(),
        ensures
            self.has(self.rows(flatten_dirs)[i].node),
            self.has(self.rows(flatten_dirs)[i].head),
            self.within(self.rows(flatten_dirs)[i].node, self.rows(flatten_dirs)[i].head),
    {
        let rest = self.rows_from(flatten_dirs, self.root, 0, 0, 1, 0);
        self.lemma_rows_from(flatten_dirs, self.root, 0, 0, 1, 0);
        if i > 0 {
            assert(self.rows(flatten_dirs)[i] == rest[i - 1]);
        }
    }

    /// No node is shown in two rows.
    pub proof fn law_nodes_have_one_row(self, flatten_dirs: bool, id: NodeId, i: int, j: int)
        requires
            self.wf(),
            0 <= i < self.rows(flatten_dirs).len(),
            0 <= j < self.rows(flatten_dirs).len(),
            self.shows(self.rows(flatten_dirs)[i], id),
            self.shows(self.rows(flatten_dirs)[j], id),
        ensures
            i == j,
    {
        let none = Set::<NodeId>::empty();
        let rows = self.rows(flatten_dirs);
        let rest = self.rows_from(flatten_dirs, self.root, 0, 0, 1, 0);
        self.lemma_rows_from(flatten_dirs, self.root, 0, 0, 1, 0);
        if i != j {
            let (p, q) = if i < j {
                (i, j)
            } else {
                (j, i)
            };
            assert(rows[q] == rest[q - 1]);
            if p == 0 {
                self.lemma_depth(self.root, id);
                assert(self.row_in_entries(self.root, 0, rest[q - 1]));
                let k = choose|k: int|
                    0 <= k < self.ids(self.root).len() && self.within(
                        rest[q - 1].head,
                        #[trigger] self.ids(self.root)[k],
                    );
                assert(self.fits(none, self.root));
                assert(self.holds(none, self.root, self.ids(self.root)[k]));
                self.lemma_within_parent(none, self.ids(self.root)[k]);
                self.lemma_depth(rest[q - 1].head, self.ids(self.root)[k]);
                self.lemma_depth(id, rest[q - 1].head);
            } else {
                assert(rows[p] == rest[p - 1]);
                assert(self.share_no_node(rest[p - 1], rest[q - 1]));
            }
        }
    }
}

/// The rows of the tree, from top to bottom.
#[derive(Debug)]
pub struct Rows {
    rows: Vec<Row>,
    /// The row of every node that has one, including every directory of a run.
    index: Vec<(NodeId, usize)>,
}

/// What the rows hold.
pub open spec fn row_views(rows: Seq<Row>) -> Seq<RowView> {
    rows.map_values(|row: Row| row@)
}

/// Where `node` stands in `index`.
pub open spec fn indexed_at(index: Seq<(NodeId, usize)>, node: NodeId) -> Option<usize>
    decreases index.len(),
{
    if index.len() == 0 {
        None
    } else if index[0].0 == node {
        Some(index[0].1)
    } else {
        indexed_at(index.skip(1), node)
    }
}

/// Whether the rows hang together: all but the first hang from an earlier one, and have one lane
/// more than it, unless that is the first.
pub open spec fn rows_wf(rows: Seq<RowView>) -> bool {
    forall|i: int| 0 <= i < rows.len() ==> row_fits(rows, i, #[trigger] rows[i])
}

pub open spec fn row_fits(rows: Seq<RowView>, i: int, row: RowView) -> bool {
    match row.parent {
        None => i == 0 && row.depth == 0,
        Some(parent) => {
            &&& 0 <= parent < i
            &&& row.depth == if parent == 0 {
                0
            } else {
                rows[parent].depth + 1
            }
        },
    }
}

/// A row has fewer lanes than there are rows before it.
pub proof fn lemma_row_depth(rows: Seq<RowView>, i: int)
    requires
        rows_wf(rows),
        0 < i < rows.len(),
    ensures
        rows[i].depth < i,
    decreases i,
{
    assert(row_fits(rows, i, rows[i]));
    if rows[i].parent->0 > 0 {
        lemma_row_depth(rows, rows[i].parent->0);
    }
}

/// The rows that row `i` hangs from, outermost first.
pub open spec fn ancestors_of(rows: Seq<RowView>, i: int) -> Seq<int>
    decreases i,
{
    match rows[i].parent {
        Some(parent) => if 0 <= parent < i {
            ancestors_of(rows, parent).push(parent)
        } else {
            Seq::empty()
        },
        None => Seq::empty(),
    }
}

/// For each ancestor lane of row `i`, outermost first: whether it continues below the row.
pub open spec fn lanes_of(rows: Seq<RowView>, i: int) -> Seq<bool>
    decreases i,
{
    match rows[i].parent {
        Some(parent) => if 0 < parent < i {
            lanes_of(rows, parent).push(!rows[parent].last)
        } else {
            Seq::empty()
        },
        None => Seq::empty(),
    }
}

/// A row has as many lanes as it is deep.
pub proof fn law_lanes_are_the_depth(rows: Seq<RowView>, i: int)
    requires
        rows_wf(rows),
        0 <= i < rows.len(),
    ensures
        lanes_of(rows, i).len() == rows[i].depth,
    decreases i,
{
    assert(row_fits(rows, i, rows[i]));
    if let Some(parent) = rows[i].parent {
        if parent != 0 {
            law_lanes_are_the_depth(rows, parent);
        }
    }
}

/// Every row but the root row hangs from the root row.
pub proof fn law_rows_hang_from_the_root(rows: Seq<RowView>, i: int)
    requires
        rows_wf(rows),
        0 < i < rows.len(),
    ensures
        ancestors_of(rows, i).len() > 0,
        ancestors_of(rows, i)[0] == 0,
        forall|k: int|
            0 <= k < ancestors_of(rows, i).len() ==> 0 <= #[trigger] ancestors_of(rows, i)[k] < i,
    decreases i,
{
    assert(row_fits(rows, i, rows[i]));
    let parent = rows[i].parent->0;
    let rest = ancestors_of(rows, parent);
    assert(ancestors_of(rows, i) == rest.push(parent));
    if parent != 0 {
        law_rows_hang_from_the_root(rows, parent);
        assert forall|k: int| 0 <= k < rest.push(parent).len() implies 0 <= #[trigger] rest.push(
            parent,
        )[k] < i by {
            if k < rest.len() {
                assert(rest.push(parent)[k] == rest[k]);
            }
        }
    } else {
        assert(row_fits(rows, 0, rows[0]));
        assert(rest =~= Seq::<int>::empty());
    }
}

proof fn lemma_indexed_at(index: Seq<(NodeId, usize)>, node: NodeId, k: int)
    requires
        0 <= k < index.len(),
        index[k].0 == node,
        forall|j: int| 0 <= j < k ==> (#[trigger] index[j]).0 != node,
    ensures
        indexed_at(index, node) == Some(index[k].1),
    decreases k,
{
    if k > 0 {
        assert(index[0].0 != node);
        assert forall|j: int| 0 <= j < k - 1 implies (#[trigger] index.skip(1)[j]).0 != node by {
            assert(index.skip(1)[j] == index[j + 1]);
        }
        lemma_indexed_at(index.skip(1), node, k - 1);
    }
}

proof fn lemma_not_indexed(index: Seq<(NodeId, usize)>, node: NodeId)
    requires
        forall|j: int| 0 <= j < index.len() ==> (#[trigger] index[j]).0 != node,
    ensures
        indexed_at(index, node) is None,
    decreases index.len(),
{
    if index.len() > 0 {
        assert(index[0].0 != node);
        assert forall|j: int| 0 <= j < index.len() - 1 implies (#[trigger] index.skip(1)[j]).0
            != node by {
            assert(index.skip(1)[j] == index[j + 1]);
        }
        lemma_not_indexed(index.skip(1), node);
    }
}

proof fn lemma_indexed_some(index: Seq<(NodeId, usize)>, node: NodeId) -> (k: int)
    requires
        indexed_at(index, node) is Some,
    ensures
        0 <= k < index.len(),
        index[k].0 == node,
        indexed_at(index, node) == Some(index[k].1),
    decreases index.len(),
{
    if index[0].0 == node {
        0
    } else {
        let k = lemma_indexed_some(index.skip(1), node);
        assert(index.skip(1)[k] == index[k + 1]);
        k + 1
    }
}

impl Rows {
    pub closed spec fn view(&self) -> Seq<RowView> {
        row_views(self.rows@)
    }

    /// The row that shows `node`.
    pub closed spec fn row_of(&self, node: NodeId) -> Option<usize> {
        indexed_at(self.index@, node)
    }

    pub open spec fn wf(&self) -> bool {
        &&& rows_wf(self@)
        &&& forall|id: NodeId| (#[trigger] self.row_of(id)) matches Some(i) ==> i < self@.len()
    }

    /// Whether the index is that of the rows of `shape`.
    spec fn indexed(&self, shape: Shape) -> bool {
        &&& forall|k: int|
            #![trigger self.index@[k]]
            0 <= k < self.index@.len() ==> self.index@[k].1 < self.rows@.len() && shape.shows(
                self@[self.index@[k].1 as int],
                self.index@[k].0,
            )
        &&& forall|i: int, id: NodeId|
            0 <= i < self@.len() && #[trigger] shape.shows(self@[i], id) ==> self.has_entry(id)
    }

    spec fn has_entry(&self, id: NodeId) -> bool {
        exists|k: int| 0 <= k < self.index@.len() && (#[trigger] self.index@[k]).0 == id
    }

    /// Adds the row of `head`, which hangs from the row `parent`. Returns the entry it stands for.
    fn push_row(
        &mut self,
        tree: &Tree,
        flatten_dirs: bool,
        head: NodeId,
        parent: usize,
        depth: usize,
        last: bool,
    ) -> (node: NodeId)
        requires
            tree.wf(),
            tree.shape().has(head),
            tree.shape().parent(head) is Some,
            parent < old(self)@.len(),
            old(self)@[parent as int].node == tree.shape().parent(head)->0,
            old(self)@[parent as int].path == tree.shape().path(tree.shape().parent(head)->0),
            old(self).indexed(tree.shape()),
        ensures
            node == tree.shape().row_node(flatten_dirs, head),
            final(self)@ == old(self)@.push(
                tree.shape().row(flatten_dirs, head, Some(parent as int), depth as int, last),
            ),
            final(self).indexed(tree.shape()),
    {
        let ghost s = tree.shape();
        let ghost none = Set::<NodeId>::empty();
        let ghost before = *self;
        let index: usize = self.rows.len();
        let mut node: NodeId = head;
        let mut path: TreePath = self.rows[parent].path.join(&tree.node(head).name);
        let mut label: Vec<char> = display_name(&tree.node(head).name);
        let mut shown: Vec<NodeId> = Vec::new();
        shown.push(head);
        let flatten: bool = flatten_dirs && tree.node(head).kind == Kind::Directory;
        proof {
            s.lemma_within_parent(none, head);
            assert(path@ == s.path(head));
            assert(label@ == s.run_label(head, head));
            assert(shown@[0] == head);
            assert forall|x: NodeId| s.within(head, x) && s.within(x, head) implies shown@.contains(
                x,
            ) by {
                s.lemma_depth(head, x);
                s.lemma_depth(x, head);
            }
        }
        let mut more: bool = flatten;
        while more
            invariant
                s == tree.shape(),
                tree.wf(),
                none == Set::<NodeId>::empty(),
                s.has(head),
                s.has(node),
                s.within(node, head),
                more ==> flatten,
                flatten ==> s.run_end(head) == s.run_end(node),
                flatten && !more ==> s.run_end(node) == node,
                !flatten ==> node == head,
                path@ == s.path(node),
                label@ == s.run_label(head, node),
                forall|k: int|
                    0 <= k < shown@.len() ==> s.has(#[trigger] shown@[k]) && s.within(
                        node,
                        shown@[k],
                    ) && s.within(shown@[k], head),
                forall|x: NodeId|
                    #![trigger s.within(node, x)]
                    s.within(node, x) && s.within(x, head) ==> shown@.contains(x),
            decreases s.levels_left(node), if more {
                1int
            } else {
                0
            },
        {
            match tree.only_directory_child(node) {
                Some(next) => {
                    proof {
                        assert(s.fits(none, node));
                        assert(s.holds(none, node, s.ids(node)[0]));
                        s.lemma_within_parent(none, next);
                        s.lemma_depth_bound(next);
                        s.lemma_depth_bound(node);
                        s.lemma_within_transitive(next, node, head);
                        s.lemma_depth(node, head);
                    }
                    let ghost last_node = node;
                    let ghost old_shown = shown@;
                    let ghost old_label = label@;
                    node = next;
                    path.components.push(Component::Normal(copy_name(&tree.node(next).name)));
                    label.push('/');
                    let mut name: Vec<char> = display_name(&tree.node(next).name);
                    let ghost shown_next = name@;
                    label.append(&mut name);
                    shown.push(next);
                    proof {
                        assert(path@ =~= s.path(last_node).push(Part::Normal(s.nodes[next].name)));
                        assert(label@ =~= old_label + seq!['/'] + shown_next);
                        assert forall|k: int| 0 <= k < shown@.len() implies s.has(
                            #[trigger] shown@[k],
                        ) && s.within(node, shown@[k]) && s.within(shown@[k], head) by {
                            if k < old_shown.len() {
                                assert(shown@[k] == old_shown[k]);
                                s.lemma_within_transitive(next, last_node, old_shown[k]);
                            }
                        }
                        assert forall|x: NodeId|
                            #![trigger s.within(node, x)]
                            s.within(node, x) && s.within(x, head) implies shown@.contains(x) by {
                            if x == next {
                                assert(shown@[old_shown.len() as int] == next);
                            } else {
                                assert(s.within(last_node, x));
                                assert(shown@[old_shown.index_of(x)] == x);
                            }
                        }
                    }
                },
                None => {
                    more = false;
                },
            }
        }
        let text: String = string_of(&label);
        let label_width: usize = text_width(text.as_str());
        self.rows.push(
            Row { node, head, parent: Some(parent), depth, last, path, label: text, label_width },
        );
        let ghost row = s.row(flatten_dirs, head, Some(parent as int), depth as int, last);
        proof {
            assert(self@ =~= before@.push(row));
        }
        let mut k: usize = 0;
        while k < shown.len()
            invariant
                k <= shown@.len(),
                s == tree.shape(),
                index == before.rows@.len(),
                self@ == before@.push(row),
                before.indexed(s),
                row.node == node,
                row.head == head,
                self.index@.len() == before.index@.len() + k,
                forall|j: int|
                    0 <= j < before.index@.len() ==> self.index@[j] == #[trigger] before.index@[j],
                forall|j: int|
                    0 <= j < k ==> self.index@[before.index@.len() + j] == (
                        #[trigger] shown@[j],
                        index,
                    ),
            decreases shown.len() - k,
        {
            self.index.push((shown[k], index));
            k += 1;
        }
        proof {
            assert(self@.len() == self.rows@.len());
            assert(before@.len() == before.rows@.len());
            assert forall|j: int|
                #![trigger self.index@[j]]
                0 <= j < self.index@.len() implies self.index@[j].1 < self.rows@.len() && s.shows(
                self@[self.index@[j].1 as int],
                self.index@[j].0,
            ) by {
                if j < before.index@.len() {
                    assert(self.index@[j] == before.index@[j]);
                    assert(self@[before.index@[j].1 as int] == before@[before.index@[j].1 as int]);
                } else {
                    let i = j - before.index@.len();
                    assert(self.index@[before.index@.len() + i] == (shown@[i], index));
                }
            }
            assert forall|i: int, id: NodeId|
                0 <= i < self@.len() && #[trigger] s.shows(self@[i], id) implies self.has_entry(
                id,
            ) by {
                if i < before@.len() {
                    assert(s.shows(before@[i], id));
                    let j = choose|j: int|
                        0 <= j < before.index@.len() && (#[trigger] before.index@[j]).0 == id;
                    assert(self.index@[j].0 == id);
                } else {
                    assert(s.within(node, id));
                    let j = shown@.index_of(id);
                    assert(shown@[j] == id);
                    assert(self.index@[before.index@.len() + j].0 == id);
                }
            }
        }
        node
    }

    /// Adds the rows of the entries of the row `parent` and of what is expanded below them.
    #[verifier::rlimit(60)]
    #[verifier::spinoff_prover]
    fn push_children(&mut self, tree: &Tree, parent: usize, depth: usize, flatten_dirs: bool)
        requires
            tree.wf(),
            tree.shape().nodes.len() <= usize::MAX,
            parent + 1 == old(self)@.len(),
            tree.shape().has(old(self)@[parent as int].node),
            old(self)@[parent as int].path == tree.shape().path(old(self)@[parent as int].node),
            depth <= tree.shape().depths[old(self)@[parent as int].node],
            depth == if parent == 0 {
                0
            } else {
                old(self)@[parent as int].depth + 1
            },
            old(self).indexed(tree.shape()),
            rows_wf(old(self)@),
        ensures
            final(self)@ == old(self)@ + tree.shape().rows_from(
                flatten_dirs,
                old(self)@[parent as int].node,
                0,
                parent as int,
                parent + 1,
                depth as int,
            ),
            final(self).indexed(tree.shape()),
            rows_wf(final(self)@),
        decreases tree.shape().levels_left(old(self)@[parent as int].node),
    {
        let ghost s = tree.shape();
        let ghost none = Set::<NodeId>::empty();
        let ghost before = self@;
        assert(self.rows@[parent as int]@ == before[parent as int]);
        let dir: NodeId = self.rows[parent].node;
        let children: Vec<NodeId> = tree.children(dir);
        let mut i: usize = 0;
        let ghost whole = before + s.rows_from(
            flatten_dirs,
            dir,
            0,
            parent as int,
            parent + 1,
            depth as int,
        );
        while i < children.len()
            invariant
                i <= children@.len(),
                s == tree.shape(),
                tree.wf(),
                none == Set::<NodeId>::empty(),
                s.has(dir),
                children@ == s.ids(dir),
                s.nodes.len() <= usize::MAX,
                depth <= s.depths[dir],
                parent < before.len(),
                before[parent as int].node == dir,
                before[parent as int].path == s.path(dir),
                depth == if parent == 0 {
                    0
                } else {
                    before[parent as int].depth + 1
                },
                dir == old(self)@[parent as int].node,
                before == old(self)@,
                self@.len() >= before.len(),
                self@.take(before.len() as int) == before,
                self.indexed(s),
                rows_wf(self@),
                whole == self@ + s.rows_from(
                    flatten_dirs,
                    dir,
                    i as int,
                    parent as int,
                    self@.len() as int,
                    depth as int,
                ),
            decreases children.len() - i,
        {
            let head: NodeId = children[i];
            let index: usize = self.rows.len();
            let last: bool = i + 1 == children.len();
            let ghost rows = self@;
            proof {
                assert(s.fits(none, dir));
                assert(s.holds(none, dir, s.ids(dir)[i as int]));
                s.lemma_within_parent(none, head);
                assert(rows.take(before.len() as int)[parent as int] == rows[parent as int]);
                s.lemma_run_end(head);
                s.lemma_depth_bound(head);
                s.lemma_depth_bound(dir);
                assert(index == rows.len());
            }
            let node: NodeId = self.push_row(tree, flatten_dirs, head, parent, depth, last);
            let ghost row = s.row(flatten_dirs, head, Some(parent as int), depth as int, last);
            let ghost below = if s.nodes[node].expanded {
                s.rows_from(flatten_dirs, node, 0, index as int, index + 1, depth + 1)
            } else {
                Seq::empty()
            };
            proof {
                s.lemma_depth_bound(node);
                assert(s.has(node));
                assert forall|k: int| 0 <= k < self@.len() implies row_fits(
                    self@,
                    k,
                    #[trigger] self@[k],
                ) by {
                    if k < rows.len() {
                        assert(row_fits(rows, k, rows[k]));
                    }
                }
            }
            if tree.node(node).expanded {
                self.push_children(tree, index, depth + 1, flatten_dirs);
            } else {
                assert(self@ =~= rows.push(row) + below);
            }
            proof {
                let rest = s.rows_from(
                    flatten_dirs,
                    dir,
                    i + 1,
                    parent as int,
                    (rows.len() + 1 + below.len()) as int,
                    depth as int,
                );
                assert(s.levels_left(node) < s.levels_left(dir));
                assert(s.rows_from(
                    flatten_dirs,
                    dir,
                    i as int,
                    parent as int,
                    rows.len() as int,
                    depth as int,
                ) == seq![row] + below + rest);
                assert(self@ =~= rows + (seq![row] + below));
                assert(rows + (seq![row] + below + rest) =~= self@ + rest);
                assert(self@.take(before.len() as int) =~= rows.take(before.len() as int));
            }
            i += 1;
        }
        proof {
            assert(whole =~= self@);
        }
    }

    /// Flattens the expanded part of `tree`. With `flatten_dirs` a run of single-child
    /// directories becomes one row.
    pub fn build(tree: &Tree, flatten_dirs: bool) -> (rows: Rows)
        requires
            tree.wf(),
        ensures
            rows@ == tree.shape().rows(flatten_dirs),
            rows.wf(),
            forall|id: NodeId| tree.shape().shown_at(rows@, id, #[trigger] rows.row_of(id)),
    {
        let ghost s = tree.shape();
        let size: usize = tree.size();
        let root: NodeId = tree.root();
        let label: String = string_of(&display_name(&tree.node(root).name));
        let label_width: usize = text_width(label.as_str());
        let mut rows = Rows { rows: Vec::new(), index: Vec::new() };
        rows.rows.push(
            Row {
                node: root,
                head: root,
                parent: None,
                depth: 0,
                last: true,
                path: TreePath::empty(),
                label,
                label_width,
            },
        );
        rows.index.push((root, 0));
        proof {
            assert(rows@ =~= seq![s.root_row()]);
            assert(s.fits(Set::empty(), root));
            assert(s.path(root) =~= Seq::<Part>::empty());
            assert(rows.index@[0].0 == root);
            assert forall|i: int, id: NodeId|
                0 <= i < rows@.len() && #[trigger] s.shows(rows@[i], id) implies rows.has_entry(
                id,
            ) by {
                s.lemma_depth(root, id);
                s.lemma_depth(id, root);
            }
        }
        rows.push_children(tree, 0, 0, flatten_dirs);
        proof {
            assert(rows@ =~= s.rows(flatten_dirs));
            assert forall|id: NodeId| s.shown_at(rows@, id, #[trigger] rows.row_of(id)) by {
                match rows.row_of(id) {
                    Some(i) => {
                        let k = lemma_indexed_some(rows.index@, id);
                        assert(rows.index@[k].1 == i);
                    },
                    None => {
                        assert forall|i: int| 0 <= i < rows@.len() implies !s.shows(
                            #[trigger] rows@[i],
                            id,
                        ) by {
                            if s.shows(rows@[i], id) {
                                let k = choose|k: int|
                                    0 <= k < rows.index@.len() && (#[trigger] rows.index@[k]).0
                                        == id;
                                lemma_has_index(rows.index@, id, k);
                            }
                        }
                    },
                }
            }
        }
        rows
    }

    pub fn len(&self) -> (len: usize)
        ensures
            len == self@.len(),
    {
        self.rows.len()
    }

    pub fn get(&self, index: usize) -> (row: Option<&Row>)
        ensures
            match row {
                Some(row) => index < self@.len() && row@ == self@[index as int],
                None => index >= self@.len(),
            },
    {
        if index < self.rows.len() {
            Some(&self.rows[index])
        } else {
            None
        }
    }

    /// The row `index`, which must exist.
    pub fn row(&self, index: usize) -> (row: &Row)
        requires
            index < self@.len(),
        ensures
            row@ == self@[index as int],
    {
        &self.rows[index]
    }

    /// All rows, from top to bottom.
    pub fn iter(&self) -> (iter: std::slice::Iter<'_, Row>)
        ensures
            row_views(vstd::std_specs::slice::into_iter_elts(iter)) == self@,
    {
        self.rows.iter()
    }

    /// The row showing `node`.
    pub fn index_of(&self, node: NodeId) -> (index: Option<usize>)
        ensures
            index == self.row_of(node),
            self.wf() && index is Some ==> index->0 < self@.len(),
    {
        let mut k: usize = 0;
        while k < self.index.len()
            invariant
                k <= self.index@.len(),
                forall|j: int| 0 <= j < k ==> (#[trigger] self.index@[j]).0 != node,
            decreases self.index.len() - k,
        {
            if self.index[k].0 == node {
                proof {
                    lemma_indexed_at(self.index@, node, k as int);
                }
                return Some(self.index[k].1);
            }
            k += 1;
        }
        proof {
            lemma_not_indexed(self.index@, node);
        }
        None
    }

    /// The rows `index` hangs from, outermost (the root row) first.
    pub fn ancestors(&self, index: usize) -> (ancestors: Vec<usize>)
        requires
            self.wf(),
            index < self@.len(),
        ensures
            ancestors@.map_values(|i: usize| i as int) == ancestors_of(self@, index as int),
        decreases index,
    {
        proof {
            assert(row_fits(self@, index as int, self@[index as int]));
            assert(self.rows@[index as int]@ == self@[index as int]);
        }
        match self.rows[index].parent {
            Some(parent) => {
                let mut ancestors: Vec<usize> = self.ancestors(parent);
                let ghost before = ancestors@;
                ancestors.push(parent);
                assert(ancestors@.map_values(|i: usize| i as int) =~= before.map_values(
                    |i: usize| i as int,
                ).push(parent as int));
                ancestors
            },
            None => {
                let ancestors: Vec<usize> = Vec::new();
                assert(ancestors@.map_values(|i: usize| i as int) =~= Seq::<int>::empty());
                ancestors
            },
        }
    }

    /// For each ancestor lane of row `index`, outermost first: whether it continues below the
    /// row, i.e. whether that ancestor has later siblings.
    pub fn lanes(&self, index: usize) -> (lanes: Vec<bool>)
        requires
            self.wf(),
            index < self@.len(),
        ensures
            lanes@ == lanes_of(self@, index as int),
        decreases index,
    {
        proof {
            assert(row_fits(self@, index as int, self@[index as int]));
            assert(self.rows@[index as int]@ == self@[index as int]);
        }
        match self.rows[index].parent {
            Some(parent) => if parent == 0 {
                Vec::new()
            } else {
                let mut lanes: Vec<bool> = self.lanes(parent);
                assert(self.rows@[parent as int]@ == self@[parent as int]);
                lanes.push(!self.rows[parent].last);
                lanes
            },
            None => Vec::new(),
        }
    }
}

impl Default for Rows {
    fn default() -> (rows: Rows)
        ensures
            rows@ == Seq::<RowView>::empty(),
            rows.wf(),
            forall|id: NodeId| #[trigger] rows.row_of(id) is None,
    {
        let rows = Rows { rows: Vec::new(), index: Vec::new() };
        assert(rows@ =~= Seq::<RowView>::empty());
        rows
    }
}

proof fn lemma_has_index(index: Seq<(NodeId, usize)>, node: NodeId, k: int)
    requires
        0 <= k < index.len(),
        index[k].0 == node,
    ensures
        indexed_at(index, node) is Some,
    decreases k,
{
    if k > 0 {
        assert(index.skip(1)[k - 1] == index[k]);
        lemma_has_index(index.skip(1), node, k - 1);
    }
}

/// Control codes in names are shown as question marks, and all other chars as they are.
pub proof fn law_control_codes_are_replaced(text: Seq<char>, i: int)
    requires
        0 <= i < text.len(),
    ensures
        cleaned(text).len() == text.len(),
        text[i] as u32 <= 0x1f || 0x7f <= text[i] as u32 <= 0x9f ==> cleaned(text)[i] == '?',
        !(text[i] as u32 <= 0x1f || 0x7f <= text[i] as u32 <= 0x9f) ==> cleaned(text)[i] == text[i],
{
}

/// A row hangs from the rows that the row it hangs from hangs from, and from that one. It has their
/// lanes, and one more that goes on below it unless that row is the last one.
pub proof fn law_rows_hang_like_their_parents(rows: Seq<RowView>, i: int, parent: int)
    requires
        rows[i].parent == Some(parent),
        0 <= parent < i,
    ensures
        ancestors_of(rows, i) == ancestors_of(rows, parent).push(parent),
        parent > 0 ==> lanes_of(rows, i) == lanes_of(rows, parent).push(!rows[parent].last),
        parent == 0 ==> lanes_of(rows, i).len() == 0,
{
}

impl Shape {
    /// The row of the root shows its name and nothing else. The row of a directory with nothing but a
    /// directory in it stands for that one if directories are flattened, and any other row for its own
    /// entry.
    pub proof fn law_rows_stand_for_their_entries(self, flatten_dirs: bool, head: NodeId)
        ensures
            self.rows(flatten_dirs).len() > 0,
            self.rows(flatten_dirs)[0].node == self.root,
            self.rows(flatten_dirs)[0].parent is None,
            self.rows(flatten_dirs)[0].label == shown_name(self.nodes[self.root].name),
            self.rows(flatten_dirs)[0].path.len() == 0,
            !flatten_dirs ==> self.row_node(flatten_dirs, head) == head,
            !self.is_directory(head) ==> self.row_node(flatten_dirs, head) == head,
            self.only_directory(head) is None ==> self.row_node(flatten_dirs, head) == head,
            flatten_dirs && self.is_directory(head) ==> (self.only_directory(head) matches Some(next)
                ==> (self.levels_left(next) < self.levels_left(head) ==> self.row_node(
                flatten_dirs,
                head,
            ) == self.row_node(flatten_dirs, next))),
            self.run_label(head, head) == shown_name(self.nodes[head].name),
    {
        if let Some(next) = self.only_directory(head) {
            assert(self.is_directory(next));
        }
    }

    /// The rows of an entry come right after it if it is expanded, before the next entry of its
    /// directory, and not at all if it is not. The last entry of a directory is marked as such.
    pub proof fn law_expanded_entries_come_with_their_rows(
        self,
        flatten_dirs: bool,
        dir: NodeId,
        i: int,
        parent: int,
        next: int,
        depth: int,
    )
        requires
            0 <= i < self.ids(dir).len(),
        ensures
            ({
                let rows = self.rows_from(flatten_dirs, dir, i, parent, next, depth);
                let node = self.row_node(flatten_dirs, self.ids(dir)[i]);
                let goes_down = self.levels_left(node) < self.levels_left(dir);
                let below = self.rows_from(flatten_dirs, node, 0, next, next + 1, depth + 1);
                &&& rows.len() > 0
                &&& rows[0].node == node
                &&& rows[0].head == self.ids(dir)[i]
                &&& rows[0].parent == Some(parent)
                &&& rows[0].depth == depth
                &&& rows[0].last <==> i == self.ids(dir).len() - 1
                &&& rows[0].path == self.path(node)
                &&& goes_down && self.nodes[node].expanded ==> rows.subrange(
                    1,
                    1 + below.len() as int,
                ) == below && rows.skip(1 + below.len() as int) == self.rows_from(
                    flatten_dirs,
                    dir,
                    i + 1,
                    parent,
                    next + 1 + below.len(),
                    depth,
                )
                &&& !self.nodes[node].expanded ==> rows.skip(1) == self.rows_from(
                    flatten_dirs,
                    dir,
                    i + 1,
                    parent,
                    next + 1,
                    depth,
                )
            }),
    {
        let rows = self.rows_from(flatten_dirs, dir, i, parent, next, depth);
        let node = self.row_node(flatten_dirs, self.ids(dir)[i]);
        let below = self.rows_from(flatten_dirs, node, 0, next, next + 1, depth + 1);
        if self.levels_left(node) < self.levels_left(dir) && self.nodes[node].expanded {
            let n = below.len() as int;
            assert(rows.subrange(1, 1 + n) =~= below);
            assert(rows.skip(1 + n) =~= self.rows_from(
                flatten_dirs,
                dir,
                i + 1,
                parent,
                next + 1 + below.len(),
                depth,
            ));
        }
        if !self.nodes[node].expanded {
            let none = Seq::<RowView>::empty();
            assert(next + 1 + none.len() == next + 1);
            assert(rows.skip(1) =~= self.rows_from(
                flatten_dirs,
                dir,
                i + 1,
                parent,
                next + 1,
                depth,
            ));
        }
    }
}

impl Shape {
    /// The row of a run of directories reads their names with slashes between them, from the first one
    /// to the last one.
    pub proof fn law_runs_read_like_paths(self, head: NodeId, node: NodeId, parent: NodeId)
        requires
            node != head,
            self.parent(node) == Some(parent),
            self.depths[parent] < self.depths[node],
        ensures
            self.run_label(head, node) == self.run_label(head, parent) + seq!['/'] + shown_name(
                self.nodes[node].name,
            ),
    {
    }
}

} // verus!
