//! The file tree of one workspace root: its entries and rows, the cursor and scroll position,
//! edits, the search and what the git status reports.

use crate::arena::{ChildrenView, Kind, NodeId, NodeView};
use crate::edit::Edit;
use crate::git::GitStatuses;
use crate::keys::Action;
use crate::names::{copy_name, written, Component, Part, TreePath};
use crate::order::FileTreeSort;
use crate::rect::Rect;
use crate::rows::{RowView, Rows};
use crate::search::Candidates;
use crate::shape::Shape;
use crate::tree::Tree;
use crate::viewport::{
    align, aligned_start, capacity, clamp, clamped, last_start, reveal_row, revealed_start, room, visible, Align,
};
use vstd::prelude::*;

verus! {

/// `std::path::is_separator` tells whether a char separates the parts of a path. A slash does so
/// everywhere; which other chars do is up to the system, and nothing is claimed of them.
pub assume_specification[ std::path::is_separator ](c: char) -> (separator: bool)
    ensures
        c == '/' ==> separator,
;

/// The file tree of one workspace root.
pub struct Workspace {
    /// Tells results for this workspace from results for an earlier one.
    pub generation: u64,
    pub root: TreePath,
    /// Whether a backslash separates the parts of a path that is typed, as it does on some systems.
    pub backslash: bool,
    pub tree: Tree,
    pub rows: Rows,
    /// The settings `rows` were built with.
    pub flatten_dirs: bool,
    pub sort: FileTreeSort,
    /// Whether `rows` needs rebuilding.
    pub dirty: bool,
    pub git: GitStatuses,
    pub git_refresh: GitRefresh,
    pub cursor: NodeId,
    /// The first ordinary row.
    pub start: usize,
    /// Whether the first listing has arrived; the panel is only shown after that.
    pub ready: bool,
    /// Paths to reveal once their directories are listed.
    pub reveals: Vec<PendingReveal>,
    /// A node to scroll into view once the panel height is known.
    pub scroll_to: Option<NodeId>,
    /// The number of rows the panel showed last.
    pub height: usize,
    /// Where the rows were drawn last, and the first ordinary row drawn, for the mouse.
    pub rows_area: Rect,
    pub drawn_start: usize,
    /// A name or path being typed for a file operation.
    pub edit: Option<Edit>,
    pub search: Search,
    /// Whether changes were let pass while the panel was hidden.
    pub outdated: bool,
}

/// A path to reveal once the directories leading to it are listed.
#[derive(Debug)]
pub struct PendingReveal {
    pub path: TreePath,
    pub purpose: Purpose,
}

/// What a path is revealed for.
#[derive(Clone, Copy, Debug, PartialEq, Eq, Structural)]
pub enum Purpose {
    Show,
    /// Moving the cursor there.
    Cursor,
    /// Moving the cursor to a match of the search.
    Match,
}

/// The search of the tree.
#[derive(Debug)]
pub struct Search {
    /// The files to search, once collected.
    pub candidates: Option<Candidates>,
    /// The last query searched for, for `n` and `N`.
    pub query: String,
    /// Where the cursor was when the query being typed was started.
    pub origin: Option<Origin>,
    /// Tells the latest search from older ones still running.
    pub generation: u64,
}

/// Where a search started.
#[derive(Debug)]
pub struct Origin {
    pub cursor: NodeId,
    pub path: TreePath,
    pub is_dir: bool,
    pub start: usize,
    /// The directories that were expanded, so the search can collapse the ones it expanded.
    pub expanded: Vec<NodeId>,
}

/// Whether the tree keeps its focus after an action.
#[derive(Clone, Copy, Debug, PartialEq, Eq, Structural)]
pub enum Focus {
    Keep,
    Release,
}

#[derive(Clone, Copy, Debug, PartialEq, Eq, Structural)]
pub enum GitRefresh {
    Idle,
    Running,
    /// Running, and asked for again meanwhile.
    RunningStale,
}

/// Whether the row is one of the tree.
pub open spec fn row_in(shape: Shape, row: RowView) -> bool {
    shape.has(row.node) && shape.has(row.head) && shape.within(row.node, row.head)
}

/// The larger of a height and one.
pub open spec fn at_least_one(height: int) -> int {
    if height < 1 {
        1
    } else {
        height
    }
}

/// The rows that a page moves by.
pub open spec fn page_len(rows: Seq<RowView>, start: int, height: int) -> int {
    at_least_one(
        room(rows, clamped(rows, start, at_least_one(height)), at_least_one(height)),
    )
}

/// The row that an action moves the cursor to from row `cursor`.
pub open spec fn nav_target(
    rows: Seq<RowView>,
    start: int,
    height: int,
    cursor: int,
    action: Action,
) -> int {
    let last = rows.len() - 1;
    let page = page_len(rows, start, height);
    match action {
        Action::Down => if cursor == last {
            0
        } else {
            cursor + 1
        },
        Action::Up => if cursor == 0 {
            last
        } else {
            cursor - 1
        },
        Action::HalfPageDown => if cursor + page / 2 < last {
            cursor + page / 2
        } else {
            last
        },
        Action::HalfPageUp => if cursor < page / 2 {
            0
        } else {
            cursor - page / 2
        },
        Action::PageDown => if cursor + page < last {
            cursor + page
        } else {
            last
        },
        Action::PageUp => if cursor < page {
            0
        } else {
            cursor - page
        },
        Action::First => 0,
        Action::Last => last,
        _ => cursor,
    }
}

/// The cursor never leaves the rows.
pub proof fn law_the_cursor_stays_in_the_rows(
    rows: Seq<RowView>,
    start: int,
    height: int,
    cursor: int,
    action: Action,
)
    requires
        0 <= cursor < rows.len(),
    ensures
        0 <= nav_target(rows, start, height, cursor, action) < rows.len(),
{
}

/// Moving down and then up, or up and then down, gets back to the row, past the ends too.
pub proof fn law_up_and_down_undo_each_other(
    rows: Seq<RowView>,
    start: int,
    height: int,
    cursor: int,
)
    requires
        0 <= cursor < rows.len(),
    ensures
        nav_target(
            rows,
            start,
            height,
            nav_target(rows, start, height, cursor, Action::Down),
            Action::Up,
        ) == cursor,
        nav_target(
            rows,
            start,
            height,
            nav_target(rows, start, height, cursor, Action::Up),
            Action::Down,
        ) == cursor,
{
}

impl Shape {
    /// The directories of a run from `node` up to `head`.
    pub open spec fn run_up(self, node: NodeId, head: NodeId) -> Seq<NodeId>
        decreases self.depths[node],
    {
        if node == head {
            seq![node]
        } else {
            match self.parent(node) {
                Some(parent) => if self.depths[parent] < self.depths[node] {
                    seq![node] + self.run_up(parent, head)
                } else {
                    seq![node]
                },
                None => seq![node],
            }
        }
    }

    /// The closest of `node` and the directories that it is in that has a row.
    pub open spec fn closest_row(self, rows: Rows, node: NodeId) -> Option<usize>
        decreases self.depths[node],
    {
        match rows.row_of(node) {
            Some(index) => Some(index),
            None => match self.parent(node) {
                Some(parent) => if self.depths[parent] < self.depths[node] {
                    self.closest_row(rows, parent)
                } else {
                    None
                },
                None => None,
            },
        }
    }

    /// The node at the longest start of `path` that is there.
    pub open spec fn closest_node(self, path: Seq<Part>) -> Option<NodeId>
        decreases path.len(),
    {
        match self.find(self.root, path) {
            Some(node) => Some(node),
            None => if path.len() == 0 {
                None
            } else {
                self.closest_node(path.drop_last())
            },
        }
    }

    /// The row of `node`, last seen at `path`, or of its closest ancestor that has one.
    pub open spec fn shown_row(self, rows: Rows, node: NodeId, path: Option<Seq<Part>>) -> Option<
        usize,
    > {
        if self.has(node) {
            self.closest_row(rows, node)
        } else {
            match path {
                Some(path) => match self.closest_node(path) {
                    Some(found) => self.closest_row(rows, found),
                    None => None,
                },
                None => None,
            }
        }
    }
}

/// The name that the tree shows for a root: its last part, or all of it if that has no name.
pub open spec fn root_name(root: Seq<Part>) -> Seq<u8> {
    if root.len() > 0 && root.last() is Normal {
        root.last()->Normal_0
    } else {
        written(root)
    }
}

impl Workspace {
    /// The tree and the rows are in order, and there is a row.
    pub open spec fn wf(&self) -> bool {
        &&& self.tree.wf()
        &&& self.rows.wf()
        &&& self.rows@.len() > 0
        &&& self.tree.sorted_how() == self.sort
    }

    /// The rows are those of nodes that are still there.
    pub open spec fn fresh(&self) -> bool {
        forall|i: int|
            0 <= i < self.rows@.len() ==> row_in(self.tree.shape(), #[trigger] self.rows@[i])
    }

    /// The rows are those of nodes that are still there, or are to be rebuilt.
    pub open spec fn settled(&self) -> bool {
        self.dirty || self.fresh()
    }

    /// Whether the workspace is a new one, that knows nothing but its root. Whether a backslash
    /// separates is up to the system.
    pub open spec fn is_new(
        self,
        root: Seq<Part>,
        generation: u64,
        sort: FileTreeSort,
        flatten_dirs: bool,
    ) -> bool {
        let shape = self.tree.shape();
        &&& self.generation == generation
        &&& self.root@ == root
        &&& shape.nodes.dom() == Set::<NodeId>::empty().insert(shape.root)
        &&& shape.nodes[shape.root] == NodeView {
            name: root_name(root),
            kind: Kind::Directory,
            parent: None,
            children: ChildrenView::Unloaded,
            expanded: true,
            listed: false,
        }
        &&& self.tree.requests() == seq![shape.root]
        &&& self.shows_tree()
        &&& self.flatten_dirs == flatten_dirs
        &&& self.sort == sort
        &&& !self.dirty
        &&& self.git.changed().len() == 0
        &&& self.git.left_out().len() == 0
        &&& self.git_refresh == GitRefresh::Idle
        &&& self.cursor == shape.root
        &&& self.start == 0
        &&& !self.ready
        &&& self.reveals@.len() == 0
        &&& self.scroll_to is None
        &&& self.height == 0
        &&& self.rows_area == Rect { x: 0, y: 0, width: 0, height: 0 }
        &&& self.drawn_start == 0
        &&& self.edit is None
        &&& self.search.candidates is None
        &&& self.search.origin is None
        &&& self.search.query@.len() == 0
        &&& self.search.generation == 0
        &&& !self.outdated
    }

    pub fn new(root: TreePath, generation: u64, sort: FileTreeSort, flatten_dirs: bool) -> (workspace:
        Workspace)
        ensures
            workspace.wf(),
            workspace.fresh(),
            workspace.is_new(root@, generation, sort, flatten_dirs),
    {
        let mut name: Vec<u8> = root.bytes();
        if root.components.len() > 0 {
            assert(root@.last() == root.components@[root.components@.len() - 1]@);
            match &root.components[root.components.len() - 1] {
                Component::Normal(last) => {
                    name = copy_name(last);
                },
                _ => {},
            }
        }
        let tree: Tree = Tree::new(name, sort);
        let rows: Rows = Rows::build(&tree, flatten_dirs);
        let cursor: NodeId = tree.root();
        proof {
            let shape = tree.shape();
            assert forall|i: int| 0 <= i < rows@.len() implies row_in(shape, #[trigger] rows@[i]) by {
                shape.lemma_rows_in_tree(flatten_dirs, i);
            }
        }
        Workspace {
            generation,
            root,
            backslash: std::path::is_separator('\\'),
            tree,
            rows,
            flatten_dirs,
            sort,
            dirty: false,
            git: GitStatuses::default(),
            git_refresh: GitRefresh::Idle,
            cursor,
            start: 0,
            ready: false,
            reveals: Vec::new(),
            scroll_to: None,
            height: 0,
            rows_area: Rect::default(),
            drawn_start: 0,
            edit: None,
            search: Search {
                candidates: None,
                query: String::new(),
                origin: None,
                generation: 0,
            },
            outdated: false,
        }
    }

    /// Moves the cursor or expands or collapses the directory under it.
    pub fn navigate(&mut self, action: Action)
        requires
            old(self).wf(),
            old(self).fresh(),
        ensures
            final(self).wf(),
            final(self).settled(),
            old(self).navigated(*final(self), action),
    {
        let cursor: usize = match self.rows.index_of(self.cursor) {
            Some(cursor) => cursor,
            None => {
                self.cursor = self.tree.root();
                return ;
            },
        };
        proof {
            assert(row_in(self.tree.shape(), self.rows@[cursor as int]));
        }
        let node: NodeId = self.rows.row(cursor).node;
        match action {
            Action::Expand => {
                self.expand_row(cursor);
                self.cursor = node;
            },
            Action::Collapse => {
                if cursor != 0 && self.tree.node(node).expanded {
                    // Collapsing the first directory of a run collapses the rest of it.
                    self.tree.collapse(self.rows.row(cursor).head);
                    self.dirty = true;
                }
                self.cursor = node;
            },
            Action::AlignCenter => {
                self.align_row(cursor, Align::Center);
                self.cursor = node;
            },
            Action::AlignTop => {
                self.align_row(cursor, Align::Top);
                self.cursor = node;
            },
            Action::AlignBottom => {
                self.align_row(cursor, Align::Bottom);
                self.cursor = node;
            },
            _ => {
                let target: usize = self.target_row(cursor, action);
                self.cursor = self.rows.row(target).node;
            },
        }
    }

    /// Scrolls so that row `cursor` is at the place that `place` asks for.
    fn align_row(&mut self, cursor: usize, place: Align)
        requires
            old(self).rows.wf(),
        ensures
            *final(self) == (Workspace { start: final(self).start, ..*old(self) }),
            final(self).start == aligned_start(
                old(self).rows@,
                at_least_one(old(self).height as int),
                cursor as int,
                place,
            ),
    {
        let height: usize = if self.height < 1 {
            1
        } else {
            self.height
        };
        self.start = align(&self.rows, height, cursor, place);
    }

    /// The row that an action moves the cursor to from row `cursor`.
    fn target_row(&self, cursor: usize, action: Action) -> (target: usize)
        requires
            self.wf(),
            cursor < self.rows@.len(),
        ensures
            target == nav_target(
                self.rows@,
                self.start as int,
                self.height as int,
                cursor as int,
                action,
            ),
            target < self.rows@.len(),
    {
        let last: usize = self.rows.len() - 1;
        let height: usize = if self.height < 1 {
            1
        } else {
            self.height
        };
        let start: usize = clamp(&self.rows, self.start, height);
        let room: usize = capacity(&self.rows, start, height);
        let page: usize = if room < 1 {
            1
        } else {
            room
        };
        match action {
            Action::Down => if cursor == last {
                0
            } else {
                cursor + 1
            },
            Action::Up => if cursor == 0 {
                last
            } else {
                cursor - 1
            },
            Action::HalfPageDown => if page / 2 < last - cursor {
                cursor + page / 2
            } else {
                last
            },
            Action::HalfPageUp => if cursor < page / 2 {
                0
            } else {
                cursor - page / 2
            },
            Action::PageDown => if page < last - cursor {
                cursor + page
            } else {
                last
            },
            Action::PageUp => if cursor < page {
                0
            } else {
                cursor - page
            },
            Action::First => 0,
            Action::Last => last,
            // The other actions leave the cursor where it is.
            _ => cursor,
        }
    }

    /// Whether `after` is the workspace after the cursor was moved, or the directory under it
    /// expanded or collapsed.
    pub open spec fn navigated(self, after: Workspace, action: Action) -> bool {
        match self.rows.row_of(self.cursor) {
            None => after == (Workspace {
                cursor: self.tree.shape().root,
                ..self
            }),
            Some(cursor) => {
                let rows = self.rows@;
                let row = rows[cursor as int];
                let height = at_least_one(self.height as int);
                match action {
                    Action::Expand => self.expanded_row(after, row, row.node),
                    Action::Collapse => if cursor != 0
                        && self.tree.shape().nodes[row.node].expanded {
                        self.collapsed_row(after, row, row.node)
                    } else {
                        after == (Workspace { cursor: row.node, ..self })
                    },
                    Action::AlignCenter | Action::AlignTop | Action::AlignBottom => {
                        &&& after == Workspace {
                            cursor: row.node,
                            start: after.start,
                            ..self
                        }
                        &&& after.start == aligned_start(
                            rows,
                            height,
                            cursor as int,
                            match action {
                                Action::AlignCenter => Align::Center,
                                Action::AlignTop => Align::Top,
                                _ => Align::Bottom,
                            },
                        )
                    },
                    _ => after == (Workspace {
                        cursor: rows[nav_target(
                            rows,
                            self.start as int,
                            self.height as int,
                            cursor as int,
                            action,
                        )].node,
                        ..self
                    }),
                }
            },
        }
    }

    /// Whether `after` is the workspace with the run of `row` expanded and the cursor on `cursor`.
    pub open spec fn expanded_row(self, after: Workspace, row: RowView, cursor: NodeId) -> bool {
        let run = self.tree.shape().run_up(row.node, row.head);
        &&& after == Workspace { tree: after.tree, dirty: true, cursor, ..self }
        &&& self.tree.shape().is_expanded(after.tree.shape(), run)
        &&& after.tree.requests() == self.tree.requests() + self.tree.shape().to_list(run)
        &&& after.tree.sorted_how() == self.tree.sorted_how()
    }

    /// Whether `after` is the workspace with the run of `row` collapsed and the cursor on `cursor`.
    pub open spec fn collapsed_row(self, after: Workspace, row: RowView, cursor: NodeId) -> bool {
        &&& after == Workspace { tree: after.tree, dirty: true, cursor, ..self }
        &&& if row.head == self.tree.shape().root {
            after.tree.shape() == self.tree.shape()
        } else {
            self.tree.shape().is_collapsed(after.tree.shape(), row.head)
        }
        &&& after.tree.requests() == self.tree.requests()
        &&& after.tree.sorted_how() == self.tree.sorted_how()
    }

    /// Expands or collapses the directory of row `index`.
    pub fn toggle_row(&mut self, index: usize)
        requires
            old(self).wf(),
            old(self).fresh(),
            index < old(self).rows@.len(),
        ensures
            final(self).wf(),
            if old(self).tree.shape().nodes[old(self).rows@[index as int].node].expanded {
                old(self).collapsed_row(
                    *final(self),
                    old(self).rows@[index as int],
                    old(self).cursor,
                )
            } else {
                old(self).expanded_row(
                    *final(self),
                    old(self).rows@[index as int],
                    old(self).cursor,
                )
            },
    {
        proof {
            assert(row_in(self.tree.shape(), self.rows@[index as int]));
        }
        if self.tree.node(self.rows.row(index).node).expanded {
            // Collapsing the first directory of a run collapses the rest of it.
            self.tree.collapse(self.rows.row(index).head);
            self.dirty = true;
        } else {
            self.expand_row(index);
        }
    }

    /// Expands every directory of the run that row `index` stands for.
    pub fn expand_row(&mut self, index: usize)
        requires
            old(self).wf(),
            old(self).fresh(),
            index < old(self).rows@.len(),
        ensures
            final(self).wf(),
            old(self).expanded_row(*final(self), old(self).rows@[index as int], old(self).cursor),
    {
        let ghost b = self.tree.shape();
        let ghost none = Set::<NodeId>::empty();
        let ghost start = *self;
        let ghost row = self.rows@[index as int];
        assert(row_in(b, self.rows@[index as int]));
        let head: NodeId = self.rows.row(index).head;
        let mut node: NodeId = self.rows.row(index).node;
        let ghost mut done = Seq::<NodeId>::empty();
        let ghost run = b.run_up(row.node, row.head);
        proof {
            assert(done + run =~= run);
            assert(self.tree.requests() + b.to_list(done) =~= self.tree.requests());
        }
        loop
            invariant_except_break
                none == Set::<NodeId>::empty(),
                start.wf(),
                b == start.tree.shape(),
                b.wf(),
                head == row.head,
                b.has(node),
                b.within(node, head),
                run == done + b.run_up(node, head),
                self.tree.wf(),
                *self == (Workspace { tree: self.tree, ..start }),
                b.is_expanded(self.tree.shape(), done),
                self.tree.requests() == start.tree.requests() + b.to_list(done),
                self.tree.sorted_how() == start.tree.sorted_how(),
                forall|k: int|
                    0 <= k < done.len() ==> b.depths[#[trigger] done[k]] > b.depths[node],
            ensures
                self.tree.wf(),
                *self == (Workspace { tree: self.tree, ..start }),
                b.is_expanded(self.tree.shape(), run),
                self.tree.requests() == start.tree.requests() + b.to_list(run),
                self.tree.sorted_how() == start.tree.sorted_how(),
            decreases b.depths[node],
        {
            let ghost s = self.tree.shape();
            let ghost before = done;
            assert(!done.contains(node));
            assert(s.nodes[node] == b.nodes[node]);
            assert(s.has(node));
            assert(b.fits(none, node));
            self.tree.expand(node);
            proof {
                done = done.push(node);
                let t = self.tree.shape();
                assert(done.drop_last() =~= before);
                assert(t.nodes.dom() =~= b.nodes.dom());
                assert forall|x: NodeId| #[trigger] b.has(x) implies t.nodes[x]
                    == if done.contains(x) {
                    b.expanded_node(x)
                } else {
                    b.nodes[x]
                } by {
                    assert(done[before.len() as int] == node);
                    if done.contains(x) && x != node {
                        assert(before[done.index_of(x)] == x);
                    }
                    if before.contains(x) {
                        assert(done[before.index_of(x)] == x);
                    }
                    assert(s.nodes[x] == if before.contains(x) {
                        b.expanded_node(x)
                    } else {
                        b.nodes[x]
                    });
                }
                assert(b.is_expanded(t, done));
                assert(self.tree.requests() =~= start.tree.requests() + b.to_list(done));
            }
            if node == head {
                assert(run =~= done);
                break;
            }
            match self.tree.node(node).parent {
                Some(parent) => {
                    proof {
                        assert(b.parent(node) == Some(parent));
                        assert(run =~= done + b.run_up(parent, head));
                        assert forall|k: int| 0 <= k < done.len() implies b.depths[
                            #[trigger] done[k]
                        ] > b.depths[parent] by {
                            if k < before.len() {
                                assert(done[k] == before[k]);
                            }
                        }
                    }
                    node = parent;
                },
                None => {
                    assert(false);
                    break;
                },
            }
        }
        self.dirty = true;
    }

    /// Scrolls just enough to show the cursor with `scrolloff` rows around it.
    pub fn reveal_cursor(&mut self, scrolloff: usize)
        requires
            old(self).wf(),
            old(self).fresh(),
        ensures
            *final(self) == (Workspace { start: final(self).start, ..*old(self) }),
            final(self).start == match old(self).row_under_cursor() {
                Some(row) => revealed_start(
                    old(self).rows@,
                    old(self).start as int,
                    at_least_one(old(self).height as int),
                    row as int,
                    scrolloff as int,
                ),
                None => old(self).start as int,
            },
    {
        if let Some(row) = self.cursor_row() {
            let height: usize = if self.height < 1 {
                1
            } else {
                self.height
            };
            self.start = reveal_row(&self.rows, self.start, height, row, scrolloff);
        }
    }

    /// Expands the directories leading to `path` (relative to the root), listing them first if
    /// needed, for `purpose`.
    pub fn reveal_later(&mut self, path: TreePath, purpose: Purpose)
        ensures
            *final(self) == (Workspace { reveals: final(self).reveals, ..*old(self) }),
            final(self).reveals@ == old(self).reveals@.push(PendingReveal { path, purpose }),
    {
        self.reveals.push(PendingReveal { path, purpose });
    }
}

impl Workspace {
    /// Whether the rows are those of the tree as it is.
    pub open spec fn shows_tree(self) -> bool {
        &&& self.rows@ == self.tree.shape().rows(self.flatten_dirs)
        &&& forall|id: NodeId|
            self.tree.shape().shown_at(self.rows@, id, #[trigger] self.rows.row_of(id))
    }
}

/// The row of the node that a row stands for is that row.
pub proof fn law_rows_are_found_by_their_nodes(workspace: Workspace, index: int)
    requires
        workspace.wf(),
        workspace.shows_tree(),
        0 <= index < workspace.rows@.len(),
    ensures
        workspace.rows.row_of(workspace.rows@[index].node) matches Some(found) && found == index,
{
    let shape = workspace.tree.shape();
    let rows = workspace.rows@;
    let node = rows[index].node;
    shape.lemma_rows_in_tree(workspace.flatten_dirs, index);
    assert(shape.shows(rows[index], node));
    assert(shape.shown_at(rows, node, workspace.rows.row_of(node)));
    let found = workspace.rows.row_of(node)->0;
    shape.law_nodes_have_one_row(workspace.flatten_dirs, node, index, found as int);
}

/// Going down and then up, or up and then down, leaves the workspace as it was, with the cursor on the
/// row where it was.
pub proof fn law_the_cursor_goes_there_and_back(
    workspace: Workspace,
    there: Workspace,
    back: Workspace,
    down_first: bool,
)
    requires
        workspace.wf(),
        workspace.shows_tree(),
        workspace.rows.row_of(workspace.cursor) is Some,
        ({
            let (first, second) = if down_first {
                (Action::Down, Action::Up)
            } else {
                (Action::Up, Action::Down)
            };
            workspace.navigated(there, first) && there.navigated(back, second)
        }),
    ensures
        back == (Workspace {
            cursor: workspace.rows@[workspace.rows.row_of(workspace.cursor)->0 as int].node,
            ..workspace
        }),
        back.rows.row_of(back.cursor) == workspace.rows.row_of(workspace.cursor),
{
    let rows = workspace.rows@;
    let cursor = workspace.rows.row_of(workspace.cursor)->0 as int;
    let first = if down_first {
        Action::Down
    } else {
        Action::Up
    };
    let next = nav_target(rows, workspace.start as int, workspace.height as int, cursor, first);
    law_rows_are_found_by_their_nodes(workspace, next);
    law_rows_are_found_by_their_nodes(workspace, cursor);
    law_up_and_down_undo_each_other(
        rows,
        workspace.start as int,
        workspace.height as int,
        cursor,
    );
}

/// The cursor goes one row down or up, from the last row to the first and back; to the first or the
/// last row; or a page or half of one down or up, and no further than the last or the first row.
pub proof fn law_actions_move_the_cursor(
    rows: Seq<RowView>,
    start: int,
    height: int,
    cursor: int,
)
    requires
        0 <= cursor < rows.len(),
    ensures
        cursor + 1 < rows.len() ==> nav_target(rows, start, height, cursor, Action::Down) == cursor
            + 1,
        cursor + 1 == rows.len() ==> nav_target(rows, start, height, cursor, Action::Down) == 0,
        cursor > 0 ==> nav_target(rows, start, height, cursor, Action::Up) == cursor - 1,
        cursor == 0 ==> nav_target(rows, start, height, cursor, Action::Up) == rows.len() - 1,
        nav_target(rows, start, height, cursor, Action::First) == 0,
        nav_target(rows, start, height, cursor, Action::Last) == rows.len() - 1,
        ({
            let page = page_len(rows, start, height);
            let down = nav_target(rows, start, height, cursor, Action::PageDown);
            let up = nav_target(rows, start, height, cursor, Action::PageUp);
            let half_down = nav_target(rows, start, height, cursor, Action::HalfPageDown);
            let half_up = nav_target(rows, start, height, cursor, Action::HalfPageUp);
            &&& cursor + page < rows.len() ==> down == cursor + page
            &&& cursor + page >= rows.len() ==> down == rows.len() - 1
            &&& cursor - page >= 0 ==> up == cursor - page
            &&& cursor - page < 0 ==> up == 0
            &&& cursor + page / 2 < rows.len() ==> half_down == cursor + page / 2
            &&& cursor + page / 2 >= rows.len() ==> half_down == rows.len() - 1
            &&& cursor - page / 2 >= 0 ==> half_up == cursor - page / 2
            &&& cursor - page / 2 < 0 ==> half_up == 0
        }),
        forall|action: Action|
            !(action is Down || action is Up || action is First || action is Last
                || action is PageDown || action is PageUp || action is HalfPageDown
                || action is HalfPageUp) ==> #[trigger] nav_target(
                rows,
                start,
                height,
                cursor,
                action,
            ) == cursor,
{
}

/// A page is as many rows as there is room for below the pinned ones, and one at least.
pub proof fn law_pages_are_what_is_shown(rows: Seq<RowView>, start: int, height: int)
    requires
        height > 0,
        rows.len() > 0,
        0 <= start <= last_start(rows, height),
    ensures
        page_len(rows, start, height) >= 1,
        forall|i: int|
            #[trigger] visible(rows, start, height, i) <==> start <= i < start + page_len(
                rows,
                start,
                height,
            ),
{
}

impl Workspace {
    /// The action decides where the cursor goes: to the row it moves to, or nowhere while the rows
    /// are aligned by it. Without a row under it, the cursor goes back to the root.
    pub proof fn law_the_action_decides(self, after: Workspace, action: Action)
        requires
            self.navigated(after, action),
        ensures
            self.rows.row_of(self.cursor) is None ==> after.cursor == self.tree.shape().root
                && after.start == self.start,
            self.rows.row_of(self.cursor) matches Some(cursor) ==> {
                let rows = self.rows@;
                let (start, height) = (self.start as int, self.height as int);
                let lines = if height < 1 {
                    1
                } else {
                    height
                };
                &&& action is Down || action is Up || action is First || action is Last
                    || action is PageDown || action is PageUp || action is HalfPageDown
                    || action is HalfPageUp ==> after.cursor == rows[nav_target(
                    rows,
                    start,
                    height,
                    cursor as int,
                    action,
                )].node && after.start == self.start && after.tree == self.tree
                &&& action == Action::AlignTop ==> after.start == aligned_start(
                    rows,
                    lines,
                    cursor as int,
                    Align::Top,
                ) && after.cursor == rows[cursor as int].node
                &&& action == Action::AlignCenter ==> after.start == aligned_start(
                    rows,
                    lines,
                    cursor as int,
                    Align::Center,
                ) && after.cursor == rows[cursor as int].node
                &&& action == Action::AlignBottom ==> after.start == aligned_start(
                    rows,
                    lines,
                    cursor as int,
                    Align::Bottom,
                ) && after.cursor == rows[cursor as int].node
                &&& action == Action::Expand || action == Action::Collapse ==> after.cursor
                    == rows[cursor as int].node && after.start == self.start
            },
    {
    }

    /// Expanding the directory under the cursor expands every directory of its row and collapses
    /// nothing; collapsing one that is expanded, and not the root, collapses it and expands nothing.
    pub proof fn law_expanding_and_collapsing_do_what_they_say(
        self,
        after: Workspace,
        action: Action,
        cursor: usize,
    )
        requires
            self.wf(),
            self.navigated(after, action),
            self.rows.row_of(self.cursor) == Some(cursor),
        ensures
            ({
                let (before, then) = (self.tree.shape(), after.tree.shape());
                let row = self.rows@[cursor as int];
                &&& action == Action::Expand ==> before.is_expanded(
                    then,
                    before.run_up(row.node, row.head),
                ) && after.dirty
                &&& action == Action::Collapse && cursor != 0 && before.nodes[row.node].expanded
                    && row.head != before.root ==> before.is_collapsed(then, row.head)
                    && after.dirty
                &&& action == Action::Collapse && (cursor == 0
                    || !before.nodes[row.node].expanded) ==> after.tree == self.tree && after.dirty
                    == self.dirty
            }),
    {
    }
}

impl Shape {
    /// The directories of a row are the one it is for and those that it is in, up to the head.
    pub proof fn law_runs_go_up_to_the_head(self, node: NodeId, head: NodeId)
        ensures
            self.run_up(node, head).len() > 0,
            self.run_up(node, head)[0] == node,
            forall|i: int|
                0 <= i < self.run_up(node, head).len() - 1 ==> self.parent(
                    #[trigger] self.run_up(node, head)[i],
                ) == Some(self.run_up(node, head)[i + 1]) && self.run_up(node, head)[i] != head,
        decreases self.depths[node],
    {
        let run = self.run_up(node, head);
        if node != head && self.parent(node) is Some && self.depths[self.parent(node)->0]
            < self.depths[node] {
            let parent = self.parent(node)->0;
            self.law_runs_go_up_to_the_head(parent, head);
            let rest = self.run_up(parent, head);
            assert(run == seq![node] + rest);
            assert forall|i: int| 0 <= i < run.len() - 1 implies self.parent(#[trigger] run[i])
                == Some(run[i + 1]) && run[i] != head by {
                if i > 0 {
                    assert(run[i] == rest[i - 1]);
                    assert(run[i + 1] == rest[i]);
                }
            }
        }
    }
}

/// A root goes by its last name, or by all of its path if it has none.
pub proof fn law_roots_go_by_their_last_name(root: Seq<Part>, name: Seq<u8>)
    ensures
        root_name(root.push(Part::Normal(name))) == name,
        root_name(seq![Part::RootDir]) == seq![0x2fu8],
        root.len() > 0 && !(root[root.len() - 1] is Normal) ==> root_name(root) == written(root),
{
    assert(seq![Part::RootDir].drop_last() =~= Seq::<Part>::empty());
    assert(written(Seq::<Part>::empty()) =~= Seq::<u8>::empty());
    assert(written(seq![Part::RootDir]) =~= seq![0x2fu8]);
}

impl Shape {
    /// The closest row of an entry is its own if it has one, and else that of the closest directory
    /// that it is in and that has one.
    pub proof fn law_the_closest_row_is_the_innermost(self, rows: Rows, node: NodeId, above: NodeId)
        requires
            self.within(node, above),
            rows.row_of(above) is Some,
            forall|x: NodeId|
                #![trigger rows.row_of(x)]
                self.within(node, x) && x != above && rows.row_of(x) is Some ==> self.within(
                    above,
                    x,
                ),
            node != above ==> rows.row_of(node) is None,
            forall|x: NodeId|
                #![trigger self.within(x, above)]
                self.within(node, x) && self.within(x, above) && x != above ==> rows.row_of(x)
                    is None,
        ensures
            self.closest_row(rows, node) == rows.row_of(above),
        decreases self.depths[node],
    {
        if node != above {
            let parent = self.parent(node)->0;
            assert(self.within(parent, above));
            assert forall|x: NodeId|
                #![trigger rows.row_of(x)]
                self.within(parent, x) && x != above && rows.row_of(x) is Some implies self.within(
                above,
                x,
            ) by {
                assert(self.within(node, x));
            }
            assert forall|x: NodeId|
                #![trigger self.within(x, above)]
                self.within(parent, x) && self.within(x, above) && x != above implies rows.row_of(x)
                is None by {
                assert(self.within(node, x));
            }
            if parent != above {
                assert(self.within(parent, parent));
                assert(self.within(parent, above));
            }
            self.law_the_closest_row_is_the_innermost(rows, parent, above);
        }
    }
}

impl Workspace {
    /// A new workspace shows nothing but its root, which is expanded and asked for, with the cursor on
    /// it and nothing scrolled, typed or searched for.
    pub proof fn law_new_workspaces_show_their_root(
        self,
        root: Seq<Part>,
        generation: u64,
        sort: FileTreeSort,
        flatten_dirs: bool,
    )
        requires
            self.is_new(root, generation, sort, flatten_dirs),
        ensures
            ({
                let shape = self.tree.shape();
                &&& self.cursor == shape.root
                &&& self.start == 0
                &&& shape.nodes[shape.root].expanded
                &&& shape.nodes[shape.root].kind == Kind::Directory
                &&& self.tree.requests().contains(shape.root)
                &&& self.edit is None
                &&& self.search.origin is None
                &&& self.root@ == root
                &&& self.sort == sort
                &&& self.flatten_dirs == flatten_dirs
                &&& !self.ready
                &&& !self.dirty
                &&& !self.outdated
                &&& self.generation == generation
                &&& self.reveals@.len() == 0
                &&& self.scroll_to is None
                &&& self.search.candidates is None
                &&& self.search.query@.len() == 0
                &&& self.git_refresh == GitRefresh::Idle
                &&& forall|id: NodeId| #[trigger] shape.has(id) ==> id == shape.root
            }),
    {
        assert(self.tree.requests()[0] == self.tree.shape().root);
    }
}

impl Shape {
    /// The closest node to a path is at the longest start of the path that leads to one.
    pub proof fn law_the_closest_node_is_furthest_down(self, path: Seq<Part>) -> (n: int)
        ensures
            0 <= n <= path.len(),
            match self.closest_node(path) {
                Some(node) => self.find(self.root, path.take(n)) == Some(node) && forall|k: int|
                    n < k <= path.len() ==> self.find(self.root, #[trigger] path.take(k)) is None,
                None => forall|k: int|
                    0 <= k <= path.len() ==> self.find(self.root, #[trigger] path.take(k)) is None,
            },
        decreases path.len(),
    {
        assert(path.take(path.len() as int) =~= path);
        if self.find(self.root, path) is Some {
            path.len() as int
        } else if path.len() == 0 {
            0
        } else {
            let up = path.drop_last();
            let n = self.law_the_closest_node_is_furthest_down(up);
            assert forall|k: int| 0 <= k < path.len() implies #[trigger] path.take(k) == up.take(
                k,
            ) by {
                assert(path.take(k) =~= up.take(k));
            }
            assert(up.take(n) == path.take(n));
            assert forall|k: int| n < k <= path.len() && self.closest_node(path) is Some implies
                self.find(self.root, #[trigger] path.take(k)) is None by {
                if k < path.len() {
                    assert(path.take(k) == up.take(k));
                }
            }
            assert forall|k: int|
                0 <= k <= path.len() && self.closest_node(path) is None implies self.find(
                self.root,
                #[trigger] path.take(k),
            ) is None by {
                if k < path.len() {
                    assert(path.take(k) == up.take(k));
                }
            }
            n
        }
    }

    /// An entry is shown in its closest row. One that is gone is shown by the closest node to the path
    /// that it was seen at, and not at all if it was not seen.
    pub proof fn law_gone_entries_are_shown_by_what_is_left(
        self,
        rows: Rows,
        node: NodeId,
        path: Seq<Part>,
    )
        ensures
            self.has(node) ==> self.shown_row(rows, node, Some(path)) == self.closest_row(rows, node),
            !self.has(node) ==> self.shown_row(rows, node, None) is None,
            !self.has(node) ==> (self.closest_node(path) matches Some(found) ==> self.shown_row(
                rows,
                node,
                Some(path),
            ) == self.closest_row(rows, found)),
    {
    }
}

} // verus!
