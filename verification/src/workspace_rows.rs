//! The rows of a workspace, and which of them the cursor and the line being typed are on.

use crate::arena::NodeId;
use crate::chars::{chars_of_str, copy_str};
use crate::edit::{EditKind, EditKindView};
use crate::names::{joined, Part, TreePath};
use crate::order::{FileTreeSort, Group};
use crate::rows::{lemma_row_depth, RowView, Rows};
use crate::shape::Shape;
use crate::workspace::{row_in, Workspace};
use vstd::prelude::*;

verus! {

/// Where the input row for a new entry goes: below `dir`, before its entry at `at`.
#[derive(Clone, Copy, Debug, PartialEq, Eq, Structural)]
pub struct InputRow {
    pub dir: NodeId,
    pub at: usize,
}

/// A row being typed in.
#[derive(Debug)]
pub struct EditRow {
    pub index: usize,
    /// The ancestor lanes of the row.
    pub depth: usize,
    pub name: String,
    pub directory: bool,
}

impl Shape {
    /// How many of `ids` from the start on sort with the directories.
    pub open spec fn leading_directories(self, ids: Seq<NodeId>) -> nat
        decreases ids.len(),
    {
        if ids.len() > 0 && self.nodes[ids[0]].kind.group_of() is Directory {
            1 + self.leading_directories(ids.skip(1))
        } else {
            0
        }
    }

    /// The first of the rows from `from` on that lies in none of the entries `ids`.
    pub open spec fn row_past(self, rows: Seq<RowView>, ids: Seq<NodeId>, from: int) -> int
        decreases rows.len() - from,
    {
        if 0 <= from < rows.len() && self.below_any(ids, rows[from].node) {
            self.row_past(rows, ids, from + 1)
        } else {
            from
        }
    }
}

/// The lanes of a row that hangs from row `parent`.
pub open spec fn depth_below(rows: Seq<RowView>, parent: int) -> int {
    if parent == 0 {
        0
    } else {
        rows[parent].depth + 1
    }
}

/// The row that an entry at `path` was seen in, if it was.
pub open spec fn seen_path(rows: Rows, node: NodeId) -> Option<Seq<Part>> {
    match rows.row_of(node) {
        Some(index) => Some(rows@[index as int].path),
        None => None,
    }
}

impl Workspace {
    /// Where the rows start after they were rebuilt to `rows`.
    pub open spec fn kept_start(&self, rows: Rows) -> int {
        let least = if self.start < rows@.len() - 1 {
            self.start as int
        } else {
            rows@.len() - 1
        };
        if self.start < self.rows@.len() {
            let row = self.rows@[self.start as int];
            match self.tree.shape().shown_row(rows, row.node, Some(row.path)) {
                Some(index) => index as int,
                None => least,
            }
        } else {
            least
        }
    }

    /// The node that the cursor is on after the rows were rebuilt to `rows`.
    pub open spec fn kept_cursor(&self, rows: Rows) -> NodeId {
        match self.tree.shape().shown_row(rows, self.cursor, seen_path(self.rows, self.cursor)) {
            Some(index) => rows@[index as int].node,
            None => self.tree.shape().root,
        }
    }

    /// The row of `node`, last seen at `path`, or of its closest ancestor that has one.
    pub fn shown_row(&self, node: NodeId, path: Option<&TreePath>) -> (row: Option<usize>)
        requires
            self.tree.wf(),
        ensures
            row == self.tree.shape().shown_row(
                self.rows,
                node,
                match path {
                    Some(path) => Some(path@),
                    None => None,
                },
            ),
            self.rows.wf() && row is Some ==> row->0 < self.rows@.len(),
    {
        let ghost s = self.tree.shape();
        let mut current: NodeId = node;
        if !self.tree.contains(node) {
            // The entry is gone; start from its closest ancestor that is still there.
            match path {
                None => {
                    return None;
                },
                Some(path) => {
                    match self.closest_node(path) {
                        Some(found) => {
                            current = found;
                        },
                        None => {
                            return None;
                        },
                    }
                },
            }
        }
        let ghost origin = current;
        loop
            invariant
                self.tree.wf(),
                s == self.tree.shape(),
                s.has(current),
                s.closest_row(self.rows, origin) == s.closest_row(self.rows, current),
                s.shown_row(
                    self.rows,
                    node,
                    match path {
                        Some(path) => Some(path@),
                        None => None,
                    },
                ) == s.closest_row(self.rows, origin),
            decreases s.depths[current],
        {
            assert(s.fits(Set::empty(), current));
            match self.rows.index_of(current) {
                Some(index) => {
                    return Some(index);
                },
                None => {},
            }
            match self.tree.node(current).parent {
                Some(parent) => {
                    current = parent;
                },
                None => {
                    return None;
                },
            }
        }
    }

    /// The node at the longest start of `path` that is there.
    fn closest_node(&self, path: &TreePath) -> (node: Option<NodeId>)
        requires
            self.tree.wf(),
        ensures
            node == self.tree.shape().closest_node(path@),
            node matches Some(node) ==> self.tree.shape().has(node),
    {
        let ghost s = self.tree.shape();
        let mut len: usize = path.components.len();
        assert(path@.take(len as int) =~= path@);
        loop
            invariant
                self.tree.wf(),
                s == self.tree.shape(),
                len <= path@.len(),
                s.closest_node(path@) == s.closest_node(path@.take(len as int)),
            decreases len,
        {
            match self.tree.find(&path.prefix(len)) {
                Some(node) => {
                    return Some(node);
                },
                None => {},
            }
            if len == 0 {
                return None;
            }
            assert(path@.take(len as int).drop_last() =~= path@.take(len - 1));
            len -= 1;
        }
    }

    /// Rebuilds `rows`, keeping the cursor and the first ordinary row on the same entries, or
    /// on their closest shown directory when they disappear from view or from disk.
    pub fn rebuild_rows(&mut self)
        requires
            old(self).wf(),
        ensures
            final(self).wf(),
            final(self).fresh(),
            *final(self) == (Workspace {
                rows: final(self).rows,
                start: final(self).start,
                cursor: final(self).cursor,
                ..*old(self)
            }),
            final(self).rows@ == old(self).tree.shape().rows(old(self).flatten_dirs),
            forall|id: NodeId|
                old(self).tree.shape().shown_at(
                    final(self).rows@,
                    id,
                    #[trigger] final(self).rows.row_of(id),
                ),
            final(self).start == old(self).kept_start(final(self).rows),
            final(self).cursor == old(self).kept_cursor(final(self).rows),
            final(self).start < final(self).rows@.len(),
            final(self).rows.row_of(final(self).cursor) is Some,
    {
        let ghost s = self.tree.shape();
        let mut anchor: Option<(NodeId, TreePath)> = None;
        if self.start < self.rows.len() {
            let row = self.rows.row(self.start);
            anchor = Some((row.node, row.path.copy()));
        }
        let mut cursor_path: Option<TreePath> = None;
        if let Some(index) = self.rows.index_of(self.cursor) {
            cursor_path = Some(self.rows.row(index).path.copy());
        }
        self.rows = Rows::build(&self.tree, self.flatten_dirs);
        proof {
            let rows = self.rows;
            assert forall|i: int| 0 <= i < rows@.len() implies row_in(s, #[trigger] rows@[i]) by {
                s.lemma_rows_in_tree(self.flatten_dirs, i);
            }
            assert(rows@[0] == s.root_row());
            assert(s.shows(rows@[0], s.root));
            assert(s.shown_at(rows@, s.root, rows.row_of(s.root)));
        }
        let last: usize = self.rows.len() - 1;
        let mut start: usize = if self.start < last {
            self.start
        } else {
            last
        };
        if let Some((node, path)) = &anchor {
            if let Some(index) = self.shown_row(*node, Some(path)) {
                start = index;
            }
        }
        let shown: Option<usize> = match &cursor_path {
            Some(path) => self.shown_row(self.cursor, Some(path)),
            None => self.shown_row(self.cursor, None),
        };
        let cursor: NodeId = match shown {
            Some(index) => self.rows.row(index).node,
            None => self.tree.root(),
        };
        self.start = start;
        self.cursor = cursor;
        proof {
            let rows = self.rows;
            if shown is Some {
                let row = rows@[shown->0 as int];
                assert(row_in(s, row));
                assert(s.shows(row, cursor));
            }
            assert(s.shown_at(rows@, cursor, rows.row_of(cursor)));
        }
    }

    /// Where the input row for a new entry goes: after the directories for a file (when they
    /// come first), else first.
    pub open spec fn input_place(&self) -> Option<InputRow> {
        match self.edit {
            Some(edit) => match edit.kind@ {
                EditKindView::Create { dir, directory, .. } => if self.tree.shape().has(dir) {
                    Some(
                        InputRow {
                            dir,
                            at: if !directory && self.sort is DirectoriesFirst {
                                self.tree.shape().leading_directories(
                                    self.tree.shape().ids(dir),
                                ) as usize
                            } else {
                                0
                            },
                        },
                    )
                } else {
                    None
                },
                _ => None,
            },
            None => None,
        }
    }

    /// The index of the input row for a new entry: the row of its directory, plus the rows of the
    /// entries before it, plus one.
    pub open spec fn input_index(&self) -> Option<usize> {
        match self.input_place() {
            Some(place) => match self.rows.row_of(place.dir) {
                Some(row) => Some(
                    self.tree.shape().row_past(
                        self.rows@,
                        self.tree.shape().ids(place.dir).take(place.at as int),
                        row + 1,
                    ) as usize,
                ),
                None => None,
            },
            None => None,
        }
    }

    /// The row the cursor is on: the input row while a new entry is named.
    pub open spec fn row_under_cursor(&self) -> Option<usize> {
        if self.edit is Some && self.edit->0.kind@ is Create {
            self.input_index()
        } else {
            self.rows.row_of(self.cursor)
        }
    }

    /// Where the input row for a new entry goes: after the directories for a file (when they
    /// come first), else first.
    pub fn input_row(&self) -> (row: Option<InputRow>)
        requires
            self.tree.wf(),
        ensures
            row == self.input_place(),
            row matches Some(row) ==> row.at <= self.tree.shape().ids(row.dir).len()
                && self.tree.shape().has(row.dir),
    {
        let (dir, directory) = match &self.edit {
            Some(edit) => match &edit.kind {
                EditKind::Create { dir, directory, .. } => (*dir, *directory),
                _ => {
                    return None;
                },
            },
            None => {
                return None;
            },
        };
        if !self.tree.contains(dir) {
            return None;
        }
        let ghost s = self.tree.shape();
        let mut at: usize = 0;
        if !directory && self.sort == FileTreeSort::DirectoriesFirst {
            let children: Vec<NodeId> = self.tree.children(dir);
            assert(children@.skip(0) =~= children@);
            assert(s.fits(Set::empty(), dir));
            while at < children.len()
                invariant
                    s == self.tree.shape(),
                    s.fits(Set::empty(), dir),
                    children@ == s.ids(dir),
                    at <= children@.len(),
                    s.leading_directories(children@) == at + s.leading_directories(
                        children@.skip(at as int),
                    ),
                ensures
                    at <= children@.len(),
                    s.leading_directories(children@) == at,
                decreases children.len() - at,
            {
                let child: NodeId = children[at];
                proof {
                    assert(s.holds(Set::empty(), dir, s.ids(dir)[at as int]));
                    assert(children@.skip(at as int).skip(1) =~= children@.skip(at + 1));
                    assert(children@.skip(at as int)[0] == child);
                }
                if self.tree.node(child).kind.group() != Group::Directory {
                    break;
                }
                at += 1;
            }
        }
        Some(InputRow { dir, at })
    }

    /// The index of the input row for a new entry.
    pub fn input(&self) -> (index: Option<usize>)
        requires
            self.wf(),
            self.fresh(),
        ensures
            index == self.input_index(),
            index matches Some(index) ==> index <= self.rows@.len(),
    {
        let place: InputRow = match self.input_row() {
            Some(place) => place,
            None => {
                return None;
            },
        };
        let row: usize = match self.rows.index_of(place.dir) {
            Some(row) => row,
            None => {
                return None;
            },
        };
        let ghost s = self.tree.shape();
        let children: Vec<NodeId> = self.tree.children(place.dir);
        let ghost ids = children@.take(place.at as int);
        let len: usize = self.rows.len();
        let mut index: usize = row + 1;
        loop
            invariant
                self.wf(),
                self.fresh(),
                s == self.tree.shape(),
                len == self.rows@.len(),
                row < index <= len,
                place.at <= children@.len(),
                ids == children@.take(place.at as int),
                s.row_past(self.rows@, ids, row + 1) == s.row_past(
                    self.rows@,
                    ids,
                    index as int,
                ),
            ensures
                row < index <= len,
                index == s.row_past(self.rows@, ids, row + 1),
            decreases len - index,
        {
            if index == len {
                break;
            }
            assert(row_in(s, self.rows@[index as int]));
            let node: NodeId = self.rows.row(index).node;
            let mut k: usize = 0;
            while k < place.at && !self.tree.is_within(node, children[k])
                invariant
                    self.tree.wf(),
                    s == self.tree.shape(),
                    s.has(node),
                    k <= place.at <= children@.len(),
                    ids == children@.take(place.at as int),
                    forall|j: int| 0 <= j < k ==> !s.within(node, #[trigger] ids[j]),
                decreases place.at - k,
            {
                assert(ids[k as int] == children@[k as int]);
                k += 1;
            }
            if k == place.at {
                assert(!s.below_any(ids, node));
                break;
            }
            assert(ids[k as int] == children@[k as int]);
            assert(s.below_any(ids, node));
            index += 1;
        }
        Some(index)
    }

    /// The row the cursor is on: the input row while a new entry is named.
    pub fn cursor_row(&self) -> (row: Option<usize>)
        requires
            self.wf(),
            self.fresh(),
        ensures
            row == self.row_under_cursor(),
    {
        match &self.edit {
            Some(edit) => match &edit.kind {
                EditKind::Create { .. } => self.input(),
                _ => self.rows.index_of(self.cursor),
            },
            None => self.rows.index_of(self.cursor),
        }
    }

    /// The absolute path of the cursor's entry.
    pub fn cursor_path(&self) -> (path: Option<TreePath>)
        requires
            self.rows.wf(),
        ensures
            match self.rows.row_of(self.cursor) {
                Some(index) => path is Some && path->0@ == joined(
                    self.root@,
                    self.rows@[index as int].path,
                ),
                None => path is None,
            },
    {
        match self.rows.index_of(self.cursor) {
            Some(index) => Some(self.root.join_path(&self.rows.row(index).path)),
            None => None,
        }
    }

    /// The row being typed in and its lanes.
    pub open spec fn edit_spot(&self) -> Option<(usize, int)> {
        match self.edit {
            Some(edit) => match edit.kind@ {
                EditKindView::Rename { node, .. } => match self.rows.row_of(node) {
                    Some(index) => Some((index, self.rows@[index as int].depth)),
                    None => None,
                },
                EditKindView::Create { dir, .. } => match self.input_index() {
                    Some(index) => Some(
                        (index, depth_below(self.rows@, self.rows.row_of(dir)->0 as int)),
                    ),
                    None => None,
                },
                _ => None,
            },
            None => None,
        }
    }

    /// Whether `row` is the row being typed in.
    pub open spec fn is_edit_row(&self, row: Option<EditRow>) -> bool {
        match self.edit_spot() {
            Some((index, depth)) => {
                &&& row matches Some(row)
                &&& row.index == index
                &&& row.depth == depth
                &&& row.name@ == self.edit->0.line@
                &&& row.directory == match self.edit->0.kind@ {
                    EditKindView::Create { directory, .. } => directory || (
                    self.edit->0.line@.len() > 0 && self.edit->0.line@.last() == '/'),
                    _ => false,
                }
            },
            None => row is None,
        }
    }

    /// The row being typed in, for drawing.
    pub fn edit_row(&self) -> (row: Option<EditRow>)
        requires
            self.wf(),
            self.fresh(),
        ensures
            self.is_edit_row(row),
    {
        match &self.edit {
            Some(edit) => match &edit.kind {
                EditKind::Rename { node, .. } => match self.rows.index_of(*node) {
                    Some(index) => Some(
                        EditRow {
                            index,
                            depth: self.rows.row(index).depth,
                            name: copy_str(edit.line.as_str()),
                            directory: false,
                        },
                    ),
                    None => None,
                },
                EditKind::Create { dir, directory, .. } => match (
                    self.input(),
                    self.rows.index_of(*dir),
                ) {
                    (Some(index), Some(parent)) => {
                        let chars: Vec<char> = chars_of_str(edit.line.as_str());
                        let slash: bool = chars.len() > 0 && chars[chars.len() - 1] == '/';
                        let depth: usize = if parent == 0 {
                            0
                        } else {
                            proof {
                                lemma_row_depth(self.rows@, parent as int);
                            }
                            self.rows.row(parent).depth + 1
                        };
                        Some(
                            EditRow {
                                index,
                                depth,
                                name: copy_str(edit.line.as_str()),
                                directory: *directory || slash,
                            },
                        )
                    },
                    _ => None,
                },
                _ => None,
            },
            None => None,
        }
    }
}

impl Shape {
    /// The leading directories are the entries before the first one that does not sort with them.
    pub proof fn law_directories_lead(self, ids: Seq<NodeId>)
        ensures
            self.leading_directories(ids) <= ids.len(),
            forall|i: int|
                0 <= i < self.leading_directories(ids) ==> self.nodes[
                    #[trigger] ids[i]
                ].kind.group_of() is Directory,
            self.leading_directories(ids) < ids.len() ==> !(self.nodes[ids[self.leading_directories(
                ids,
            ) as int]].kind.group_of() is Directory),
        decreases ids.len(),
    {
        if ids.len() > 0 && self.nodes[ids[0]].kind.group_of() is Directory {
            let rest = ids.skip(1);
            self.law_directories_lead(rest);
            assert forall|i: int| 0 <= i < self.leading_directories(ids) implies self.nodes[
                #[trigger] ids[i]
            ].kind.group_of() is Directory by {
                if i > 0 {
                    assert(rest[i - 1] == ids[i]);
                }
            }
            let n = self.leading_directories(rest) as int;
            if n < rest.len() {
                assert(rest[n] == ids[n + 1]);
            }
        }
    }

    /// The row past some entries is the first one that lies in none of them.
    pub proof fn law_rows_past_entries_are_the_first(
        self,
        rows: Seq<RowView>,
        ids: Seq<NodeId>,
        from: int,
    )
        requires
            0 <= from <= rows.len(),
        ensures
            from <= self.row_past(rows, ids, from) <= rows.len(),
            forall|i: int|
                from <= i < self.row_past(rows, ids, from) ==> self.below_any(
                    ids,
                    (#[trigger] rows[i]).node,
                ),
            self.row_past(rows, ids, from) < rows.len() ==> !self.below_any(
                ids,
                rows[self.row_past(rows, ids, from)].node,
            ),
        decreases rows.len() - from,
    {
        if from < rows.len() && self.below_any(ids, rows[from].node) {
            self.law_rows_past_entries_are_the_first(rows, ids, from + 1);
        }
    }
}

impl Workspace {
    /// A new directory is named first in the directory it goes to, and so is a new file, unless the
    /// directories come first: then it is named after them.
    pub proof fn law_new_entries_are_named_where_they_go(
        self,
        edit: crate::edit::Edit,
        dir: NodeId,
        dir_path: Seq<Part>,
        directory: bool,
    )
        requires
            self.edit == Some(edit),
            edit.kind@ == (EditKindView::Create { dir, dir_path, directory }),
            self.tree.shape().has(dir),
            self.tree.shape().ids(dir).len() <= usize::MAX,
        ensures
            self.input_place() matches Some(place) && place.dir == dir,
            directory || self.sort == FileTreeSort::Alphabetical ==> self.input_place()->0.at == 0,
            !directory && self.sort == FileTreeSort::DirectoriesFirst ==> self.input_place()->0.at
                == self.tree.shape().leading_directories(self.tree.shape().ids(dir)),
    {
        self.tree.shape().law_directories_lead(self.tree.shape().ids(dir));
    }

    /// Rows below the root have no lanes, and those below another row one more than it.
    pub proof fn law_lanes_grow_with_the_depth(self, parent: int)
        ensures
            depth_below(self.rows@, 0) == 0,
            parent != 0 ==> depth_below(self.rows@, parent) == self.rows@[parent].depth + 1,
    {
    }
}

impl Workspace {
    /// While a new entry is named, the cursor is on the row that it is named in. Otherwise it is on
    /// the row of its entry.
    pub proof fn law_the_cursor_is_where_names_are_typed(self)
        ensures
            self.edit is None ==> self.row_under_cursor() == self.rows.row_of(self.cursor),
            self.edit matches Some(edit) ==> (edit.kind@ is Create ==> self.row_under_cursor()
                == self.input_index()),
            self.edit matches Some(edit) ==> (!(edit.kind@ is Create) ==> self.row_under_cursor()
                == self.rows.row_of(self.cursor)),
    {
    }

    /// A new entry that comes first in its directory is named right below it, and so is one in a
    /// directory that has no rows below it.
    pub proof fn law_first_entries_are_named_below_their_directory(
        self,
        place: InputRow,
        row: usize,
    )
        requires
            self.input_place() == Some(place),
            self.rows.row_of(place.dir) == Some(row),
            place.at == 0,
            row < usize::MAX,
        ensures
            self.input_index() matches Some(index) && index == row + 1,
    {
        let none = self.tree.shape().ids(place.dir).take(0);
        assert(none.len() == 0);
        assert(!self.tree.shape().below_any(none, self.rows@[row + 1].node));
    }

    /// A name is typed in the row of the entry that is renamed, with its lanes, and anything else that
    /// is no new entry is not typed in a row.
    pub proof fn law_entries_are_renamed_in_their_rows(self, edit: crate::edit::Edit)
        requires
            self.edit == Some(edit),
        ensures
            edit.kind@ matches EditKindView::Rename { node, .. } ==> (self.rows.row_of(node) matches
                Some(index) ==> self.edit_spot() == Some((index, self.rows@[index as int].depth))),
            edit.kind@ is Move || edit.kind@ is Delete || edit.kind@ is Search ==> self.edit_spot()
                is None,
    {
    }

    /// A row being typed in reads the line as far as it is typed. It is that of a directory if one is
    /// made, or if the line ends with a slash.
    pub proof fn law_typed_rows_read_the_line(
        self,
        row: EditRow,
        edit: crate::edit::Edit,
        dir: NodeId,
        dir_path: Seq<Part>,
        directory: bool,
    )
        requires
            self.is_edit_row(Some(row)),
            self.edit == Some(edit),
        ensures
            row.name@ == edit.line@,
            edit.kind@ == (EditKindView::Create { dir, dir_path, directory }) ==> (row.directory
                <==> directory || (edit.line@.len() > 0 && edit.line@[edit.line@.len() - 1] == '/')),
            edit.kind@ is Rename ==> !row.directory,
    {
    }
}

impl Workspace {
    /// The row that was shown first is still shown first when the rows are rebuilt, or what is left of
    /// it. Where nothing is, the rows start where they did, as far as there are that many.
    pub proof fn law_the_first_row_stays_first(self, rows: Rows)
        requires
            rows@.len() > 0,
        ensures
            self.start < self.rows@.len() ==> ({
                let row = self.rows@[self.start as int];
                let shown = self.tree.shape().shown_row(rows, row.node, Some(row.path));
                &&& shown matches Some(index) ==> self.kept_start(rows) == index
                &&& shown is None ==> self.kept_start(rows) <= self.start && self.kept_start(rows)
                    < rows@.len()
            }),
            self.start >= self.rows@.len() ==> self.kept_start(rows) <= self.start
                && self.kept_start(rows) < rows@.len() && (self.start < rows@.len()
                ==> self.kept_start(rows) == self.start),
    {
    }

    /// The cursor stays on what it was on, or what is left of it, and goes to the root where nothing is.
    pub proof fn law_the_cursor_stays_on_its_entry(self, rows: Rows)
        ensures
            ({
                let seen = match self.rows.row_of(self.cursor) {
                    Some(index) => Some(self.rows@[index as int].path),
                    None => None,
                };
                let shown = self.tree.shape().shown_row(rows, self.cursor, seen);
                &&& shown matches Some(index) ==> self.kept_cursor(rows) == rows@[index as int].node
                &&& shown is None ==> self.kept_cursor(rows) == self.tree.shape().root
            }),
    {
    }
}

} // verus!
