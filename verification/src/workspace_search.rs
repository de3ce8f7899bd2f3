//! Searching the tree of a workspace.

use crate::arena::{Kind, NodeId};
use crate::chars::chars_of_str;
use crate::edit::{Edit, EditKind};
use crate::names::path_text;
use crate::order::path_order;
use crate::rows::{RowView, Rows};
use crate::search::{
    distinct_sorted, fits_matcher, has_words, match_indices, Candidates, Hit, Matching, MAX_QUERY,
};
use crate::seqs::select;
use crate::shape::Shape;
use crate::workspace::{Origin, PendingReveal, Purpose, Search, Workspace};
use vstd::prelude::*;

verus! {

/// What is told of the result of a search.
#[derive(Clone, Copy, Debug, PartialEq, Eq, Structural)]
pub enum Notice {
    Nothing,
    /// The search went past the end of the tree.
    Wrapped,
    NoMoreMatches,
}

/// Whether a path is revealed for something else than a search.
pub open spec fn not_for_match() -> spec_fn(PendingReveal) -> bool {
    |reveal: PendingReveal| !(reveal.purpose is Match)
}

impl Shape {
    /// Whether the end of a search collapses `dir`: the search expanded it, as it is none of
    /// `expanded`, and it does not lead to a kept cursor.
    pub open spec fn undone_by_search(
        self,
        expanded: Seq<NodeId>,
        kept: bool,
        cursor: NodeId,
        dir: NodeId,
    ) -> bool {
        &&& self.has(dir)
        &&& dir != self.root
        &&& self.nodes[dir].expanded
        &&& !expanded.contains(dir)
        &&& !(kept && self.has(cursor) && self.within(cursor, dir))
    }

    /// Whether `after` is the shape with the directories collapsed that a search expanded.
    pub open spec fn search_undone(
        self,
        after: Shape,
        expanded: Seq<NodeId>,
        kept: bool,
        cursor: NodeId,
    ) -> bool {
        self.are_collapsed(
            after,
            Set::new(|dir: NodeId| self.undone_by_search(expanded, kept, cursor, dir)),
        )
    }
}

impl Workspace {
    /// Where the cursor is after a search.
    pub open spec fn cursor_after_search(&self, kept: bool, origin: Origin) -> NodeId {
        if !kept && self.tree.shape().has(origin.cursor) {
            origin.cursor
        } else {
            self.cursor
        }
    }

    /// Takes the paths to be revealed for a search out.
    fn forget_matches(&mut self)
        ensures
            *final(self) == (Workspace { reveals: final(self).reveals, ..*old(self) }),
            final(self).reveals@ == select(old(self).reveals@, not_for_match()),
    {
        let mut all: Vec<PendingReveal> = Vec::new();
        std::mem::swap(&mut all, &mut self.reveals);
        let ghost given = all@;
        let mut kept: Vec<PendingReveal> = Vec::new();
        for reveal in iter: all
            invariant
                iter.seq() == given,
                kept@ == select(given.take(iter.index() as int), not_for_match()),
        {
            let ghost k = iter.index() as int;
            assert(given.take(k + 1).drop_last() =~= given.take(k));
            match reveal.purpose {
                Purpose::Match => {},
                _ => {
                    kept.push(reveal);
                },
            }
        }
        assert(given.take(given.len() as int) =~= given);
        self.reveals = kept;
    }

    /// Whether `after` is the workspace with a search started from the cursor's row.
    pub open spec fn search_started(self, after: Workspace) -> bool {
        match self.rows.row_of(self.cursor) {
            None => after == self,
            Some(index) => {
                let row = self.rows@[index as int];
                let s = self.tree.shape();
                &&& after == Workspace { search: after.search, edit: after.edit, ..self }
                &&& after.edit matches Some(edit)
                &&& edit.kind@ is Search
                &&& edit.line@.len() == 0
                &&& after.search.candidates is None
                &&& after.search.generation == 0
                &&& after.search.query@ == self.search.query@
                &&& after.search.origin matches Some(origin)
                &&& origin.cursor == self.cursor
                &&& origin.path@ == row.path
                &&& origin.is_dir == s.is_directory(row.node)
                &&& origin.start == self.start
                &&& forall|id: NodeId| #[trigger]
                    origin.expanded@.contains(id) <==> s.has(id) && s.nodes[id].expanded
            },
        }
    }

    /// Starts a search from the cursor's row.
    pub fn start_search(&mut self)
        requires
            old(self).wf(),
            old(self).fresh(),
        ensures
            old(self).search_started(*final(self)),
    {
        let index: usize = match self.rows.index_of(self.cursor) {
            Some(index) => index,
            None => {
                return ;
            },
        };
        assert(crate::workspace::row_in(self.tree.shape(), self.rows@[index as int]));
        let row = self.rows.row(index);
        let origin = Origin {
            cursor: self.cursor,
            path: row.path.copy(),
            is_dir: self.tree.node(row.node).kind == Kind::Directory,
            start: self.start,
            expanded: self.tree.expanded_directories(),
        };
        let mut query: String = String::new();
        std::mem::swap(&mut query, &mut self.search.query);
        self.search = Search { candidates: None, query, origin: Some(origin), generation: 0 };
        self.edit = Some(Edit::new(EditKind::Search, String::new()));
    }

    /// Moves the cursor to the result of a search. Returns what is told of it.
    pub fn found(&mut self, hit: Option<Hit>, incremental: bool) -> (notice: Notice)
        ensures
            ({
                let others = select(old(self).reveals@, not_for_match());
                match hit {
                    Some(hit) => {
                        &&& *final(self) == Workspace {
                            reveals: final(self).reveals,
                            ..*old(self)
                        }
                        &&& final(self).reveals@ == others.push(
                            PendingReveal { path: hit.path, purpose: Purpose::Match },
                        )
                        &&& notice == if hit.wrapped && !incremental {
                            Notice::Wrapped
                        } else {
                            Notice::Nothing
                        }
                    },
                    None => {
                        &&& *final(self) == Workspace {
                            reveals: final(self).reveals,
                            cursor: if incremental && old(self).search.origin is Some {
                                old(self).search.origin->0.cursor
                            } else {
                                old(self).cursor
                            },
                            ..*old(self)
                        }
                        &&& final(self).reveals@ == others
                        &&& notice == if incremental {
                            Notice::Nothing
                        } else {
                            Notice::NoMoreMatches
                        }
                    },
                }
            }),
    {
        self.forget_matches();
        match hit {
            Some(hit) => {
                self.reveals.push(PendingReveal { path: hit.path, purpose: Purpose::Match });
                if hit.wrapped && !incremental {
                    Notice::Wrapped
                } else {
                    Notice::Nothing
                }
            },
            None => {
                if !incremental {
                    return Notice::NoMoreMatches;
                }
                if let Some(origin) = &self.search.origin {
                    self.cursor = origin.cursor;
                }
                Notice::Nothing
            },
        }
    }

    /// Whether `after` is the workspace with its search ended, `kept` or not.
    pub open spec fn search_finished(self, after: Workspace, kept: bool) -> bool {
        match self.search.origin {
            None => after == self,
            Some(origin) => {
                let cursor = self.cursor_after_search(kept, origin);
                &&& after == Workspace {
                    tree: after.tree,
                    search: after.search,
                    reveals: after.reveals,
                    cursor,
                    start: if kept {
                        self.start
                    } else {
                        origin.start
                    },
                    dirty: true,
                    ..self
                }
                &&& after.search == Search {
                    origin: None,
                    generation: if kept {
                        self.search.generation
                    } else {
                        (self.search.generation + 1) as u64
                    },
                    ..self.search
                }
                &&& after.reveals@ == if kept {
                    self.reveals@
                } else {
                    select(self.reveals@, not_for_match())
                }
                &&& self.tree.shape().search_undone(
                    after.tree.shape(),
                    origin.expanded@,
                    kept,
                    cursor,
                )
                &&& after.tree.requests() == self.tree.requests()
            },
        }
    }

    /// Ends the query being typed. Unless it is `kept`, the cursor and the scroll position go
    /// back to where they were; directories the search expanded collapse again, but for the
    /// ones leading to a kept cursor.
    pub fn finish_search(&mut self, kept: bool)
        requires
            old(self).wf(),
            old(self).search.generation < u64::MAX,
        ensures
            final(self).wf(),
            old(self).settled() ==> final(self).settled(),
            old(self).search_finished(*final(self), kept),
    {
        let origin: Origin = match self.search.origin.take() {
            Some(origin) => origin,
            None => {
                return ;
            },
        };
        if !kept {
            self.search.generation = self.search.generation + 1;
            self.forget_matches();
            if self.tree.contains(origin.cursor) {
                self.cursor = origin.cursor;
            }
            self.start = origin.start;
        }
        self.collapse_expanded(&origin.expanded, kept);
        self.dirty = true;
    }

    /// Collapses the directories that are expanded now and are none of `before`, but for the ones
    /// leading to a kept cursor.
    fn collapse_expanded(&mut self, before: &Vec<NodeId>, kept: bool)
        requires
            old(self).wf(),
        ensures
            final(self).wf(),
            *final(self) == (Workspace { tree: final(self).tree, ..*old(self) }),
            old(self).tree.shape().search_undone(
                final(self).tree.shape(),
                before@,
                kept,
                old(self).cursor,
            ),
            final(self).tree.requests() == old(self).tree.requests(),
    {
        let ghost b = self.tree.shape();
        let ghost none = Set::<NodeId>::empty();
        let ghost mut dirs = Set::<NodeId>::empty();
        let cursor: NodeId = self.cursor;
        let expanded: Vec<NodeId> = self.tree.expanded_directories();
        let mut i: usize = 0;
        while i < expanded.len()
            invariant
                i <= expanded@.len(),
                none == Set::<NodeId>::empty(),
                b == old(self).tree.shape(),
                b.wf(),
                cursor == old(self).cursor,
                old(self).wf(),
                self.wf(),
                *self == (Workspace { tree: self.tree, ..*old(self) }),
                self.tree.requests() == old(self).tree.requests(),
                forall|id: NodeId| #[trigger]
                    expanded@.contains(id) <==> b.has(id) && b.nodes[id].expanded,
                b.are_collapsed(self.tree.shape(), dirs),
                forall|dir: NodeId| #[trigger]
                    dirs.contains(dir) <==> expanded@.take(i as int).contains(dir)
                        && b.undone_by_search(before@, kept, cursor, dir),
            decreases expanded.len() - i,
        {
            let dir: NodeId = expanded[i];
            let ghost s = self.tree.shape();
            let mut k: usize = 0;
            while k < before.len() && before[k] != dir
                invariant
                    k <= before@.len(),
                    forall|j: int| 0 <= j < k ==> before@[j] != dir,
                decreases before.len() - k,
            {
                k += 1;
            }
            assert(before@.contains(dir) <==> k < before@.len());
            assert(expanded@.contains(expanded@[i as int]));
            let known: bool = k < before.len();
            let mut keep: bool = false;
            if kept && self.tree.contains(cursor) {
                keep = self.tree.is_within(cursor, dir);
            }
            proof {
                if s.has(cursor) {
                    assert(s.places_kept(b));
                    s.lemma_places_kept(none, b, cursor, dir);
                }
                if kept && b.has(cursor) {
                    assert(b.stays_collapsed(dirs, cursor));
                    assert(s.has(cursor));
                }
                lemma_take_contains(expanded@, i as int);
            }
            if !known && self.tree.contains(dir) && !keep {
                self.tree.collapse(dir);
                proof {
                    if dir != b.root {
                        b.lemma_collapse_one(s, self.tree.shape(), dirs, dir);
                    }
                }
            } else {
                proof {
                    if !known && !keep && dir != b.root {
                        b.lemma_collapse_gone(s, dirs, dir);
                    }
                }
            }
            proof {
                if b.undone_by_search(before@, kept, cursor, dir) {
                    dirs = dirs.insert(dir);
                }
            }
            i += 1;
        }
        proof {
            assert(expanded@.take(i as int) =~= expanded@);
            assert(dirs =~= Set::new(
                |dir: NodeId| b.undone_by_search(before@, kept, cursor, dir),
            )) by {
                assert forall|dir: NodeId| dirs.contains(dir) == b.undone_by_search(
                    before@,
                    kept,
                    cursor,
                    dir,
                ) by {
                    if b.undone_by_search(before@, kept, cursor, dir) {
                        assert(expanded@.contains(dir));
                    }
                }
            }
        }
    }
}

/// The first elements together with the next one.
proof fn lemma_take_contains(ids: Seq<NodeId>, i: int)
    requires
        0 <= i < ids.len(),
    ensures
        forall|x: NodeId| #[trigger]
            ids.take(i + 1).contains(x) <==> ids.take(i).contains(x) || x == ids[i],
{
    assert forall|x: NodeId| #[trigger] ids.take(i + 1).contains(x) <==> ids.take(i).contains(x) || x
        == ids[i] by {
        if ids.take(i + 1).contains(x) && x != ids[i] {
            let k = ids.take(i + 1).index_of(x);
            assert(ids.take(i)[k] == x);
        }
        if ids.take(i).contains(x) {
            let k = ids.take(i).index_of(x);
            assert(ids.take(i + 1)[k] == x);
        }
        assert(ids.take(i + 1)[i] == ids[i]);
    }
}

/// A row that matches, with the characters of its label that match.
#[derive(Debug)]
pub struct RowMatch {
    pub index: usize,
    pub chars: Vec<usize>,
}

/// A row that matches, with the characters of its label that match.
pub ghost struct RowMatchView {
    pub index: int,
    pub chars: Seq<int>,
}

impl RowMatch {
    pub open spec fn view(&self) -> RowMatchView {
        RowMatchView {
            index: self.index as int,
            chars: self.chars@.map_values(|i: usize| i as int),
        }
    }
}

/// The indices that are not below `offset`, counted from there.
pub open spec fn past_offset(indices: Seq<u32>, offset: int) -> Seq<int>
    decreases indices.len(),
{
    if indices.len() == 0 {
        Seq::empty()
    } else {
        let earlier = past_offset(indices.drop_last(), offset);
        if indices.last() < offset {
            earlier
        } else {
            earlier.push(indices.last() - offset)
        }
    }
}

/// Whether the file at `row` is one that a search goes to and that matches.
pub open spec fn row_matches(candidates: Candidates, query: Seq<char>, row: RowView) -> bool {
    &&& exists|i: int|
        0 <= i < candidates@.len() && path_order(
            candidates.sorted_how(),
            #[trigger] candidates@[i],
            false,
            row.path,
            false,
        ) is Equal
    &&& match_indices(query, path_text(row.path)) is Some
}

/// The characters of the label of `row`, which is the end of its path, that match.
pub open spec fn label_matches(query: Seq<char>, row: RowView) -> Seq<int> {
    let text = path_text(row.path);
    past_offset(
        distinct_sorted(match_indices(query, text)->0),
        if text.len() < row.label.len() {
            0
        } else {
            text.len() - row.label.len()
        },
    )
}

/// The rows from `from` to `to` of files that match, in order.
pub open spec fn matches_in(
    candidates: Candidates,
    query: Seq<char>,
    rows: Seq<RowView>,
    from: int,
    to: int,
) -> Seq<RowMatchView>
    decreases to - from,
{
    if from >= to {
        Seq::empty()
    } else {
        let earlier = matches_in(candidates, query, rows, from, to - 1);
        if to - 1 < rows.len() && row_matches(candidates, query, rows[to - 1]) {
            earlier.push(
                RowMatchView { index: to - 1, chars: label_matches(query, rows[to - 1]) },
            )
        } else {
            earlier
        }
    }
}

/// What the matches hold.
pub open spec fn match_views(matches: Seq<RowMatch>) -> Seq<RowMatchView> {
    matches.map_values(|found: RowMatch| found@)
}

/// The indices that are not below `offset`, counted from there.
pub fn from_offset(indices: &Vec<u32>, offset: usize) -> (chars: Vec<usize>)
    ensures
        chars@.map_values(|i: usize| i as int) == past_offset(indices@, offset as int),
{
    let mut chars: Vec<usize> = Vec::new();
    let mut i: usize = 0;
    assert(chars@.map_values(|i: usize| i as int) =~= Seq::<int>::empty());
    while i < indices.len()
        invariant
            i <= indices@.len(),
            chars@.map_values(|i: usize| i as int) == past_offset(
                indices@.take(i as int),
                offset as int,
            ),
        decreases indices.len() - i,
    {
        assert(indices@.take(i + 1).drop_last() =~= indices@.take(i as int));
        let index: usize = indices[i] as usize;
        let ghost before = chars@.map_values(|i: usize| i as int);
        if index >= offset {
            chars.push(index - offset);
            assert(chars@.map_values(|i: usize| i as int) =~= before.push(index - offset));
        }
        i += 1;
    }
    assert(indices@.take(i as int) =~= indices@);
    chars
}

impl Search {
    /// The rows from `from` to `to` of files matching `query`, in order, each with the characters
    /// of its label that match.
    pub fn matches(&self, query: &str, rows: &Rows, from: usize, to: usize) -> (matches: Vec<
        RowMatch,
    >)
        requires
            query@.len() <= MAX_QUERY,
            forall|i: int| 0 <= i < rows@.len() ==> fits_matcher((#[trigger] rows@[i]).path),
        ensures
            match_views(matches@) == match self.candidates {
                Some(candidates) => if has_words(query@) {
                    matches_in(candidates, query@, rows@, from as int, to as int)
                } else {
                    Seq::empty()
                },
                None => Seq::empty(),
            },
    {
        let mut matches: Vec<RowMatch> = Vec::new();
        assert(match_views(matches@) =~= Seq::<RowMatchView>::empty());
        let candidates: &Candidates = match &self.candidates {
            Some(candidates) => candidates,
            None => {
                return matches;
            },
        };
        let matching: Matching = match Matching::new(query) {
            Some(matching) => matching,
            None => {
                return matches;
            },
        };
        if from >= to {
            return matches;
        }
        let mut index: usize = from;
        while index < to
            invariant
                from <= index <= to,
                matching@ == query@,
                query@.len() <= MAX_QUERY,
                forall|i: int| 0 <= i < rows@.len() ==> fits_matcher((#[trigger] rows@[i]).path),
                match_views(matches@) == matches_in(
                    *candidates,
                    query@,
                    rows@,
                    from as int,
                    index as int,
                ),
            decreases to - index,
        {
            let ghost before = match_views(matches@);
            match rows.get(index) {
                Some(row) => {
                    // Only the files the search goes to, which leaves out ignored ones.
                    if candidates.contains(&row.path) {
                        assert(fits_matcher(rows@[index as int].path));
                        let text: String = row.path.text();
                        if let Some(indices) = matching.indices(text.as_str()) {
                            // The label is the end of the path.
                            let len: usize = chars_of_str(text.as_str()).len();
                            let label: usize = chars_of_str(row.label.as_str()).len();
                            let offset: usize = if len < label {
                                0
                            } else {
                                len - label
                            };
                            let chars: Vec<usize> = from_offset(&indices, offset);
                            let ghost found = RowMatchView {
                                index: index as int,
                                chars: chars@.map_values(|i: usize| i as int),
                            };
                            matches.push(RowMatch { index, chars });
                            assert(match_views(matches@) =~= before.push(found));
                        }
                    }
                },
                None => {},
            }
            index += 1;
        }
        matches
    }
}

impl Workspace {
    /// The rows from `from` to `to` of files matching the query being typed, in order, each with
    /// the characters of its label that match.
    pub fn matches(&self, from: usize, to: usize) -> (matches: Vec<RowMatch>)
        requires
            self.edit matches Some(edit) ==> edit.line@.len() <= MAX_QUERY,
            forall|i: int|
                0 <= i < self.rows@.len() ==> fits_matcher((#[trigger] self.rows@[i]).path),
        ensures
            match_views(matches@) == if self.edit is Some && self.edit->0.kind@ is Search
                && self.search.candidates is Some && has_words(self.edit->0.line@) {
                matches_in(
                    self.search.candidates->0,
                    self.edit->0.line@,
                    self.rows@,
                    from as int,
                    to as int,
                )
            } else {
                Seq::empty()
            },
    {
        if let Some(edit) = &self.edit {
            if let EditKind::Search = edit.kind {
                return self.search.matches(edit.line.as_str(), &self.rows, from, to);
            }
        }
        let none: Vec<RowMatch> = Vec::new();
        assert(match_views(none@) =~= Seq::<RowMatchView>::empty());
        none
    }
}

/// The chars of a label that match are those of its path that match from where the label starts on,
/// counted from there and in their order.
pub proof fn law_matching_chars_are_counted_from_the_label(indices: Seq<u32>, offset: int)
    ensures
        past_offset(indices, offset).len() <= indices.len(),
        forall|c: int|
            #[trigger] past_offset(indices, offset).contains(c) <==> exists|i: int|
                0 <= i < indices.len() && #[trigger] indices[i] >= offset && indices[i] == c + offset,
        (forall|i: int, k: int|
            #![trigger indices[i], indices[k]]
            0 <= i < k < indices.len() ==> indices[i] < indices[k]) ==> (forall|i: int, k: int|
            #![trigger past_offset(indices, offset)[i], past_offset(indices, offset)[k]]
            0 <= i < k < past_offset(indices, offset).len() ==> past_offset(indices, offset)[i]
                < past_offset(indices, offset)[k]),
    decreases indices.len(),
{
    if indices.len() > 0 {
        let rest = indices.drop_last();
        let earlier = past_offset(rest, offset);
        let all = past_offset(indices, offset);
        law_matching_chars_are_counted_from_the_label(rest, offset);
        assert forall|i: int| 0 <= i < rest.len() implies #[trigger] rest[i] == indices[i] by {}
        assert forall|c: int| #[trigger] all.contains(c) <==> exists|i: int|
            0 <= i < indices.len() && #[trigger] indices[i] >= offset && indices[i] == c + offset by {
            if all.contains(c) {
                let k = all.index_of(c);
                if k < earlier.len() {
                    assert(earlier[k] == c);
                    assert(earlier.contains(c));
                    let i = choose|i: int|
                        0 <= i < rest.len() && #[trigger] rest[i] >= offset && rest[i] == c + offset;
                    assert(indices[i] == rest[i]);
                } else {
                    assert(indices[indices.len() - 1] >= offset);
                }
            }
            if exists|i: int|
                0 <= i < indices.len() && #[trigger] indices[i] >= offset && indices[i] == c
                    + offset {
                let i = choose|i: int|
                    0 <= i < indices.len() && #[trigger] indices[i] >= offset && indices[i] == c
                        + offset;
                if i < rest.len() {
                    assert(rest[i] >= offset && rest[i] == c + offset);
                    assert(earlier.contains(c));
                    let k = earlier.index_of(c);
                    assert(all[k] == c);
                } else {
                    assert(all[all.len() - 1] == c);
                }
            }
        }
        if forall|i: int, k: int|
            #![trigger indices[i], indices[k]]
            0 <= i < k < indices.len() ==> indices[i] < indices[k] {
            assert forall|i: int, k: int|
                #![trigger rest[i], rest[k]]
                0 <= i < k < rest.len() implies rest[i] < rest[k] by {
                assert(indices[i] < indices[k]);
            }
            assert forall|i: int, k: int|
                #![trigger all[i], all[k]]
                0 <= i < k < all.len() implies all[i] < all[k] by {
                if k < earlier.len() {
                    assert(earlier[i] < earlier[k]);
                } else {
                    assert(earlier.contains(earlier[i]));
                    let j = choose|j: int|
                        0 <= j < rest.len() && #[trigger] rest[j] >= offset && rest[j] == earlier[i]
                            + offset;
                    assert(indices[j] < indices[indices.len() - 1]);
                }
            }
        }
    }
}

/// The rows that match are listed in their order, each with the chars of its label, and no others.
pub proof fn law_matching_rows_are_listed(
    candidates: Candidates,
    query: Seq<char>,
    rows: Seq<RowView>,
    from: int,
    to: int,
)
    requires
        0 <= from,
    ensures
        ({
            let found = matches_in(candidates, query, rows, from, to);
            &&& forall|k: int|
                0 <= k < found.len() ==> from <= (#[trigger] found[k]).index < to && found[k].index
                    < rows.len() && row_matches(candidates, query, rows[found[k].index])
                    && found[k].chars == label_matches(query, rows[found[k].index])
            &&& forall|j: int, k: int|
                #![trigger found[j], found[k]]
                0 <= j < k < found.len() ==> found[j].index < found[k].index
            &&& forall|i: int|
                from <= i < to && i < rows.len() && row_matches(candidates, query, #[trigger] rows[i])
                    ==> exists|k: int| 0 <= k < found.len() && (#[trigger] found[k]).index == i
        }),
    decreases to - from,
{
    if from < to {
        law_matching_rows_are_listed(candidates, query, rows, from, to - 1);
        let earlier = matches_in(candidates, query, rows, from, to - 1);
        let found = matches_in(candidates, query, rows, from, to);
        assert forall|k: int| 0 <= k < earlier.len() implies #[trigger] earlier[k] == found[k] by {}
        assert forall|i: int|
            from <= i < to && i < rows.len() && row_matches(
                candidates,
                query,
                #[trigger] rows[i],
            ) implies exists|k: int| 0 <= k < found.len() && (#[trigger] found[k]).index == i by {
            if i < to - 1 {
                let k = choose|k: int| 0 <= k < earlier.len() && (#[trigger] earlier[k]).index == i;
                assert(found[k] == earlier[k]);
            } else {
                assert(found[found.len() - 1].index == i);
            }
        }
    }
}

impl Workspace {
    /// A search that is given up leaves the rows and the cursor where they were when it started, and
    /// no path to reveal for it. One that is kept leaves them where they are.
    pub proof fn law_given_up_searches_are_undone(self, after: Workspace, kept: bool, origin: Origin)
        requires
            self.search.origin == Some(origin),
            self.search_finished(after, kept),
        ensures
            after.search.origin is None,
            after.dirty,
            after.search.query == self.search.query,
            after.edit == self.edit,
            kept ==> after.search.generation == self.search.generation,
            !kept && self.search.generation < u64::MAX ==> after.search.generation
                == self.search.generation + 1,
            kept ==> after.cursor == self.cursor && after.start == self.start && after.reveals@
                == self.reveals@,
            !kept ==> after.start == origin.start,
            !kept && self.tree.shape().has(origin.cursor) ==> after.cursor == origin.cursor,
            !kept ==> forall|i: int|
                0 <= i < after.reveals@.len() ==> !((#[trigger] after.reveals@[i]).purpose
                    is Match),
            !kept ==> forall|reveal: PendingReveal|
                self.reveals@.contains(reveal) && !(reveal.purpose is Match)
                    ==> #[trigger] after.reveals@.contains(reveal),
    {
        crate::seqs::lemma_select(self.reveals@, not_for_match());
    }

    /// What a search expanded is collapsed when it ends: every directory that was not expanded when
    /// it started, but for those that a kept cursor is in. A directory that was expanded then, and
    /// is in no such one, is left as it is.
    pub proof fn law_searches_collapse_what_they_expanded(
        self,
        after: Workspace,
        kept: bool,
        origin: Origin,
        dir: NodeId,
    )
        requires
            self.search.origin == Some(origin),
            self.search_finished(after, kept),
            after.tree.shape().has(dir),
            dir != self.tree.shape().root,
        ensures
            !kept && !origin.expanded@.contains(dir) ==> !after.tree.shape().nodes[dir].expanded,
            kept && !origin.expanded@.contains(dir) && !self.tree.shape().within(self.cursor, dir)
                ==> !after.tree.shape().nodes[dir].expanded,
            after.tree.shape().nodes[dir].expanded ==> self.tree.shape().nodes[dir].expanded,
    {
        let shape = self.tree.shape();
        let cursor = self.cursor_after_search(kept, origin);
        let dirs = Set::new(|dir: NodeId| shape.undone_by_search(origin.expanded@, kept, cursor, dir));
        assert(shape.has(dir));
        if shape.undone_by_search(origin.expanded@, kept, cursor, dir) {
            assert(dirs.contains(dir));
            assert(shape.within(dir, dir));
            assert(shape.within_any(dirs, dir));
        }
    }
}

impl Workspace {
    /// A search remembers where it started: the cursor and its path, where the rows start, and which
    /// directories are expanded. It starts with an empty line, and the last query is kept.
    pub proof fn law_searches_remember_their_start(self, after: Workspace, index: usize)
        requires
            self.search_started(after),
            self.rows.row_of(self.cursor) == Some(index),
        ensures
            after.cursor == self.cursor,
            after.start == self.start,
            after.tree == self.tree,
            after.edit matches Some(edit) && edit.kind@ is Search && edit.line@.len() == 0,
            after.search.query@ == self.search.query@,
            after.search.candidates is None,
            after.search.generation == 0,
            after.search.origin matches Some(origin) && (origin.is_dir <==> self.tree.shape().nodes[
                self.rows@[index as int].node
            ].kind == Kind::Directory),
            after.search.origin matches Some(origin) && origin.cursor == self.cursor && origin.start
                == self.start && origin.path@ == self.rows@[index as int].path && forall|id: NodeId|
                #[trigger] origin.expanded@.contains(id) <==> self.tree.shape().has(id)
                    && self.tree.shape().nodes[id].expanded,
    {
    }
}

/// A char of a label matches exactly if the char of the path that it is matches: the label is what the
/// path ends with.
pub proof fn law_labels_match_where_their_paths_do(query: Seq<char>, row: RowView, c: int)
    requires
        0 <= c,
        row.label.len() <= path_text(row.path).len() <= u32::MAX,
        match_indices(query, path_text(row.path)) is Some,
    ensures
        label_matches(query, row).contains(c) <==> exists|i: u32|
            i == path_text(row.path).len() - row.label.len() + c && #[trigger] match_indices(
                query,
                path_text(row.path),
            )->0.contains(i),
{
    let text = path_text(row.path);
    let offset = text.len() - row.label.len();
    let found = match_indices(query, text)->0;
    let indices = crate::search::distinct_sorted(found);
    crate::search::law_indices_are_distinct_and_sorted(found);
    law_matching_chars_are_counted_from_the_label(indices, offset);
    if label_matches(query, row).contains(c) {
        let k = choose|k: int|
            0 <= k < indices.len() && #[trigger] indices[k] >= offset && indices[k] == c + offset;
        assert(indices.contains(indices[k]));
        assert(found.contains(indices[k]));
    }
    if exists|i: u32| i == offset + c && #[trigger] found.contains(i) {
        let i = choose|i: u32| i == offset + c && #[trigger] found.contains(i);
        assert(indices.contains(i));
        let k = indices.index_of(i);
        assert(indices[k] >= offset && indices[k] == c + offset);
    }
}

} // verus!
