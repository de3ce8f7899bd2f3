//! Finding workspace files by fuzzy matching their paths, going through them in the order the
//! tree lists them. Queries use the file picker's syntax.

use crate::chars::copy_str;
use crate::names::{path_text, written, Part, TreePath};
use crate::order::{
    in_one_tree, law_path_order_turns_round, law_tree_order_is_total, order_paths, path_order,
    told_apart, FileTreeSort, Order,
};
use crate::sorting::{
    in_order, lemma_sorted_by, lemma_sorted_by_among, lemma_sorted_by_contains, sorted_by,
    stable_sort, total_preorder,
};
use nucleo::pattern::{CaseMatching, Normalization, Pattern};
use nucleo::{Config, Matcher, Utf32String};
use vstd::prelude::*;

verus! {

/// The longest query. The score of a word is a 16-bit number, and each of its characters adds at most
/// 25 to it, the first one 9 more.
pub const MAX_QUERY: usize = 2500;

/// Whether a query has anything to match.
pub uninterp spec fn has_words(query: Seq<char>) -> bool;

/// Whether a path matches a query.
pub uninterp spec fn is_match(query: Seq<char>, path: Seq<char>) -> bool;

/// The indices of the characters of a path that match a query, for each word of it, if the path
/// matches.
pub uninterp spec fn match_indices(query: Seq<char>, path: Seq<char>) -> Option<Seq<u32>>;

/// Whether `Pattern::parse` finds words to match in a query.
#[verifier::external_body]
fn query_has_words(query: &str) -> (has: bool)
    ensures
        has == has_words(query@),
{
    !Pattern::parse(query, CaseMatching::Smart, Normalization::Smart).atoms.is_empty()
}

/// Whether `Pattern::score` gives a path a score, with the matcher set up for paths. It takes paths
/// of up to `u32::MAX` characters, and words whose scores are in range.
#[verifier::external_body]
fn path_matches(query: &str, path: &str) -> (matches: bool)
    requires
        query@.len() <= MAX_QUERY,
        path@.len() <= u32::MAX,
    ensures
        matches == is_match(query@, path@),
{
    let pattern = Pattern::parse(query, CaseMatching::Smart, Normalization::Smart);
    let mut matcher = Matcher::new(Config::DEFAULT.match_paths());
    pattern.score(Utf32String::from(path).slice(..), &mut matcher).is_some()
}

/// The indices that `Pattern::indices` finds for a path, with the matcher set up for paths. It takes
/// paths of up to `u32::MAX` characters, and words whose scores are in range.
#[verifier::external_body]
fn path_indices(query: &str, path: &str) -> (indices: Option<Vec<u32>>)
    requires
        query@.len() <= MAX_QUERY,
        path@.len() <= u32::MAX,
    ensures
        match indices {
            Some(indices) => match_indices(query@, path@) == Some(indices@),
            None => match_indices(query@, path@) is None,
        },
{
    let pattern = Pattern::parse(query, CaseMatching::Smart, Normalization::Smart);
    let mut matcher = Matcher::new(Config::DEFAULT.match_paths());
    let mut indices = Vec::new();
    pattern.indices(Utf32String::from(path).slice(..), &mut matcher, &mut indices)?;
    Some(indices)
}

/// A query ready to match paths.
#[derive(Debug)]
pub struct Matching {
    query: String,
}

/// The order of numbers.
pub open spec fn ascending() -> spec_fn(u32, u32) -> bool {
    |a: u32, b: u32| a <= b
}

fn test_ascending(a: &u32, b: &u32) -> (before: bool)
    ensures
        before == ascending()(*a, *b),
{
    *a <= *b
}

/// `s` without the items that equal the one before them.
pub open spec fn once_each(s: Seq<u32>) -> Seq<u32>
    decreases s.len(),
{
    if s.len() <= 1 {
        s
    } else if s.last() == s[s.len() - 2] {
        once_each(s.drop_last())
    } else {
        once_each(s.drop_last()).push(s.last())
    }
}

/// The numbers in ascending order, each once.
pub open spec fn distinct_sorted(s: Seq<u32>) -> Seq<u32> {
    once_each(sorted_by(s, ascending()))
}

proof fn lemma_once_each(s: Seq<u32>)
    requires
        in_order(s, ascending()),
    ensures
        s.len() > 0 ==> once_each(s).len() > 0 && once_each(s).last() == s.last(),
        forall|i: int, j: int|
            #![trigger once_each(s)[i], once_each(s)[j]]
            0 <= i < j < once_each(s).len() ==> once_each(s)[i] < once_each(s)[j],
        forall|x: u32| #[trigger] once_each(s).contains(x) <==> s.contains(x),
    decreases s.len(),
{
    if s.len() > 1 {
        let t = s.drop_last();
        assert(in_order(t, ascending())) by {
            assert forall|i: int, j: int|
                #![trigger t[i], t[j]]
                0 <= i < j < t.len() implies ascending()(t[i], t[j]) by {
                assert(ascending()(s[i], s[j]));
            }
        }
        lemma_once_each(t);
        let rest = once_each(t);
        let all = once_each(s);
        assert(ascending()(s[s.len() - 2], s[s.len() - 1]));
        assert(t.last() == s[s.len() - 2]);
        if s.last() != s[s.len() - 2] {
            assert forall|i: int, j: int|
                #![trigger all[i], all[j]]
                0 <= i < j < all.len() implies all[i] < all[j] by {
                if j == rest.len() {
                    assert(rest[i] <= rest.last()) by {
                        if i < rest.len() - 1 {
                            assert(rest[i] < rest[rest.len() - 1]);
                        }
                    }
                } else {
                    assert(rest[i] < rest[j]);
                }
            }
        }
        assert forall|x: u32| #[trigger] all.contains(x) <==> s.contains(x) by {
            if s.contains(x) {
                let k = s.index_of(x);
                if k < t.len() {
                    assert(t[k] == x);
                    assert(rest.contains(x));
                    assert(all[rest.index_of(x)] == x);
                } else {
                    assert(all[all.len() - 1] == x);
                }
            }
            if all.contains(x) {
                let k = all.index_of(x);
                if k < rest.len() {
                    assert(rest[k] == x);
                    assert(rest.contains(x));
                    assert(s[t.index_of(x)] == x);
                } else {
                    assert(s[s.len() - 1] == x);
                }
            }
        }
    } else {
        assert(once_each(s) == s);
    }
}

/// The indices of the matching characters come in ascending order, each once, and are those found.
pub proof fn law_indices_are_distinct_and_sorted(s: Seq<u32>)
    ensures
        forall|i: int, j: int|
            #![trigger distinct_sorted(s)[i], distinct_sorted(s)[j]]
            0 <= i < j < distinct_sorted(s).len() ==> distinct_sorted(s)[i] < distinct_sorted(
                s,
            )[j],
        forall|x: u32| #[trigger] distinct_sorted(s).contains(x) <==> s.contains(x),
{
    let sorted = sorted_by(s, ascending());
    lemma_sorted_by(s, ascending());
    assert(total_preorder(ascending()));
    lemma_once_each(sorted);
    assert forall|x: u32| #[trigger] distinct_sorted(s).contains(x) <==> s.contains(x) by {
        lemma_sorted_by_contains(s, ascending(), x);
    }
}

impl Matching {
    pub closed spec fn view(&self) -> Seq<char> {
        self.query@
    }

    /// `None` for a query without anything to match.
    pub fn new(query: &str) -> (matching: Option<Matching>)
        ensures
            match matching {
                Some(matching) => has_words(query@) && matching@ == query@,
                None => !has_words(query@),
            },
    {
        if query_has_words(query) {
            Some(Matching { query: copy_str(query) })
        } else {
            None
        }
    }

    fn matches(&self, path: &str) -> (matches: bool)
        requires
            self@.len() <= MAX_QUERY,
            path@.len() <= u32::MAX,
        ensures
            matches == is_match(self@, path@),
    {
        path_matches(self.query.as_str(), path)
    }

    /// The indices of the characters of `path` that match, in order, if it matches.
    pub fn indices(&self, path: &str) -> (indices: Option<Vec<u32>>)
        requires
            self@.len() <= MAX_QUERY,
            path@.len() <= u32::MAX,
        ensures
            match indices {
                Some(indices) => match_indices(self@, path@) is Some && indices@
                    == distinct_sorted(match_indices(self@, path@)->0),
                None => match_indices(self@, path@) is None,
            },
    {
        match path_indices(self.query.as_str(), path) {
            Some(found) => Some(sort_and_dedup(found)),
            None => None,
        }
    }
}

/// The numbers in ascending order, each once.
pub fn sort_and_dedup(numbers: Vec<u32>) -> (distinct: Vec<u32>)
    ensures
        distinct@ == distinct_sorted(numbers@),
{
    let sorted: Vec<u32> = stable_sort(numbers, test_ascending, Ghost(ascending()));
    let mut distinct: Vec<u32> = Vec::new();
    let mut i: usize = 0;
    while i < sorted.len()
        invariant
            i <= sorted@.len(),
            distinct@ == once_each(sorted@.take(i as int)),
        decreases sorted.len() - i,
    {
        let ghost taken = sorted@.take(i + 1);
        assert(taken.drop_last() =~= sorted@.take(i as int));
        if i == 0 || sorted[i] != sorted[i - 1] {
            distinct.push(sorted[i]);
        }
        i += 1;
        assert(distinct@ =~= once_each(sorted@.take(i as int)));
    }
    assert(sorted@.take(i as int) =~= sorted@);
    distinct
}

#[derive(Clone, Copy, Debug, PartialEq, Eq, Structural)]
pub enum Direction {
    Forward,
    Backward,
}

/// A match of a query.
#[derive(Debug)]
pub struct Hit {
    pub path: TreePath,
    /// Whether the search went past the end of the tree to find it.
    pub wrapped: bool,
}

/// The workspace files the file picker lists, relative to the root and in tree order.
#[derive(Debug)]
pub struct Candidates {
    sort: FileTreeSort,
    paths: Vec<TreePath>,
    /// `paths` as the matcher reads them.
    haystacks: Vec<String>,
}

/// The parts of paths.
pub open spec fn path_views(paths: Seq<TreePath>) -> Seq<Seq<Part>> {
    paths.map_values(|path: TreePath| path@)
}

/// The order of files.
pub open spec fn file_order(sort: FileTreeSort) -> spec_fn(TreePath, TreePath) -> bool {
    |a: TreePath, b: TreePath| path_order(sort, a@, false, b@, false).sign() <= 0
}

fn before_with_directories_first(a: &TreePath, b: &TreePath) -> (before: bool)
    ensures
        before == file_order(FileTreeSort::DirectoriesFirst)(*a, *b),
{
    match order_paths(FileTreeSort::DirectoriesFirst, a, false, b, false) {
        Order::Greater => false,
        _ => true,
    }
}

fn before_alphabetically(a: &TreePath, b: &TreePath) -> (before: bool)
    ensures
        before == file_order(FileTreeSort::Alphabetical)(*a, *b),
{
    match order_paths(FileTreeSort::Alphabetical, a, false, b, false) {
        Order::Greater => false,
        _ => true,
    }
}

/// Whether a path that is written as text fits the matcher.
pub open spec fn fits_matcher(path: Seq<Part>) -> bool {
    written(path).len() <= u32::MAX
}

/// How many of `paths` from the start on come before the entry at `from` in tree order, or, if
/// `same`, tie with it.
pub open spec fn count_before(
    sort: FileTreeSort,
    paths: Seq<Seq<Part>>,
    from: Seq<Part>,
    is_dir: bool,
    same: bool,
) -> int
    decreases paths.len(),
{
    if paths.len() == 0 {
        0
    } else {
        let order = path_order(sort, paths[0], false, from, is_dir);
        if order is Less || (same && order is Equal) {
            1 + count_before(sort, paths.skip(1), from, is_dir, same)
        } else {
            0
        }
    }
}

/// Which of the paths match a query.
pub open spec fn matches_of(query: Seq<char>, paths: Seq<Seq<Part>>) -> Seq<bool> {
    paths.map_values(|path: Seq<Part>| is_match(query, path_text(path)))
}

/// The first of the matches from `from` to `to`.
pub open spec fn first_match(matches: Seq<bool>, from: int, to: int) -> Option<int>
    decreases to - from,
{
    if from >= to {
        None
    } else if matches[from] {
        Some(from)
    } else {
        first_match(matches, from + 1, to)
    }
}

/// The last of the matches from `from` to `to`.
pub open spec fn last_match(matches: Seq<bool>, from: int, to: int) -> Option<int>
    decreases to - from,
{
    if from >= to {
        None
    } else if matches[to - 1] {
        Some(to - 1)
    } else {
        last_match(matches, from, to - 1)
    }
}

/// Where a search comes to, and whether it wrapped around.
pub ghost struct Found {
    pub at: int,
    pub wrapped: bool,
}

/// The path that a search comes to, given which of the paths match.
pub open spec fn hit_at(
    sort: FileTreeSort,
    paths: Seq<Seq<Part>>,
    matches: Seq<bool>,
    from: Seq<Part>,
    is_dir: bool,
    direction: Direction,
) -> Option<Found> {
    match direction {
        Direction::Forward => {
            let start = count_before(sort, paths, from, is_dir, true);
            match first_match(matches, start, paths.len() as int) {
                Some(i) => Some(Found { at: i, wrapped: false }),
                None => match first_match(matches, 0, start) {
                    Some(i) => Some(Found { at: i, wrapped: true }),
                    None => None,
                },
            }
        },
        Direction::Backward => {
            let start = count_before(sort, paths, from, is_dir, false);
            match last_match(matches, 0, start) {
                Some(i) => Some(Found { at: i, wrapped: false }),
                None => match last_match(matches, start, paths.len() as int) {
                    Some(i) => Some(Found { at: i, wrapped: true }),
                    None => None,
                },
            }
        },
    }
}

proof fn lemma_count_before(
    sort: FileTreeSort,
    paths: Seq<Seq<Part>>,
    from: Seq<Part>,
    is_dir: bool,
    same: bool,
)
    ensures
        0 <= count_before(sort, paths, from, is_dir, same) <= paths.len(),
    decreases paths.len(),
{
    if paths.len() > 0 {
        lemma_count_before(sort, paths.skip(1), from, is_dir, same);
    }
}

proof fn lemma_first_match(matches: Seq<bool>, from: int, to: int)
    ensures
        match first_match(matches, from, to) {
            Some(i) => from <= i < to && matches[i] && forall|k: int|
                from <= k < i ==> !#[trigger] matches[k],
            None => forall|k: int| from <= k < to ==> !#[trigger] matches[k],
        },
    decreases to - from,
{
    if from < to {
        lemma_first_match(matches, from + 1, to);
    }
}

proof fn lemma_last_match(matches: Seq<bool>, from: int, to: int)
    ensures
        match last_match(matches, from, to) {
            Some(i) => from <= i < to && matches[i] && forall|k: int|
                i < k < to ==> !#[trigger] matches[k],
            None => forall|k: int| from <= k < to ==> !#[trigger] matches[k],
        },
    decreases to - from,
{
    if from < to {
        lemma_last_match(matches, from, to - 1);
    }
}

/// A search comes to a file that matches, and comes to one whenever a file matches.
pub proof fn law_searches_find_matches(
    sort: FileTreeSort,
    paths: Seq<Seq<Part>>,
    matches: Seq<bool>,
    from: Seq<Part>,
    is_dir: bool,
    direction: Direction,
)
    ensures
        match hit_at(sort, paths, matches, from, is_dir, direction) {
            Some(hit) => 0 <= hit.at < paths.len() && matches[hit.at],
            None => forall|k: int| 0 <= k < paths.len() ==> !#[trigger] matches[k],
        },
{
    let len = paths.len() as int;
    let after = count_before(sort, paths, from, is_dir, true);
    let before = count_before(sort, paths, from, is_dir, false);
    lemma_count_before(sort, paths, from, is_dir, true);
    lemma_count_before(sort, paths, from, is_dir, false);
    lemma_first_match(matches, after, len);
    lemma_first_match(matches, 0, after);
    lemma_last_match(matches, 0, before);
    lemma_last_match(matches, before, len);
}

impl Hit {
    /// Whether the hit is the one found among `paths`.
    pub open spec fn is_at(self, paths: Seq<Seq<Part>>, found: Option<Found>) -> bool {
        &&& found matches Some(found)
        &&& self.path@ == paths[found.at]
        &&& self.wrapped == found.wrapped
    }
}

fn first_of(matches: &Vec<bool>, from: usize, to: usize) -> (found: Option<usize>)
    requires
        from <= to <= matches@.len(),
    ensures
        match found {
            Some(i) => first_match(matches@, from as int, to as int) == Some(i as int) && i < to,
            None => first_match(matches@, from as int, to as int) is None,
        },
{
    let mut i: usize = from;
    while i < to
        invariant
            from <= i <= to <= matches@.len(),
            first_match(matches@, from as int, to as int) == first_match(
                matches@,
                i as int,
                to as int,
            ),
        decreases to - i,
    {
        if matches[i] {
            return Some(i);
        }
        i += 1;
    }
    None
}

fn last_of(matches: &Vec<bool>, from: usize, to: usize) -> (found: Option<usize>)
    requires
        from <= to <= matches@.len(),
    ensures
        match found {
            Some(i) => last_match(matches@, from as int, to as int) == Some(i as int) && i < to,
            None => last_match(matches@, from as int, to as int) is None,
        },
{
    let mut i: usize = to;
    while i > from
        invariant
            from <= i <= to <= matches@.len(),
            last_match(matches@, from as int, to as int) == last_match(
                matches@,
                from as int,
                i as int,
            ),
        decreases i,
    {
        if matches[i - 1] {
            return Some(i - 1);
        }
        i -= 1;
    }
    None
}

/// Whether a hit is the match at `at`, and the closest one in the direction searched, see
/// [`law_hits_are_the_closest_matches`].
pub open spec fn is_closest_hit(
    sort: FileTreeSort,
    paths: Seq<Seq<Part>>,
    matches: Seq<bool>,
    from: Seq<Part>,
    is_dir: bool,
    direction: Direction,
    hit: Hit,
    at: int,
) -> bool {
    &&& 0 <= at < paths.len()
    &&& hit.path@ == paths[at]
    &&& matches[at]
    &&& match (direction, hit.wrapped) {
        (Direction::Forward, false) => {
            &&& path_order(sort, paths[at], false, from, is_dir) is Greater
            &&& forall|k: int|
                0 <= k < at && path_order(sort, #[trigger] paths[k], false, from, is_dir) is Greater
                    ==> !matches[k]
        },
        (Direction::Forward, true) => {
            &&& forall|k: int|
                0 <= k < paths.len() && path_order(sort, #[trigger] paths[k], false, from, is_dir)
                    is Greater ==> !matches[k]
            &&& forall|k: int| 0 <= k < at ==> !#[trigger] matches[k]
        },
        (Direction::Backward, false) => {
            &&& path_order(sort, paths[at], false, from, is_dir) is Less
            &&& forall|k: int|
                at < k < paths.len() && path_order(sort, #[trigger] paths[k], false, from, is_dir)
                    is Less ==> !matches[k]
        },
        (Direction::Backward, true) => {
            &&& forall|k: int|
                0 <= k < paths.len() && path_order(sort, #[trigger] paths[k], false, from, is_dir)
                    is Less ==> !matches[k]
            &&& forall|k: int| at < k < paths.len() ==> !#[trigger] matches[k]
        },
    }
}

impl Candidates {
    /// The files, in tree order.
    pub closed spec fn view(&self) -> Seq<Seq<Part>> {
        path_views(self.paths@)
    }

    /// The order of the files.
    pub closed spec fn sorted_how(&self) -> FileTreeSort {
        self.sort
    }

    /// The haystacks are the texts of the paths.
    pub closed spec fn wf(&self) -> bool {
        &&& self.haystacks@.len() == self.paths@.len()
        &&& forall|i: int|
            0 <= i < self.paths@.len() ==> (#[trigger] self.haystacks@[i])@ == path_text(
                self.paths@[i]@,
            ) && self.haystacks@[i]@.len() <= u32::MAX
    }

    pub fn new(paths: Vec<TreePath>, sort: FileTreeSort) -> (candidates: Candidates)
        requires
            forall|i: int| 0 <= i < paths@.len() ==> fits_matcher((#[trigger] paths@[i])@),
        ensures
            candidates.wf(),
            candidates.sorted_how() == sort,
            candidates@ == path_views(sorted_by(paths@, file_order(sort))),
            of_one_tree(path_views(paths@), Seq::empty(), true) ==> in_tree_order(
                sort,
                candidates@,
            ),
    {
        let ghost given = paths@;
        let ghost le = file_order(sort);
        let sorted: Vec<TreePath> = match sort {
            FileTreeSort::DirectoriesFirst => stable_sort(
                paths,
                before_with_directories_first,
                Ghost(file_order(FileTreeSort::DirectoriesFirst)),
            ),
            FileTreeSort::Alphabetical => stable_sort(
                paths,
                before_alphabetically,
                Ghost(file_order(FileTreeSort::Alphabetical)),
            ),
        };
        assert(sorted@ == sorted_by(given, le));
        let mut haystacks: Vec<String> = Vec::new();
        let mut i: usize = 0;
        while i < sorted.len()
            invariant
                i <= sorted@.len(),
                sorted@ == sorted_by(given, le),
                forall|k: int| 0 <= k < given.len() ==> fits_matcher((#[trigger] given[k])@),
                haystacks@.len() == i,
                forall|k: int|
                    0 <= k < i ==> (#[trigger] haystacks@[k])@ == path_text(sorted@[k]@)
                        && haystacks@[k]@.len() <= u32::MAX,
            decreases sorted.len() - i,
        {
            proof {
                assert(sorted@.contains(sorted@[i as int]));
                lemma_sorted_by_contains(given, le, sorted@[i as int]);
                assert(given[given.index_of(sorted@[i as int])] == sorted@[i as int]);
            }
            haystacks.push(sorted[i].text());
            i += 1;
        }
        let candidates = Candidates { sort, paths: sorted, haystacks };
        proof {
            if of_one_tree(path_views(given), Seq::empty(), true) {
                law_candidates_are_in_tree_order(given, candidates);
            }
        }
        candidates
    }

    /// Whether `path` is one of the files.
    pub fn contains(&self, path: &TreePath) -> (contains: bool)
        ensures
            contains == exists|i: int|
                0 <= i < self@.len() && path_order(
                    self.sorted_how(),
                    #[trigger] self@[i],
                    false,
                    path@,
                    false,
                ) is Equal,
    {
        let ghost all = self@;
        let mut i: usize = 0;
        while i < self.paths.len()
            invariant
                i <= self.paths@.len(),
                all == self@,
                forall|k: int|
                    0 <= k < i ==> !(path_order(
                        self.sort,
                        #[trigger] all[k],
                        false,
                        path@,
                        false,
                    ) is Equal),
            decreases self.paths.len() - i,
        {
            assert(all[i as int] == self.paths@[i as int]@);
            match order_paths(self.sort, &self.paths[i], false, path, false) {
                Order::Equal => {
                    return true;
                },
                _ => {},
            }
            i += 1;
        }
        false
    }

    fn count(&self, from: &TreePath, is_dir: bool, same: bool) -> (count: usize)
        ensures
            count == count_before(self.sort, self@, from@, is_dir, same),
            count <= self.paths@.len(),
    {
        let ghost all = self@;
        let mut i: usize = 0;
        assert(all.skip(0) =~= all);
        while i < self.paths.len()
            invariant
                i <= self.paths@.len(),
                all == self@,
                count_before(self.sort, all, from@, is_dir, same) == i + count_before(
                    self.sort,
                    all.skip(i as int),
                    from@,
                    is_dir,
                    same,
                ),
            decreases self.paths.len() - i,
        {
            let ghost rest = all.skip(i as int);
            assert(rest[0] == self.paths@[i as int]@);
            assert(rest.skip(1) =~= all.skip(i + 1));
            match order_paths(self.sort, &self.paths[i], false, from, is_dir) {
                Order::Less => {},
                Order::Equal => {
                    if !same {
                        return i;
                    }
                },
                Order::Greater => {
                    return i;
                },
            }
            i += 1;
        }
        i
    }

    /// Which of the files match.
    fn matches(&self, matching: &Matching) -> (matches: Vec<bool>)
        requires
            self.wf(),
            matching@.len() <= MAX_QUERY,
        ensures
            matches@ == matches_of(matching@, self@),
    {
        let ghost all = self@;
        let mut matches: Vec<bool> = Vec::new();
        let mut i: usize = 0;
        while i < self.haystacks.len()
            invariant
                i <= self.haystacks@.len(),
                all == self@,
                self.wf(),
                matching@.len() <= MAX_QUERY,
                matches@.len() == i,
                forall|k: int|
                    0 <= k < i ==> #[trigger] matches@[k] == is_match(
                        matching@,
                        path_text(all[k]),
                    ),
            decreases self.haystacks.len() - i,
        {
            assert(self.haystacks@[i as int]@ == path_text(all[i as int]));
            matches.push(matching.matches(self.haystacks[i].as_str()));
            i += 1;
        }
        assert(matches@ =~= matches_of(matching@, all));
        matches
    }

    /// The first file after the entry at `from` (a directory or not) that matches, given which of
    /// the files do, going in `direction` and wrapping around.
    pub fn hit(&self, matches: &Vec<bool>, from: &TreePath, is_dir: bool, direction: Direction) -> (hit:
        Option<Hit>)
        requires
            matches@.len() == self@.len(),
        ensures
            ({
                let found = hit_at(
                    self.sorted_how(),
                    self@,
                    matches@,
                    from@,
                    is_dir,
                    direction,
                );
                match hit {
                    Some(hit) => hit.is_at(self@, found),
                    None => found is None,
                }
            }),
            in_tree_order(self.sorted_how(), self@) && of_one_tree(self@, from@, is_dir) ==> (
            hit matches Some(hit) ==> exists|at: int| #[trigger]
                is_closest_hit(
                    self.sorted_how(),
                    self@,
                    matches@,
                    from@,
                    is_dir,
                    direction,
                    hit,
                    at,
                )),
            hit is None ==> forall|k: int| 0 <= k < self@.len() ==> !#[trigger] matches@[k],
    {
        let len: usize = self.paths.len();
        let mut wrapped: bool = false;
        let mut found: Option<usize>;
        match direction {
            Direction::Forward => {
                let start: usize = self.count(from, is_dir, true);
                found = first_of(matches, start, len);
                if found.is_none() {
                    found = first_of(matches, 0, start);
                    wrapped = true;
                }
            },
            Direction::Backward => {
                let start: usize = self.count(from, is_dir, false);
                found = last_of(matches, 0, start);
                if found.is_none() {
                    found = last_of(matches, start, len);
                    wrapped = true;
                }
            },
        }
        let hit: Option<Hit> = match found {
            Some(i) => Some(Hit { path: self.paths[i].copy(), wrapped }),
            None => None,
        };
        proof {
            lemma_is_closest(self.sort, self@, matches@, from@, is_dir, direction);
            if in_tree_order(self.sort, self@) && of_one_tree(self@, from@, is_dir) && hit is Some {
                let at = law_hits_are_the_closest_matches(
                    *self,
                    matches@,
                    from@,
                    is_dir,
                    direction,
                    hit,
                );
                assert(is_closest_hit(
                    self.sorted_how(),
                    self@,
                    matches@,
                    from@,
                    is_dir,
                    direction,
                    hit->0,
                    at,
                ));
            }
        }
        hit
    }

    /// The first file matching `query` after the entry at `from` (a directory or not), going in
    /// `direction` and wrapping around.
    pub fn find(&self, query: &str, from: &TreePath, is_dir: bool, direction: Direction) -> (hit:
        Option<Hit>)
        requires
            self.wf(),
            query@.len() <= MAX_QUERY,
        ensures
            ({
                let found = hit_at(
                    self.sorted_how(),
                    self@,
                    matches_of(query@, self@),
                    from@,
                    is_dir,
                    direction,
                );
                match hit {
                    Some(hit) => has_words(query@) && hit.is_at(self@, found),
                    None => !has_words(query@) || found is None,
                }
            }),
            in_tree_order(self.sorted_how(), self@) && of_one_tree(self@, from@, is_dir) ==> (
            hit matches Some(hit) ==> exists|at: int| #[trigger]
                is_closest_hit(
                    self.sorted_how(),
                    self@,
                    matches_of(query@, self@),
                    from@,
                    is_dir,
                    direction,
                    hit,
                    at,
                )),
            hit is None && has_words(query@) ==> forall|k: int|
                0 <= k < self@.len() ==> !is_match(query@, path_text(#[trigger] self@[k])),
    {
        match Matching::new(query) {
            Some(matching) => {
                let matches: Vec<bool> = self.matches(&matching);
                let hit: Option<Hit> = self.hit(&matches, from, is_dir, direction);
                proof {
                    assert forall|k: int| 0 <= k < self@.len() && hit is None implies !is_match(
                        query@,
                        path_text(#[trigger] self@[k]),
                    ) by {
                        assert(!matches@[k]);
                    }
                }
                hit
            },
            None => None,
        }
    }
}

/// Whether the files are those of one tree that the entry at `from` is in too, with names that are
/// told apart by their texts.
pub open spec fn of_one_tree(paths: Seq<Seq<Part>>, from: Seq<Part>, is_dir: bool) -> bool {
    &&& forall|i: int|
        #![trigger paths[i]]
        0 <= i < paths.len() ==> in_one_tree(paths[i], false, from, is_dir) && told_apart(
            paths[i],
            from,
        )
    &&& forall|i: int, j: int|
        #![trigger paths[i], paths[j]]
        0 <= i < paths.len() && 0 <= j < paths.len() ==> in_one_tree(
            paths[i],
            false,
            paths[j],
            false,
        ) && told_apart(paths[i], paths[j])
}

/// Whether the files are listed in tree order.
pub open spec fn in_tree_order(sort: FileTreeSort, paths: Seq<Seq<Part>>) -> bool {
    forall|i: int, j: int|
        #![trigger paths[i], paths[j]]
        0 <= i < j < paths.len() ==> !(path_order(sort, paths[i], false, paths[j], false)
            is Greater)
}

/// The files to search are listed in tree order: any two files of one tree whose names are told
/// apart by their texts are.
pub proof fn law_candidates_are_in_tree_order(paths: Seq<TreePath>, candidates: Candidates)
    requires
        candidates@ == path_views(sorted_by(paths, file_order(candidates.sorted_how()))),
        of_one_tree(path_views(paths), Seq::empty(), true),
    ensures
        in_tree_order(candidates.sorted_how(), candidates@),
        candidates@.len() == paths.len(),
        forall|path: Seq<Part>|
            path_views(paths).contains(path) <==> #[trigger] candidates@.contains(path),
{
    let sort = candidates.sorted_how();
    let le = file_order(sort);
    let views = path_views(paths);
    let sorted = sorted_by(paths, le);
    assert forall|a: TreePath, b: TreePath| paths.contains(a) && paths.contains(b) implies
    #[trigger] le(a, b) || le(b, a) by {
        law_path_order_turns_round(sort, a@, false, b@, false);
    }
    assert forall|a: TreePath, b: TreePath, c: TreePath|
        #![trigger le(a, b), le(b, c)]
        paths.contains(a) && paths.contains(b) && paths.contains(c) && le(a, b) && le(
            b,
            c,
        ) implies le(a, c) by {
        let i = paths.index_of(a);
        let j = paths.index_of(b);
        let k = paths.index_of(c);
        assert(views[i] == a@ && views[j] == b@ && views[k] == c@);
        law_tree_order_is_total(sort, a@, false, b@, false, c@, false);
    }
    lemma_sorted_by_among(paths, paths, le);
    lemma_sorted_by(paths, le);
    assert forall|i: int, j: int|
        #![trigger candidates@[i], candidates@[j]]
        0 <= i < j < candidates@.len() implies !(path_order(
        sort,
        candidates@[i],
        false,
        candidates@[j],
        false,
    ) is Greater) by {
        assert(le(sorted[i], sorted[j]));
    }
    assert forall|path: Seq<Part>| views.contains(path) <==> #[trigger] candidates@.contains(
        path,
    ) by {
        if views.contains(path) {
            let i = views.index_of(path);
            assert(paths.contains(paths[i]));
            lemma_sorted_by_contains(paths, le, paths[i]);
            let k = sorted.index_of(paths[i]);
            assert(candidates@[k] == path);
        }
        if candidates@.contains(path) {
            let k = candidates@.index_of(path);
            assert(sorted.contains(sorted[k]));
            lemma_sorted_by_contains(paths, le, sorted[k]);
            let i = paths.index_of(sorted[k]);
            assert(views[i] == path);
        }
    }
}

proof fn lemma_counts_before(
    sort: FileTreeSort,
    paths: Seq<Seq<Part>>,
    from: Seq<Part>,
    is_dir: bool,
    same: bool,
)
    requires
        in_tree_order(sort, paths),
        of_one_tree(paths, from, is_dir),
    ensures
        0 <= count_before(sort, paths, from, is_dir, same) <= paths.len(),
        forall|i: int|
            0 <= i < paths.len() ==> (i < count_before(sort, paths, from, is_dir, same) <==> {
                let order = path_order(sort, #[trigger] paths[i], false, from, is_dir);
                order is Less || (same && order is Equal)
            }),
    decreases paths.len(),
{
    if paths.len() > 0 {
        let rest = paths.skip(1);
        assert forall|i: int| 0 <= i < rest.len() implies #[trigger] rest[i] == paths[i + 1] by {}
        assert(in_tree_order(sort, rest));
        assert(of_one_tree(rest, from, is_dir)) by {
            assert forall|i: int| #![trigger rest[i]] 0 <= i < rest.len() implies in_one_tree(
                rest[i],
                false,
                from,
                is_dir,
            ) && told_apart(rest[i], from) by {
                assert(rest[i] == paths[i + 1]);
            }
            assert forall|i: int, j: int|
                #![trigger rest[i], rest[j]]
                0 <= i < rest.len() && 0 <= j < rest.len() implies in_one_tree(
                rest[i],
                false,
                rest[j],
                false,
            ) && told_apart(rest[i], rest[j]) by {
                assert(rest[i] == paths[i + 1] && rest[j] == paths[j + 1]);
            }
        }
        lemma_counts_before(sort, rest, from, is_dir, same);
        let first = path_order(sort, paths[0], false, from, is_dir);
        assert forall|i: int| 0 <= i < paths.len() implies (i < count_before(
            sort,
            paths,
            from,
            is_dir,
            same,
        ) <==> {
            let order = path_order(sort, #[trigger] paths[i], false, from, is_dir);
            order is Less || (same && order is Equal)
        }) by {
            if i > 0 {
                assert(rest[i - 1] == paths[i]);
                assert(in_one_tree(paths[0], false, paths[i], false));
                assert(told_apart(paths[0], paths[i]));
                law_tree_order_is_total(sort, paths[0], false, paths[i], false, from, is_dir);
                law_tree_order_is_total(sort, paths[0], false, from, is_dir, from, is_dir);
                law_tree_order_is_total(sort, paths[i], false, from, is_dir, from, is_dir);
                law_path_order_turns_round(sort, paths[0], false, paths[i], false);
                law_path_order_turns_round(sort, paths[i], false, from, is_dir);
            }
        }
    }
}

/// Whether the match at `at` is the closest one, where `before` of the files come before the start
/// and `after` before or at it.
spec fn is_closest(
    matches: Seq<bool>,
    before: int,
    after: int,
    direction: Direction,
    at: int,
    wrapped: bool,
) -> bool {
    &&& 0 <= at < matches.len()
    &&& matches[at]
    &&& match (direction, wrapped) {
        (Direction::Forward, false) => after <= at && forall|k: int|
            after <= k < at ==> !#[trigger] matches[k],
        (Direction::Forward, true) => {
            &&& forall|k: int| after <= k < matches.len() ==> !#[trigger] matches[k]
            &&& forall|k: int| 0 <= k < at ==> !#[trigger] matches[k]
        },
        (Direction::Backward, false) => at < before && forall|k: int|
            at < k < before ==> !#[trigger] matches[k],
        (Direction::Backward, true) => {
            &&& forall|k: int| 0 <= k < before ==> !#[trigger] matches[k]
            &&& forall|k: int| at < k < matches.len() ==> !#[trigger] matches[k]
        },
    }
}

proof fn lemma_is_closest(
    sort: FileTreeSort,
    paths: Seq<Seq<Part>>,
    matches: Seq<bool>,
    from: Seq<Part>,
    is_dir: bool,
    direction: Direction,
)
    requires
        matches.len() == paths.len(),
    ensures
        match hit_at(sort, paths, matches, from, is_dir, direction) {
            Some(found) => is_closest(
                matches,
                count_before(sort, paths, from, is_dir, false),
                count_before(sort, paths, from, is_dir, true),
                direction,
                found.at,
                found.wrapped,
            ),
            None => forall|k: int| 0 <= k < matches.len() ==> !#[trigger] matches[k],
        },
{
    let len = paths.len() as int;
    let after = count_before(sort, paths, from, is_dir, true);
    let before = count_before(sort, paths, from, is_dir, false);
    lemma_count_before(sort, paths, from, is_dir, true);
    lemma_count_before(sort, paths, from, is_dir, false);
    lemma_first_match(matches, after, len);
    lemma_first_match(matches, 0, after);
    lemma_last_match(matches, 0, before);
    lemma_last_match(matches, before, len);
}

/// A hit is the closest match in the direction searched. If the search did not wrap, the hit comes
/// after the entry it started from in tree order, or before it going backward, and no file strictly
/// between the two matches. If it wrapped, no file on that side of the start matches, and none
/// between the far end of the tree and the hit. Without a hit, no file matches. The index of the hit
/// among the files is returned.
pub proof fn law_hits_are_the_closest_matches(
    candidates: Candidates,
    matches: Seq<bool>,
    from: Seq<Part>,
    is_dir: bool,
    direction: Direction,
    hit: Option<Hit>,
) -> (at: int)
    requires
        matches.len() == candidates@.len(),
        in_tree_order(candidates.sorted_how(), candidates@),
        of_one_tree(candidates@, from, is_dir),
        ({
            let found = hit_at(
                candidates.sorted_how(),
                candidates@,
                matches,
                from,
                is_dir,
                direction,
            );
            match hit {
                Some(hit) => hit.is_at(candidates@, found),
                None => found is None,
            }
        }),
    ensures
        match hit {
            Some(hit) => 0 <= at < candidates@.len() && hit.path@ == candidates@[at] && matches[at]
                && match (direction, hit.wrapped) {
                (Direction::Forward, false) => {
                    &&& path_order(
                        candidates.sorted_how(),
                        candidates@[at],
                        false,
                        from,
                        is_dir,
                    ) is Greater
                    &&& forall|k: int|
                        0 <= k < at && path_order(
                            candidates.sorted_how(),
                            #[trigger] candidates@[k],
                            false,
                            from,
                            is_dir,
                        ) is Greater ==> !matches[k]
                },
                (Direction::Forward, true) => {
                    &&& forall|k: int|
                        0 <= k < candidates@.len() && path_order(
                            candidates.sorted_how(),
                            #[trigger] candidates@[k],
                            false,
                            from,
                            is_dir,
                        ) is Greater ==> !matches[k]
                    &&& forall|k: int| 0 <= k < at ==> !#[trigger] matches[k]
                },
                (Direction::Backward, false) => {
                    &&& path_order(
                        candidates.sorted_how(),
                        candidates@[at],
                        false,
                        from,
                        is_dir,
                    ) is Less
                    &&& forall|k: int|
                        at < k < candidates@.len() && path_order(
                            candidates.sorted_how(),
                            #[trigger] candidates@[k],
                            false,
                            from,
                            is_dir,
                        ) is Less ==> !matches[k]
                },
                (Direction::Backward, true) => {
                    &&& forall|k: int|
                        0 <= k < candidates@.len() && path_order(
                            candidates.sorted_how(),
                            #[trigger] candidates@[k],
                            false,
                            from,
                            is_dir,
                        ) is Less ==> !matches[k]
                    &&& forall|k: int|
                        at < k < candidates@.len() ==> !#[trigger] matches[k]
                },
            },
            None => forall|k: int| 0 <= k < candidates@.len() ==> !#[trigger] matches[k],
        },
{
    let sort = candidates.sorted_how();
    let paths = candidates@;
    lemma_is_closest(sort, paths, matches, from, is_dir, direction);
    lemma_counts_before(sort, paths, from, is_dir, true);
    lemma_counts_before(sort, paths, from, is_dir, false);
    match hit_at(sort, paths, matches, from, is_dir, direction) {
        Some(found) => found.at,
        None => 0,
    }
}

/// Whether a file matches is a matter of its path as text.
pub proof fn law_files_match_by_their_paths(query: Seq<char>, paths: Seq<Seq<Part>>, i: int)
    requires
        0 <= i < paths.len(),
    ensures
        matches_of(query, paths).len() == paths.len(),
        matches_of(query, paths)[i] <==> is_match(query, path_text(paths[i])),
{
}

} // verus!
