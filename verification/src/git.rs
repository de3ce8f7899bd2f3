//! The git status of the workspace as the file tree presents it.

use crate::names::{Part, TreePath};
use crate::status::FileChange;
use vstd::prelude::*;

verus! {

/// The status a git mark shows, ordered by strength: a directory shows the strongest status
/// beneath it.
#[derive(Clone, Copy, Debug, PartialEq, Eq, Structural)]
pub enum GitStatus {
    Created,
    Modified,
    Deleted,
    Conflict,
}

impl GitStatus {
    pub open spec fn strength(self) -> int {
        match self {
            GitStatus::Created => 0,
            GitStatus::Modified => 1,
            GitStatus::Deleted => 2,
            GitStatus::Conflict => 3,
        }
    }

    fn level(self) -> (level: u8)
        ensures
            level == self.strength(),
    {
        match self {
            GitStatus::Created => 0,
            GitStatus::Modified => 1,
            GitStatus::Deleted => 2,
            GitStatus::Conflict => 3,
        }
    }
}

/// The stronger of two statuses, if there is one.
pub open spec fn stronger(a: Option<GitStatus>, b: GitStatus) -> GitStatus {
    match a {
        Some(a) => if a.strength() > b.strength() {
            a
        } else {
            b
        },
        None => b,
    }
}

/// Whether the path `base` is `path` or a directory that it is in.
pub open spec fn leads_to(base: Seq<Part>, path: Seq<Part>) -> bool {
    base.len() <= path.len() && path.take(base.len() as int) == base
}

/// Whether a change at `changed` shows at the entry at `path`: it is that entry's own, or below it
/// if it is a directory.
pub open spec fn shows_at(changed: Seq<Part>, path: Seq<Part>, is_dir: bool) -> bool {
    changed == path || is_dir && leads_to(path, changed)
}

/// The strongest of the changes that show at `path`.
pub open spec fn strongest(
    changes: Seq<(Seq<Part>, GitStatus)>,
    path: Seq<Part>,
    is_dir: bool,
) -> Option<GitStatus>
    decreases changes.len(),
{
    if changes.len() == 0 {
        None
    } else {
        let earlier = strongest(changes.drop_last(), path, is_dir);
        if shows_at(changes.last().0, path, is_dir) {
            Some(stronger(earlier, changes.last().1))
        } else {
            earlier
        }
    }
}

/// The status that a change gives its file; what is ignored has none.
pub open spec fn status_of(change: FileChange) -> Option<GitStatus> {
    match change {
        FileChange::Untracked { .. } | FileChange::Added { .. } => Some(GitStatus::Created),
        FileChange::Modified { .. } | FileChange::Renamed { .. } => Some(GitStatus::Modified),
        FileChange::Deleted { .. } => Some(GitStatus::Deleted),
        FileChange::Conflict { .. } => Some(GitStatus::Conflict),
        FileChange::Ignored { .. } => None,
    }
}

/// The changes below `root` that give files a status, by their relative paths.
pub open spec fn changes_below(root: Seq<Part>, changes: Seq<FileChange>) -> Seq<
    (Seq<Part>, GitStatus),
>
    decreases changes.len(),
{
    if changes.len() == 0 {
        Seq::empty()
    } else {
        let earlier = changes_below(root, changes.drop_last());
        let change = changes.last();
        match status_of(change) {
            Some(status) => if leads_to(root, change.place()) {
                earlier.push((change.place().skip(root.len() as int), status))
            } else {
                earlier
            },
            None => earlier,
        }
    }
}

/// The relative paths below `root` that are ignored.
pub open spec fn ignored_below(root: Seq<Part>, changes: Seq<FileChange>) -> Seq<Seq<Part>>
    decreases changes.len(),
{
    if changes.len() == 0 {
        Seq::empty()
    } else {
        let earlier = ignored_below(root, changes.drop_last());
        let change = changes.last();
        if status_of(change) is None && leads_to(root, change.place()) {
            earlier.push(change.place().skip(root.len() as int))
        } else {
            earlier
        }
    }
}

/// Whether `path` or a directory that it is in is one of the `ignored` ones. The root itself does
/// not count.
pub open spec fn in_ignored(ignored: Seq<Seq<Part>>, path: Seq<Part>) -> bool {
    exists|i: int|
        0 <= i < ignored.len() && (#[trigger] ignored[i]).len() > 0 && leads_to(ignored[i], path)
}

/// Whether what is reported at `place` shows at `full`: it is there or, for a directory, below it.
pub open spec fn reported_for(place: Seq<Part>, full: Seq<Part>, is_dir: bool) -> bool {
    place == full || (is_dir && place.len() >= full.len() && place.take(full.len() as int) == full)
}

/// The mark that changes reported below `root` give the entry at `path` there, by the kinds of those
/// reported at its whole path or, for a directory, below it.
pub open spec fn mark_of_changes(
    root: Seq<Part>,
    changes: Seq<FileChange>,
    path: Seq<Part>,
    is_dir: bool,
) -> Option<GitStatus> {
    if exists|i: int, n: int|
        0 <= i < changes.len() && 0 < n <= path.len() && (#[trigger] changes[i] matches
            FileChange::Ignored { path: ignored } && ignored@ == root + #[trigger] path.take(n)) {
        None
    } else if exists|i: int|
        0 <= i < changes.len() && (#[trigger] changes[i] matches FileChange::Conflict { path: at }
            && reported_for(at@, root + path, is_dir)) {
        Some(GitStatus::Conflict)
    } else if exists|i: int|
        0 <= i < changes.len() && (#[trigger] changes[i] matches FileChange::Deleted { path: at }
            && reported_for(at@, root + path, is_dir)) {
        Some(GitStatus::Deleted)
    } else if exists|i: int|
        0 <= i < changes.len() && match #[trigger] changes[i] {
            FileChange::Modified { path: at } => reported_for(at@, root + path, is_dir),
            FileChange::Renamed { from_path, to_path } => reported_for(
                to_path@,
                root + path,
                is_dir,
            ),
            _ => false,
        } {
        Some(GitStatus::Modified)
    } else if exists|i: int|
        0 <= i < changes.len() && match #[trigger] changes[i] {
            FileChange::Untracked { path: at } => reported_for(at@, root + path, is_dir),
            FileChange::Added { path: at } => reported_for(at@, root + path, is_dir),
            _ => false,
        } {
        Some(GitStatus::Created)
    } else {
        None
    }
}

/// The status of the paths below one workspace root, keyed by their relative path.
#[derive(Debug)]
pub struct GitStatuses {
    changes: Vec<(TreePath, GitStatus)>,
    /// Ignored paths; everything below an ignored directory is ignored too.
    ignored: Vec<TreePath>,
}

impl GitStatuses {
    /// The changes that give files a status.
    pub closed spec fn changed(&self) -> Seq<(Seq<Part>, GitStatus)> {
        self.changes@.map_values(|change: (TreePath, GitStatus)| (change.0@, change.1))
    }

    /// The ignored paths.
    pub closed spec fn left_out(&self) -> Seq<Seq<Part>> {
        self.ignored@.map_values(|path: TreePath| path@)
    }

    /// The mark of the entry at `path`.
    pub open spec fn mark(&self, path: Seq<Part>, is_dir: bool) -> Option<GitStatus> {
        if in_ignored(self.left_out(), path) {
            None
        } else {
            strongest(self.changed(), path, is_dir)
        }
    }

    /// Collects `changes` below `root`, dropping the ones outside it.
    pub fn new(root: &TreePath, changes: &Vec<FileChange>) -> (statuses: GitStatuses)
        ensures
            statuses.changed() == changes_below(root@, changes@),
            statuses.left_out() == ignored_below(root@, changes@),
            forall|path: Seq<Part>, is_dir: bool| #[trigger]
                statuses.mark(path, is_dir) == mark_of_changes(root@, changes@, path, is_dir),
    {
        let mut statuses = GitStatuses { changes: Vec::new(), ignored: Vec::new() };
        assert(statuses.changed() =~= Seq::empty());
        assert(statuses.left_out() =~= Seq::empty());
        let mut i: usize = 0;
        while i < changes.len()
            invariant
                i <= changes@.len(),
                statuses.changed() == changes_below(root@, changes@.take(i as int)),
                statuses.left_out() == ignored_below(root@, changes@.take(i as int)),
            decreases changes.len() - i,
        {
            let change: &FileChange = &changes[i];
            let ghost before = statuses;
            assert(changes@.take(i + 1).drop_last() =~= changes@.take(i as int));
            match change.path().strip_prefix(root) {
                Some(path) => {
                    let status: Option<GitStatus> = match change {
                        FileChange::Untracked { .. } | FileChange::Added { .. } => Some(
                            GitStatus::Created,
                        ),
                        FileChange::Modified { .. } | FileChange::Renamed { .. } => Some(
                            GitStatus::Modified,
                        ),
                        FileChange::Deleted { .. } => Some(GitStatus::Deleted),
                        FileChange::Conflict { .. } => Some(GitStatus::Conflict),
                        FileChange::Ignored { .. } => None,
                    };
                    let ghost place = path@;
                    match status {
                        Some(status) => {
                            statuses.changes.push((path, status));
                            assert(statuses.changed() =~= before.changed().push((place, status)));
                        },
                        None => {
                            statuses.ignored.push(path);
                            assert(statuses.left_out() =~= before.left_out().push(place));
                        },
                    }
                },
                None => {},
            }
            i += 1;
        }
        assert(changes@.take(i as int) =~= changes@);
        proof {
            assert forall|path: Seq<Part>, is_dir: bool| #[trigger]
                statuses.mark(path, is_dir) == mark_of_changes(
                    root@,
                    changes@,
                    path,
                    is_dir,
                ) by {
                law_marks_follow_the_kinds_of_changes(statuses, root@, changes@, path, is_dir);
            }
        }
        statuses
    }

    /// The mark of the entry at `path`: its own status or, for a directory, the strongest one
    /// below it. Ignored entries have none.
    pub fn status(&self, path: &TreePath, is_dir: bool) -> (status: Option<GitStatus>)
        ensures
            status == self.mark(path@, is_dir),
    {
        if self.is_ignored(path) {
            return None;
        }
        let ghost all = self.changed();
        let mut status: Option<GitStatus> = None;
        let mut i: usize = 0;
        while i < self.changes.len()
            invariant
                i <= self.changes@.len(),
                all == self.changed(),
                status == strongest(all.take(i as int), path@, is_dir),
            decreases self.changes.len() - i,
        {
            let changed: &TreePath = &self.changes[i].0;
            let next: GitStatus = self.changes[i].1;
            assert(all.take(i + 1).drop_last() =~= all.take(i as int));
            assert(all[i as int] == (changed@, next));
            if changed.same(path) || (is_dir && changed.starts_with(path)) {
                status = Some(
                    match status {
                        Some(current) => if current.level() > next.level() {
                            current
                        } else {
                            next
                        },
                        None => next,
                    },
                );
            }
            i += 1;
        }
        assert(all.take(i as int) =~= all);
        status
    }

    pub fn is_ignored(&self, path: &TreePath) -> (is: bool)
        ensures
            is == in_ignored(self.left_out(), path@),
    {
        let ghost all = self.left_out();
        let mut i: usize = 0;
        while i < self.ignored.len()
            invariant
                i <= self.ignored@.len(),
                all == self.left_out(),
                forall|k: int|
                    0 <= k < i ==> !((#[trigger] all[k]).len() > 0 && leads_to(all[k], path@)),
            decreases self.ignored.len() - i,
        {
            assert(all[i as int] == self.ignored@[i as int]@);
            if self.ignored[i].components.len() > 0 && path.starts_with(&self.ignored[i]) {
                return true;
            }
            i += 1;
        }
        false
    }
}

impl Default for GitStatuses {
    fn default() -> (statuses: GitStatuses)
        ensures
            statuses.changed() == Seq::<(Seq<Part>, GitStatus)>::empty(),
            statuses.left_out() == Seq::<Seq<Part>>::empty(),
    {
        let statuses = GitStatuses { changes: Vec::new(), ignored: Vec::new() };
        assert(statuses.changed() =~= Seq::empty());
        assert(statuses.left_out() =~= Seq::empty());
        statuses
    }
}

/// The status shown is that of one of the changes that show there, and none of them is stronger.
pub proof fn law_the_strongest_change_shows(
    changes: Seq<(Seq<Part>, GitStatus)>,
    path: Seq<Part>,
    is_dir: bool,
)
    ensures
        match strongest(changes, path, is_dir) {
            Some(status) => {
                &&& exists|i: int|
                    0 <= i < changes.len() && shows_at((#[trigger] changes[i]).0, path, is_dir)
                        && changes[i].1 == status
                &&& forall|i: int|
                    0 <= i < changes.len() && shows_at((#[trigger] changes[i]).0, path, is_dir)
                        ==> changes[i].1.strength() <= status.strength()
            },
            None => forall|i: int|
                0 <= i < changes.len() ==> !shows_at((#[trigger] changes[i]).0, path, is_dir),
        },
    decreases changes.len(),
{
    if changes.len() > 0 {
        let rest = changes.drop_last();
        law_the_strongest_change_shows(rest, path, is_dir);
        assert forall|i: int| 0 <= i < rest.len() implies #[trigger] changes[i] == rest[i] by {}
        match strongest(rest, path, is_dir) {
            Some(status) => {
                let i = choose|i: int|
                    0 <= i < rest.len() && shows_at((#[trigger] rest[i]).0, path, is_dir)
                        && rest[i].1 == status;
                assert(changes[i] == rest[i]);
            },
            None => {},
        }
        assert(changes[changes.len() - 1] == changes.last());
    }
}

/// A directory shows at least what an entry in it shows, unless the directory is ignored.
pub proof fn law_directories_show_what_is_below(
    statuses: GitStatuses,
    dir: Seq<Part>,
    path: Seq<Part>,
    is_dir: bool,
)
    requires
        leads_to(dir, path),
        !in_ignored(statuses.left_out(), dir),
        statuses.mark(path, is_dir) is Some,
    ensures
        statuses.mark(dir, true) is Some,
        statuses.mark(dir, true)->0.strength() >= statuses.mark(path, is_dir)->0.strength(),
{
    let changes = statuses.changed();
    law_the_strongest_change_shows(changes, dir, true);
    law_the_strongest_change_shows(changes, path, is_dir);
    let status = statuses.mark(path, is_dir)->0;
    let i = choose|i: int|
        0 <= i < changes.len() && shows_at((#[trigger] changes[i]).0, path, is_dir) && changes[i].1
            == status;
    let changed = changes[i].0;
    assert(changed.take(dir.len() as int) =~= changed.take(path.len() as int).take(
        dir.len() as int,
    ));
    assert(path.take(path.len() as int) =~= path);
    assert(leads_to(dir, changed));
    assert(shows_at(changed, dir, true));
}

/// What lies in an ignored directory is ignored.
pub proof fn law_ignored_directories_hide_all_below(
    ignored: Seq<Seq<Part>>,
    dir: Seq<Part>,
    path: Seq<Part>,
)
    requires
        in_ignored(ignored, dir),
        leads_to(dir, path),
    ensures
        in_ignored(ignored, path),
{
    let i = choose|i: int|
        0 <= i < ignored.len() && (#[trigger] ignored[i]).len() > 0 && leads_to(ignored[i], dir);
    let base = ignored[i];
    assert(path.take(base.len() as int) =~= path.take(dir.len() as int).take(base.len() as int));
    assert(leads_to(base, path));
}

proof fn lemma_reported(root: Seq<Part>, changes: Seq<FileChange>, i: int)
    requires
        0 <= i < changes.len(),
        leads_to(root, changes[i].place()),
    ensures
        match status_of(changes[i]) {
            Some(status) => changes_below(root, changes).contains(
                (changes[i].place().skip(root.len() as int), status),
            ),
            None => ignored_below(root, changes).contains(
                changes[i].place().skip(root.len() as int),
            ),
        },
    decreases changes.len(),
{
    let rest = changes.drop_last();
    let place = changes[i].place().skip(root.len() as int);
    if i < rest.len() {
        lemma_reported(root, rest, i);
        match status_of(changes[i]) {
            Some(status) => {
                let j = changes_below(root, rest).index_of((place, status));
                assert(changes_below(root, changes)[j] == (place, status));
            },
            None => {
                let j = ignored_below(root, rest).index_of(place);
                assert(ignored_below(root, changes)[j] == place);
            },
        }
    } else {
        match status_of(changes[i]) {
            Some(status) => {
                let all = changes_below(root, changes);
                assert(all[all.len() - 1] == (place, status));
            },
            None => {
                let all = ignored_below(root, changes);
                assert(all[all.len() - 1] == place);
            },
        }
    }
}

proof fn lemma_reports(root: Seq<Part>, changes: Seq<FileChange>)
    ensures
        forall|j: int|
            0 <= j < changes_below(root, changes).len() ==> exists|i: int|
                0 <= i < changes.len() && leads_to(root, (#[trigger] changes[i]).place())
                    && status_of(changes[i]) == Some(changes_below(root, changes)[j].1)
                    && changes[i].place().skip(root.len() as int) == (
                #[trigger] changes_below(root, changes)[j]).0,
        forall|j: int|
            0 <= j < ignored_below(root, changes).len() ==> exists|i: int|
                0 <= i < changes.len() && leads_to(root, (#[trigger] changes[i]).place())
                    && status_of(changes[i]) is None && changes[i].place().skip(root.len() as int)
                    == #[trigger] ignored_below(root, changes)[j],
    decreases changes.len(),
{
    if changes.len() > 0 {
        let rest = changes.drop_last();
        lemma_reports(root, rest);
        assert forall|i: int| 0 <= i < rest.len() implies rest[i] == #[trigger] changes[i] by {}
        assert(changes[changes.len() - 1] == changes.last());
        assert forall|j: int| 0 <= j < changes_below(root, changes).len() implies exists|i: int|
            0 <= i < changes.len() && leads_to(root, (#[trigger] changes[i]).place()) && status_of(
                changes[i],
            ) == Some(changes_below(root, changes)[j].1) && changes[i].place().skip(
                root.len() as int,
            ) == (#[trigger] changes_below(root, changes)[j]).0 by {
            if j < changes_below(root, rest).len() {
                assert(changes_below(root, rest)[j] == changes_below(root, changes)[j]);
                let i = choose|i: int|
                    0 <= i < rest.len() && leads_to(root, (#[trigger] rest[i]).place())
                        && status_of(rest[i]) == Some(changes_below(root, rest)[j].1)
                        && rest[i].place().skip(root.len() as int) == changes_below(
                        root,
                        rest,
                    )[j].0;
                assert(changes[i] == rest[i]);
            }
        }
        assert forall|j: int| 0 <= j < ignored_below(root, changes).len() implies exists|i: int|
            0 <= i < changes.len() && leads_to(root, (#[trigger] changes[i]).place()) && status_of(
                changes[i],
            ) is None && changes[i].place().skip(root.len() as int) == #[trigger] ignored_below(
                root,
                changes,
            )[j] by {
            if j < ignored_below(root, rest).len() {
                assert(ignored_below(root, rest)[j] == ignored_below(root, changes)[j]);
                let i = choose|i: int|
                    0 <= i < rest.len() && leads_to(root, (#[trigger] rest[i]).place())
                        && status_of(rest[i]) is None && rest[i].place().skip(root.len() as int)
                        == ignored_below(root, rest)[j];
                assert(changes[i] == rest[i]);
            }
        }
    }
}

proof fn lemma_shown(root: Seq<Part>, path: Seq<Part>, place: Seq<Part>, is_dir: bool)
    ensures
        reported_for(place, root + path, is_dir) <==> leads_to(root, place) && shows_at(
            place.skip(root.len() as int),
            path,
            is_dir,
        ),
{
    let full = root + path;
    let below = place.skip(root.len() as int);
    if reported_for(place, full, is_dir) {
        assert(place.take(full.len() as int) =~= full);
        assert(place.take(root.len() as int) =~= full.take(root.len() as int));
        assert(full.take(root.len() as int) =~= root);
        assert(below.take(path.len() as int) =~= full.skip(root.len() as int));
        assert(full.skip(root.len() as int) =~= path);
        if place == full {
            assert(below =~= path);
        }
    }
    if leads_to(root, place) && shows_at(below, path, is_dir) {
        assert(place =~= root + below);
        if below != path {
            assert(below.take(path.len() as int) == path);
            assert(place.take(full.len() as int) =~= root + below.take(path.len() as int));
        }
    }
}

/// The mark of a file follows from what is reported at its path, and that of a directory from what
/// is reported at its path or below it, each path taken whole, with the root that it is below. A
/// conflict shows before a deletion, a deletion before a modification or a rename to the path, and
/// those before a file that is untracked or added. Where the path or one of the directories below
/// the root that lead to it is ignored, and where nothing is reported, there is no mark.
pub proof fn law_marks_follow_the_kinds_of_changes(
    statuses: GitStatuses,
    root: Seq<Part>,
    changes: Seq<FileChange>,
    path: Seq<Part>,
    is_dir: bool,
)
    requires
        statuses.changed() == changes_below(root, changes),
        statuses.left_out() == ignored_below(root, changes),
    ensures
        statuses.mark(path, is_dir) == if exists|i: int, n: int|
            0 <= i < changes.len() && 0 < n <= path.len() && (#[trigger] changes[i] matches
                FileChange::Ignored { path: ignored } && ignored@ == root + #[trigger] path.take(
                n,
            )) {
            None::<GitStatus>
        } else if exists|i: int|
            0 <= i < changes.len() && (#[trigger] changes[i] matches FileChange::Conflict {
                path: at,
            } && reported_for(at@, root + path, is_dir)) {
            Some(GitStatus::Conflict)
        } else if exists|i: int|
            0 <= i < changes.len() && (#[trigger] changes[i] matches FileChange::Deleted {
                path: at,
            } && reported_for(at@, root + path, is_dir)) {
            Some(GitStatus::Deleted)
        } else if exists|i: int|
            0 <= i < changes.len() && match #[trigger] changes[i] {
                FileChange::Modified { path: at } => reported_for(at@, root + path, is_dir),
                FileChange::Renamed { from_path, to_path } => reported_for(
                    to_path@,
                    root + path,
                    is_dir,
                ),
                _ => false,
            } {
            Some(GitStatus::Modified)
        } else if exists|i: int|
            0 <= i < changes.len() && match #[trigger] changes[i] {
                FileChange::Untracked { path: at } => reported_for(at@, root + path, is_dir),
                FileChange::Added { path: at } => reported_for(at@, root + path, is_dir),
                _ => false,
            } {
            Some(GitStatus::Created)
        } else {
            None::<GitStatus>
        },
{
    let below = changes_below(root, changes);
    let ignored = ignored_below(root, changes);
    lemma_reports(root, changes);
    law_the_strongest_change_shows(below, path, is_dir);
    assert forall|i: int|
        0 <= i < changes.len() && !(changes[i] is Ignored) && reported_for(
            (#[trigger] changes[i]).place(),
            root + path,
            is_dir,
        ) implies match status_of(changes[i]) {
        Some(status) => strongest(below, path, is_dir) matches Some(shown) && status.strength()
            <= shown.strength(),
        None => false,
    } by {
        let place = changes[i].place();
        lemma_shown(root, path, place, is_dir);
        lemma_reported(root, changes, i);
        let entry = (place.skip(root.len() as int), status_of(changes[i])->0);
        let j = below.index_of(entry);
        assert(below[j] == entry);
    }
    if in_ignored(ignored, path) {
        let j = choose|j: int|
            0 <= j < ignored.len() && (#[trigger] ignored[j]).len() > 0 && leads_to(
                ignored[j],
                path,
            );
        let i = choose|i: int|
            0 <= i < changes.len() && leads_to(root, (#[trigger] changes[i]).place()) && status_of(
                changes[i],
            ) is None && changes[i].place().skip(root.len() as int) == ignored[j];
        let n = ignored[j].len() as int;
        assert(changes[i].place() =~= root + path.take(n));
    }
    assert forall|i: int, n: int|
        0 <= i < changes.len() && 0 < n <= path.len() && (#[trigger] changes[i] matches
            FileChange::Ignored { path: at } && at@ == root + #[trigger] path.take(
            n,
        )) implies in_ignored(ignored, path) by {
        let place = changes[i].place();
        assert(place.take(root.len() as int) =~= root);
        assert(place.skip(root.len() as int) =~= path.take(n));
        lemma_reported(root, changes, i);
        let j = ignored.index_of(path.take(n));
        assert(ignored[j] == path.take(n));
    }
    match strongest(below, path, is_dir) {
        Some(status) => {
            let j = choose|j: int|
                0 <= j < below.len() && shows_at((#[trigger] below[j]).0, path, is_dir)
                    && below[j].1 == status;
            let i = choose|i: int|
                0 <= i < changes.len() && leads_to(root, (#[trigger] changes[i]).place())
                    && status_of(changes[i]) == Some(below[j].1) && changes[i].place().skip(
                    root.len() as int,
                ) == below[j].0;
            lemma_shown(root, path, changes[i].place(), is_dir);
            assert(reported_for(changes[i].place(), root + path, is_dir));
        },
        None => {},
    }
}

} // verus!
