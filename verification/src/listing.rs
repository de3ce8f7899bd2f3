//! Making listings out of what reading a directory finds.

use crate::arena::{Kind, LinkTarget, Special};
use crate::names::{lossy, name_text, same_name};
use crate::order::{entry_order, order_entries, FileTreeSort, Order};
use crate::seqs::{lemma_select, lemma_select_distinct, select};
use crate::sorting::{sorted_by, stable_sort};
use crate::tree::{distinct_names, run_of_directories, runs_of_directories, Entry};
use vstd::prelude::*;

verus! {

/// How directories are listed.
#[derive(Clone, Copy, Debug)]
pub struct ListOptions {
    pub sort: FileTreeSort,
    /// Whether to find out which files are executable.
    pub executables: bool,
}

/// What the file system says an entry is.
#[derive(Clone, Copy, Debug, PartialEq, Eq, Structural)]
pub enum FileType {
    Link,
    Directory,
    File,
    Fifo,
    Socket,
    BlockDevice,
    CharDevice,
    Other,
}

/// An entry found while reading a directory.
#[derive(Debug)]
pub struct Found {
    pub name: Vec<u8>,
    /// `None` if the file system does not say.
    pub file_type: Option<FileType>,
    /// What a link leads to, if it can be followed.
    pub target: Option<FileType>,
    /// Whether anybody may execute the file.
    pub executable: bool,
    /// What probing the directory found.
    pub only_child: Option<Box<Entry>>,
}

/// The kind of an entry. `None` for one that is left out of listings.
pub open spec fn kind_of(
    file_type: FileType,
    target: Option<FileType>,
    executable: bool,
) -> Option<Kind> {
    match file_type {
        FileType::Link => Some(
            Kind::Link(
                if target == Some(FileType::Directory) {
                    LinkTarget::Directory
                } else if target == Some(FileType::File) {
                    LinkTarget::File
                } else {
                    LinkTarget::Broken
                },
            ),
        ),
        FileType::Directory => Some(Kind::Directory),
        FileType::File => Some(Kind::File { executable }),
        FileType::Fifo => Some(Kind::Special(Special::Fifo)),
        FileType::Socket => Some(Kind::Special(Special::Socket)),
        FileType::BlockDevice => Some(Kind::Special(Special::BlockDevice)),
        FileType::CharDevice => Some(Kind::Special(Special::CharDevice)),
        FileType::Other => None,
    }
}

/// The kind of an entry. A link is one by what it leads to.
pub fn kind(file_type: FileType, target: Option<FileType>, executable: bool) -> (kind: Option<Kind>)
    ensures
        kind == kind_of(file_type, target, executable),
{
    match file_type {
        FileType::Link => Some(
            Kind::Link(
                match target {
                    Some(FileType::Directory) => LinkTarget::Directory,
                    Some(FileType::File) => LinkTarget::File,
                    _ => LinkTarget::Broken,
                },
            ),
        ),
        FileType::Directory => Some(Kind::Directory),
        FileType::File => Some(Kind::File { executable }),
        FileType::Fifo => Some(Kind::Special(Special::Fifo)),
        FileType::Socket => Some(Kind::Special(Special::Socket)),
        FileType::BlockDevice => Some(Kind::Special(Special::BlockDevice)),
        FileType::CharDevice => Some(Kind::Special(Special::CharDevice)),
        FileType::Other => None,
    }
}

/// Whether one of `names` is `name`.
pub open spec fn has_name(names: Seq<Vec<u8>>, name: Seq<u8>) -> bool {
    exists|i: int| 0 <= i < names.len() && (#[trigger] names[i])@ == name
}

fn contains_name(names: &Vec<Vec<u8>>, name: &Vec<u8>) -> (contains: bool)
    ensures
        contains == has_name(names@, name@),
{
    let mut i: usize = 0;
    while i < names.len()
        invariant
            i <= names@.len(),
            forall|k: int| 0 <= k < i ==> (#[trigger] names@[k])@ != name@,
        decreases names.len() - i,
    {
        if same_name(&names[i], name) {
            return true;
        }
        i += 1;
    }
    false
}

impl Found {
    /// The kind of the entry, if it is listed. Only with `executables` some files are executable.
    pub open spec fn kind(self, executables: bool) -> Option<Kind> {
        match self.file_type {
            Some(file_type) => kind_of(file_type, self.target, executables && self.executable),
            None => None,
        }
    }

    /// The entry of a listing, where git does not ignore the names `kept`.
    pub open spec fn entry(self, kept: Seq<Vec<u8>>, executables: bool) -> Entry {
        Entry {
            name: self.name,
            kind: self.kind(executables)->0,
            ignored: !has_name(kept, self.name@),
            only_child: if self.kind(executables) == Some(Kind::Directory) {
                self.only_child
            } else {
                None
            },
        }
    }
}

/// Which entries are listed: the ones of a kind, but for the names `left_out`.
pub open spec fn is_listed(left_out: Seq<Vec<u8>>, executables: bool) -> spec_fn(Found) -> bool {
    |found: Found| !has_name(left_out, found.name@) && found.kind(executables) is Some
}

/// The entries of a listing, as they were found.
pub open spec fn found_entries(
    found: Seq<Found>,
    left_out: Seq<Vec<u8>>,
    kept: Seq<Vec<u8>>,
    executables: bool,
) -> Seq<Entry> {
    select(found, is_listed(left_out, executables)).map_values(
        |found: Found| found.entry(kept, executables),
    )
}

/// The order of the entries of a listing.
pub open spec fn entry_before(sort: FileTreeSort) -> spec_fn(Entry, Entry) -> bool {
    |a: Entry, b: Entry|
        !(entry_order(
            sort,
            lossy(a.name@),
            a.kind.group_of(),
            lossy(b.name@),
            b.kind.group_of(),
        ) is Greater)
}

fn before(sort: FileTreeSort, a: &Entry, b: &Entry) -> (before: bool)
    ensures
        before == entry_before(sort)(*a, *b),
{
    let a_name: String = name_text(&a.name);
    let b_name: String = name_text(&b.name);
    match order_entries(sort, a_name.as_str(), a.kind.group(), b_name.as_str(), b.kind.group()) {
        Order::Greater => false,
        _ => true,
    }
}

fn before_directories_first(a: &Entry, b: &Entry) -> (is_before: bool)
    ensures
        is_before == entry_before(FileTreeSort::DirectoriesFirst)(*a, *b),
{
    before(FileTreeSort::DirectoriesFirst, a, b)
}

fn before_alphabetical(a: &Entry, b: &Entry) -> (is_before: bool)
    ensures
        is_before == entry_before(FileTreeSort::Alphabetical)(*a, *b),
{
    before(FileTreeSort::Alphabetical, a, b)
}

/// The listing of a directory, in tree order, out of what reading it found. The names `left_out` are
/// not listed, and git ignores all but the names `kept`.
pub fn list(
    found: Vec<Found>,
    left_out: &Vec<Vec<u8>>,
    kept: &Vec<Vec<u8>>,
    options: ListOptions,
) -> (entries: Vec<Entry>)
    ensures
        entries@ == sorted_by(
            found_entries(found@, left_out@, kept@, options.executables),
            entry_before(options.sort),
        ),
{
    let ghost all = found@;
    let ghost pick = is_listed(left_out@, options.executables);
    let mut entries: Vec<Entry> = Vec::new();
    assert(entries@ =~= found_entries(all.take(0), left_out@, kept@, options.executables));
    for item in iter: found
        invariant
            iter.seq() == all,
            pick == is_listed(left_out@, options.executables),
            entries@ == found_entries(
                all.take(iter.index() as int),
                left_out@,
                kept@,
                options.executables,
            ),
    {
        let ghost at = iter.index() as int;
        assert(item == all[at]);
        assert(all.take(at + 1).drop_last() =~= all.take(at));
        assert(all.take(at + 1).last() == item);
        let ghost done = entries@;
        let ghost whole = item;
        let kind: Option<Kind> = match item.file_type {
            Some(file_type) => kind(
                file_type,
                item.target,
                options.executables && item.executable,
            ),
            None => None,
        };
        match kind {
            Some(kind) => {
                if !contains_name(left_out, &item.name) {
                    let ignored: bool = !contains_name(kept, &item.name);
                    let only_child: Option<Box<Entry>> = if kind == Kind::Directory {
                        item.only_child
                    } else {
                        None
                    };
                    let entry = Entry { name: item.name, kind, ignored, only_child };
                    assert(entry == whole.entry(kept@, options.executables));
                    entries.push(entry);
                }
            },
            None => {},
        }
        assert(entries@ =~= found_entries(
            all.take(at + 1),
            left_out@,
            kept@,
            options.executables,
        ));
    }
    assert(all.take(all.len() as int) =~= all);
    match options.sort {
        FileTreeSort::DirectoriesFirst => stable_sort(
            entries,
            before_directories_first,
            Ghost(entry_before(FileTreeSort::DirectoriesFirst)),
        ),
        FileTreeSort::Alphabetical => stable_sort(
            entries,
            before_alphabetical,
            Ghost(entry_before(FileTreeSort::Alphabetical)),
        ),
    }
}

/// Whether the only entry found, but for the names `left_out`, is `found[index]`.
pub open spec fn is_only(found: Seq<Found>, left_out: Seq<Vec<u8>>, index: int) -> bool {
    &&& 0 <= index < found.len()
    &&& forall|i: int|
        0 <= i < found.len() ==> (has_name(left_out, (#[trigger] found[i]).name@) <==> i != index)
}

/// The only entry of a directory, but for the names `left_out`, if that is a directory.
pub fn probe(found: &Vec<Found>, left_out: &Vec<Vec<u8>>) -> (only: Option<usize>)
    ensures
        match only {
            Some(only) => is_only(found@, left_out@, only as int) && found@[only as int].file_type
                == Some(FileType::Directory),
            None => forall|i: int|
                #![trigger is_only(found@, left_out@, i)]
                is_only(found@, left_out@, i) ==> found@[i].file_type != Some(FileType::Directory),
        },
{
    let mut only: Option<usize> = None;
    let mut i: usize = 0;
    while i < found.len()
        invariant
            i <= found@.len(),
            match only {
                Some(only) => only < i && forall|k: int|
                    0 <= k < i ==> (has_name(left_out@, (#[trigger] found@[k]).name@) <==> k
                        != only),
                None => forall|k: int|
                    0 <= k < i ==> has_name(left_out@, (#[trigger] found@[k]).name@),
            },
        decreases found.len() - i,
    {
        if !contains_name(left_out, &found[i].name) {
            if let Some(first) = only {
                proof {
                    assert forall|k: int| #![trigger is_only(found@, left_out@, k)] !is_only(
                        found@,
                        left_out@,
                        k,
                    ) by {
                        assert(!has_name(left_out@, found@[i as int].name@));
                        assert(!has_name(left_out@, found@[first as int].name@));
                    }
                }
                return None;
            }
            only = Some(i);
        }
        i += 1;
    }
    match only {
        Some(first) => match found[first].file_type {
            Some(FileType::Directory) => Some(first),
            _ => {
                proof {
                    assert forall|k: int|
                        #![trigger is_only(found@, left_out@, k)]
                        is_only(found@, left_out@, k) implies found@[k].file_type != Some(
                        FileType::Directory,
                    ) by {
                        assert(!has_name(left_out@, found@[first as int].name@));
                    }
                }
                None
            },
        },
        None => {
            proof {
                assert forall|k: int| #![trigger is_only(found@, left_out@, k)] !is_only(
                    found@,
                    left_out@,
                    k,
                ) by {
                    if 0 <= k < found@.len() {
                        assert(has_name(left_out@, found@[k].name@));
                    }
                }
            }
            None
        },
    }
}

/// A listing is in the order of the tree.
pub proof fn law_listings_are_in_order(
    found: Seq<Found>,
    left_out: Seq<Vec<u8>>,
    kept: Seq<Vec<u8>>,
    options: ListOptions,
)
    ensures
        crate::sorting::in_order(
            sorted_by(
                found_entries(found, left_out, kept, options.executables),
                entry_before(options.sort),
            ),
            entry_before(options.sort),
        ),
{
    let le = entry_before(options.sort);
    assert forall|a: Entry, b: Entry, c: Entry| #[trigger] le(a, b) && #[trigger] le(b, c) implies le(
        a,
        c,
    ) by {
        crate::order::law_entry_order_is_total(
            options.sort,
            lossy(a.name@),
            a.kind.group_of(),
            lossy(b.name@),
            b.kind.group_of(),
            lossy(c.name@),
            c.kind.group_of(),
        );
    }
    assert forall|a: Entry, b: Entry| #[trigger] le(a, b) || le(b, a) by {
        crate::order::law_entry_order_is_total(
            options.sort,
            lossy(a.name@),
            a.kind.group_of(),
            lossy(b.name@),
            b.kind.group_of(),
            lossy(b.name@),
            b.kind.group_of(),
        );
    }
    crate::sorting::lemma_sorted_by(
        found_entries(found, left_out, kept, options.executables),
        le,
    );
}

/// What reading a directory finds makes a listing that can be merged: as no two of its entries have
/// the same name, no two listed ones have, and the probes of the listed ones are those made.
pub proof fn law_directories_have_listings(
    found: Seq<Found>,
    left_out: Seq<Vec<u8>>,
    kept: Seq<Vec<u8>>,
    options: ListOptions,
)
    requires
        forall|i: int, j: int|
            #![trigger found[i], found[j]]
            0 <= i < j < found.len() ==> found[i].name@ != found[j].name@,
        forall|i: int|
            0 <= i < found.len() ==> run_of_directories((#[trigger] found[i]).only_child),
    ensures
        ({
            let entries = sorted_by(
                found_entries(found, left_out, kept, options.executables),
                entry_before(options.sort),
            );
            distinct_names(entries) && runs_of_directories(entries)
        }),
{
    let pick = is_listed(left_out, options.executables);
    let le = entry_before(options.sort);
    let picked = select(found, pick);
    let listed = found_entries(found, left_out, kept, options.executables);
    let entries = sorted_by(listed, le);
    assert(found.no_duplicates()) by {
        assert forall|i: int, j: int|
            0 <= i < found.len() && 0 <= j < found.len() && i != j implies found[i] != found[j] by {
            if i < j {
                assert(found[i].name@ != found[j].name@);
            } else {
                assert(found[j].name@ != found[i].name@);
            }
        }
    }
    lemma_select(found, pick);
    lemma_select_distinct(found, pick);
    assert forall|i: int, j: int|
        #![trigger listed[i], listed[j]]
        0 <= i < listed.len() && 0 <= j < listed.len() && i != j implies listed[i].name@
        != listed[j].name@ by {
        let p = found.index_of(picked[i]);
        let q = found.index_of(picked[j]);
        assert(found[p] == picked[i] && found[q] == picked[j]);
        assert(picked[i] != picked[j]);
        if p < q {
            assert(found[p].name@ != found[q].name@);
        } else {
            assert(found[q].name@ != found[p].name@);
        }
    }
    assert(listed.no_duplicates()) by {
        assert forall|i: int, j: int|
            0 <= i < listed.len() && 0 <= j < listed.len() && i != j implies listed[i]
            != listed[j] by {
            assert(listed[i].name@ != listed[j].name@);
        }
    }
    crate::sorting::lemma_sorted_by_distinct(listed, le);
    assert forall|i: int| 0 <= i < entries.len() implies listed.contains(#[trigger] entries[i]) by {
        assert(entries.contains(entries[i]));
        crate::sorting::lemma_sorted_by_contains(listed, le, entries[i]);
    }
    assert forall|i: int, j: int|
        #![trigger entries[i], entries[j]]
        0 <= i < j < entries.len() implies entries[i].name@ != entries[j].name@ by {
        let p = listed.index_of(entries[i]);
        let q = listed.index_of(entries[j]);
        assert(listed[p] == entries[i] && listed[q] == entries[j]);
        assert(entries[i] != entries[j]);
        assert(listed[p].name@ != listed[q].name@);
    }
    assert forall|i: int| 0 <= i < entries.len() implies run_of_directories(
        (#[trigger] entries[i]).only_child,
    ) by {
        let p = listed.index_of(entries[i]);
        assert(listed[p] == entries[i]);
        let q = found.index_of(picked[p]);
        assert(found[q] == picked[p]);
    }
}

/// An entry is of the kind that the file system says it is. A link is one by what it leads to, and a
/// broken one if that is neither a directory nor a file. What is none of the kinds is not listed.
pub proof fn law_entries_are_what_the_file_system_says(target: Option<FileType>, executable: bool)
    ensures
        kind_of(FileType::Directory, target, executable) == Some(Kind::Directory),
        kind_of(FileType::File, target, executable) == Some(Kind::File { executable }),
        target == Some(FileType::Directory) ==> kind_of(FileType::Link, target, executable) == Some(
            Kind::Link(LinkTarget::Directory),
        ),
        target == Some(FileType::File) ==> kind_of(FileType::Link, target, executable) == Some(
            Kind::Link(LinkTarget::File),
        ),
        target != Some(FileType::Directory) && target != Some(FileType::File) ==> kind_of(
            FileType::Link,
            target,
            executable,
        ) == Some(Kind::Link(LinkTarget::Broken)),
        kind_of(FileType::Fifo, target, executable) == Some(Kind::Special(Special::Fifo)),
        kind_of(FileType::Socket, target, executable) == Some(Kind::Special(Special::Socket)),
        kind_of(FileType::BlockDevice, target, executable) == Some(
            Kind::Special(Special::BlockDevice),
        ),
        kind_of(FileType::CharDevice, target, executable) == Some(
            Kind::Special(Special::CharDevice),
        ),
        kind_of(FileType::Other, target, executable) is None,
{
}

/// A listing holds what was found and nothing else: every entry whose name is not left out and that
/// is of one of the kinds. Git ignores those whose names are not kept, only files found to be
/// executable are, if that was to be found out, and only directories have been probed.
pub proof fn law_listings_hold_what_is_found(
    found: Seq<Found>,
    left_out: Seq<Vec<u8>>,
    kept: Seq<Vec<u8>>,
    options: ListOptions,
    entries: Seq<Entry>,
    i: int,
)
    requires
        entries == sorted_by(
            found_entries(found, left_out, kept, options.executables),
            entry_before(options.sort),
        ),
        0 <= i < found.len(),
        !has_name(left_out, found[i].name@),
        found[i].file_type matches Some(file_type) && file_type != FileType::Other,
    ensures
        exists|k: int|
            {
                &&& 0 <= k < entries.len()
                &&& (#[trigger] entries[k]).name == found[i].name
                &&& entries[k].ignored <==> !has_name(kept, found[i].name@)
                &&& entries[k].kind == Kind::Directory <==> found[i].file_type == Some(
                    FileType::Directory,
                )
                &&& entries[k].kind == (Kind::File { executable: true }) <==> found[i].file_type
                    == Some(FileType::File) && found[i].executable && options.executables
                &&& found[i].file_type == Some(FileType::Directory) ==> entries[k].only_child
                    == found[i].only_child
                &&& found[i].file_type != Some(FileType::Directory) ==> entries[k].only_child
                    is None
            },
{
    let pick = is_listed(left_out, options.executables);
    let listed = select(found, pick);
    let unsorted = found_entries(found, left_out, kept, options.executables);
    let le = entry_before(options.sort);
    lemma_select(found, pick);
    assert(found.contains(found[i]) && pick(found[i]));
    assert(listed.contains(found[i]));
    let j = listed.index_of(found[i]);
    assert(listed[j] == found[i]);
    let entry = found[i].entry(kept, options.executables);
    assert(unsorted[j] == entry);
    assert(unsorted.contains(entry));
    crate::sorting::lemma_sorted_by_contains(unsorted, le, entry);
    let k = entries.index_of(entry);
    assert(entries[k] == entry);
}

/// What is listed was found, under a name that is not left out.
pub proof fn law_what_is_listed_was_found(
    found: Seq<Found>,
    left_out: Seq<Vec<u8>>,
    kept: Seq<Vec<u8>>,
    options: ListOptions,
    entries: Seq<Entry>,
    k: int,
)
    requires
        entries == sorted_by(
            found_entries(found, left_out, kept, options.executables),
            entry_before(options.sort),
        ),
        0 <= k < entries.len(),
    ensures
        exists|i: int|
            {
                &&& 0 <= i < found.len()
                &&& entries[k].name == (#[trigger] found[i]).name
                &&& !has_name(left_out, found[i].name@)
                &&& found[i].file_type is Some && found[i].file_type != Some(FileType::Other)
            },
{
    let pick = is_listed(left_out, options.executables);
    let listed = select(found, pick);
    let unsorted = found_entries(found, left_out, kept, options.executables);
    let le = entry_before(options.sort);
    lemma_select(found, pick);
    assert(entries.contains(entries[k]));
    crate::sorting::lemma_sorted_by_contains(unsorted, le, entries[k]);
    let j = unsorted.index_of(entries[k]);
    assert(found.contains(listed[j]) && pick(listed[j]));
    let i = found.index_of(listed[j]);
    assert(found[i] == listed[j]);
}

/// No entry of a listing comes after one that is listed later, in the order of the tree.
pub proof fn law_listed_entries_are_in_tree_order(
    found: Seq<Found>,
    left_out: Seq<Vec<u8>>,
    kept: Seq<Vec<u8>>,
    options: ListOptions,
    entries: Seq<Entry>,
    i: int,
    j: int,
)
    requires
        entries == sorted_by(
            found_entries(found, left_out, kept, options.executables),
            entry_before(options.sort),
        ),
        0 <= i < j < entries.len(),
    ensures
        !(entry_order(
            options.sort,
            lossy(entries[i].name@),
            entries[i].kind.group_of(),
            lossy(entries[j].name@),
            entries[j].kind.group_of(),
        ) is Greater),
{
    law_listings_are_in_order(found, left_out, kept, options);
    assert(entry_before(options.sort)(entries[i], entries[j]));
}

} // verus!
