//! The names of files and the paths made of them.
//!
//! A name is a sequence of bytes, which need not be valid UTF-8. Paths are written with slashes.

use vstd::prelude::*;
use vstd::utf8::{decode_utf8, valid_utf8};

verus! {

/// The text of a name that is not valid UTF-8, with replacement chars for what is not.
pub uninterp spec fn replaced(name: Seq<u8>) -> Seq<char>;

/// The text of a name, with replacement chars for what is not valid UTF-8.
pub open spec fn lossy(name: Seq<u8>) -> Seq<char> {
    if valid_utf8(name) {
        decode_utf8(name)
    } else {
        replaced(name)
    }
}

/// The text of a name that `String::from_utf8_lossy` makes: the name itself if it is valid UTF-8. A
/// replacement char stands for at least one byte, so there are no more chars than bytes.
#[verifier::external_body]
pub(crate) fn name_text(name: &Vec<u8>) -> (text: String)
    ensures
        valid_utf8(name@) ==> text@ == decode_utf8(name@),
        !valid_utf8(name@) ==> text@ == replaced(name@),
        text@.len() <= name@.len(),
{
    String::from_utf8_lossy(name).into_owned()
}

/// Whether the names are the same.
pub fn same_name(a: &Vec<u8>, b: &Vec<u8>) -> (same: bool)
    ensures
        same == (a@ == b@),
{
    if a.len() != b.len() {
        return false;
    }
    let mut i: usize = 0;
    while i < a.len()
        invariant
            a.len() == b.len(),
            i <= a.len(),
            forall|k: int| 0 <= k < i ==> a@[k] == b@[k],
        decreases a.len() - i,
    {
        if a[i] != b[i] {
            return false;
        }
        i += 1;
    }
    assert(a@ =~= b@);
    true
}

/// A copy of a name.
pub fn copy_name(name: &Vec<u8>) -> (copy: Vec<u8>)
    ensures
        copy@ == name@,
{
    let mut copy: Vec<u8> = Vec::new();
    let mut i: usize = 0;
    while i < name.len()
        invariant
            i <= name.len(),
            copy@ == name@.take(i as int),
        decreases name.len() - i,
    {
        copy.push(name[i]);
        i += 1;
        assert(copy@ =~= name@.take(i as int));
    }
    assert(name@.take(i as int) =~= name@);
    copy
}

/// A part of a path.
#[derive(Clone, Debug, PartialEq, Eq)]
pub enum Component {
    /// The slash that an absolute path starts with.
    RootDir,
    /// The dot that a path starts with.
    CurDir,
    /// Two dots.
    ParentDir,
    Normal(Vec<u8>),
}

/// What a part of a path is.
pub ghost enum Part {
    RootDir,
    CurDir,
    ParentDir,
    Normal(Seq<u8>),
}

impl Component {
    pub open spec fn view(&self) -> Part {
        match self {
            Component::RootDir => Part::RootDir,
            Component::CurDir => Part::CurDir,
            Component::ParentDir => Part::ParentDir,
            Component::Normal(name) => Part::Normal(name@),
        }
    }

    /// Whether the parts are the same.
    pub fn same(&self, other: &Component) -> (same: bool)
        ensures
            same == (self@ == other@),
    {
        match (self, other) {
            (Component::RootDir, Component::RootDir) => true,
            (Component::CurDir, Component::CurDir) => true,
            (Component::ParentDir, Component::ParentDir) => true,
            (Component::Normal(a), Component::Normal(b)) => same_name(a, b),
            _ => false,
        }
    }

    /// The bytes that the part is written as.
    pub fn name(&self) -> (name: Vec<u8>)
        ensures
            name@ == part_name(self@),
    {
        let mut name: Vec<u8> = Vec::new();
        match self {
            Component::RootDir => {
                name.push(0x2f);
                assert(name@ =~= seq![0x2fu8]);
            },
            Component::CurDir => {
                name.push(0x2e);
                assert(name@ =~= seq![0x2eu8]);
            },
            Component::ParentDir => {
                name.push(0x2e);
                name.push(0x2e);
                assert(name@ =~= seq![0x2eu8, 0x2eu8]);
            },
            Component::Normal(bytes) => {
                name = copy_name(bytes);
            },
        }
        name
    }

    pub fn copy(&self) -> (copy: Component)
        ensures
            copy@ == self@,
    {
        match self {
            Component::RootDir => Component::RootDir,
            Component::CurDir => Component::CurDir,
            Component::ParentDir => Component::ParentDir,
            Component::Normal(name) => Component::Normal(copy_name(name)),
        }
    }
}

/// The bytes that a part of a path is written as.
pub open spec fn part_name(part: Part) -> Seq<u8> {
    match part {
        Part::RootDir => seq![0x2fu8],
        Part::CurDir => seq![0x2eu8],
        Part::ParentDir => seq![0x2eu8, 0x2eu8],
        Part::Normal(name) => name,
    }
}

/// A path, by its parts.
#[derive(Clone, Debug, PartialEq, Eq)]
pub struct TreePath {
    pub components: Vec<Component>,
}

/// The parts of a path.
pub open spec fn parts_of(components: Seq<Component>) -> Seq<Part> {
    components.map_values(|component: Component| component@)
}

impl TreePath {
    pub open spec fn view(&self) -> Seq<Part> {
        parts_of(self.components@)
    }

    /// The empty path.
    pub fn empty() -> (path: TreePath)
        ensures
            path@ == Seq::<Part>::empty(),
    {
        let path = TreePath { components: Vec::new() };
        assert(path@ =~= Seq::<Part>::empty());
        path
    }

    pub fn copy(&self) -> (copy: TreePath)
        ensures
            copy@ == self@,
    {
        self.prefix(self.components.len())
    }

    /// The first `n` parts of the path.
    pub fn prefix(&self, n: usize) -> (prefix: TreePath)
        requires
            n <= self@.len(),
        ensures
            prefix@ == self@.take(n as int),
    {
        let mut components: Vec<Component> = Vec::new();
        let mut i: usize = 0;
        while i < n
            invariant
                i <= n <= self.components@.len(),
                parts_of(components@) == self@.take(i as int),
            decreases n - i,
        {
            let ghost before = parts_of(components@);
            components.push(self.components[i].copy());
            assert(parts_of(components@) =~= before.push(self@[i as int]));
            i += 1;
            assert(parts_of(components@) =~= self@.take(i as int));
        }
        TreePath { components }
    }

    /// The path without its last part; none for the empty path.
    pub fn parent(&self) -> (parent: Option<TreePath>)
        ensures
            match parent {
                Some(parent) => self@.len() > 0 && parent@ == self@.drop_last(),
                None => self@.len() == 0,
            },
    {
        if self.components.len() == 0 {
            None
        } else {
            let parent: TreePath = self.prefix(self.components.len() - 1);
            assert(parent@ =~= self@.drop_last());
            Some(parent)
        }
    }

    /// The path with one more part.
    pub fn join(&self, name: &Vec<u8>) -> (path: TreePath)
        ensures
            path@ == self@.push(Part::Normal(name@)),
    {
        let mut path: TreePath = self.copy();
        path.components.push(Component::Normal(copy_name(name)));
        assert(path@ =~= self@.push(Part::Normal(name@)));
        path
    }

    /// Whether the paths are the same.
    pub fn same(&self, other: &TreePath) -> (same: bool)
        ensures
            same == (self@ == other@),
    {
        if self.components.len() != other.components.len() {
            return false;
        }
        let within: bool = self.starts_with(other);
        assert(other@.take(other@.len() as int) =~= other@);
        assert(self@.take(self@.len() as int) =~= self@);
        within
    }

    /// Whether the path starts with all parts of `base`.
    pub fn starts_with(&self, base: &TreePath) -> (starts: bool)
        ensures
            starts == (base@.len() <= self@.len() && self@.take(base@.len() as int) == base@),
    {
        if base.components.len() > self.components.len() {
            return false;
        }
        let mut i: usize = 0;
        while i < base.components.len()
            invariant
                base.components@.len() <= self.components@.len(),
                i <= base.components@.len(),
                forall|k: int| 0 <= k < i ==> #[trigger] self@[k] == base@[k],
            decreases base.components.len() - i,
        {
            if !self.components[i].same(&base.components[i]) {
                assert(self@.take(base@.len() as int)[i as int] == self@[i as int]);
                return false;
            }
            i += 1;
        }
        assert(self@.take(base@.len() as int) =~= base@);
        true
    }

    /// What is left of the path after the parts of `base`, if it starts with them.
    pub fn strip_prefix(&self, base: &TreePath) -> (rest: Option<TreePath>)
        ensures
            match rest {
                Some(rest) => base@.len() <= self@.len() && self@.take(base@.len() as int) == base@
                    && rest@ == self@.skip(base@.len() as int),
                None => !(base@.len() <= self@.len() && self@.take(base@.len() as int) == base@),
            },
    {
        if !self.starts_with(base) {
            return None;
        }
        let start: usize = base.components.len();
        let mut components: Vec<Component> = Vec::new();
        let mut i: usize = start;
        while i < self.components.len()
            invariant
                start <= i <= self.components@.len(),
                parts_of(components@) == self@.subrange(start as int, i as int),
            decreases self.components.len() - i,
        {
            let ghost before = parts_of(components@);
            components.push(self.components[i].copy());
            assert(parts_of(components@) =~= before.push(self@[i as int]));
            i += 1;
            assert(parts_of(components@) =~= self@.subrange(start as int, i as int));
        }
        let rest = TreePath { components };
        assert(rest@ =~= self@.skip(start as int));
        Some(rest)
    }
}

/// The bytes that a path is written as: its parts, with slashes between them.
pub open spec fn written(parts: Seq<Part>) -> Seq<u8>
    decreases parts.len(),
{
    if parts.len() == 0 {
        Seq::empty()
    } else {
        let head = written(parts.drop_last());
        let name = part_name(parts.last());
        if head.len() == 0 || head.last() == 0x2f {
            head + name
        } else {
            head + seq![0x2fu8] + name
        }
    }
}

/// The text of a path.
pub open spec fn path_text(parts: Seq<Part>) -> Seq<char> {
    lossy(written(parts))
}

impl TreePath {
    /// The bytes that the path is written as.
    pub fn bytes(&self) -> (bytes: Vec<u8>)
        ensures
            bytes@ == written(self@),
    {
        let mut bytes: Vec<u8> = Vec::new();
        let mut i: usize = 0;
        while i < self.components.len()
            invariant
                i <= self.components@.len(),
                bytes@ == written(self@.take(i as int)),
            decreases self.components.len() - i,
        {
            assert(self@.take(i + 1).drop_last() =~= self@.take(i as int));
            assert(self@.take(i + 1).last() == self.components@[i as int]@);
            let ghost head = bytes@;
            if bytes.len() > 0 && bytes[bytes.len() - 1] != 0x2f {
                bytes.push(0x2f);
                assert(bytes@ =~= head + seq![0x2fu8]);
            }
            let mut name: Vec<u8> = self.components[i].name();
            bytes.append(&mut name);
            i += 1;
            assert(bytes@ =~= written(self@.take(i as int)));
        }
        assert(self@.take(i as int) =~= self@);
        bytes
    }

    /// The text of the path.
    pub fn text(&self) -> (text: String)
        ensures
            text@ == path_text(self@),
            text@.len() <= written(self@).len(),
    {
        name_text(&self.bytes())
    }
}

/// The path `rest`, seen from `base`: `rest` itself if it is absolute. A dot at its start counts for
/// nothing then.
pub open spec fn joined(base: Seq<Part>, rest: Seq<Part>) -> Seq<Part> {
    if rest.len() > 0 && rest[0] is RootDir {
        rest
    } else if rest.len() > 0 && rest[0] is CurDir && base.len() > 0 {
        base + rest.skip(1)
    } else {
        base + rest
    }
}

impl TreePath {
    /// The path `rest`, seen from this one.
    pub fn join_path(&self, rest: &TreePath) -> (path: TreePath)
        ensures
            path@ == joined(self@, rest@),
    {
        let mut from: usize = 0;
        if rest.components.len() > 0 {
            assert(rest@[0] == rest.components@[0]@);
            match &rest.components[0] {
                Component::RootDir => {
                    return rest.copy();
                },
                Component::CurDir => {
                    if self.components.len() > 0 {
                        from = 1;
                    }
                },
                _ => {},
            }
        }
        let mut path: TreePath = self.copy();
        let ghost added = rest@.skip(from as int);
        let mut i: usize = from;
        assert(path@ =~= self@ + added.take(0));
        while i < rest.components.len()
            invariant
                from <= i <= rest.components@.len(),
                added == rest@.skip(from as int),
                path@ == self@ + added.take(i - from),
            decreases rest.components.len() - i,
        {
            let ghost before = path@;
            path.components.push(rest.components[i].copy());
            assert(path@ =~= before.push(rest@[i as int]));
            i += 1;
            assert(path@ =~= self@ + added.take(i - from));
        }
        assert(added.take(i - from) =~= added);
        assert(from == 0 ==> added =~= rest@);
        path
    }
}

/// Whether a byte separates the parts of a path: a slash, and with `backslash` a backslash too.
pub open spec fn separates(byte: u8, backslash: bool) -> bool {
    byte == 0x2f || (backslash && byte == 0x5c)
}

/// Where the piece of a written path that starts at `from` ends.
pub open spec fn piece_end(path: Seq<u8>, from: int, backslash: bool) -> int
    decreases path.len() - from,
{
    if from >= path.len() {
        path.len() as int
    } else if separates(path[from], backslash) {
        from
    } else {
        piece_end(path, from + 1, backslash)
    }
}

/// The part that a piece of a written path between separators is, if it is one: nothing between two
/// of them is none, and a dot is one only at the start.
pub open spec fn part_of_piece(piece: Seq<u8>, first: bool) -> Option<Part> {
    if piece.len() == 0 {
        None
    } else if piece == seq![0x2eu8] {
        if first {
            Some(Part::CurDir)
        } else {
            None
        }
    } else if piece == seq![0x2eu8, 0x2eu8] {
        Some(Part::ParentDir)
    } else {
        Some(Part::Normal(piece))
    }
}

/// The parts of the written path `path` from `from` on.
pub open spec fn parsed_from(path: Seq<u8>, from: int, backslash: bool) -> Seq<Part>
    decreases path.len() - from,
    when 0 <= from <= path.len()
    via parsed_decreases
{
    let end = piece_end(path, from, backslash);
    let head = match part_of_piece(path.subrange(from, end), from == 0) {
        Some(part) => seq![part],
        None => Seq::empty(),
    };
    if end >= path.len() {
        head
    } else {
        head + parsed_from(path, end + 1, backslash)
    }
}

#[via_fn]
proof fn parsed_decreases(path: Seq<u8>, from: int, backslash: bool) {
    lemma_piece_end(path, from, backslash);
}

/// The parts of a written path.
pub open spec fn parsed(path: Seq<u8>, backslash: bool) -> Seq<Part> {
    (if path.len() > 0 && separates(path[0], backslash) {
        seq![Part::RootDir]
    } else {
        Seq::empty()
    }) + parsed_from(path, 0, backslash)
}

proof fn lemma_piece_end(path: Seq<u8>, from: int, backslash: bool)
    requires
        0 <= from <= path.len(),
    ensures
        from <= piece_end(path, from, backslash) <= path.len(),
    decreases path.len() - from,
{
    if from < path.len() && !separates(path[from], backslash) {
        lemma_piece_end(path, from + 1, backslash);
    }
}

/// The path that is written as `path`: a slash at its start makes it absolute, slashes separate its
/// parts, and a dot counts only at its start.
pub fn parse_path(path: &[u8]) -> (parsed_path: TreePath)
    ensures
        parsed_path@ == parsed(path@, false),
{
    split_path(path, false)
}

fn is_separating(byte: u8, backslash: bool) -> (separating: bool)
    ensures
        separating == separates(byte, backslash),
{
    byte == 0x2f || (backslash && byte == 0x5c)
}

/// The path that is written as `path`, where with `backslash` a backslash counts as a slash.
pub fn split_path(path: &[u8], backslash: bool) -> (parsed_path: TreePath)
    ensures
        parsed_path@ == parsed(path@, backslash),
{
    let ghost p = path@;
    let mut components: Vec<Component> = Vec::new();
    if path.len() > 0 && is_separating(path[0], backslash) {
        components.push(Component::RootDir);
    }
    let ghost head = parts_of(components@);
    assert(head =~= (if p.len() > 0 && separates(p[0], backslash) {
        seq![Part::RootDir]
    } else {
        Seq::empty()
    }));
    let mut from: usize = 0;
    loop
        invariant
            p == path@,
            from <= p.len(),
            parts_of(components@) + parsed_from(p, from as int, backslash) == parsed(p, backslash),
        decreases p.len() - from,
    {
        let mut piece: Vec<u8> = Vec::new();
        let mut end: usize = from;
        while end < path.len() && !is_separating(path[end], backslash)
            invariant
                p == path@,
                from <= end <= p.len(),
                piece_end(p, from as int, backslash) == piece_end(p, end as int, backslash),
                piece@ == p.subrange(from as int, end as int),
            decreases p.len() - end,
        {
            piece.push(path[end]);
            end += 1;
            assert(piece@ =~= p.subrange(from as int, end as int));
        }
        let ghost before = parts_of(components@);
        let ghost part = part_of_piece(piece@, from == 0);
        let component: Option<Component> = if piece.len() == 0 {
            None
        } else if piece.len() == 1 && piece[0] == 0x2e {
            assert(piece@ =~= seq![0x2eu8]);
            if from == 0 {
                Some(Component::CurDir)
            } else {
                None
            }
        } else if piece.len() == 2 && piece[0] == 0x2e && piece[1] == 0x2e {
            assert(piece@ =~= seq![0x2eu8, 0x2eu8]);
            Some(Component::ParentDir)
        } else {
            Some(Component::Normal(piece))
        };
        match component {
            Some(component) => {
                assert(part == Some(component@));
                components.push(component);
                assert(parts_of(components@) =~= before.push(component@));
                assert(before.push(component@) =~= before + seq![component@]);
            },
            None => {
                assert(part is None);
                assert(before =~= before + Seq::<Part>::empty());
            },
        }
        let ghost this = match part {
            Some(part) => seq![part],
            None => Seq::empty(),
        };
        assert(parts_of(components@) == before + this);
        if end >= path.len() {
            assert(parsed_from(p, from as int, backslash) == this);
            return TreePath { components };
        }
        proof {
            let rest = parsed_from(p, end as int + 1, backslash);
            assert(parsed_from(p, from as int, backslash) == this + rest);
            assert(before + (this + rest) =~= (before + this) + rest);
        }
        from = end + 1;
    }
}

/// A relative path is seen from another one by going on from there, and an absolute path is itself. A
/// dot at the start of a path counts for nothing.
pub proof fn law_paths_go_on_from_others(base: Seq<Part>, rest: Seq<Part>)
    ensures
        rest.len() == 0 ==> joined(base, rest) == base,
        rest.len() > 0 && (rest[0] is Normal || rest[0] is ParentDir) ==> joined(base, rest)
            == base + rest,
        rest.len() > 0 && rest[0] is RootDir ==> joined(base, rest) == rest,
        rest.len() > 0 && rest[0] is CurDir && base.len() > 0 ==> joined(base, rest) == base
            + rest.subrange(1, rest.len() as int),
{
    if rest.len() == 0 {
        assert(base + rest =~= base);
    } else {
        assert(rest.skip(1) =~= rest.subrange(1, rest.len() as int));
    }
}

/// Whether `name` is one that a path can have: it is not empty, has no slash, and is neither a dot nor
/// two of them.
pub open spec fn is_name(name: Seq<u8>) -> bool {
    &&& name.len() > 0
    &&& !name.contains(0x2f)
    &&& name != seq![0x2eu8]
    &&& name != seq![0x2eu8, 0x2eu8]
}

/// Whether a path is made of names.
pub open spec fn made_of_names(path: Seq<Part>) -> bool {
    forall|i: int| 0 <= i < path.len() ==> (#[trigger] path[i] matches Part::Normal(name) && is_name(name))
}

proof fn lemma_piece_of_name(head: Seq<u8>, name: Seq<u8>, tail: Seq<u8>, from: int)
    requires
        head.len() <= from <= head.len() + name.len(),
        !name.contains(0x2f),
        tail.len() > 0 ==> tail[0] == 0x2f,
    ensures
        piece_end(head + name + tail, from, false) == head.len() + name.len(),
    decreases head.len() + name.len() - from,
{
    let all = head + name + tail;
    if from < head.len() + name.len() {
        assert(all[from] == name[from - head.len()]);
        assert(name.contains(name[from - head.len()]));
        lemma_piece_of_name(head, name, tail, from + 1);
    } else if tail.len() > 0 {
        assert(all[from] == tail[0]);
    }
}

/// The names, each after a slash.
spec fn after_slashes(path: Seq<Part>) -> Seq<u8>
    decreases path.len(),
{
    if path.len() == 0 {
        Seq::empty()
    } else {
        seq![0x2fu8] + part_name(path[0]) + after_slashes(path.skip(1))
    }
}

proof fn lemma_names_below(path: Seq<Part>)
    requires
        made_of_names(path),
        path.len() > 0,
    ensures
        made_of_names(path.skip(1)),
        path[0] is Normal,
        is_name(path[0]->Normal_0),
{
    assert forall|i: int| 0 <= i < path.skip(1).len() implies (#[trigger] path.skip(1)[i] matches
        Part::Normal(name) && is_name(name)) by {
        assert(path.skip(1)[i] == path[i + 1]);
    }
    assert(path[0] is Normal);
}

proof fn lemma_parsed_after_slashes(head: Seq<u8>, path: Seq<Part>)
    requires
        made_of_names(path),
        path.len() > 0,
    ensures
        parsed_from(head + after_slashes(path), head.len() as int + 1, false) == path,
    decreases path.len(),
{
    lemma_names_below(path);
    let name = path[0]->Normal_0;
    let rest = path.skip(1);
    let tail = after_slashes(rest);
    let front = head + seq![0x2fu8];
    let all = head + after_slashes(path);
    let from = head.len() as int + 1;
    assert(all =~= front + name + tail);
    lemma_piece_of_name(front, name, tail, from);
    let end = from + name.len();
    assert(all.subrange(from, end) =~= name);
    if rest.len() > 0 {
        assert(all =~= (front + name) + tail);
        lemma_parsed_after_slashes(front + name, rest);
        assert(seq![path[0]] + rest =~= path);
    } else {
        assert(all.len() == end);
        assert(seq![path[0]] =~= path);
    }
}

proof fn lemma_written_names(path: Seq<Part>)
    requires
        made_of_names(path),
        path.len() > 0,
    ensures
        written(path) == part_name(path[0]) + after_slashes(path.skip(1)),
        written(path).len() > 0,
        written(path).last() != 0x2f,
    decreases path.len(),
{
    let n = path.len() as int;
    let last = path[n - 1];
    assert(last matches Part::Normal(name) && is_name(name));
    let name = last->Normal_0;
    assert(name.contains(name[name.len() - 1]));
    if n == 1 {
        assert(written(path.drop_last()) =~= Seq::empty());
        assert(written(path) =~= name);
        assert(path.skip(1) =~= Seq::empty());
        assert(part_name(path[0]) + after_slashes(path.skip(1)) =~= name);
    } else {
        let init = path.drop_last();
        assert forall|i: int| 0 <= i < init.len() implies (#[trigger] init[i] matches Part::Normal(
            name,
        ) && is_name(name)) by {
            assert(init[i] == path[i]);
        }
        lemma_written_names(init);
        assert(path.skip(1) =~= init.skip(1).push(last));
        lemma_after_slashes_push(init.skip(1), last);
        assert(written(path) =~= part_name(path[0]) + after_slashes(path.skip(1)));
        assert(written(path).last() == name[name.len() - 1]);
    }
}

proof fn lemma_after_slashes_push(path: Seq<Part>, last: Part)
    ensures
        after_slashes(path.push(last)) == after_slashes(path) + seq![0x2fu8] + part_name(last),
    decreases path.len(),
{
    if path.len() == 0 {
        assert(path.push(last).skip(1) =~= Seq::empty());
        assert(after_slashes(Seq::empty()) =~= Seq::empty());
        assert(path.push(last)[0] == last);
        assert(after_slashes(path.push(last)) =~= seq![0x2fu8] + part_name(last));
        assert(after_slashes(path) + seq![0x2fu8] + part_name(last) =~= seq![0x2fu8] + part_name(
            last,
        ));
    } else {
        lemma_after_slashes_push(path.skip(1), last);
        assert(path.push(last).skip(1) =~= path.skip(1).push(last));
        assert(after_slashes(path.push(last)) =~= after_slashes(path) + seq![0x2fu8] + part_name(
            last,
        ));
    }
}

/// A relative path that is made of names is read again as it was written.
pub proof fn law_written_paths_are_read_again(path: Seq<Part>)
    requires
        made_of_names(path),
        path.len() > 0,
    ensures
        parsed(written(path), false) == path,
{
    lemma_written_names(path);
    lemma_names_below(path);
    let name = path[0]->Normal_0;
    let rest = path.skip(1);
    let tail = after_slashes(rest);
    let all = written(path);
    assert(all =~= Seq::<u8>::empty() + name + tail);
    lemma_piece_of_name(Seq::empty(), name, tail, 0);
    assert(all.subrange(0, name.len() as int) =~= name);
    assert(all[0] == name[0]);
    assert(name.contains(name[0]));
    if rest.len() > 0 {
        assert(all =~= name + tail);
        lemma_parsed_after_slashes(name, rest);
        assert(seq![path[0]] + rest =~= path);
    } else {
        assert(seq![path[0]] =~= path);
    }
    assert(parsed(all, false) =~= path);
}

/// Between separators, nothing is no part, two dots are the parent directory, a dot counts only at the
/// start, and everything else is a name.
pub proof fn law_pieces_of_paths_are_parts(piece: Seq<u8>, first: bool)
    ensures
        piece.len() == 0 ==> part_of_piece(piece, first) is None,
        piece == seq![0x2eu8] && first ==> part_of_piece(piece, first) == Some(Part::CurDir),
        piece == seq![0x2eu8] && !first ==> part_of_piece(piece, first) is None,
        piece == seq![0x2eu8, 0x2eu8] ==> part_of_piece(piece, first) == Some(Part::ParentDir),
        piece.len() > 0 && piece != seq![0x2eu8] && piece != seq![0x2eu8, 0x2eu8]
            ==> part_of_piece(piece, first) == Some(Part::Normal(piece)),
{
    if piece == seq![0x2eu8, 0x2eu8] {
        assert(piece.len() == 2 && seq![0x2eu8].len() == 1);
    }
    if piece == seq![0x2eu8] {
        assert(piece.len() == 1);
    }
}

/// Paths are written with slashes between their parts, and an absolute one with a slash at its start.
pub proof fn law_paths_are_written_with_slashes(path: Seq<Part>, name: Seq<u8>)
    ensures
        written(seq![Part::Normal(name)]) == name,
        written(seq![Part::RootDir]) == seq![0x2fu8],
        written(path).len() > 0 && written(path).last() != 0x2f ==> written(
            path.push(Part::Normal(name)),
        ) == written(path) + seq![0x2fu8] + name,
        written(path).len() > 0 && written(path).last() == 0x2f ==> written(
            path.push(Part::Normal(name)),
        ) == written(path) + name,
{
    assert(path.push(Part::Normal(name)).drop_last() =~= path);
    assert(seq![Part::Normal(name)].drop_last() =~= Seq::empty());
    assert(seq![Part::RootDir].drop_last() =~= Seq::empty());
    assert(written(Seq::empty()) =~= Seq::empty());
    assert(Seq::<u8>::empty() + name =~= name);
    assert(Seq::<u8>::empty() + seq![0x2fu8] =~= seq![0x2fu8]);
}

/// A slash at the start makes a path absolute. A dot at its start is the current directory, and one
/// further on counts for nothing.
pub proof fn law_paths_are_read_by_their_start(name: Seq<u8>)
    requires
        is_name(name),
    ensures
        parsed(seq![0x2fu8] + name, false) == seq![Part::RootDir, Part::Normal(name)],
        parsed(seq![0x2eu8] + seq![0x2fu8] + name, false) == seq![
            Part::CurDir,
            Part::Normal(name),
        ],
        parsed(name + seq![0x2fu8] + seq![0x2eu8], false) == seq![Part::Normal(name)],
        parsed(name + seq![0x2fu8], false) == seq![Part::Normal(name)],
{
    let slash = seq![0x2fu8];
    let dot = seq![0x2eu8];
    let none = Seq::<u8>::empty();
    reveal_with_fuel(parsed_from, 3);
    assert(name.contains(name[0]));
    assert(!dot.contains(0x2f)) by {
        if dot.contains(0x2f) {
            assert(dot[dot.index_of(0x2f)] == 0x2f);
        }
    }
    assert(!none.contains(0x2f));
    let absolute = slash + name;
    assert(absolute =~= none + none + absolute);
    lemma_piece_of_name(none, none, absolute, 0);
    assert(absolute =~= slash + name + none);
    lemma_piece_of_name(slash, name, none, 1);
    assert(absolute.subrange(0, 0) =~= none);
    assert(absolute.subrange(1, absolute.len() as int) =~= name);
    assert(parsed(absolute, false) =~= seq![Part::RootDir, Part::Normal(name)]);
    let here = dot + slash + name;
    assert(here =~= none + dot + (slash + name));
    lemma_piece_of_name(none, dot, slash + name, 0);
    assert(here =~= (dot + slash) + name + none);
    lemma_piece_of_name(dot + slash, name, none, 2);
    assert(here.subrange(0, 1) =~= dot);
    assert(here.subrange(2, here.len() as int) =~= name);
    assert(parsed(here, false) =~= seq![Part::CurDir, Part::Normal(name)]);
    let n = name.len() as int;
    let dotted = name + slash + dot;
    assert(dotted =~= none + name + (slash + dot));
    lemma_piece_of_name(none, name, slash + dot, 0);
    assert(dotted =~= (name + slash) + dot + none);
    lemma_piece_of_name(name + slash, dot, none, n + 1);
    assert(dotted.subrange(0, n) =~= name);
    assert(dotted.subrange(n + 1, n + 2) =~= dot);
    assert(dotted[0] == name[0]);
    assert(parsed(dotted, false) =~= seq![Part::Normal(name)]);
    let ended = name + slash;
    assert(ended =~= none + name + slash);
    lemma_piece_of_name(none, name, slash, 0);
    assert(ended =~= (name + slash) + none + none);
    lemma_piece_of_name(name + slash, none, none, n + 1);
    assert(ended.subrange(0, n) =~= name);
    assert(ended.subrange(n + 1, n + 1) =~= none);
    assert(ended[0] == name[0]);
    assert(parsed(ended, false) =~= seq![Part::Normal(name)]);
}

} // verus!
