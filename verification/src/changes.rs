//! Edits of a text, and where they move its positions.

use vstd::prelude::*;

verus! {

/// One step of going through the old text.
#[derive(Clone, Debug, PartialEq, Eq)]
pub enum Operation {
    /// Keeps a number of chars.
    Retain(usize),
    /// Drops a number of chars.
    Delete(usize),
    /// Adds text. A deletion right after it makes the two of them a replacement.
    Insert(String),
}

/// On which side of inserted text a position stays.
#[derive(Clone, Copy, Debug, PartialEq, Eq, Structural)]
pub enum Assoc {
    Before,
    After,
}

impl Operation {
    /// The number of chars of the old text that the operation goes through.
    pub open spec fn old_len(self) -> nat {
        match self {
            Operation::Retain(n) => n as nat,
            Operation::Delete(n) => n as nat,
            Operation::Insert(_) => 0,
        }
    }

    /// The number of chars of the new text that the operation makes.
    pub open spec fn new_len(self) -> nat {
        match self {
            Operation::Retain(n) => n as nat,
            Operation::Delete(_) => 0,
            Operation::Insert(text) => text@.len(),
        }
    }
}

/// The length of the text that `ops` are for.
pub open spec fn old_len(ops: Seq<Operation>) -> nat
    decreases ops.len(),
{
    if ops.len() == 0 {
        0
    } else {
        ops[0].old_len() + old_len(ops.skip(1))
    }
}

/// The length of the text that `ops` make.
pub open spec fn new_len(ops: Seq<Operation>) -> nat
    decreases ops.len(),
{
    if ops.len() == 0 {
        0
    } else {
        ops[0].new_len() + new_len(ops.skip(1))
    }
}

/// The text that `ops` make of `s`.
pub open spec fn applied(ops: Seq<Operation>, s: Seq<char>) -> Seq<char>
    decreases ops.len(),
{
    if ops.len() == 0 {
        Seq::empty()
    } else {
        match ops[0] {
            Operation::Retain(n) => s.take(n as int) + applied(ops.skip(1), s.skip(n as int)),
            Operation::Delete(n) => applied(ops.skip(1), s.skip(n as int)),
            Operation::Insert(text) => text@ + applied(ops.skip(1), s),
        }
    }
}

/// Whether the first operation starts a replacement: inserted text for deleted text.
pub open spec fn replaces(ops: Seq<Operation>) -> bool {
    ops.len() > 1 && ops[0] is Insert && ops[1] is Delete
}

/// The ranges of the old text that change, the first of `ops` starting at `pos`.
pub open spec fn changed(ops: Seq<Operation>, pos: nat) -> Seq<(nat, nat)>
    decreases ops.len(),
{
    if ops.len() == 0 {
        Seq::empty()
    } else if replaces(ops) {
        let end = pos + ops[1].old_len();
        seq![(pos, end)] + changed(ops.skip(2), end)
    } else {
        let end = pos + ops[0].old_len();
        match ops[0] {
            Operation::Retain(_) => changed(ops.skip(1), end),
            _ => seq![(pos, end)] + changed(ops.skip(1), end),
        }
    }
}

/// Whether `pos` lies in or at an end of one of the ranges of the old text that `ops` change.
pub open spec fn touches(ops: Seq<Operation>, pos: nat) -> bool {
    exists|i: int|
        0 <= i < changed(ops, 0).len() && (#[trigger] changed(ops, 0)[i]).0 <= pos <= changed(
            ops,
            0,
        )[i].1
}

/// Where a position goes that is at the gap into which `text` is inserted.
pub open spec fn gap_offset(text: Seq<char>, assoc: Assoc) -> nat {
    match assoc {
        Assoc::Before => 0,
        Assoc::After => text.len(),
    }
}

/// Where `ops` move the position `pos` of the old text. A position in deleted text goes to where
/// this text was, one inside replaced text to the side `assoc` of the new text.
pub open spec fn moved(ops: Seq<Operation>, pos: nat, assoc: Assoc) -> nat
    decreases ops.len(),
{
    if ops.len() == 0 {
        0
    } else {
        match ops[0] {
            Operation::Retain(n) => if pos < n {
                pos
            } else {
                n as nat + moved(ops.skip(1), (pos - n) as nat, assoc)
            },
            Operation::Delete(n) => if pos < n {
                0
            } else {
                moved(ops.skip(1), (pos - n) as nat, assoc)
            },
            Operation::Insert(text) => if replaces(ops) {
                let n = ops[1].old_len();
                if pos < n {
                    if pos == 0 {
                        0
                    } else {
                        gap_offset(text@, assoc)
                    }
                } else {
                    text@.len() + moved(ops.skip(2), (pos - n) as nat, assoc)
                }
            } else if pos == 0 {
                gap_offset(text@, assoc)
            } else {
                text@.len() + moved(ops.skip(1), pos, assoc)
            },
        }
    }
}

proof fn lemma_changed_shift(ops: Seq<Operation>, pos: nat)
    ensures
        changed(ops, pos).len() == changed(ops, 0).len(),
        forall|i: int|
            #![trigger changed(ops, pos)[i]]
            #![trigger changed(ops, 0)[i]]
            0 <= i < changed(ops, 0).len() ==> changed(ops, pos)[i] == (
                changed(ops, 0)[i].0 + pos,
                changed(ops, 0)[i].1 + pos,
            ),
    decreases ops.len(),
{
    if ops.len() > 0 {
        if replaces(ops) {
            let n = ops[1].old_len();
            lemma_changed_shift(ops.skip(2), pos + n);
            lemma_changed_shift(ops.skip(2), n);
            assert(changed(ops, 0) == seq![(0nat, n)] + changed(ops.skip(2), n));
            assert(changed(ops, pos) == seq![(pos, pos + n)] + changed(ops.skip(2), pos + n));
        } else {
            let n = ops[0].old_len();
            lemma_changed_shift(ops.skip(1), pos + n);
            lemma_changed_shift(ops.skip(1), n);
            match ops[0] {
                Operation::Retain(_) => {},
                _ => {
                    assert(changed(ops, 0) == seq![(0nat, n)] + changed(ops.skip(1), n));
                    assert(changed(ops, pos) == seq![(pos, pos + n)] + changed(
                        ops.skip(1),
                        pos + n,
                    ));
                },
            }
        }
    }
}

/// What `touches` says of the first operation and of the rest.
proof fn lemma_touches(ops: Seq<Operation>, pos: nat)
    requires
        ops.len() > 0,
    ensures
        ops[0] matches Operation::Retain(n) ==> touches(ops, pos) == (pos >= n && touches(
            ops.skip(1),
            (pos - n) as nat,
        )),
        ops[0] matches Operation::Delete(n) ==> touches(ops, pos) == (pos <= n || touches(
            ops.skip(1),
            (pos - n) as nat,
        )),
        replaces(ops) ==> touches(ops, pos) == (pos <= ops[1].old_len() || touches(
            ops.skip(2),
            (pos - ops[1].old_len()) as nat,
        )),
        ops[0] is Insert && !replaces(ops) ==> touches(ops, pos) == (pos == 0 || touches(
            ops.skip(1),
            pos,
        )),
{
    let (n, rest) = if replaces(ops) {
        (ops[1].old_len(), ops.skip(2))
    } else {
        (ops[0].old_len(), ops.skip(1))
    };
    let all = changed(ops, 0);
    let later = changed(rest, 0);
    lemma_changed_shift(rest, n);
    let first: int = if ops[0] is Retain {
        0
    } else {
        1
    };
    assert(all =~= if ops[0] is Retain {
        changed(rest, n)
    } else {
        seq![(0nat, n)] + changed(rest, n)
    });
    assert(forall|i: int| 0 <= i < later.len() ==> #[trigger] all[i + first] == changed(rest, n)[i]);
    if touches(ops, pos) {
        let i = choose|i: int| 0 <= i < all.len() && (#[trigger] all[i]).0 <= pos <= all[i].1;
        if i >= first {
            assert(all[i] == changed(rest, n)[i - first]);
            assert(later[i - first].0 <= (pos - n) as nat <= later[i - first].1);
        }
    }
    if pos >= n && touches(rest, (pos - n) as nat) {
        let i = choose|i: int|
            0 <= i < later.len() && (#[trigger] later[i]).0 <= (pos - n) as nat <= later[i].1;
        assert(all[i + first].0 <= pos <= all[i + first].1);
    }
    if first == 1 && pos <= n {
        assert(all[0].0 <= pos <= all[0].1);
    }
}

pub proof fn lemma_applied_len(ops: Seq<Operation>, s: Seq<char>)
    requires
        old_len(ops) == s.len(),
    ensures
        applied(ops, s).len() == new_len(ops),
    decreases ops.len(),
{
    if ops.len() > 0 {
        lemma_applied_len(ops.skip(1), s.skip(ops[0].old_len() as int));
        assert(s.skip(0) =~= s);
    }
}

/// Positions stay inside the text.
pub proof fn lemma_moved_bound(ops: Seq<Operation>, pos: nat, assoc: Assoc)
    requires
        pos <= old_len(ops),
    ensures
        moved(ops, pos, assoc) <= new_len(ops),
    decreases ops.len(),
{
    if ops.len() > 0 {
        if replaces(ops) {
            reveal_with_fuel(old_len, 2);
            reveal_with_fuel(new_len, 2);
            reveal_with_fuel(applied, 2);
            assert(ops.skip(1).skip(1) =~= ops.skip(2));
            assert(ops.skip(1)[0] == ops[1]);
            if pos >= ops[1].old_len() {
                lemma_moved_bound(ops.skip(2), (pos - ops[1].old_len()) as nat, assoc);
            }
        } else if pos >= ops[0].old_len() {
            lemma_moved_bound(ops.skip(1), (pos - ops[0].old_len()) as nat, assoc);
        }
    }
}

/// A position that no change touches keeps the chars on both of its sides, and both sides of
/// inserted text are the same to it.
pub proof fn lemma_untouched(ops: Seq<Operation>, s: Seq<char>, pos: nat)
    requires
        old_len(ops) == s.len(),
        pos <= s.len(),
        !touches(ops, pos),
    ensures
        moved(ops, pos, Assoc::Before) == moved(ops, pos, Assoc::After),
        moved(ops, pos, Assoc::After) <= applied(ops, s).len(),
        pos < s.len() ==> moved(ops, pos, Assoc::After) < applied(ops, s).len() && applied(
            ops,
            s,
        )[moved(ops, pos, Assoc::After) as int] == s[pos as int],
        pos > 0 ==> moved(ops, pos, Assoc::After) > 0 && applied(ops, s)[moved(
            ops,
            pos,
            Assoc::After,
        ) - 1] == s[pos - 1],
        pos == 0 ==> moved(ops, pos, Assoc::After) == 0,
    decreases ops.len(),
{
    if ops.len() > 0 {
        lemma_touches(ops, pos);
        lemma_applied_len(ops, s);
        if replaces(ops) {
            let n = ops[1].old_len();
            reveal_with_fuel(old_len, 2);
            reveal_with_fuel(new_len, 2);
            reveal_with_fuel(applied, 2);
            assert(ops.skip(1).skip(1) =~= ops.skip(2));
            assert(ops.skip(1)[0] == ops[1]);
            let t = s.skip(n as int);
            lemma_untouched(ops.skip(2), t, (pos - n) as nat);
            assert(applied(ops, s) =~= ops[0]->Insert_0@ + applied(ops.skip(2), t));
            assert(t[pos - n - 1] == s[pos - 1]);
        } else {
            let n = ops[0].old_len();
            let t = s.skip(n as int);
            match ops[0] {
                Operation::Retain(_) => {
                    if pos >= n {
                        lemma_untouched(ops.skip(1), t, (pos - n) as nat);
                    }
                    assert(applied(ops, s) =~= s.take(n as int) + applied(ops.skip(1), t));
                    if pos == n && pos > 0 {
                        assert(moved(ops.skip(1), 0, Assoc::After) == 0);
                    }
                },
                Operation::Delete(_) => {
                    lemma_untouched(ops.skip(1), t, (pos - n) as nat);
                    assert(t[pos - n - 1] == s[pos - 1]);
                },
                Operation::Insert(text) => {
                    assert(t =~= s);
                    lemma_untouched(ops.skip(1), s, pos);
                    assert(applied(ops, s) =~= text@ + applied(ops.skip(1), s));
                },
            }
        }
    }
}

/// Positions that no change touches keep their order, and neighbours stay neighbours.
pub proof fn lemma_untouched_order(ops: Seq<Operation>, a: nat, b: nat, assoc: Assoc)
    requires
        a < b <= old_len(ops),
        !touches(ops, a),
        !touches(ops, b),
    ensures
        moved(ops, a, Assoc::After) < moved(ops, b, assoc),
        b == a + 1 ==> moved(ops, b, assoc) == moved(ops, a, Assoc::After) + 1,
    decreases ops.len(),
{
    if ops.len() > 0 {
        lemma_touches(ops, a);
        lemma_touches(ops, b);
        if replaces(ops) {
            let n = ops[1].old_len();
            reveal_with_fuel(old_len, 2);
            reveal_with_fuel(new_len, 2);
            reveal_with_fuel(applied, 2);
            assert(ops.skip(1).skip(1) =~= ops.skip(2));
            assert(ops.skip(1)[0] == ops[1]);
            lemma_untouched_order(ops.skip(2), (a - n) as nat, (b - n) as nat, assoc);
        } else {
            let n = ops[0].old_len();
            match ops[0] {
                Operation::Retain(_) => {
                    if a >= n {
                        lemma_untouched_order(ops.skip(1), (a - n) as nat, (b - n) as nat, assoc);
                    } else if b == n {
                        lemma_untouched_start(ops.skip(1), assoc);
                    }
                },
                _ => {
                    lemma_untouched_order(ops.skip(1), (a - n) as nat, (b - n) as nat, assoc);
                },
            }
        }
    }
}

/// Positions that no change touches and that have a char between them keep one.
pub proof fn lemma_untouched_gap(ops: Seq<Operation>, s: Seq<char>, a: nat, b: nat)
    requires
        old_len(ops) == s.len(),
        a + 2 <= b <= s.len(),
        !touches(ops, a),
        !touches(ops, b),
    ensures
        moved(ops, a, Assoc::After) + 2 <= moved(ops, b, Assoc::After),
    decreases ops.len(),
{
    if ops.len() > 0 {
        lemma_touches(ops, a);
        lemma_touches(ops, b);
        if replaces(ops) {
            let n = ops[1].old_len();
            reveal_with_fuel(old_len, 2);
            assert(ops.skip(1).skip(1) =~= ops.skip(2));
            assert(ops.skip(1)[0] == ops[1]);
            lemma_untouched_gap(ops.skip(2), s.skip(n as int), (a - n) as nat, (b - n) as nat);
        } else {
            let n = ops[0].old_len();
            let t = s.skip(n as int);
            if a >= n {
                lemma_untouched_gap(ops.skip(1), t, (a - n) as nat, (b - n) as nat);
            } else if b >= n {
                lemma_untouched(ops.skip(1), t, (b - n) as nat);
            }
        }
    }
}

proof fn lemma_untouched_start(ops: Seq<Operation>, assoc: Assoc)
    requires
        !touches(ops, 0),
    ensures
        moved(ops, 0, assoc) == 0,
    decreases ops.len(),
{
    if ops.len() > 0 {
        lemma_touches(ops, 0);
        match ops[0] {
            Operation::Retain(n) => {
                if n == 0 {
                    lemma_untouched_start(ops.skip(1), assoc);
                }
            },
            _ => {},
        }
    }
}

/// The lengths of the operations from `i` on.
proof fn lemma_skip_len(ops: Seq<Operation>, i: int)
    requires
        0 <= i < ops.len(),
    ensures
        old_len(ops.skip(i)) == ops[i].old_len() + old_len(ops.skip(i + 1)),
        new_len(ops.skip(i)) == ops[i].new_len() + new_len(ops.skip(i + 1)),
        ops.skip(i)[0] == ops[i],
        ops.skip(i).skip(1) == ops.skip(i + 1),
{
    assert(ops.skip(i).skip(1) =~= ops.skip(i + 1));
}

/// An edit of a whole text.
#[derive(Clone, Debug, PartialEq, Eq)]
pub struct ChangeSet {
    changes: Vec<Operation>,
}

impl ChangeSet {
    /// The operations of the edit.
    pub closed spec fn view(&self) -> Seq<Operation> {
        self.changes@
    }

    /// Whether the lengths of the old and of the new text are machine numbers.
    pub open spec fn fits(&self) -> bool {
        old_len(self@) <= usize::MAX && new_len(self@) <= usize::MAX
    }

    /// The edit that `changes` are the steps of.
    pub fn from_operations(changes: Vec<Operation>) -> (set: ChangeSet)
        ensures
            set@ == changes@,
    {
        ChangeSet { changes }
    }

    /// The steps of the edit.
    pub fn changes(&self) -> (changes: &Vec<Operation>)
        ensures
            changes@ == self@,
    {
        &self.changes
    }

    /// Whether the edit has no steps, which leaves the text as it is.
    pub fn is_empty(&self) -> (empty: bool)
        ensures
            empty == (self@.len() == 0),
    {
        self.changes.len() == 0
    }

    /// The ranges of the old text that change, in their order.
    pub fn changed_ranges(&self) -> (ranges: Vec<(usize, usize)>)
        requires
            self.fits(),
        ensures
            ranges@.len() == changed(self@, 0).len(),
            forall|i: int|
                0 <= i < ranges@.len() ==> (#[trigger] ranges@[i]).0 as nat == changed(
                    self@,
                    0,
                )[i].0 && ranges@[i].1 as nat == changed(self@, 0)[i].1,
    {
        let ghost ops = self@;
        let mut ranges: Vec<(usize, usize)> = Vec::new();
        let mut pos: usize = 0;
        let mut i: usize = 0;
        proof {
            assert(ops.skip(0) =~= ops);
        }
        while i < self.changes.len()
            invariant
                ops == self@,
                i <= ops.len(),
                pos + old_len(ops.skip(i as int)) == old_len(ops),
                old_len(ops) <= usize::MAX,
                ranges@.len() + changed(ops.skip(i as int), pos as nat).len() == changed(
                    ops,
                    0,
                ).len(),
                forall|k: int|
                    0 <= k < ranges@.len() ==> (#[trigger] ranges@[k]).0 as nat == changed(
                        ops,
                        0,
                    )[k].0 && ranges@[k].1 as nat == changed(ops, 0)[k].1,
                forall|k: int|
                    #![trigger changed(ops.skip(i as int), pos as nat)[k]]
                    0 <= k < changed(ops.skip(i as int), pos as nat).len() ==> changed(
                        ops.skip(i as int),
                        pos as nat,
                    )[k] == changed(ops, 0)[k + ranges@.len()],
            decreases ops.len() - i,
        {
            let ghost here = ops.skip(i as int);
            let ghost before = ranges@.len() as int;
            let ghost from = pos as nat;
            proof {
                lemma_skip_len(ops, i as int);
                if i + 1 < ops.len() {
                    lemma_skip_len(ops, i + 1);
                    assert(here.skip(2) =~= ops.skip(i + 2));
                    assert(here[1] == ops[i + 1]);
                }
            }
            let ghost tail = changed(here, from);
            match &self.changes[i] {
                Operation::Retain(n) => {
                    pos += *n;
                    i += 1;
                },
                Operation::Delete(n) => {
                    let start: usize = pos;
                    pos += *n;
                    i += 1;
                    ranges.push((start, pos));
                    proof {
                        let next = changed(ops.skip(i as int), pos as nat);
                        assert(tail == seq![(start as nat, pos as nat)] + next);
                        assert(tail[0] == changed(ops, 0)[0 + before]);
                        assert forall|k: int| 0 <= k < next.len() implies #[trigger] next[k]
                            == changed(ops, 0)[k + before + 1] by {
                            assert(tail[k + 1] == next[k]);
                        }
                    }
                },
                Operation::Insert(_) => {
                    let start: usize = pos;
                    i += 1;
                    if i < self.changes.len() {
                        if let Operation::Delete(n) = &self.changes[i] {
                            pos += *n;
                            i += 1;
                        }
                    }
                    ranges.push((start, pos));
                    proof {
                        let next = changed(ops.skip(i as int), pos as nat);
                        assert(tail == seq![(start as nat, pos as nat)] + next);
                        assert(tail[0] == changed(ops, 0)[0 + before]);
                        assert forall|k: int| 0 <= k < next.len() implies #[trigger] next[k]
                            == changed(ops, 0)[k + before + 1] by {
                            assert(tail[k + 1] == next[k]);
                        }
                    }
                },
            }
        }
        ranges
    }

    /// Where the edit moves `pos`.
    pub fn map_pos(&self, pos: usize, assoc: Assoc) -> (new: usize)
        requires
            self.fits(),
            pos <= old_len(self@),
        ensures
            new as nat == moved(self@, pos as nat, assoc),
            new <= new_len(self@),
    {
        let ghost ops = self@;
        let mut old_pos: usize = 0;
        let mut new_pos: usize = 0;
        let mut i: usize = 0;
        proof {
            assert(ops.skip(0) =~= ops);
            lemma_moved_bound(ops, pos as nat, assoc);
        }
        while i < self.changes.len()
            invariant
                ops == self@,
                i <= ops.len(),
                old_pos <= pos <= old_len(ops),
                old_pos + old_len(ops.skip(i as int)) == old_len(ops),
                new_pos + new_len(ops.skip(i as int)) == new_len(ops),
                old_len(ops) <= usize::MAX,
                new_len(ops) <= usize::MAX,
                moved(ops, pos as nat, assoc) <= new_len(ops),
                moved(ops, pos as nat, assoc) == new_pos + moved(
                    ops.skip(i as int),
                    (pos - old_pos) as nat,
                    assoc,
                ),
            decreases ops.len() - i,
        {
            let ghost here = ops.skip(i as int);
            proof {
                lemma_skip_len(ops, i as int);
                if i + 1 < ops.len() {
                    lemma_skip_len(ops, i + 1);
                    assert(here.skip(2) =~= ops.skip(i + 2));
                    assert(here[1] == ops[i + 1]);
                }
            }
            match &self.changes[i] {
                Operation::Retain(n) => {
                    if pos - old_pos < *n {
                        return new_pos + (pos - old_pos);
                    }
                    old_pos += *n;
                    new_pos += *n;
                    i += 1;
                },
                Operation::Delete(n) => {
                    if pos - old_pos < *n {
                        return new_pos;
                    }
                    old_pos += *n;
                    i += 1;
                },
                Operation::Insert(text) => {
                    let len: usize = text.as_str().unicode_len();
                    let offset: usize = match assoc {
                        Assoc::Before => 0,
                        Assoc::After => len,
                    };
                    i += 1;
                    let mut replaced: Option<usize> = None;
                    if i < self.changes.len() {
                        if let Operation::Delete(n) = &self.changes[i] {
                            replaced = Some(*n);
                        }
                    }
                    match replaced {
                        Some(n) => {
                            if pos - old_pos < n {
                                return if pos == old_pos {
                                    new_pos
                                } else {
                                    new_pos + offset
                                };
                            }
                            old_pos += n;
                            i += 1;
                        },
                        None => {
                            if pos == old_pos {
                                return new_pos + offset;
                            }
                        },
                    }
                    new_pos += len;
                },
            }
        }
        new_pos
    }
}

/// Inserting text moves the positions after it by its length and leaves those before it. A position
/// at the gap stays before the text or goes after it, as it is associated.
pub proof fn law_insertions_move_what_is_after(
    before: usize,
    text: String,
    after: usize,
    pos: nat,
    assoc: Assoc,
)
    requires
        pos <= before + after,
    ensures
        ({
            let ops = seq![
                Operation::Retain(before),
                Operation::Insert(text),
                Operation::Retain(after),
            ];
            let then = moved(ops, pos, assoc);
            &&& pos < before ==> then == pos
            &&& before < pos < before + after ==> then == pos + text@.len()
            &&& pos == before && assoc == Assoc::Before ==> then == pos
            &&& pos == before && assoc == Assoc::After ==> then == pos + text@.len()
        }),
{
    let ops = seq![Operation::Retain(before), Operation::Insert(text), Operation::Retain(after)];
    assert(ops.skip(1)[0] == ops[1]);
    assert(ops.skip(1).skip(1)[0] == ops[2]);
    assert(ops.skip(1)[1] == ops[2]);
    reveal_with_fuel(moved, 4);
}

/// Deleting text moves the positions after it back by its length, leaves those before it, and takes
/// those in it to where it was.
pub proof fn law_deletions_move_what_is_after(
    before: usize,
    count: usize,
    after: usize,
    pos: nat,
    assoc: Assoc,
)
    requires
        pos <= before + count + after,
    ensures
        ({
            let ops = seq![
                Operation::Retain(before),
                Operation::Delete(count),
                Operation::Retain(after),
            ];
            let then = moved(ops, pos, assoc);
            &&& pos < before ==> then == pos
            &&& before <= pos <= before + count ==> then == before
            &&& before + count < pos < before + count + after ==> then == pos - count
        }),
{
    let ops = seq![Operation::Retain(before), Operation::Delete(count), Operation::Retain(after)];
    assert(ops.skip(1)[0] == ops[1]);
    assert(ops.skip(1).skip(1)[0] == ops[2]);
    assert(ops.skip(1).skip(1).skip(1).len() == 0);
    reveal_with_fuel(moved, 4);
}

/// Replacing text keeps a position at its start there, takes one inside it to the side of the new text
/// that it is associated with, and moves those after it by what the lengths differ.
pub proof fn law_replacements_move_what_is_after(
    before: usize,
    text: String,
    count: usize,
    after: usize,
    pos: nat,
    assoc: Assoc,
)
    requires
        pos <= before + count + after,
    ensures
        ({
            let ops = seq![
                Operation::Retain(before),
                Operation::Insert(text),
                Operation::Delete(count),
                Operation::Retain(after),
            ];
            let then = moved(ops, pos, assoc);
            &&& pos < before ==> then == pos
            &&& pos == before && count > 0 ==> then == before
            &&& before < pos < before + count && assoc == Assoc::Before ==> then == before
            &&& before < pos < before + count && assoc == Assoc::After ==> then == before
                + text@.len()
            &&& before + count <= pos < before + count + after && pos > before ==> then == pos
                + text@.len() - count
        }),
{
    let ops = seq![
        Operation::Retain(before),
        Operation::Insert(text),
        Operation::Delete(count),
        Operation::Retain(after),
    ];
    assert(ops.skip(1)[0] == ops[1]);
    assert(ops.skip(1)[1] == ops[2]);
    assert(ops.skip(1).skip(2)[0] == ops[3]);
    reveal_with_fuel(moved, 4);
}

/// A char that an edit does not touch is found again where the edit moves its position.
pub proof fn law_untouched_chars_are_found_again(
    ops: Seq<Operation>,
    s: Seq<char>,
    pos: nat,
    assoc: Assoc,
)
    requires
        old_len(ops) == s.len(),
        pos < s.len(),
        !touches(ops, pos),
    ensures
        moved(ops, pos, assoc) < applied(ops, s).len(),
        applied(ops, s)[moved(ops, pos, assoc) as int] == s[pos as int],
{
    lemma_untouched(ops, s, pos);
}

/// An insertion touches the position that it goes to, and a deletion those from the start of what it
/// deletes to its end. What is kept is not touched.
pub proof fn law_edits_touch_what_they_change(
    before: usize,
    text: String,
    count: usize,
    after: usize,
    pos: nat,
)
    ensures
        touches(
            seq![Operation::Retain(before), Operation::Insert(text), Operation::Retain(after)],
            pos,
        ) <==> pos == before,
        touches(
            seq![Operation::Retain(before), Operation::Delete(count), Operation::Retain(after)],
            pos,
        ) <==> before <= pos <= before + count,
        !touches(seq![Operation::Retain(after)], pos),
{
    let kept = seq![Operation::Retain(after)];
    assert(kept.skip(1) =~= Seq::empty());
    reveal_with_fuel(changed, 4);
    assert(changed(kept, 0) =~= Seq::empty());
    let inserted = seq![
        Operation::Retain(before),
        Operation::Insert(text),
        Operation::Retain(after),
    ];
    assert(inserted.skip(1) =~= seq![Operation::Insert(text), Operation::Retain(after)]);
    assert(inserted.skip(1).skip(1) =~= kept);
    let gap = (before as nat, before as nat);
    assert(changed(inserted, 0) =~= seq![gap]);
    let deleted = seq![
        Operation::Retain(before),
        Operation::Delete(count),
        Operation::Retain(after),
    ];
    assert(deleted.skip(1) =~= seq![Operation::Delete(count), Operation::Retain(after)]);
    assert(deleted.skip(1).skip(1) =~= kept);
    let gone = (before as nat, (before + count) as nat);
    assert(changed(deleted, 0) =~= seq![gone]);
    assert(changed(inserted, 0)[0] == gap);
    assert(changed(deleted, 0)[0] == gone);
}

} // verus!
