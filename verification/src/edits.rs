//! Edits of a text as a parser takes them: in bytes.

use crate::changes::{old_len, replaces, ChangeSet, Operation};
use crate::text::{byte_of, chars_of, lemma_byte_of_end, lemma_byte_of_monotone};
use ropey::RopeSlice;
use vstd::prelude::*;
use vstd::utf8::encode_utf8;

verus! {

/// A row and a column of a text.
#[derive(Clone, Copy, Debug, PartialEq, Eq, Structural)]
pub struct Point {
    pub row: u32,
    pub col: u32,
}

/// One edit: the bytes `start_byte..old_end_byte` became the bytes `start_byte..new_end_byte`. The
/// points are not used; they are always zero.
#[derive(Clone, Copy, Debug, PartialEq, Eq, Structural)]
pub struct InputEdit {
    pub start_byte: u32,
    pub old_end_byte: u32,
    pub new_end_byte: u32,
    pub start_point: Point,
    pub old_end_point: Point,
    pub new_end_point: Point,
}

/// The edit that replaces the old chars `from..to` by `len` bytes.
pub open spec fn edit_of(s: Seq<char>, from: int, to: int, len: nat) -> InputEdit {
    let zero = Point { row: 0, col: 0 };
    InputEdit {
        start_byte: byte_of(s, from) as u32,
        old_end_byte: byte_of(s, to) as u32,
        new_end_byte: (byte_of(s, from) + len) as u32,
        start_point: zero,
        old_end_point: zero,
        new_end_point: zero,
    }
}

/// The number of bytes that an operation adds.
pub open spec fn added_bytes(op: Operation) -> nat {
    match op {
        Operation::Insert(text) => encode_utf8(text@).len(),
        _ => 0,
    }
}

/// The edits of the old text `s` that `ops` make, the first of them starting at the char `pos`.
pub open spec fn edits_of(ops: Seq<Operation>, s: Seq<char>, pos: int) -> Seq<InputEdit>
    decreases ops.len(),
{
    if ops.len() == 0 {
        Seq::empty()
    } else if replaces(ops) {
        let end = pos + ops[1].old_len();
        seq![edit_of(s, pos, end, added_bytes(ops[0]))] + edits_of(ops.skip(2), s, end)
    } else {
        let end = pos + ops[0].old_len();
        match ops[0] {
            Operation::Retain(_) => edits_of(ops.skip(1), s, end),
            _ => seq![edit_of(s, pos, end, added_bytes(ops[0]))] + edits_of(ops.skip(1), s, end),
        }
    }
}

/// Whether all positions in bytes are 32-bit numbers.
pub open spec fn bytes_fit(ops: Seq<Operation>, s: Seq<char>) -> bool {
    forall|i: int|
        0 <= i < ops.len() ==> encode_utf8(s).len() + added_bytes(#[trigger] ops[i]) <= u32::MAX
}

fn make_edit(text: RopeSlice, from: usize, to: usize, added: usize) -> (edit: InputEdit)
    requires
        from <= to <= chars_of(text).len(),
        encode_utf8(chars_of(text)).len() + added <= u32::MAX,
    ensures
        edit == edit_of(chars_of(text), from as int, to as int, added as nat),
{
    proof {
        let s = chars_of(text);
        lemma_byte_of_end(s);
        lemma_byte_of_monotone(s, from as int, s.len() as int);
        lemma_byte_of_monotone(s, to as int, s.len() as int);
    }
    let zero = Point { row: 0, col: 0 };
    let start_byte: u32 = text.char_to_byte(from) as u32;
    InputEdit {
        start_byte,
        old_end_byte: text.char_to_byte(to) as u32,
        new_end_byte: start_byte + added as u32,
        start_point: zero,
        old_end_point: zero,
        new_end_point: zero,
    }
}

/// The edits that `changeset` makes to `old_text`, in the order of the text.
pub fn generate_edits(old_text: RopeSlice, changeset: &ChangeSet) -> (edits: Vec<InputEdit>)
    requires
        old_len(changeset@) <= chars_of(old_text).len(),
        bytes_fit(changeset@, chars_of(old_text)),
    ensures
        edits@ == edits_of(changeset@, chars_of(old_text), 0),
{
    let ghost ops = changeset@;
    let ghost s = chars_of(old_text);
    let changes: &Vec<Operation> = changeset.changes();
    let len: usize = old_text.len_chars();
    let mut edits: Vec<InputEdit> = Vec::new();
    let mut old_pos: usize = 0;
    let mut i: usize = 0;
    proof {
        assert(ops.skip(0) =~= ops);
        assert(edits@ + edits_of(ops, s, 0) =~= edits_of(ops, s, 0));
    }
    while i < changes.len()
        invariant
            ops == changes@,
            s == chars_of(old_text),
            len == s.len(),
            i <= ops.len(),
            old_pos + old_len(ops.skip(i as int)) <= len,
            bytes_fit(ops, s),
            edits@ + edits_of(ops.skip(i as int), s, old_pos as int) == edits_of(ops, s, 0),
        decreases ops.len() - i,
    {
        let ghost here = ops.skip(i as int);
        let ghost before = edits@;
        let ghost pos = old_pos as int;
        proof {
            reveal_with_fuel(old_len, 3);
            assert(here.skip(1) =~= ops.skip(i + 1));
            assert(here[0] == ops[i as int]);
            assert(encode_utf8(s).len() + added_bytes(ops[i as int]) <= u32::MAX);
            if i + 1 < ops.len() {
                assert(here.skip(2) =~= ops.skip(i + 2));
                assert(here[1] == ops[i + 1]);
                assert(ops.skip(i + 1)[0] == ops[i + 1]);
                assert(ops.skip(i + 1).skip(1) =~= ops.skip(i + 2));
            }
        }
        match &changes[i] {
            Operation::Retain(n) => {
                old_pos += *n;
                i += 1;
            },
            Operation::Delete(n) => {
                let old_end: usize = old_pos + *n;
                let edit: InputEdit = make_edit(old_text, old_pos, old_end, 0);
                edits.push(edit);
                old_pos = old_end;
                i += 1;
                proof {
                    let rest = edits_of(ops.skip(i as int), s, old_pos as int);
                    assert(edits_of(here, s, pos) == seq![edit] + rest);
                    assert(edits@ + rest =~= before + (seq![edit] + rest));
                }
            },
            Operation::Insert(text) => {
                let added: usize = text.as_str().len();
                let mut old_end: usize = old_pos;
                i += 1;
                // a subsequent delete means a replace, consume it
                if i < changes.len() {
                    if let Operation::Delete(n) = &changes[i] {
                        old_end = old_pos + *n;
                        i += 1;
                    }
                }
                let edit: InputEdit = make_edit(old_text, old_pos, old_end, added);
                edits.push(edit);
                old_pos = old_end;
                proof {
                    let rest = edits_of(ops.skip(i as int), s, old_pos as int);
                    assert(edits_of(here, s, pos) == seq![edit] + rest);
                    assert(edits@ + rest =~= before + (seq![edit] + rest));
                }
            },
        }
    }
    assert(edits@ + edits_of(ops.skip(i as int), s, old_pos as int) =~= edits@);
    edits
}

/// What is kept makes no edit. Inserted text makes one that replaces nothing, deleted text one that
/// puts nothing in place of it, and inserted text right before deleted text a single one that does
/// both. Each goes on from where the one before it ended in the old text.
pub proof fn law_operations_become_edits(rest: Seq<Operation>, s: Seq<char>, pos: int, n: usize, text: String)
    ensures
        edits_of(seq![Operation::Retain(n)] + rest, s, pos) == edits_of(rest, s, pos + n),
        edits_of(seq![Operation::Delete(n)] + rest, s, pos) == seq![edit_of(s, pos, pos + n, 0)]
            + edits_of(rest, s, pos + n),
        rest.len() > 0 && rest[0] is Retain ==> edits_of(
            seq![Operation::Insert(text)] + rest,
            s,
            pos,
        ) == seq![edit_of(s, pos, pos, encode_utf8(text@).len())] + edits_of(rest, s, pos),
        edits_of(seq![Operation::Insert(text), Operation::Delete(n)] + rest, s, pos) == seq![
            edit_of(s, pos, pos + n, encode_utf8(text@).len()),
        ] + edits_of(rest, s, pos + n),
{
    let kept = seq![Operation::Retain(n)] + rest;
    assert(kept.skip(1) =~= rest);
    let deleted = seq![Operation::Delete(n)] + rest;
    assert(deleted.skip(1) =~= rest);
    let inserted = seq![Operation::Insert(text)] + rest;
    assert(inserted.skip(1) =~= rest);
    let replaced = seq![Operation::Insert(text), Operation::Delete(n)] + rest;
    assert(replaced.skip(2) =~= rest);
    assert(!replaces(kept) && !replaces(deleted));
    if rest.len() > 0 && rest[0] is Retain {
        assert(inserted[1] == rest[0]);
        assert(!replaces(inserted));
    }
    assert(replaces(replaced));
}

/// An edit goes from the byte of its first char to the byte after its last one in the old text, and up
/// to as many bytes from there as it adds in the new one.
pub proof fn law_edits_are_in_bytes(s: Seq<char>, from: int, to: int, len: nat)
    requires
        byte_of(s, from) + len <= u32::MAX,
        byte_of(s, to) <= u32::MAX,
    ensures
        edit_of(s, from, to, len).start_byte == byte_of(s, from),
        edit_of(s, from, to, len).old_end_byte == byte_of(s, to),
        edit_of(s, from, to, len).new_end_byte == byte_of(s, from) + len,
{
}

} // verus!
