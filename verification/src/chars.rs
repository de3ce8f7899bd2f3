//! Strings as sequences of chars.

use crate::text::white_space;
use vstd::prelude::*;
use vstd::utf8::encode_scalar;

verus! {

/// `String::push` appends a char.
pub assume_specification[ String::push ](string: &mut String, ch: char)
    ensures
        final(string)@ == old(string)@.push(ch),
;

/// `char::len_utf8` returns the number of bytes of the char in UTF-8.
pub assume_specification[ char::len_utf8 ](c: char) -> (len: usize)
    ensures
        len == encode_scalar(c as u32).len(),
;

/// The chars of `string`.
pub fn chars_of_str(string: &str) -> (chars: Vec<char>)
    ensures
        chars@ == string@,
{
    let mut chars: Vec<char> = Vec::new();
    for ch in iter: string.chars()
        invariant
            iter.seq() == string@,
            chars@ == string@.take(iter.index() as int),
    {
        let ghost i = iter.index() as int;
        chars.push(ch);
        assert(string@.take(i + 1) =~= string@.take(i).push(string@[i]));
    }
    assert(string@.take(string@.len() as int) =~= string@);
    chars
}

/// The string of the chars `chars`.
pub fn string_of(chars: &Vec<char>) -> (string: String)
    ensures
        string@ == chars@,
{
    let mut string: String = String::new();
    let mut i: usize = 0;
    while i < chars.len()
        invariant
            i <= chars.len(),
            string@ == chars@.take(i as int),
        decreases chars.len() - i,
    {
        string.push(chars[i]);
        i += 1;
        assert(string@ =~= chars@.take(i as int));
    }
    assert(chars@.take(i as int) =~= chars@);
    string
}

/// A copy of `string`.
pub fn copy_str(string: &str) -> (copy: String)
    ensures
        copy@ == string@,
{
    string.to_owned()
}

/// Whether the strings hold the same chars.
pub fn same_str(a: &str, b: &str) -> (same: bool)
    ensures
        same == (a@ == b@),
{
    let a_chars: Vec<char> = chars_of_str(a);
    let b_chars: Vec<char> = chars_of_str(b);
    same_chars(&a_chars, &b_chars)
}

/// Whether the chars are the same.
pub fn same_chars(a: &Vec<char>, b: &Vec<char>) -> (same: bool)
    ensures
        same == (a@ == b@),
{
    if a.len() != b.len() {
        return false;
    }
    let mut i: usize = 0;
    while i < a.len()
        invariant
            a.len() == b.len(),
            i <= a.len(),
            forall|k: int| 0 <= k < i ==> a@[k] == b@[k],
        decreases a.len() - i,
    {
        if a[i] != b[i] {
            return false;
        }
        i += 1;
    }
    assert(a@ =~= b@);
    true
}

/// Where `sep` first is in `s` at or after `from`, or the end of `s`.
pub open spec fn next_sep(s: Seq<char>, sep: char, from: int) -> int
    decreases s.len() - from,
{
    if from >= s.len() {
        s.len() as int
    } else if s[from] == sep {
        from
    } else {
        next_sep(s, sep, from + 1)
    }
}

/// The parts of `s` from `from` on that are between the chars `sep`.
pub open spec fn split_from(s: Seq<char>, sep: char, from: int) -> Seq<Seq<char>>
    decreases s.len() - from,
    when 0 <= from <= s.len()
    via split_from_decreases
{
    let end = next_sep(s, sep, from);
    if end >= s.len() {
        seq![s.subrange(from, s.len() as int)]
    } else {
        seq![s.subrange(from, end)] + split_from(s, sep, end + 1)
    }
}

#[via_fn]
proof fn split_from_decreases(s: Seq<char>, sep: char, from: int) {
    lemma_next_sep(s, sep, from);
}

/// The parts of `s` between the chars `sep`; a string without one is its only part.
pub open spec fn split(s: Seq<char>, sep: char) -> Seq<Seq<char>> {
    split_from(s, sep, 0)
}

pub proof fn lemma_next_sep(s: Seq<char>, sep: char, from: int)
    requires
        0 <= from <= s.len(),
    ensures
        from <= next_sep(s, sep, from) <= s.len(),
        next_sep(s, sep, from) < s.len() ==> s[next_sep(s, sep, from)] == sep,
        forall|k: int| from <= k < next_sep(s, sep, from) ==> s[k] != sep,
    decreases s.len() - from,
{
    if from < s.len() && s[from] != sep {
        lemma_next_sep(s, sep, from + 1);
    }
}

proof fn lemma_next_sep_shift(front: Seq<char>, s: Seq<char>, sep: char, from: int)
    requires
        0 <= from <= s.len(),
    ensures
        next_sep(front + s, sep, front.len() + from) == front.len() + next_sep(s, sep, from),
    decreases s.len() - from,
{
    if from < s.len() && s[from] != sep {
        lemma_next_sep_shift(front, s, sep, from + 1);
    }
}

proof fn lemma_split_shift(front: Seq<char>, s: Seq<char>, sep: char, from: int)
    requires
        0 <= from <= s.len(),
    ensures
        split_from(front + s, sep, front.len() + from) == split_from(s, sep, from),
    decreases s.len() - from,
{
    let all = front + s;
    let at = front.len() + from;
    let end = next_sep(s, sep, from);
    lemma_next_sep_shift(front, s, sep, from);
    lemma_next_sep(s, sep, from);
    if end >= s.len() {
        assert(all.subrange(at, all.len() as int) =~= s.subrange(from, s.len() as int));
    } else {
        lemma_split_shift(front, s, sep, end + 1);
        assert(all.subrange(at, front.len() + end) =~= s.subrange(from, end));
    }
}

proof fn lemma_next_sep_front(a: Seq<char>, b: Seq<char>, sep: char, from: int)
    requires
        0 <= from <= a.len(),
    ensures
        next_sep(a + seq![sep] + b, sep, from) == next_sep(a, sep, from),
    decreases a.len() - from,
{
    if from < a.len() && a[from] != sep {
        lemma_next_sep_front(a, b, sep, from + 1);
    }
}

/// The parts of two strings with `sep` between them are those of the one and of the other.
pub proof fn lemma_split_joined(a: Seq<char>, b: Seq<char>, sep: char, from: int)
    requires
        0 <= from <= a.len(),
    ensures
        split_from(a + seq![sep] + b, sep, from) == split_from(a, sep, from) + split(b, sep),
    decreases a.len() - from,
{
    let all = a + seq![sep] + b;
    let end = next_sep(a, sep, from);
    lemma_next_sep_front(a, b, sep, from);
    lemma_next_sep(a, sep, from);
    assert(all.subrange(from, end) =~= a.subrange(from, end));
    if end >= a.len() {
        lemma_split_shift(a + seq![sep], b, sep, 0);
    } else {
        lemma_split_joined(a, b, sep, end + 1);
        assert(split_from(all, sep, from) =~= split_from(a, sep, from) + split(b, sep));
    }
}

/// A part of the chars.
pub fn part_of(chars: &Vec<char>, from: usize, to: usize) -> (part: Vec<char>)
    requires
        from <= to <= chars@.len(),
    ensures
        part@ == chars@.subrange(from as int, to as int),
{
    let mut part: Vec<char> = Vec::new();
    let mut i: usize = from;
    while i < to
        invariant
            from <= i <= to <= chars@.len(),
            part@ == chars@.subrange(from as int, i as int),
        decreases to - i,
    {
        part.push(chars[i]);
        i += 1;
        assert(part@ =~= chars@.subrange(from as int, i as int));
    }
    part
}

/// The parts of a sequence of parts, as plain sequences.
pub open spec fn parts_view(parts: Seq<Vec<char>>) -> Seq<Seq<char>> {
    parts.map_values(|part: Vec<char>| part@)
}

/// Splits `chars` at every `sep`.
pub fn split_chars(chars: &Vec<char>, sep: char) -> (parts: Vec<Vec<char>>)
    ensures
        parts_view(parts@) == split(chars@, sep),
        parts@.len() > 0,
{
    let ghost s = chars@;
    let mut parts: Vec<Vec<char>> = Vec::new();
    let mut from: usize = 0;
    let mut i: usize = 0;
    proof {
        assert(parts_view(parts@) + split_from(s, sep, 0) =~= split(s, sep));
    }
    while i < chars.len()
        invariant
            s == chars@,
            from <= i <= s.len(),
            next_sep(s, sep, from as int) == next_sep(s, sep, i as int),
            parts_view(parts@) + split_from(s, sep, from as int) == split(s, sep),
        decreases s.len() - i,
    {
        if chars[i] == sep {
            let ghost before = parts_view(parts@);
            let part: Vec<char> = part_of(chars, from, i);
            parts.push(part);
            proof {
                assert(parts_view(parts@) =~= before.push(part@));
                assert(split_from(s, sep, from as int) == seq![part@] + split_from(
                    s,
                    sep,
                    i as int + 1,
                ));
                assert(before.push(part@) + split_from(s, sep, i as int + 1) =~= before + (
                seq![part@] + split_from(s, sep, i as int + 1)));
            }
            from = i + 1;
        }
        i += 1;
    }
    let ghost before = parts_view(parts@);
    let part: Vec<char> = part_of(chars, from, i);
    parts.push(part);
    proof {
        assert(parts_view(parts@) =~= before.push(part@));
        assert(split_from(s, sep, from as int) =~= seq![part@]);
        assert(before.push(part@) =~= before + seq![part@]);
    }
    parts
}

/// `s` without the white space at its end.
pub open spec fn trimmed_end(s: Seq<char>) -> Seq<char>
    decreases s.len(),
{
    if s.len() > 0 && white_space(s.last()) {
        trimmed_end(s.drop_last())
    } else {
        s
    }
}

/// `s` without the white space at its start.
pub open spec fn trimmed_start(s: Seq<char>) -> Seq<char>
    decreases s.len(),
{
    if s.len() > 0 && white_space(s[0]) {
        trimmed_start(s.skip(1))
    } else {
        s
    }
}

/// `s` without the white space at its ends.
pub open spec fn trimmed(s: Seq<char>) -> Seq<char> {
    trimmed_end(trimmed_start(s))
}

/// Drops the white space at the ends of `chars`.
pub fn trim(chars: &Vec<char>) -> (part: Vec<char>)
    ensures
        part@ == trimmed(chars@),
{
    let ghost s = chars@;
    let mut from: usize = 0;
    assert(s.skip(0) =~= s);
    while from < chars.len() && chars[from].is_whitespace()
        invariant
            s == chars@,
            from <= s.len(),
            trimmed_start(s) == trimmed_start(s.skip(from as int)),
        decreases s.len() - from,
    {
        assert(s.skip(from as int).skip(1) =~= s.skip(from + 1));
        from += 1;
    }
    let ghost rest = s.skip(from as int);
    assert(trimmed_start(s) == rest);
    let mut to: usize = chars.len();
    assert(s.subrange(from as int, to as int) =~= rest);
    while to > from && chars[to - 1].is_whitespace()
        invariant
            s == chars@,
            from <= to <= s.len(),
            trimmed_end(rest) == trimmed_end(s.subrange(from as int, to as int)),
        decreases to,
    {
        assert(s.subrange(from as int, to as int).drop_last() =~= s.subrange(
            from as int,
            to - 1,
        ));
        to -= 1;
    }
    assert(trimmed_end(rest) == s.subrange(from as int, to as int));
    part_of(chars, from, to)
}

proof fn lemma_trimmed_end(s: Seq<char>)
    ensures
        trimmed_end(s).len() <= s.len(),
        trimmed_end(s) == s.take(trimmed_end(s).len() as int),
        forall|i: int| trimmed_end(s).len() <= i < s.len() ==> white_space(#[trigger] s[i]),
        trimmed_end(s).len() > 0 ==> !white_space(s[trimmed_end(s).len() - 1]),
    decreases s.len(),
{
    if s.len() > 0 && white_space(s.last()) {
        let rest = s.drop_last();
        lemma_trimmed_end(rest);
        let n = trimmed_end(s).len() as int;
        assert(s.take(n) =~= rest.take(n));
        assert forall|i: int| n <= i < s.len() implies white_space(#[trigger] s[i]) by {
            if i < rest.len() {
                assert(rest[i] == s[i]);
            }
        }
        if n > 0 {
            assert(rest[n - 1] == s[n - 1]);
        }
    } else {
        assert(s.take(s.len() as int) =~= s);
    }
}

proof fn lemma_trimmed_start(s: Seq<char>)
    ensures
        trimmed_start(s).len() <= s.len(),
        trimmed_start(s) == s.skip(s.len() - trimmed_start(s).len()),
        forall|i: int|
            0 <= i < s.len() - trimmed_start(s).len() ==> white_space(#[trigger] s[i]),
        trimmed_start(s).len() > 0 ==> !white_space(trimmed_start(s)[0]),
    decreases s.len(),
{
    if s.len() > 0 && white_space(s[0]) {
        let rest = s.skip(1);
        lemma_trimmed_start(rest);
        let n = s.len() - trimmed_start(s).len();
        assert(s.skip(n) =~= rest.skip(n - 1));
        assert forall|i: int| 0 <= i < n implies white_space(#[trigger] s[i]) by {
            if i > 0 {
                assert(rest[i - 1] == s[i]);
            }
        }
    } else {
        assert(s.skip(0) =~= s);
    }
}

/// Trimming takes away white space at the ends, all of it and nothing else. The index that what is
/// left starts at is returned.
pub proof fn law_trimming_takes_white_space(s: Seq<char>) -> (from: int)
    ensures
        0 <= from <= from + trimmed(s).len() <= s.len(),
        trimmed(s) == s.subrange(from, from + trimmed(s).len()),
        forall|i: int| 0 <= i < from ==> white_space(#[trigger] s[i]),
        forall|i: int| from + trimmed(s).len() <= i < s.len() ==> white_space(#[trigger] s[i]),
        trimmed(s).len() > 0 ==> !white_space(trimmed(s)[0]) && !white_space(
            trimmed(s)[trimmed(s).len() - 1],
        ),
{
    lemma_trimmed_start(s);
    let rest = trimmed_start(s);
    lemma_trimmed_end(rest);
    let from = s.len() - rest.len();
    let n = trimmed(s).len() as int;
    assert(trimmed(s) =~= s.subrange(from, from + n));
    assert forall|i: int| from + n <= i < s.len() implies white_space(#[trigger] s[i]) by {
        assert(rest[i - from] == s[i]);
    }
    from
}

/// A text without the separator is one part, and one with it is the part before the first separator
/// and the parts of what comes after it.
pub proof fn law_texts_are_split_at_separators(part: Seq<char>, rest: Seq<char>, sep: char)
    requires
        !part.contains(sep),
    ensures
        split(part, sep) == seq![part],
        split(part + seq![sep] + rest, sep) == seq![part] + split(rest, sep),
{
    lemma_next_sep(part, sep, 0);
    let end = next_sep(part, sep, 0);
    if end < part.len() {
        assert(part.contains(part[end]));
    }
    assert(part.subrange(0, part.len() as int) =~= part);
    lemma_split_joined(part, rest, sep, 0);
}

} // verus!
