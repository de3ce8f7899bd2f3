//! The text of a document: chars, lines, bytes and grapheme clusters.
//!
//! A text is a `ropey::RopeSlice`. Its contents are the chars `chars_of(text)`; everything that
//! is said of lines and bytes is said of these chars. A line ends after a line feed, which may
//! follow a carriage return.

use ropey::RopeSlice;
use unicode_segmentation::GraphemeCursor;
use vstd::prelude::*;
use vstd::utf8::{encode_scalar, encode_utf8};

verus! {

/// A view of a rope, see `chars_of` for what it holds.
#[verifier::external_type_specification]
#[verifier::external_body]
pub struct ExRopeSlice<'a>(ropey::RopeSlice<'a>);

/// The chars that a rope slice holds.
pub uninterp spec fn chars_of(text: RopeSlice) -> Seq<char>;

/// The number of line breaks in `s`.
pub open spec fn breaks(s: Seq<char>) -> nat
    decreases s.len(),
{
    if s.len() == 0 {
        0
    } else {
        breaks(s.drop_last()) + if s.last() == '\n' {
            1nat
        } else {
            0nat
        }
    }
}

/// The number of lines of `s`: a line break at the end of the text starts one more, empty line.
pub open spec fn line_count(s: Seq<char>) -> nat {
    breaks(s) + 1
}

/// The line that the char index `i` is on.
pub open spec fn line_of(s: Seq<char>, i: int) -> nat {
    breaks(s.take(i))
}

/// The first char index of `line`, or the end of the text for lines past the last one.
pub open spec fn line_start(s: Seq<char>, line: nat) -> nat
    decreases s.len(),
{
    if line == 0 || s.len() == 0 {
        0
    } else if line <= breaks(s.drop_last()) {
        line_start(s.drop_last(), line)
    } else {
        s.len()
    }
}

/// The end of `line` without its line break: the char index of the line feed, or of the carriage
/// return before it, or the end of the text for a last line without a line break.
pub open spec fn line_end(s: Seq<char>, line: nat) -> nat {
    let start = line_start(s, line);
    let stop = line_start(s, line + 1);
    if stop > start && s[stop - 1] == '\n' {
        if stop - 1 > start && s[stop - 2] == '\r' {
            (stop - 2) as nat
        } else {
            (stop - 1) as nat
        }
    } else {
        stop
    }
}

/// Whether a line break starts at char index `i`: a carriage return with its line feed, or a line
/// feed on its own.
pub open spec fn break_at(s: Seq<char>, i: int) -> bool {
    &&& 0 <= i < s.len()
    &&& {
        ||| s[i] == '\n' && !(i > 0 && s[i - 1] == '\r')
        ||| s[i] == '\r' && i + 1 < s.len() && s[i + 1] == '\n'
    }
}

/// The number of chars of the line break that starts at `i`.
pub open spec fn break_len(s: Seq<char>, i: int) -> int {
    if s[i] == '\r' {
        2
    } else {
        1
    }
}

/// The number of bytes before the char index `i`.
pub open spec fn byte_of(s: Seq<char>, i: int) -> nat {
    encode_utf8(s.take(i)).len()
}

/// The chars with Unicode's `White_Space` property.
pub open spec fn white_space(c: char) -> bool {
    ||| '\u{9}' <= c <= '\u{d}'
    ||| c == ' ' || c == '\u{85}' || c == '\u{a0}' || c == '\u{1680}'
    ||| '\u{2000}' <= c <= '\u{200a}'
    ||| c == '\u{2028}' || c == '\u{2029}' || c == '\u{202f}' || c == '\u{205f}' || c == '\u{3000}'
}

/// The first char of `s[from..to]` that is not white space.
pub open spec fn first_visible(s: Seq<char>, from: int, to: int) -> Option<int>
    decreases to - from,
{
    if from >= to {
        None
    } else if !white_space(s[from]) {
        Some(from)
    } else {
        first_visible(s, from + 1, to)
    }
}

/// The last char of `s[from..to]` that is not white space.
pub open spec fn last_visible(s: Seq<char>, from: int, to: int) -> Option<int>
    decreases to - from,
{
    if from >= to {
        None
    } else if !white_space(s[to - 1]) {
        Some(to - 1)
    } else {
        last_visible(s, from, to - 1)
    }
}

/// The first char of `line` that is not white space.
pub open spec fn line_first_visible(s: Seq<char>, line: nat) -> Option<int> {
    first_visible(s, line_start(s, line) as int, line_start(s, line + 1) as int)
}

/// The boundary after char index `i` of the text's grapheme clusters, for an `i` inside the text.
pub uninterp spec fn boundary_after(s: Seq<char>, i: nat) -> nat;

/// The boundary before char index `i` of the text's grapheme clusters, for an `i` past its start.
pub uninterp spec fn boundary_before(s: Seq<char>, i: nat) -> nat;

/// The char index of the next grapheme cluster after `i`, or the end of the text.
pub open spec fn next_boundary(s: Seq<char>, i: nat) -> nat {
    if i < s.len() {
        boundary_after(s, i)
    } else {
        s.len()
    }
}

/// The char index of the last grapheme cluster that starts before `i`, or the start of the text.
pub open spec fn prev_boundary(s: Seq<char>, i: nat) -> nat {
    if i == 0 {
        0
    } else {
        boundary_before(s, i)
    }
}

/// Whether no grapheme cluster that starts before `i` goes past it.
pub open spec fn on_boundary(s: Seq<char>, i: nat) -> bool {
    forall|k: nat| k < i ==> #[trigger] next_boundary(s, k) <= i
}

/// `char::is_whitespace` tests the `White_Space` property.
pub assume_specification[ char::is_whitespace ](c: char) -> (is: bool)
    ensures
        is == white_space(c),
;

/// `RopeSlice::len_chars` returns the number of chars.
pub assume_specification<'a>[ RopeSlice::<'a>::len_chars ](text: &RopeSlice<'a>) -> (len: usize)
    ensures
        len == chars_of(*text).len(),
;

/// `RopeSlice::len_lines` returns the number of lines, which is one more than that of the line
/// breaks.
pub assume_specification<'a>[ RopeSlice::<'a>::len_lines ](text: &RopeSlice<'a>) -> (len: usize)
    ensures
        len == line_count(chars_of(*text)),
;

/// `RopeSlice::len_bytes` returns the length of the text in UTF-8.
pub assume_specification<'a>[ RopeSlice::<'a>::len_bytes ](text: &RopeSlice<'a>) -> (len: usize)
    ensures
        len == encode_utf8(chars_of(*text)).len(),
;

/// `RopeSlice::char` returns the char at an index.
pub assume_specification<'a>[ RopeSlice::<'a>::char ](
    text: &RopeSlice<'a>,
    char_idx: usize,
) -> (c: char)
    requires
        char_idx < chars_of(*text).len(),
    ensures
        c == chars_of(*text)[char_idx as int],
;

/// `RopeSlice::byte` returns the byte at an index of the text in UTF-8.
pub assume_specification<'a>[ RopeSlice::<'a>::byte ](
    text: &RopeSlice<'a>,
    byte_idx: usize,
) -> (byte: u8)
    requires
        byte_idx < encode_utf8(chars_of(*text)).len(),
    ensures
        byte == encode_utf8(chars_of(*text))[byte_idx as int],
;

/// `RopeSlice::char_to_line` counts the line breaks before a char index, which may be the end of
/// the text.
pub assume_specification<'a>[ RopeSlice::<'a>::char_to_line ](
    text: &RopeSlice<'a>,
    char_idx: usize,
) -> (line: usize)
    requires
        char_idx <= chars_of(*text).len(),
    ensures
        line == line_of(chars_of(*text), char_idx as int),
;

/// `RopeSlice::line_to_char` returns the first char index of a line. The line may be one past the
/// last, which gives the end of the text.
pub assume_specification<'a>[ RopeSlice::<'a>::line_to_char ](
    text: &RopeSlice<'a>,
    line_idx: usize,
) -> (char_idx: usize)
    requires
        line_idx <= line_count(chars_of(*text)),
    ensures
        char_idx == line_start(chars_of(*text), line_idx as nat),
;

/// `RopeSlice::char_to_byte` returns the number of bytes before a char index, which may be the end
/// of the text.
pub assume_specification<'a>[ RopeSlice::<'a>::char_to_byte ](
    text: &RopeSlice<'a>,
    char_idx: usize,
) -> (byte_idx: usize)
    requires
        char_idx <= chars_of(*text).len(),
    ensures
        byte_idx == byte_of(chars_of(*text), char_idx as int),
;

/// `RopeSlice::byte_to_char` returns the index of the char that a byte belongs to, or the end of
/// the text for the end of its bytes.
pub assume_specification<'a>[ RopeSlice::<'a>::byte_to_char ](
    text: &RopeSlice<'a>,
    byte_idx: usize,
) -> (char_idx: usize)
    requires
        byte_idx <= encode_utf8(chars_of(*text)).len(),
    ensures
        char_idx <= chars_of(*text).len(),
        byte_of(chars_of(*text), char_idx as int) <= byte_idx,
        char_idx < chars_of(*text).len() ==> byte_idx < byte_of(
            chars_of(*text),
            char_idx + 1,
        ),
;

/// The boundary after `char_idx`, which `GraphemeCursor::next_boundary` returns for the whole
/// text as one chunk. It lies after `char_idx`. A line break is a grapheme cluster of its own, so
/// it has a boundary on either side, and no other cluster holds a line feed. There is a boundary
/// after every line feed.
#[verifier::external_body]
fn grapheme_cursor_next(text: RopeSlice, char_idx: usize) -> (next: usize)
    requires
        char_idx < chars_of(text).len(),
    ensures
        next as nat == boundary_after(chars_of(text), char_idx as nat),
        char_idx < next <= chars_of(text).len(),
        break_at(chars_of(text), char_idx as int) ==> next == char_idx + break_len(
            chars_of(text),
            char_idx as int,
        ) && boundary_before(chars_of(text), next as nat) == char_idx,
        chars_of(text)[char_idx as int] != '\r' ==> forall|k: int|
            char_idx < k < next ==> chars_of(text)[k] != '\n',
        chars_of(text)[char_idx as int] == '\n' ==> next == char_idx + 1,
{
    let string = String::from(text);
    let mut cursor = GraphemeCursor::new(text.char_to_byte(char_idx), string.len(), true);
    let boundary = cursor.next_boundary(&string, 0);
    text.byte_to_char(boundary.unwrap().unwrap())
}

/// The boundary before `char_idx`, which `GraphemeCursor::prev_boundary` returns for the whole
/// text as one chunk. It is the last one before `char_idx`, so the boundary after it does not lie
/// before `char_idx`, nor does the one after any line feed in between.
#[verifier::external_body]
fn grapheme_cursor_prev(text: RopeSlice, char_idx: usize) -> (prev: usize)
    requires
        0 < char_idx <= chars_of(text).len(),
    ensures
        prev as nat == boundary_before(chars_of(text), char_idx as nat),
        prev < char_idx,
        char_idx <= boundary_after(chars_of(text), prev as nat),
        forall|k: int| prev <= k < char_idx - 1 ==> chars_of(text)[k] != '\n',
{
    let string = String::from(text);
    let mut cursor = GraphemeCursor::new(text.char_to_byte(char_idx), string.len(), true);
    let boundary = cursor.prev_boundary(&string, 0);
    text.byte_to_char(boundary.unwrap().unwrap())
}

/// The char index of the next grapheme cluster after `char_idx`, or the end of the text.
pub fn next_grapheme_boundary(text: RopeSlice, char_idx: usize) -> (next: usize)
    ensures
        next as nat == next_boundary(chars_of(text), char_idx as nat),
        next <= chars_of(text).len(),
        char_idx < chars_of(text).len() ==> char_idx < next,
        break_at(chars_of(text), char_idx as int) ==> next == char_idx + break_len(
            chars_of(text),
            char_idx as int,
        ) && boundary_before(chars_of(text), next as nat) == char_idx,
        char_idx < chars_of(text).len() && chars_of(text)[char_idx as int] != '\r' ==> forall|
            k: int,
        |
            char_idx < k < next ==> chars_of(text)[k] != '\n',
        char_idx < chars_of(text).len() && chars_of(text)[char_idx as int] == '\n' ==> next
            == char_idx + 1,
{
    if char_idx < text.len_chars() {
        grapheme_cursor_next(text, char_idx)
    } else {
        text.len_chars()
    }
}

/// The char index of the last grapheme cluster that starts before `char_idx`, or 0.
pub fn prev_grapheme_boundary(text: RopeSlice, char_idx: usize) -> (prev: usize)
    requires
        char_idx <= chars_of(text).len(),
    ensures
        prev as nat == prev_boundary(chars_of(text), char_idx as nat),
        prev <= char_idx,
        0 < char_idx ==> prev < char_idx,
        char_idx <= next_boundary(chars_of(text), prev as nat),
        forall|k: int| prev <= k < char_idx - 1 ==> chars_of(text)[k] != '\n',
{
    if char_idx == 0 {
        0
    } else {
        grapheme_cursor_prev(text, char_idx)
    }
}

/// The char index of the end of `line`, not counting its line break.
pub fn line_end_char_index(text: RopeSlice, line: usize) -> (end: usize)
    requires
        line < line_count(chars_of(text)),
    ensures
        end as nat == line_end(chars_of(text), line as nat),
        end <= chars_of(text).len(),
{
    proof {
        lemma_line_start_bound(chars_of(text), line as nat + 1);
    }
    let lines: usize = text.len_lines();
    assert(line < lines);
    let start: usize = text.line_to_char(line);
    let stop: usize = text.line_to_char(line + 1);
    if stop > start && text.char(stop - 1) == '\n' {
        if stop - 1 > start && text.char(stop - 2) == '\r' {
            stop - 2
        } else {
            stop - 1
        }
    } else {
        stop
    }
}

/// The first char of `from..to` that is not white space.
pub fn first_non_whitespace(text: RopeSlice, from: usize, to: usize) -> (found: Option<usize>)
    requires
        from <= to <= chars_of(text).len(),
    ensures
        match found {
            Some(i) => first_visible(chars_of(text), from as int, to as int) == Some(i as int),
            None => first_visible(chars_of(text), from as int, to as int) == None::<int>,
        },
{
    let mut i: usize = from;
    while i < to
        invariant
            from <= i <= to <= chars_of(text).len(),
            first_visible(chars_of(text), from as int, to as int) == first_visible(
                chars_of(text),
                i as int,
                to as int,
            ),
        decreases to - i,
    {
        if !text.char(i).is_whitespace() {
            return Some(i);
        }
        i += 1;
    }
    None
}

/// The last char of `from..to` that is not white space.
pub fn last_non_whitespace(text: RopeSlice, from: usize, to: usize) -> (found: Option<usize>)
    requires
        from <= to <= chars_of(text).len(),
    ensures
        match found {
            Some(i) => last_visible(chars_of(text), from as int, to as int) == Some(i as int),
            None => last_visible(chars_of(text), from as int, to as int) == None::<int>,
        },
{
    let mut i: usize = to;
    while i > from
        invariant
            from <= i <= to <= chars_of(text).len(),
            last_visible(chars_of(text), from as int, to as int) == last_visible(
                chars_of(text),
                from as int,
                i as int,
            ),
        decreases i,
    {
        i -= 1;
        if !text.char(i).is_whitespace() {
            return Some(i);
        }
    }
    None
}

/// The first char of `line` that is not white space.
pub fn line_first_non_whitespace(text: RopeSlice, line: usize) -> (found: Option<usize>)
    requires
        line < line_count(chars_of(text)),
    ensures
        match found {
            Some(i) => line_first_visible(chars_of(text), line as nat) == Some(i as int),
            None => line_first_visible(chars_of(text), line as nat) == None::<int>,
        },
{
    proof {
        lemma_line_start_bound(chars_of(text), line as nat + 1);
        lemma_line_start_monotone(chars_of(text), line as nat, line as nat + 1);
    }
    let lines: usize = text.len_lines();
    assert(line < lines);
    first_non_whitespace(text, text.line_to_char(line), text.line_to_char(line + 1))
}

/// The visible char that `first_visible` finds lies in its range, and only white space before it.
pub proof fn lemma_first_visible(s: Seq<char>, from: int, to: int)
    requires
        0 <= from,
        to <= s.len(),
    ensures
        match first_visible(s, from, to) {
            Some(i) => from <= i < to && !white_space(s[i]) && forall|k: int|
                from <= k < i ==> white_space(s[k]),
            None => forall|k: int| from <= k < to ==> white_space(s[k]),
        },
    decreases to - from,
{
    if from < to && white_space(s[from]) {
        lemma_first_visible(s, from + 1, to);
    }
}

/// The visible char that `last_visible` finds lies in its range, and only white space after it.
pub proof fn lemma_last_visible(s: Seq<char>, from: int, to: int)
    requires
        0 <= from,
        to <= s.len(),
    ensures
        match last_visible(s, from, to) {
            Some(i) => from <= i < to && !white_space(s[i]) && forall|k: int|
                i < k < to ==> white_space(s[k]),
            None => forall|k: int| from <= k < to ==> white_space(s[k]),
        },
    decreases to - from,
{
    if from < to && white_space(s[to - 1]) {
        lemma_last_visible(s, from, to - 1);
    }
}

/// All bytes are before the end of the text.
pub proof fn lemma_byte_of_end(s: Seq<char>)
    ensures
        byte_of(s, s.len() as int) == encode_utf8(s).len(),
        byte_of(s, 0) == 0,
{
    assert(s.take(s.len() as int) =~= s);
    assert(s.take(0).len() == 0);
}

/// One more char adds its bytes.
pub proof fn lemma_encode_push(s: Seq<char>, c: char)
    ensures
        encode_utf8(s.push(c)) == encode_utf8(s) + encode_scalar(c as u32),
    decreases s.len(),
{
    reveal_with_fuel(encode_utf8, 2);
    if s.len() == 0 {
        assert(s.push(c).drop_first() =~= Seq::<char>::empty());
        assert(s.push(c)[0] == c);
        assert(encode_utf8(s.push(c)) =~= encode_utf8(s) + encode_scalar(c as u32));
    } else {
        lemma_encode_push(s.drop_first(), c);
        assert(s.push(c).drop_first() =~= s.drop_first().push(c));
        assert(encode_utf8(s.push(c)) =~= encode_utf8(s) + encode_scalar(c as u32));
    }
}

/// Every char takes at least one byte.
pub proof fn lemma_byte_of_step(s: Seq<char>, i: int)
    requires
        0 <= i < s.len(),
    ensures
        byte_of(s, i + 1) == byte_of(s, i) + encode_scalar(s[i] as u32).len(),
        byte_of(s, i) < byte_of(s, i + 1),
{
    assert(s.take(i + 1) =~= s.take(i).push(s[i]));
    lemma_encode_push(s.take(i), s[i]);
}

/// Later chars are at later bytes.
pub proof fn lemma_byte_of_monotone(s: Seq<char>, i: int, j: int)
    requires
        0 <= i <= j <= s.len(),
    ensures
        byte_of(s, i) <= byte_of(s, j),
        i < j ==> byte_of(s, i) < byte_of(s, j),
    decreases j - i,
{
    if i < j {
        lemma_byte_of_monotone(s, i, j - 1);
        lemma_byte_of_step(s, j - 1);
    }
}

/// One more char adds one more line break if it is one.
pub proof fn lemma_line_of_step(s: Seq<char>, i: int)
    requires
        0 <= i < s.len(),
    ensures
        line_of(s, i + 1) == line_of(s, i) + (if s[i] == '\n' {
            1int
        } else {
            0
        }),
{
    assert(s.take(i + 1).drop_last() =~= s.take(i));
}

/// Later chars are on the same line or on later lines.
pub proof fn lemma_line_of_monotone(s: Seq<char>, i: int, j: int)
    requires
        0 <= i <= j <= s.len(),
    ensures
        line_of(s, i) <= line_of(s, j),
    decreases j - i,
{
    if i < j {
        lemma_line_of_monotone(s, i, j - 1);
        lemma_line_of_step(s, j - 1);
    }
}

/// Every char is on one of the lines.
pub proof fn lemma_line_of_bound(s: Seq<char>, i: int)
    requires
        0 <= i <= s.len(),
    ensures
        line_of(s, i) < line_count(s),
        line_of(s, s.len() as int) == breaks(s),
        line_of(s, 0) == 0,
{
    lemma_line_of_monotone(s, i, s.len() as int);
    assert(s.take(s.len() as int) =~= s);
    assert(s.take(0).len() == 0);
}

pub proof fn lemma_line_start_bound(s: Seq<char>, line: nat)
    ensures
        line_start(s, line) <= s.len(),
        line > breaks(s) ==> line_start(s, line) == s.len(),
    decreases s.len(),
{
    if line != 0 && s.len() != 0 {
        if line <= breaks(s.drop_last()) {
            lemma_line_start_bound(s.drop_last(), line);
        }
    }
}

/// A line starts at or before a char exactly if the char is on this line or on a later one.
pub proof fn lemma_line_start(s: Seq<char>, line: nat, i: int)
    requires
        line <= breaks(s),
        0 <= i <= s.len(),
    ensures
        line_start(s, line) <= i <==> line <= line_of(s, i),
    decreases s.len(),
{
    lemma_line_of_bound(s, i);
    if line != 0 {
        let t = s.drop_last();
        if line <= breaks(t) {
            lemma_line_start_bound(t, line);
            if i < s.len() {
                lemma_line_start(t, line, i);
                assert(s.take(i) =~= t.take(i));
            }
        } else {
            if i < s.len() {
                assert(s.take(i) =~= t.take(i));
                lemma_line_of_bound(t, i);
            }
        }
    }
}

/// The start of a line is on this line.
pub proof fn lemma_line_of_start(s: Seq<char>, line: nat)
    requires
        line <= breaks(s),
    ensures
        line_start(s, line) <= s.len(),
        line_of(s, line_start(s, line) as int) == line,
        line > 0 ==> line_start(s, line) > 0 && s[line_start(s, line) - 1] == '\n',
{
    lemma_line_start_bound(s, line);
    let start = line_start(s, line) as int;
    lemma_line_start(s, line, start);
    if line > 0 {
        lemma_line_of_bound(s, 0);
        assert(start > 0);
        lemma_line_start(s, line, start - 1);
        lemma_line_of_step(s, start - 1);
    } else {
        lemma_line_of_bound(s, 0);
    }
}

/// Later lines start later, but for the lines past the last one.
pub proof fn lemma_line_start_monotone(s: Seq<char>, a: nat, b: nat)
    requires
        a <= b,
    ensures
        line_start(s, a) <= line_start(s, b),
        a < b && a <= breaks(s) && b <= breaks(s) ==> line_start(s, a) < line_start(s, b),
{
    lemma_line_start_bound(s, a);
    lemma_line_start_bound(s, b);
    if b <= breaks(s) {
        lemma_line_of_start(s, a);
        lemma_line_of_start(s, b);
        lemma_line_start(s, a, line_start(s, b) as int);
        if a < b {
            lemma_line_start(s, b, line_start(s, a) as int);
        }
    }
}

/// A char is between the start of its line and that of the next one.
pub proof fn lemma_in_line(s: Seq<char>, i: int)
    requires
        0 <= i <= s.len(),
    ensures
        line_of(s, i) <= breaks(s),
        line_start(s, line_of(s, i)) <= i,
        line_of(s, i) < breaks(s) ==> i < line_start(s, line_of(s, i) + 1),
        i <= line_start(s, line_of(s, i) + 1),
{
    let line = line_of(s, i);
    lemma_line_of_bound(s, i);
    lemma_line_start(s, line, i);
    if line < breaks(s) {
        lemma_line_start(s, line + 1, i);
    } else {
        lemma_line_start_bound(s, line + 1);
    }
}

/// The end of a line is on this line, and a line break starts there for every line but the last.
pub proof fn lemma_line_end(s: Seq<char>, line: nat)
    requires
        line <= breaks(s),
    ensures
        line_start(s, line) <= line_end(s, line) <= line_start(s, line + 1) <= s.len(),
        line_of(s, line_end(s, line) as int) == line,
        line < breaks(s) ==> break_at(s, line_end(s, line) as int),
        line < breaks(s) ==> line_start(s, line + 1) == line_end(s, line) + break_len(
            s,
            line_end(s, line) as int,
        ),
        line == breaks(s) ==> line_end(s, line) == s.len(),
{
    let start = line_start(s, line) as int;
    let stop = line_start(s, line + 1) as int;
    lemma_line_of_start(s, line);
    lemma_line_start_monotone(s, line, line + 1);
    lemma_line_start_bound(s, line + 1);
    if line < breaks(s) {
        lemma_line_of_start(s, line + 1);
        lemma_line_of_step(s, stop - 1);
        if stop - 1 > start && s[stop - 2] == '\r' {
            lemma_line_of_step(s, stop - 2);
        } else if stop - 1 > 0 {
            if stop - 1 == start {
                // the line is empty, so the char before it ends the previous line
                if line > 0 {
                    assert(s[start - 1] == '\n');
                }
            }
        }
    } else {
        lemma_line_of_bound(s, stop);
        if stop > start {
            lemma_line_of_monotone(s, start, stop - 1);
            lemma_line_of_step(s, stop - 1);
        }
    }
}

/// A line break starts at a char exactly if this char is the end of a line that is not the last.
pub proof fn lemma_break_at(s: Seq<char>, i: int)
    requires
        0 <= i <= s.len(),
    ensures
        break_at(s, i) <==> line_of(s, i) < breaks(s) && line_end(s, line_of(s, i)) == i,
{
    let line = line_of(s, i);
    lemma_in_line(s, i);
    lemma_line_end(s, line);
    if break_at(s, i) {
        lemma_line_of_bound(s, s.len() as int);
        lemma_line_of_step(s, i);
        if s[i] == '\n' {
            lemma_line_of_monotone(s, i + 1, s.len() as int);
            lemma_line_start(s, line + 1, i + 1);
        } else {
            lemma_line_of_step(s, i + 1);
            lemma_line_of_monotone(s, i + 2, s.len() as int);
            lemma_line_start(s, line + 1, i + 2);
            lemma_line_start(s, line + 1, i + 1);
        }
    }
}

} // verus!
