//! Breadcrumbs: the syntax nodes around a position, each written on one line.

use crate::chars::{string_of, trimmed_end};
use crate::sorting::{
    lemma_sorted_by, lemma_sorted_by_contains, sorted_by, stable_sort, total_preorder,
};
use crate::syntax_tree::{char_at_byte, char_of, lemma_char_of_monotone};
use crate::text::{
    chars_of, lemma_byte_of_end, lemma_byte_of_monotone, lemma_encode_push, white_space,
};
use ropey::RopeSlice;
use vstd::prelude::*;
use vstd::utf8::encode_utf8;

verus! {

/// The number of bytes after which the text of a breadcrumb segment is cut off. Breadcrumbs are
/// computed on every render, and a capture can be arbitrarily long, such as a C function's
/// return type that is a struct definition.
pub const MAX_BREADCRUMB_SEGMENT_LEN: usize = 512;

/// Where the run of white space in `s` that starts at `from` ends.
pub open spec fn gap_end(s: Seq<char>, from: int) -> int
    decreases s.len() - from,
{
    if from < s.len() && white_space(s[from]) {
        gap_end(s, from + 1)
    } else {
        from
    }
}

/// Whether `s[from..to]` holds a line break.
pub open spec fn breaks_line(s: Seq<char>, from: int, to: int) -> bool {
    exists|i: int| from <= i < to && #[trigger] s[i] == '\n'
}

/// What a run of white space between the text `flat` and the char `next` makes of `flat`.
pub open spec fn bridged(flat: Seq<char>, next: char, line_break: bool) -> Seq<char> {
    let prev = flat.last();
    let after_opening = prev == '(' || prev == '[' || (line_break && prev == '<');
    let before_closing = next == ')' || next == ']' || (line_break && next == '>');
    if before_closing && line_break && prev == ',' {
        trimmed_end(flat.drop_last())
    } else if after_opening || before_closing || (line_break && next == ',') {
        flat
    } else {
        flat.push(' ')
    }
}

/// The flat text `flat` continued with the chars of `s` from `from` on.
pub open spec fn flattened_from(s: Seq<char>, from: int, flat: Seq<char>) -> Seq<char>
    decreases s.len() - from,
    when 0 <= from <= s.len()
    via flattened_decreases
{
    if from >= s.len() {
        flat
    } else if !white_space(s[from]) {
        if encode_utf8(flat.push(s[from])).len() > MAX_BREADCRUMB_SEGMENT_LEN {
            trimmed_end(flat).push('…')
        } else {
            flattened_from(s, from + 1, flat.push(s[from]))
        }
    } else {
        let end = gap_end(s, from);
        if flat.len() == 0 || end >= s.len() {
            flattened_from(s, end, flat)
        } else {
            flattened_from(s, end, bridged(flat, s[end], breaks_line(s, from, end)))
        }
    }
}

#[via_fn]
proof fn flattened_decreases(s: Seq<char>, from: int, flat: Seq<char>) {
    lemma_gap_end(s, from);
}

/// The text `s` on one line, see [`flatten_breadcrumb_text`].
pub open spec fn flattened(s: Seq<char>) -> Seq<char> {
    flattened_from(s, 0, Seq::empty())
}

proof fn lemma_gap_end(s: Seq<char>, from: int)
    requires
        0 <= from <= s.len(),
    ensures
        from <= gap_end(s, from) <= s.len(),
        from < s.len() && white_space(s[from]) ==> from < gap_end(s, from),
        gap_end(s, from) < s.len() ==> !white_space(s[gap_end(s, from)]),
    decreases s.len() - from,
{
    if from < s.len() && white_space(s[from]) {
        lemma_gap_end(s, from + 1);
    }
}

/// Whether the only white space in `flat` are single spaces after other chars.
pub open spec fn single_spaced(flat: Seq<char>) -> bool {
    forall|i: int|
        #![trigger flat[i]]
        0 <= i < flat.len() && white_space(flat[i]) ==> flat[i] == ' ' && i > 0 && !white_space(
            flat[i - 1],
        )
}

proof fn lemma_trimmed_end(s: Seq<char>)
    ensures
        trimmed_end(s).len() <= s.len(),
        trimmed_end(s) == s.take(trimmed_end(s).len() as int),
        trimmed_end(s).len() > 0 ==> !white_space(trimmed_end(s).last()),
    decreases s.len(),
{
    if s.len() > 0 && white_space(s.last()) {
        lemma_trimmed_end(s.drop_last());
        assert(s.drop_last().take(trimmed_end(s).len() as int) =~= s.take(
            trimmed_end(s).len() as int,
        ));
    } else {
        assert(s.take(s.len() as int) =~= s);
    }
}

proof fn lemma_flattened(s: Seq<char>, from: int, flat: Seq<char>)
    requires
        0 <= from <= s.len(),
        single_spaced(flat),
        flat.len() > 0 && white_space(flat.last()) ==> from < s.len() && !white_space(s[from]),
    ensures
        single_spaced(flattened_from(s, from, flat)),
        flattened_from(s, from, flat).len() > 0 ==> !white_space(
            flattened_from(s, from, flat).last(),
        ),
    decreases s.len() - from,
{
    if from < s.len() {
        if !white_space(s[from]) {
            if encode_utf8(flat.push(s[from])).len() > MAX_BREADCRUMB_SEGMENT_LEN {
                lemma_trimmed_end(flat);
                let cut = trimmed_end(flat).push('…');
                assert forall|i: int|
                    #![trigger cut[i]]
                    0 <= i < cut.len() && white_space(cut[i]) implies cut[i] == ' ' && i > 0
                    && !white_space(cut[i - 1]) by {
                    assert(cut[i] == flat[i]);
                    assert(cut[i - 1] == flat[i - 1]);
                }
            } else {
                let next = flat.push(s[from]);
                assert forall|i: int|
                    #![trigger next[i]]
                    0 <= i < next.len() && white_space(next[i]) implies next[i] == ' ' && i > 0
                    && !white_space(next[i - 1]) by {
                    assert(next[i] == flat[i]);
                    assert(next[i - 1] == flat[i - 1]);
                }
                lemma_flattened(s, from + 1, next);
            }
        } else {
            let end = gap_end(s, from);
            lemma_gap_end(s, from);
            if flat.len() == 0 || end >= s.len() {
                lemma_flattened(s, end, flat);
            } else {
                let next = bridged(flat, s[end], breaks_line(s, from, end));
                lemma_trimmed_end(flat.drop_last());
                assert forall|i: int|
                    #![trigger next[i]]
                    0 <= i < next.len() && white_space(next[i]) implies next[i] == ' ' && i > 0
                    && !white_space(next[i - 1]) by {
                    if i < flat.len() {
                        assert(next[i] == flat[i]);
                        assert(next[i - 1] == flat[i - 1]);
                    } else {
                        assert(next[i - 1] == flat.last());
                    }
                }
                lemma_flattened(s, end, next);
            }
        }
    }
}

/// A flattened text is a single line: its only white space are single spaces between other chars.
pub proof fn law_flattened_is_one_line(s: Seq<char>)
    ensures
        single_spaced(flattened(s)),
        flattened(s).len() > 0 ==> !white_space(flattened(s)[0]) && !white_space(
            flattened(s).last(),
        ),
        !flattened(s).contains('\n'),
{
    lemma_flattened(s, 0, Seq::empty());
    let flat = flattened(s);
    if flat.contains('\n') {
        let i = choose|i: int| 0 <= i < flat.len() && flat[i] == '\n';
        assert(white_space(flat[i]));
    }
}

proof fn lemma_trimmed_bytes(s: Seq<char>)
    ensures
        encode_utf8(trimmed_end(s)).len() <= encode_utf8(s).len(),
        s.len() > 0 && white_space(s.last()) ==> encode_utf8(trimmed_end(s)).len() < encode_utf8(
            s,
        ).len(),
    decreases s.len(),
{
    if s.len() > 0 && white_space(s.last()) {
        lemma_trimmed_bytes(s.drop_last());
        lemma_encode_push(s.drop_last(), s.last());
        assert(s.drop_last().push(s.last()) =~= s);
    }
}

/// Whether a text fits a breadcrumb segment, or does up to an ellipsis at its end.
pub open spec fn fits_segment(flat: Seq<char>) -> bool {
    ||| encode_utf8(flat).len() <= MAX_BREADCRUMB_SEGMENT_LEN
    ||| flat.last() == '…' && encode_utf8(flat.drop_last()).len() <= MAX_BREADCRUMB_SEGMENT_LEN
}

proof fn lemma_flattened_bytes(s: Seq<char>, from: int, flat: Seq<char>)
    requires
        0 <= from <= s.len(),
        encode_utf8(flat).len() <= MAX_BREADCRUMB_SEGMENT_LEN || (encode_utf8(flat).len()
            == MAX_BREADCRUMB_SEGMENT_LEN + 1 && flat.len() > 0 && white_space(flat.last()) && from
            < s.len() && !white_space(s[from])),
    ensures
        fits_segment(flattened_from(s, from, flat)),
    decreases s.len() - from,
{
    if from < s.len() {
        if !white_space(s[from]) {
            lemma_encode_push(flat, s[from]);
            if encode_utf8(flat.push(s[from])).len() > MAX_BREADCRUMB_SEGMENT_LEN {
                lemma_trimmed_bytes(flat);
                assert(trimmed_end(flat).push('…').drop_last() =~= trimmed_end(flat));
            } else {
                lemma_flattened_bytes(s, from + 1, flat.push(s[from]));
            }
        } else {
            let end = gap_end(s, from);
            lemma_gap_end(s, from);
            if flat.len() == 0 || end >= s.len() {
                lemma_flattened_bytes(s, end, flat);
            } else {
                lemma_trimmed_bytes(flat.drop_last());
                lemma_encode_push(flat.drop_last(), flat.last());
                assert(flat.drop_last().push(flat.last()) =~= flat);
                lemma_encode_push(flat, ' ');
                lemma_flattened_bytes(s, end, bridged(flat, s[end], breaks_line(s, from, end)));
            }
        }
    }
}

/// A flattened text takes no more bytes than a segment may, but for the ellipsis where it is cut off.
pub proof fn law_flattened_is_short(s: Seq<char>)
    ensures
        fits_segment(flattened(s)),
{
    assert(encode_utf8(Seq::<char>::empty()).len() == 0);
    lemma_flattened_bytes(s, 0, Seq::empty());
}

/// Flattens the text of a breadcrumb segment, which may span several lines, into one line the
/// way it would be written if it fit, e.g. `Cache<\n    K,\n    V,\n>` into `Cache<K, V>`:
///
/// - Every run of whitespace becomes a single space.
/// - Whitespace just inside parentheses and square brackets is dropped. Next to angle brackets,
///   which may also be comparison operators, only a line break is.
/// - A line break before a comma is dropped, as in `( Text\n, Int\n)`.
/// - A comma that a line break separates from a closing bracket is dropped, with the whitespace
///   before it. Formatters add these, though this also turns a one-element tuple split over lines,
///   `(\n    A,\n)`, into `(A)`.
///
/// Text longer than [`MAX_BREADCRUMB_SEGMENT_LEN`] is cut off with an ellipsis.
pub fn flatten_breadcrumb_text(text: RopeSlice) -> (flat: String)
    ensures
        flat@ == flattened(chars_of(text)),
{
    assert(chars_of(text).subrange(0, chars_of(text).len() as int) =~= chars_of(text));
    flatten_part(text, 0, text.len_chars())
}

/// Flattens the chars `from..to` of the text.
fn flatten_part(text: RopeSlice, from: usize, to: usize) -> (flat: String)
    requires
        from <= to <= chars_of(text).len(),
    ensures
        flat@ == flattened(chars_of(text).subrange(from as int, to as int)),
{
    let ghost all = chars_of(text);
    let ghost s = all.subrange(from as int, to as int);
    let mut flat: Vec<char> = Vec::new();
    // the length of the flat text in bytes, of which only the part up to the limit matters
    let mut bytes: usize = 0;
    let mut i: usize = from;
    while i < to
        invariant
            all == chars_of(text),
            from <= i <= to <= all.len(),
            s == all.subrange(from as int, to as int),
            bytes == encode_utf8(flat@).len(),
            bytes <= MAX_BREADCRUMB_SEGMENT_LEN + 1,
            flattened(s) == flattened_from(s, i - from, flat@),
            flat@.len() > 0 && white_space(flat@.last()) ==> i < to && !white_space(s[i - from]),
            bytes > MAX_BREADCRUMB_SEGMENT_LEN ==> i < to && !white_space(s[i - from]),
        decreases to - i,
    {
        let ch: char = text.char(i);
        assert(ch == s[i - from]);
        if !ch.is_whitespace() {
            let added: usize = ch.len_utf8();
            proof {
                lemma_encode_push(flat@, ch);
            }
            if bytes + added > MAX_BREADCRUMB_SEGMENT_LEN {
                while flat.len() > 0 && flat[flat.len() - 1].is_whitespace()
                    invariant
                        flattened(s) == trimmed_end(flat@).push('…'),
                    decreases flat.len(),
                {
                    flat.pop();
                }
                assert(trimmed_end(flat@) == flat@);
                flat.push('…');
                return string_of(&flat);
            }
            flat.push(ch);
            bytes += added;
            i += 1;
        } else {
            let start: usize = i;
            let mut line_break: bool = false;
            while i < to && text.char(i).is_whitespace()
                invariant
                    all == chars_of(text),
                    from <= start <= i <= to <= all.len(),
                    s == all.subrange(from as int, to as int),
                    gap_end(s, start - from) == gap_end(s, i - from),
                    line_break == breaks_line(s, start - from, i - from),
                decreases to - i,
            {
                let ghost at = i - from;
                assert(all[i as int] == s[at]);
                let is_break: bool = text.char(i) == '\n';
                proof {
                    if is_break {
                        assert(s[at] == '\n');
                    }
                    if breaks_line(s, start - from, at + 1) && !is_break {
                        let k = choose|k: int| start - from <= k < at + 1 && #[trigger] s[k] == '\n';
                        assert(k != at);
                    }
                    if line_break {
                        let k = choose|k: int| start - from <= k < at && #[trigger] s[k] == '\n';
                        assert(start - from <= k < at + 1 && s[k] == '\n');
                    }
                }
                line_break = line_break || is_break;
                i += 1;
            }
            proof {
                if i < to {
                    assert(all[i as int] == s[i - from]);
                }
                lemma_gap_end(s, start - from);
                assert(gap_end(s, start - from) == i - from);
            }
            if flat.len() > 0 && i < to {
                let prev: char = flat[flat.len() - 1];
                let next: char = text.char(i);
                let after_opening: bool = prev == '(' || prev == '[' || (line_break && prev == '<');
                let before_closing: bool = next == ')' || next == ']' || (line_break && next == '>');
                if before_closing && line_break && prev == ',' {
                    let ghost whole = flat@;
                    flat.pop();
                    proof {
                        assert(whole =~= flat@.push(','));
                        lemma_encode_push(flat@, ',');
                    }
                    bytes -= 1;
                    let ghost without = flat@;
                    while flat.len() > 0 && flat[flat.len() - 1].is_whitespace()
                        invariant
                            bytes == encode_utf8(flat@).len(),
                            bytes <= MAX_BREADCRUMB_SEGMENT_LEN,
                            trimmed_end(flat@) == trimmed_end(without),
                        decreases flat.len(),
                    {
                        let space: char = flat[flat.len() - 1];
                        let ghost spaced = flat@;
                        flat.pop();
                        proof {
                            assert(spaced =~= flat@.push(space));
                            lemma_encode_push(flat@, space);
                        }
                        bytes -= space.len_utf8();
                    }
                    assert(trimmed_end(flat@) == flat@);
                } else if !(after_opening || before_closing || (line_break && next == ',')) {
                    proof {
                        lemma_encode_push(flat@, ' ');
                    }
                    flat.push(' ');
                    bytes += 1;
                }
            }
        }
    }
    string_of(&flat)
}

/// A syntax node enclosing a position, such as a function or a class.
#[derive(Clone, Debug, PartialEq, Eq)]
pub struct Breadcrumb {
    /// The captured parts of the node, in document order, e.g. `pub`, `fn` and `render`.
    pub segments: Vec<BreadcrumbSegment>,
}

#[derive(Clone, Debug, PartialEq, Eq)]
pub struct BreadcrumbSegment {
    /// The name of the capture, which is also the theme scope the segment is styled with.
    pub scope: String,
    /// The captured text, flattened into a single line.
    pub text: String,
}

/// A part of a syntax node that a query captured, by its bytes.
#[derive(Clone, Debug)]
pub struct BreadcrumbPart {
    pub scope: String,
    pub start: u32,
    pub end: u32,
}

/// What a query for breadcrumbs matched.
#[derive(Clone, Debug)]
pub struct BreadcrumbMatch {
    /// The bytes of the node that the breadcrumb is for, if the query captured one.
    pub node: Option<(u32, u32)>,
    /// The other captures, in document order.
    pub parts: Vec<BreadcrumbPart>,
}

/// What a breadcrumb segment says: its scope and its text.
pub ghost struct SegmentView {
    pub scope: Seq<char>,
    pub text: Seq<char>,
}

impl BreadcrumbSegment {
    pub open spec fn view(&self) -> SegmentView {
        SegmentView { scope: self.scope@, text: self.text@ }
    }
}

impl Breadcrumb {
    pub open spec fn view(&self) -> Seq<SegmentView> {
        self.segments@.map_values(|segment: BreadcrumbSegment| segment@)
    }
}

/// The text of a captured part.
pub open spec fn part_text(s: Seq<char>, part: BreadcrumbPart) -> Seq<char> {
    flattened(
        s.subrange(char_of(s, part.start as nat) as int, char_of(s, part.end as nat) as int),
    )
}

/// The segments of the captured parts that have a text.
pub open spec fn segments_of(s: Seq<char>, parts: Seq<BreadcrumbPart>) -> Seq<SegmentView>
    decreases parts.len(),
{
    if parts.len() == 0 {
        Seq::empty()
    } else {
        let before = segments_of(s, parts.drop_last());
        let text = part_text(s, parts.last());
        if text.len() == 0 {
            before
        } else {
            before.push(SegmentView { scope: parts.last().scope@, text })
        }
    }
}

/// The breadcrumbs of the matches whose node encloses the byte `pos`, with the bytes of the nodes.
/// A node that ends at `pos` does not enclose it.
pub open spec fn enclosing_crumbs(
    s: Seq<char>,
    matches: Seq<BreadcrumbMatch>,
    pos: u32,
) -> Seq<((u32, u32), Seq<SegmentView>)>
    decreases matches.len(),
{
    if matches.len() == 0 {
        Seq::empty()
    } else {
        let before = enclosing_crumbs(s, matches.drop_last(), pos);
        let segments = segments_of(s, matches.last().parts@);
        match matches.last().node {
            Some((start, end)) if start <= pos < end && segments.len() > 0 => before.push(
                ((start, end), segments),
            ),
            _ => before,
        }
    }
}

/// The order of nodes from the outermost to the innermost. Nodes that enclose the same position
/// are nested, so they are ordered by their start and, for nodes starting at the same byte, the
/// larger one first.
pub open spec fn outer_nodes_first<T>() -> spec_fn(((u32, u32), T), ((u32, u32), T)) -> bool {
    |a: ((u32, u32), T), b: ((u32, u32), T)|
        a.0.0 < b.0.0 || (a.0.0 == b.0.0 && a.0.1 >= b.0.1)
}

/// The breadcrumbs around the byte `pos`, see [`breadcrumbs`].
pub open spec fn crumbs_at(s: Seq<char>, matches: Seq<BreadcrumbMatch>, pos: u32) -> Seq<
    Seq<SegmentView>,
> {
    sorted_by(enclosing_crumbs(s, matches, pos), outer_nodes_first()).map_values(
        |crumb: ((u32, u32), Seq<SegmentView>)| crumb.1,
    )
}

/// Whether the captured parts lie in the text.
pub open spec fn parts_in(s: Seq<char>, matches: Seq<BreadcrumbMatch>) -> bool {
    forall|i: int, k: int|
        #![trigger matches[i].parts@[k]]
        0 <= i < matches.len() && 0 <= k < matches[i].parts@.len() ==> matches[i].parts@[k].start
            <= matches[i].parts@[k].end <= encode_utf8(s).len()
}

fn segments(text: RopeSlice, parts: &Vec<BreadcrumbPart>) -> (segments: Vec<BreadcrumbSegment>)
    requires
        forall|k: int|
            0 <= k < parts@.len() ==> (#[trigger] parts@[k]).start <= parts@[k].end <= encode_utf8(
                chars_of(text),
            ).len(),
    ensures
        segments@.map_values(|segment: BreadcrumbSegment| segment@) == segments_of(
            chars_of(text),
            parts@,
        ),
{
    let ghost s = chars_of(text);
    let ghost seen = |segment: BreadcrumbSegment| segment@;
    let mut segments: Vec<BreadcrumbSegment> = Vec::new();
    let mut i: usize = 0;
    assert(segments@.map_values(seen) =~= segments_of(s, parts@.take(0)));
    while i < parts.len()
        invariant
            s == chars_of(text),
            i <= parts@.len(),
            seen == (|segment: BreadcrumbSegment| segment@),
            forall|k: int|
                0 <= k < parts@.len() ==> (#[trigger] parts@[k]).start <= parts@[k].end
                    <= encode_utf8(s).len(),
            segments@.map_values(seen) == segments_of(s, parts@.take(i as int)),
        decreases parts.len() - i,
    {
        let part: &BreadcrumbPart = &parts[i];
        assert(parts@[i as int].start <= parts@[i as int].end);
        let from: usize = char_at_byte(text, part.start);
        let to: usize = char_at_byte(text, part.end);
        proof {
            lemma_char_of_monotone(s, part.start as nat, part.end as nat, from as nat, to as nat);
            assert(parts@.take(i + 1).drop_last() =~= parts@.take(i as int));
        }
        let flat: String = flatten_part(text, from, to);
        assert(flat@ == part_text(s, parts@[i as int]));
        if !flat.as_str().is_empty() {
            let ghost before = segments@;
            let segment = BreadcrumbSegment { scope: part.scope.clone(), text: flat };
            segments.push(segment);
            assert(segments@.map_values(seen) =~= before.map_values(seen).push(segment@));
        }
        i += 1;
    }
    assert(parts@.take(i as int) =~= parts@);
    segments
}

fn test_outer_nodes_first(a: &((u32, u32), Breadcrumb), b: &((u32, u32), Breadcrumb)) -> (le: bool)
    ensures
        le == outer_nodes_first::<Breadcrumb>()(*a, *b),
{
    a.0.0 < b.0.0 || (a.0.0 == b.0.0 && a.0.1 >= b.0.1)
}

/// Sorting does not depend on what the nodes carry.
proof fn lemma_sorted_map<T, U>(s: Seq<((u32, u32), T)>, view: spec_fn(T) -> U)
    ensures
        sorted_by(
            s.map_values(|x: ((u32, u32), T)| (x.0, view(x.1))),
            outer_nodes_first::<U>(),
        ) == sorted_by(s, outer_nodes_first::<T>()).map_values(
            |x: ((u32, u32), T)| (x.0, view(x.1)),
        ),
    decreases s.len(),
{
    let lift = |x: ((u32, u32), T)| (x.0, view(x.1));
    let mapped = s.map_values(lift);
    if s.len() > 0 {
        assert(mapped.drop_last() =~= s.drop_last().map_values(lift));
        lemma_sorted_map(s.drop_last(), view);
        lemma_insert_map(sorted_by(s.drop_last(), outer_nodes_first::<T>()), s.last(), view);
    } else {
        assert(mapped =~= Seq::empty());
        assert(sorted_by(s, outer_nodes_first::<T>()).map_values(lift) =~= Seq::empty());
    }
}

proof fn lemma_insert_map<T, U>(
    s: Seq<((u32, u32), T)>,
    x: ((u32, u32), T),
    view: spec_fn(T) -> U,
)
    ensures
        crate::sorting::insert_sorted(
            s.map_values(|x: ((u32, u32), T)| (x.0, view(x.1))),
            (x.0, view(x.1)),
            outer_nodes_first::<U>(),
        ) == crate::sorting::insert_sorted(s, x, outer_nodes_first::<T>()).map_values(
            |x: ((u32, u32), T)| (x.0, view(x.1)),
        ),
    decreases s.len(),
{
    let lift = |x: ((u32, u32), T)| (x.0, view(x.1));
    let mapped = s.map_values(lift);
    if s.len() == 0 || outer_nodes_first::<T>()(s.last(), x) {
        assert(mapped.push(lift(x)) =~= s.push(x).map_values(lift));
    } else {
        assert(mapped.drop_last() =~= s.drop_last().map_values(lift));
        lemma_insert_map(s.drop_last(), x, view);
        let rest = crate::sorting::insert_sorted(s.drop_last(), x, outer_nodes_first::<T>());
        assert(rest.push(s.last()).map_values(lift) =~= rest.map_values(lift).push(
            lift(s.last()),
        ));
    }
}

/// Returns the breadcrumbs of the syntax nodes that `matches` tells around the byte `pos`, from the
/// outermost to the innermost.
pub fn breadcrumbs(text: RopeSlice, matches: &Vec<BreadcrumbMatch>, pos: u32) -> (crumbs: Vec<
    Breadcrumb,
>)
    requires
        parts_in(chars_of(text), matches@),
    ensures
        crumbs@.map_values(|crumb: Breadcrumb| crumb@) == crumbs_at(chars_of(text), matches@, pos),
{
    let ghost s = chars_of(text);
    let ghost seen = |crumb: Breadcrumb| crumb@;
    let ghost lift = |x: ((u32, u32), Breadcrumb)| (x.0, seen(x.1));
    let mut found: Vec<((u32, u32), Breadcrumb)> = Vec::new();
    let mut i: usize = 0;
    assert(found@.map_values(lift) =~= enclosing_crumbs(s, matches@.take(0), pos));
    while i < matches.len()
        invariant
            s == chars_of(text),
            parts_in(s, matches@),
            i <= matches@.len(),
            seen == (|crumb: Breadcrumb| crumb@),
            lift == (|x: ((u32, u32), Breadcrumb)| (x.0, seen(x.1))),
            found@.map_values(lift) == enclosing_crumbs(s, matches@.take(i as int), pos),
        decreases matches.len() - i,
    {
        let this: &BreadcrumbMatch = &matches[i];
        proof {
            assert(matches@.take(i + 1).drop_last() =~= matches@.take(i as int));
            assert forall|k: int| 0 <= k < this.parts@.len() implies (
            #[trigger] this.parts@[k]).start <= this.parts@[k].end <= encode_utf8(s).len() by {
                assert(matches@[i as int].parts@[k].start <= matches@[i as int].parts@[k].end);
            }
        }
        if let Some((start, end)) = this.node {
            if start <= pos && pos < end {
                let segments: Vec<BreadcrumbSegment> = segments(text, &this.parts);
                if segments.len() > 0 {
                    let ghost before = found@;
                    let crumb = Breadcrumb { segments };
                    found.push(((start, end), crumb));
                    assert(found@.map_values(lift) =~= before.map_values(lift).push(
                        ((start, end), crumb@),
                    ));
                }
            }
        }
        i += 1;
    }
    assert(matches@.take(i as int) =~= matches@);
    let ghost given = found@;
    let sorted: Vec<((u32, u32), Breadcrumb)> = stable_sort(
        found,
        test_outer_nodes_first,
        Ghost(outer_nodes_first::<Breadcrumb>()),
    );
    proof {
        lemma_sorted_map(given, seen);
    }
    let ghost all = sorted@;
    let mut crumbs: Vec<Breadcrumb> = Vec::new();
    for item in iter: sorted
        invariant
            iter.seq() == all,
            crumbs@.len() == iter.index(),
            forall|k: int| 0 <= k < crumbs@.len() ==> #[trigger] crumbs@[k] == all[k].1,
    {
        crumbs.push(item.1);
    }
    proof {
        let second = |crumb: ((u32, u32), Seq<SegmentView>)| crumb.1;
        assert(crumbs@.map_values(seen) =~= all.map_values(lift).map_values(second));
    }
    crumbs
}

/// White space becomes a single space, but for the one after an opening and before a closing
/// parenthesis or square bracket, which goes. Across lines the one inside angle brackets and before a
/// comma goes too, and so does a comma before a closing bracket.
pub proof fn law_gaps_become_spaces(flat: Seq<char>, next: char, line_break: bool)
    requires
        flat.len() > 0,
    ensures
        ({
            let prev = flat[flat.len() - 1];
            let then = bridged(flat, next, line_break);
            let closing = next == ')' || next == ']';
            let opened = prev == '(' || prev == '[';
            &&& opened && prev != ',' ==> then == flat
            &&& closing && !line_break ==> then == flat
            &&& closing && line_break && prev != ',' ==> then == flat
            &&& line_break && prev == ',' && (closing || next == '>') ==> then == trimmed_end(
                flat.drop_last(),
            )
            &&& line_break && (prev == '<' || next == '>') && prev != ',' ==> then == flat
            &&& line_break && next == ',' ==> then == flat
            &&& !opened && !closing && !line_break ==> then == flat.push(' ')
            &&& !opened && !closing && prev != '<' && next != '>' && next != ',' ==> then
                == flat.push(' ')
        }),
{
}

proof fn lemma_plain_text_is_flat(s: Seq<char>, from: int, flat: Seq<char>)
    requires
        0 <= from <= s.len(),
        flat == s.take(from),
        forall|i: int| 0 <= i < s.len() ==> !white_space(#[trigger] s[i]),
        encode_utf8(s).len() <= MAX_BREADCRUMB_SEGMENT_LEN,
    ensures
        flattened_from(s, from, flat) == s,
    decreases s.len() - from,
{
    if from < s.len() {
        assert(flat.push(s[from]) =~= s.take(from + 1));
        lemma_byte_of_monotone(s, from + 1, s.len() as int);
        lemma_byte_of_end(s);
        assert(!white_space(s[from]));
        lemma_plain_text_is_flat(s, from + 1, flat.push(s[from]));
    } else {
        assert(s.take(from) =~= s);
    }
}

/// A text that fits and has no white space is kept as it is.
pub proof fn law_plain_text_is_kept(s: Seq<char>)
    requires
        forall|i: int| 0 <= i < s.len() ==> !white_space(#[trigger] s[i]),
        encode_utf8(s).len() <= MAX_BREADCRUMB_SEGMENT_LEN,
    ensures
        flattened(s) == s,
{
    assert(s.take(0) =~= Seq::empty());
    lemma_plain_text_is_flat(s, 0, Seq::empty());
}

/// Every captured part that has a text adds a segment with its scope and its text after those of the
/// parts before it, and one without a text adds nothing.
pub proof fn law_parts_become_segments(
    s: Seq<char>,
    parts: Seq<BreadcrumbPart>,
    part: BreadcrumbPart,
)
    ensures
        part_text(s, part).len() == 0 ==> segments_of(s, parts.push(part)) == segments_of(s, parts),
        part_text(s, part).len() > 0 ==> ({
            let before = segments_of(s, parts);
            let after = segments_of(s, parts.push(part));
            &&& after.len() == before.len() + 1
            &&& after.drop_last() == before
            &&& after.last().scope == part.scope@
            &&& after.last().text == part_text(s, part)
        }),
{
    assert(parts.push(part).drop_last() =~= parts);
    if part_text(s, part).len() > 0 {
        assert(segments_of(s, parts.push(part)).drop_last() =~= segments_of(s, parts));
    }
}

proof fn lemma_enclosing(s: Seq<char>, matches: Seq<BreadcrumbMatch>, pos: u32)
    ensures
        forall|k: int|
            0 <= k < enclosing_crumbs(s, matches, pos).len() ==> exists|i: int|
                0 <= i < matches.len() && (#[trigger] matches[i]).node == Some(
                    (#[trigger] enclosing_crumbs(s, matches, pos)[k]).0,
                ) && segments_of(s, matches[i].parts@) == enclosing_crumbs(s, matches, pos)[k].1
                    && enclosing_crumbs(s, matches, pos)[k].0.0 <= pos < enclosing_crumbs(
                    s,
                    matches,
                    pos,
                )[k].0.1 && enclosing_crumbs(s, matches, pos)[k].1.len() > 0,
        forall|i: int|
            #![trigger matches[i]]
            0 <= i < matches.len() && (matches[i].node matches Some((start, end)) && start <= pos
                < end) && segments_of(s, matches[i].parts@).len() > 0 ==> enclosing_crumbs(
                s,
                matches,
                pos,
            ).contains((matches[i].node->0, segments_of(s, matches[i].parts@))),
    decreases matches.len(),
{
    if matches.len() > 0 {
        let rest = matches.drop_last();
        lemma_enclosing(s, rest, pos);
        let before = enclosing_crumbs(s, rest, pos);
        let all = enclosing_crumbs(s, matches, pos);
        assert(matches[matches.len() - 1] == matches.last());
        assert forall|k: int| 0 <= k < all.len() implies exists|i: int|
            0 <= i < matches.len() && (#[trigger] matches[i]).node == Some((#[trigger] all[k]).0)
                && segments_of(s, matches[i].parts@) == all[k].1 && all[k].0.0 <= pos < all[k].0.1
                && all[k].1.len() > 0 by {
            if k < before.len() {
                assert(all[k] == before[k]);
                let i = choose|i: int|
                    0 <= i < rest.len() && (#[trigger] rest[i]).node == Some(before[k].0)
                        && segments_of(s, rest[i].parts@) == before[k].1;
                assert(matches[i] == rest[i]);
            }
        }
        assert forall|i: int|
            #![trigger matches[i]]
            0 <= i < matches.len() && (matches[i].node matches Some((start, end)) && start <= pos
                < end) && segments_of(s, matches[i].parts@).len() > 0 implies all.contains(
            (matches[i].node->0, segments_of(s, matches[i].parts@)),
        ) by {
            let crumb = (matches[i].node->0, segments_of(s, matches[i].parts@));
            if i < rest.len() {
                assert(rest[i] == matches[i]);
                assert(before.contains(crumb));
                assert(all[before.index_of(crumb)] == crumb);
            } else {
                assert(all[all.len() - 1] == crumb);
            }
        }
    }
}

/// The breadcrumbs are those of the nodes around a position, from the outermost to the innermost: a
/// node starts no earlier than the one before it, and ends no later if it starts with it. Each comes
/// from a match whose node the position is in, before its end, and that has segments. The nodes are
/// returned.
pub proof fn law_breadcrumbs_go_inwards(s: Seq<char>, matches: Seq<BreadcrumbMatch>, pos: u32) -> (nodes:
    Seq<(u32, u32)>)
    ensures
        nodes.len() == crumbs_at(s, matches, pos).len(),
        forall|k: int|
            0 <= k < nodes.len() ==> (#[trigger] nodes[k]).0 <= pos < nodes[k].1 && exists|i: int|
                0 <= i < matches.len() && (#[trigger] matches[i]).node == Some(nodes[k])
                    && segments_of(s, matches[i].parts@) == crumbs_at(s, matches, pos)[k]
                    && crumbs_at(s, matches, pos)[k].len() > 0,
        forall|j: int, k: int|
            #![trigger nodes[j], nodes[k]]
            0 <= j < k < nodes.len() ==> nodes[j].0 < nodes[k].0 || (nodes[j].0 == nodes[k].0
                && nodes[k].1 <= nodes[j].1),
        forall|i: int|
            #![trigger matches[i]]
            0 <= i < matches.len() && (matches[i].node matches Some((start, end)) && start <= pos
                < end) && segments_of(s, matches[i].parts@).len() > 0 ==> crumbs_at(
                s,
                matches,
                pos,
            ).contains(segments_of(s, matches[i].parts@)),
{
    let crumbs = enclosing_crumbs(s, matches, pos);
    let le = outer_nodes_first::<Seq<SegmentView>>();
    let sorted = sorted_by(crumbs, le);
    let nodes = sorted.map_values(|crumb: ((u32, u32), Seq<SegmentView>)| crumb.0);
    lemma_enclosing(s, matches, pos);
    assert(total_preorder(le));
    lemma_sorted_by(crumbs, le);
    assert forall|k: int| 0 <= k < nodes.len() implies (#[trigger] nodes[k]).0 <= pos < nodes[k].1
        && exists|i: int|
        0 <= i < matches.len() && (#[trigger] matches[i]).node == Some(nodes[k]) && segments_of(
            s,
            matches[i].parts@,
        ) == crumbs_at(s, matches, pos)[k] && crumbs_at(s, matches, pos)[k].len() > 0 by {
        assert(sorted.contains(sorted[k]));
        lemma_sorted_by_contains(crumbs, le, sorted[k]);
        let m = crumbs.index_of(sorted[k]);
        assert(crumbs[m] == sorted[k]);
    }
    assert forall|j: int, k: int|
        #![trigger nodes[j], nodes[k]]
        0 <= j < k < nodes.len() implies nodes[j].0 < nodes[k].0 || (nodes[j].0 == nodes[k].0
        && nodes[k].1 <= nodes[j].1) by {
        assert(le(sorted[j], sorted[k]));
    }
    assert forall|i: int|
        #![trigger matches[i]]
        0 <= i < matches.len() && (matches[i].node matches Some((start, end)) && start <= pos < end)
            && segments_of(s, matches[i].parts@).len() > 0 implies crumbs_at(
        s,
        matches,
        pos,
    ).contains(segments_of(s, matches[i].parts@)) by {
        let crumb = (matches[i].node->0, segments_of(s, matches[i].parts@));
        assert(crumbs.contains(crumb));
        lemma_sorted_by_contains(crumbs, le, crumb);
        let k = sorted.index_of(crumb);
        assert(crumbs_at(s, matches, pos)[k] == crumb.1);
    }
    nodes
}

} // verus!
