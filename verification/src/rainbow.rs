//! Rainbow brackets: brackets highlighted by the depth of the scopes they are in.

use crate::overlays::{Highlight, OverlayHighlights, Span};
use crate::syntax_tree::{char_at_byte, char_of};
use crate::text::{byte_of, chars_of};
use ropey::RopeSlice;
use vstd::prelude::*;
use vstd::utf8::encode_utf8;

verus! {

/// What a rainbow query captured a node as.
#[derive(Clone, Copy, Debug, PartialEq, Eq, Structural)]
pub enum RainbowCapture {
    /// A scope, which is one level deeper than the scopes around it.
    Scope,
    /// A bracket, which has the color of its scope.
    Bracket,
    Other,
}

/// A node that a rainbow query captured.
#[derive(Clone, Copy, Debug)]
pub struct RainbowMatch {
    pub capture: RainbowCapture,
    pub start: u32,
    pub end: u32,
    /// The node and its parent, by their numbers.
    pub node: usize,
    pub parent: Option<usize>,
    /// Whether brackets of a scope need not be children of its node.
    pub include_children: bool,
}

/// A scope that is open.
#[derive(Clone, Copy, Debug)]
pub struct RainbowScope {
    pub end: u32,
    /// The node whose children the brackets of the scope are.
    pub node: Option<usize>,
    pub highlight: Highlight,
}

/// The open scopes that do not end before a capture that begins at `start`.
pub open spec fn still_open(scopes: Seq<RainbowScope>, start: u32) -> Seq<RainbowScope>
    decreases scopes.len(),
{
    if scopes.len() > 0 && start >= scopes.last().end {
        still_open(scopes.drop_last(), start)
    } else {
        scopes
    }
}

/// The open scopes after the matches `matches`.
pub open spec fn scopes_after(matches: Seq<RainbowMatch>, rainbow_length: nat) -> Seq<RainbowScope>
    decreases matches.len(),
{
    if matches.len() == 0 {
        Seq::empty()
    } else {
        let item = matches.last();
        let scopes = still_open(scopes_after(matches.drop_last(), rainbow_length), item.start);
        if item.capture == RainbowCapture::Scope {
            scopes.push(
                RainbowScope {
                    end: item.end,
                    node: if item.include_children {
                        None
                    } else {
                        Some(item.node)
                    },
                    highlight: Highlight((scopes.len() % rainbow_length) as u32),
                },
            )
        } else {
            scopes
        }
    }
}

/// The first char at or after the byte `byte`, or the end of the text.
pub open spec fn char_from(s: Seq<char>, byte: nat) -> nat {
    let i = char_of(s, byte);
    if i < s.len() && byte_of(s, i as int) < byte {
        i + 1
    } else {
        i
    }
}

/// The bytes of `byte` that are in the text.
pub open spec fn clipped(s: Seq<char>, byte: u32) -> nat {
    if byte as nat <= encode_utf8(s).len() {
        byte as nat
    } else {
        encode_utf8(s).len()
    }
}

/// The highlights of the brackets of `matches`: every bracket has the color of the innermost scope
/// around it, unless that scope wants its brackets to be children of its node and it is not.
pub open spec fn rainbow_spans(
    matches: Seq<RainbowMatch>,
    s: Seq<char>,
    rainbow_length: nat,
) -> Seq<Span>
    decreases matches.len(),
{
    if matches.len() == 0 {
        Seq::empty()
    } else {
        let item = matches.last();
        let before = rainbow_spans(matches.drop_last(), s, rainbow_length);
        let scopes = still_open(scopes_after(matches.drop_last(), rainbow_length), item.start);
        if item.capture == RainbowCapture::Bracket && scopes.len() > 0 && (scopes.last().node
            is None || item.parent == scopes.last().node) {
            before.push(
                Span {
                    highlight: scopes.last().highlight,
                    start: char_of(s, clipped(s, item.start)) as usize,
                    end: char_from(s, clipped(s, item.end)) as usize,
                },
            )
        } else {
            before
        }
    }
}

proof fn lemma_scopes(matches: Seq<RainbowMatch>, rainbow_length: nat)
    requires
        rainbow_length > 0,
    ensures
        scopes_after(matches, rainbow_length).len() <= matches.len(),
        forall|i: int|
            0 <= i < scopes_after(matches, rainbow_length).len() ==> (#[trigger] scopes_after(
                matches,
                rainbow_length,
            )[i]).highlight.0 == (i as nat % rainbow_length) as u32,
    decreases matches.len(),
{
    if matches.len() > 0 {
        let t = matches.drop_last();
        lemma_scopes(t, rainbow_length);
        let before = scopes_after(t, rainbow_length);
        let open = still_open(before, matches.last().start);
        lemma_still_open(before, matches.last().start);
        let all = scopes_after(matches, rainbow_length);
        assert forall|i: int| 0 <= i < all.len() implies (#[trigger] all[i]).highlight.0 == (
        i as nat % rainbow_length) as u32 by {
            if i < open.len() {
                assert(all[i] == open[i]);
                assert(open[i] == before[i]);
            }
        }
    }
}

proof fn lemma_still_open(scopes: Seq<RainbowScope>, start: u32)
    ensures
        still_open(scopes, start).len() <= scopes.len(),
        forall|i: int|
            0 <= i < still_open(scopes, start).len() ==> #[trigger] still_open(scopes, start)[i]
                == scopes[i],
    decreases scopes.len(),
{
    if scopes.len() > 0 && start >= scopes.last().end {
        lemma_still_open(scopes.drop_last(), start);
    }
}

/// Every scope has the color of its depth: the colors are used in turn, from the outermost scope
/// inwards, and start over when they run out.
pub proof fn law_scopes_have_the_color_of_their_depth(
    matches: Seq<RainbowMatch>,
    rainbow_length: nat,
    depth: int,
)
    requires
        0 < rainbow_length <= u32::MAX,
        0 <= depth < scopes_after(matches, rainbow_length).len(),
    ensures
        scopes_after(matches, rainbow_length)[depth].highlight.0 == depth % rainbow_length as int,
{
    lemma_scopes(matches, rainbow_length);
    assert(0 <= depth % rainbow_length as int && depth % rainbow_length as int
        <= rainbow_length as int - 1) by (nonlinear_arith)
        requires
            rainbow_length > 0,
            depth >= 0,
    ;
}

/// The char that `byte` belongs to, or the end of the text for a byte past it.
fn floor_char(text: RopeSlice, byte: u32) -> (char_idx: usize)
    requires
        encode_utf8(chars_of(text)).len() <= u32::MAX,
    ensures
        char_idx as nat == char_of(chars_of(text), clipped(chars_of(text), byte)),
        char_idx <= chars_of(text).len(),
{
    let len: usize = text.len_bytes();
    if byte as usize <= len {
        char_at_byte(text, byte)
    } else {
        char_at_byte(text, len as u32)
    }
}

/// The first char at or after `byte`, or the end of the text.
fn ceil_char(text: RopeSlice, byte: u32) -> (char_idx: usize)
    requires
        encode_utf8(chars_of(text)).len() <= u32::MAX,
    ensures
        char_idx as nat == char_from(chars_of(text), clipped(chars_of(text), byte)),
{
    let len: usize = text.len_bytes();
    let byte: usize = if byte as usize <= len {
        byte as usize
    } else {
        len
    };
    let i: usize = floor_char(text, byte as u32);
    if i < text.len_chars() && text.char_to_byte(i) < byte {
        i + 1
    } else {
        i
    }
}

/// The highlights of the brackets among `matches`, which are in document order. The colors are
/// those of the depth of the scopes around the brackets, of which there are `rainbow_length`.
pub fn rainbow_highlights(text: RopeSlice, rainbow_length: usize, matches: &Vec<RainbowMatch>) -> (
    highlights: OverlayHighlights)
    requires
        rainbow_length > 0,
        encode_utf8(chars_of(text)).len() <= u32::MAX,
        matches@.len() <= u32::MAX,
    ensures
        highlights@ == rainbow_spans(matches@, chars_of(text), rainbow_length as nat),
        highlights is Heterogenous,
{
    let ghost s = chars_of(text);
    let mut scope_stack: Vec<RainbowScope> = Vec::new();
    let mut highlights: Vec<(Highlight, std::ops::Range<usize>)> = Vec::new();
    let ghost mut spans: Seq<Span> = Seq::empty();
    let mut i: usize = 0;
    while i < matches.len()
        invariant
            s == chars_of(text),
            rainbow_length > 0,
            encode_utf8(s).len() <= u32::MAX,
            matches@.len() <= u32::MAX,
            i <= matches@.len(),
            scope_stack@ == scopes_after(matches@.take(i as int), rainbow_length as nat),
            spans == rainbow_spans(matches@.take(i as int), s, rainbow_length as nat),
            spans.len() == highlights@.len(),
            forall|k: int|
                0 <= k < spans.len() ==> #[trigger] spans[k] == (Span {
                    highlight: highlights@[k].0,
                    start: highlights@[k].1.start,
                    end: highlights@[k].1.end,
                }),
        decreases matches.len() - i,
    {
        let item: RainbowMatch = matches[i];
        let ghost before = scope_stack@;
        let ghost old_spans = spans;
        proof {
            assert(matches@.take(i + 1).drop_last() =~= matches@.take(i as int));
            lemma_scopes(matches@.take(i as int), rainbow_length as nat);
        }
        // Pop any scopes that end before this capture begins.
        while scope_stack.len() > 0 && item.start >= scope_stack[scope_stack.len() - 1].end
            invariant
                still_open(before, item.start) == still_open(scope_stack@, item.start),
                scope_stack@.len() <= before.len(),
            decreases scope_stack.len(),
        {
            scope_stack.pop();
        }
        match item.capture {
            RainbowCapture::Scope => {
                let depth: usize = scope_stack.len() % rainbow_length;
                scope_stack.push(
                    RainbowScope {
                        end: item.end,
                        node: if item.include_children {
                            None
                        } else {
                            Some(item.node)
                        },
                        highlight: Highlight(depth as u32),
                    },
                );
            },
            RainbowCapture::Bracket => {
                if scope_stack.len() > 0 {
                    let scope: RainbowScope = scope_stack[scope_stack.len() - 1];
                    let of_scope: bool = match scope.node {
                        Some(node) => match item.parent {
                            Some(parent) => parent == node,
                            None => false,
                        },
                        None => true,
                    };
                    if of_scope {
                        let start: usize = floor_char(text, item.start);
                        let end: usize = ceil_char(text, item.end);
                        highlights.push((scope.highlight, start..end));
                        proof {
                            spans = spans.push(Span { highlight: scope.highlight, start, end });
                            assert forall|k: int| 0 <= k < spans.len() implies #[trigger] spans[k]
                                == (Span {
                                highlight: highlights@[k].0,
                                start: highlights@[k].1.start,
                                end: highlights@[k].1.end,
                            }) by {
                                if k < old_spans.len() {
                                    assert(spans[k] == old_spans[k]);
                                }
                            }
                        }
                    }
                }
            },
            RainbowCapture::Other => {},
        }
        i += 1;
    }
    assert(matches@.take(i as int) =~= matches@);
    let highlights = OverlayHighlights::Heterogenous { highlights };
    assert(highlights@ =~= spans);
    highlights
}

/// The scopes that are still open are the outermost ones: the innermost of them ends after `start`,
/// and those inside it do not.
pub proof fn law_scopes_end_from_the_inside(scopes: Seq<RainbowScope>, start: u32)
    ensures
        still_open(scopes, start).len() <= scopes.len(),
        still_open(scopes, start) == scopes.take(still_open(scopes, start).len() as int),
        still_open(scopes, start).len() > 0 ==> scopes[still_open(scopes, start).len() - 1].end
            > start,
        forall|i: int|
            still_open(scopes, start).len() <= i < scopes.len() ==> (#[trigger] scopes[i]).end
                <= start,
    decreases scopes.len(),
{
    if scopes.len() > 0 && start >= scopes.last().end {
        let rest = scopes.drop_last();
        law_scopes_end_from_the_inside(rest, start);
        let n = still_open(scopes, start).len() as int;
        assert(rest.take(n) =~= scopes.take(n));
        assert forall|i: int| n <= i < scopes.len() implies (#[trigger] scopes[i]).end <= start by {
            if i < rest.len() {
                assert(rest[i] == scopes[i]);
            }
        }
    } else {
        assert(scopes.take(scopes.len() as int) =~= scopes);
    }
}

/// A bracket has the color of the innermost scope that it is in, if there is one, and if it is a child
/// of the node of the scope or need not be. Nothing else is colored.
pub proof fn law_brackets_have_the_color_of_their_scope(
    matches: Seq<RainbowMatch>,
    item: RainbowMatch,
    s: Seq<char>,
    rainbow_length: nat,
)
    ensures
        ({
            let before = rainbow_spans(matches, s, rainbow_length);
            let after = rainbow_spans(matches.push(item), s, rainbow_length);
            let open = still_open(scopes_after(matches, rainbow_length), item.start);
            let colored = item.capture == RainbowCapture::Bracket && open.len() > 0 && (open[
                open.len() - 1
            ].node is None || open[open.len() - 1].node == item.parent);
            &&& !colored ==> after == before
            &&& colored ==> after.len() == before.len() + 1 && after.drop_last() == before
                && after.last().highlight == open[open.len() - 1].highlight
        }),
{
    assert(matches.push(item).drop_last() =~= matches);
    assert(rainbow_spans(matches, s, rainbow_length).len() >= 0);
    let before = rainbow_spans(matches, s, rainbow_length);
    let after = rainbow_spans(matches.push(item), s, rainbow_length);
    if after.len() > before.len() {
        assert(after.drop_last() =~= before);
    }
}

/// A scope opens inside those that are still open at its start, with the next color in turn, and it
/// wants its brackets to be children of its node unless it includes them all. Nothing else opens one.
pub proof fn law_scopes_open_inside_others(
    matches: Seq<RainbowMatch>,
    item: RainbowMatch,
    rainbow_length: nat,
)
    requires
        0 < rainbow_length <= u32::MAX,
    ensures
        ({
            let open = still_open(scopes_after(matches, rainbow_length), item.start);
            let after = scopes_after(matches.push(item), rainbow_length);
            &&& item.capture != RainbowCapture::Scope ==> after == open
            &&& item.capture == RainbowCapture::Scope ==> {
                &&& after.len() == open.len() + 1
                &&& after.drop_last() == open
                &&& after.last().end == item.end
                &&& after.last().highlight.0 == open.len() % rainbow_length
                &&& item.include_children ==> after.last().node is None
                &&& !item.include_children ==> after.last().node == Some(item.node)
            }
        }),
{
    assert(matches.push(item).drop_last() =~= matches);
    let open = still_open(scopes_after(matches, rainbow_length), item.start);
    if item.capture == RainbowCapture::Scope {
        assert(scopes_after(matches.push(item), rainbow_length).drop_last() =~= open);
    }
}

/// The span of a bracket goes from the char that its first byte belongs to up to the first char that
/// starts at or after its end.
pub proof fn law_spans_cover_their_bytes(s: Seq<char>, byte: nat)
    requires
        char_of(s, byte) < s.len() ==> byte < byte_of(s, char_of(s, byte) as int + 1),
        byte_of(s, char_of(s, byte) as int) <= byte,
    ensures
        char_from(s, byte) < s.len() ==> byte_of(s, char_from(s, byte) as int) >= byte,
        char_from(s, byte) == char_of(s, byte) || char_from(s, byte) == char_of(s, byte) + 1,
        byte_of(s, char_of(s, byte) as int) == byte ==> char_from(s, byte) == char_of(s, byte),
{
}

/// Bytes past the end of a text count as its end.
pub proof fn law_bytes_are_kept_in_the_text(s: Seq<char>, byte: u32)
    ensures
        byte <= encode_utf8(s).len() ==> clipped(s, byte) == byte,
        byte > encode_utf8(s).len() ==> clipped(s, byte) == encode_utf8(s).len(),
{
}

} // verus!
