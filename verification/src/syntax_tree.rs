//! Syntax trees as plain values, and the foldable regions of a text that they tell.

use crate::fold::{closing_bracket, is_closing_bracket, nest, nested, region_fold, tagged, Fold};
use crate::fold_rows::all_hide;
use crate::selection::Range;
use crate::text::{
    byte_of, chars_of, last_non_whitespace, last_visible, lemma_byte_of_end,
    lemma_byte_of_monotone, lemma_first_visible, lemma_last_visible, lemma_line_of_bound,
    lemma_line_of_monotone, lemma_line_start, lemma_line_start_bound, line_first_non_whitespace,
    line_first_visible, line_of, line_start,
};
use ropey::RopeSlice;
use vstd::prelude::*;
use vstd::utf8::encode_utf8;

verus! {

/// A node of a syntax tree.
#[derive(Clone, Debug)]
pub struct SyntaxNode {
    /// The name of the node's kind.
    pub kind: String,
    /// The name of the field of its parent that the node is, if it is one.
    pub field: Option<String>,
    /// Whether the node is named and its kind is shown.
    pub visible: bool,
    /// Whether the node can be anywhere in the tree, like a comment.
    pub extra: bool,
    pub start_byte: u32,
    pub end_byte: u32,
    /// The index of the node's parent, for all nodes but the root.
    pub parent: Option<usize>,
    /// The indices of the node's children.
    pub children: Vec<usize>,
}

/// A syntax tree: its nodes, every one after its parent, and the first and the last node of every
/// foldable region.
#[derive(Clone, Debug)]
pub struct SyntaxTree {
    pub nodes: Vec<SyntaxNode>,
    pub folds: Vec<(usize, usize)>,
}

impl SyntaxTree {
    /// Whether the links of the nodes make a tree.
    pub open spec fn wf(&self) -> bool {
        &&& forall|n: int|
            0 <= n < self.nodes@.len() ==> (#[trigger] self.nodes@[n]).start_byte
                <= self.nodes@[n].end_byte
        &&& forall|n: int|
            0 <= n < self.nodes@.len() ==> ((#[trigger] self.nodes@[n]).parent matches Some(p)
                ==> p < n)
        &&& forall|n: int, i: int|
            #![trigger self.nodes@[n].children@[i]]
            0 <= n < self.nodes@.len() && 0 <= i < self.nodes@[n].children@.len() ==> n
                < self.nodes@[n].children@[i] < self.nodes@.len() && self.nodes@[n].start_byte
                <= self.nodes@[self.nodes@[n].children@[i] as int].start_byte
        &&& forall|i: int|
            0 <= i < self.folds@.len() ==> (#[trigger] self.folds@[i]).0 < self.nodes@.len()
                && self.folds@[i].1 < self.nodes@.len()
                && self.nodes@[self.folds@[i].0 as int].start_byte
                <= self.nodes@[self.folds@[i].1 as int].start_byte
    }

    /// Whether the nodes lie in a text of `len` bytes.
    pub open spec fn fits(&self, len: nat) -> bool {
        &&& len < u32::MAX
        &&& forall|n: int|
            0 <= n < self.nodes@.len() ==> (#[trigger] self.nodes@[n]).end_byte <= len
    }

    /// Whether the nodes cover the same bytes.
    pub open spec fn same_bytes(&self, a: int, b: int) -> bool {
        self.nodes@[a].start_byte == self.nodes@[b].start_byte && self.nodes@[a].end_byte
            == self.nodes@[b].end_byte
    }
}

/// The index of the char that the byte `byte` belongs to.
pub open spec fn char_of(s: Seq<char>, byte: nat) -> nat {
    choose|i: nat|
        i <= s.len() && #[trigger] byte_of(s, i as int) <= byte && (i < s.len() ==> byte < byte_of(
            s,
            i as int + 1,
        ))
}

/// The number of chars between the start of the line and the byte `byte`.
pub open spec fn column_of(s: Seq<char>, byte: nat) -> int {
    let i = char_of(s, byte);
    i - line_start(s, line_of(s, i as int))
}

/// The number of white space chars that the line of the byte `byte` starts with; 0 for a line of
/// nothing else.
pub open spec fn indent_of(s: Seq<char>, byte: nat) -> int {
    let line = line_of(s, char_of(s, byte) as int);
    match line_first_visible(s, line) {
        Some(i) => i - line_start(s, line),
        None => 0,
    }
}

/// Whether the child with index `i` belongs to the content of a node whose first line is indented
/// by `indent`: it is no comment, or one that is indented deeper.
pub open spec fn is_content(tree: &SyntaxTree, s: Seq<char>, indent: int, child: int) -> bool {
    !tree.nodes@[child].extra || column_of(s, tree.nodes@[child].start_byte as nat) > indent
}

/// The last of the first `n` children that belongs to the content of a node.
pub open spec fn last_content(
    tree: &SyntaxTree,
    s: Seq<char>,
    indent: int,
    children: Seq<usize>,
) -> Option<usize>
    decreases children.len(),
{
    if children.len() == 0 {
        None
    } else if is_content(tree, s, indent, children.last() as int) {
        Some(children.last())
    } else {
        last_content(tree, s, indent, children.drop_last())
    }
}

/// The innermost last node of the content of `node`. A node can end with text of its own after its
/// last child.
pub open spec fn content_node(tree: &SyntaxTree, s: Seq<char>, indent: int, node: int) -> int
    decreases tree.nodes@.len() - node,
{
    let children = tree.nodes@[node].children@;
    match last_content(tree, s, indent, children) {
        Some(content) if tree.nodes@[children.last() as int].end_byte == tree.nodes@[node].end_byte
            && node < content < tree.nodes@.len() => content_node(tree, s, indent, content as int),
        _ => node,
    }
}

/// The end of `node` without the comments that trail it, see [`content_end`].
pub open spec fn content_end_of(tree: &SyntaxTree, s: Seq<char>, node: int) -> u32 {
    if tree.nodes@[node].extra {
        tree.nodes@[node].end_byte
    } else {
        let indent = indent_of(s, tree.nodes@[node].start_byte as nat);
        tree.nodes@[content_node(tree, s, indent, node)].end_byte
    }
}

/// The outermost node that covers the same bytes as `node` and all nodes in between.
pub open spec fn widest(tree: &SyntaxTree, node: int) -> int
    decreases node,
{
    match tree.nodes@[node].parent {
        Some(parent) if parent < node && tree.same_bytes(parent as int, node) => widest(
            tree,
            parent as int,
        ),
        _ => node,
    }
}

/// The byte that `node` is, if it is a single one.
pub open spec fn bracket_of(tree: &SyntaxTree, s: Seq<char>, node: int) -> Option<u8> {
    if tree.nodes@[node].end_byte - tree.nodes@[node].start_byte == 1 {
        Some(encode_utf8(s)[tree.nodes@[node].start_byte as int])
    } else {
        None
    }
}

/// The opening bracket for a closing one.
pub open spec fn opener_of(close: u8) -> Option<u8> {
    if close == 0x29 {
        Some(0x28)
    } else if close == 0x5d {
        Some(0x5b)
    } else if close == 0x7d {
        Some(0x7b)
    } else {
        None
    }
}

/// The nodes of `siblings` that are open brackets and not closed among them.
pub open spec fn unclosed(
    tree: &SyntaxTree,
    s: Seq<char>,
    siblings: Seq<usize>,
    open: u8,
    close: u8,
) -> Seq<usize>
    decreases siblings.len(),
{
    if siblings.len() == 0 {
        siblings
    } else {
        let before = unclosed(tree, s, siblings.drop_last(), open, close);
        let sibling = siblings.last();
        let byte = bracket_of(tree, s, sibling as int);
        if byte == Some(open) {
            before.push(sibling)
        } else if byte == Some(close) && before.len() > 0 {
            before.drop_last()
        } else {
            before
        }
    }
}

/// The index of the first sibling that covers the same bytes as `node`, or the number of siblings.
pub open spec fn position_of(tree: &SyntaxTree, siblings: Seq<usize>, node: int, from: int) -> int
    decreases siblings.len() - from,
{
    if from >= siblings.len() {
        siblings.len() as int
    } else if tree.same_bytes(siblings[from] as int, node) {
        from
    } else {
        position_of(tree, siblings, node, from + 1)
    }
}

/// The bracket that `closer` closes among its siblings, see [`matching_opener`].
pub open spec fn opener_node(tree: &SyntaxTree, s: Seq<char>, closer: int) -> Option<usize> {
    let closer = widest(tree, closer);
    match (bracket_of(tree, s, closer), tree.nodes@[closer].parent) {
        (Some(close), Some(parent)) => match opener_of(close) {
            Some(open) => {
                let siblings = tree.nodes@[parent as int].children@;
                let at = position_of(tree, siblings, closer, 0);
                let before = unclosed(tree, s, siblings.take(at), open, close);
                if at < siblings.len() && before.len() > 0 {
                    Some(before.last())
                } else {
                    None
                }
            },
            None => None,
        },
        _ => None,
    }
}

/// Whether `node` reaches the end of the byte range and past its start. An empty node need not
/// reach past the start.
pub open spec fn reaches(node: SyntaxNode, start: u32, end: u32) -> bool {
    &&& node.end_byte >= end
    &&& node.end_byte > start || (node.start_byte == node.end_byte && node.end_byte == start)
}

/// The first child of `children` that reaches the byte range.
pub open spec fn reaching(tree: &SyntaxTree, children: Seq<usize>, start: u32, end: u32) -> Option<
    usize,
>
    decreases children.len(),
{
    if children.len() == 0 {
        None
    } else {
        if reaches(tree.nodes@[children[0] as int], start, end) {
            Some(children[0])
        } else {
            reaching(tree, children.skip(1), start, end)
        }
    }
}

/// The smallest node at or below `node` that spans the byte range.
pub open spec fn descendant(tree: &SyntaxTree, node: int, start: u32, end: u32) -> int
    decreases tree.nodes@.len() - node,
{
    match reaching(tree, tree.nodes@[node].children@, start, end) {
        Some(child) if tree.nodes@[child as int].start_byte <= start && node < child
            < tree.nodes@.len() => descendant(tree, child as int, start, end),
        _ => node,
    }
}

/// The closing bracket that starts the last line of the region, see [`pulled_up_closer`].
pub open spec fn closer_of(
    tree: &SyntaxTree,
    s: Seq<char>,
    last: int,
    from: int,
    to: int,
) -> Option<usize> {
    match last_visible(s, from, to) {
        Some(last_char) => match line_first_visible(s, line_of(s, last_char)) {
            Some(closer) if closing_bracket(s[closer]) => {
                let byte = byte_of(s, closer);
                let token = descendant(tree, last, byte as u32, (byte + 1) as u32);
                match opener_node(tree, s, token) {
                    Some(opener) if line_of(
                        s,
                        char_of(s, tree.nodes@[opener as int].start_byte as nat) as int,
                    ) == line_of(s, from) => Some(closer as usize),
                    _ => None,
                }
            },
            _ => None,
        },
        None => None,
    }
}

/// The fold of the region between the nodes `first` and `last`.
pub open spec fn fold_of_nodes(
    tree: &SyntaxTree,
    s: Seq<char>,
    first: usize,
    last: usize,
) -> Option<Fold> {
    let from = char_of(s, tree.nodes@[first as int].start_byte as nat) as int;
    let to = char_of(s, content_end_of(tree, s, last as int) as nat) as int;
    region_fold(s, from, to, closer_of(tree, s, last as int, from, to))
}

/// Whether the region between two nodes intersects the byte range.
pub open spec fn intersects(
    tree: &SyntaxTree,
    region: (usize, usize),
    start: nat,
    end: nat,
) -> bool {
    tree.nodes@[region.0 as int].start_byte < end && start < tree.nodes@[region.1 as int].end_byte
}

/// The folds of the first `n` foldable regions that intersect the byte range.
pub open spec fn folds_in(
    tree: &SyntaxTree,
    s: Seq<char>,
    regions: Seq<(usize, usize)>,
    start: nat,
    end: nat,
) -> Seq<Fold>
    decreases regions.len(),
{
    if regions.len() == 0 {
        Seq::empty()
    } else {
        let before = folds_in(tree, s, regions.drop_last(), start, end);
        let region = regions.last();
        if intersects(tree, region, start, end) {
            match fold_of_nodes(tree, s, region.0, region.1) {
                Some(fold) => before.push(fold),
                None => before,
            }
        } else {
            before
        }
    }
}

/// The foldable regions that intersect the chars `from..to`, see [`regions`].
pub open spec fn regions_in(tree: &SyntaxTree, s: Seq<char>, from: int, to: int) -> Seq<Fold> {
    nested(tagged(folds_in(tree, s, tree.folds@, byte_of(s, from), byte_of(s, to)), false))
}

/// The char that the byte `byte` belongs to is the only one with this property.
proof fn lemma_char_of(s: Seq<char>, byte: nat, i: nat)
    requires
        i <= s.len(),
        byte_of(s, i as int) <= byte,
        i < s.len() ==> byte < byte_of(s, i as int + 1),
    ensures
        char_of(s, byte) == i,
{
    let k = char_of(s, byte);
    assert(k <= s.len() && byte_of(s, k as int) <= byte && (k < s.len() ==> byte < byte_of(
        s,
        k as int + 1,
    )));
    if k < i {
        lemma_byte_of_monotone(s, k as int + 1, i as int);
    } else if i < k {
        lemma_byte_of_monotone(s, i as int + 1, k as int);
    }
}

/// Later bytes belong to the same char or to later ones.
pub proof fn lemma_char_of_monotone(s: Seq<char>, a: nat, b: nat, i: nat, k: nat)
    requires
        a <= b,
        i <= s.len(),
        byte_of(s, i as int) <= a,
        k <= s.len(),
        k < s.len() ==> b < byte_of(s, k as int + 1),
    ensures
        i <= k,
{
    if k < i {
        lemma_byte_of_monotone(s, k as int + 1, i as int);
    }
}

proof fn lemma_last_content(tree: &SyntaxTree, s: Seq<char>, indent: int, children: Seq<usize>)
    ensures
        last_content(tree, s, indent, children) matches Some(child) ==> exists|i: int|
            0 <= i < children.len() && children[i] == child,
    decreases children.len(),
{
    if children.len() > 0 {
        if is_content(tree, s, indent, children.last() as int) {
            assert(children[children.len() - 1] == children.last());
        } else {
            let rest = children.drop_last();
            lemma_last_content(tree, s, indent, rest);
            if let Some(child) = last_content(tree, s, indent, rest) {
                let i = choose|i: int| 0 <= i < rest.len() && rest[i] == child;
                assert(children[i] == child);
            }
        }
    }
}

/// The innermost last node of the content of a node is in the tree and does not start before it.
pub proof fn lemma_content_node(tree: &SyntaxTree, s: Seq<char>, indent: int, node: int)
    requires
        tree.wf(),
        0 <= node < tree.nodes@.len(),
    ensures
        node <= content_node(tree, s, indent, node) < tree.nodes@.len(),
        tree.nodes@[node].start_byte <= tree.nodes@[content_node(
            tree,
            s,
            indent,
            node,
        )].start_byte,
    decreases tree.nodes@.len() - node,
{
    let children = tree.nodes@[node].children@;
    lemma_last_content(tree, s, indent, children);
    if let Some(content) = last_content(tree, s, indent, children) {
        if tree.nodes@[children.last() as int].end_byte == tree.nodes@[node].end_byte && node
            < content < tree.nodes@.len() {
            let i = choose|i: int| 0 <= i < children.len() && children[i] == content;
            assert(tree.nodes@[node].children@[i] == content);
            lemma_content_node(tree, s, indent, content as int);
        }
    }
}

/// The content of a node does not end before the node starts.
proof fn lemma_content_end(tree: &SyntaxTree, s: Seq<char>, node: int)
    requires
        tree.wf(),
        0 <= node < tree.nodes@.len(),
    ensures
        tree.nodes@[node].start_byte <= content_end_of(tree, s, node),
{
    let indent = indent_of(s, tree.nodes@[node].start_byte as nat);
    lemma_content_node(tree, s, indent, node);
    assert(tree.nodes@[node].start_byte <= tree.nodes@[node].end_byte);
    let content = content_node(tree, s, indent, node);
    assert(tree.nodes@[content].start_byte <= tree.nodes@[content].end_byte);
}

/// The index of the char that the byte `byte` belongs to.
pub fn char_at_byte(text: RopeSlice, byte: u32) -> (char_idx: usize)
    requires
        byte <= encode_utf8(chars_of(text)).len(),
    ensures
        char_idx as nat == char_of(chars_of(text), byte as nat),
        char_idx <= chars_of(text).len(),
        byte_of(chars_of(text), char_idx as int) <= byte,
        char_idx < chars_of(text).len() ==> byte < byte_of(chars_of(text), char_idx as int + 1),
{
    char_index(text, byte as usize)
}

/// The index of the char that the byte `byte` belongs to.
pub(crate) fn char_index(text: RopeSlice, byte: usize) -> (char_idx: usize)
    requires
        byte <= encode_utf8(chars_of(text)).len(),
    ensures
        char_idx as nat == char_of(chars_of(text), byte as nat),
        char_idx <= chars_of(text).len(),
        byte_of(chars_of(text), char_idx as int) <= byte,
        char_idx < chars_of(text).len() ==> byte < byte_of(chars_of(text), char_idx as int + 1),
{
    let char_idx: usize = text.byte_to_char(byte);
    proof {
        lemma_char_of(chars_of(text), byte as nat, char_idx as nat);
    }
    char_idx
}

fn column(text: RopeSlice, byte: u32) -> (column: usize)
    requires
        byte <= encode_utf8(chars_of(text)).len(),
    ensures
        column == column_of(chars_of(text), byte as nat),
{
    let char_idx: usize = char_at_byte(text, byte);
    proof {
        let s = chars_of(text);
        lemma_line_of_bound(s, char_idx as int);
        lemma_line_start(s, line_of(s, char_idx as int), char_idx as int);
    }
    char_idx - text.line_to_char(text.char_to_line(char_idx))
}

/// The end of `node` without the comments that trail it, except those indented deeper than its
/// first line. Comments belong to the innermost node that is open before them, so a block of an
/// indentation-based language ends with the comments that precede the next, less indented line.
pub fn content_end(text: RopeSlice, tree: &SyntaxTree, node: usize) -> (end: u32)
    requires
        tree.wf(),
        tree.fits(encode_utf8(chars_of(text)).len()),
        node < tree.nodes@.len(),
    ensures
        end == content_end_of(tree, chars_of(text), node as int),
        end <= encode_utf8(chars_of(text)).len(),
{
    let ghost s = chars_of(text);
    assert(tree.nodes@[node as int].end_byte <= encode_utf8(s).len());
    if tree.nodes[node].extra {
        return tree.nodes[node].end_byte;
    }
    let start: usize = char_at_byte(text, tree.nodes[node].start_byte);
    let header: usize = text.char_to_line(start);
    proof {
        lemma_line_of_bound(s, start as int);
        lemma_line_start_bound(s, header as nat + 1);
        lemma_first_visible(
            s,
            line_start(s, header as nat) as int,
            line_start(s, header as nat + 1) as int,
        );
    }
    let indent: usize = match line_first_non_whitespace(text, header) {
        Some(first) => first - text.line_to_char(header),
        None => 0,
    };
    assert(indent == indent_of(s, tree.nodes@[node as int].start_byte as nat));
    let mut at: usize = node;
    loop
        invariant
            s == chars_of(text),
            tree.wf(),
            tree.fits(encode_utf8(s).len()),
            at < tree.nodes@.len(),
            node < tree.nodes@.len(),
            !tree.nodes@[node as int].extra,
            indent == indent_of(s, tree.nodes@[node as int].start_byte as nat),
            content_node(tree, s, indent as int, node as int) == content_node(
                tree,
                s,
                indent as int,
                at as int,
            ),
        decreases tree.nodes@.len() - at,
    {
        let children: &Vec<usize> = &tree.nodes[at].children;
        let mut content: Option<usize> = None;
        let mut i: usize = children.len();
        proof {
            assert(children@.take(i as int) =~= children@);
        }
        while i > 0 && content.is_none()
            invariant
                s == chars_of(text),
                tree.wf(),
                tree.fits(encode_utf8(s).len()),
                at < tree.nodes@.len(),
                children@ == tree.nodes@[at as int].children@,
                i <= children@.len(),
                match content {
                    Some(child) => last_content(tree, s, indent as int, children@) == Some(child)
                        && at < child < tree.nodes@.len() && children@.len() > 0,
                    None => last_content(tree, s, indent as int, children@) == last_content(
                        tree,
                        s,
                        indent as int,
                        children@.take(i as int),
                    ),
                },
            decreases i, (if content is None { 1int } else { 0 }),
        {
            let child: usize = children[i - 1];
            proof {
                assert(tree.nodes@[at as int].children@[i - 1] == child);
                assert(tree.nodes@[child as int].start_byte <= tree.nodes@[child as int].end_byte
                    <= encode_utf8(s).len());
                assert(children@.take(i as int).drop_last() =~= children@.take(i - 1));
            }
            if !tree.nodes[child].extra || column(text, tree.nodes[child].start_byte) > indent {
                content = Some(child);
            } else {
                i -= 1;
            }
        }
        match content {
            Some(child) => {
                proof {
                    assert(tree.nodes@[at as int].children@[children@.len() - 1]
                        < tree.nodes@.len());
                }
                let last: usize = children[children.len() - 1];
                if tree.nodes[last].end_byte == tree.nodes[at].end_byte {
                    at = child;
                } else {
                    assert(tree.nodes@[at as int].end_byte <= encode_utf8(s).len());
                    return tree.nodes[at].end_byte;
                }
            },
            None => {
                proof {
                    assert(content is None);
                    assert(children@.take(0).len() == 0);
                    assert(tree.nodes@[at as int].end_byte <= encode_utf8(s).len());
                }
                return tree.nodes[at].end_byte;
            },
        }
    }
}

/// Finds the smallest node at or below `node` that spans the bytes `start..end`; none for a range
/// that ends before it starts.
pub fn descendant_for_byte_range(tree: &SyntaxTree, node: usize, start: u32, end: u32) -> (found:
    Option<usize>)
    requires
        tree.wf(),
        node < tree.nodes@.len(),
    ensures
        found is None <==> start > end,
        found matches Some(found) ==> found as int == descendant(tree, node as int, start, end)
            && found < tree.nodes@.len(),
{
    if start > end {
        return None;
    }
    let mut at: usize = node;
    loop
        invariant
            tree.wf(),
            start <= end,
            at < tree.nodes@.len(),
            descendant(tree, node as int, start, end) == descendant(tree, at as int, start, end),
        decreases tree.nodes@.len() - at,
    {
        let children: &Vec<usize> = &tree.nodes[at].children;
        let mut i: usize = 0;
        let mut reached: Option<usize> = None;
        proof {
            assert(children@.skip(0) =~= children@);
        }
        while i < children.len() && reached.is_none()
            invariant
                tree.wf(),
                at < tree.nodes@.len(),
                children@ == tree.nodes@[at as int].children@,
                i <= children@.len(),
                match reached {
                    Some(child) => reaching(tree, children@, start, end) == Some(child) && at
                        < child < tree.nodes@.len(),
                    None => reaching(tree, children@, start, end) == reaching(
                        tree,
                        children@.skip(i as int),
                        start,
                        end,
                    ),
                },
            decreases children.len() - i, (if reached is None { 1int } else { 0 }),
        {
            let child: usize = children[i];
            proof {
                assert(tree.nodes@[at as int].children@[i as int] == child);
                assert(children@.skip(i as int).skip(1) =~= children@.skip(i + 1));
                assert(children@.skip(i as int)[0] == child);
            }
            let child_start: u32 = tree.nodes[child].start_byte;
            let child_end: u32 = tree.nodes[child].end_byte;
            if child_end >= end && (child_end > start || (child_start == child_end && child_end
                == start)) {
                reached = Some(child);
            } else {
                i += 1;
            }
        }
        match reached {
            Some(child) => {
                if tree.nodes[child].start_byte <= start {
                    at = child;
                } else {
                    return Some(at);
                }
            },
            None => {
                assert(children@.skip(i as int).len() == 0);
                return Some(at);
            },
        }
    }
}

/// Finds the child of `node` which contains the given byte range.
pub fn child_for_byte_range(tree: &SyntaxTree, node: usize, range: std::ops::Range<u32>) -> (found:
    Option<usize>)
    requires
        tree.wf(),
        node < tree.nodes@.len(),
    ensures
        match found {
            Some(child) => exists|i: int|
                #![trigger tree.nodes@[node as int].children@[i]]
                {
                    &&& 0 <= i < tree.nodes@[node as int].children@.len()
                    &&& tree.nodes@[node as int].children@[i] == child
                    &&& contains_bytes(tree, child as int, range)
                    &&& forall|k: int|
                        0 <= k < i ==> !contains_bytes(
                            tree,
                            #[trigger] tree.nodes@[node as int].children@[k] as int,
                            range,
                        )
                },
            None => forall|k: int|
                0 <= k < tree.nodes@[node as int].children@.len() ==> !contains_bytes(
                    tree,
                    #[trigger] tree.nodes@[node as int].children@[k] as int,
                    range,
                ),
        },
{
    let children: &Vec<usize> = &tree.nodes[node].children;
    let mut i: usize = 0;
    while i < children.len()
        invariant
            tree.wf(),
            node < tree.nodes@.len(),
            children@ == tree.nodes@[node as int].children@,
            i <= children@.len(),
            forall|k: int|
                0 <= k < i ==> !contains_bytes(
                    tree,
                    #[trigger] tree.nodes@[node as int].children@[k] as int,
                    range,
                ),
        decreases children.len() - i,
    {
        let child: usize = children[i];
        assert(tree.nodes@[node as int].children@[i as int] == child);
        if range.start >= tree.nodes[child].start_byte && range.end <= tree.nodes[child].end_byte {
            return Some(child);
        }
        i += 1;
    }
    None
}

/// Whether the node covers the byte range.
pub open spec fn contains_bytes(tree: &SyntaxTree, node: int, range: std::ops::Range<u32>) -> bool {
    tree.nodes@[node].start_byte <= range.start && range.end <= tree.nodes@[node].end_byte
}

fn bracket(text: RopeSlice, tree: &SyntaxTree, node: usize) -> (byte: Option<u8>)
    requires
        tree.wf(),
        tree.fits(encode_utf8(chars_of(text)).len()),
        node < tree.nodes@.len(),
    ensures
        byte == bracket_of(tree, chars_of(text), node as int),
{
    assert(tree.nodes@[node as int].start_byte <= tree.nodes@[node as int].end_byte <= encode_utf8(
        chars_of(text),
    ).len());
    let start: u32 = tree.nodes[node].start_byte;
    if tree.nodes[node].end_byte - start == 1 {
        Some(text.byte(start as usize))
    } else {
        None
    }
}

/// The bracket that `closer`, a closing bracket token, closes among its siblings. Some grammars
/// wrap bracket tokens in named nodes like `block_end`, so brackets are recognized by their text.
pub fn matching_opener(text: RopeSlice, tree: &SyntaxTree, closer: usize) -> (opener: Option<usize>)
    requires
        tree.wf(),
        tree.fits(encode_utf8(chars_of(text)).len()),
        closer < tree.nodes@.len(),
    ensures
        opener == opener_node(tree, chars_of(text), closer as int),
        opener matches Some(opener) ==> opener < tree.nodes@.len(),
{
    let ghost s = chars_of(text);
    let mut at: usize = closer;
    let mut widened: bool = false;
    while !widened
        invariant
            tree.wf(),
            at < tree.nodes@.len(),
            widest(tree, closer as int) == widest(tree, at as int),
            widened ==> widest(tree, at as int) == at,
        decreases at, (if widened { 0int } else { 1 }),
    {
        assert(tree.nodes@[at as int].parent matches Some(p) ==> p < at);
        match tree.nodes[at].parent {
            Some(parent) if tree.nodes[parent].start_byte == tree.nodes[at].start_byte
                && tree.nodes[parent].end_byte == tree.nodes[at].end_byte => {
                at = parent;
            },
            _ => {
                widened = true;
            },
        }
    }
    let close: u8 = match bracket(text, tree, at) {
        Some(close) => close,
        None => return None,
    };
    let open: u8 = if close == 0x29 {
        0x28
    } else if close == 0x5d {
        0x5b
    } else if close == 0x7d {
        0x7b
    } else {
        return None;
    };
    let parent: usize = match tree.nodes[at].parent {
        Some(parent) => parent,
        None => return None,
    };
    assert(tree.nodes@[at as int].parent matches Some(p) ==> p < at);
    let siblings: &Vec<usize> = &tree.nodes[parent].children;
    let mut open_brackets: Vec<usize> = Vec::new();
    let mut i: usize = 0;
    while i < siblings.len()
        invariant
            s == chars_of(text),
            tree.wf(),
            tree.fits(encode_utf8(s).len()),
            at < tree.nodes@.len(),
            parent < tree.nodes@.len(),
            siblings@ == tree.nodes@[parent as int].children@,
            i <= siblings@.len(),
            widest(tree, closer as int) == at,
            tree.nodes@[at as int].parent == Some(parent),
            bracket_of(tree, s, at as int) == Some(close),
            opener_of(close) == Some(open),
            position_of(tree, siblings@, at as int, 0) == position_of(
                tree,
                siblings@,
                at as int,
                i as int,
            ),
            open_brackets@ == unclosed(tree, s, siblings@.take(i as int), open, close),
            forall|k: int|
                0 <= k < open_brackets@.len() ==> #[trigger] open_brackets@[k] < tree.nodes@.len(),
        decreases siblings.len() - i,
    {
        let sibling: usize = siblings[i];
        proof {
            assert(tree.nodes@[parent as int].children@[i as int] == sibling);
            assert(siblings@.take(i + 1).drop_last() =~= siblings@.take(i as int));
        }
        if tree.nodes[sibling].start_byte == tree.nodes[at].start_byte
            && tree.nodes[sibling].end_byte == tree.nodes[at].end_byte {
            assert(tree.same_bytes(siblings@[i as int] as int, at as int));
            return open_brackets.pop();
        }
        match bracket(text, tree, sibling) {
            Some(byte) => {
                if byte == open {
                    open_brackets.push(sibling);
                } else if byte == close {
                    open_brackets.pop();
                }
            },
            None => {},
        }
        i += 1;
    }
    None
}

/// The closing bracket that starts the last line of `region` and closes a bracket opened on its
/// first line, according to the tree of `last`, the region's last node.
pub fn pulled_up_closer(
    text: RopeSlice,
    tree: &SyntaxTree,
    last: usize,
    region: std::ops::Range<usize>,
) -> (closer: Option<usize>)
    requires
        tree.wf(),
        tree.fits(encode_utf8(chars_of(text)).len()),
        last < tree.nodes@.len(),
        region.start <= region.end <= chars_of(text).len(),
    ensures
        closer == closer_of(
            tree,
            chars_of(text),
            last as int,
            region.start as int,
            region.end as int,
        ),
        closer matches Some(closer) ==> closer < chars_of(text).len(),
{
    let ghost s = chars_of(text);
    proof {
        lemma_last_visible(s, region.start as int, region.end as int);
    }
    let last_char: usize = match last_non_whitespace(text, region.start, region.end) {
        Some(last_char) => last_char,
        None => return None,
    };
    let line: usize = text.char_to_line(last_char);
    proof {
        lemma_line_of_bound(s, last_char as int);
        lemma_line_start_bound(s, line as nat + 1);
        lemma_first_visible(
            s,
            line_start(s, line as nat) as int,
            line_start(s, line as nat + 1) as int,
        );
    }
    let closer: usize = match line_first_non_whitespace(text, line) {
        Some(closer) => closer,
        None => return None,
    };
    if !is_closing_bracket(text.char(closer)) {
        return None;
    }
    proof {
        lemma_byte_of_end(s);
        lemma_byte_of_monotone(s, closer as int, s.len() as int);
    }
    let byte: u32 = text.char_to_byte(closer) as u32;
    let token: usize = match descendant_for_byte_range(tree, last, byte, byte + 1) {
        Some(token) => token,
        None => return None,
    };
    match matching_opener(text, tree, token) {
        Some(opener) => {
            assert(tree.nodes@[opener as int].start_byte <= tree.nodes@[opener as int].end_byte
                <= encode_utf8(s).len());
            let opener_char: usize = char_at_byte(text, tree.nodes[opener].start_byte);
            if text.char_to_line(opener_char) == text.char_to_line(region.start) {
                Some(closer)
            } else {
                None
            }
        },
        None => None,
    }
}

/// A closing bracket of a region with content after its first line is on a later line.
proof fn lemma_closer_line(
    tree: &SyntaxTree,
    s: Seq<char>,
    last: int,
    from: int,
    to: int,
)
    requires
        0 <= from <= to <= s.len(),
        s.len() <= usize::MAX,
        last_visible(s, from, to) matches Some(last_char) && line_of(s, last_char) != line_of(
            s,
            from,
        ),
    ensures
        closer_of(tree, s, last, from, to) matches Some(closer) ==> line_start(
            s,
            line_of(s, from) + 1,
        ) <= closer < s.len(),
{
    lemma_last_visible(s, from, to);
    let last_char = last_visible(s, from, to)->0;
    let line = line_of(s, last_char);
    lemma_line_of_monotone(s, from, last_char);
    lemma_line_of_bound(s, last_char);
    lemma_line_start_bound(s, line + 1);
    lemma_first_visible(s, line_start(s, line) as int, line_start(s, line + 1) as int);
    if let Some(closer) = line_first_visible(s, line) {
        lemma_line_start(s, line, closer);
        lemma_line_start(s, line_of(s, from) + 1, closer);
    }
}

/// The fold of the region between the nodes `first` and `last`, if it has content after its first
/// line.
fn node_fold(text: RopeSlice, tree: &SyntaxTree, first: usize, last: usize) -> (fold: Option<Fold>)
    requires
        tree.wf(),
        tree.fits(encode_utf8(chars_of(text)).len()),
        first < tree.nodes@.len(),
        last < tree.nodes@.len(),
        tree.nodes@[first as int].start_byte <= tree.nodes@[last as int].start_byte,
    ensures
        fold == fold_of_nodes(tree, chars_of(text), first, last),
        fold matches Some(fold) ==> fold.hides(chars_of(text)),
{
    let ghost s = chars_of(text);
    assert(tree.nodes@[first as int].start_byte <= tree.nodes@[first as int].end_byte
        <= encode_utf8(s).len());
    let from: usize = char_at_byte(text, tree.nodes[first].start_byte);
    let to: usize = char_at_byte(text, content_end(text, tree, last));
    proof {
        lemma_content_end(tree, s, last as int);
        lemma_char_of_monotone(
            s,
            tree.nodes@[first as int].start_byte as nat,
            content_end_of(tree, s, last as int) as nat,
            from as nat,
            to as nat,
        );
    }
    let closer: Option<usize> = pulled_up_closer(text, tree, last, from..to);
    let len: usize = text.len_chars();
    proof {
        lemma_last_visible(s, from as int, to as int);
        assert(s.len() == len);
    }
    // without content after the first line there is no fold, whatever the closer is
    let closer: Option<usize> = match last_non_whitespace(text, from, to) {
        Some(last_char) => if text.char_to_line(last_char) != text.char_to_line(from) {
            proof {
                lemma_closer_line(tree, s, last as int, from as int, to as int);
            }
            closer
        } else {
            None
        },
        None => None,
    };
    Fold::from_region(text, from..to, closer)
}

/// The foldable regions of `tree` that intersect the chars `range`, outermost first.
pub fn regions(tree: &SyntaxTree, text: RopeSlice, range: std::ops::Range<usize>) -> (folds: Vec<
    Fold,
>)
    requires
        tree.wf(),
        tree.fits(encode_utf8(chars_of(text)).len()),
        range.start <= range.end <= chars_of(text).len(),
    ensures
        folds@ == regions_in(tree, chars_of(text), range.start as int, range.end as int),
        all_hide(folds@, chars_of(text)),
{
    let ghost s = chars_of(text);
    let start: usize = text.char_to_byte(range.start);
    let end: usize = text.char_to_byte(range.end);
    let mut found: Vec<(Fold, bool)> = Vec::new();
    let ghost mut plain: Seq<Fold> = Seq::empty();
    let mut i: usize = 0;
    while i < tree.folds.len()
        invariant
            s == chars_of(text),
            tree.wf(),
            tree.fits(encode_utf8(s).len()),
            i <= tree.folds@.len(),
            plain == folds_in(tree, s, tree.folds@.take(i as int), start as nat, end as nat),
            found@ == tagged(plain, false),
            all_hide(plain, s),
        decreases tree.folds.len() - i,
    {
        let (first, last): (usize, usize) = tree.folds[i];
        proof {
            assert(tree.folds@[i as int].0 < tree.nodes@.len());
            assert(tree.folds@.take(i + 1).drop_last() =~= tree.folds@.take(i as int));
        }
        if (tree.nodes[first].start_byte as usize) < end && start < (
        tree.nodes[last].end_byte as usize) {
            match node_fold(text, tree, first, last) {
                Some(fold) => {
                    let ghost before = plain;
                    found.push((fold, false));
                    proof {
                        plain = plain.push(fold);
                        assert(found@ =~= tagged(plain, false));
                        assert forall|k: int| 0 <= k < plain.len() implies (
                        #[trigger] plain[k]).hides(s) by {
                            if k < before.len() {
                                assert(plain[k] == before[k]);
                            }
                        }
                    }
                },
                None => {},
            }
        }
        i += 1;
    }
    proof {
        assert(tree.folds@.take(i as int) =~= tree.folds@);
        crate::fold::law_nested_folds(found@);
    }
    let folds: Vec<Fold> = nest(found);
    proof {
        assert forall|k: int| 0 <= k < folds@.len() implies (#[trigger] folds@[k]).hides(s) by {
            let all = crate::fold::folds_of(tagged(plain, false));
            assert(all.contains(folds@[k]));
            let m = choose|m: int| 0 <= m < all.len() && all[m] == folds@[k];
            assert(plain[m] == folds@[k]);
        }
    }
    folds
}

/// The content of a node ends where the node does if there are no comments.
pub proof fn law_nodes_without_comments_are_all_content(tree: &SyntaxTree, s: Seq<char>, node: int)
    requires
        tree.wf(),
        0 <= node < tree.nodes@.len(),
        forall|n: int| 0 <= n < tree.nodes@.len() ==> !(#[trigger] tree.nodes@[n]).extra,
    ensures
        content_end_of(tree, s, node) == tree.nodes@[node].end_byte,
{
    let indent = indent_of(s, tree.nodes@[node].start_byte as nat);
    lemma_all_content(tree, s, indent, node);
}

proof fn lemma_all_content(tree: &SyntaxTree, s: Seq<char>, indent: int, node: int)
    requires
        tree.wf(),
        0 <= node < tree.nodes@.len(),
        forall|n: int| 0 <= n < tree.nodes@.len() ==> !(#[trigger] tree.nodes@[n]).extra,
    ensures
        tree.nodes@[content_node(tree, s, indent, node)].end_byte == tree.nodes@[node].end_byte,
    decreases tree.nodes@.len() - node,
{
    let children = tree.nodes@[node].children@;
    if children.len() > 0 {
        let last = children.last() as int;
        assert(tree.nodes@[node].children@[children.len() - 1] == children.last());
        assert(is_content(tree, s, indent, last));
        if tree.nodes@[last].end_byte == tree.nodes@[node].end_byte {
            lemma_all_content(tree, s, indent, last);
        }
    }
}

/// A comment that ends a node and is not indented deeper than the node's first line does not belong to
/// its content, which ends with that of what comes before such comments. One that is indented deeper
/// does. The indentation is that of the line that the node starts on.
pub proof fn law_trailing_comments_are_no_content(
    tree: &SyntaxTree,
    s: Seq<char>,
    node: int,
    content: usize,
    k: int,
)
    requires
        tree.wf(),
        0 <= node < tree.nodes@.len(),
        !tree.nodes@[node].extra,
        0 <= k < tree.nodes@[node].children@.len(),
        tree.nodes@[node].children@[k] == content,
        !tree.nodes@[content as int].extra || column_of(
            s,
            tree.nodes@[content as int].start_byte as nat,
        ) > indent_of(s, tree.nodes@[node].start_byte as nat),
        forall|i: int|
            k < i < tree.nodes@[node].children@.len() ==> tree.nodes@[
                #[trigger] tree.nodes@[node].children@[i] as int
            ].extra && column_of(
                s,
                tree.nodes@[tree.nodes@[node].children@[i] as int].start_byte as nat,
            ) <= indent_of(s, tree.nodes@[node].start_byte as nat),
        tree.nodes@[tree.nodes@[node].children@[tree.nodes@[node].children@.len() - 1] as int].end_byte
            == tree.nodes@[node].end_byte,
        tree.nodes@[content as int].children@.len() == 0,
    ensures
        content_end_of(tree, s, node) == tree.nodes@[content as int].end_byte,
{
    let indent = indent_of(s, tree.nodes@[node].start_byte as nat);
    let children = tree.nodes@[node].children@;
    lemma_last_content_is(tree, s, indent, children, k);
    assert(node < tree.nodes@[node].children@[k] < tree.nodes@.len());
    reveal_with_fuel(content_node, 2);
}

proof fn lemma_last_content_is(
    tree: &SyntaxTree,
    s: Seq<char>,
    indent: int,
    children: Seq<usize>,
    k: int,
)
    requires
        0 <= k < children.len(),
        is_content(tree, s, indent, children[k] as int),
        forall|i: int|
            k < i < children.len() ==> !is_content(tree, s, indent, #[trigger] children[i] as int),
    ensures
        last_content(tree, s, indent, children) == Some(children[k]),
    decreases children.len(),
{
    if k < children.len() - 1 {
        let rest = children.drop_last();
        assert(!is_content(tree, s, indent, children[children.len() - 1] as int));
        assert forall|i: int| k < i < rest.len() implies !is_content(
            tree,
            s,
            indent,
            #[trigger] rest[i] as int,
        ) by {
            assert(rest[i] == children[i]);
        }
        lemma_last_content_is(tree, s, indent, rest, k);
    }
}

/// The folds of a part of a text are those of the foldable regions that reach into it, and all of
/// them.
pub proof fn law_regions_in_reach_are_folded(
    tree: &SyntaxTree,
    s: Seq<char>,
    regions: Seq<(usize, usize)>,
    start: nat,
    end: nat,
    fold: Fold,
)
    ensures
        folds_in(tree, s, regions, start, end).contains(fold) <==> exists|i: int|
            0 <= i < regions.len() && tree.nodes@[(#[trigger] regions[i]).0 as int].start_byte < end
                && start < tree.nodes@[regions[i].1 as int].end_byte && fold_of_nodes(
                tree,
                s,
                regions[i].0,
                regions[i].1,
            ) == Some(fold),
    decreases regions.len(),
{
    if regions.len() > 0 {
        let rest = regions.drop_last();
        law_regions_in_reach_are_folded(tree, s, rest, start, end, fold);
        let before = folds_in(tree, s, rest, start, end);
        let all = folds_in(tree, s, regions, start, end);
        let last = regions.len() - 1;
        assert(regions[last] == regions.last());
        assert forall|i: int| 0 <= i < rest.len() implies rest[i] == #[trigger] regions[i] by {}
        if before.contains(fold) {
            let i = choose|i: int|
                0 <= i < rest.len() && tree.nodes@[(#[trigger] rest[i]).0 as int].start_byte < end
                    && start < tree.nodes@[rest[i].1 as int].end_byte && fold_of_nodes(
                    tree,
                    s,
                    rest[i].0,
                    rest[i].1,
                ) == Some(fold);
            assert(regions[i] == rest[i]);
            assert(all[before.index_of(fold)] == fold);
        } else if intersects(tree, regions.last(), start, end) && fold_of_nodes(
            tree,
            s,
            regions.last().0,
            regions.last().1,
        ) == Some(fold) {
            assert(all[before.len() as int] == fold);
        } else {
            if all.contains(fold) {
                let k = all.index_of(fold);
                assert(before[k] == fold);
            }
            assert forall|i: int| 0 <= i < regions.len() implies !(tree.nodes@[(
            #[trigger] regions[i]).0 as int].start_byte < end && start
                < tree.nodes@[regions[i].1 as int].end_byte && fold_of_nodes(
                tree,
                s,
                regions[i].0,
                regions[i].1,
            ) == Some(fold)) by {
                if i < last {
                    assert(rest[i] == regions[i]);
                }
            }
        }
    }
}

} // verus!
