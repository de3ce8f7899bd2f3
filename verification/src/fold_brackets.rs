//! Which brackets folds pull up onto the row of their header, by the chars and the nodes of a tree.

use crate::fold::Fold;
use crate::syntax_tree::{
    bracket_of, char_of, closer_of, content_end_of, descendant, fold_of_nodes, opener_node,
    opener_of, position_of, reaches, reaching, unclosed, widest, SyntaxTree,
};
use crate::text::{
    byte_of, last_visible, lemma_byte_of_end, lemma_encode_push, lemma_first_visible,
    lemma_in_line, lemma_last_visible, lemma_line_start_bound, line_end, line_first_visible,
    line_of, line_start, next_boundary, white_space,
};
use vstd::prelude::*;
use vstd::utf8::{encode_scalar, encode_utf8, is_ascii_chars, is_ascii_chars_encode_utf8};

verus! {

/// Whether children and parents go together, and children lie in their parents, one after another.
pub open spec fn well_nested(tree: &SyntaxTree) -> bool {
    &&& forall|n: int|
        0 <= n < tree.nodes@.len() ==> ((#[trigger] tree.nodes@[n]).parent matches Some(p)
            ==> exists|i: int|
            0 <= i < tree.nodes@[p as int].children@.len()
                && #[trigger] tree.nodes@[p as int].children@[i] == n)
    &&& forall|n: int, i: int|
        #![trigger tree.nodes@[n].children@[i]]
        0 <= n < tree.nodes@.len() && 0 <= i < tree.nodes@[n].children@.len() ==> {
            let child = tree.nodes@[tree.nodes@[n].children@[i] as int];
            child.parent == Some(n as usize) && child.end_byte <= tree.nodes@[n].end_byte
        }
    &&& forall|n: int, i: int, j: int|
        #![trigger tree.nodes@[n].children@[i], tree.nodes@[n].children@[j]]
        0 <= n < tree.nodes@.len() && 0 <= i < j < tree.nodes@[n].children@.len()
            ==> tree.nodes@[tree.nodes@[n].children@[i] as int].end_byte
            <= tree.nodes@[tree.nodes@[n].children@[j] as int].start_byte
}

/// Whether `node` is `above` or below it.
pub open spec fn is_below(tree: &SyntaxTree, node: int, above: int) -> bool
    decreases node,
{
    node == above || (tree.nodes@[node].parent matches Some(p) && p < node && is_below(
        tree,
        p as int,
        above,
    ))
}

/// Whether `node` covers just the char at `c`, which takes one byte.
pub open spec fn covers_char(tree: &SyntaxTree, s: Seq<char>, node: int, c: int) -> bool {
    tree.nodes@[node].start_byte == byte_of(s, c) && tree.nodes@[node].end_byte == byte_of(s, c) + 1
}

/// Whether `node` reads `bracket`, which takes one byte.
pub open spec fn reads_bracket(tree: &SyntaxTree, s: Seq<char>, node: int, bracket: char) -> bool {
    tree.nodes@[node].end_byte == tree.nodes@[node].start_byte + 1
        && encode_utf8(s)[tree.nodes@[node].start_byte as int] == bracket as u8
}

/// The number of nodes of `siblings[from..to]` that read `open` less those that read `close`.
pub open spec fn depth_after(
    tree: &SyntaxTree,
    s: Seq<char>,
    siblings: Seq<usize>,
    from: int,
    to: int,
    open: char,
    close: char,
) -> int
    decreases to - from,
{
    if to <= from {
        0
    } else {
        depth_after(tree, s, siblings, from, to - 1, open, close) + (if reads_bracket(
            tree,
            s,
            siblings[to - 1] as int,
            open,
        ) {
            1int
        } else if reads_bracket(tree, s, siblings[to - 1] as int, close) {
            -1
        } else {
            0
        })
    }
}

/// Whether the sibling `k` opens what is closed at `at`: all brackets between the two are closed
/// there, and none of them closes the one at `k`.
pub open spec fn opens(
    tree: &SyntaxTree,
    s: Seq<char>,
    siblings: Seq<usize>,
    k: int,
    at: int,
    open: char,
    close: char,
) -> bool {
    &&& 0 <= k < at <= siblings.len()
    &&& reads_bracket(tree, s, siblings[k] as int, open)
    &&& depth_after(tree, s, siblings, k + 1, at, open, close) == 0
    &&& forall|j: int|
        k < j <= at ==> #[trigger] depth_after(tree, s, siblings, k + 1, j, open, close) >= 0
}

/// Whether `open` and `close` are a pair of brackets.
pub open spec fn bracket_pair(open: char, close: char) -> bool {
    (open == '(' && close == ')') || (open == '[' && close == ']') || (open == '{' && close == '}')
}

/// Whether `last_char` is the last char of the region that is not white space, and on a later line
/// than the region's first one.
pub open spec fn ends_region(
    tree: &SyntaxTree,
    s: Seq<char>,
    first: usize,
    last: usize,
    last_char: int,
) -> bool {
    let from = char_of(s, tree.nodes@[first as int].start_byte as nat) as int;
    let to = char_of(s, content_end_of(tree, s, last as int) as nat) as int;
    &&& from <= last_char < to
    &&& !white_space(s[last_char])
    &&& forall|i: int| last_char < i < to ==> white_space(#[trigger] s[i])
    &&& line_of(s, from) != line_of(s, last_char)
}

/// Whether `c` is the first char that is not white space on the line of `i`.
pub open spec fn starts_line_of(s: Seq<char>, c: int, i: int) -> bool {
    &&& line_start(s, line_of(s, i)) <= c <= i
    &&& !white_space(s[c])
    &&& forall|k: int|
        line_start(s, line_of(s, i)) <= k < c ==> white_space(#[trigger] s[k])
}

/// Whether `token`, child `at` of `parent`, is the outermost node for the char at `c`, and `leaf` is
/// it, or a node below it for the same char, at or below `last`.
pub open spec fn is_token(
    tree: &SyntaxTree,
    s: Seq<char>,
    c: int,
    last: int,
    leaf: int,
    token: int,
    parent: int,
    at: int,
) -> bool {
    &&& 0 <= parent < token <= leaf < tree.nodes@.len()
    &&& covers_char(tree, s, token, c)
    &&& covers_char(tree, s, leaf, c)
    &&& !covers_char(tree, s, parent, c)
    &&& is_below(tree, leaf, token)
    &&& is_below(tree, leaf, last)
    &&& 0 <= at < tree.nodes@[parent].children@.len()
    &&& tree.nodes@[parent].children@[at] == token
}

proof fn lemma_char_from(s: Seq<char>, byte: nat, i: int)
    requires
        0 <= i <= s.len(),
        byte_of(s, i) <= byte,
    ensures
        exists|k: nat|
            k <= s.len() && #[trigger] byte_of(s, k as int) <= byte && (k < s.len() ==> byte
                < byte_of(s, k as int + 1)),
    decreases s.len() - i,
{
    if i == s.len() || byte < byte_of(s, i + 1) {
        let k = i as nat;
        assert(byte_of(s, k as int) <= byte);
    } else {
        lemma_char_from(s, byte, i + 1);
    }
}

proof fn lemma_char_of_bound(s: Seq<char>, byte: nat)
    ensures
        char_of(s, byte) <= s.len(),
{
    lemma_byte_of_end(s);
    lemma_char_from(s, byte, 0);
}

proof fn lemma_encoded_prefix(s: Seq<char>, i: int)
    requires
        0 <= i <= s.len(),
    ensures
        encode_utf8(s.take(i)).len() <= encode_utf8(s).len(),
        encode_utf8(s).take(encode_utf8(s.take(i)).len() as int) == encode_utf8(s.take(i)),
    decreases s.len(),
{
    if i == s.len() {
        assert(s.take(i) =~= s);
        assert(encode_utf8(s).take(encode_utf8(s).len() as int) =~= encode_utf8(s));
    } else {
        let t = s.drop_last();
        lemma_encoded_prefix(t, i);
        lemma_encode_push(t, s.last());
        assert(s =~= t.push(s.last()));
        assert(t.take(i) =~= s.take(i));
        let n = encode_utf8(s.take(i)).len() as int;
        assert(encode_utf8(s).take(n) =~= encode_utf8(t).take(n));
    }
}

/// A closing bracket takes one byte.
proof fn lemma_ascii_byte(s: Seq<char>, c: int)
    requires
        0 <= c < s.len(),
        s[c] == ')' || s[c] == ']' || s[c] == '}',
    ensures
        byte_of(s, c) < encode_utf8(s).len(),
        encode_utf8(s)[byte_of(s, c) as int] == s[c] as u8,
        byte_of(s, c + 1) == byte_of(s, c) + 1,
{
    let before = s.take(c);
    let one = seq![s[c]];
    assert forall|i: int| 0 <= i < one.len() implies '\0' <= #[trigger] one[i] <= '\u{7f}' by {
        assert(one[i] == s[c]);
    }
    assert(is_ascii_chars(one));
    is_ascii_chars_encode_utf8(one);
    assert(one.drop_first() =~= Seq::<char>::empty());
    reveal_with_fuel(encode_utf8, 2);
    assert(encode_utf8(one) =~= encode_scalar(s[c] as u32));
    assert(encode_utf8(one)[0] == one[0] as u8);
    lemma_encode_push(before, s[c]);
    assert(s.take(c + 1) =~= before.push(s[c]));
    lemma_encoded_prefix(s, c + 1);
    let n = byte_of(s, c) as int;
    assert(encode_utf8(s)[n] == encode_utf8(s).take(n + 1)[n]);
}

/// A node lies in the nodes that it is below.
proof fn lemma_below(tree: &SyntaxTree, node: int, above: int)
    requires
        tree.wf(),
        well_nested(tree),
        0 <= node < tree.nodes@.len(),
        0 <= above < tree.nodes@.len(),
        is_below(tree, node, above),
    ensures
        above <= node,
        tree.nodes@[above].start_byte <= tree.nodes@[node].start_byte,
        tree.nodes@[node].end_byte <= tree.nodes@[above].end_byte,
    decreases node,
{
    if node != above {
        let p = tree.nodes@[node].parent->0 as int;
        lemma_below(tree, p, above);
        let i = choose|i: int|
            0 <= i < tree.nodes@[p].children@.len() && #[trigger] tree.nodes@[p].children@[i]
                == node;
        assert(tree.nodes@[p].children@[i] == node);
    }
}

/// Below a node that another one is below, there is a child that the other is or is below.
proof fn lemma_child_above(tree: &SyntaxTree, node: int, above: int) -> (child: int)
    requires
        tree.wf(),
        0 <= node < tree.nodes@.len(),
        is_below(tree, node, above),
        node != above,
    ensures
        0 <= child < tree.nodes@.len(),
        tree.nodes@[child].parent == Some(above as usize) && above <= usize::MAX,
        is_below(tree, node, child),
    decreases node,
{
    let p = tree.nodes@[node].parent->0 as int;
    if p == above {
        node
    } else {
        lemma_child_above(tree, p, above)
    }
}

/// The outermost node for the bytes of `leaf` is the one above it that covers the same bytes and
/// whose parent does not.
proof fn lemma_widest(tree: &SyntaxTree, leaf: int, token: int)
    requires
        tree.wf(),
        well_nested(tree),
        0 <= token < tree.nodes@.len(),
        0 <= leaf < tree.nodes@.len(),
        is_below(tree, leaf, token),
        tree.same_bytes(leaf, token),
        tree.nodes@[token].parent matches Some(p) ==> !tree.same_bytes(p as int, token),
    ensures
        widest(tree, leaf) == token,
    decreases leaf,
{
    if leaf != token {
        let p = tree.nodes@[leaf].parent->0 as int;
        lemma_below(tree, p, token);
        let i = choose|i: int|
            0 <= i < tree.nodes@[p].children@.len() && #[trigger] tree.nodes@[p].children@[i]
                == leaf;
        assert(tree.nodes@[p].children@[i] == leaf);
        lemma_widest(tree, p, token);
    }
}

proof fn lemma_reaching(tree: &SyntaxTree, children: Seq<usize>, start: u32, end: u32, i: int)
    requires
        0 <= i < children.len(),
        reaches(tree.nodes@[children[i] as int], start, end),
        forall|k: int|
            0 <= k < i ==> !reaches(tree.nodes@[#[trigger] children[k] as int], start, end),
    ensures
        reaching(tree, children, start, end) == Some(children[i]),
    decreases children.len(),
{
    if i > 0 {
        let rest = children.skip(1);
        assert(children[0] == children[0]);
        assert(rest[i - 1] == children[i]);
        assert forall|k: int| 0 <= k < i - 1 implies !reaches(
            tree.nodes@[#[trigger] rest[k] as int],
            start,
            end,
        ) by {
            assert(rest[k] == children[k + 1]);
        }
        lemma_reaching(tree, rest, start, end, i - 1);
    }
}

proof fn lemma_reaching_some(tree: &SyntaxTree, children: Seq<usize>, start: u32, end: u32)
    ensures
        reaching(tree, children, start, end) matches Some(child) ==> exists|i: int|
            0 <= i < children.len() && #[trigger] children[i] == child && reaches(
                tree.nodes@[child as int],
                start,
                end,
            ),
    decreases children.len(),
{
    if children.len() > 0 && !reaches(tree.nodes@[children[0] as int], start, end) {
        let rest = children.skip(1);
        lemma_reaching_some(tree, rest, start, end);
        if let Some(child) = reaching(tree, rest, start, end) {
            let i = choose|i: int|
                0 <= i < rest.len() && #[trigger] rest[i] == child && reaches(
                    tree.nodes@[child as int],
                    start,
                    end,
                );
            assert(children[i + 1] == child);
        }
    } else if children.len() > 0 {
        assert(children[0] == children[0]);
    }
}

/// The smallest node for a single byte is one below `token`, for the same byte.
proof fn lemma_found_token(tree: &SyntaxTree, node: int, leaf: int, token: int, start: u32, end: u32)
    requires
        tree.wf(),
        well_nested(tree),
        0 <= node < tree.nodes@.len(),
        0 <= token < tree.nodes@.len(),
        0 <= leaf < tree.nodes@.len(),
        end == start + 1,
        tree.nodes@[token].start_byte == start,
        tree.nodes@[token].end_byte == end,
        tree.nodes@[leaf].start_byte == start,
        tree.nodes@[leaf].end_byte == end,
        is_below(tree, leaf, token),
        is_below(tree, leaf, node) || (is_below(tree, node, token) && tree.same_bytes(node, token)),
    ensures
        ({
            let found = descendant(tree, node, start, end);
            0 <= found < tree.nodes@.len() && is_below(tree, found, token) && tree.same_bytes(
                found,
                token,
            )
        }),
    decreases tree.nodes@.len() - node,
{
    let children = tree.nodes@[node].children@;
    if is_below(tree, node, token) && tree.same_bytes(node, token) {
        lemma_reaching_some(tree, children, start, end);
        if let Some(child) = reaching(tree, children, start, end) {
            let i = choose|i: int|
                0 <= i < children.len() && #[trigger] children[i] == child && reaches(
                    tree.nodes@[child as int],
                    start,
                    end,
                );
            assert(tree.nodes@[node].children@[i] == child);
            if tree.nodes@[child as int].start_byte <= start {
                lemma_found_token(tree, child as int, leaf, token, start, end);
            }
        }
    } else {
        if leaf == node {
            assert(is_below(tree, node, token));
        }
        let child = lemma_child_above(tree, leaf, node);
        lemma_below(tree, leaf, child);
        let i = choose|i: int|
            0 <= i < tree.nodes@[node].children@.len() && #[trigger] tree.nodes@[node].children@[i]
                == child;
        assert(tree.nodes@[node].children@[i] == child);
        assert forall|k: int| 0 <= k < i implies !reaches(
            tree.nodes@[#[trigger] children[k] as int],
            start,
            end,
        ) by {
            assert(tree.nodes@[node].children@[k] == children[k]);
            assert(tree.nodes@[tree.nodes@[node].children@[k] as int].end_byte
                <= tree.nodes@[child].start_byte);
        }
        lemma_reaching(tree, children, start, end, i);
        lemma_found_token(tree, child, leaf, token, start, end);
    }
}

proof fn lemma_position(tree: &SyntaxTree, siblings: Seq<usize>, node: int, from: int, at: int)
    requires
        0 <= from <= at < siblings.len(),
        tree.same_bytes(siblings[at] as int, node),
        forall|k: int|
            from <= k < at ==> !tree.same_bytes(#[trigger] siblings[k] as int, node),
    ensures
        position_of(tree, siblings, node, from) == at,
    decreases at - from,
{
    if from < at {
        assert(!tree.same_bytes(siblings[from] as int, node));
        lemma_position(tree, siblings, node, from + 1, at);
    }
}

/// What is open after a bracket that is not closed up to `to` ends with what was open before it,
/// the bracket, and as many more as are open in between.
proof fn lemma_stays_open(
    tree: &SyntaxTree,
    s: Seq<char>,
    siblings: Seq<usize>,
    k: int,
    to: int,
    open: char,
    close: char,
)
    requires
        bracket_pair(open, close),
        0 <= k < to <= siblings.len(),
        reads_bracket(tree, s, siblings[k] as int, open),
        forall|j: int|
            k < j <= to ==> #[trigger] depth_after(tree, s, siblings, k + 1, j, open, close) >= 0,
    ensures
        ({
            let before = unclosed(tree, s, siblings.take(k), open as u8, close as u8);
            let after = unclosed(tree, s, siblings.take(to), open as u8, close as u8);
            &&& after.len() == before.len() + 1 + depth_after(
                tree,
                s,
                siblings,
                k + 1,
                to,
                open,
                close,
            )
            &&& after.take(before.len() as int + 1) == before.push(siblings[k])
        }),
    decreases to - k,
{
    let before = unclosed(tree, s, siblings.take(k), open as u8, close as u8);
    let after = unclosed(tree, s, siblings.take(to), open as u8, close as u8);
    let shorter = siblings.take(to - 1);
    assert(siblings.take(to).drop_last() =~= shorter);
    assert(siblings.take(to).last() == siblings[to - 1]);
    assert(depth_after(tree, s, siblings, k + 1, to, open, close) >= 0);
    if to == k + 1 {
        assert(after =~= before.push(siblings[k]));
        assert(after.take(before.len() as int + 1) =~= after);
    } else {
        lemma_stays_open(tree, s, siblings, k, to - 1, open, close);
        let middle = unclosed(tree, s, shorter, open as u8, close as u8);
        assert(depth_after(tree, s, siblings, k + 1, to - 1, open, close) >= 0);
        assert(after.take(before.len() as int + 1) =~= middle.take(before.len() as int + 1));
    }
}

/// Every bracket that is open before `at` is one of the siblings, and those after it are open too.
proof fn lemma_open_before(
    tree: &SyntaxTree,
    s: Seq<char>,
    siblings: Seq<usize>,
    at: int,
    open: char,
    close: char,
    m: int,
) -> (k: int)
    requires
        bracket_pair(open, close),
        0 <= at <= siblings.len(),
        0 <= m < unclosed(tree, s, siblings.take(at), open as u8, close as u8).len(),
    ensures
        0 <= k < at,
        unclosed(tree, s, siblings.take(at), open as u8, close as u8)[m] == siblings[k],
        reads_bracket(tree, s, siblings[k] as int, open),
        depth_after(tree, s, siblings, k + 1, at, open, close) == unclosed(
            tree,
            s,
            siblings.take(at),
            open as u8,
            close as u8,
        ).len() - 1 - m,
        forall|j: int|
            k < j <= at ==> #[trigger] depth_after(tree, s, siblings, k + 1, j, open, close) >= 0,
    decreases at,
{
    let shorter = siblings.take(at - 1);
    assert(siblings.take(at).drop_last() =~= shorter);
    assert(siblings.take(at).last() == siblings[at - 1]);
    let before = unclosed(tree, s, shorter, open as u8, close as u8);
    if m < before.len() {
        let k = lemma_open_before(tree, s, siblings, at - 1, open, close, m);
        assert forall|j: int| k < j <= at implies #[trigger] depth_after(
            tree,
            s,
            siblings,
            k + 1,
            j,
            open,
            close,
        ) >= 0 by {}
        k
    } else {
        at - 1
    }
}

/// The token of a closing bracket is found, and with it what it closes.
proof fn lemma_opener(
    tree: &SyntaxTree,
    s: Seq<char>,
    last: int,
    c: int,
    open: char,
    close: char,
    leaf: int,
    token: int,
    parent: int,
    at: int,
)
    requires
        tree.wf(),
        tree.fits(encode_utf8(s).len()),
        well_nested(tree),
        0 <= last < tree.nodes@.len(),
        0 <= c < s.len(),
        bracket_pair(open, close),
        s[c] == close,
        is_token(tree, s, c, last, leaf, token, parent, at),
    ensures
        ({
            let byte = byte_of(s, c);
            let siblings = tree.nodes@[parent].children@;
            let before = unclosed(tree, s, siblings.take(at), open as u8, close as u8);
            opener_node(tree, s, descendant(tree, last, byte as u32, (byte + 1) as u32)) == if before.len()
                > 0 {
                Some(before.last())
            } else {
                None
            }
        }),
{
    let byte = byte_of(s, c);
    lemma_ascii_byte(s, c);
    let (start, end) = (byte as u32, (byte + 1) as u32);
    assert(start + 1 == end);
    lemma_found_token(tree, last, leaf, token, start, end);
    let found = descendant(tree, last, start, end);
    assert(tree.nodes@[parent].children@[at] == token);
    lemma_widest(tree, found, token);
    let siblings = tree.nodes@[parent].children@;
    assert forall|k: int| 0 <= k < at implies !tree.same_bytes(
        #[trigger] siblings[k] as int,
        token,
    ) by {
        assert(tree.nodes@[parent].children@[k] == siblings[k]);
    }
    lemma_position(tree, siblings, token, 0, at);
    assert(bracket_of(tree, s, token) == Some(close as u8));
    assert(opener_of(close as u8) == Some(open as u8));
}

proof fn lemma_region(
    tree: &SyntaxTree,
    s: Seq<char>,
    first: usize,
    last: usize,
    last_char: int,
    c: int,
)
    requires
        tree.wf(),
        tree.fits(encode_utf8(s).len()),
        first < tree.nodes@.len(),
        last < tree.nodes@.len(),
        ends_region(tree, s, first, last, last_char),
        starts_line_of(s, c, last_char),
    ensures
        ({
            let from = char_of(s, tree.nodes@[first as int].start_byte as nat) as int;
            let to = char_of(s, content_end_of(tree, s, last as int) as nat) as int;
            &&& 0 <= from && to <= s.len()
            &&& last_visible(s, from, to) == Some(last_char)
            &&& line_first_visible(s, line_of(s, last_char)) == Some(c)
        }),
{
    let from = char_of(s, tree.nodes@[first as int].start_byte as nat) as int;
    let to = char_of(s, content_end_of(tree, s, last as int) as nat) as int;
    lemma_char_of_bound(s, content_end_of(tree, s, last as int) as nat);
    lemma_last_visible(s, from, to);
    let found = last_visible(s, from, to);
    assert(found is Some) by {
        if found is None {
            assert(white_space(s[last_char]));
        }
    }
    assert(found->0 == last_char) by {
        if found->0 < last_char {
            assert(white_space(s[last_char]));
        } else if last_char < found->0 {
            assert(white_space(s[found->0]));
        }
    }
    let line = line_of(s, last_char);
    lemma_in_line(s, last_char);
    lemma_line_start_bound(s, line + 1);
    let (start, end) = (line_start(s, line) as int, line_start(s, line + 1) as int);
    lemma_first_visible(s, start, end);
    let starts = line_first_visible(s, line);
    assert(last_char < end);
    assert(starts is Some) by {
        if starts is None {
            assert(white_space(s[c]));
        }
    }
    assert(starts->0 == c) by {
        if starts->0 < c {
            assert(white_space(s[starts->0]));
        } else if c < starts->0 {
            assert(white_space(s[c]));
        }
    }
}

/// A fold ends right at a closing bracket, which is pulled up, where the bracket is the first char
/// on the region's last line that is not white space and one of the siblings of its token is the
/// bracket that it closes, on the region's first line. The brackets are `(` and `)`, `[` and `]`, or
/// `{` and `}`. The fold is there if anything but white space is between the two lines' ends.
pub proof fn law_closing_brackets_are_pulled_up(
    tree: &SyntaxTree,
    s: Seq<char>,
    first: usize,
    last: usize,
    last_char: int,
    c: int,
    open: char,
    close: char,
    leaf: int,
    token: int,
    parent: int,
    k: int,
    at: int,
)
    requires
        tree.wf(),
        tree.fits(encode_utf8(s).len()),
        well_nested(tree),
        s.len() <= usize::MAX,
        first < tree.nodes@.len(),
        last < tree.nodes@.len(),
        ends_region(tree, s, first, last, last_char),
        starts_line_of(s, c, last_char),
        (open == '(' && close == ')') || (open == '[' && close == ']') || (open == '{' && close
            == '}'),
        s[c] == close,
        is_token(tree, s, c, last as int, leaf, token, parent, at),
        opens(tree, s, tree.nodes@[parent].children@, k, at, open, close),
        line_of(
            s,
            char_of(
                s,
                tree.nodes@[tree.nodes@[parent].children@[k] as int].start_byte as nat,
            ) as int,
        ) == line_of(s, char_of(s, tree.nodes@[first as int].start_byte as nat) as int),
    ensures
        ({
            let header = line_of(s, char_of(s, tree.nodes@[first as int].start_byte as nat) as int);
            fold_of_nodes(tree, s, first, last) == if exists|i: int|
                line_start(s, header + 1) <= i < c && !white_space(#[trigger] s[i]) {
                Some(
                    Fold { start: line_end(s, header) as usize, end: c as usize, pulled_up: true },
                )
            } else {
                None
            }
        }),
{
    let from = char_of(s, tree.nodes@[first as int].start_byte as nat) as int;
    let to = char_of(s, content_end_of(tree, s, last as int) as nat) as int;
    lemma_region(tree, s, first, last, last_char, c);
    lemma_opener(tree, s, last as int, c, open, close, leaf, token, parent, at);
    let siblings = tree.nodes@[parent].children@;
    let before = unclosed(tree, s, siblings.take(at), open as u8, close as u8);
    let outer = unclosed(tree, s, siblings.take(k), open as u8, close as u8);
    lemma_stays_open(tree, s, siblings, k, at, open, close);
    assert(before.take(outer.len() as int + 1) =~= before);
    assert(before.last() == siblings[k]);
    assert(closer_of(tree, s, last as int, from, to) == Some(c as usize));
    let header = line_of(s, from);
    lemma_last_visible(s, line_start(s, header + 1) as int, c);
}

/// Where nothing is pulled up, a fold ends after the last char of its region that is not white
/// space. Nothing is, if the first such char on the region's last line is no closing bracket, or if
/// no sibling of the bracket's token on the region's first line is the bracket that it closes.
pub proof fn law_other_folds_end_after_the_last_char(
    tree: &SyntaxTree,
    s: Seq<char>,
    first: usize,
    last: usize,
    last_char: int,
    c: int,
    open: char,
    close: char,
    leaf: int,
    token: int,
    parent: int,
    at: int,
)
    requires
        tree.wf(),
        tree.fits(encode_utf8(s).len()),
        well_nested(tree),
        s.len() <= usize::MAX,
        first < tree.nodes@.len(),
        last < tree.nodes@.len(),
        ends_region(tree, s, first, last, last_char),
        starts_line_of(s, c, last_char),
        (s[c] != ')' && s[c] != ']' && s[c] != '}') || {
            &&& (open == '(' && close == ')') || (open == '[' && close == ']') || (open == '{'
                && close == '}')
            &&& s[c] == close
            &&& is_token(tree, s, c, last as int, leaf, token, parent, at)
            &&& forall|k: int|
                #![trigger tree.nodes@[parent].children@[k]]
                0 <= k < at ==> !(opens(
                    tree,
                    s,
                    tree.nodes@[parent].children@,
                    k,
                    at,
                    open,
                    close,
                ) && line_of(
                    s,
                    char_of(
                        s,
                        tree.nodes@[tree.nodes@[parent].children@[k] as int].start_byte as nat,
                    ) as int,
                ) == line_of(s, char_of(s, tree.nodes@[first as int].start_byte as nat) as int))
        },
    ensures
        ({
            let header = line_of(s, char_of(s, tree.nodes@[first as int].start_byte as nat) as int);
            let fold = Fold {
                start: line_end(s, header) as usize,
                end: next_boundary(s, last_char as nat) as usize,
                pulled_up: false,
            };
            &&& fold_of_nodes(tree, s, first, last) matches Some(found) ==> found == fold
            &&& last_char < next_boundary(s, last_char as nat) <= s.len() ==> fold_of_nodes(
                tree,
                s,
                first,
                last,
            ) == Some(fold)
        }),
{
    let from = char_of(s, tree.nodes@[first as int].start_byte as nat) as int;
    let to = char_of(s, content_end_of(tree, s, last as int) as nat) as int;
    lemma_region(tree, s, first, last, last_char, c);
    if s[c] == ')' || s[c] == ']' || s[c] == '}' {
        lemma_opener(tree, s, last as int, c, open, close, leaf, token, parent, at);
        let siblings = tree.nodes@[parent].children@;
        let before = unclosed(tree, s, siblings.take(at), open as u8, close as u8);
        if before.len() > 0 {
            let k = lemma_open_before(tree, s, siblings, at, open, close, before.len() - 1);
            assert(tree.nodes@[parent].children@[k] == before.last());
        }
    }
    assert(closer_of(tree, s, last as int, from, to) is None);
    let header = line_of(s, from);
    let end = next_boundary(s, last_char as nat) as int;
    if last_char < end <= s.len() {
        lemma_in_line(s, last_char);
        crate::text::lemma_line_of_monotone(s, from, last_char);
        crate::text::lemma_line_start(s, header + 1, last_char);
        lemma_last_visible(s, line_start(s, header + 1) as int, end);
        if last_visible(s, line_start(s, header + 1) as int, end) is None {
            assert(white_space(s[last_char]));
        }
    }
}

} // verus!
