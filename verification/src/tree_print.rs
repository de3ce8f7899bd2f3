//! Printing syntax trees.

use crate::chars::{chars_of_str, string_of};
use crate::syntax_tree::SyntaxTree;
use vstd::prelude::*;

verus! {

/// `kind` with its backslashes and double quotes escaped by a backslash.
pub open spec fn escaped(kind: Seq<char>) -> Seq<char>
    decreases kind.len(),
{
    if kind.len() == 0 {
        kind
    } else {
        let before = escaped(kind.drop_last());
        if kind.last() == '\\' || kind.last() == '"' {
            before.push('\\').push(kind.last())
        } else {
            before.push(kind.last())
        }
    }
}

/// `n` spaces.
pub open spec fn spaces(n: nat) -> Seq<char> {
    Seq::new(n, |i: int| ' ')
}

/// How a node that is part of a larger tree starts: a visible one on a line of its own, with the
/// name of its field unless it is the top of the tree, and any other after what comes before it.
pub open spec fn node_head(tree: &SyntaxTree, node: int, depth: nat) -> Seq<char> {
    let item = tree.nodes@[node];
    if item.visible {
        spaces(depth * 2) + (match item.field {
            Some(field) if depth > 0 => field@ + seq![':', ' '],
            _ => Seq::empty(),
        }) + seq!['('] + item.kind@
    } else {
        seq![' ', '"'] + escaped(item.kind@) + seq!['"']
    }
}

/// The tree below `node`, printed with its children indented.
pub open spec fn printed(tree: &SyntaxTree, node: int, depth: nat) -> Seq<char>
    decreases tree.nodes@.len() - node, tree.nodes@[node].children@.len() + 1,
{
    node_head(tree, node, depth) + printed_children(
        tree,
        node,
        depth,
        tree.nodes@[node].children@.len(),
    ) + if tree.nodes@[node].visible {
        seq![')']
    } else {
        Seq::empty()
    }
}

/// The first `n` children of `node`, each visible one on a line of its own.
pub open spec fn printed_children(tree: &SyntaxTree, node: int, depth: nat, n: nat) -> Seq<char>
    decreases tree.nodes@.len() - node, n,
{
    if n == 0 {
        Seq::empty()
    } else {
        let child = tree.nodes@[node].children@[n - 1] as int;
        if node < child < tree.nodes@.len() {
            printed_children(tree, node, depth, (n - 1) as nat) + (if tree.nodes@[child].visible {
                seq!['\n']
            } else {
                Seq::empty()
            }) + printed(tree, child, depth + 1)
        } else {
            Seq::empty()
        }
    }
}

/// The printed tree below `node`, see [`pretty_print_tree`].
pub open spec fn pretty(tree: &SyntaxTree, node: int) -> Seq<char> {
    let item = tree.nodes@[node];
    if item.children@.len() == 0 {
        if item.visible {
            seq!['('] + item.kind@ + seq![')']
        } else {
            seq!['"'] + escaped(item.kind@) + seq!['"']
        }
    } else {
        printed(tree, node, 0)
    }
}

fn push_str(out: &mut Vec<char>, string: &str)
    ensures
        final(out)@ == old(out)@ + string@,
{
    let chars: Vec<char> = chars_of_str(string);
    let mut i: usize = 0;
    assert(out@ =~= old(out)@ + chars@.take(0));
    while i < chars.len()
        invariant
            i <= chars@.len(),
            out@ == old(out)@ + chars@.take(i as int),
        decreases chars.len() - i,
    {
        out.push(chars[i]);
        i += 1;
        assert(out@ =~= old(out)@ + chars@.take(i as int));
    }
    assert(chars@.take(i as int) =~= chars@);
}

fn push_spaces(out: &mut Vec<char>, n: usize)
    ensures
        final(out)@ == old(out)@ + spaces(n as nat),
{
    let mut i: usize = 0;
    assert(out@ =~= old(out)@ + spaces(0));
    while i < n
        invariant
            i <= n,
            out@ == old(out)@ + spaces(i as nat),
        decreases n - i,
    {
        out.push(' ');
        i += 1;
        assert(out@ =~= old(out)@ + spaces(i as nat));
    }
}

/// The kind of an anonymous node, with its backslashes and double quotes escaped.
pub fn format_anonymous_node_kind(kind: &str) -> (formatted: String)
    ensures
        formatted@ == escaped(kind@),
{
    let mut out: Vec<char> = Vec::new();
    push_escaped(&mut out, kind);
    assert(out@ =~= escaped(kind@));
    string_of(&out)
}

fn push_escaped(out: &mut Vec<char>, kind: &str)
    ensures
        final(out)@ == old(out)@ + escaped(kind@),
{
    let chars: Vec<char> = chars_of_str(kind);
    let mut i: usize = 0;
    assert(out@ =~= old(out)@ + escaped(chars@.take(0)));
    while i < chars.len()
        invariant
            i <= chars@.len(),
            out@ == old(out)@ + escaped(chars@.take(i as int)),
        decreases chars.len() - i,
    {
        let ch: char = chars[i];
        assert(chars@.take(i + 1).drop_last() =~= chars@.take(i as int));
        if ch == '\\' || ch == '"' {
            out.push('\\');
        }
        out.push(ch);
        i += 1;
        assert(out@ =~= old(out)@ + escaped(chars@.take(i as int)));
    }
    assert(chars@.take(i as int) =~= chars@);
}

/// Prints the node and what is below it as a part of a larger tree.
fn print_node(out: &mut Vec<char>, tree: &SyntaxTree, node: usize, depth: usize)
    requires
        tree.wf(),
        node < tree.nodes@.len(),
        depth <= node,
        tree.nodes@.len() * 2 <= usize::MAX,
    ensures
        final(out)@ == old(out)@ + printed(tree, node as int, depth as nat),
    decreases tree.nodes@.len() - node,
{
    let ghost given = out@;
    let visible: bool = tree.nodes[node].visible;
    if visible {
        push_spaces(out, depth * 2);
        if depth > 0 {
            if let Some(field) = &tree.nodes[node].field {
                push_str(out, field.as_str());
                out.push(':');
                out.push(' ');
            }
        }
        out.push('(');
        push_str(out, tree.nodes[node].kind.as_str());
    } else {
        out.push(' ');
        out.push('"');
        push_escaped(out, tree.nodes[node].kind.as_str());
        out.push('"');
    }
    let ghost head = node_head(tree, node as int, depth as nat);
    assert(out@ =~= given + head);
    let children: &Vec<usize> = &tree.nodes[node].children;
    let mut i: usize = 0;
    assert(out@ =~= given + head + printed_children(tree, node as int, depth as nat, 0));
    while i < children.len()
        invariant
            tree.wf(),
            node < tree.nodes@.len(),
            depth <= node,
            tree.nodes@.len() * 2 <= usize::MAX,
            children@ == tree.nodes@[node as int].children@,
            i <= children@.len(),
            out@ == given + head + printed_children(tree, node as int, depth as nat, i as nat),
        decreases children.len() - i,
    {
        let child: usize = children[i];
        assert(tree.nodes@[node as int].children@[i as int] == child);
        let ghost before = out@;
        if tree.nodes[child].visible {
            out.push('\n');
        }
        print_node(out, tree, child, depth + 1);
        i += 1;
        assert(out@ =~= given + head + printed_children(tree, node as int, depth as nat, i as nat));
    }
    if visible {
        out.push(')');
    }
    assert(out@ =~= given + printed(tree, node as int, depth as nat));
}

/// Prints the syntax tree below `node`: a single token on its own, and a larger tree with every
/// visible node on a line of its own, indented by its depth and, below `node`, with the name of
/// its field.
pub fn pretty_print_tree(tree: &SyntaxTree, node: usize) -> (printed_tree: String)
    requires
        tree.wf(),
        node < tree.nodes@.len(),
        tree.nodes@.len() * 2 <= usize::MAX,
    ensures
        printed_tree@ == pretty(tree, node as int),
{
    let mut out: Vec<char> = Vec::new();
    if tree.nodes[node].children.len() == 0 {
        if tree.nodes[node].visible {
            out.push('(');
            push_str(&mut out, tree.nodes[node].kind.as_str());
            out.push(')');
        } else {
            out.push('"');
            push_escaped(&mut out, tree.nodes[node].kind.as_str());
            out.push('"');
        }
        assert(out@ =~= pretty(tree, node as int));
    } else {
        print_node(&mut out, tree, node, 0);
        assert(out@ =~= pretty(tree, node as int));
    }
    string_of(&out)
}

/// Backslashes and double quotes are escaped by a backslash in front of them, and nothing else is.
pub proof fn law_quotes_are_escaped(kind: Seq<char>, c: char)
    ensures
        c == '\\' || c == '"' ==> escaped(kind.push(c)) == escaped(kind) + seq!['\\', c],
        c != '\\' && c != '"' ==> escaped(kind.push(c)) == escaped(kind).push(c),
{
    assert(kind.push(c).drop_last() =~= kind);
    if c == '\\' || c == '"' {
        assert(escaped(kind.push(c)) =~= escaped(kind) + seq!['\\', c]);
    }
}

/// A node without children is printed as its kind: in parentheses if it is named, and in quotes if
/// not. A node with children starts like its kind, with the name of its field below the top.
pub proof fn law_nodes_are_printed_by_their_kinds(tree: &SyntaxTree, node: int, depth: nat)
    ensures
        ({
            let item = tree.nodes@[node];
            &&& item.children@.len() == 0 && item.visible ==> pretty(tree, node) == seq!['(']
                + item.kind@ + seq![')']
            &&& item.children@.len() == 0 && !item.visible ==> pretty(tree, node) == seq!['"']
                + escaped(item.kind@) + seq!['"']
            &&& item.visible && (depth == 0 || item.field is None) ==> node_head(tree, node, depth)
                == Seq::new(depth * 2, |i: int| ' ') + seq!['('] + item.kind@
            &&& item.visible && depth > 0 ==> (item.field matches Some(field) ==> node_head(
                tree,
                node,
                depth,
            ) == Seq::new(depth * 2, |i: int| ' ') + field@ + seq![':', ' '] + seq!['('] + item.kind@)
            &&& !item.visible ==> node_head(tree, node, depth) == seq![' ', '"'] + escaped(
                item.kind@,
            ) + seq!['"']
        }),
{
    let item = tree.nodes@[node];
    let indent = Seq::new(depth * 2, |i: int| ' ');
    assert(spaces(depth * 2) =~= indent);
    if item.visible {
        if depth > 0 && item.field is Some {
            let field = item.field->0;
            assert(node_head(tree, node, depth) =~= indent + field@ + seq![':', ' '] + seq!['(']
                + item.kind@);
        } else {
            assert(node_head(tree, node, depth) =~= indent + seq!['('] + item.kind@);
        }
    }
}

/// A visible child is printed on a line of its own, one level deeper than its parent, after those
/// before it. Any other child is printed on the same line.
pub proof fn law_children_are_printed_below(tree: &SyntaxTree, node: int, depth: nat, n: nat, child: int)
    requires
        0 < n <= tree.nodes@[node].children@.len(),
        tree.nodes@[node].children@[n - 1] == child,
        node < child < tree.nodes@.len(),
    ensures
        ({
            let before = printed_children(tree, node, depth, (n - 1) as nat);
            let after = printed_children(tree, node, depth, n);
            &&& tree.nodes@[child].visible ==> after == before + seq!['\n'] + printed(
                tree,
                child,
                depth + 1,
            )
            &&& !tree.nodes@[child].visible ==> after == before + printed(tree, child, depth + 1)
        }),
        ({
            let inner = printed_children(tree, node, depth, tree.nodes@[node].children@.len());
            &&& tree.nodes@[node].visible ==> printed(tree, node, depth) == node_head(
                tree,
                node,
                depth,
            ) + inner + seq![')']
            &&& !tree.nodes@[node].visible ==> printed(tree, node, depth) == node_head(
                tree,
                node,
                depth,
            ) + inner
        }),
{
    let before = printed_children(tree, node, depth, (n - 1) as nat);
    let below = printed(tree, child, depth + 1);
    if !tree.nodes@[child].visible {
        assert(before + Seq::<char>::empty() + below =~= before + below);
    }
    let inner = printed_children(tree, node, depth, tree.nodes@[node].children@.len());
    let head = node_head(tree, node, depth);
    assert(head + inner + Seq::<char>::empty() =~= head + inner);
}

} // verus!
