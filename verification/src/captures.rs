//! The nodes that a query captures.

use vstd::prelude::*;

verus! {

/// A node, by its bytes.
#[derive(Clone, Copy, Debug, PartialEq, Eq, Structural)]
pub struct NodeBytes {
    pub start: u32,
    pub end: u32,
}

/// What one match of a query captured.
#[derive(Clone, Debug)]
pub enum CapturedNode {
    Single(NodeBytes),
    /// Guaranteed to be not empty
    Grouped(Vec<NodeBytes>),
}

impl CapturedNode {
    /// The captured nodes.
    pub open spec fn view(&self) -> Seq<NodeBytes> {
        match self {
            CapturedNode::Single(node) => seq![*node],
            CapturedNode::Grouped(nodes) => nodes@,
        }
    }

    /// Groups the nodes that one match captured; nothing if it captured none.
    pub fn from_nodes(nodes: Vec<NodeBytes>) -> (captured: Option<CapturedNode>)
        ensures
            match captured {
                Some(captured) => captured@ == nodes@ && nodes@.len() > 0 && (captured is Grouped
                    <==> nodes@.len() > 1),
                None => nodes@.len() == 0,
            },
    {
        if nodes.len() > 1 {
            Some(CapturedNode::Grouped(nodes))
        } else if nodes.len() == 1 {
            let node: NodeBytes = nodes[0];
            assert(nodes@ =~= seq![node]);
            Some(CapturedNode::Single(node))
        } else {
            None
        }
    }

    /// The start of the first node.
    pub fn start_byte(&self) -> (start: usize)
        requires
            self@.len() > 0,
        ensures
            start == self@[0].start,
    {
        match self {
            CapturedNode::Single(node) => node.start as usize,
            CapturedNode::Grouped(nodes) => nodes[0].start as usize,
        }
    }

    /// The end of the last node.
    pub fn end_byte(&self) -> (end: usize)
        requires
            self@.len() > 0,
        ensures
            end == self@.last().end,
    {
        match self {
            CapturedNode::Single(node) => node.end as usize,
            CapturedNode::Grouped(nodes) => nodes[nodes.len() - 1].end as usize,
        }
    }

    /// The bytes from the first node to the last one.
    pub fn byte_range(&self) -> (range: std::ops::Range<usize>)
        requires
            self@.len() > 0,
        ensures
            range.start == self@[0].start,
            range.end == self@.last().end,
    {
        self.start_byte()..self.end_byte()
    }
}

/// The captures that the matches of a query made, given the nodes that each of them captured.
pub fn capture_nodes(matches: Vec<Vec<NodeBytes>>) -> (captured: Vec<CapturedNode>)
    ensures
        captured@.map_values(|node: CapturedNode| node@) == captures_of(matches@),
        forall|k: int|
            0 <= k < captured@.len() ==> ((#[trigger] captured@[k]) is Grouped
                <==> captured@[k]@.len() > 1),
{
    let ghost given = matches@;
    let ghost seen = |node: CapturedNode| node@;
    let mut captured: Vec<CapturedNode> = Vec::new();
    assert(captured@.map_values(seen) =~= captures_of(given.take(0)));
    for nodes in iter: matches
        invariant
            iter.seq() == given,
            seen == (|node: CapturedNode| node@),
            captured@.map_values(seen) == captures_of(given.take(iter.index() as int)),
            forall|k: int|
                0 <= k < captured@.len() ==> ((#[trigger] captured@[k]) is Grouped
                    <==> captured@[k]@.len() > 1),
    {
        let ghost k = iter.index() as int;
        let ghost before = captured@;
        assert(given.take(k + 1).drop_last() =~= given.take(k));
        assert(given.take(k + 1).last() == given[k]);
        if let Some(node) = CapturedNode::from_nodes(nodes) {
            captured.push(node);
            assert(captured@.map_values(seen) =~= before.map_values(seen).push(node@));
        }
    }
    assert(given.take(given.len() as int) =~= given);
    captured
}

/// The matches that captured something.
pub open spec fn captures_of(matches: Seq<Vec<NodeBytes>>) -> Seq<Seq<NodeBytes>>
    decreases matches.len(),
{
    if matches.len() == 0 {
        Seq::empty()
    } else {
        let before = captures_of(matches.drop_last());
        if matches.last()@.len() == 0 {
            before
        } else {
            before.push(matches.last()@)
        }
    }
}

/// Every match that captured something adds what it captured after those before it, and a match
/// without adds nothing.
pub proof fn law_empty_matches_capture_nothing(matches: Seq<Vec<NodeBytes>>, item: Vec<NodeBytes>)
    ensures
        item@.len() == 0 ==> captures_of(matches.push(item)) == captures_of(matches),
        item@.len() > 0 ==> captures_of(matches.push(item)) == captures_of(matches).push(item@),
{
    assert(matches.push(item).drop_last() =~= matches);
}

} // verus!
