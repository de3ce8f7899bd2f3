//! The nodes of the file tree, in a slot map.

use crate::order::Group;
use slotmap::{DefaultKey, Key, KeyData, SlotMap};
use vstd::prelude::*;

verus! {

/// A node of the tree, by the number of its key in the slot map.
#[derive(Clone, Copy, Debug, PartialEq, Eq, Hash, Structural)]
pub struct NodeId {
    number: u64,
}

impl NodeId {
    /// Numbers of keys have an odd version in their upper half.
    #[verifier::type_invariant]
    spec fn is_key(self) -> bool {
        (self.number >> 32u64) & 1u64 == 1u64
    }
}

/// What a directory entry is. Links are never followed.
#[derive(Clone, Copy, Debug, PartialEq, Eq, Structural)]
pub enum Kind {
    Directory,
    File { executable: bool },
    Link(LinkTarget),
    Special(Special),
}

#[derive(Clone, Copy, Debug, PartialEq, Eq, Structural)]
pub enum LinkTarget {
    File,
    Directory,
    /// The target is missing, unreadable or neither a file nor a directory.
    Broken,
}

#[derive(Clone, Copy, Debug, PartialEq, Eq, Structural)]
pub enum Special {
    Fifo,
    Socket,
    BlockDevice,
    CharDevice,
}

impl Kind {
    /// Where entries of this kind sort.
    pub open spec fn group_of(self) -> Group {
        match self {
            Kind::Directory | Kind::Link(LinkTarget::Directory) => Group::Directory,
            Kind::File { .. } | Kind::Link(LinkTarget::File) => Group::File,
            Kind::Link(LinkTarget::Broken) | Kind::Special(_) => Group::Other,
        }
    }

    pub fn group(self) -> (group: Group)
        ensures
            group == self.group_of(),
    {
        match self {
            Kind::Directory | Kind::Link(LinkTarget::Directory) => Group::Directory,
            Kind::File { .. } | Kind::Link(LinkTarget::File) => Group::File,
            Kind::Link(LinkTarget::Broken) | Kind::Special(_) => Group::Other,
        }
    }

    /// Whether the entry can be opened in a buffer.
    pub fn is_file(self) -> (is: bool)
        ensures
            is == (self.group_of() is File),
    {
        match self {
            Kind::File { .. } | Kind::Link(LinkTarget::File) => true,
            _ => false,
        }
    }
}

#[derive(Debug)]
pub enum Children {
    /// Not known yet: a collapsed directory, or a listing that has not arrived.
    Unloaded,
    /// Every entry of the directory, in tree order.
    Loaded(Vec<NodeId>),
    Unreadable,
}

#[derive(Debug)]
pub struct Node {
    pub name: Vec<u8>,
    pub kind: Kind,
    pub parent: Option<NodeId>,
    pub children: Children,
    pub expanded: bool,
    /// Whether `children` come from a listing of this directory rather than a probe.
    pub listed: bool,
}

/// What is known of the entries of a directory.
pub ghost enum ChildrenView {
    Unloaded,
    Loaded(Seq<NodeId>),
    Unreadable,
}

/// What a node holds.
pub ghost struct NodeView {
    pub name: Seq<u8>,
    pub kind: Kind,
    pub parent: Option<NodeId>,
    pub children: ChildrenView,
    pub expanded: bool,
    pub listed: bool,
}

impl Children {
    pub open spec fn view(&self) -> ChildrenView {
        match self {
            Children::Unloaded => ChildrenView::Unloaded,
            Children::Loaded(ids) => ChildrenView::Loaded(ids@),
            Children::Unreadable => ChildrenView::Unreadable,
        }
    }
}

impl Node {
    pub open spec fn view(&self) -> NodeView {
        NodeView {
            name: self.name@,
            kind: self.kind,
            parent: self.parent,
            children: self.children@,
            expanded: self.expanded,
            listed: self.listed,
        }
    }
}

impl NodeView {
    /// The known entries of the node.
    pub open spec fn ids(self) -> Seq<NodeId> {
        self.children.ids()
    }
}

impl ChildrenView {
    /// The known entries.
    pub open spec fn ids(self) -> Seq<NodeId> {
        match self {
            ChildrenView::Loaded(ids) => ids,
            _ => Seq::empty(),
        }
    }
}

/// The nodes of a tree in a `SlotMap`, see `nodes_of` for what it holds.
#[verifier::external_body]
pub struct Arena {
    nodes: SlotMap<DefaultKey, Node>,
}

/// The nodes that an arena holds.
pub uninterp spec fn nodes_of(arena: Arena) -> Map<NodeId, NodeView>;

/// `SlotMap::new` makes an empty map.
#[verifier::external_body]
pub(crate) fn new_nodes() -> (arena: Arena)
    ensures
        nodes_of(arena).dom() == Set::<NodeId>::empty(),
{
    Arena { nodes: SlotMap::new() }
}

/// `SlotMap::insert` puts a node into the map, under a key that no other node in it has. A map that
/// is full has `u32::MAX - 1` nodes.
#[verifier::external_body]
pub(crate) fn insert_node(arena: &mut Arena, node: Node) -> (id: NodeId)
    requires
        nodes_of(*old(arena)).len() < u32::MAX - 1,
    ensures
        !nodes_of(*old(arena)).dom().contains(id),
        nodes_of(*final(arena)) == nodes_of(*old(arena)).insert(id, node@),
{
    NodeId { number: arena.nodes.insert(node).data().as_ffi() }
}

/// `SlotMap::get` returns the node of a key, if the map has one.
#[verifier::external_body]
pub(crate) fn get_node(arena: &Arena, id: NodeId) -> (node: Option<&Node>)
    ensures
        match node {
            Some(node) => nodes_of(*arena).dom().contains(id) && nodes_of(*arena)[id] == node@,
            None => !nodes_of(*arena).dom().contains(id),
        },
{
    arena.nodes.get(DefaultKey::from(KeyData::from_ffi(id.number)))
}

/// Indexing a `SlotMap` gives access to the node of a key, which must be in the map.
#[verifier::external_body]
pub(crate) fn node_mut(arena: &mut Arena, id: NodeId) -> (node: &mut Node)
    requires
        nodes_of(*old(arena)).dom().contains(id),
    ensures
        node@ == nodes_of(*old(arena))[id],
        nodes_of(*final(arena)) == nodes_of(*old(arena)).insert(id, final(node)@),
{
    &mut arena.nodes[DefaultKey::from(KeyData::from_ffi(id.number))]
}

/// `SlotMap::remove` takes the node of a key out of the map, if it has one.
#[verifier::external_body]
pub(crate) fn remove_node(arena: &mut Arena, id: NodeId) -> (node: Option<Node>)
    ensures
        nodes_of(*final(arena)) == nodes_of(*old(arena)).remove(id),
        match node {
            Some(node) => nodes_of(*old(arena)).dom().contains(id) && nodes_of(*old(arena))[id] == node@,
            None => !nodes_of(*old(arena)).dom().contains(id),
        },
{
    arena.nodes.remove(DefaultKey::from(KeyData::from_ffi(id.number)))
}

/// `SlotMap::len` is how many nodes the map holds.
#[verifier::external_body]
pub(crate) fn node_count(arena: &Arena) -> (count: usize)
    ensures
        count == nodes_of(*arena).len(),
{
    arena.nodes.len()
}

/// `SlotMap::keys` goes through the keys of the map, each once, in no particular order.
#[verifier::external_body]
pub(crate) fn node_ids(arena: &Arena) -> (ids: Vec<NodeId>)
    ensures
        ids@.no_duplicates(),
        forall|id: NodeId| #[trigger] ids@.contains(id) <==> nodes_of(*arena).dom().contains(id),
{
    arena.nodes.keys().map(|key| NodeId { number: key.data().as_ffi() }).collect()
}

/// Links sort with what they lead to, and what is neither a directory nor a file comes last.
pub proof fn law_kinds_sort_with_their_group(executable: bool, special: Special)
    ensures
        Kind::Directory.group_of() == Group::Directory,
        Kind::Link(LinkTarget::Directory).group_of() == Group::Directory,
        (Kind::File { executable }).group_of() == Group::File,
        Kind::Link(LinkTarget::File).group_of() == Group::File,
        Kind::Link(LinkTarget::Broken).group_of() == Group::Other,
        Kind::Special(special).group_of() == Group::Other,
{
}

} // verus!
