//! The node store. Nodes live in an `indextree::Arena` and are addressed by
//! `indextree::NodeId`; Verus does not look inside either. This module names
//! what an arena holds and states, without proof, what the calls that the
//! crate makes do to it.

use crate::node::Node;
use crate::shape::{linked, linked_preorder, Shape};
use indextree::{Arena, NodeId};
use vstd::prelude::*;

verus! {

/// `indextree::Arena`, as a type whose values are carried through.
#[verifier::external_type_specification]
#[verifier::external_body]
#[verifier::reject_recursive_types(T)]
pub struct ExArena<T>(Arena<T>);

/// `indextree::NodeId`, as a type whose values are carried through. Two ids
/// are the same where they address the same node.
#[verifier::external_type_specification]
#[verifier::external_body]
pub struct ExNodeId(NodeId);

/// The data of every node that is in the arena and has not been removed.
pub uninterp spec fn arena_items(arena: Arena<Node>) -> Map<NodeId, Node>;

/// The children of every such node, first to last.
pub uninterp spec fn arena_children(arena: Arena<Node>) -> Map<NodeId, Seq<NodeId>>;

/// `id` is no node's child.
pub open spec fn unattached(children: Map<NodeId, Seq<NodeId>>, id: NodeId) -> bool {
    forall|p: NodeId, i: int|
        children.contains_key(p) && 0 <= i < children[p].len() ==> #[trigger] children[p][i] != id
}

/// `Arena::new`: an arena without nodes.
#[verifier::external_body]
pub(crate) fn new_arena() -> (made: Arena<Node>)
    ensures
        forall|id: NodeId| !arena_items(made).contains_key(id),
        forall|id: NodeId| !arena_children(made).contains_key(id),
{
    Arena::new()
}

/// `Arena::new_node`: stores `data` in a node of its own, under an id that no
/// node of the arena had at the time of the call. The node has no children;
/// every other node is as it was. (The one panic of `new_node`, on an arena of
/// `usize::MAX` slots, cannot be reached: a slot takes more than one byte.)
#[verifier::external_body]
pub(crate) fn new_node(arena: &mut Arena<Node>, data: Node) -> (id: NodeId)
    ensures
        !arena_items(*old(arena)).contains_key(id),
        !arena_children(*old(arena)).contains_key(id),
        arena_items(*final(arena)) == arena_items(*old(arena)).insert(id, data),
        arena_children(*final(arena)) == arena_children(*old(arena)).insert(id, Seq::empty()),
{
    arena.new_node(data)
}

/// Indexing by id, then `Node::get`: the data of a node that has not been removed.
#[verifier::external_body]
pub(crate) fn node(arena: &Arena<Node>, id: NodeId) -> (data: &Node)
    requires
        arena_items(*arena).contains_key(id),
    ensures
        *data == arena_items(*arena)[id],
{
    arena[id].get()
}

/// Indexing by id, then `Node::get_mut`: the data of a node that has not been
/// removed, to be changed in place. Nothing else in the arena changes.
#[verifier::external_body]
pub(crate) fn node_mut(arena: &mut Arena<Node>, id: NodeId) -> (data: &mut Node)
    requires
        arena_items(*old(arena)).contains_key(id),
    ensures
        *data == arena_items(*old(arena))[id],
        arena_items(*final(arena)) == arena_items(*old(arena)).insert(id, *final(data)),
        arena_children(*final(arena)) == arena_children(*old(arena)),
{
    arena[id].get_mut()
}

/// `NodeId::append`: makes `child` the last child of `parent`. The call is
/// made only where both are in the arena, differ, and neither is some node's
/// child: `append` panics where `child` is `parent` or one of its ancestors,
/// and `parent` then has none.
#[verifier::external_body]
pub(crate) fn append(arena: &mut Arena<Node>, parent: NodeId, child: NodeId)
    requires
        arena_items(*old(arena)).contains_key(parent),
        arena_items(*old(arena)).contains_key(child),
        arena_children(*old(arena)).contains_key(parent),
        arena_children(*old(arena)).contains_key(child),
        parent != child,
        unattached(arena_children(*old(arena)), parent),
        unattached(arena_children(*old(arena)), child),
    ensures
        arena_items(*final(arena)) == arena_items(*old(arena)),
        arena_children(*final(arena)) == arena_children(*old(arena)).insert(
            parent,
            arena_children(*old(arena))[parent].push(child),
        ),
{
    parent.append(child, arena)
}

/// `NodeId::children`, collected: the children of `id`, first to last.
#[verifier::external_body]
pub(crate) fn children_of(arena: &Arena<Node>, id: NodeId) -> (ids: Vec<NodeId>)
    requires
        arena_children(*arena).contains_key(id),
    ensures
        ids@ == arena_children(*arena)[id],
{
    id.children(arena).collect()
}

/// `NodeId::following_siblings`, past `id` itself: the sibling that comes
/// after `id` in the list of children that `id` is in, if there is one.
#[verifier::external_body]
pub(crate) fn next_sibling(arena: &Arena<Node>, id: NodeId) -> (next: Option<NodeId>)
    requires
        arena_children(*arena).contains_key(id),
    ensures
        forall|p: NodeId, i: int|
            arena_children(*arena).contains_key(p) && 0 <= i < arena_children(*arena)[p].len()
                && #[trigger] arena_children(*arena)[p][i] == id ==> next == (if i + 1
                < arena_children(*arena)[p].len() {
                Some(arena_children(*arena)[p][i + 1])
            } else {
                None
            }),
{
    id.following_siblings(arena).nth(1)
}

/// `NodeId::descendants`, collected: `root` and the nodes below it, each
/// before its children, siblings first to last.
#[verifier::external_body]
pub(crate) fn descendants(arena: &Arena<Node>, root: NodeId) -> (ids: Vec<NodeId>)
    requires
        arena_children(*arena).contains_key(root),
    ensures
        forall|shape: Shape|
            linked(arena_items(*arena), arena_children(*arena), root, shape) ==> ids@
                == #[trigger] linked_preorder(arena_children(*arena), root, shape),
{
    root.descendants(arena).collect()
}

/// `NodeId::remove_subtree`, on a node without children: the node leaves the
/// arena, and the list of children that it was in.
#[verifier::external_body]
pub(crate) fn remove_leaf(arena: &mut Arena<Node>, id: NodeId)
    requires
        arena_items(*old(arena)).contains_key(id),
        arena_children(*old(arena)).contains_key(id),
        arena_children(*old(arena))[id].len() == 0,
    ensures
        arena_items(*final(arena)) == arena_items(*old(arena)).remove(id),
        arena_children(*final(arena)) == arena_children(*old(arena)).remove(id).map_values(
            (|siblings: Seq<NodeId>| siblings.remove_value(id)),
        ),
{
    id.remove_subtree(arena)
}

} // verus!
