//! The tree as a mathematical value, and how an arena spells one out.

use crate::node::Node;
use indextree::NodeId;
use vstd::prelude::*;

verus! {

/// A node with its subtrees, first child to last.
pub struct Shape {
    pub node: Node,
    pub children: Seq<Shape>,
}

impl Shape {
    /// A node without children.
    pub open spec fn leaf(node: Node) -> Shape {
        Shape { node, children: Seq::empty() }
    }

    /// The nodes of the tree, each before its children, siblings first to last.
    pub open spec fn preorder(self) -> Seq<Node>
        decreases self,
    {
        seq![self.node] + forest_preorder(self.children)
    }

    /// Whether some node of the tree is no directory.
    pub open spec fn holds_file(self) -> bool
        decreases self,
    {
        !self.node.is_dir() || exists|i: int|
            0 <= i < self.children.len() && (#[trigger] self.children[i]).holds_file()
    }
}

/// The tree without the directories that hold no file. What is no directory
/// stays as it is.
pub open spec fn cut(shape: Shape) -> Shape
    decreases shape,
{
    if shape.node.is_dir() {
        Shape { node: shape.node, children: cut_all(shape.children) }
    } else {
        shape
    }
}

/// Of several trees, those that hold a file, each cut in turn.
pub open spec fn cut_all(trees: Seq<Shape>) -> Seq<Shape>
    decreases trees,
{
    if trees.len() == 0 {
        Seq::empty()
    } else if trees.last().holds_file() {
        cut_all(trees.drop_last()).push(cut(trees.last()))
    } else {
        cut_all(trees.drop_last())
    }
}

/// The nodes of several trees in a row.
pub open spec fn forest_preorder(trees: Seq<Shape>) -> Seq<Node>
    decreases trees,
{
    if trees.len() == 0 {
        Seq::empty()
    } else {
        forest_preorder(trees.drop_last()) + trees.last().preorder()
    }
}

/// The arena holds, at `id` and below, exactly the tree `shape`: the node's
/// data, as many children, and under each child the subtree in that place.
pub open spec fn linked(
    items: Map<NodeId, Node>,
    children: Map<NodeId, Seq<NodeId>>,
    id: NodeId,
    shape: Shape,
) -> bool
    decreases shape,
{
    &&& items.contains_key(id)
    &&& children.contains_key(id)
    &&& items[id] == shape.node
    &&& children[id].len() == shape.children.len()
    &&& forall|i: int|
        0 <= i < shape.children.len() ==> linked(
            items,
            children,
            children[id][i],
            #[trigger] shape.children[i],
        )
}

/// The ids of the nodes that `linked` speaks of.
pub open spec fn linked_ids(children: Map<NodeId, Seq<NodeId>>, id: NodeId, shape: Shape) -> Set<
    NodeId,
>
    decreases shape,
{
    Set::new(
        |x: NodeId|
            x == id || exists|i: int|
                0 <= i < shape.children.len() && linked_ids(
                    children,
                    children[id][i],
                    #[trigger] shape.children[i],
                ).contains(x),
    )
}

/// No id stands for two nodes of the tree: `id` is in none of the subtrees
/// below it, no two of them share an id, and the same holds within each.
pub open spec fn separate(children: Map<NodeId, Seq<NodeId>>, id: NodeId, shape: Shape) -> bool
    decreases shape,
{
    &&& forall|i: int|
        0 <= i < shape.children.len() ==> !linked_ids(
            children,
            children[id][i],
            #[trigger] shape.children[i],
        ).contains(id)
    &&& forall|i: int, j: int, x: NodeId|
        #![trigger linked_ids(children, children[id][i], shape.children[i]).contains(x), shape.children[j]]
        0 <= i < shape.children.len() && 0 <= j < shape.children.len() && i != j && linked_ids(
            children,
            children[id][i],
            shape.children[i],
        ).contains(x) ==> !linked_ids(children, children[id][j], shape.children[j]).contains(x)
    &&& forall|i: int|
        0 <= i < shape.children.len() ==> separate(
            children,
            children[id][i],
            #[trigger] shape.children[i],
        )
}

/// `id` is some node's child.
pub open spec fn attached(children: Map<NodeId, Seq<NodeId>>, id: NodeId) -> bool {
    exists|p: NodeId, i: int|
        children.contains_key(p) && 0 <= i < children[p].len() && #[trigger] children[p][i] == id
}

/// A tree is linked in any arena that agrees with this one on the tree's ids.
pub proof fn lemma_linked_frame(
    items: Map<NodeId, Node>,
    children: Map<NodeId, Seq<NodeId>>,
    items2: Map<NodeId, Node>,
    children2: Map<NodeId, Seq<NodeId>>,
    id: NodeId,
    shape: Shape,
)
    requires
        linked(items, children, id, shape),
        forall|x: NodeId| #[trigger]
            linked_ids(children, id, shape).contains(x) ==> items2.contains_key(x)
                && children2.contains_key(x) && items2[x] == items[x] && children2[x] == children[x],
    ensures
        linked(items2, children2, id, shape),
        linked_ids(children2, id, shape) == linked_ids(children, id, shape),
        separate(children, id, shape) ==> separate(children2, id, shape),
    decreases shape,
{
    assert(linked_ids(children, id, shape).contains(id));
    assert forall|i: int| 0 <= i < shape.children.len() implies linked(
        items2,
        children2,
        children2[id][i],
        #[trigger] shape.children[i],
    ) && linked_ids(children2, children2[id][i], shape.children[i]) == linked_ids(
        children,
        children[id][i],
        shape.children[i],
    ) && (separate(children, children[id][i], shape.children[i]) ==> separate(
        children2,
        children2[id][i],
        shape.children[i],
    )) by {
        assert forall|x: NodeId| #[trigger]
            linked_ids(children, children[id][i], shape.children[i]).contains(
                x,
            ) implies items2.contains_key(x) && children2.contains_key(x) && items2[x] == items[x]
            && children2[x] == children[x] by {
            assert(linked_ids(children, id, shape).contains(x));
        }
        lemma_linked_frame(items, children, items2, children2, children[id][i], shape.children[i]);
    }
    assert(linked_ids(children2, id, shape) =~= linked_ids(children, id, shape));
}

/// Every id of a linked tree is in the arena, and each but the top one is
/// some node's child.
pub proof fn lemma_linked_ids(
    items: Map<NodeId, Node>,
    children: Map<NodeId, Seq<NodeId>>,
    id: NodeId,
    shape: Shape,
)
    requires
        linked(items, children, id, shape),
    ensures
        forall|x: NodeId| #[trigger]
            linked_ids(children, id, shape).contains(x) ==> items.contains_key(x)
                && children.contains_key(x) && (x == id || attached(children, x)),
    decreases shape,
{
    assert forall|x: NodeId| #[trigger]
        linked_ids(children, id, shape).contains(x) implies items.contains_key(x)
        && children.contains_key(x) && (x == id || attached(children, x)) by {
        if x != id {
            let i = choose|i: int|
                0 <= i < shape.children.len() && linked_ids(
                    children,
                    children[id][i],
                    #[trigger] shape.children[i],
                ).contains(x);
            lemma_linked_ids(items, children, children[id][i], shape.children[i]);
            if x == children[id][i] {
                assert(children[id][i] == x);
            }
        }
    }
}

/// The children of a node of a linked tree are nodes of the tree.
pub proof fn lemma_child_member(
    items: Map<NodeId, Node>,
    children: Map<NodeId, Seq<NodeId>>,
    id: NodeId,
    shape: Shape,
    x: NodeId,
    i: int,
)
    requires
        linked(items, children, id, shape),
        separate(children, id, shape),
        linked_ids(children, id, shape).contains(x),
        0 <= i < children[x].len(),
    ensures
        linked_ids(children, id, shape).contains(children[x][i]),
    decreases shape,
{
    if x == id {
        assert(linked(items, children, children[id][i], shape.children[i]));
        assert(linked_ids(children, children[id][i], shape.children[i]).contains(children[id][i]));
    } else {
        let m = choose|m: int|
            0 <= m < shape.children.len() && linked_ids(
                children,
                children[id][m],
                #[trigger] shape.children[m],
            ).contains(x);
        lemma_child_member(items, children, children[id][m], shape.children[m], x, i);
    }
}

/// The ids of those nodes, each before its children.
pub open spec fn linked_preorder(children: Map<NodeId, Seq<NodeId>>, id: NodeId, shape: Shape) -> Seq<
    NodeId,
>
    decreases shape, shape.children.len(),
{
    seq![id] + linked_forest_preorder(children, children[id], shape.children)
}

/// The ids below several siblings in a row.
pub open spec fn linked_forest_preorder(
    children: Map<NodeId, Seq<NodeId>>,
    ids: Seq<NodeId>,
    shapes: Seq<Shape>,
) -> Seq<NodeId>
    decreases shapes, shapes.len(),
{
    if shapes.len() == 0 {
        Seq::empty()
    } else {
        linked_forest_preorder(children, ids, shapes.drop_last()) + linked_preorder(
            children,
            ids[shapes.len() - 1],
            shapes.last(),
        )
    }
}

/// The ids of a linked tree, each before its children, stand for the nodes of
/// the tree, each before its children.
pub proof fn lemma_preorder_nodes(
    items: Map<NodeId, Node>,
    children: Map<NodeId, Seq<NodeId>>,
    id: NodeId,
    shape: Shape,
)
    requires
        linked(items, children, id, shape),
    ensures
        linked_preorder(children, id, shape).len() == shape.preorder().len(),
        forall|k: int|
            0 <= k < shape.preorder().len() ==> items.contains_key(
                #[trigger] linked_preorder(children, id, shape)[k],
            ) && items[linked_preorder(children, id, shape)[k]] == shape.preorder()[k],
    decreases shape, shape.children.len(),
{
    lemma_forest_preorder_nodes(items, children, children[id], shape.children);
}

/// The same for several trees in a row.
pub proof fn lemma_forest_preorder_nodes(
    items: Map<NodeId, Node>,
    children: Map<NodeId, Seq<NodeId>>,
    ids: Seq<NodeId>,
    shapes: Seq<Shape>,
)
    requires
        shapes.len() <= ids.len(),
        forall|i: int| 0 <= i < shapes.len() ==> linked(items, children, ids[i], #[trigger] shapes[i]),
    ensures
        linked_forest_preorder(children, ids, shapes).len() == forest_preorder(shapes).len(),
        forall|k: int|
            0 <= k < forest_preorder(shapes).len() ==> items.contains_key(
                #[trigger] linked_forest_preorder(children, ids, shapes)[k],
            ) && items[linked_forest_preorder(children, ids, shapes)[k]] == forest_preorder(
                shapes,
            )[k],
    decreases shapes, shapes.len(),
{
    if shapes.len() > 0 {
        let init = shapes.drop_last();
        assert forall|i: int| 0 <= i < init.len() implies linked(
            items,
            children,
            ids[i],
            #[trigger] init[i],
        ) by {
            assert(init[i] == shapes[i]);
        }
        lemma_forest_preorder_nodes(items, children, ids, init);
        assert(linked(items, children, ids[shapes.len() - 1], shapes[shapes.len() - 1]));
        lemma_preorder_nodes(items, children, ids[shapes.len() - 1], shapes.last());
    }
}

} // verus!
