//! Puts the tree together: every directory gets the nodes that wait under
//! its path as children, its size from theirs, and its children in order.

use crate::arena::{append, arena_children, arena_items, node, node_mut, unattached};
use crate::collect::{apart, lemma_nodes_of_same, lemma_place_by_paths, nodes_of, waits, Collected};
use crate::context::Context;
use crate::node::Node;
use crate::order::{arranged, goes_before, lemma_inserted_at, precedes, Order};
use crate::pending::{lemma_place, place, waiting, without, Pending, Slot};
use crate::shape::{
    attached, cut, lemma_linked_frame, lemma_linked_ids, linked, linked_ids, separate, Shape,
};
use indextree::{Arena, NodeId};
use vstd::prelude::*;

verus! {

/// What the trees add up to, each counted with the size of its top node, and
/// the sum held at the largest number that a size can be.
pub open spec fn total(trees: Seq<Shape>) -> nat
    decreases trees.len(),
{
    if trees.len() == 0 {
        0
    } else {
        let sum = total(trees.drop_last()) + trees.last().node.contribution();
        if sum > u64::MAX {
            u64::MAX as nat
        } else {
            sum
        }
    }
}

/// The node with `sum` as its size, which it only gets where the sum is not
/// zero.
pub open spec fn stamped(node: Node, sum: nat) -> Node {
    if sum > 0 {
        node.with_size(Some(sum as u64))
    } else {
        node
    }
}

/// The tree that grows from `node`, and the slots that are left over. The
/// node takes the slot of its own path out of the index; its children are
/// what waited there, each grown in turn from what the one before it left,
/// then put in order. A node that finds no slot stays without children.
///
/// `fuel` bounds how deep directories nest. Every directory that nests uses
/// up a slot, so the number of slots is always enough.
pub open spec fn grown(slots: Seq<Slot<Node>>, node: Node, order: Order, fuel: nat) -> (
    Shape,
    Seq<Slot<Node>>,
)
    decreases fuel, 0nat,
{
    if fuel == 0 {
        (Shape::leaf(node), slots)
    } else {
        let (trees, left) = grown_all(
            without(slots, node.entry.path@),
            waiting(slots, node.entry.path@),
            order,
            (fuel - 1) as nat,
        );
        (Shape { node: stamped(node, total(trees)), children: arranged(trees, order) }, left)
    }
}

/// The trees that grow from `nodes`, first to last, and the slots that are
/// left over. Only a directory takes anything out of the index.
pub open spec fn grown_all(slots: Seq<Slot<Node>>, nodes: Seq<Node>, order: Order, fuel: nat) -> (
    Seq<Shape>,
    Seq<Slot<Node>>,
)
    decreases fuel, nodes.len() + 1,
{
    if nodes.len() == 0 {
        (Seq::empty(), slots)
    } else {
        let (trees, mid) = grown_all(slots, nodes.drop_last(), order, fuel);
        let (tree, left) = if nodes.last().is_dir() {
            grown(mid, nodes.last(), order, fuel)
        } else {
            (Shape::leaf(nodes.last()), mid)
        };
        (trees.push(tree), left)
    }
}

/// The tree that is made of what has been collected: grown from the root,
/// then cut where `ctx` asks for that.
pub open spec fn planted(collected: Collected, ctx: Context) -> Shape {
    let tree = grown(
        collected.slots,
        collected.root.unwrap(),
        Order { key: ctx.sort, dirs_first: ctx.dirs_first },
        collected.slots.len(),
    ).0;
    if ctx.prune {
        cut(tree)
    } else {
        tree
    }
}

/// A node of the arena that stands alone: without children, and no node's
/// child.
pub open spec fn lone(items: Map<NodeId, Node>, children: Map<NodeId, Seq<NodeId>>, id: NodeId) -> bool {
    &&& items.contains_key(id)
    &&& children.contains_key(id)
    &&& children[id].len() == 0
    &&& unattached(children, id)
}

/// What holds of the arena and the index while trees are put together: no id
/// waits twice, and every node that waits stands alone.
pub open spec fn ready(
    items: Map<NodeId, Node>,
    children: Map<NodeId, Seq<NodeId>>,
    slots: Seq<Slot<NodeId>>,
) -> bool {
    &&& apart(slots)
    &&& forall|id: NodeId| items.contains_key(id) <==> children.contains_key(id)
    &&& forall|id: NodeId| waits(slots, id) ==> lone(items, children, id)
}

/// Puts the ids in their final order. `from` tells where each came from.
fn arrange(arena: &Arena<Node>, ids: &Vec<NodeId>, order: &Order, Ghost(trees): Ghost<Seq<Shape>>) -> (result:
    (Vec<NodeId>, Ghost<Seq<int>>))
    requires
        ids@.len() == trees.len(),
        forall|k: int|
            0 <= k < ids@.len() ==> arena_items(*arena).contains_key(#[trigger] ids@[k])
                && arena_items(*arena)[ids@[k]] == trees[k].node,
    ensures
        result.0@.len() == ids@.len(),
        result.1@.len() == ids@.len(),
        arranged(trees, *order).len() == ids@.len(),
        result.1@.no_duplicates(),
        forall|k: int|
            0 <= k < ids@.len() ==> 0 <= #[trigger] result.1@[k] < ids@.len() && result.0@[k]
                == ids@[result.1@[k]] && arranged(trees, *order)[k] == trees[result.1@[k]],
{
    let mut sorted: Vec<NodeId> = Vec::new();
    let ghost mut from: Seq<int> = Seq::empty();
    let ghost mut placed: Seq<Shape> = Seq::empty();
    let mut j: usize = 0;
    assert(trees.take(0) == Seq::<Shape>::empty());
    while j < ids.len()
        invariant
            j <= ids@.len(),
            ids@.len() == trees.len(),
            forall|k: int|
                0 <= k < ids@.len() ==> arena_items(*arena).contains_key(#[trigger] ids@[k])
                    && arena_items(*arena)[ids@[k]] == trees[k].node,
            sorted@.len() == j,
            from.len() == j,
            placed == arranged(trees.take(j as int), *order),
            placed.len() == j,
            from.no_duplicates(),
            forall|k: int|
                0 <= k < j ==> 0 <= #[trigger] from[k] < j && sorted@[k] == ids@[from[k]]
                    && placed[k] == trees[from[k]],
        decreases ids@.len() - j,
    {
        let id = ids[j];
        let data = node(arena, id);
        let mut at: usize = sorted.len();
        while at > 0
            invariant
                at <= sorted@.len(),
                sorted@.len() == j,
                placed.len() == j,
                from.len() == j,
                j < ids@.len(),
                ids@.len() == trees.len(),
                *data == trees[j as int].node,
                forall|k: int|
                    0 <= k < ids@.len() ==> arena_items(*arena).contains_key(#[trigger] ids@[k])
                        && arena_items(*arena)[ids@[k]] == trees[k].node,
                forall|k: int|
                    0 <= k < j ==> 0 <= #[trigger] from[k] < j && sorted@[k] == ids@[from[k]]
                        && placed[k] == trees[from[k]],
                forall|k: int|
                    at <= k < placed.len() ==> goes_before(
                        trees[j as int].node,
                        (#[trigger] placed[k]).node,
                        *order,
                    ),
            ensures
                at > 0 ==> !goes_before(trees[j as int].node, placed[at - 1].node, *order),
            decreases at,
        {
            assert(0 <= from[at - 1] < j);
            if !precedes(data, node(arena, sorted[at - 1]), order) {
                break ;
            }
            at -= 1;
        }
        proof {
            lemma_inserted_at(placed, trees[j as int], *order, at as int);
            assert(trees.take(j + 1).drop_last() == trees.take(j as int));
            assert(trees.take(j + 1).last() == trees[j as int]);
            let before = from;
            from = from.insert(at as int, j as int);
            placed = placed.insert(at as int, trees[j as int]);
            assert forall|a: int, b: int| 0 <= a < b < from.len() implies from[a] != from[b] by {
                let x = if a < at { a } else { a - 1 };
                let y = if b < at { b } else { b - 1 };
                if a != at && b != at {
                    assert(before[x] != before[y]);
                } else if a == at {
                    assert(0 <= before[y] < j);
                } else {
                    assert(0 <= before[x] < j);
                }
            }
        }
        let ghost old_sorted = sorted@;
        sorted.insert(at, id);
        proof {
            assert forall|k: int| 0 <= k < j + 1 implies 0 <= #[trigger] from[k] < j + 1 && sorted@[k]
                == ids@[from[k]] && placed[k] == trees[from[k]] by {
                if k < at {
                    assert(0 <= from[k] < j) by {
                        assert(from[k] == from.remove(at as int)[k]);
                    }
                } else if k > at {
                    assert(from[k] == from.remove(at as int)[k - 1]);
                    assert(sorted@[k] == old_sorted[k - 1]);
                }
            }
        }
        j += 1;
    }
    assert(trees.take(ids@.len() as int) == trees);
    (sorted, Ghost(from))
}

/// What the arena holds for `id` is in `items2` and `children2` as it is in
/// `items` and `children`.
pub open spec fn kept(
    items: Map<NodeId, Node>,
    children: Map<NodeId, Seq<NodeId>>,
    items2: Map<NodeId, Node>,
    children2: Map<NodeId, Seq<NodeId>>,
    id: NodeId,
) -> bool {
    &&& items2.contains_key(id) == items.contains_key(id)
    &&& children2.contains_key(id) == children.contains_key(id)
    &&& items2[id] == items[id]
    &&& children2[id] == children[id]
}

/// `id` waited in `before` and no longer waits in `after`.
pub open spec fn used(before: Seq<Slot<NodeId>>, after: Seq<Slot<NodeId>>, id: NodeId) -> bool {
    waits(before, id) && !waits(after, id)
}

/// The nodes that the ids stand for.
pub open spec fn nodes_at(ids: Seq<NodeId>, items: Map<NodeId, Node>) -> Seq<Node> {
    Seq::new(ids.len(), |k: int| items[ids[k]])
}

/// What is known of the ids that are taken out of the index and of the
/// slots that stay.
proof fn lemma_taken(slots: Seq<Slot<NodeId>>, path: Seq<char>)
    requires
        apart(slots),
    ensures
        apart(without(slots, path)),
        without(slots, path).len() <= slots.len(),
        waiting(slots, path).len() > 0 ==> without(slots, path).len() < slots.len(),
        forall|x: NodeId| waits(without(slots, path), x) ==> waits(slots, x),
        forall|k: int|
            0 <= k < waiting(slots, path).len() ==> waits(slots, #[trigger] waiting(slots, path)[k])
                && !waits(without(slots, path), waiting(slots, path)[k]),
        forall|k: int, l: int|
            0 <= k < l < waiting(slots, path).len() ==> #[trigger] waiting(slots, path)[k]
                != #[trigger] waiting(slots, path)[l],
{
    lemma_place(slots, path);
    let at = place(slots, path);
    let ids = waiting(slots, path);
    let rest = without(slots, path);
    if at < slots.len() {
        assert forall|x: NodeId| waits(rest, x) implies waits(slots, x) && !(exists|k: int|
            0 <= k < ids.len() && ids[k] == x) by {
            let (s, i) = choose|s: int, i: int|
                0 <= s < rest.len() && 0 <= i < rest[s].children.len()
                    && #[trigger] rest[s].children[i] == x;
            let t = if s < at {
                s
            } else {
                s + 1
            };
            assert(slots[t].children[i] == x);
            if exists|k: int| 0 <= k < ids.len() && ids[k] == x {
                let k = choose|k: int| 0 <= k < ids.len() && ids[k] == x;
                assert(slots[at].children[k] == x);
            }
        }
        assert forall|k: int| 0 <= k < ids.len() implies waits(slots, #[trigger] ids[k]) && !waits(
            rest,
            ids[k],
        ) by {
            assert(slots[at].children[k] == ids[k]);
        }
        assert forall|k: int, l: int| 0 <= k < l < ids.len() implies #[trigger] ids[k]
            != #[trigger] ids[l] by {
            assert(slots[at].children[k] == ids[k]);
            assert(slots[at].children[l] == ids[l]);
        }
        assert forall|s: int, i: int, t: int, j: int|
            0 <= s < rest.len() && 0 <= i < rest[s].children.len() && 0 <= t < rest.len() && 0 <= j
                < rest[t].children.len() && #[trigger] rest[s].children[i]
                == #[trigger] rest[t].children[j] implies s == t && i == j by {
            let s2 = if s < at {
                s
            } else {
                s + 1
            };
            let t2 = if t < at {
                t
            } else {
                t + 1
            };
            assert(slots[s2].children[i] == slots[t2].children[j]);
        }
    }
}

/// Taking a slot out is the same for ids and for the nodes they stand for.
proof fn lemma_taken_nodes(slots: Seq<Slot<NodeId>>, items: Map<NodeId, Node>, path: Seq<char>)
    ensures
        waiting(nodes_of(slots, items), path) == nodes_at(waiting(slots, path), items),
        without(nodes_of(slots, items), path) == nodes_of(without(slots, path), items),
{
    lemma_place(slots, path);
    lemma_place_by_paths(slots, nodes_of(slots, items), path);
    let at = place(slots, path);
    assert(waiting(nodes_of(slots, items), path) =~= nodes_at(waiting(slots, path), items));
    let a = without(nodes_of(slots, items), path);
    let b = nodes_of(without(slots, path), items);
    assert(a.len() == b.len());
    assert forall|s: int| 0 <= s < a.len() implies a[s] == b[s] by {
        assert(a[s].children =~= b[s].children);
    }
    assert(a =~= b);
}

/// What holds while the children of one directory are grown, one after the
/// other: `j` of the ids have their trees.
spec fn growing(
    items0: Map<NodeId, Node>,
    children0: Map<NodeId, Seq<NodeId>>,
    slots0: Seq<Slot<NodeId>>,
    rest0: Seq<Slot<NodeId>>,
    items: Map<NodeId, Node>,
    children: Map<NodeId, Seq<NodeId>>,
    slots: Seq<Slot<NodeId>>,
    current: NodeId,
    ids: Seq<NodeId>,
    trees: Seq<Shape>,
    j: int,
) -> bool {
    &&& 0 <= j <= ids.len()
    &&& trees.len() == j
    &&& ready(items, children, slots)
    &&& forall|x: NodeId| waits(slots, x) ==> waits(rest0, x) && items[x] == items0[x]
    &&& forall|k: int|
        j <= k < ids.len() ==> lone(items, children, #[trigger] ids[k]) && items[ids[k]]
            == items0[ids[k]]
    &&& forall|k: int|
        0 <= k < j ==> linked(items, children, ids[k], #[trigger] trees[k]) && separate(
            children,
            ids[k],
            trees[k],
        ) && unattached(children, ids[k])
    &&& lone(items, children, current)
    &&& items[current] == items0[current]
    &&& forall|x: NodeId|
        attached(children, x) ==> attached(children0, x) || used(rest0, slots, x)
    &&& forall|k: int, x: NodeId|
        0 <= k < j && #[trigger] linked_ids(children, ids[k], trees[k]).contains(x) ==> x == ids[k]
            || used(rest0, slots, x)
    &&& forall|k: int, l: int, x: NodeId|
        #![trigger linked_ids(children, ids[k], trees[k]).contains(x), trees[l]]
        0 <= k < j && 0 <= l < j && k != l && linked_ids(children, ids[k], trees[k]).contains(x)
            ==> !linked_ids(children, ids[l], trees[l]).contains(x)
    &&& forall|x: NodeId|
        x != current && !waits(slots0, x) ==> kept(items0, children0, items, children, x)
}

/// What is known of the ids once they are out of the index, whatever
/// happens later.
spec fn taken(slots0: Seq<Slot<NodeId>>, rest0: Seq<Slot<NodeId>>, current: NodeId, ids: Seq<NodeId>) -> bool {
    &&& forall|x: NodeId| waits(rest0, x) ==> waits(slots0, x)
    &&& forall|k: int| 0 <= k < ids.len() ==> waits(slots0, #[trigger] ids[k]) && !waits(rest0, ids[k])
    &&& forall|k: int, l: int| 0 <= k < l < ids.len() ==> #[trigger] ids[k] != #[trigger] ids[l]
    &&& !waits(slots0, current)
}

/// A child that is no directory is a tree of its own.
proof fn lemma_leaf_child(
    items0: Map<NodeId, Node>,
    children0: Map<NodeId, Seq<NodeId>>,
    slots0: Seq<Slot<NodeId>>,
    rest0: Seq<Slot<NodeId>>,
    items: Map<NodeId, Node>,
    children: Map<NodeId, Seq<NodeId>>,
    slots: Seq<Slot<NodeId>>,
    current: NodeId,
    ids: Seq<NodeId>,
    trees: Seq<Shape>,
    j: int,
)
    requires
        taken(slots0, rest0, current, ids),
        growing(items0, children0, slots0, rest0, items, children, slots, current, ids, trees, j),
        j < ids.len(),
    ensures
        growing(
            items0,
            children0,
            slots0,
            rest0,
            items,
            children,
            slots,
            current,
            ids,
            trees.push(Shape::leaf(items[ids[j]])),
            j + 1,
        ),
{
    let id = ids[j];
    let tree = Shape::leaf(items[id]);
    let more = trees.push(tree);
    assert(lone(items, children, id));
    assert(linked(items, children, id, tree));
    assert(separate(children, id, tree));
    assert forall|k: int| 0 <= k < j + 1 implies linked(items, children, ids[k], #[trigger] more[k])
        && separate(children, ids[k], more[k]) && unattached(children, ids[k]) by {
        if k < j {
            assert(more[k] == trees[k]);
        }
    }
    assert forall|k: int, x: NodeId|
        0 <= k < j + 1 && #[trigger] linked_ids(children, ids[k], more[k]).contains(x) implies x
        == ids[k] || used(rest0, slots, x) by {
        if k < j {
            assert(more[k] == trees[k]);
        }
    }
    assert forall|k: int, l: int, x: NodeId|
        #![trigger linked_ids(children, ids[k], more[k]).contains(x), more[l]]
        0 <= k < j + 1 && 0 <= l < j + 1 && k != l && linked_ids(children, ids[k], more[k]).contains(
            x,
        ) implies !linked_ids(children, ids[l], more[l]).contains(x) by {
        if k < j {
            assert(more[k] == trees[k]);
        }
        if l < j {
            assert(more[l] == trees[l]);
        }
        if linked_ids(children, ids[l], more[l]).contains(x) {
            if k == j {
                assert(x == id);
                assert(linked_ids(children, ids[l], trees[l]).contains(x));
                assert(x == ids[l] || used(rest0, slots, x));
            } else if l == j {
                assert(x == id);
                assert(linked_ids(children, ids[k], trees[k]).contains(x));
                assert(x == ids[k] || used(rest0, slots, x));
            } else {
                assert(linked_ids(children, ids[k], trees[k]).contains(x));
                assert(trees[l] == more[l]);
            }
        }
    }
}

/// A child that is a directory and has grown its tree leaves the others as
/// they were.
proof fn lemma_grown_child(
    items0: Map<NodeId, Node>,
    children0: Map<NodeId, Seq<NodeId>>,
    slots0: Seq<Slot<NodeId>>,
    rest0: Seq<Slot<NodeId>>,
    items: Map<NodeId, Node>,
    children: Map<NodeId, Seq<NodeId>>,
    slots: Seq<Slot<NodeId>>,
    items2: Map<NodeId, Node>,
    children2: Map<NodeId, Seq<NodeId>>,
    slots2: Seq<Slot<NodeId>>,
    current: NodeId,
    ids: Seq<NodeId>,
    trees: Seq<Shape>,
    j: int,
    tree: Shape,
)
    requires
        taken(slots0, rest0, current, ids),
        growing(items0, children0, slots0, rest0, items, children, slots, current, ids, trees, j),
        j < ids.len(),
        ready(items2, children2, slots2),
        linked(items2, children2, ids[j], tree),
        separate(children2, ids[j], tree),
        unattached(children2, ids[j]),
        forall|x: NodeId| waits(slots2, x) ==> waits(slots, x) && items2[x] == items[x],
        forall|x: NodeId|
            x != ids[j] && !waits(slots, x) ==> kept(items, children, items2, children2, x),
        forall|x: NodeId| attached(children2, x) ==> attached(children, x) || used(slots, slots2, x),
        forall|x: NodeId| #[trigger]
            linked_ids(children2, ids[j], tree).contains(x) ==> x == ids[j] || used(
                slots,
                slots2,
                x,
            ),
    ensures
        growing(
            items0,
            children0,
            slots0,
            rest0,
            items2,
            children2,
            slots2,
            current,
            ids,
            trees.push(tree),
            j + 1,
        ),
{
    let id = ids[j];
    let more = trees.push(tree);
    assert(!waits(slots, id));
    assert forall|k: int| 0 <= k < ids.len() && k != j implies kept(
        items,
        children,
        items2,
        children2,
        #[trigger] ids[k],
    ) && unattached(children2, ids[k]) by {
        let y = ids[k];
        assert(y != id);
        assert(!waits(rest0, y));
        assert(!waits(slots, y));
        if k < j {
            assert(linked(items, children, ids[k], trees[k]));
        }
        assert(unattached(children, y));
        if attached(children2, y) {
            assert(attached(children, y) || used(slots, slots2, y));
            if attached(children, y) {
                let (p, i) = choose|p: NodeId, i: int|
                    children.contains_key(p) && 0 <= i < children[p].len()
                        && #[trigger] children[p][i] == y;
                assert(children[p][i] != y);
            }
        } else {
            assert forall|p: NodeId, i: int|
                children2.contains_key(p) && 0 <= i < children2[p].len() implies #[trigger] children2[p][i]
                != y by {
                if children2[p][i] == y {
                    assert(attached(children2, y));
                }
            }
        }
    }
    assert(kept(items, children, items2, children2, current) && unattached(children2, current)) by {
        assert(!waits(slots, current));
        assert(waits(slots0, id));
        if attached(children2, current) {
            assert(attached(children, current) || used(slots, slots2, current));
            if attached(children, current) {
                let (p, i) = choose|p: NodeId, i: int|
                    children.contains_key(p) && 0 <= i < children[p].len()
                        && #[trigger] children[p][i] == current;
                assert(children[p][i] != current);
            }
        } else {
            assert forall|p: NodeId, i: int|
                children2.contains_key(p) && 0 <= i < children2[p].len() implies #[trigger] children2[p][i]
                != current by {
                if children2[p][i] == current {
                    assert(attached(children2, current));
                }
            }
        }
    }
    assert forall|k: int| 0 <= k < j implies linked(items2, children2, ids[k], #[trigger] trees[k])
        && separate(children2, ids[k], trees[k]) && linked_ids(children2, ids[k], trees[k])
        == linked_ids(children, ids[k], trees[k]) by {
        lemma_linked_ids(items, children, ids[k], trees[k]);
        assert forall|x: NodeId| #[trigger]
            linked_ids(children, ids[k], trees[k]).contains(x) implies items2.contains_key(x)
            && children2.contains_key(x) && items2[x] == items[x] && children2[x] == children[x] by {
            assert(x == ids[k] || used(rest0, slots, x));
            assert(!waits(rest0, id));
            assert(!waits(rest0, ids[k]));
            assert(x != id);
            assert(!waits(slots, x));
            assert(kept(items, children, items2, children2, x));
        }
        lemma_linked_frame(items, children, items2, children2, ids[k], trees[k]);
    }
    assert forall|k: int| 0 <= k < j + 1 implies linked(items2, children2, ids[k], #[trigger] more[k])
        && separate(children2, ids[k], more[k]) && unattached(children2, ids[k]) by {
        if k < j {
            assert(more[k] == trees[k]);
        }
    }
    assert forall|x: NodeId| attached(children2, x) implies attached(children0, x) || used(
        rest0,
        slots2,
        x,
    ) by {
        if attached(children, x) {
            assert(attached(children0, x) || used(rest0, slots, x));
        }
    }
    assert forall|k: int, x: NodeId|
        0 <= k < j + 1 && #[trigger] linked_ids(children2, ids[k], more[k]).contains(x) implies x
        == ids[k] || used(rest0, slots2, x) by {
        if k < j {
            assert(more[k] == trees[k]);
            assert(linked_ids(children, ids[k], trees[k]).contains(x));
            assert(x == ids[k] || used(rest0, slots, x));
        } else {
            assert(x == id || used(slots, slots2, x));
        }
    }
    assert forall|k: int, l: int, x: NodeId|
        #![trigger linked_ids(children2, ids[k], more[k]).contains(x), more[l]]
        0 <= k < j + 1 && 0 <= l < j + 1 && k != l && linked_ids(children2, ids[k], more[k]).contains(
            x,
        ) implies !linked_ids(children2, ids[l], more[l]).contains(x) by {
        if k < j {
            assert(more[k] == trees[k]);
        }
        if l < j {
            assert(more[l] == trees[l]);
        }
        if linked_ids(children2, ids[l], more[l]).contains(x) {
            let (a, b) = if k == j {
                (l, k)
            } else {
                (k, l)
            };
            assert(linked_ids(children, ids[a], trees[a]).contains(x));
            assert(x == ids[a] || used(rest0, slots, x));
            if b == j {
                assert(linked_ids(children2, id, tree).contains(x));
                assert(x == id || used(slots, slots2, x));
                assert(!waits(rest0, id));
                assert(!waits(rest0, ids[a]));
            } else {
                assert(linked_ids(children, ids[a], trees[a]).contains(x));
                assert(trees[b] == more[b]);
                assert(!linked_ids(children, ids[b], trees[b]).contains(x));
            }
        }
    }
    assert forall|x: NodeId| x != current && !waits(slots0, x) implies kept(
        items0,
        children0,
        items2,
        children2,
        x,
    ) by {
        assert(kept(items0, children0, items, children, x));
        assert(waits(slots0, id));
        assert(!waits(slots, x));
        assert(kept(items, children, items2, children2, x));
    }
}

/// With the children attached in their final order, the tree below
/// `current` stands as promised.
proof fn lemma_attached_children(
    items0: Map<NodeId, Node>,
    children0: Map<NodeId, Seq<NodeId>>,
    slots0: Seq<Slot<NodeId>>,
    rest0: Seq<Slot<NodeId>>,
    items1: Map<NodeId, Node>,
    children1: Map<NodeId, Seq<NodeId>>,
    items2: Map<NodeId, Node>,
    children2: Map<NodeId, Seq<NodeId>>,
    slots: Seq<Slot<NodeId>>,
    current: NodeId,
    ids: Seq<NodeId>,
    trees: Seq<Shape>,
    sorted: Seq<NodeId>,
    from: Seq<int>,
    order: Order,
)
    requires
        taken(slots0, rest0, current, ids),
        growing(
            items0,
            children0,
            slots0,
            rest0,
            items1,
            children1,
            slots,
            current,
            ids,
            trees,
            ids.len() as int,
        ),
        forall|x: NodeId| items2.contains_key(x) <==> items1.contains_key(x),
        forall|x: NodeId| x != current ==> items2[x] == items1[x],
        children2 == children1.insert(current, sorted),
        sorted.len() == ids.len(),
        from.len() == ids.len(),
        arranged(trees, order).len() == ids.len(),
        from.no_duplicates(),
        forall|k: int|
            0 <= k < ids.len() ==> 0 <= #[trigger] from[k] < ids.len() && sorted[k] == ids[from[k]]
                && arranged(trees, order)[k] == trees[from[k]],
    ensures
        ready(items2, children2, slots),
        linked(
            items2,
            children2,
            current,
            Shape { node: items2[current], children: arranged(trees, order) },
        ),
        separate(
            children2,
            current,
            Shape { node: items2[current], children: arranged(trees, order) },
        ),
        unattached(children2, current),
        forall|x: NodeId| waits(slots, x) ==> waits(slots0, x) && items2[x] == items0[x],
        forall|x: NodeId|
            x != current && !waits(slots0, x) ==> kept(items0, children0, items2, children2, x),
        forall|x: NodeId| attached(children2, x) ==> attached(children0, x) || used(slots0, slots, x),
        forall|x: NodeId| #[trigger]
            linked_ids(
                children2,
                current,
                Shape { node: items2[current], children: arranged(trees, order) },
            ).contains(x) ==> x == current || used(slots0, slots, x),
{
    let placed = arranged(trees, order);
    let shape = Shape { node: items2[current], children: placed };
    assert forall|k: int| 0 <= k < ids.len() implies used(slots0, slots, #[trigger] ids[k])
        && ids[k] != current by {
        assert(!waits(rest0, ids[k]));
    }
    assert forall|k: int| 0 <= k < ids.len() implies linked(
        items2,
        children2,
        ids[k],
        #[trigger] trees[k],
    ) && separate(children2, ids[k], trees[k]) && linked_ids(children2, ids[k], trees[k])
        == linked_ids(children1, ids[k], trees[k]) by {
        lemma_linked_ids(items1, children1, ids[k], trees[k]);
        assert forall|x: NodeId| #[trigger]
            linked_ids(children1, ids[k], trees[k]).contains(x) implies items2.contains_key(x)
            && children2.contains_key(x) && items2[x] == items1[x] && children2[x] == children1[x] by {
            assert(x == ids[k] || used(rest0, slots, x));
            assert(used(slots0, slots, ids[k]));
            assert(x != current);
        }
        lemma_linked_frame(items1, children1, items2, children2, ids[k], trees[k]);
    }
    assert forall|m: int| 0 <= m < placed.len() implies linked(
        items2,
        children2,
        children2[current][m],
        #[trigger] placed[m],
    ) && separate(children2, children2[current][m], placed[m]) && !linked_ids(
        children2,
        children2[current][m],
        placed[m],
    ).contains(current) by {
        let f = from[m];
        assert(sorted[m] == ids[f] && placed[m] == trees[f]);
        assert(linked(items2, children2, ids[f], trees[f]));
        if linked_ids(children1, ids[f], trees[f]).contains(current) {
            assert(current == ids[f] || used(rest0, slots, current));
            assert(used(slots0, slots, ids[f]));
        }
    }
    assert(linked(items2, children2, current, shape));
    assert forall|a: int, b: int, x: NodeId|
        #![trigger linked_ids(children2, children2[current][a], shape.children[a]).contains(x), shape.children[b]]
        0 <= a < shape.children.len() && 0 <= b < shape.children.len() && a != b && linked_ids(
            children2,
            children2[current][a],
            shape.children[a],
        ).contains(x) implies !linked_ids(children2, children2[current][b], shape.children[b]).contains(
            x,
        ) by {
        let f = from[a];
        let g = from[b];
        assert(f != g);
        assert(sorted[a] == ids[f] && placed[a] == trees[f]);
        assert(sorted[b] == ids[g] && placed[b] == trees[g]);
        assert(linked_ids(children1, ids[f], trees[f]).contains(x));
        assert(linked(items2, children2, ids[g], trees[g]));
        assert(!linked_ids(children1, ids[g], trees[g]).contains(x));
    }
    assert(separate(children2, current, shape));
    assert forall|p: NodeId, i: int|
        children2.contains_key(p) && 0 <= i < children2[p].len() implies (#[trigger] children2[p][i]
        != current) && (p == current ==> children2[p][i] == ids[from[i]]) && (p != current
        ==> children1.contains_key(p) && children1[p][i] == children2[p][i]) by {
        if p == current {
            assert(sorted[i] == ids[from[i]]);
            assert(used(slots0, slots, ids[from[i]]));
        } else {
            assert(children1[p][i] != current);
        }
    }
    assert forall|x: NodeId| attached(children2, x) implies attached(children0, x) || used(
        slots0,
        slots,
        x,
    ) by {
        let (p, i) = choose|p: NodeId, i: int|
            children2.contains_key(p) && 0 <= i < children2[p].len() && #[trigger] children2[p][i]
                == x;
        if p == current {
            assert(x == ids[from[i]]);
            assert(used(slots0, slots, ids[from[i]]));
        } else {
            assert(children1[p][i] == x);
            assert(attached(children1, x));
            assert(attached(children0, x) || used(rest0, slots, x));
        }
    }
    assert forall|x: NodeId| waits(slots, x) implies lone(items2, children2, x) && waits(slots0, x)
        && items2[x] == items0[x] by {
        assert(waits(rest0, x));
        assert(x != current);
        assert(lone(items1, children1, x));
        assert forall|p: NodeId, i: int|
            children2.contains_key(p) && 0 <= i < children2[p].len() implies #[trigger] children2[p][i]
            != x by {
            if p == current {
                assert(used(slots0, slots, ids[from[i]]));
            } else {
                assert(children1[p][i] != x);
            }
        }
    }
    assert forall|x: NodeId| #[trigger] linked_ids(children2, current, shape).contains(x) implies x
        == current || used(slots0, slots, x) by {
        if x != current {
            let m = choose|m: int|
                0 <= m < shape.children.len() && linked_ids(
                    children2,
                    children2[current][m],
                    #[trigger] shape.children[m],
                ).contains(x);
            let f = from[m];
            assert(sorted[m] == ids[f] && placed[m] == trees[f]);
            assert(linked(items2, children2, ids[f], trees[f]));
            assert(linked_ids(children1, ids[f], trees[f]).contains(x));
            assert(x == ids[f] || used(rest0, slots, x));
            assert(used(slots0, slots, ids[f]));
        }
    }
    assert forall|x: NodeId| x != current && !waits(slots0, x) implies kept(
        items0,
        children0,
        items2,
        children2,
        x,
    ) by {
        assert(kept(items0, children0, items1, children1, x));
    }
}

/// Grows the tree below `current` in the arena, out of what waits in the
/// index.
pub(crate) fn assemble_tree(
    arena: &mut Arena<Node>,
    current: NodeId,
    pending: &mut Pending,
    order: &Order,
    Ghost(fuel): Ghost<nat>,
) -> (shape: Ghost<Shape>)
    requires
        old(pending).wf(),
        fuel >= old(pending)@.len(),
        ready(arena_items(*old(arena)), arena_children(*old(arena)), old(pending)@),
        lone(arena_items(*old(arena)), arena_children(*old(arena)), current),
        !waits(old(pending)@, current),
    ensures
        final(pending).wf(),
        final(pending)@.len() <= old(pending)@.len(),
        ready(arena_items(*final(arena)), arena_children(*final(arena)), final(pending)@),
        grown(
            nodes_of(old(pending)@, arena_items(*old(arena))),
            arena_items(*old(arena))[current],
            *order,
            fuel,
        ) == (shape@, nodes_of(final(pending)@, arena_items(*final(arena)))),
        linked(arena_items(*final(arena)), arena_children(*final(arena)), current, shape@),
        separate(arena_children(*final(arena)), current, shape@),
        unattached(arena_children(*final(arena)), current),
        forall|x: NodeId|
            waits(final(pending)@, x) ==> waits(old(pending)@, x) && arena_items(*final(arena))[x]
                == arena_items(*old(arena))[x],
        forall|x: NodeId|
            x != current && !waits(old(pending)@, x) ==> kept(
                arena_items(*old(arena)),
                arena_children(*old(arena)),
                arena_items(*final(arena)),
                arena_children(*final(arena)),
                x,
            ),
        forall|x: NodeId|
            attached(arena_children(*final(arena)), x) ==> attached(
                arena_children(*old(arena)),
                x,
            ) || used(old(pending)@, final(pending)@, x),
        forall|x: NodeId| #[trigger]
            linked_ids(arena_children(*final(arena)), current, shape@).contains(x) ==> x
                == current || used(old(pending)@, final(pending)@, x),
    decreases fuel,
{
    let ghost items0 = arena_items(*arena);
    let ghost children0 = arena_children(*arena);
    let ghost slots0 = pending@;
    let path = node(arena, current).entry.path.clone();
    let ids = pending.take(&path);
    let ghost rest0 = pending@;
    let ghost nodes0 = nodes_at(ids@, items0);
    proof {
        lemma_taken(slots0, path@);
        lemma_taken_nodes(slots0, items0, path@);
        assert(taken(slots0, rest0, current, ids@));
    }
    let mut sum: u64 = 0;
    let ghost mut trees: Seq<Shape> = Seq::empty();
    let mut j: usize = 0;
    proof {
        assert(nodes0.take(0) == Seq::<Node>::empty());
        assert forall|x: NodeId| waits(rest0, x) implies lone(items0, children0, x) by {}
        assert(growing(
            items0,
            children0,
            slots0,
            rest0,
            items0,
            children0,
            rest0,
            current,
            ids@,
            trees,
            0,
        ));
    }
    while j < ids.len()
        invariant
            pending.wf(),
            pending@.len() <= rest0.len(),
            ids@.len() > 0 ==> fuel >= 1 + rest0.len(),
            taken(slots0, rest0, current, ids@),
            nodes0 == nodes_at(ids@, items0),
            growing(
                items0,
                children0,
                slots0,
                rest0,
                arena_items(*arena),
                arena_children(*arena),
                pending@,
                current,
                ids@,
                trees,
                j as int,
            ),
            grown_all(
                nodes_of(rest0, items0),
                nodes0.take(j as int),
                *order,
                (fuel - 1) as nat,
            ) == (trees, nodes_of(pending@, arena_items(*arena))),
            sum == total(trees),
        decreases ids@.len() - j,
    {
        let id = ids[j];
        let ghost items = arena_items(*arena);
        let ghost children = arena_children(*arena);
        let ghost slots = pending@;
        let ghost tree: Shape;
        assert(lone(items, children, id) && items[id] == items0[id]);
        assert(!waits(slots, id));
        if node(arena, id).is_dir() {
            let below = assemble_tree(arena, id, pending, order, Ghost((fuel - 1) as nat));
            proof {
                tree = below@;
                lemma_grown_child(
                    items0,
                    children0,
                    slots0,
                    rest0,
                    items,
                    children,
                    slots,
                    arena_items(*arena),
                    arena_children(*arena),
                    pending@,
                    current,
                    ids@,
                    trees,
                    j as int,
                    tree,
                );
            }
        } else {
            proof {
                tree = Shape::leaf(items[id]);
                lemma_leaf_child(
                    items0,
                    children0,
                    slots0,
                    rest0,
                    items,
                    children,
                    slots,
                    current,
                    ids@,
                    trees,
                    j as int,
                );
            }
        }
        let bytes: u64 = match node(arena, id).size {
            Some(bytes) => bytes,
            None => 0,
        };
        proof {
            assert(nodes0.take(j + 1).drop_last() == nodes0.take(j as int));
            assert(nodes0.take(j + 1).last() == items[id]);
            assert(trees.push(tree).drop_last() == trees);
            assert(arena_items(*arena)[id] == tree.node);
            trees = trees.push(tree);
        }
        sum = sum.saturating_add(bytes);
        j += 1;
    }
    let ghost items1 = arena_items(*arena);
    let ghost children1 = arena_children(*arena);
    proof {
        assert(nodes0.take(ids@.len() as int) == nodes0);
    }
    if sum > 0 {
        let data = node_mut(arena, current);
        data.size = Some(sum);
    }
    let ghost items2 = arena_items(*arena);
    proof {
        assert(items2[current] == stamped(items0[current], total(trees)));
        assert forall|k: int| 0 <= k < ids@.len() implies items2.contains_key(#[trigger] ids@[k])
            && items2[ids@[k]] == trees[k].node by {
            assert(linked(items1, children1, ids@[k], trees[k]));
            assert(waits(slots0, ids@[k]));
        }
    }
    let (sorted, Ghost(from)) = arrange(arena, &ids, order, Ghost(trees));
    let ghost placed = arranged(trees, *order);
    let mut m: usize = 0;
    proof {
        assert(sorted@.take(0) == Seq::<NodeId>::empty());
        assert(children1[current] =~= sorted@.take(0));
        assert(children1.insert(current, sorted@.take(0)) =~= children1);
    }
    while m < sorted.len()
        invariant
            m <= sorted@.len(),
            sorted@.len() == ids@.len(),
            from.len() == ids@.len(),
            from.no_duplicates(),
            forall|k: int|
                0 <= k < ids@.len() ==> 0 <= #[trigger] from[k] < ids@.len() && sorted@[k]
                    == ids@[from[k]],
            taken(slots0, rest0, current, ids@),
            growing(
                items0,
                children0,
                slots0,
                rest0,
                items1,
                children1,
                pending@,
                current,
                ids@,
                trees,
                ids@.len() as int,
            ),
            arena_items(*arena) == items2,
            forall|x: NodeId| items2.contains_key(x) <==> items1.contains_key(x),
            arena_children(*arena) == children1.insert(current, sorted@.take(m as int)),
        decreases sorted@.len() - m,
    {
        let child = sorted[m];
        let ghost now = arena_children(*arena);
        proof {
            let f = from[m as int];
            assert(sorted@[m as int] == ids@[f]);
            assert(linked(items1, children1, ids@[f], trees[f]));
            assert(unattached(children1, ids@[f]));
            assert forall|p: NodeId, i: int|
                now.contains_key(p) && 0 <= i < now[p].len() implies #[trigger] now[p][i]
                != child && now[p][i] != current by {
                if p == current {
                    let g = from[i];
                    assert(sorted@[i] == ids@[g]);
                    assert(g != f);
                    assert(ids@[g] != ids@[f]);
                    assert(waits(slots0, ids@[g]));
                } else {
                    assert(children1[p][i] != child);
                    assert(children1[p][i] != current);
                }
            }
            assert(waits(slots0, ids@[f]));
        }
        append(arena, current, child);
        proof {
            assert(sorted@.take(m as int).push(child) == sorted@.take(m + 1));
            assert(arena_children(*arena) == children1.insert(current, sorted@.take(m + 1)));
        }
        m += 1;
    }
    let ghost children2 = arena_children(*arena);
    let ghost shape = Shape { node: items2[current], children: placed };
    proof {
        assert(sorted@.take(sorted@.len() as int) == sorted@);
        lemma_attached_children(
            items0,
            children0,
            slots0,
            rest0,
            items1,
            children1,
            items2,
            children2,
            pending@,
            current,
            ids@,
            trees,
            sorted@,
            from,
            *order,
        );
        lemma_nodes_of_same(pending@, items2, items1);
        if fuel == 0 {
            assert(ids@.len() == 0);
            assert(shape == Shape::leaf(items0[current]));
            assert(nodes_of(rest0, items0) == nodes_of(slots0, items0));
        }
    }
    Ghost(shape)
}

} // verus!
