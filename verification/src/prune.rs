//! Removes the directories that hold no file, those included that hold
//! nothing but such directories.

use crate::arena::{arena_children, arena_items, children_of, node, remove_leaf};
use crate::node::Node;
use crate::shape::{
    cut, cut_all, lemma_child_member, lemma_linked_frame, lemma_linked_ids, linked, linked_ids,
    separate, Shape,
};
use indextree::{Arena, NodeId};
use vstd::prelude::*;

verus! {

/// What the arena holds for `id` is in `items2` and `children2` as it is in
/// `items` and `children`, if it is there at all.
pub open spec fn same_at(
    items: Map<NodeId, Node>,
    children: Map<NodeId, Seq<NodeId>>,
    items2: Map<NodeId, Node>,
    children2: Map<NodeId, Seq<NodeId>>,
    id: NodeId,
) -> bool {
    &&& items2.contains_key(id) <==> items.contains_key(id)
    &&& children2.contains_key(id) <==> children.contains_key(id)
    &&& items.contains_key(id) ==> items2[id] == items[id]
    &&& children.contains_key(id) ==> children2[id] == children[id]
}

/// `y` is no node of the tree below `id`, and no node below `id` is its child.
pub open spec fn outside(children: Map<NodeId, Seq<NodeId>>, id: NodeId, shape: Shape, y: NodeId) -> bool {
    &&& !linked_ids(children, id, shape).contains(y)
    &&& forall|i: int|
        children.contains_key(y) && 0 <= i < children[y].len() ==> !(linked_ids(
            children,
            id,
            shape,
        ).contains(#[trigger] children[y][i]) && children[y][i] != id)
}

/// Trees that are cut away leave nothing, and only they.
pub proof fn lemma_cut_all_empty(trees: Seq<Shape>)
    ensures
        cut_all(trees).len() == 0 <==> forall|i: int|
            0 <= i < trees.len() ==> !(#[trigger] trees[i]).holds_file(),
    decreases trees.len(),
{
    if trees.len() > 0 {
        let init = trees.drop_last();
        lemma_cut_all_empty(init);
        if trees.last().holds_file() {
            assert(trees[trees.len() - 1].holds_file());
        } else if cut_all(init).len() == 0 {
            assert forall|i: int| 0 <= i < trees.len() implies !(#[trigger] trees[i]).holds_file() by {
                if i < trees.len() - 1 {
                    assert(init[i] == trees[i]);
                }
            }
        } else {
            let i = choose|i: int| 0 <= i < init.len() && (#[trigger] init[i]).holds_file();
            assert(trees[i] == init[i]);
        }
    }
}

/// A directory holds a file where something is left below it once it is cut.
pub proof fn lemma_cut_keeps_files(shape: Shape)
    requires
        shape.node.is_dir(),
    ensures
        shape.holds_file() <==> cut(shape).children.len() > 0,
{
    lemma_cut_all_empty(shape.children);
}

proof fn lemma_remove_absent(list: Seq<NodeId>, id: NodeId)
    requires
        forall|i: int| 0 <= i < list.len() ==> list[i] != id,
    ensures
        list.remove_value(id) == list,
{
    list.index_of_first_ensures(id);
}

proof fn lemma_remove_at(list: Seq<NodeId>, id: NodeId, at: int)
    requires
        0 <= at < list.len(),
        list[at] == id,
        forall|i: int| 0 <= i < list.len() && i != at ==> list[i] != id,
    ensures
        list.remove_value(id) == list.remove(at),
{
    list.index_of_first_ensures(id);
    assert(list.contains(id));
}

/// What holds while the children of `id` are gone through: `k` of them are
/// done, and the tree that stands at the `k`th is `tree`.
spec fn stage(
    items0: Map<NodeId, Node>,
    children0: Map<NodeId, Seq<NodeId>>,
    items: Map<NodeId, Node>,
    children: Map<NodeId, Seq<NodeId>>,
    id: NodeId,
    shape: Shape,
    k: int,
    tree: Seq<Shape>,
    done: Seq<Shape>,
    done_ids: Seq<NodeId>,
    src: Seq<int>,
) -> bool {
    let kids = shape.children;
    let ids0 = children0[id];
    &&& linked(items0, children0, id, shape)
    &&& separate(children0, id, shape)
    &&& shape.node.is_dir()
    &&& 0 <= k <= kids.len()
    &&& tree.len() == (if k < kids.len() {
        1nat
    } else {
        0nat
    })
    &&& done == cut_all(kids.take(k))
    &&& done_ids.len() == done.len()
    &&& src.len() == done.len()
    &&& items.contains_key(id)
    &&& children.contains_key(id)
    &&& items[id] == shape.node
    &&& children[id] == done_ids + ids0.skip(k)
    &&& forall|i: int|
        0 <= i < done.len() ==> 0 <= #[trigger] src[i] < k && done_ids[i] == ids0[src[i]] && done[i]
            == cut(kids[src[i]])
    &&& forall|i: int, j: int| 0 <= i < j < done.len() ==> #[trigger] src[i] < #[trigger] src[j]
    &&& forall|i: int|
        0 <= i < done.len() ==> linked(items, children, done_ids[i], #[trigger] done[i]) && separate(
            children,
            done_ids[i],
            done[i],
        )
    &&& forall|i: int, x: NodeId|
        0 <= i < done.len() && #[trigger] linked_ids(children, done_ids[i], done[i]).contains(x)
            ==> linked_ids(children0, ids0[src[i]], kids[src[i]]).contains(x)
    &&& k < kids.len() ==> linked(items, children, ids0[k], tree[0]) && separate(
        children,
        ids0[k],
        tree[0],
    ) && (forall|x: NodeId| #[trigger]
        linked_ids(children, ids0[k], tree[0]).contains(x) ==> linked_ids(
            children0,
            ids0[k],
            kids[k],
        ).contains(x))
    &&& forall|i: int|
        k < i < kids.len() ==> linked(items, children, ids0[i], #[trigger] kids[i]) && separate(
            children,
            ids0[i],
            kids[i],
        ) && linked_ids(children, ids0[i], kids[i]) == linked_ids(children0, ids0[i], kids[i])
    &&& forall|y: NodeId| #[trigger]
        outside(children0, id, shape, y) ==> same_at(items0, children0, items, children, y)
}

/// The trees below two children share no id, the node itself is in none of
/// them, and each is part of the whole.
proof fn lemma_parts(
    items: Map<NodeId, Node>,
    children: Map<NodeId, Seq<NodeId>>,
    id: NodeId,
    shape: Shape,
)
    requires
        linked(items, children, id, shape),
        separate(children, id, shape),
    ensures
        forall|i: int, x: NodeId|
            0 <= i < shape.children.len() && #[trigger] linked_ids(
                children,
                children[id][i],
                shape.children[i],
            ).contains(x) ==> x != id && linked_ids(children, id, shape).contains(x),
        forall|i: int|
            0 <= i < shape.children.len() ==> linked_ids(
                children,
                children[id][i],
                #[trigger] shape.children[i],
            ).contains(children[id][i]),
{
    assert forall|i: int|
        0 <= i < shape.children.len() implies linked_ids(
        children,
        children[id][i],
        #[trigger] shape.children[i],
    ).contains(children[id][i]) by {}
}

/// The tree that stands at the `k`th child while it waits for its turn: the
/// child's own, or none once all are done.
spec fn waiting_tree(shape: Shape, k: int) -> Seq<Shape> {
    if 0 <= k < shape.children.len() {
        seq![shape.children[k]]
    } else {
        Seq::empty()
    }
}

/// Before any child is gone through.
proof fn lemma_stage_start(
    items: Map<NodeId, Node>,
    children: Map<NodeId, Seq<NodeId>>,
    id: NodeId,
    shape: Shape,
)
    requires
        linked(items, children, id, shape),
        separate(children, id, shape),
        shape.node.is_dir(),
    ensures
        stage(
            items,
            children,
            items,
            children,
            id,
            shape,
            0,
            waiting_tree(shape, 0),
            Seq::empty(),
            Seq::empty(),
            Seq::empty(),
        ),
{
    let kids = shape.children;
    assert(kids.take(0) == Seq::<Shape>::empty());
    assert(children[id] == Seq::<NodeId>::empty() + children[id].skip(0));
    assert forall|i: int| 0 <= i < kids.len() implies linked(
        items,
        children,
        children[id][i],
        #[trigger] kids[i],
    ) && separate(children, children[id][i], kids[i]) by {}
}

/// A node of the tree that stands at another child is outside the tree of
/// the `k`th.
proof fn lemma_elsewhere(
    items0: Map<NodeId, Node>,
    children0: Map<NodeId, Seq<NodeId>>,
    items: Map<NodeId, Node>,
    children: Map<NodeId, Seq<NodeId>>,
    id: NodeId,
    shape: Shape,
    k: int,
    j: int,
    top: NodeId,
    tree: Shape,
    x: NodeId,
)
    requires
        linked(items0, children0, id, shape),
        separate(children0, id, shape),
        0 <= k < shape.children.len(),
        0 <= j < shape.children.len(),
        j != k,
        linked(items, children, top, tree),
        separate(children, top, tree),
        forall|z: NodeId| #[trigger]
            linked_ids(children, top, tree).contains(z) ==> linked_ids(
                children0,
                children0[id][j],
                shape.children[j],
            ).contains(z),
        forall|z: NodeId| #[trigger]
            linked_ids(children, children0[id][k], shape.children[k]).contains(z) ==> linked_ids(
                children0,
                children0[id][k],
                shape.children[k],
            ).contains(z),
        linked_ids(children, top, tree).contains(x),
    ensures
        outside(children, children0[id][k], shape.children[k], x),
        !linked_ids(children0, children0[id][k], shape.children[k]).contains(x),
{
    let kids = shape.children;
    let ids0 = children0[id];
    assert(linked_ids(children0, ids0[j], kids[j]).contains(x));
    assert(!linked_ids(children0, ids0[k], kids[k]).contains(x));
    assert forall|i: int|
        children.contains_key(x) && 0 <= i < children[x].len() implies !(linked_ids(
        children,
        ids0[k],
        kids[k],
    ).contains(#[trigger] children[x][i]) && children[x][i] != ids0[k]) by {
        lemma_child_member(items, children, top, tree, x, i);
        let y = children[x][i];
        assert(linked_ids(children0, ids0[j], kids[j]).contains(y));
        assert(!linked_ids(children0, ids0[k], kids[k]).contains(y));
    }
}

/// Once the `k`th child has been pruned, the others stand as before.
proof fn lemma_stage_called(
    items0: Map<NodeId, Node>,
    children0: Map<NodeId, Seq<NodeId>>,
    items: Map<NodeId, Node>,
    children: Map<NodeId, Seq<NodeId>>,
    items2: Map<NodeId, Node>,
    children2: Map<NodeId, Seq<NodeId>>,
    id: NodeId,
    shape: Shape,
    k: int,
    done: Seq<Shape>,
    done_ids: Seq<NodeId>,
    src: Seq<int>,
)
    requires
        k < shape.children.len(),
        stage(
            items0,
            children0,
            items,
            children,
            id,
            shape,
            k,
            seq![shape.children[k]],
            done,
            done_ids,
            src,
        ),
        linked(items2, children2, children0[id][k], cut(shape.children[k])),
        separate(children2, children0[id][k], cut(shape.children[k])),
        forall|x: NodeId| #[trigger]
            linked_ids(children2, children0[id][k], cut(shape.children[k])).contains(x)
                ==> linked_ids(children, children0[id][k], shape.children[k]).contains(x),
        forall|y: NodeId| #[trigger]
            outside(children, children0[id][k], shape.children[k], y) ==> same_at(
                items,
                children,
                items2,
                children2,
                y,
            ),
    ensures
        stage(
            items0,
            children0,
            items2,
            children2,
            id,
            shape,
            k,
            seq![cut(shape.children[k])],
            done,
            done_ids,
            src,
        ),
{
    let kids = shape.children;
    let ids0 = children0[id];
    let c = ids0[k];
    let mine = linked_ids(children, c, kids[k]);
    let whole = linked_ids(children0, id, shape);
    lemma_parts(items0, children0, id, shape);
    assert(seq![kids[k]][0] == kids[k]);
    assert(seq![cut(kids[k])][0] == cut(kids[k]));
    assert forall|x: NodeId| mine.contains(x) implies linked_ids(children0, c, kids[k]).contains(x)
        && whole.contains(x) && x != id by {}
    assert forall|i: int| 0 <= i < done.len() implies linked(
        items2,
        children2,
        done_ids[i],
        #[trigger] done[i],
    ) && separate(children2, done_ids[i], done[i]) && linked_ids(children2, done_ids[i], done[i])
        == linked_ids(children, done_ids[i], done[i]) by {
        let j = src[i];
        lemma_linked_ids(items, children, done_ids[i], done[i]);
        assert forall|x: NodeId| #[trigger]
            linked_ids(children, done_ids[i], done[i]).contains(x) implies items2.contains_key(x)
            && children2.contains_key(x) && items2[x] == items[x] && children2[x] == children[x] by {
            lemma_elsewhere(items0, children0, items, children, id, shape, k, j, done_ids[i], done[i], x);
        }
        lemma_linked_frame(items, children, items2, children2, done_ids[i], done[i]);
    }
    assert forall|i: int| k < i < kids.len() implies linked(
        items2,
        children2,
        ids0[i],
        #[trigger] kids[i],
    ) && separate(children2, ids0[i], kids[i]) && linked_ids(children2, ids0[i], kids[i])
        == linked_ids(children0, ids0[i], kids[i]) by {
        lemma_linked_ids(items, children, ids0[i], kids[i]);
        assert forall|x: NodeId| #[trigger]
            linked_ids(children, ids0[i], kids[i]).contains(x) implies items2.contains_key(x)
            && children2.contains_key(x) && items2[x] == items[x] && children2[x] == children[x] by {
            lemma_elsewhere(items0, children0, items, children, id, shape, k, i, ids0[i], kids[i], x);
        }
        lemma_linked_frame(items, children, items2, children2, ids0[i], kids[i]);
    }
    assert(outside(children, c, kids[k], id)) by {
        assert(!linked_ids(children0, ids0[k], kids[k]).contains(id));
        assert forall|i: int|
            children.contains_key(id) && 0 <= i < children[id].len() implies !(mine.contains(
            #[trigger] children[id][i],
        ) && children[id][i] != c) by {
            let y = children[id][i];
            if i < done_ids.len() {
                assert(y == done_ids[i]);
                assert(linked(items, children, done_ids[i], done[i]));
                assert(linked_ids(children, done_ids[i], done[i]).contains(y));
                assert(linked_ids(children0, ids0[src[i]], kids[src[i]]).contains(y));
                assert(!linked_ids(children0, ids0[k], kids[k]).contains(y));
            } else {
                let j = k + (i - done_ids.len());
                assert(y == ids0[j]);
                if j != k {
                    assert(linked_ids(children0, ids0[j], kids[j]).contains(y));
                    assert(!linked_ids(children0, ids0[k], kids[k]).contains(y));
                }
            }
        }
    }
    assert forall|y: NodeId| #[trigger] outside(children0, id, shape, y) implies same_at(
        items0,
        children0,
        items2,
        children2,
        y,
    ) by {
        assert(same_at(items0, children0, items, children, y));
        assert(outside(children, c, kids[k], y)) by {
            assert forall|i: int|
                children.contains_key(y) && 0 <= i < children[y].len() implies !(mine.contains(
                #[trigger] children[y][i],
            ) && children[y][i] != c) by {
                assert(children[y][i] == children0[y][i]);
            }
        }
    }
    assert forall|x: NodeId| #[trigger]
        linked_ids(children2, c, cut(kids[k])).contains(x) implies linked_ids(
        children0,
        c,
        kids[k],
    ).contains(x) by {
        assert(mine.contains(x));
    }
    assert forall|i: int, x: NodeId|
        0 <= i < done.len() && #[trigger] linked_ids(children2, done_ids[i], done[i]).contains(
            x,
        ) implies linked_ids(children0, ids0[src[i]], kids[src[i]]).contains(x) by {
        assert(linked(items2, children2, done_ids[i], done[i]));
        assert(linked_ids(children, done_ids[i], done[i]).contains(x));
    }
}

/// The `k`th child stays, with its tree cut.
proof fn lemma_stage_keep(
    items0: Map<NodeId, Node>,
    children0: Map<NodeId, Seq<NodeId>>,
    items: Map<NodeId, Node>,
    children: Map<NodeId, Seq<NodeId>>,
    id: NodeId,
    shape: Shape,
    k: int,
    done: Seq<Shape>,
    done_ids: Seq<NodeId>,
    src: Seq<int>,
)
    requires
        k < shape.children.len(),
        shape.children[k].holds_file(),
        stage(
            items0,
            children0,
            items,
            children,
            id,
            shape,
            k,
            seq![cut(shape.children[k])],
            done,
            done_ids,
            src,
        ),
    ensures
        stage(
            items0,
            children0,
            items,
            children,
            id,
            shape,
            k + 1,
            waiting_tree(shape, k + 1),
            done.push(cut(shape.children[k])),
            done_ids.push(children0[id][k]),
            src.push(k),
        ),
{
    let kids = shape.children;
    let ids0 = children0[id];
    let t = cut(kids[k]);
    let done2 = done.push(t);
    let ids2 = done_ids.push(ids0[k]);
    let src2 = src.push(k);
    assert(seq![t][0] == t);
    assert(kids.take(k + 1).drop_last() == kids.take(k));
    assert(kids.take(k + 1).last() == kids[k]);
    assert(children[id] =~= ids2 + ids0.skip(k + 1));
    assert forall|i: int| 0 <= i < done2.len() implies 0 <= #[trigger] src2[i] < k + 1 && ids2[i]
        == ids0[src2[i]] && done2[i] == cut(kids[src2[i]]) by {
        if i < done.len() {
            assert(src2[i] == src[i]);
        }
    }
    assert forall|i: int, j: int| 0 <= i < j < done2.len() implies #[trigger] src2[i]
        < #[trigger] src2[j] by {
        assert(src2[i] == src[i]);
        if j < done.len() {
            assert(src2[j] == src[j]);
        }
    }
    assert forall|i: int| 0 <= i < done2.len() implies linked(
        items,
        children,
        ids2[i],
        #[trigger] done2[i],
    ) && separate(children, ids2[i], done2[i]) by {
        if i < done.len() {
            assert(done2[i] == done[i]);
        }
    }
    assert forall|i: int, x: NodeId|
        0 <= i < done2.len() && #[trigger] linked_ids(children, ids2[i], done2[i]).contains(
            x,
        ) implies linked_ids(children0, ids0[src2[i]], kids[src2[i]]).contains(x) by {
        if i < done.len() {
            assert(done2[i] == done[i]);
            assert(src2[i] == src[i]);
            assert(linked_ids(children, done_ids[i], done[i]).contains(x));
        }
    }
    if k + 1 < kids.len() {
        assert(waiting_tree(shape, k + 1)[0] == kids[k + 1]);
        assert(linked(items, children, ids0[k + 1], kids[k + 1]));
    }
}

/// The `k`th child, cut down to nothing, is taken out of the arena.
proof fn lemma_stage_drop(
    items0: Map<NodeId, Node>,
    children0: Map<NodeId, Seq<NodeId>>,
    items: Map<NodeId, Node>,
    children: Map<NodeId, Seq<NodeId>>,
    items2: Map<NodeId, Node>,
    children2: Map<NodeId, Seq<NodeId>>,
    id: NodeId,
    shape: Shape,
    k: int,
    done: Seq<Shape>,
    done_ids: Seq<NodeId>,
    src: Seq<int>,
)
    requires
        k < shape.children.len(),
        !shape.children[k].holds_file(),
        cut(shape.children[k]).children.len() == 0,
        stage(
            items0,
            children0,
            items,
            children,
            id,
            shape,
            k,
            seq![cut(shape.children[k])],
            done,
            done_ids,
            src,
        ),
        items2 == items.remove(children0[id][k]),
        children2 == children.remove(children0[id][k]).map_values(
            |siblings: Seq<NodeId>| siblings.remove_value(children0[id][k]),
        ),
    ensures
        stage(
            items0,
            children0,
            items2,
            children2,
            id,
            shape,
            k + 1,
            waiting_tree(shape, k + 1),
            done,
            done_ids,
            src,
        ),
{
    let kids = shape.children;
    let ids0 = children0[id];
    let c = ids0[k];
    let t = cut(kids[k]);
    lemma_parts(items0, children0, id, shape);
    assert(seq![t][0] == t);
    assert(kids.take(k + 1).drop_last() == kids.take(k));
    assert(kids.take(k + 1).last() == kids[k]);
    assert(linked_ids(children0, c, kids[k]).contains(c));
    assert(c != id);
    assert forall|z: NodeId| #[trigger] linked_ids(children, c, t).contains(z) implies z == c by {}
    // A list that does not hold the child stays as it is.
    assert forall|y: NodeId|
        children.contains_key(y) && y != c && (forall|i: int|
            0 <= i < children[y].len() ==> children[y][i] != c) implies children2.contains_key(y)
        && #[trigger] children2[y] == children[y] by {
        lemma_remove_absent(children[y], c);
    }
    assert forall|i: int| 0 <= i < done.len() implies linked(
        items2,
        children2,
        done_ids[i],
        #[trigger] done[i],
    ) && separate(children2, done_ids[i], done[i]) && linked_ids(children2, done_ids[i], done[i])
        == linked_ids(children, done_ids[i], done[i]) by {
        lemma_linked_ids(items, children, done_ids[i], done[i]);
        assert forall|x: NodeId| #[trigger]
            linked_ids(children, done_ids[i], done[i]).contains(x) implies items2.contains_key(x)
            && children2.contains_key(x) && items2[x] == items[x] && children2[x] == children[x] by {
            lemma_still_there(
                items0,
                children0,
                items,
                children,
                id,
                shape,
                k,
                src[i],
                done_ids[i],
                done[i],
                x,
            );
            assert(children2[x] == children[x]);
        }
        lemma_linked_frame(items, children, items2, children2, done_ids[i], done[i]);
    }
    assert forall|i: int| k + 1 < i + 1 <= kids.len() implies linked(
        items2,
        children2,
        ids0[i],
        #[trigger] kids[i],
    ) && separate(children2, ids0[i], kids[i]) && linked_ids(children2, ids0[i], kids[i])
        == linked_ids(children0, ids0[i], kids[i]) by {
        lemma_linked_ids(items, children, ids0[i], kids[i]);
        assert forall|x: NodeId| #[trigger]
            linked_ids(children, ids0[i], kids[i]).contains(x) implies items2.contains_key(x)
            && children2.contains_key(x) && items2[x] == items[x] && children2[x] == children[x] by {
            lemma_still_there(items0, children0, items, children, id, shape, k, i, ids0[i], kids[i], x);
            assert(children2[x] == children[x]);
        }
        lemma_linked_frame(items, children, items2, children2, ids0[i], kids[i]);
    }
    assert(children2[id] == done_ids + ids0.skip(k + 1)) by {
        let list = children[id];
        let at = done_ids.len() as int;
        assert(list[at] == c);
        assert forall|i: int| 0 <= i < list.len() && i != at implies list[i] != c by {
            if i < at {
                assert(list[i] == done_ids[i]);
                assert(linked(items, children, done_ids[i], done[i]));
                assert(linked_ids(children, done_ids[i], done[i]).contains(list[i]));
                assert(linked_ids(children0, ids0[src[i]], kids[src[i]]).contains(list[i]));
                assert(!linked_ids(children0, ids0[k], kids[k]).contains(list[i]));
            } else {
                let j = k + (i - at);
                assert(list[i] == ids0[j]);
                assert(linked_ids(children0, ids0[j], kids[j]).contains(list[i]));
                assert(!linked_ids(children0, ids0[k], kids[k]).contains(list[i]));
            }
        }
        lemma_remove_at(list, c, at);
        assert(list.remove(at) =~= done_ids + ids0.skip(k + 1));
    }
    assert forall|i: int, x: NodeId|
        0 <= i < done.len() && #[trigger] linked_ids(children2, done_ids[i], done[i]).contains(
            x,
        ) implies linked_ids(children0, ids0[src[i]], kids[src[i]]).contains(x) by {
        assert(linked(items2, children2, done_ids[i], done[i]));
        assert(linked_ids(children, done_ids[i], done[i]).contains(x));
    }
    assert forall|y: NodeId| #[trigger] outside(children0, id, shape, y) implies same_at(
        items0,
        children0,
        items2,
        children2,
        y,
    ) by {
        assert(same_at(items0, children0, items, children, y));
        assert(linked_ids(children0, id, shape).contains(c));
        assert(y != c);
        if children.contains_key(y) {
            assert forall|i: int| 0 <= i < children[y].len() implies children[y][i] != c by {
                assert(children[y][i] == children0[y][i]);
            }
            assert(children2[y] == children[y]);
        }
    }
    if k + 1 < kids.len() {
        assert(waiting_tree(shape, k + 1)[0] == kids[k + 1]);
        assert(linked(items2, children2, ids0[k + 1], kids[k + 1]));
    }
}

/// A node of the tree that stands at another child is not the `k`th child,
/// and the `k`th child is not among its children.
proof fn lemma_still_there(
    items0: Map<NodeId, Node>,
    children0: Map<NodeId, Seq<NodeId>>,
    items: Map<NodeId, Node>,
    children: Map<NodeId, Seq<NodeId>>,
    id: NodeId,
    shape: Shape,
    k: int,
    j: int,
    top: NodeId,
    tree: Shape,
    x: NodeId,
)
    requires
        linked(items0, children0, id, shape),
        separate(children0, id, shape),
        0 <= k < shape.children.len(),
        0 <= j < shape.children.len(),
        j != k,
        linked(items, children, top, tree),
        separate(children, top, tree),
        forall|z: NodeId| #[trigger]
            linked_ids(children, top, tree).contains(z) ==> linked_ids(
                children0,
                children0[id][j],
                shape.children[j],
            ).contains(z),
        linked_ids(children, top, tree).contains(x),
    ensures
        x != children0[id][k],
        forall|i: int| 0 <= i < children[x].len() ==> children[x][i] != children0[id][k],
{
    let kids = shape.children;
    let ids0 = children0[id];
    assert(linked_ids(children0, ids0[k], kids[k]).contains(ids0[k]));
    assert(linked_ids(children0, ids0[j], kids[j]).contains(x));
    assert(!linked_ids(children0, ids0[k], kids[k]).contains(x));
    assert forall|i: int| 0 <= i < children[x].len() implies children[x][i] != ids0[k] by {
        lemma_child_member(items, children, top, tree, x, i);
        let y = children[x][i];
        assert(linked_ids(children0, ids0[j], kids[j]).contains(y));
        assert(!linked_ids(children0, ids0[k], kids[k]).contains(y));
    }
}

/// With all children gone through, the tree is cut.
proof fn lemma_stage_done(
    items0: Map<NodeId, Node>,
    children0: Map<NodeId, Seq<NodeId>>,
    items: Map<NodeId, Node>,
    children: Map<NodeId, Seq<NodeId>>,
    id: NodeId,
    shape: Shape,
    done: Seq<Shape>,
    done_ids: Seq<NodeId>,
    src: Seq<int>,
)
    requires
        stage(
            items0,
            children0,
            items,
            children,
            id,
            shape,
            shape.children.len() as int,
            Seq::empty(),
            done,
            done_ids,
            src,
        ),
    ensures
        linked(items, children, id, cut(shape)),
        separate(children, id, cut(shape)),
        forall|x: NodeId| #[trigger]
            linked_ids(children, id, cut(shape)).contains(x) ==> linked_ids(
                children0,
                id,
                shape,
            ).contains(x),
{
    let kids = shape.children;
    let ids0 = children0[id];
    let after = cut(shape);
    lemma_parts(items0, children0, id, shape);
    assert(kids.take(kids.len() as int) == kids);
    assert(after.children == done);
    assert(children[id] =~= done_ids);
    assert forall|i: int| 0 <= i < done.len() implies linked(
        items,
        children,
        children[id][i],
        #[trigger] after.children[i],
    ) && separate(children, children[id][i], after.children[i]) && !linked_ids(
        children,
        children[id][i],
        after.children[i],
    ).contains(id) by {
        assert(linked(items, children, done_ids[i], done[i]));
        if linked_ids(children, done_ids[i], done[i]).contains(id) {
            assert(linked_ids(children0, ids0[src[i]], kids[src[i]]).contains(id));
        }
    }
    assert forall|a: int, b: int, x: NodeId|
        #![trigger linked_ids(children, children[id][a], after.children[a]).contains(x), after.children[b]]
        0 <= a < after.children.len() && 0 <= b < after.children.len() && a != b && linked_ids(
            children,
            children[id][a],
            after.children[a],
        ).contains(x) implies !linked_ids(children, children[id][b], after.children[b]).contains(
            x,
        ) by {
        assert(linked_ids(children, done_ids[a], done[a]).contains(x));
        assert(linked_ids(children0, ids0[src[a]], kids[src[a]]).contains(x));
        if a < b {
            assert(src[a] < src[b]);
        } else {
            assert(src[b] < src[a]);
        }
        if linked_ids(children, done_ids[b], done[b]).contains(x) {
            assert(linked_ids(children0, ids0[src[b]], kids[src[b]]).contains(x));
            assert(!linked_ids(children0, ids0[src[b]], kids[src[b]]).contains(x));
        }
    }
    assert forall|x: NodeId| #[trigger]
        linked_ids(children, id, after).contains(x) implies linked_ids(children0, id, shape).contains(
        x,
    ) by {
        if x != id {
            let m = choose|m: int|
                0 <= m < after.children.len() && linked_ids(
                    children,
                    children[id][m],
                    #[trigger] after.children[m],
                ).contains(x);
            assert(linked_ids(children, done_ids[m], done[m]).contains(x));
            assert(linked_ids(children0, ids0[src[m]], kids[src[m]]).contains(x));
        }
    }
}

/// Removes the directories below `id` that hold no file. The node itself
/// stays.
pub(crate) fn prune_directories(id: NodeId, arena: &mut Arena<Node>, Ghost(shape): Ghost<Shape>)
    requires
        linked(arena_items(*old(arena)), arena_children(*old(arena)), id, shape),
        separate(arena_children(*old(arena)), id, shape),
    ensures
        linked(arena_items(*final(arena)), arena_children(*final(arena)), id, cut(shape)),
        separate(arena_children(*final(arena)), id, cut(shape)),
        forall|x: NodeId| #[trigger]
            linked_ids(arena_children(*final(arena)), id, cut(shape)).contains(x) ==> linked_ids(
                arena_children(*old(arena)),
                id,
                shape,
            ).contains(x),
        forall|y: NodeId| #[trigger]
            outside(arena_children(*old(arena)), id, shape, y) ==> same_at(
                arena_items(*old(arena)),
                arena_children(*old(arena)),
                arena_items(*final(arena)),
                arena_children(*final(arena)),
                y,
            ),
    decreases shape,
{
    if !node(arena, id).is_dir() {
        return ;
    }
    let ghost items0 = arena_items(*arena);
    let ghost children0 = arena_children(*arena);
    let ghost kids = shape.children;
    let ids = children_of(arena, id);
    let ghost mut done: Seq<Shape> = Seq::empty();
    let ghost mut done_ids: Seq<NodeId> = Seq::empty();
    let ghost mut src: Seq<int> = Seq::empty();
    let mut k: usize = 0;
    proof {
        lemma_stage_start(items0, children0, id, shape);
    }
    while k < ids.len()
        invariant
            k <= ids@.len(),
            ids@ == children0[id],
            ids@.len() == shape.children.len(),
            kids == shape.children,
            stage(
                items0,
                children0,
                arena_items(*arena),
                arena_children(*arena),
                id,
                shape,
                k as int,
                waiting_tree(shape, k as int),
                done,
                done_ids,
                src,
            ),
        decreases ids@.len() - k,
    {
        let child = ids[k];
        let ghost items = arena_items(*arena);
        let ghost children = arena_children(*arena);
        assert(waiting_tree(shape, k as int) == seq![kids[k as int]]);
        assert(seq![kids[k as int]][0] == kids[k as int]);
        assert(linked(items, children, child, kids[k as int]));
        let mut stays = true;
        if node(arena, child).is_dir() {
            prune_directories(child, arena, Ghost(kids[k as int]));
            proof {
                lemma_stage_called(
                    items0,
                    children0,
                    items,
                    children,
                    arena_items(*arena),
                    arena_children(*arena),
                    id,
                    shape,
                    k as int,
                    done,
                    done_ids,
                    src,
                );
                lemma_cut_keeps_files(kids[k as int]);
                assert(seq![cut(kids[k as int])][0] == cut(kids[k as int]));
            }
            if children_of(arena, child).len() == 0 {
                let ghost items2 = arena_items(*arena);
                let ghost children2 = arena_children(*arena);
                remove_leaf(arena, child);
                proof {
                    lemma_stage_drop(
                        items0,
                        children0,
                        items2,
                        children2,
                        arena_items(*arena),
                        arena_children(*arena),
                        id,
                        shape,
                        k as int,
                        done,
                        done_ids,
                        src,
                    );
                }
                stays = false;
            }
        } else {
            assert(cut(kids[k as int]) == kids[k as int]);
            assert(kids[k as int].holds_file());
        }
        if stays {
            proof {
                lemma_stage_keep(
                    items0,
                    children0,
                    arena_items(*arena),
                    arena_children(*arena),
                    id,
                    shape,
                    k as int,
                    done,
                    done_ids,
                    src,
                );
                done = done.push(cut(kids[k as int]));
                done_ids = done_ids.push(child);
                src = src.push(k as int);
            }
        }
        k += 1;
    }
    proof {
        assert(waiting_tree(shape, k as int) == Seq::<Shape>::empty());
        lemma_stage_done(
            items0,
            children0,
            arena_items(*arena),
            arena_children(*arena),
            id,
            shape,
            done,
            done_ids,
            src,
        );
    }
}

} // verus!
