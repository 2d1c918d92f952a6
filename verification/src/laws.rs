//! What holds of the trees that this crate builds, whatever the entries.

use crate::assemble::{grown, grown_all, planted, stamped, total};
use crate::collect::{fresh, held, Collected};
use crate::context::Context;
use crate::node::{Entry, Node};
use crate::order::{arranged, bytes_before, goes_before, inserted, Order};
use crate::pending::{ensured, filed, lemma_place, place, waiting, without, Slot};
use crate::render::{diagram, forest_rows, inner_rows, lemma_hidden_rows, rows, subtree_rows, Row};
use crate::shape::{cut, cut_all, forest_preorder, Shape};
use crate::tree::observed;
use vstd::prelude::*;

verus! {

/// Below a directory of the tree there is no directory without a file.
pub open spec fn trimmed(shape: Shape) -> bool
    decreases shape,
{
    shape.node.is_dir() ==> forall|i: int|
        0 <= i < shape.children.len() ==> (#[trigger] shape.children[i]).holds_file() && trimmed(
            shape.children[i],
        )
}

/// What is kept of several trees holds a file, each of them.
pub proof fn lemma_cut_all_kept(trees: Seq<Shape>)
    ensures
        forall|i: int|
            0 <= i < cut_all(trees).len() ==> exists|j: int|
                0 <= j < trees.len() && trees[j].holds_file() && #[trigger] cut_all(trees)[i] == cut(
                    trees[j],
                ),
    decreases trees.len(),
{
    if trees.len() > 0 {
        let init = trees.drop_last();
        lemma_cut_all_kept(init);
        assert forall|i: int| 0 <= i < cut_all(trees).len() implies exists|j: int|
            0 <= j < trees.len() && trees[j].holds_file() && #[trigger] cut_all(trees)[i] == cut(
                trees[j],
            ) by {
            if i < cut_all(init).len() {
                let j = choose|j: int|
                    0 <= j < init.len() && init[j].holds_file() && cut_all(init)[i] == cut(init[j]);
                assert(trees[j] == init[j]);
            } else {
                assert(cut_all(trees)[i] == cut(trees[trees.len() - 1]));
            }
        }
    }
}

/// Cutting a tree neither gives it a file nor takes its last one away.
pub proof fn lemma_cut_holds_file(shape: Shape)
    ensures
        cut(shape).holds_file() == shape.holds_file(),
    decreases shape,
{
    if shape.node.is_dir() {
        let kids = shape.children;
        let kept = cut_all(kids);
        let after = cut(shape);
        assert(after.children == kept);
        assert(after.node.is_dir());
        lemma_cut_all_kept(kids);
        if shape.holds_file() {
            let i = choose|i: int| 0 <= i < kids.len() && (#[trigger] kids[i]).holds_file();
            lemma_cut_holds_file(kids[i]);
            lemma_cut_all_has(kids, i);
            let at = choose|at: int| 0 <= at < kept.len() && kept[at] == cut(kids[i]);
            assert(after.children[at].holds_file());
            assert(after.holds_file());
        }
        if after.holds_file() {
            let at = choose|at: int|
                0 <= at < after.children.len() && (#[trigger] after.children[at]).holds_file();
            let j = choose|j: int|
                0 <= j < kids.len() && kids[j].holds_file() && kept[at] == cut(kids[j]);
            assert(kids[j].holds_file());
            assert(shape.holds_file());
        }
    }
}

/// A tree that holds a file is kept, cut.
pub proof fn lemma_cut_all_has(trees: Seq<Shape>, i: int)
    requires
        0 <= i < trees.len(),
        trees[i].holds_file(),
    ensures
        exists|at: int| 0 <= at < cut_all(trees).len() && cut_all(trees)[at] == cut(trees[i]),
    decreases trees.len(),
{
    let init = trees.drop_last();
    if i == trees.len() - 1 {
        assert(cut_all(trees)[cut_all(init).len() as int] == cut(trees[i]));
    } else {
        assert(init[i] == trees[i]);
        lemma_cut_all_has(init, i);
        let at = choose|at: int| 0 <= at < cut_all(init).len() && cut_all(init)[at] == cut(init[i]);
        if trees.last().holds_file() {
            assert(cut_all(trees)[at] == cut_all(init)[at]);
        }
    }
}

/// Pruning leaves no directory without a file below the top of the tree.
pub proof fn lemma_cut_trimmed(shape: Shape)
    ensures
        trimmed(cut(shape)),
    decreases shape,
{
    if shape.node.is_dir() {
        let kids = shape.children;
        let kept = cut_all(kids);
        lemma_cut_all_kept(kids);
        assert forall|i: int| 0 <= i < kept.len() implies (#[trigger] kept[i]).holds_file()
            && trimmed(kept[i]) by {
            let j = choose|j: int|
                0 <= j < kids.len() && kids[j].holds_file() && kept[i] == cut(kids[j]);
            lemma_cut_holds_file(kids[j]);
            lemma_cut_trimmed(kids[j]);
        }
    }
}

/// Pruning is idempotent: a tree that has been pruned is left as it is.
pub proof fn lemma_cut_idempotent(shape: Shape)
    ensures
        cut(cut(shape)) == cut(shape),
    decreases shape, 1nat,
{
    if shape.node.is_dir() {
        lemma_cut_all_idempotent(shape.children);
    }
}

/// The same for several trees.
pub proof fn lemma_cut_all_idempotent(trees: Seq<Shape>)
    ensures
        cut_all(cut_all(trees)) == cut_all(trees),
    decreases trees, 0nat,
{
    if trees.len() > 0 {
        let init = trees.drop_last();
        lemma_cut_all_idempotent(init);
        if trees.last().holds_file() {
            lemma_cut_holds_file(trees.last());
            lemma_cut_idempotent(trees.last());
            let kept = cut_all(trees);
            assert(kept.drop_last() == cut_all(init));
            assert(kept.last() == cut(trees.last()));
        }
    }
}

/// Rendering is stable: the same tree under the same configuration has one
/// diagram, however often it is rendered.
pub proof fn lemma_diagram_stable(shape: Shape, ctx: Context, first: Seq<char>, second: Seq<char>)
    requires
        first == diagram(shape, ctx),
        second == diagram(shape, ctx),
    ensures
        first == second,
{
}

/// What has been collected once all of `entries` have been seen after what
/// `collected` holds.
pub open spec fn after_all(collected: Collected, entries: Seq<Entry>) -> Collected
    decreases entries.len(),
{
    if entries.len() == 0 {
        collected
    } else {
        after_all(collected, entries.drop_last()).after(entries.last())
    }
}

/// Making sure of a slot adds no node.
pub proof fn lemma_held_ensured<T>(slots: Seq<Slot<T>>, path: Seq<char>)
    ensures
        held(ensured(slots, path)) == held(slots),
{
    let more = ensured(slots, path);
    if more.len() > slots.len() {
        assert(more.drop_last() == slots);
    }
}

/// Filing a node adds one.
pub proof fn lemma_held_filed<T>(slots: Seq<Slot<T>>, path: Seq<char>, child: T)
    ensures
        held(filed(slots, path, child)) == held(slots) + 1,
{
    lemma_place(slots, path);
    let at = place(slots, path);
    let more = filed(slots, path, child);
    if at < slots.len() {
        lemma_held_update(slots, at, more[at]);
    } else {
        assert(more.drop_last() == slots);
    }
}

proof fn lemma_held_update<T>(slots: Seq<Slot<T>>, at: int, slot: Slot<T>)
    requires
        0 <= at < slots.len(),
    ensures
        held(slots.update(at, slot)) == held(slots) - slots[at].children.len() + slot.children.len(),
    decreases slots.len(),
{
    let more = slots.update(at, slot);
    if at == slots.len() - 1 {
        assert(more.drop_last() == slots.drop_last());
    } else {
        assert(more.drop_last() == slots.drop_last().update(at, slot));
        lemma_held_update(slots.drop_last(), at, slot);
    }
}

/// A further name of a file that has been counted adds no node.
pub proof fn lemma_repeated_link_dropped(collected: Collected, entry: Entry)
    requires
        collected.repeats(entry),
        !Collected::is_root(entry),
    ensures
        collected.after(entry).waiting_nodes() == collected.waiting_nodes(),
        collected.after(entry).root == collected.root,
        collected.after(entry).inodes == collected.inodes,
{
    lemma_held_ensured(collected.slots, entry.path@);
}

/// Hard links are counted once: of any number of entries below the root
/// that are names of one file with several names, exactly one becomes a
/// node.
pub proof fn lemma_hard_links_counted_once(
    collected: Collected,
    links: Seq<Entry>,
    identity: (u64, u64),
)
    requires
        links.len() >= 1,
        !collected.inodes.contains(identity),
        forall|i: int|
            0 <= i < links.len() ==> !Collected::is_root(#[trigger] links[i]) && links[i].parent is Some
                && links[i].inode is Some && links[i].inode->0.nlink > 1
                && links[i].inode->0.identity() == identity,
    ensures
        after_all(collected, links).waiting_nodes() == collected.waiting_nodes() + 1,
        after_all(collected, links).inodes.contains(identity),
    decreases links.len(),
{
    let init = links.drop_last();
    let last = links.last();
    assert(last == links[links.len() - 1]);
    let before = after_all(collected, init);
    if init.len() == 0 {
        assert(before == collected);
        lemma_held_ensured(collected.slots, last.path@);
        let slots = if last.is_dir() {
            ensured(collected.slots, last.path@)
        } else {
            collected.slots
        };
        lemma_held_filed(slots, last.parent->0@, fresh(last));
    } else {
        assert forall|i: int| 0 <= i < init.len() implies !Collected::is_root(#[trigger] init[i])
            && init[i].parent is Some && init[i].inode is Some && init[i].inode->0.nlink > 1
            && init[i].inode->0.identity() == identity by {
            assert(init[i] == links[i]);
        }
        lemma_hard_links_counted_once(collected, init, identity);
        lemma_repeated_link_dropped(before, last);
    }
}

/// The tree down to the deepest level that is shown, where `shape` stands at
/// `depth`.
pub open spec fn clipped(shape: Shape, depth: nat, ctx: Context) -> Shape
    decreases shape,
{
    Shape { node: shape.node, children: clipped_all(shape.children, depth + 1, ctx) }
}

/// Several trees at `depth`, each clipped; none of them where that depth is
/// not shown.
pub open spec fn clipped_all(trees: Seq<Shape>, depth: nat, ctx: Context) -> Seq<Shape>
    decreases trees,
{
    if trees.len() == 0 || !ctx.shows(depth) {
        Seq::empty()
    } else {
        clipped_all(trees.drop_last(), depth, ctx).push(clipped(trees.last(), depth, ctx))
    }
}

/// The nodes that the rows stand for.
pub open spec fn row_nodes(rows: Seq<Row>) -> Seq<Node> {
    Seq::new(rows.len(), |i: int| rows[i].node)
}

/// The rows of a subtree stand for the nodes of the clipped subtree, each
/// before its children, and none of them is deeper than what is shown.
pub proof fn lemma_subtree_rows_clipped(
    shape: Shape,
    last: bool,
    inherited: Seq<char>,
    depth: nat,
    ctx: Context,
)
    requires
        ctx.shows(depth),
    ensures
        row_nodes(subtree_rows(shape, last, inherited, depth, ctx)) == clipped(
            shape,
            depth,
            ctx,
        ).preorder(),
        forall|i: int|
            0 <= i < subtree_rows(shape, last, inherited, depth, ctx).len() ==> ctx.shows(
                (#[trigger] subtree_rows(shape, last, inherited, depth, ctx)[i]).depth,
            ),
    decreases shape, 1nat,
{
    let link = shape.node.is_symlink();
    let own = seq![
        Row { prefix: inherited + crate::ui::connector(link, last), node: shape.node, depth },
    ];
    let deeper = inherited + crate::ui::continuation(link, last);
    let below = forest_rows(shape.children, deeper, depth + 1, ctx);
    lemma_forest_rows_clipped(shape.children, deeper, depth + 1, ctx);
    assert(row_nodes(own + below) =~= seq![shape.node] + row_nodes(below));
    assert forall|i: int| 0 <= i < (own + below).len() implies ctx.shows(
        (#[trigger] (own + below)[i]).depth,
    ) by {
        if i > 0 {
            assert((own + below)[i] == below[i - 1]);
        }
    }
}

/// The same for the rows of a group of siblings.
pub proof fn lemma_forest_rows_clipped(
    trees: Seq<Shape>,
    inherited: Seq<char>,
    depth: nat,
    ctx: Context,
)
    ensures
        row_nodes(forest_rows(trees, inherited, depth, ctx)) == forest_preorder(
            clipped_all(trees, depth, ctx),
        ),
        row_nodes(inner_rows(trees, inherited, depth, ctx)) == forest_preorder(
            clipped_all(trees, depth, ctx),
        ),
        forall|i: int|
            0 <= i < forest_rows(trees, inherited, depth, ctx).len() ==> ctx.shows(
                (#[trigger] forest_rows(trees, inherited, depth, ctx)[i]).depth,
            ),
        forall|i: int|
            0 <= i < inner_rows(trees, inherited, depth, ctx).len() ==> ctx.shows(
                (#[trigger] inner_rows(trees, inherited, depth, ctx)[i]).depth,
            ),
    decreases trees, 0nat,
{
    if trees.len() == 0 {
        assert(row_nodes(Seq::<Row>::empty()) =~= Seq::<Node>::empty());
    } else if !ctx.shows(depth) {
        lemma_hidden_rows(trees, inherited, depth, ctx);
        assert(row_nodes(Seq::<Row>::empty()) =~= Seq::<Node>::empty());
    } else {
        let init = trees.drop_last();
        lemma_forest_rows_clipped(init, inherited, depth, ctx);
        lemma_subtree_rows_clipped(trees.last(), true, inherited, depth, ctx);
        lemma_subtree_rows_clipped(trees.last(), false, inherited, depth, ctx);
        let before = inner_rows(init, inherited, depth, ctx);
        let closing = subtree_rows(trees.last(), true, inherited, depth, ctx);
        let open = subtree_rows(trees.last(), false, inherited, depth, ctx);
        let kept = clipped_all(trees, depth, ctx);
        assert(kept.drop_last() == clipped_all(init, depth, ctx));
        assert(kept.last() == clipped(trees.last(), depth, ctx));
        assert(row_nodes(before + closing) =~= row_nodes(before) + row_nodes(closing));
        assert(row_nodes(before + open) =~= row_nodes(before) + row_nodes(open));
        assert forall|i: int| 0 <= i < (before + closing).len() implies ctx.shows(
            (#[trigger] (before + closing)[i]).depth,
        ) by {
            if i >= before.len() {
                assert((before + closing)[i] == closing[i - before.len()]);
            } else {
                assert((before + closing)[i] == before[i]);
            }
        }
        assert forall|i: int| 0 <= i < (before + open).len() implies ctx.shows(
            (#[trigger] (before + open)[i]).depth,
        ) by {
            if i >= before.len() {
                assert((before + open)[i] == open[i - before.len()]);
            } else {
                assert((before + open)[i] == before[i]);
            }
        }
    }
}

/// Depth limiting: the rows of the diagram stand for the nodes of the tree
/// down to the deepest level shown, each before its children, so that no row
/// is deeper than that level and no node above a row is left out.
pub proof fn lemma_rows_within_level(shape: Shape, ctx: Context)
    ensures
        row_nodes(rows(shape, ctx)) == clipped(shape, 0, ctx).preorder(),
        forall|i: int|
            0 <= i < rows(shape, ctx).len() ==> ctx.shows((#[trigger] rows(shape, ctx)[i]).depth),
{
    let own = seq![Row { prefix: Seq::empty(), node: shape.node, depth: 0 }];
    let below = forest_rows(shape.children, Seq::empty(), 1, ctx);
    lemma_forest_rows_clipped(shape.children, Seq::empty(), 1, ctx);
    assert(row_nodes(own + below) =~= seq![shape.node] + row_nodes(below));
    assert forall|i: int| 0 <= i < (own + below).len() implies ctx.shows(
        (#[trigger] (own + below)[i]).depth,
    ) by {
        if i > 0 {
            assert((own + below)[i] == below[i - 1]);
        }
    }
}

/// The sizes of all that is no directory in the tree, added up.
pub open spec fn files_total(shape: Shape) -> nat
    decreases shape,
{
    if shape.node.is_dir() {
        forest_total(shape.children)
    } else {
        shape.node.contribution()
    }
}

/// The same for several trees.
pub open spec fn forest_total(trees: Seq<Shape>) -> nat
    decreases trees,
{
    if trees.len() == 0 {
        0
    } else {
        forest_total(trees.drop_last()) + files_total(trees.last())
    }
}

/// The size that stands for a sum: none for zero, and the largest size there
/// is for a sum above it.
pub open spec fn sized(sum: nat) -> Option<u64> {
    if sum == 0 {
        None
    } else if sum > u64::MAX {
        Some(u64::MAX)
    } else {
        Some(sum as u64)
    }
}

/// Every directory of the tree has the size that its files add up to.
pub open spec fn measured(shape: Shape) -> bool
    decreases shape,
{
    &&& shape.node.is_dir() ==> shape.node.size == sized(files_total(shape))
    &&& forall|i: int| 0 <= i < shape.children.len() ==> measured(#[trigger] shape.children[i])
}

/// A node as it is made of its entry.
pub open spec fn plain(node: Node) -> bool {
    node.size == node.entry.initial_size()
}

/// All nodes that wait are as they were made.
pub open spec fn plain_slots(slots: Seq<Slot<Node>>) -> bool {
    forall|s: int, i: int|
        0 <= s < slots.len() && 0 <= i < slots[s].children.len() ==> plain(
            #[trigger] slots[s].children[i],
        )
}

/// What a measured tree adds to the total above it.
spec fn counted(shape: Shape) -> bool {
    shape.node.contribution() == (if files_total(shape) > u64::MAX {
        u64::MAX as nat
    } else {
        files_total(shape)
    })
}

proof fn lemma_total_counted(trees: Seq<Shape>)
    requires
        forall|i: int| 0 <= i < trees.len() ==> counted(#[trigger] trees[i]),
    ensures
        total(trees) == (if forest_total(trees) > u64::MAX {
            u64::MAX as nat
        } else {
            forest_total(trees)
        }),
    decreases trees.len(),
{
    if trees.len() > 0 {
        let init = trees.drop_last();
        assert forall|i: int| 0 <= i < init.len() implies counted(#[trigger] init[i]) by {
            assert(init[i] == trees[i]);
        }
        lemma_total_counted(init);
        assert(counted(trees[trees.len() - 1]));
    }
}

proof fn lemma_inserted_total(sorted: Seq<Shape>, tree: Shape, order: Order)
    ensures
        forest_total(inserted(sorted, tree, order)) == forest_total(sorted) + files_total(tree),
        forall|i: int|
            0 <= i < inserted(sorted, tree, order).len() ==> #[trigger] inserted(sorted, tree, order)[i]
                == tree || exists|j: int|
                0 <= j < sorted.len() && inserted(sorted, tree, order)[i] == sorted[j],
    decreases sorted.len(),
{
    let out = inserted(sorted, tree, order);
    if sorted.len() == 0 {
        assert(out.drop_last() == Seq::<Shape>::empty());
        assert(out.last() == tree);
        assert(forest_total(out.drop_last()) == 0);
    } else if goes_before(tree.node, sorted.last().node, order) {
        let init = sorted.drop_last();
        lemma_inserted_total(init, tree, order);
        let inner = inserted(init, tree, order);
        assert(out.drop_last() == inner);
        assert(out.last() == sorted.last());
        assert forall|i: int| 0 <= i < out.len() implies #[trigger] out[i] == tree || exists|j: int|
            0 <= j < sorted.len() && out[i] == sorted[j] by {
            if i < inner.len() {
                if inner[i] != tree {
                    let j = choose|j: int| 0 <= j < init.len() && inner[i] == init[j];
                    assert(sorted[j] == init[j]);
                }
            } else {
                assert(out[i] == sorted[sorted.len() - 1]);
            }
        }
    } else {
        assert(out.drop_last() == sorted);
        assert(out.last() == tree);
        assert forall|i: int| 0 <= i < out.len() implies #[trigger] out[i] == tree || exists|j: int|
            0 <= j < sorted.len() && out[i] == sorted[j] by {
            if i < sorted.len() {
                assert(out[i] == sorted[i]);
            }
        }
    }
}

/// Putting trees in order changes neither what they add up to nor the trees.
proof fn lemma_arranged_total(trees: Seq<Shape>, order: Order)
    ensures
        forest_total(arranged(trees, order)) == forest_total(trees),
        forall|i: int|
            0 <= i < arranged(trees, order).len() ==> exists|j: int|
                0 <= j < trees.len() && #[trigger] arranged(trees, order)[i] == trees[j],
    decreases trees.len(),
{
    if trees.len() > 0 {
        let init = trees.drop_last();
        lemma_arranged_total(init, order);
        let inner = arranged(init, order);
        lemma_inserted_total(inner, trees.last(), order);
        let out = arranged(trees, order);
        assert forall|i: int| 0 <= i < out.len() implies exists|j: int|
            0 <= j < trees.len() && #[trigger] out[i] == trees[j] by {
            if out[i] == trees.last() {
                assert(out[i] == trees[trees.len() - 1]);
            } else {
                let a = choose|a: int| 0 <= a < inner.len() && out[i] == inner[a];
                let j = choose|j: int| 0 <= j < init.len() && inner[a] == init[j];
                assert(trees[j] == init[j]);
            }
        }
    }
}

/// A tree grown of nodes that are as they were made is measured.
proof fn lemma_grown_measured(slots: Seq<Slot<Node>>, node: Node, order: Order, fuel: nat)
    requires
        plain_slots(slots),
        plain(node),
        node.is_dir(),
    ensures
        measured(grown(slots, node, order, fuel).0),
        counted(grown(slots, node, order, fuel).0),
        plain_slots(grown(slots, node, order, fuel).1),
    decreases fuel, 0nat,
{
    if fuel > 0 {
        let path = node.entry.path@;
        let nodes = waiting(slots, path);
        let rest = without(slots, path);
        lemma_place(slots, path);
        let at = place(slots, path);
        assert forall|i: int| 0 <= i < nodes.len() implies plain(#[trigger] nodes[i]) by {
            assert(nodes[i] == slots[at].children[i]);
        }
        assert(plain_slots(rest)) by {
            assert forall|s: int, i: int|
                0 <= s < rest.len() && 0 <= i < rest[s].children.len() implies plain(
                #[trigger] rest[s].children[i],
            ) by {
                if at < slots.len() {
                    let t = if s < at {
                        s
                    } else {
                        s + 1
                    };
                    assert(rest[s].children[i] == slots[t].children[i]);
                }
            }
        }
        lemma_grown_all_measured(rest, nodes, order, (fuel - 1) as nat);
        let trees = grown_all(rest, nodes, order, (fuel - 1) as nat).0;
        let tree = grown(slots, node, order, fuel).0;
        lemma_total_counted(trees);
        lemma_arranged_total(trees, order);
        assert(tree.children == arranged(trees, order));
        assert(tree.node == stamped(node, total(trees)));
        assert forall|i: int| 0 <= i < tree.children.len() implies measured(
            #[trigger] tree.children[i],
        ) by {
            let j = choose|j: int| 0 <= j < trees.len() && arranged(trees, order)[i] == trees[j];
            assert(measured(trees[j]));
        }
    }
}

/// The same for the trees grown of several nodes.
proof fn lemma_grown_all_measured(slots: Seq<Slot<Node>>, nodes: Seq<Node>, order: Order, fuel: nat)
    requires
        plain_slots(slots),
        forall|i: int| 0 <= i < nodes.len() ==> plain(#[trigger] nodes[i]),
    ensures
        grown_all(slots, nodes, order, fuel).0.len() == nodes.len(),
        forall|i: int|
            0 <= i < nodes.len() ==> measured(#[trigger] grown_all(slots, nodes, order, fuel).0[i])
                && counted(grown_all(slots, nodes, order, fuel).0[i]),
        plain_slots(grown_all(slots, nodes, order, fuel).1),
    decreases fuel, nodes.len() + 1,
{
    if nodes.len() > 0 {
        let init = nodes.drop_last();
        assert forall|i: int| 0 <= i < init.len() implies plain(#[trigger] init[i]) by {
            assert(init[i] == nodes[i]);
        }
        lemma_grown_all_measured(slots, init, order, fuel);
        let (trees, mid) = grown_all(slots, init, order, fuel);
        let last = nodes.last();
        assert(plain(nodes[nodes.len() - 1]));
        if last.is_dir() {
            lemma_grown_measured(mid, last, order, fuel);
        } else {
            assert(measured(Shape::leaf(last)));
        }
        let out = grown_all(slots, nodes, order, fuel).0;
        assert forall|i: int| 0 <= i < nodes.len() implies measured(#[trigger] out[i]) && counted(
            out[i],
        ) by {
            if i < init.len() {
                assert(out[i] == trees[i]);
            }
        }
    }
}

/// Whatever has been collected is as it was made, and the root is a
/// directory.
proof fn lemma_observed_plain(entries: Seq<Entry>)
    ensures
        plain_slots(observed(entries).slots),
        observed(entries).root matches Some(root) ==> plain(root) && root.is_dir(),
    decreases entries.len(),
{
    if entries.len() > 0 {
        let before = observed(entries.drop_last());
        lemma_observed_plain(entries.drop_last());
        let entry = entries.last();
        let slots = if entry.is_dir() {
            ensured(before.slots, entry.path@)
        } else {
            before.slots
        };
        lemma_place(before.slots, entry.path@);
        assert(plain_slots(slots)) by {
            assert forall|s: int, i: int|
                0 <= s < slots.len() && 0 <= i < slots[s].children.len() implies plain(
                #[trigger] slots[s].children[i],
            ) by {
                if s < before.slots.len() {
                    assert(slots[s].children[i] == before.slots[s].children[i]);
                }
            }
        }
        if entry.parent is Some {
            let parent = entry.parent->0@;
            lemma_place(slots, parent);
            let at = place(slots, parent);
            let more = filed(slots, parent, fresh(entry));
            assert forall|s: int, i: int|
                0 <= s < more.len() && 0 <= i < more[s].children.len() implies plain(
                #[trigger] more[s].children[i],
            ) by {
                if s < slots.len() && (s != at || i < slots[s].children.len()) {
                    assert(more[s].children[i] == slots[s].children[i]);
                }
            }
        }
    }
}

/// A tree that holds no file adds up to nothing.
proof fn lemma_fileless_total(shape: Shape)
    requires
        !shape.holds_file(),
    ensures
        files_total(shape) == 0,
    decreases shape, 1nat,
{
    lemma_fileless_forest(shape.children, shape.children.len() as int);
    assert(shape.children.take(shape.children.len() as int) == shape.children);
}

proof fn lemma_fileless_forest(trees: Seq<Shape>, n: int)
    requires
        0 <= n <= trees.len(),
        forall|i: int| 0 <= i < trees.len() ==> !(#[trigger] trees[i]).holds_file(),
    ensures
        forest_total(trees.take(n)) == 0,
    decreases trees, 0nat, n,
{
    if n > 0 {
        lemma_fileless_forest(trees, n - 1);
        lemma_fileless_total(trees[n - 1]);
        assert(trees.take(n).drop_last() == trees.take(n - 1));
        assert(trees.take(n).last() == trees[n - 1]);
    }
}

/// Pruning changes no sum: what is cut away held no file.
proof fn lemma_cut_measured(shape: Shape)
    requires
        measured(shape),
    ensures
        measured(cut(shape)),
        files_total(cut(shape)) == files_total(shape),
    decreases shape, 1nat,
{
    if shape.node.is_dir() {
        lemma_cut_all_measured(shape.children, shape.children.len() as int);
        assert(shape.children.take(shape.children.len() as int) == shape.children);
    }
}

proof fn lemma_cut_all_measured(trees: Seq<Shape>, n: int)
    requires
        0 <= n <= trees.len(),
        forall|i: int| 0 <= i < trees.len() ==> measured(#[trigger] trees[i]),
    ensures
        forest_total(cut_all(trees.take(n))) == forest_total(trees.take(n)),
        forall|i: int|
            0 <= i < cut_all(trees.take(n)).len() ==> measured(#[trigger] cut_all(trees.take(n))[i]),
    decreases trees, 0nat, n,
{
    if n > 0 {
        let part = trees.take(n);
        let init = trees.take(n - 1);
        assert(part.drop_last() == init);
        assert(part.last() == trees[n - 1]);
        lemma_cut_all_measured(trees, n - 1);
        lemma_cut_measured(trees[n - 1]);
        if trees[n - 1].holds_file() {
            let kept = cut_all(part);
            assert(kept.drop_last() == cut_all(init));
            assert(kept.last() == cut(trees[n - 1]));
            assert forall|i: int| 0 <= i < kept.len() implies measured(#[trigger] kept[i]) by {
                if i < kept.len() - 1 {
                    assert(kept[i] == cut_all(init)[i]);
                }
            }
        } else {
            lemma_fileless_total(trees[n - 1]);
        }
    }
}

/// Sizes add up: in a tree that is built from entries, every directory has
/// the size that the files below it add up to, and none where that is zero.
/// (A sum that no size can hold is shown as the largest size there is.)
pub proof fn lemma_sizes_add_up(entries: Seq<Entry>, ctx: Context)
    requires
        observed(entries).root is Some,
    ensures
        measured(planted(observed(entries), ctx)),
{
    let collected = observed(entries);
    lemma_observed_plain(entries);
    let order = Order { key: ctx.sort, dirs_first: ctx.dirs_first };
    lemma_grown_measured(collected.slots, collected.root.unwrap(), order, collected.slots.len());
    let tree = grown(collected.slots, collected.root.unwrap(), order, collected.slots.len()).0;
    lemma_cut_measured(tree);
}

/// Whether something in the tree that is no directory has a size above zero.
pub open spec fn holds_bytes(shape: Shape) -> bool
    decreases shape,
{
    if shape.node.is_dir() {
        exists|i: int| 0 <= i < shape.children.len() && holds_bytes(#[trigger] shape.children[i])
    } else {
        shape.node.contribution() > 0
    }
}

/// A tree adds up to more than nothing where one of its files does, and only
/// there: so a measured directory has a size exactly where a file below it
/// has one above zero.
pub proof fn lemma_total_positive(shape: Shape)
    ensures
        files_total(shape) > 0 <==> holds_bytes(shape),
        sized(files_total(shape)) is Some <==> holds_bytes(shape),
    decreases shape, 1nat,
{
    if shape.node.is_dir() {
        lemma_forest_positive(shape.children, shape.children.len() as int);
        assert(shape.children.take(shape.children.len() as int) == shape.children);
    }
}

proof fn lemma_forest_positive(trees: Seq<Shape>, n: int)
    requires
        0 <= n <= trees.len(),
    ensures
        forest_total(trees.take(n)) > 0 <==> exists|i: int|
            0 <= i < n && holds_bytes(#[trigger] trees[i]),
    decreases trees, 0nat, n,
{
    if n > 0 {
        lemma_forest_positive(trees, n - 1);
        lemma_total_positive(trees[n - 1]);
        assert(trees.take(n).drop_last() == trees.take(n - 1));
        assert(trees.take(n).last() == trees[n - 1]);
        if forest_total(trees.take(n - 1)) > 0 {
            let i = choose|i: int| 0 <= i < n - 1 && holds_bytes(#[trigger] trees[i]);
            assert(holds_bytes(trees[i]));
        }
        if exists|i: int| 0 <= i < n && holds_bytes(#[trigger] trees[i]) {
            let i = choose|i: int| 0 <= i < n && holds_bytes(#[trigger] trees[i]);
            if i < n - 1 {
                assert(holds_bytes(trees[i]));
            }
        }
    }
}

/// No tree stands behind one that it has to come before.
pub open spec fn in_order(trees: Seq<Shape>, order: Order) -> bool {
    forall|i: int, j: int|
        0 <= i < j < trees.len() ==> !goes_before(
            (#[trigger] trees[j]).node,
            (#[trigger] trees[i]).node,
            order,
        )
}

proof fn lemma_bytes_one_way(a: Seq<u8>, b: Seq<u8>)
    ensures
        bytes_before(a, b) ==> !bytes_before(b, a),
    decreases a.len(),
{
    if a.len() > 0 && b.len() > 0 && a[0] == b[0] {
        lemma_bytes_one_way(a.drop_first(), b.drop_first());
    }
}

proof fn lemma_bytes_chain(a: Seq<u8>, b: Seq<u8>, c: Seq<u8>)
    requires
        !bytes_before(a, b),
        !bytes_before(b, c),
    ensures
        !bytes_before(a, c),
    decreases a.len(),
{
    if a.len() > 0 && b.len() > 0 && c.len() > 0 && a[0] == b[0] && b[0] == c[0] {
        lemma_bytes_chain(a.drop_first(), b.drop_first(), c.drop_first());
    }
}

/// Of two nodes at most one has to come before the other.
pub proof fn lemma_goes_before_one_way(a: Node, b: Node, order: Order)
    ensures
        goes_before(a, b, order) ==> !goes_before(b, a, order),
{
    lemma_bytes_one_way(
        vstd::utf8::encode_utf8(a.entry.name@),
        vstd::utf8::encode_utf8(b.entry.name@),
    );
}

/// Where `a` need not come before `b` nor `b` before `c`, `a` need not come
/// before `c`.
pub proof fn lemma_goes_before_chain(a: Node, b: Node, c: Node, order: Order)
    requires
        !goes_before(a, b, order),
        !goes_before(b, c, order),
    ensures
        !goes_before(a, c, order),
{
    let x = vstd::utf8::encode_utf8(a.entry.name@);
    let y = vstd::utf8::encode_utf8(b.entry.name@);
    let z = vstd::utf8::encode_utf8(c.entry.name@);
    if !bytes_before(x, y) && !bytes_before(y, z) {
        lemma_bytes_chain(x, y, z);
    }
    lemma_bytes_one_way(x, y);
    lemma_bytes_one_way(y, z);
    lemma_bytes_one_way(x, z);
}

proof fn lemma_inserted_in_order(sorted: Seq<Shape>, tree: Shape, order: Order)
    requires
        in_order(sorted, order),
    ensures
        in_order(inserted(sorted, tree, order), order),
    decreases sorted.len(),
{
    let out = inserted(sorted, tree, order);
    if sorted.len() == 0 {
    } else if goes_before(tree.node, sorted.last().node, order) {
        let init = sorted.drop_last();
        let last = sorted.last();
        assert(in_order(init, order)) by {
            assert forall|i: int, j: int| 0 <= i < j < init.len() implies !goes_before(
                (#[trigger] init[j]).node,
                (#[trigger] init[i]).node,
                order,
            ) by {
                assert(init[i] == sorted[i] && init[j] == sorted[j]);
            }
        }
        lemma_inserted_in_order(init, tree, order);
        lemma_inserted_total(init, tree, order);
        let inner = inserted(init, tree, order);
        assert forall|i: int, j: int| 0 <= i < j < out.len() implies !goes_before(
            (#[trigger] out[j]).node,
            (#[trigger] out[i]).node,
            order,
        ) by {
            if j < inner.len() {
                assert(out[i] == inner[i] && out[j] == inner[j]);
            } else {
                assert(out[j] == last);
                assert(out[i] == inner[i]);
                if inner[i] == tree {
                    lemma_goes_before_one_way(tree.node, last.node, order);
                } else {
                    let k = choose|k: int| 0 <= k < init.len() && inner[i] == init[k];
                    assert(init[k] == sorted[k]);
                    assert(last == sorted[sorted.len() - 1]);
                }
            }
        }
    } else {
        assert forall|i: int, j: int| 0 <= i < j < out.len() implies !goes_before(
            (#[trigger] out[j]).node,
            (#[trigger] out[i]).node,
            order,
        ) by {
            if j < sorted.len() {
                assert(out[i] == sorted[i] && out[j] == sorted[j]);
            } else {
                assert(out[j] == tree);
                assert(out[i] == sorted[i]);
                let top = sorted.len() - 1;
                if i < top {
                    assert(!goes_before(sorted[top].node, sorted[i].node, order));
                    lemma_goes_before_chain(tree.node, sorted[top].node, sorted[i].node, order);
                }
            }
        }
    }
}

/// Siblings stand in order: in an arrangement no tree stands behind one
/// that it has to come before.
pub proof fn lemma_arranged_in_order(trees: Seq<Shape>, order: Order)
    ensures
        in_order(arranged(trees, order), order),
    decreases trees.len(),
{
    if trees.len() > 0 {
        lemma_arranged_in_order(trees.drop_last(), order);
        lemma_inserted_in_order(arranged(trees.drop_last(), order), trees.last(), order);
    }
}

/// Without a key and without directories first, an arrangement leaves the
/// trees in the order in which they came.
pub proof fn lemma_arranged_unsorted(trees: Seq<Shape>)
    ensures
        arranged(trees, Order { key: None, dirs_first: false }) == trees,
    decreases trees.len(),
{
    if trees.len() > 0 {
        lemma_arranged_unsorted(trees.drop_last());
        assert(trees.drop_last().push(trees.last()) == trees);
    }
}

proof fn lemma_inserted_same_trees(sorted: Seq<Shape>, tree: Shape, order: Order)
    ensures
        inserted(sorted, tree, order).to_multiset() == sorted.to_multiset().insert(tree),
    decreases sorted.len(),
{
    let out = inserted(sorted, tree, order);
    if sorted.len() == 0 {
        assert(out == sorted.push(tree));
        sorted.to_multiset_ensures();
    } else if goes_before(tree.node, sorted.last().node, order) {
        let init = sorted.drop_last();
        let inner = inserted(init, tree, order);
        lemma_inserted_same_trees(init, tree, order);
        inner.to_multiset_ensures();
        init.to_multiset_ensures();
        assert(init.push(sorted.last()) == sorted);
        assert(out.to_multiset() =~= sorted.to_multiset().insert(tree));
    } else {
        sorted.to_multiset_ensures();
    }
}

/// An arrangement holds the trees that it was made of, each as often as it
/// came.
pub proof fn lemma_arranged_same_trees(trees: Seq<Shape>, order: Order)
    ensures
        arranged(trees, order).to_multiset() == trees.to_multiset(),
    decreases trees.len(),
{
    if trees.len() > 0 {
        let init = trees.drop_last();
        lemma_arranged_same_trees(init, order);
        lemma_inserted_same_trees(arranged(init, order), trees.last(), order);
        init.to_multiset_ensures();
        assert(init.push(trees.last()) == trees);
    } else {
        assert(trees =~= Seq::<Shape>::empty());
    }
}

} // verus!
