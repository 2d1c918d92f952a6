//! The finished tree.

use crate::arena::{arena_children, arena_items, descendants, node};
use crate::assemble::planted;
use crate::collect::{Collected, Collector};
use crate::context::Context;
use crate::error::Error;
use crate::node::{Entry, Node};
use crate::prune::prune_directories;
use crate::render::{diagram, write_tree};
use crate::shape::{cut, lemma_preorder_nodes, linked, linked_preorder, separate, Shape};
use indextree::{Arena, NodeId};
use vstd::prelude::*;

verus! {

pub type TreeResult<T> = Result<T, Error>;

/// Virtual data structure that represents local file-system hierarchy.
pub struct Tree {
    inner: Arena<Node>,
    root: NodeId,
    ctx: Context,
    shape: Ghost<Shape>,
}

/// What has been collected once all of `entries` have been seen, first to
/// last.
pub open spec fn observed(entries: Seq<Entry>) -> Collected
    decreases entries.len(),
{
    if entries.len() == 0 {
        Collected { root: None, slots: Seq::empty(), inodes: Set::empty() }
    } else {
        observed(entries.drop_last()).after(entries.last())
    }
}

/// Whether the entry at `at` has to be filed under its parent and names none.
pub open spec fn orphan_at(entries: Seq<Entry>, at: int) -> bool {
    0 <= at < entries.len() && observed(entries.take(at)).lacks_parent(entries[at])
}

impl Tree {
    /// The arena holds the tree below the root, and no node of it twice.
    pub closed spec fn wf(&self) -> bool {
        &&& linked(arena_items(self.inner), arena_children(self.inner), self.root, self.shape@)
        &&& separate(arena_children(self.inner), self.root, self.shape@)
    }

    /// The tree as a value.
    pub closed spec fn view(&self) -> Shape {
        self.shape@
    }

    pub closed spec fn spec_context(&self) -> Context {
        self.ctx
    }

    pub closed spec fn spec_inner(&self) -> Arena<Node> {
        self.inner
    }

    pub closed spec fn spec_root(&self) -> NodeId {
        self.root
    }

    /// Constructor for [Tree]: the tree that `inner` holds below `root`, which
    /// is well-formed where the arena holds a tree there.
    pub fn new(inner: Arena<Node>, root: NodeId, ctx: Context) -> (tree: Tree)
        ensures
            tree.spec_inner() == inner,
            tree.spec_root() == root,
            tree.spec_context() == ctx,
            tree.wf() <==> exists|shape: Shape|
                linked(arena_items(inner), arena_children(inner), root, shape) && separate(
                    arena_children(inner),
                    root,
                    shape,
                ),
            tree.wf() ==> linked(arena_items(inner), arena_children(inner), root, tree@),
    {
        let ghost shape = choose|shape: Shape|
            linked(arena_items(inner), arena_children(inner), root, shape) && separate(
                arena_children(inner),
                root,
                shape,
            );
        Tree { inner, root, ctx, shape: Ghost(shape) }
    }

    /// The tree that stands in `inner` below `root` as `shape`.
    pub(crate) fn assembled(inner: Arena<Node>, root: NodeId, ctx: Context, Ghost(shape): Ghost<Shape>) -> (tree:
        Tree)
        requires
            linked(arena_items(inner), arena_children(inner), root, shape),
            separate(arena_children(inner), root, shape),
        ensures
            tree.wf(),
            tree@ == shape,
            tree.spec_context() == ctx,
    {
        Tree { inner, root, ctx, shape: Ghost(shape) }
    }

    /// Builds the tree from the entries of a walk, in the order in which they
    /// were found. Fails with `ExpectedParent` where an entry has to be filed
    /// under its parent and names none, and else with `MissingRoot` where no
    /// entry is the directory that the walk started at.
    pub fn init(ctx: Context, entries: Vec<Entry>) -> (result: TreeResult<Tree>)
        ensures
            (exists|at: int| orphan_at(entries@, at)) ==> result matches Err(Error::ExpectedParent),
            !(exists|at: int| orphan_at(entries@, at)) && observed(entries@).root is None
                ==> result matches Err(Error::MissingRoot),
            !(exists|at: int| orphan_at(entries@, at)) && observed(entries@).root is Some
                ==> (result matches Ok(tree) && tree.wf() && tree.spec_context() == ctx && tree@
                == planted(observed(entries@), ctx)),
    {
        let ghost all = entries@;
        assert(all.len() == entries.len());
        let mut rest = entries;
        let mut backwards: Vec<Entry> = Vec::new();
        while rest.len() > 0
            invariant
                rest@.len() + backwards@.len() == all.len(),
                all.len() <= usize::MAX,
                rest@ == all.take(rest@.len() as int),
                forall|j: int|
                    0 <= j < backwards@.len() ==> backwards@[j] == all[all.len() - 1 - j],
            decreases rest@.len(),
        {
            let entry = rest.pop().unwrap();
            backwards.push(entry);
        }
        let mut collector = Collector::new();
        let mut seen: usize = 0;
        assert(all.take(0) == Seq::<Entry>::empty());
        while backwards.len() > 0
            invariant
                seen + backwards@.len() == all.len(),
                all.len() <= usize::MAX,
                all == entries@,
                forall|j: int|
                    0 <= j < backwards@.len() ==> backwards@[j] == all[all.len() - 1 - j],
                collector.wf(),
                collector@ == observed(all.take(seen as int)),
                forall|at: int| 0 <= at < seen ==> !orphan_at(all, at),
            decreases backwards@.len(),
        {
            let entry = backwards.pop().unwrap();
            assert(entry == all[seen as int]);
            proof {
                assert(all.take(seen + 1).drop_last() == all.take(seen as int));
                assert(all.take(seen + 1).last() == entry);
            }
            match collector.observe(entry) {
                Ok(_) => {},
                Err(error) => {
                    assert(orphan_at(all, seen as int));
                    return Err(error);
                },
            }
            seen += 1;
        }
        assert(all.take(all.len() as int) == all);
        collector.finish(ctx)
    }

    /// Maximum depth to display.
    pub fn level(&self) -> (level: usize)
        ensures
            level == (match self.spec_context().level {
                Some(level) => level,
                None => usize::MAX,
            }),
    {
        match self.ctx.level {
            Some(level) => level,
            None => usize::MAX,
        }
    }

    /// Grab a reference to [Context].
    pub fn context(&self) -> (ctx: &Context)
        ensures
            *ctx == self.spec_context(),
    {
        &self.ctx
    }

    /// Grabs a reference to `inner`.
    pub fn inner(&self) -> (inner: &Arena<Node>)
        ensures
            *inner == self.spec_inner(),
    {
        &self.inner
    }

    /// The nodes of the tree, each before its children, siblings first to
    /// last.
    pub fn nodes(&self) -> (nodes: Vec<&Node>)
        requires
            self.wf(),
        ensures
            nodes@.len() == self@.preorder().len(),
            forall|k: int| 0 <= k < nodes@.len() ==> *(#[trigger] nodes@[k]) == self@.preorder()[k],
    {
        let ids = descendants(&self.inner, self.root);
        let ghost items = arena_items(self.inner);
        let ghost listed = linked_preorder(arena_children(self.inner), self.root, self.shape@);
        proof {
            lemma_preorder_nodes(items, arena_children(self.inner), self.root, self.shape@);
        }
        let mut nodes: Vec<&Node> = Vec::new();
        let mut k: usize = 0;
        while k < ids.len()
            invariant
                k <= ids@.len(),
                ids@ == listed,
                listed.len() == self@.preorder().len(),
                items == arena_items(self.inner),
                forall|j: int|
                    0 <= j < listed.len() ==> items.contains_key(#[trigger] listed[j])
                        && items[listed[j]] == self@.preorder()[j],
                nodes@.len() == k,
                forall|j: int| 0 <= j < k ==> *(#[trigger] nodes@[j]) == self@.preorder()[j],
            decreases ids@.len() - k,
        {
            assert(items.contains_key(listed[k as int]));
            nodes.push(node(&self.inner, ids[k]));
            k += 1;
        }
        nodes
    }

    /// Removes every directory that holds no file, the root excepted.
    pub fn prune(&mut self)
        requires
            old(self).wf(),
        ensures
            final(self).wf(),
            final(self)@ == cut(old(self)@),
            final(self).spec_context() == old(self).spec_context(),
    {
        prune_directories(self.root, &mut self.inner, Ghost(self.shape@));
        self.shape = Ghost(cut(self.shape@));
    }

    /// The diagram of the tree: a line for the root, then a line for every
    /// node down to the deepest level that is shown, each node before its
    /// children.
    pub fn render(&self) -> (text: String)
        requires
            self.wf(),
        ensures
            text@ == diagram(self@, self.spec_context()),
    {
        write_tree(&self.inner, self.root, &self.ctx, Ghost(self.shape@))
    }
}

} // verus!
