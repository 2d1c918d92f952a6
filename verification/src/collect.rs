//! The consumer's side of a walk: entries come in one by one, in any order,
//! and become nodes that wait under the path of their parent.

use crate::arena::{arena_children, arena_items, new_arena, new_node};
use crate::assemble::{assemble_tree, lone, planted};
use crate::context::Context;
use crate::order::Order;
use crate::prune::prune_directories;
use crate::shape::cut;
use crate::tree::{Tree, TreeResult};
use crate::error::Error;
use crate::node::{Entry, FileKind, Inode, Node};
use crate::pending::{ensured, filed, lemma_place, lemma_place_found, place, Pending, Slot};
use indextree::{Arena, NodeId};
use std::collections::HashSet;
use vstd::prelude::*;
use vstd::std_specs::hash::group_hash_axioms;

verus! {

/// What has been collected: the root if it has been seen, the nodes that
/// wait under each path, and the identities of the hard-linked files that
/// have been counted.
pub struct Collected {
    pub root: Option<Node>,
    pub slots: Seq<Slot<Node>>,
    pub inodes: Set<(u64, u64)>,
}

impl Collected {
    /// Whether `entry` is the directory that the walk started at.
    pub open spec fn is_root(entry: Entry) -> bool {
        entry.is_dir() && entry.depth == 0
    }

    /// Whether `entry` is a further name of a file that has been counted.
    pub open spec fn repeats(self, entry: Entry) -> bool {
        entry.inode matches Some(inode) && inode.nlink > 1 && self.inodes.contains(
            inode.identity(),
        )
    }

    /// Whether `entry` has to be filed under a parent and names none.
    pub open spec fn lacks_parent(self, entry: Entry) -> bool {
        !Self::is_root(entry) && !self.repeats(entry) && entry.parent is None
    }

    /// What has been collected once `entry` has been seen. A directory gets a
    /// slot. The root becomes the root and is filed nowhere. A further name
    /// of a counted file is dropped. Anything else is counted, if it has
    /// several names, and filed under its parent's path, if it names one.
    pub open spec fn after(self, entry: Entry) -> Collected {
        let slots = if entry.is_dir() {
            ensured(self.slots, entry.path@)
        } else {
            self.slots
        };
        if Self::is_root(entry) {
            Collected { root: Some(fresh(entry)), slots, inodes: self.inodes }
        } else if self.repeats(entry) {
            Collected { root: self.root, slots, inodes: self.inodes }
        } else {
            let inodes = match entry.inode {
                Some(inode) if inode.nlink > 1 => self.inodes.insert(inode.identity()),
                _ => self.inodes,
            };
            match entry.parent {
                Some(parent) => Collected {
                    root: self.root,
                    slots: filed(slots, parent@, fresh(entry)),
                    inodes,
                },
                None => Collected { root: self.root, slots, inodes },
            }
        }
    }

    /// How many nodes wait in the slots.
    pub open spec fn waiting_nodes(self) -> nat {
        held(self.slots)
    }
}

/// The node that an entry starts as.
pub open spec fn fresh(entry: Entry) -> Node {
    Node { entry, size: entry.initial_size() }
}

/// How many children the slots hold in all.
pub open spec fn held<T>(slots: Seq<Slot<T>>) -> nat
    decreases slots.len(),
{
    if slots.len() == 0 {
        0
    } else {
        held(slots.drop_last()) + slots.last().children.len()
    }
}

/// The slots with each id replaced by the node that it stands for.
pub open spec fn nodes_of(slots: Seq<Slot<NodeId>>, items: Map<NodeId, Node>) -> Seq<Slot<Node>> {
    Seq::new(
        slots.len(),
        |s: int|
            Slot {
                path: slots[s].path,
                children: Seq::new(slots[s].children.len(), |i: int| items[slots[s].children[i]]),
            },
    )
}

/// Whether `id` waits in one of the slots.
pub open spec fn waits(slots: Seq<Slot<NodeId>>, id: NodeId) -> bool {
    exists|s: int, i: int|
        0 <= s < slots.len() && 0 <= i < slots[s].children.len() && #[trigger] slots[s].children[i]
            == id
}

/// No id waits in two places.
pub open spec fn apart(slots: Seq<Slot<NodeId>>) -> bool {
    forall|s: int, i: int, t: int, j: int|
        0 <= s < slots.len() && 0 <= i < slots[s].children.len() && 0 <= t < slots.len() && 0 <= j
            < slots[t].children.len() && #[trigger] slots[s].children[i]
            == #[trigger] slots[t].children[j] ==> s == t && i == j
}

/// Every node of the arena stands alone: none has a child.
pub open spec fn isolated(items: Map<NodeId, Node>, children: Map<NodeId, Seq<NodeId>>) -> bool {
    &&& forall|id: NodeId| items.contains_key(id) <==> children.contains_key(id)
    &&& forall|id: NodeId| children.contains_key(id) ==> (#[trigger] children[id]).len() == 0
}

/// Ids that stand for the same nodes in two arenas give the same slots.
pub proof fn lemma_nodes_of_same(
    slots: Seq<Slot<NodeId>>,
    items: Map<NodeId, Node>,
    others: Map<NodeId, Node>,
)
    requires
        forall|id: NodeId| waits(slots, id) ==> items[id] == others[id],
    ensures
        nodes_of(slots, items) == nodes_of(slots, others),
{
    assert forall|s: int| 0 <= s < slots.len() implies nodes_of(slots, items)[s] == nodes_of(
        slots,
        others,
    )[s] by {
        assert forall|i: int| 0 <= i < slots[s].children.len() implies items[slots[s].children[i]]
            == others[slots[s].children[i]] by {
            assert(waits(slots, slots[s].children[i]));
        }
        assert(nodes_of(slots, items)[s].children =~= nodes_of(slots, others)[s].children);
    }
}

/// Making sure of a slot is the same for ids and for the nodes they stand for.
pub proof fn lemma_nodes_of_ensured(
    slots: Seq<Slot<NodeId>>,
    items: Map<NodeId, Node>,
    path: Seq<char>,
)
    ensures
        nodes_of(ensured(slots, path), items) == ensured(nodes_of(slots, items), path),
{
    lemma_place(slots, path);
    lemma_place_by_paths(slots, nodes_of(slots, items), path);
    let a = nodes_of(ensured(slots, path), items);
    let b = ensured(nodes_of(slots, items), path);
    assert(a.len() == b.len());
    assert forall|s: int| 0 <= s < a.len() implies a[s] == b[s] by {
        assert(a[s].children =~= b[s].children);
    }
}

/// Slots with the same paths have the same places.
pub proof fn lemma_place_by_paths<A, B>(a: Seq<Slot<A>>, b: Seq<Slot<B>>, path: Seq<char>)
    requires
        a.len() == b.len(),
        forall|i: int| 0 <= i < a.len() ==> (#[trigger] a[i]).path == b[i].path,
    ensures
        place(a, path) == place(b, path),
{
    lemma_place(a, path);
    let at = place(a, path);
    assert forall|i: int| 0 <= i < at implies (#[trigger] b[i]).path != path by {
        assert(a[i].path != path);
    }
    if at < a.len() {
        assert(a[at].path == b[at].path);
    }
    lemma_place_found(b, path, at);
}

/// One number for the pair of a device and a file on it.
pub open spec fn packed(dev: u64, ino: u64) -> u128 {
    (dev as u128 * 0x1_0000_0000_0000_0000u128 + ino as u128) as u128
}

fn pack(inode: &Inode) -> (key: u128)
    ensures
        key == packed(inode.dev, inode.ino),
{
    inode.dev as u128 * 0x1_0000_0000_0000_0000u128 + inode.ino as u128
}

proof fn lemma_packed_apart(a: (u64, u64), b: (u64, u64))
    ensures
        packed(a.0, a.1) == packed(b.0, b.1) <==> a == b,
{
}

/// Takes the entries of a walk and keeps what the tree will be made of.
pub struct Collector {
    arena: Arena<Node>,
    pending: Pending,
    inodes: HashSet<u128>,
    root: Option<NodeId>,
}

impl Collector {
    /// The nodes stand alone in the arena, the ids that wait are ids of
    /// nodes, none of them waits twice, and the root does not wait.
    pub closed spec fn wf(&self) -> bool {
        let items = arena_items(self.arena);
        &&& self.pending.wf()
        &&& isolated(items, arena_children(self.arena))
        &&& apart(self.pending@)
        &&& forall|id: NodeId| waits(self.pending@, id) ==> items.contains_key(id)
        &&& match self.root {
            Some(root) => items.contains_key(root) && !waits(self.pending@, root),
            None => true,
        }
    }

    pub closed spec fn view(&self) -> Collected {
        let items = arena_items(self.arena);
        Collected {
            root: match self.root {
                Some(root) => Some(items[root]),
                None => None,
            },
            slots: nodes_of(self.pending@, items),
            inodes: Set::new(|pair: (u64, u64)| self.inodes@.contains(packed(pair.0, pair.1))),
        }
    }

    /// A collector that has seen nothing.
    pub fn new() -> (collector: Collector)
        ensures
            collector.wf(),
            collector@ == (Collected { root: None, slots: Seq::empty(), inodes: Set::empty() }),
    {
        let collector = Collector {
            arena: new_arena(),
            pending: Pending::new(),
            inodes: HashSet::new(),
            root: None,
        };
        assert(collector@.slots == Seq::<Slot<Node>>::empty());
        assert(collector@.inodes == Set::<(u64, u64)>::empty());
        collector
    }

    /// Takes one entry in. Fails, with `ExpectedParent`, on an entry that has
    /// to be filed under its parent and names none.
    pub fn observe(&mut self, entry: Entry) -> (result: Result<(), Error>)
        requires
            old(self).wf(),
        ensures
            final(self).wf(),
            final(self)@ == old(self)@.after(entry),
            old(self)@.lacks_parent(entry) ==> result == Err::<(), Error>(Error::ExpectedParent),
            !old(self)@.lacks_parent(entry) ==> result == Ok::<(), Error>(()),
    {
        broadcast use group_hash_axioms;

        let ghost items = arena_items(self.arena);
        let ghost before = self.pending@;
        let dir = match entry.kind {
            FileKind::Directory => true,
            _ => false,
        };
        if dir {
            self.pending.ensure(&entry.path);
            proof {
                lemma_place(before, entry.path@);
                lemma_nodes_of_ensured(before, items, entry.path@);
                assert(nodes_of(self.pending@, items) == ensured(
                    nodes_of(before, items),
                    entry.path@,
                ));
                assert forall|id: NodeId| waits(self.pending@, id) implies waits(before, id) by {
                    let (s, i) = choose|s: int, i: int|
                        0 <= s < self.pending@.len() && 0 <= i < self.pending@[s].children.len()
                            && #[trigger] self.pending@[s].children[i] == id;
                    assert(before[s].children[i] == id);
                }
                assert(apart(self.pending@)) by {
                    assert forall|s: int, i: int, t: int, j: int|
                        0 <= s < self.pending@.len() && 0 <= i < self.pending@[s].children.len()
                            && 0 <= t < self.pending@.len() && 0 <= j
                            < self.pending@[t].children.len()
                            && #[trigger] self.pending@[s].children[i]
                            == #[trigger] self.pending@[t].children[j] implies s == t && i == j by {
                        assert(before[s].children[i] == before[t].children[j]);
                    }
                }
            }
            if entry.depth == 0 {
                let root = new_node(&mut self.arena, Node::new(entry));
                self.root = Some(root);
                proof {
                    lemma_nodes_of_same(self.pending@, arena_items(self.arena), items);
                    assert(nodes_of(self.pending@, arena_items(self.arena)) == nodes_of(
                        self.pending@,
                        items,
                    ));
                    assert(self@.inodes == old(self)@.inodes);
                }
                return Ok(());
            }
        }
        let ghost slots = self.pending@;
        let ghost seen = self.inodes@;
        assert(self@.inodes == old(self)@.inodes);
        match entry.inode {
            Some(inode) => {
                if inode.nlink > 1 {
                    let key = pack(&inode);
                    if !self.inodes.insert(key) {
                        assert(self.inodes@ == seen);
                        assert(self@.inodes == old(self)@.inodes);
                        return Ok(());
                    }
                    proof {
                        assert forall|pair: (u64, u64)|
                            self@.inodes.contains(pair) <==> old(self)@.inodes.insert(
                                inode.identity(),
                            ).contains(pair) by {
                            lemma_packed_apart(pair, inode.identity());
                        }
                        assert(self@.inodes == old(self)@.inodes.insert(inode.identity()));
                    }
                }
            },
            None => {},
        }
        let ghost counted = self@.inodes;
        let parent = match &entry.parent {
            Some(parent) => parent.clone(),
            None => {
                return Err(Error::ExpectedParent);
            },
        };
        let id = new_node(&mut self.arena, Node::new(entry));
        self.pending.file(&parent, id);
        proof {
            let filled = arena_items(self.arena);
            lemma_place(slots, parent@);
            lemma_place_by_paths(slots, nodes_of(slots, items), parent@);
            let at = place(slots, parent@);
            assert forall|s: int| 0 <= s < self.pending@.len() implies nodes_of(
                self.pending@,
                filled,
            )[s] == filed(nodes_of(slots, items), parent@, fresh(entry))[s] by {
                if s < slots.len() {
                    assert forall|i: int| 0 <= i < slots[s].children.len() implies filled[slots[s].children[i]]
                        == items[slots[s].children[i]] by {
                        assert(waits(slots, slots[s].children[i]));
                    }
                }
                assert(nodes_of(self.pending@, filled)[s].children == filed(
                    nodes_of(slots, items),
                    parent@,
                    fresh(entry),
                )[s].children);
            }
            assert(nodes_of(self.pending@, filled) == filed(
                nodes_of(slots, items),
                parent@,
                fresh(entry),
            ));
            assert forall|x: NodeId| waits(self.pending@, x) implies filled.contains_key(x) by {
                let (s, i) = choose|s: int, i: int|
                    0 <= s < self.pending@.len() && 0 <= i < self.pending@[s].children.len()
                        && #[trigger] self.pending@[s].children[i] == x;
                if x != id {
                    assert(slots[s].children[i] == x);
                    assert(waits(slots, x));
                }
            }
            assert(apart(self.pending@)) by {
                assert forall|s: int, i: int, t: int, j: int|
                    0 <= s < self.pending@.len() && 0 <= i < self.pending@[s].children.len() && 0
                        <= t < self.pending@.len() && 0 <= j < self.pending@[t].children.len()
                        && #[trigger] self.pending@[s].children[i]
                        == #[trigger] self.pending@[t].children[j] implies s == t && i == j by {
                    let x = self.pending@[s].children[i];
                    if x == id {
                        if !(s == at && i == self.pending@[at].children.len() - 1) {
                            assert(slots[s].children[i] == id);
                            assert(waits(slots, id));
                        }
                        if !(t == at && j == self.pending@[at].children.len() - 1) {
                            assert(slots[t].children[j] == id);
                            assert(waits(slots, id));
                        }
                    } else {
                        assert(slots[s].children[i] == slots[t].children[j]);
                    }
                }
            }
            match self.root {
                Some(root) => {
                    if waits(self.pending@, root) {
                        let (s, i) = choose|s: int, i: int|
                            0 <= s < self.pending@.len() && 0 <= i
                                < self.pending@[s].children.len()
                                && #[trigger] self.pending@[s].children[i] == root;
                        assert(slots[s].children[i] == root);
                        assert(waits(slots, root));
                    }
                },
                None => {},
            }
            assert(self@.inodes == counted);
        }
        Ok(())
    }

    /// Makes the tree of what has been collected. Fails with `MissingRoot`
    /// where the directory that the walk started at was never seen.
    pub fn finish(self, ctx: Context) -> (result: TreeResult<Tree>)
        requires
            self.wf(),
        ensures
            self@.root is None ==> result matches Err(Error::MissingRoot),
            self@.root is Some ==> (result matches Ok(tree) && tree.wf() && tree.spec_context()
                == ctx && tree@ == planted(self@, ctx)),
    {
        let ghost collected = self@;
        let Collector { arena, pending, inodes: _, root } = self;
        let mut arena = arena;
        let mut pending = pending;
        match root {
            None => Err(Error::MissingRoot),
            Some(root) => {
                let order = Order::of(&ctx);
                let ghost items = arena_items(arena);
                let ghost children = arena_children(arena);
                proof {
                    assert forall|id: NodeId| waits(pending@, id) || id == root implies lone(
                        items,
                        children,
                        id,
                    ) by {
                        assert(children[id].len() == 0);
                    }
                    assert(nodes_of(pending@, items).len() == pending@.len());
                }
                let ghost fuel = pending@.len();
                let grown = assemble_tree(&mut arena, root, &mut pending, &order, Ghost(fuel));
                if ctx.prune {
                    prune_directories(root, &mut arena, grown);
                    Ok(Tree::assembled(arena, root, ctx, Ghost(cut(grown@))))
                } else {
                    Ok(Tree::assembled(arena, root, ctx, grown))
                }
            },
        }
    }
}

} // verus!
