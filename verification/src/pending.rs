//! The index of children that wait for their directory: for each directory
//! path, the nodes that name it as their parent, in the order in which they
//! were found. A path may get its children before the directory itself is
//! seen.

use indextree::NodeId;
use vstd::prelude::*;

verus! {

/// What waits under one path.
pub struct Slot<T> {
    pub path: Seq<char>,
    pub children: Seq<T>,
}

/// Where the slot of `path` stands: the first place with that path, or the
/// number of slots where there is none.
pub open spec fn place<T>(slots: Seq<Slot<T>>, path: Seq<char>) -> int
    decreases slots.len(),
{
    if slots.len() == 0 {
        0
    } else if slots[0].path == path {
        0
    } else {
        1 + place(slots.drop_first(), path)
    }
}

/// The slots with one for `path` among them: a new, empty one at the end
/// where there was none.
pub open spec fn ensured<T>(slots: Seq<Slot<T>>, path: Seq<char>) -> Seq<Slot<T>> {
    if place(slots, path) < slots.len() {
        slots
    } else {
        slots.push(Slot { path, children: Seq::empty() })
    }
}

/// The slots with `child` at the end of the slot of `path`, which is made
/// where there was none.
pub open spec fn filed<T>(slots: Seq<Slot<T>>, path: Seq<char>, child: T) -> Seq<Slot<T>> {
    let at = place(slots, path);
    if at < slots.len() {
        slots.update(at, Slot { path: slots[at].path, children: slots[at].children.push(child) })
    } else {
        slots.push(Slot { path, children: seq![child] })
    }
}

/// What waits under `path`: nothing where there is no slot for it.
pub open spec fn waiting<T>(slots: Seq<Slot<T>>, path: Seq<char>) -> Seq<T> {
    let at = place(slots, path);
    if at < slots.len() {
        slots[at].children
    } else {
        Seq::empty()
    }
}

/// The slots without the one of `path`.
pub open spec fn without<T>(slots: Seq<Slot<T>>, path: Seq<char>) -> Seq<Slot<T>> {
    let at = place(slots, path);
    if at < slots.len() {
        slots.remove(at)
    } else {
        slots
    }
}

/// `place` is within bounds or just past them, no slot before it has the
/// path, and the slot at it has.
pub proof fn lemma_place<T>(slots: Seq<Slot<T>>, path: Seq<char>)
    ensures
        0 <= place(slots, path) <= slots.len(),
        forall|i: int| 0 <= i < place(slots, path) ==> (#[trigger] slots[i]).path != path,
        place(slots, path) < slots.len() ==> slots[place(slots, path)].path == path,
    decreases slots.len(),
{
    if slots.len() > 0 && slots[0].path != path {
        let rest = slots.drop_first();
        lemma_place(rest, path);
        assert forall|i: int| 0 <= i < place(slots, path) implies (#[trigger] slots[i]).path
            != path by {
            if i > 0 {
                assert(slots[i] == rest[i - 1]);
            }
        }
        if place(slots, path) < slots.len() {
            assert(slots[place(slots, path)] == rest[place(rest, path)]);
        }
    }
}

/// The first slot with the path is its place.
pub proof fn lemma_place_found<T>(slots: Seq<Slot<T>>, path: Seq<char>, at: int)
    requires
        0 <= at <= slots.len(),
        forall|i: int| 0 <= i < at ==> (#[trigger] slots[i]).path != path,
        at < slots.len() ==> slots[at].path == path,
    ensures
        place(slots, path) == at,
{
    lemma_place(slots, path);
    let found = place(slots, path);
    if found < at {
        assert(slots[found].path == path);
    } else if at < found {
        assert(slots[at].path == path);
    }
}

/// The children that wait for their directories, by path. The ids stand for
/// nodes of the arena that the index is used with.
pub struct Pending {
    paths: Vec<String>,
    lists: Vec<Vec<NodeId>>,
}

impl Pending {
    /// Every path has its list.
    pub closed spec fn wf(&self) -> bool {
        self.paths.len() == self.lists.len()
    }

    /// The slots in the order in which they were made.
    pub closed spec fn view(&self) -> Seq<Slot<NodeId>> {
        Seq::new(
            self.paths.len() as nat,
            |i: int| Slot { path: self.paths[i]@, children: self.lists[i]@ },
        )
    }

    /// An index without slots.
    pub fn new() -> (pending: Pending)
        ensures
            pending.wf(),
            pending@ == Seq::<Slot<NodeId>>::empty(),
    {
        let pending = Pending { paths: Vec::new(), lists: Vec::new() };
        assert(pending@ == Seq::<Slot<NodeId>>::empty());
        pending
    }

    fn find(&self, path: &String) -> (at: usize)
        requires
            self.wf(),
        ensures
            at == place(self@, path@),
            at <= self@.len(),
    {
        let mut at: usize = 0;
        while at < self.paths.len()
            invariant
                self.wf(),
                at <= self.paths.len(),
                forall|i: int| 0 <= i < at ==> (#[trigger] self@[i]).path != path@,
            decreases self.paths.len() - at,
        {
            if self.paths[at] == *path {
                proof {
                    lemma_place_found(self@, path@, at as int);
                }
                return at;
            }
            at += 1;
        }
        proof {
            lemma_place_found(self@, path@, at as int);
        }
        at
    }

    /// Makes sure that `path` has a slot.
    pub fn ensure(&mut self, path: &String)
        requires
            old(self).wf(),
        ensures
            final(self).wf(),
            final(self)@ == ensured(old(self)@, path@),
    {
        let at = self.find(path);
        if at == self.paths.len() {
            self.paths.push(path.clone());
            self.lists.push(Vec::new());
            assert(self@ == old(self)@.push(Slot { path: path@, children: Seq::empty() }));
        }
    }

    /// Puts `child` at the end of what waits under `path`.
    pub fn file(&mut self, path: &String, child: NodeId)
        requires
            old(self).wf(),
        ensures
            final(self).wf(),
            final(self)@ == filed(old(self)@, path@, child),
    {
        let at = self.find(path);
        if at == self.paths.len() {
            let mut list: Vec<NodeId> = Vec::new();
            list.push(child);
            self.paths.push(path.clone());
            self.lists.push(list);
            assert(self@ == old(self)@.push(Slot { path: path@, children: seq![child] }));
        } else {
            let mut list: Vec<NodeId> = Vec::new();
            std::mem::swap(&mut list, &mut self.lists[at]);
            list.push(child);
            self.lists[at] = list;
            assert(self@ == old(self)@.update(
                at as int,
                Slot { path: old(self)@[at as int].path, children: old(self)@[at as int].children.push(child) },
            ));
        }
    }

    /// Takes out the slot of `path` and hands over what waited there.
    pub fn take(&mut self, path: &String) -> (children: Vec<NodeId>)
        requires
            old(self).wf(),
        ensures
            final(self).wf(),
            children@ == waiting(old(self)@, path@),
            final(self)@ == without(old(self)@, path@),
    {
        let at = self.find(path);
        if at == self.paths.len() {
            Vec::new()
        } else {
            let _ = self.paths.remove(at);
            let children = self.lists.remove(at);
            assert(self@ == old(self)@.remove(at as int));
            children
        }
    }
}

} // verus!
