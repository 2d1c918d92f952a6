//! The order of siblings: which of two nodes has to come first, and the
//! arrangement of a group that follows from it.

use crate::context::{Context, SortKey};
use crate::node::Node;
use crate::shape::Shape;
use vstd::prelude::*;
use vstd::utf8::encode_utf8;

verus! {

/// How the siblings of every group are ordered.
#[derive(Clone, Copy, Debug, PartialEq, Eq, Structural)]
pub struct Order {
    pub key: Option<SortKey>,
    pub dirs_first: bool,
}

impl Order {
    /// The order that `ctx` asks for.
    pub fn of(ctx: &Context) -> (order: Order)
        ensures
            order == (Order { key: ctx.sort, dirs_first: ctx.dirs_first }),
    {
        Order { key: ctx.sort, dirs_first: ctx.dirs_first }
    }
}

/// Whether `a` stands before `b` byte by byte: at the first place where they
/// differ `a` has the smaller byte, or `a` ends there and `b` does not.
pub open spec fn bytes_before(a: Seq<u8>, b: Seq<u8>) -> bool
    decreases a.len(),
{
    if b.len() == 0 {
        false
    } else if a.len() == 0 {
        true
    } else if a[0] != b[0] {
        a[0] < b[0]
    } else {
        bytes_before(a.drop_first(), b.drop_first())
    }
}

/// Whether `a` has to come before `b` by `key` alone.
pub open spec fn key_before(a: Node, b: Node, key: SortKey) -> bool {
    match key {
        SortKey::Name => bytes_before(encode_utf8(a.entry.name@), encode_utf8(b.entry.name@)),
        SortKey::Size => a.contribution() > b.contribution(),
        SortKey::SizeReverse => a.contribution() < b.contribution(),
    }
}

/// Whether `a` has to come before `b`. With directories first, a directory
/// comes before anything that is none; otherwise the key decides, and without
/// a key nothing has to come before anything.
pub open spec fn goes_before(a: Node, b: Node, order: Order) -> bool {
    if order.dirs_first && a.is_dir() != b.is_dir() {
        a.is_dir()
    } else {
        match order.key {
            Some(key) => key_before(a, b, key),
            None => false,
        }
    }
}

/// `sorted` with `tree` put in behind the last tree that it need not come
/// before.
pub open spec fn inserted(sorted: Seq<Shape>, tree: Shape, order: Order) -> Seq<Shape>
    decreases sorted.len(),
{
    if sorted.len() == 0 {
        seq![tree]
    } else if goes_before(tree.node, sorted.last().node, order) {
        inserted(sorted.drop_last(), tree, order).push(sorted.last())
    } else {
        sorted.push(tree)
    }
}

/// The trees in their final order: each is put in, in turn, behind the last
/// one that it need not come before, so that trees of which neither has to
/// come first stay as they were.
pub open spec fn arranged(trees: Seq<Shape>, order: Order) -> Seq<Shape>
    decreases trees.len(),
{
    if trees.len() == 0 {
        Seq::empty()
    } else {
        inserted(arranged(trees.drop_last(), order), trees.last(), order)
    }
}

/// Where `inserted` puts the tree: it has to come before everything from
/// `at` on, and not before what stands just in front of `at`.
pub proof fn lemma_inserted_at(sorted: Seq<Shape>, tree: Shape, order: Order, at: int)
    requires
        0 <= at <= sorted.len(),
        forall|i: int| at <= i < sorted.len() ==> goes_before(tree.node, (#[trigger] sorted[i]).node, order),
        at > 0 ==> !goes_before(tree.node, sorted[at - 1].node, order),
    ensures
        inserted(sorted, tree, order) == sorted.insert(at, tree),
    decreases sorted.len(),
{
    if sorted.len() == 0 {
        assert(sorted.insert(at, tree) == seq![tree]);
    } else if at == sorted.len() {
        assert(sorted.insert(at, tree) == sorted.push(tree));
    } else {
        assert(goes_before(tree.node, sorted[sorted.len() - 1].node, order));
        let init = sorted.drop_last();
        lemma_inserted_at(init, tree, order, at);
        assert(init.insert(at, tree).push(sorted.last()) == sorted.insert(at, tree));
    }
}

fn name_before(a: &str, b: &str) -> (before: bool)
    ensures
        before == bytes_before(encode_utf8(a@), encode_utf8(b@)),
{
    let x = a.as_bytes();
    let y = b.as_bytes();
    let mut i: usize = 0;
    assert(x@.skip(0) == x@ && y@.skip(0) == y@);
    while i < x.len() && i < y.len()
        invariant
            i <= x@.len(),
            i <= y@.len(),
            x@ == encode_utf8(a@),
            y@ == encode_utf8(b@),
            bytes_before(x@, y@) == bytes_before(x@.skip(i as int), y@.skip(i as int)),
        decreases x@.len() - i,
    {
        let ghost xs = x@.skip(i as int);
        let ghost ys = y@.skip(i as int);
        assert(xs[0] == x@[i as int] && ys[0] == y@[i as int]);
        if x[i] != y[i] {
            return x[i] < y[i];
        }
        assert(xs.drop_first() == x@.skip(i + 1));
        assert(ys.drop_first() == y@.skip(i + 1));
        i += 1;
    }
    i < y.len()
}

/// Whether `a` has to come before `b`.
pub fn precedes(a: &Node, b: &Node, order: &Order) -> (before: bool)
    ensures
        before == goes_before(*a, *b, *order),
{
    if order.dirs_first && a.is_dir() != b.is_dir() {
        return a.is_dir();
    }
    let x: u64 = match a.size {
        Some(bytes) => bytes,
        None => 0,
    };
    let y: u64 = match b.size {
        Some(bytes) => bytes,
        None => 0,
    };
    match order.key {
        Some(SortKey::Name) => name_before(a.entry.name.as_str(), b.entry.name.as_str()),
        Some(SortKey::Size) => x > y,
        Some(SortKey::SizeReverse) => x < y,
        None => false,
    }
}

} // verus!
