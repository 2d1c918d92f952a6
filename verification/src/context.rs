//! What the caller configures: how deep the diagram goes, how siblings are
//! ordered, whether empty directories stay, and where sizes are shown.

use vstd::prelude::*;

verus! {

/// What siblings are ordered by.
#[derive(Clone, Copy, Debug, PartialEq, Eq, Structural)]
pub enum SortKey {
    /// By name, ascending.
    Name,
    /// By size, largest first.
    Size,
    /// By size, smallest first.
    SizeReverse,
}

#[derive(Clone, Copy, Debug, PartialEq, Eq, Structural)]
pub struct Context {
    /// Deepest level that is shown; the root is at level 0. Without one,
    /// every level is shown.
    pub level: Option<usize>,
    /// Whether directories that hold no file are removed.
    pub prune: bool,
    /// Without a key, siblings stay in the order of discovery.
    pub sort: Option<SortKey>,
    /// Whether directories come before everything else in their group.
    pub dirs_first: bool,
    /// Whether sizes stand in a column left of the tree.
    pub size_left: bool,
    /// Whether sizes are left out.
    pub suppress_size: bool,
}

impl Context {
    /// Nothing limited, sorted, pruned or hidden.
    pub fn new() -> (ctx: Context)
        ensures
            ctx == (Context {
                level: None,
                prune: false,
                sort: None,
                dirs_first: false,
                size_left: false,
                suppress_size: false,
            }),
    {
        Context {
            level: None,
            prune: false,
            sort: None,
            dirs_first: false,
            size_left: false,
            suppress_size: false,
        }
    }

    /// Whether a node at `depth` is shown.
    pub open spec fn shows(self, depth: nat) -> bool {
        match self.level {
            Some(level) => depth <= level,
            None => true,
        }
    }

    /// Whether sizes stand in the left column.
    pub open spec fn sizes_left(self) -> bool {
        self.size_left && !self.suppress_size
    }
}

} // verus!
