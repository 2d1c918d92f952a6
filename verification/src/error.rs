//! What can go wrong while a tree is built.

use vstd::prelude::*;

verus! {

#[derive(Clone, Copy, Debug, PartialEq, Eq, Structural)]
pub enum Error {
    /// The walk ended and never reported the directory it started at.
    MissingRoot,
    /// An entry below the root came without the path of its parent.
    ExpectedParent,
}

impl Error {
    /// The error in words.
    pub fn message(&self) -> (text: &'static str)
        ensures
            text@ == (match *self {
                Error::MissingRoot => "Failed to compute root node"@,
                Error::ExpectedParent => "Expected ancestor node"@,
            }),
    {
        match self {
            Error::MissingRoot => "Failed to compute root node",
            Error::ExpectedParent => "Expected ancestor node",
        }
    }
}

} // verus!
