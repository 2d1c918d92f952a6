//! What is known of one filesystem object, and the tree's stored unit.

use vstd::prelude::*;

verus! {

/// Whether an entry is a directory, a regular file or a symbolic link.
#[derive(Clone, Copy, Debug, PartialEq, Eq, Structural)]
pub enum FileKind {
    Directory,
    File,
    Symlink,
}

/// The identity of a file on its device, with the number of names that lead to it.
#[derive(Clone, Copy, Debug, PartialEq, Eq, Structural)]
pub struct Inode {
    pub dev: u64,
    pub ino: u64,
    pub nlink: u64,
}

impl Inode {
    /// The pair that tells two hard links to one file from two files.
    pub open spec fn identity(self) -> (u64, u64) {
        (self.dev, self.ino)
    }
}

/// One filesystem object as the walk reports it.
#[derive(Clone, Debug)]
pub struct Entry {
    /// Absolute path.
    pub path: String,
    /// Path of the directory that holds the entry, where there is one.
    pub parent: Option<String>,
    /// Last component of the path, as shown in the diagram.
    pub name: String,
    /// Distance from the directory the walk started at, which is at depth 0.
    pub depth: usize,
    pub kind: FileKind,
    /// Size in bytes; counted for regular files only.
    pub bytes: u64,
    /// Present where the platform reports it.
    pub inode: Option<Inode>,
}

impl Entry {
    pub open spec fn is_dir(self) -> bool {
        self.kind == FileKind::Directory
    }

    /// The size that a fresh node starts with: a regular file's own size,
    /// nothing for anything else.
    pub open spec fn initial_size(self) -> Option<u64> {
        if self.kind == FileKind::File {
            Some(self.bytes)
        } else {
            None
        }
    }
}

/// An entry in the tree, with the size that is shown for it: a file's own,
/// or what a directory's contents add up to. A directory without content of
/// nonzero size has none.
#[derive(Clone, Debug)]
pub struct Node {
    pub entry: Entry,
    pub size: Option<u64>,
}

impl Node {
    /// The node for a newly discovered entry.
    pub fn new(entry: Entry) -> (node: Node)
        ensures
            node.entry == entry,
            node.size == entry.initial_size(),
    {
        let size = match entry.kind {
            FileKind::File => Some(entry.bytes),
            _ => None,
        };
        Node { entry, size }
    }

    pub open spec fn spec_is_dir(&self) -> bool {
        self.entry.is_dir()
    }

    #[verifier::when_used_as_spec(spec_is_dir)]
    pub fn is_dir(&self) -> (dir: bool)
        ensures
            dir == self.entry.is_dir(),
    {
        match self.entry.kind {
            FileKind::Directory => true,
            _ => false,
        }
    }

    pub open spec fn spec_is_symlink(&self) -> bool {
        self.entry.kind == FileKind::Symlink
    }

    #[verifier::when_used_as_spec(spec_is_symlink)]
    pub fn is_symlink(&self) -> (link: bool)
        ensures
            link == (self.entry.kind == FileKind::Symlink),
    {
        match self.entry.kind {
            FileKind::Symlink => true,
            _ => false,
        }
    }

    /// What the node adds to the total of the directory that holds it.
    pub open spec fn contribution(self) -> nat {
        match self.size {
            Some(bytes) => bytes as nat,
            None => 0,
        }
    }

    /// The same node with another size.
    pub open spec fn with_size(self, size: Option<u64>) -> Node {
        Node { entry: self.entry, size }
    }
}

} // verus!
