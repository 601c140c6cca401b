//! What was read from disk: a directory and everything below it, held as
//! plain values.

use vstd::prelude::*;

verus! {

/// One file or directory as the file system gave it.
#[derive(Debug)]
pub struct FsEntry {
    /// The last component of `path`, in the bytes of the operating system;
    /// empty where the path has none.
    pub name: Vec<u8>,
    /// The whole path, in the bytes of the operating system.
    pub path: Vec<u8>,
    /// What stands at the path.
    pub content: FsContent,
}

/// What stands at a path. A link counts as what it leads to.
#[derive(Debug)]
pub enum FsContent {
    /// Anything that is not a directory.
    File,
    /// A directory and its children, in the order in which they were read.
    Dir(Vec<FsEntry>),
    /// A directory whose children could not be read.
    Unreadable,
}

impl FsEntry {
    /// Whether the entry is a directory, readable or not.
    pub open spec fn is_dir(self) -> bool {
        !(self.content is File)
    }

    /// Whether the entry is a directory, readable or not.
    pub fn is_directory(&self) -> (r: bool)
        ensures
            r == self.is_dir(),
    {
        match &self.content {
            FsContent::File => false,
            _ => true,
        }
    }

    /// An entry for something that is not a directory.
    pub fn file(name: Vec<u8>, path: Vec<u8>) -> (r: FsEntry)
        ensures
            r == (FsEntry { name, path, content: FsContent::File }),
    {
        FsEntry { name, path, content: FsContent::File }
    }

    /// An entry for a directory with the children that were read in it.
    pub fn dir(name: Vec<u8>, path: Vec<u8>, children: Vec<FsEntry>) -> (r: FsEntry)
        ensures
            r == (FsEntry { name, path, content: FsContent::Dir(children) }),
    {
        FsEntry { name, path, content: FsContent::Dir(children) }
    }

    /// An entry for a directory that could not be read.
    pub fn unreadable(name: Vec<u8>, path: Vec<u8>) -> (r: FsEntry)
        ensures
            r == (FsEntry { name, path, content: FsContent::Unreadable }),
    {
        FsEntry { name, path, content: FsContent::Unreadable }
    }

    /// The children that were read, none for a file or an unreadable
    /// directory.
    pub open spec fn children(self) -> Seq<FsEntry> {
        match self.content {
            FsContent::Dir(children) => children@,
            _ => Seq::empty(),
        }
    }

    /// Every path below this entry begins with the path of the directory it
    /// was read in, as paths made by joining a name to a directory do.
    pub open spec fn paths_nest(self) -> bool
        decreases self,
    {
        match self.content {
            FsContent::Dir(children) => forall|i: int|
                0 <= i < children@.len() ==> self.path@.is_prefix_of(
                    (#[trigger] children@[i]).path@,
                ) && children@[i].paths_nest(),
            _ => true,
        }
    }
}

} // verus!
