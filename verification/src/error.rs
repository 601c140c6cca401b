//! Why a directory tree could not be built.

use vstd::prelude::*;

verus! {

/// The ways in which building the tree fails. The first failure met on the
/// walk ends it.
#[derive(Clone, Copy, Debug, PartialEq, Eq, Structural)]
pub enum BrowseError {
    /// A directory could not be read.
    FsEnumerate,
    /// A name is missing or is not text.
    NameEncoding,
    /// The selection does not begin with the URL prefix of the videos.
    SelectionMalformed,
    /// A path does not lie under the videos root.
    FsInternal,
}

impl BrowseError {
    /// A short description for the log.
    pub fn describe(&self) -> (r: &'static str)
        ensures
            r@ == match *self {
                BrowseError::FsEnumerate => "directory cannot be read"@,
                BrowseError::NameEncoding => "name is not text"@,
                BrowseError::SelectionMalformed => "selection lacks the video URL prefix"@,
                BrowseError::FsInternal => "path is not under the videos root"@,
            },
    {
        match self {
            BrowseError::FsEnumerate => "directory cannot be read",
            BrowseError::NameEncoding => "name is not text",
            BrowseError::SelectionMalformed => "selection lacks the video URL prefix",
            BrowseError::FsInternal => "path is not under the videos root",
        }
    }
}

} // verus!
