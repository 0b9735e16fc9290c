//! What the decoder knows of git objects: their kind and their id.
use vstd::prelude::*;

verus! {

/// The kind of an object, as found once all deltas are resolved.
#[derive(Debug, PartialEq, Eq, Hash, Ord, PartialOrd, Clone, Copy, Structural)]
pub enum Kind {
    /// A directory listing.
    Tree,
    /// File content.
    Blob,
    /// A snapshot with its history.
    Commit,
    /// An annotated tag.
    Tag,
}

/// The SHA1 hash that identifies an object.
#[derive(Debug, PartialEq, Eq, Hash, Ord, PartialOrd, Clone, Copy)]
pub struct Id {
    /// The bytes of the hash.
    pub bytes: [u8; 20],
}

} // verus!
