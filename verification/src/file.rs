//! Packs, and where their entries are.
use crate::entry::{entry_at, Entry};
use vstd::prelude::*;
use vstd::slice::slice_subrange;

verus! {

/// The version of the format of a pack.
#[derive(Debug, PartialEq, Eq, Hash, Ord, PartialOrd, Clone, Copy, Structural)]
pub enum Version {
    /// The second version, which all packs have.
    V2,
    /// The third version, which nobody uses.
    V3,
}

/// A pack.
#[derive(Debug)]
pub struct File {
    /// The version of its format.
    pub version: Version,
    /// All of its bytes.
    pub data: Vec<u8>,
}

impl File {
    /// The entry that starts at `offset`. `None` where no entry does, or none that this library can
    /// read.
    pub open spec fn spec_entry(self, offset: int) -> Option<Entry> {
        if self.version == Version::V2 && 0 <= offset <= self.data@.len() && offset <= u64::MAX {
            entry_at(self.data@.skip(offset), offset as u64)
        } else {
            None
        }
    }

    /// Only packs of the second version can be read.
    pub fn assure_v2(&self)
        requires
            self.version == Version::V2,
        ensures
            self.version == Version::V2,
    {
    }

    /// The entry that starts at `offset`, which is typically obtained from the index of the pack.
    pub fn entry(&self, offset: u64) -> (entry: Entry)
        requires
            self.spec_entry(offset as int) is Some,
        ensures
            Some(entry) == self.spec_entry(offset as int),
    {
        self.assure_v2();
        let object_data = slice_subrange(self.data.as_slice(), offset as usize, self.data.len());
        assert(object_data@ == self.data@.skip(offset as int));
        Entry::from_bytes(object_data, offset)
    }

    /// The entry that starts at `offset`, if one does that can be read.
    pub fn try_entry(&self, offset: u64) -> (entry: Option<Entry>)
        ensures
            entry == self.spec_entry(offset as int),
    {
        match self.version {
            Version::V2 => {},
            Version::V3 => {
                return None;
            },
        }
        if offset > self.data.len() as u64 {
            return None;
        }
        let object_data = slice_subrange(self.data.as_slice(), offset as usize, self.data.len());
        assert(object_data@ == self.data@.skip(offset as int));
        Entry::try_from_bytes(object_data, offset)
    }

    /// The entry of the base of `delta`, which starts `distance` before it.
    pub open spec fn spec_base_entry(self, delta: Entry, distance: u64) -> Option<Entry> {
        self.spec_entry(delta.data_offset - delta.spec_header_size() - distance)
    }

    /// The entry of the base of `delta`, which starts `distance` before it, if there is one.
    pub fn try_base_entry(&self, delta: &Entry, distance: u64) -> (entry: Option<Entry>)
        ensures
            entry == self.spec_base_entry(*delta, distance),
    {
        let header_size = delta.header_size() as u64;
        if header_size > delta.data_offset || distance > delta.data_offset - header_size {
            return None;
        }
        self.try_entry(delta.base_pack_offset(distance))
    }
}

} // verus!
