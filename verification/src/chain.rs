//! The chain of deltas that leads from an entry to the object it is based on.
use crate::entry::Entry;
use vstd::prelude::*;

verus! {

/// A delta of a chain, and what is known of it so far.
#[derive(Debug, Clone, Copy)]
pub struct Delta {
    /// Where the instructions start, counted from the start of the first delta in the buffer.
    pub data_start: usize,
    /// Where the instructions end.
    pub data_end: usize,
    /// How many bytes the object has that the delta applies to.
    pub base_size: usize,
    /// How many bytes the object has that the delta produces.
    pub result_size: usize,
    /// How many bytes the delta has once decompressed.
    pub decompressed_size: usize,
    /// Where in the pack its compressed data starts.
    pub data_offset: u64,
}

impl Delta {
    /// What the header of `entry` says of the delta it holds.
    pub open spec fn spec_pending(entry: Entry) -> Delta {
        Delta {
            data_start: 0,
            data_end: entry.decompressed_size as usize,
            base_size: 0,
            result_size: 0,
            decompressed_size: entry.decompressed_size as usize,
            data_offset: entry.data_offset,
        }
    }

    /// What the header of `entry` says of the delta it holds.
    pub(crate) fn pending(entry: &Entry) -> (delta: Delta)
        requires
            entry.decompressed_size <= usize::MAX,
        ensures
            delta == Delta::spec_pending(*entry),
    {
        Delta {
            data_start: 0,
            data_end: entry.decompressed_size as usize,
            base_size: 0,
            result_size: 0,
            decompressed_size: entry.decompressed_size as usize,
            data_offset: entry.data_offset,
        }
    }
}

/// The most deltas that a chain can have: with more, the bytes of the list of deltas could not be
/// counted.
pub const MAX_CHAIN_LEN: usize = usize::MAX / 128 + 1;

/// The deltas of a chain, from the one that produces the object asked for to the oldest.
///
/// Few chains are long, so that the first ten deltas are stored in place.
#[verifier::external_body]
#[derive(Debug)]
pub struct DeltaChain {
    deltas: smallvec::SmallVec<[Delta; 10]>,
}

/// The deltas that a chain holds, in the order in which they were pushed.
pub uninterp spec fn deltas_of(chain: DeltaChain) -> Seq<Delta>;

impl DeltaChain {
    /// The chain of these deltas, from the newest one to the oldest.
    pub fn from_deltas(deltas: &[Delta]) -> (chain: DeltaChain)
        requires
            deltas@.len() <= MAX_CHAIN_LEN,
        ensures
            deltas_of(chain) == deltas@,
    {
        let mut chain = DeltaChain::new();
        let mut i: usize = 0;
        while i < deltas.len()
            invariant
                i <= deltas@.len(),
                deltas@.len() <= MAX_CHAIN_LEN,
                deltas_of(chain) == deltas@.take(i as int),
            decreases deltas@.len() - i,
        {
            chain.push(deltas[i]);
            i += 1;
            assert(deltas@.take(i as int) == deltas@.take(i - 1).push(deltas@[i - 1]));
        }
        assert(deltas@.take(i as int) == deltas@);
        chain
    }

    /// `smallvec::SmallVec::default`: a list that holds nothing.
    #[verifier::external_body]
    pub(crate) fn new() -> (chain: DeltaChain)
        ensures
            deltas_of(chain) == Seq::<Delta>::empty(),
    {
        DeltaChain { deltas: smallvec::SmallVec::default() }
    }

    /// `smallvec::SmallVec::push`: adds `delta` to the end. The list may grow to twice its length,
    /// and must not come to more bytes than a vector can have.
    #[verifier::external_body]
    pub(crate) fn push(&mut self, delta: Delta)
        requires
            deltas_of(*old(self)).len() < MAX_CHAIN_LEN,
        ensures
            deltas_of(*final(self)) == deltas_of(*old(self)).push(delta),
    {
        self.deltas.push(delta)
    }

    /// `smallvec::SmallVec::len`: how many deltas there are.
    #[verifier::external_body]
    pub(crate) fn len(&self) -> (n: usize)
        ensures
            n == deltas_of(*self).len(),
    {
        self.deltas.len()
    }

    /// `smallvec::SmallVec::index`: the delta at `i`.
    #[verifier::external_body]
    pub(crate) fn get(&self, i: usize) -> (delta: Delta)
        requires
            i < deltas_of(*self).len(),
        ensures
            delta == deltas_of(*self)[i as int],
    {
        self.deltas[i]
    }

    /// `smallvec::SmallVec::index_mut`: replaces the delta at `i`.
    #[verifier::external_body]
    pub(crate) fn set(&mut self, i: usize, delta: Delta)
        requires
            i < deltas_of(*old(self)).len(),
        ensures
            deltas_of(*final(self)) == deltas_of(*old(self)).update(i as int, delta),
    {
        self.deltas[i] = delta;
    }
}

} // verus!
