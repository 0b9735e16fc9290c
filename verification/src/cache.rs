//! Caches that save decoding the same base objects again and again.
use crate::object::Kind;
use vstd::prelude::*;

verus! {

/// A cache for decoded entries. Of a chain of deltas that was resolved, it is told of the object that the
/// chain led to, and before that of the base, if that was found in the pack; but not of the objects in
/// between, nor of an object that is stored as a whole and asked for itself.
///
/// Nothing is promised of an implementation. What it does is described by two relations of its own
/// choice, which say what its methods may make of a state. One that does not define them may do
/// anything.
pub trait DecodeEntry: Sized {
    /// Whether `get` may turn `before` and `out_before` into `after` and `out_after`, and return
    /// `hit`.
    open spec fn may_get(
        before: Self,
        offset: u64,
        out_before: Seq<u8>,
        after: Self,
        out_after: Seq<u8>,
        hit: Option<(Kind, usize)>,
    ) -> bool {
        true
    }

    /// Whether `put` may turn `before` into `after`.
    open spec fn may_put(
        before: Self,
        offset: u64,
        data: Seq<u8>,
        kind: Kind,
        compressed_size: usize,
        after: Self,
    ) -> bool {
        true
    }

    /// Hands over the decoded `data` of the entry whose compressed data starts at `offset`, along
    /// with its kind and how many bytes it takes in the pack.
    fn put(&mut self, offset: u64, data: &[u8], kind: Kind, compressed_size: usize)
        ensures
            Self::may_put(*old(self), offset, data@, kind, compressed_size, *final(self)),
    ;

    /// Places the decoded data of the entry whose compressed data starts at `offset` into `out`, and
    /// returns its kind and how many bytes it takes in the pack; or returns `None`.
    fn get(&mut self, offset: u64, out: &mut Vec<u8>) -> (hit: Option<(Kind, usize)>)
        ensures
            Self::may_get(*old(self), offset, old(out)@, *final(self), final(out)@, hit),
    ;
}

/// A cache that caches nothing.
#[derive(Debug, PartialEq, Eq, Clone, Copy)]
pub struct Noop;

impl DecodeEntry for Noop {
    open spec fn may_get(
        before: Self,
        offset: u64,
        out_before: Seq<u8>,
        after: Self,
        out_after: Seq<u8>,
        hit: Option<(Kind, usize)>,
    ) -> bool {
        hit is None && out_after == out_before
    }

    open spec fn may_put(
        before: Self,
        offset: u64,
        data: Seq<u8>,
        kind: Kind,
        compressed_size: usize,
        after: Self,
    ) -> bool {
        true
    }

    fn put(&mut self, _offset: u64, _data: &[u8], _kind: Kind, _compressed_size: usize) {
    }

    fn get(&mut self, _offset: u64, _out: &mut Vec<u8>) -> (hit: Option<(Kind, usize)>) {
        None
    }
}

} // verus!
