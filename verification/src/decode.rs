//! Decoding of the objects in a pack.
use crate::assemble::{
    apply_deltas, assembled, fill, fill_buffer, resize_zeroed, resized, total_size, Base, Filled, Filling,
};
use crate::cache::DecodeEntry;
use crate::chain::{deltas_of, Delta, DeltaChain, MAX_CHAIN_LEN};
use crate::entry::{Entry, Header};
use crate::file::File;
use crate::object::{Id, Kind};
use crate::zlib::{self, inflate_once, inflated, overwritten};
use vstd::prelude::*;
use vstd::slice::slice_subrange;

verus! {

/// Returned by [`File::decompress_entry()`] and [`File::decode_entry()`]
#[derive(Debug, PartialEq, Eq, Clone, Copy)]
pub enum Error {
    /// An entry could not be decompressed.
    ZlibInflate(zlib::Error),
    /// A delta could not be applied as the base object with this id could not be found.
    DeltaBaseUnresolved(Id),
}

/// A return value of a resolve function, which given an [`Id`] determines where an object can be
/// found.
#[derive(Debug, PartialEq, Eq, Hash, Ord, PartialOrd, Clone, Copy)]
pub enum ResolvedBase {
    /// The object is within this pack, at the given entry.
    InPack(Entry),
    /// The object was found outside of the pack, and its data was written into the buffer.
    OutOfPack {
        /// The kind of the object.
        kind: Kind,
        /// The length that the buffer has now.
        end: usize,
    },
}

/// Additional information and statistics about a successfully decoded object produced by
/// [`File::decode_entry()`].
///
/// Useful to understand the effectiveness of the pack compression or the cost of decompression.
#[derive(Debug, PartialEq, Eq, Hash, Ord, PartialOrd, Clone, Copy)]
pub struct Outcome {
    /// The kind of the object.
    pub kind: Kind,
    /// The amount of deltas in the chain that had to be resolved.
    ///
    /// A cache that holds one of the objects on the way cuts the chain short.
    pub num_deltas: u32,
    /// The total decompressed size of all pack entries in the delta chain.
    pub decompressed_size: u64,
    /// The total compressed size of all pack entries in the delta chain.
    pub compressed_size: usize,
    /// The total size of all objects decoded as part of the delta chain.
    pub object_size: u64,
}

impl Outcome {
    /// What is known of an object of which only the kind is known.
    pub fn default_from_kind(kind: Kind) -> (outcome: Outcome)
        ensures
            outcome == (Outcome {
                kind,
                num_deltas: 0,
                decompressed_size: 0,
                compressed_size: 0,
                object_size: 0,
            }),
    {
        Outcome { kind, num_deltas: 0, decompressed_size: 0, compressed_size: 0, object_size: 0 }
    }

    /// What is known of an object that was stored as a whole.
    pub open spec fn spec_from_object_entry(kind: Kind, entry: Entry, compressed_size: usize) -> Outcome {
        Outcome {
            kind,
            num_deltas: 0,
            decompressed_size: entry.decompressed_size,
            compressed_size,
            object_size: entry.decompressed_size,
        }
    }

    /// What is known of an object that was stored as a whole.
    pub fn from_object_entry(kind: Kind, entry: &Entry, compressed_size: usize) -> (outcome: Outcome)
        ensures
            outcome == Outcome::spec_from_object_entry(kind, *entry, compressed_size),
    {
        Outcome {
            kind,
            num_deltas: 0,
            decompressed_size: entry.decompressed_size,
            compressed_size,
            object_size: entry.decompressed_size,
        }
    }

    /// What is known of an object of `object_size` bytes that the cache had, and that `entry` stands for.
    pub open spec fn spec_from_cached_object(
        kind: Kind,
        entry: Entry,
        compressed_size: usize,
        object_size: nat,
    ) -> Outcome {
        Outcome {
            kind,
            num_deltas: 0,
            decompressed_size: entry.decompressed_size,
            compressed_size,
            object_size: object_size as u64,
        }
    }

    /// What is known of an object of `object_size` bytes that the cache had, and that `entry` stands for.
    pub fn from_cached_object(
        kind: Kind,
        entry: &Entry,
        compressed_size: usize,
        object_size: u64,
    ) -> (outcome: Outcome)
        ensures
            outcome == Outcome::spec_from_cached_object(
                kind,
                *entry,
                compressed_size,
                object_size as nat,
            ),
    {
        Outcome {
            kind,
            num_deltas: 0,
            decompressed_size: entry.decompressed_size,
            compressed_size,
            object_size,
        }
    }

    /// What is known of an object that a chain of `num_deltas` deltas led to, with the totals of what
    /// was read and what was made.
    pub open spec fn spec_from_delta_chain(
        kind: Kind,
        num_deltas: nat,
        decompressed_size: nat,
        compressed_size: nat,
        object_size: nat,
    ) -> Outcome {
        Outcome {
            kind,
            num_deltas: (num_deltas % 0x1_0000_0000) as u32,
            decompressed_size: decompressed_size as u64,
            compressed_size: compressed_size as usize,
            object_size: object_size as u64,
        }
    }

    /// What is known of an object that a chain of `num_deltas` deltas led to, with the totals of what
    /// was read and what was made.
    ///
    /// Of the number of deltas only the lower 32 bits are kept.
    pub fn from_delta_chain(
        kind: Kind,
        num_deltas: usize,
        decompressed_size: u64,
        compressed_size: usize,
        object_size: u64,
    ) -> (outcome: Outcome)
        ensures
            outcome == Outcome::spec_from_delta_chain(
                kind,
                num_deltas as nat,
                decompressed_size as nat,
                compressed_size as nat,
                object_size as nat,
            ),
    {
        let count: u64 = num_deltas as u64;
        let low: u32 = #[verifier::truncate] (count as u32);
        assert(low == count % 0x1_0000_0000) by (bit_vector)
            requires
                low == count as u32,
        ;
        Outcome { kind, num_deltas: low, decompressed_size, compressed_size, object_size }
    }
}

/// Whether `resolve` may find `found` for `id`, and turn the buffer `before` into `after`.
pub open spec fn may_resolve<F: Fn(Id, Vec<u8>) -> (Vec<u8>, Option<ResolvedBase>)>(
    resolve: F,
    id: Id,
    before: Seq<u8>,
    after: Seq<u8>,
    found: Option<ResolvedBase>,
) -> bool {
    exists|b: Vec<u8>, a: Vec<u8>|
        b@ == before && a@ == after && #[trigger] call_ensures(resolve, (id, b), (a, found))
}

/// Where following a chain of deltas may end.
pub enum Walk<C> {
    /// At an object.
    Reached {
        /// The deltas on the way, the first one first.
        chain: Seq<Delta>,
        /// The object.
        base: Base,
        /// What became of the cache.
        cache: C,
        /// What became of the buffer.
        out: Seq<u8>,
    },
    /// At a delta whose base could not be found.
    Unresolved {
        /// The id of the base.
        id: Id,
        /// What became of the cache.
        cache: C,
        /// What became of the buffer.
        out: Seq<u8>,
    },
    /// At a delta whose base is at no entry of the pack, or at one delta too many.
    Stuck {
        /// What became of the cache.
        cache: C,
    },
}

/// Where a chain leads from a delta that refers to its base by an id.
pub enum Next {
    /// To an entry of the pack.
    Entry(Entry),
    /// To the object that ends the chain.
    Base(Base),
    /// Nowhere, as there is no object with this id.
    Unresolved(Id),
}

/// Where a chain leads, if `found` was found for `id`.
pub open spec fn next_of(id: Id, found: Option<ResolvedBase>) -> Next {
    match found {
        Some(ResolvedBase::InPack(entry)) => Next::Entry(entry),
        Some(ResolvedBase::OutOfPack { kind, end }) => Next::Base(Base::OutOfPack { kind, end }),
        None => Next::Unresolved(id),
    }
}

impl Next {
    /// Where a chain leads, if `found` was found for `id`.
    pub fn from_found(id: Id, found: Option<ResolvedBase>) -> (next: Next)
        ensures
            next == next_of(id, found),
    {
        match found {
            Some(ResolvedBase::InPack(entry)) => Next::Entry(entry),
            Some(ResolvedBase::OutOfPack { kind, end }) => Next::Base(Base::OutOfPack { kind, end }),
            None => Next::Unresolved(id),
        }
    }
}

/// Whether the delta at `cursor` can be added to the chain: whether it fits into memory, and the
/// sizes of all deltas can be summed up.
pub open spec fn can_add(chain: Seq<Delta>, cursor: Entry) -> bool {
    &&& chain.len() < MAX_CHAIN_LEN
    &&& cursor.decompressed_size <= usize::MAX
    &&& total_size(chain) + cursor.decompressed_size <= u64::MAX
}

/// Whether following the chain on from `cursor`, after the deltas in `chain`, may end at `end`.
///
/// An entry that holds an object ends the chain. At a delta, the cache is asked first.
pub open spec fn walks<C: DecodeEntry, F: Fn(Id, Vec<u8>) -> (Vec<u8>, Option<ResolvedBase>)>(
    file: File,
    resolve: F,
    chain: Seq<Delta>,
    cursor: Entry,
    cache: C,
    out: Seq<u8>,
    end: Walk<C>,
) -> bool
    decreases MAX_CHAIN_LEN - chain.len(), 1int,
{
    if cursor.header.spec_is_delta() {
        exists|cache2: C, out2: Seq<u8>, hit: Option<(Kind, usize)>|
            #[trigger] C::may_get(cache, cursor.data_offset, out, cache2, out2, hit) && walks_past(
                file,
                resolve,
                chain,
                cursor,
                cache2,
                out2,
                hit,
                end,
            )
    } else {
        end == (Walk::Reached { chain, base: Base::InPack(cursor), cache, out })
    }
}

/// Whether following the chain on may end at `end`, where the cache answered `hit` when asked for the
/// delta at `cursor`.
///
/// If the cache has the object, that ends the chain. If not, the delta is added to the chain, and its
/// base comes next: the entry at a distance in the pack, or what `resolve` finds for an id.
pub open spec fn walks_past<C: DecodeEntry, F: Fn(Id, Vec<u8>) -> (Vec<u8>, Option<ResolvedBase>)>(
    file: File,
    resolve: F,
    chain: Seq<Delta>,
    cursor: Entry,
    cache: C,
    out: Seq<u8>,
    hit: Option<(Kind, usize)>,
    end: Walk<C>,
) -> bool
    decreases MAX_CHAIN_LEN - chain.len(), 0int,
{
    let longer = chain.push(Delta::spec_pending(cursor));
    match hit {
        Some((kind, packed_size)) => end == (Walk::Reached {
            chain,
            base: Base::Cached { kind, packed_size },
            cache,
            out,
        }),
        None => if !can_add(chain, cursor) {
            end == (Walk::Stuck { cache })
        } else {
            match cursor.header {
                Header::OfsDelta { base_distance } => match file.spec_base_entry(cursor, base_distance) {
                    Some(base) => walks(file, resolve, longer, base, cache, out, end),
                    None => end == (Walk::Stuck { cache }),
                },
                Header::RefDelta { base_id } => exists|out2: Seq<u8>, found: Option<ResolvedBase>|
                    #[trigger] may_resolve(resolve, base_id, out, out2, found) && walks_on(
                        file,
                        resolve,
                        longer,
                        base_id,
                        cache,
                        out2,
                        found,
                        end,
                    ),
                _ => false,
            }
        },
    }
}

/// Whether following the chain on may end at `end`, where `found` was found for the id of the base of
/// the last delta in `chain`.
pub open spec fn walks_on<C: DecodeEntry, F: Fn(Id, Vec<u8>) -> (Vec<u8>, Option<ResolvedBase>)>(
    file: File,
    resolve: F,
    chain: Seq<Delta>,
    id: Id,
    cache: C,
    out: Seq<u8>,
    found: Option<ResolvedBase>,
    end: Walk<C>,
) -> bool
    decreases MAX_CHAIN_LEN - chain.len(), 2int,
{
    match next_of(id, found) {
        Next::Entry(base) => walks(file, resolve, chain, base, cache, out, end),
        Next::Base(base) => end == (Walk::Reached { chain, base, cache, out }),
        Next::Unresolved(id) => end == (Walk::Unresolved { id, cache, out }),
    }
}

/// What `walk` tells.
enum Walked {
    Reached { chain: DeltaChain, base: Base },
    Unresolved(Id),
    Stuck,
}

impl Walked {
    spec fn end<C>(self, cache: C, out: Seq<u8>) -> Walk<C> {
        match self {
            Walked::Reached { chain, base } => Walk::Reached {
                chain: deltas_of(chain),
                base,
                cache,
                out,
            },
            Walked::Unresolved(id) => Walk::Unresolved { id, cache, out },
            Walked::Stuck => Walk::Stuck { cache },
        }
    }
}

/// A delta adds its size.
pub proof fn lemma_total_size_push(chain: Seq<Delta>, delta: Delta)
    ensures
        total_size(chain.push(delta)) == total_size(chain) + delta.decompressed_size,
    decreases chain.len(),
{
    if chain.len() > 0 {
        assert(chain.push(delta).skip(1) == chain.skip(1).push(delta));
        lemma_total_size_push(chain.skip(1), delta);
    } else {
        assert(total_size(chain.push(delta).skip(1)) == 0);
    }
}

/// Hands the buffer to `resolve` and takes it back.
fn call_resolve<F: Fn(Id, Vec<u8>) -> (Vec<u8>, Option<ResolvedBase>)>(
    resolve: &F,
    id: Id,
    out: &mut Vec<u8>,
) -> (found: Option<ResolvedBase>)
    requires
        forall|id: Id, b: Vec<u8>| call_requires(*resolve, (id, b)),
    ensures
        may_resolve(*resolve, id, old(out)@, final(out)@, found),
{
    let mut buf: Vec<u8> = Vec::new();
    std::mem::swap(&mut buf, out);
    let (after, found) = resolve(id, buf);
    *out = after;
    found
}

/// Follows the chain of deltas from `first` to the first object, either an undeltified one in the
/// pack or another one that is referred to.
fn walk<C: DecodeEntry, F: Fn(Id, Vec<u8>) -> (Vec<u8>, Option<ResolvedBase>)>(
    file: &File,
    first: Entry,
    resolve: &F,
    out: &mut Vec<u8>,
    cache: &mut C,
) -> (walked: Walked)
    requires
        forall|id: Id, b: Vec<u8>| call_requires(*resolve, (id, b)),
    ensures
        walks(
            *file,
            *resolve,
            Seq::empty(),
            first,
            *old(cache),
            old(out)@,
            walked.end(*final(cache), final(out)@),
        ),
{
    let mut chain = DeltaChain::new();
    let mut cursor = first;
    let mut total: u64 = 0;
    while cursor.header.is_delta()
        invariant
            forall|id: Id, b: Vec<u8>| call_requires(*resolve, (id, b)),
            total == total_size(deltas_of(chain)),
            deltas_of(chain).len() <= MAX_CHAIN_LEN,
            forall|end: Walk<C>|
                #[trigger] walks(*file, *resolve, deltas_of(chain), cursor, *cache, out@, end)
                    ==> walks(*file, *resolve, Seq::empty(), first, *old(cache), old(out)@, end),
        decreases MAX_CHAIN_LEN - deltas_of(chain).len(),
    {
        let ghost chain1 = deltas_of(chain);
        let ghost cursor1 = cursor;
        let ghost cache1 = *cache;
        let ghost out1 = out@;
        let hit = cache.get(cursor.data_offset, out);
        let ghost cache2 = *cache;
        let ghost out2 = out@;
        assert forall|end: Walk<C>|
            #[trigger] walks_past(*file, *resolve, chain1, cursor1, cache2, out2, hit, end) implies walks(
            *file,
            *resolve,
            Seq::empty(),
            first,
            *old(cache),
            old(out)@,
            end,
        ) by {
            assert(C::may_get(cache1, cursor1.data_offset, out1, cache2, out2, hit));
            assert(walks(*file, *resolve, chain1, cursor1, cache1, out1, end));
        }
        if let Some((kind, packed_size)) = hit {
            let walked = Walked::Reached { chain, base: Base::Cached { kind, packed_size } };
            assert(walks_past(
                *file,
                *resolve,
                chain1,
                cursor1,
                cache2,
                out2,
                hit,
                walked.end(*cache, out@),
            ));
            return walked;
        }
        if chain.len() >= MAX_CHAIN_LEN || cursor.decompressed_size > usize::MAX as u64
            || cursor.decompressed_size > u64::MAX - total {
            assert(walks_past(
                *file,
                *resolve,
                chain1,
                cursor1,
                cache2,
                out2,
                hit,
                Walked::Stuck.end(*cache, out@),
            ));
            return Walked::Stuck;
        }
        total = total + cursor.decompressed_size;
        proof {
            lemma_total_size_push(chain1, Delta::spec_pending(cursor1));
        }
        chain.push(Delta::pending(&cursor));
        match cursor.header {
            Header::OfsDelta { base_distance } => {
                match file.try_base_entry(&cursor, base_distance) {
                    Some(base) => {
                        cursor = base;
                    },
                    None => {
                        assert(walks_past(
                            *file,
                            *resolve,
                            chain1,
                            cursor1,
                            cache2,
                            out2,
                            hit,
                            Walked::Stuck.end(*cache, out@),
                        ));
                        return Walked::Stuck;
                    },
                }
            },
            Header::RefDelta { base_id } => {
                let found = call_resolve(resolve, base_id, out);
                let ghost out3 = out@;
                let ghost longer = deltas_of(chain);
                assert forall|end: Walk<C>|
                    #[trigger] walks_on(*file, *resolve, longer, base_id, cache2, out3, found, end) implies walks_past(
                    *file,
                    *resolve,
                    chain1,
                    cursor1,
                    cache2,
                    out2,
                    hit,
                    end,
                ) by {
                    assert(may_resolve(*resolve, base_id, out2, out3, found));
                }
                match Next::from_found(base_id, found) {
                    Next::Entry(base) => {
                        cursor = base;
                        assert forall|end: Walk<C>|
                            #[trigger] walks(
                                *file,
                                *resolve,
                                longer,
                                cursor,
                                cache2,
                                out3,
                                end,
                            ) implies walks_past(
                            *file,
                            *resolve,
                            chain1,
                            cursor1,
                            cache2,
                            out2,
                            hit,
                            end,
                        ) by {
                            assert(walks_on(
                                *file,
                                *resolve,
                                longer,
                                base_id,
                                cache2,
                                out3,
                                found,
                                end,
                            ));
                        }
                    },
                    Next::Base(base) => {
                        let walked = Walked::Reached { chain, base };
                        assert(walks_on(
                            *file,
                            *resolve,
                            longer,
                            base_id,
                            cache2,
                            out3,
                            found,
                            walked.end(*cache, out@),
                        ));
                        return walked;
                    },
                    Next::Unresolved(id) => {
                        let walked = Walked::Unresolved(id);
                        assert(walks_on(
                            *file,
                            *resolve,
                            longer,
                            base_id,
                            cache2,
                            out3,
                            found,
                            walked.end(*cache, out@),
                        ));
                        return walked;
                    },
                }
            },
            _ => {},
        }
        assert forall|end: Walk<C>|
            #[trigger] walks(*file, *resolve, deltas_of(chain), cursor, *cache, out@, end) implies walks(
            *file,
            *resolve,
            Seq::empty(),
            first,
            *old(cache),
            old(out)@,
            end,
        ) by {
            assert(walks_past(*file, *resolve, chain1, cursor1, cache2, out2, hit, end));
        }
    }
    let walked = Walked::Reached { chain, base: Base::InPack(cursor) };
    assert(walks(
        *file,
        *resolve,
        deltas_of(chain),
        cursor,
        *cache,
        out@,
        walked.end(*cache, out@),
    ));
    walked
}

/// Whether the cache may turn from `before` into `after` when it is told of the base in `buf`. It is
/// told only of one that was found in the pack.
pub open spec fn may_store_base<C: DecodeEntry>(
    before: C,
    base: Base,
    buf: Seq<u8>,
    packed: Option<nat>,
    after: C,
) -> bool {
    match base {
        Base::InPack(entry) => C::may_put(
            before,
            entry.data_offset,
            buf.take(entry.decompressed_size as int),
            base.spec_kind(),
            packed->0 as usize,
            after,
        ),
        _ => after == before,
    }
}

/// Whether the cache may turn from `before` into `after` when it is told of the base in `buf`, and then
/// of the `object` that was assembled from it, whose data starts at `offset`.
pub open spec fn may_store<C: DecodeEntry>(
    before: C,
    base: Base,
    buf: Seq<u8>,
    packed: Option<nat>,
    offset: u64,
    object: Seq<u8>,
    consumed: nat,
    after: C,
) -> bool {
    exists|between: C|
        {
            &&& #[trigger] may_store_base(before, base, buf, packed, between)
            &&& C::may_put(between, offset, object, base.spec_kind(), consumed as usize, after)
        }
}

/// Whether decoding the delta at `first` may leave `cache` and `out` and return `r`, after following
/// its chain ended at `walk`.
pub open spec fn finishes<C: DecodeEntry>(
    file: File,
    first: Entry,
    walk: Walk<C>,
    cache: C,
    out: Seq<u8>,
    r: Result<Outcome, Error>,
) -> bool {
    match walk {
        Walk::Stuck { .. } => false,
        Walk::Unresolved { id, cache: cache2, out: out2 } => {
            &&& cache == cache2
            &&& out == out2
            &&& r == Err::<Outcome, Error>(Error::DeltaBaseUnresolved(id))
        },
        Walk::Reached { chain, base, cache: cache2, out: out2 } => if chain.len() == 0 {
            &&& cache == cache2
            &&& out == out2
            &&& base matches Base::Cached { kind, packed_size } && r == Ok::<Outcome, Error>(
                Outcome::spec_from_cached_object(kind, first, packed_size, out.len()),
            )
        } else {
            match fill(file.data@, chain, base, out2) {
                Filled::Stuck => false,
                Filled::Failed { buf } => {
                    &&& cache == cache2
                    &&& out == buf
                    &&& r == Err::<Outcome, Error>(Error::ZlibInflate(zlib::Error::Inflate))
                },
                Filled::Ready { buf, deltas, biggest, consumed, compressed, produced, packed } => {
                    &&& out == assembled(buf, deltas, biggest)
                    &&& out.len() == deltas[0].result_size
                    &&& r == Ok::<Outcome, Error>(
                        Outcome::spec_from_delta_chain(
                            base.spec_kind(),
                            chain.len(),
                            total_size(chain) + base.size_in_pack(),
                            compressed,
                            produced,
                        ),
                    )
                    &&& may_store(cache2, base, buf, packed, first.data_offset, out, consumed, cache)
                },
            }
        },
    }
}

/// Whether an object can be decoded after following its chain ended at `walk`.
pub open spec fn can_finish<C>(file: File, walk: Walk<C>) -> bool {
    match walk {
        Walk::Stuck { .. } => false,
        Walk::Unresolved { .. } => true,
        Walk::Reached { chain, base, cache: _, out } => chain.len() > 0 ==> !(fill(
            file.data@,
            chain,
            base,
            out,
        ) is Stuck),
    }
}

impl<C> Walk<C> {
    /// What became of the cache.
    pub open spec fn cache(self) -> C {
        match self {
            Walk::Reached { cache, .. } => cache,
            Walk::Unresolved { cache, .. } => cache,
            Walk::Stuck { cache } => cache,
        }
    }
}

/// Following a chain ends at an object, and not after no step, unless the cache was asked.
proof fn lemma_walk_end<C: DecodeEntry, F: Fn(Id, Vec<u8>) -> (Vec<u8>, Option<ResolvedBase>)>(
    file: File,
    resolve: F,
    chain: Seq<Delta>,
    cursor: Entry,
    cache: C,
    out: Seq<u8>,
    end: Walk<C>,
)
    requires
        walks(file, resolve, chain, cursor, cache, out, end),
    ensures
        end matches Walk::Reached { chain: chain2, base, .. } ==> {
            &&& base.is_object()
            &&& chain.len() <= chain2.len()
            &&& chain2.len() == chain.len() && cursor.header.spec_is_delta() ==> base is Cached
        },
    decreases MAX_CHAIN_LEN - chain.len(),
{
    if cursor.header.spec_is_delta() {
        let (cache2, out2, hit) = choose|cache2: C, out2: Seq<u8>, hit: Option<(Kind, usize)>|
            #[trigger] C::may_get(cache, cursor.data_offset, out, cache2, out2, hit) && walks_past(
                file,
                resolve,
                chain,
                cursor,
                cache2,
                out2,
                hit,
                end,
            );
        let longer = chain.push(Delta::spec_pending(cursor));
        if hit is None && can_add(chain, cursor) {
            match cursor.header {
                Header::OfsDelta { base_distance } => {
                    if let Some(base) = file.spec_base_entry(cursor, base_distance) {
                        lemma_walk_end(file, resolve, longer, base, cache2, out2, end);
                    }
                },
                Header::RefDelta { base_id } => {
                    let (out3, found) = choose|out3: Seq<u8>, found: Option<ResolvedBase>|
                        #[trigger] may_resolve(resolve, base_id, out2, out3, found) && walks_on(
                            file,
                            resolve,
                            longer,
                            base_id,
                            cache2,
                            out3,
                            found,
                            end,
                        );
                    if let Some(ResolvedBase::InPack(base)) = found {
                        lemma_walk_end(file, resolve, longer, base, cache2, out3, end);
                    }
                },
                _ => {},
            }
        }
    }
}

impl File {
    /// Whether the delta at `last` can be resolved, whatever `resolve` and `cache` come up with.
    pub open spec fn can_resolve<C: DecodeEntry, F: Fn(Id, Vec<u8>) -> (Vec<u8>, Option<ResolvedBase>)>(
        self,
        last: Entry,
        resolve: F,
        cache: C,
        out: Seq<u8>,
    ) -> bool {
        forall|walk: Walk<C>|
            #[trigger] walks(self, resolve, Seq::empty(), last, cache, out, walk) ==> can_finish(
                self,
                walk,
            )
    }

    /// Whether resolving the delta at `last` may turn `cache` and `out` into `cache2` and `out2`, and
    /// return `r`.
    pub open spec fn resolves<C: DecodeEntry, F: Fn(Id, Vec<u8>) -> (Vec<u8>, Option<ResolvedBase>)>(
        self,
        last: Entry,
        resolve: F,
        cache: C,
        out: Seq<u8>,
        cache2: C,
        out2: Seq<u8>,
        r: Result<Outcome, Error>,
    ) -> bool {
        exists|walk: Walk<C>|
            #[trigger] walks(self, resolve, Seq::empty(), last, cache, out, walk) && finishes(
                self,
                last,
                walk,
                cache2,
                out2,
                r,
            )
    }

    /// Whether the object at `entry` can be decoded, whatever `resolve` and `cache` come up with: no
    /// entry on the way is outside of the pack, everything fits into memory, and the deltas fit
    /// together.
    pub open spec fn can_decode<C: DecodeEntry, F: Fn(Id, Vec<u8>) -> (Vec<u8>, Option<ResolvedBase>)>(
        self,
        entry: Entry,
        resolve: F,
        cache: C,
        out: Seq<u8>,
    ) -> bool {
        if entry.header.spec_is_delta() {
            self.can_resolve(entry, resolve, cache, out)
        } else {
            entry.data_offset < self.data@.len() && entry.decompressed_size <= isize::MAX
        }
    }

    /// Whether decoding the object at `entry` may turn `cache` and `out` into `cache2` and `out2`, and
    /// return `r`.
    pub open spec fn decodes<C: DecodeEntry, F: Fn(Id, Vec<u8>) -> (Vec<u8>, Option<ResolvedBase>)>(
        self,
        entry: Entry,
        resolve: F,
        cache: C,
        out: Seq<u8>,
        cache2: C,
        out2: Seq<u8>,
        r: Result<Outcome, Error>,
    ) -> bool {
        if entry.header.spec_is_delta() {
            self.resolves(entry, resolve, cache, out, cache2, out2, r)
        } else {
            let size = entry.decompressed_size as nat;
            let (consumed, bytes) = inflated(self.data@.skip(entry.data_offset as int), size);
            &&& cache2 == cache
            &&& out2 == overwritten(resized(out, size), 0, bytes)
            &&& r == match consumed {
                Some(consumed) => Ok(
                    Outcome::spec_from_object_entry(
                        entry.header.spec_to_kind()->0,
                        entry,
                        consumed as usize,
                    ),
                ),
                None => Err(Error::ZlibInflate(zlib::Error::Inflate)),
            }
        }
    }

    /// Decompresses the data of `entry` into `out`, and returns how many bytes of `out` were written.
    ///
    /// A delta is decompressed like any other data, but not resolved.
    pub fn decompress_entry(&self, entry: &Entry, out: &mut [u8]) -> (r: Result<usize, Error>)
        requires
            entry.decompressed_size <= old(out)@.len(),
            entry.data_offset < self.data@.len(),
        ensures
            ({
                let (consumed, bytes) = inflated(
                    self.data@.skip(entry.data_offset as int),
                    old(out)@.len(),
                );
                &&& bytes.len() <= old(out)@.len()
                &&& final(out)@ == overwritten(old(out)@, 0, bytes)
                &&& r == match consumed {
                    Some(_) => Ok(bytes.len() as usize),
                    None => Err(Error::ZlibInflate(zlib::Error::Inflate)),
                }
            }),
    {
        assert(out.len() == out@.len());
        let offset = entry.data_offset as usize;
        let input = slice_subrange(self.data.as_slice(), offset, self.data.len());
        assert(input@ == self.data@.skip(offset as int));
        match inflate_once(input, out) {
            Ok((_, written)) => Ok(written),
            Err(err) => Err(Error::ZlibInflate(err)),
        }
    }

    /// Decompresses the data that starts at `data_offset`, past the header of an entry, into `out`, and
    /// returns how many bytes of the pack it takes.
    ///
    /// A delta is decompressed like any other data, but not resolved.
    pub fn decompress_entry_from_data_offset(&self, data_offset: u64, out: &mut [u8]) -> (r: Result<
        usize,
        Error,
    >)
        requires
            data_offset < self.data@.len(),
        ensures
            ({
                let (consumed, bytes) = inflated(
                    self.data@.skip(data_offset as int),
                    old(out)@.len(),
                );
                &&& bytes.len() <= old(out)@.len()
                &&& final(out)@ == overwritten(old(out)@, 0, bytes)
                &&& consumed matches Some(n) ==> n <= self.data@.len() - data_offset
                &&& r == match consumed {
                    Some(n) => Ok(n as usize),
                    None => Err(Error::ZlibInflate(zlib::Error::Inflate)),
                }
            }),
    {
        let offset = data_offset as usize;
        let input = slice_subrange(self.data.as_slice(), offset, self.data.len());
        assert(input@ == self.data@.skip(offset as int));
        match inflate_once(input, out) {
            Ok((consumed, _)) => Ok(consumed),
            Err(err) => Err(Error::ZlibInflate(err)),
        }
    }

    /// Decodes the delta at `last`, unless it can not be decoded.
    fn try_resolve_deltas<C: DecodeEntry, F: Fn(Id, Vec<u8>) -> (Vec<u8>, Option<ResolvedBase>)>(
        &self,
        last: Entry,
        resolve: &F,
        out: &mut Vec<u8>,
        cache: &mut C,
    ) -> (r: Option<Result<Outcome, Error>>)
        requires
            last.header.spec_is_delta(),
            forall|id: Id, b: Vec<u8>| call_requires(*resolve, (id, b)),
        ensures
            match r {
                Some(r) => self.resolves(
                    last,
                    *resolve,
                    *old(cache),
                    old(out)@,
                    *final(cache),
                    final(out)@,
                    r,
                ),
                None => exists|walk: Walk<C>|
                    #[trigger] walks(
                        *self,
                        *resolve,
                        Seq::empty(),
                        last,
                        *old(cache),
                        old(out)@,
                        walk,
                    ) && !can_finish(*self, walk) && *final(cache) == walk.cache(),
            },
    {
        let walked = walk(self, last, resolve, out, cache);
        let ghost end = walked.end(*cache, out@);
        proof {
            lemma_walk_end(*self, *resolve, Seq::empty(), last, *old(cache), old(out)@, end);
        }
        let (chain, base) = match walked {
            Walked::Reached { chain, base } => (chain, base),
            Walked::Unresolved(id) => {
                return Some(Err(Error::DeltaBaseUnresolved(id)));
            },
            Walked::Stuck => {
                return None;
            },
        };
        // This happens if the cache held the object of the first entry itself.
        if chain.len() == 0 {
            return match base {
                Base::Cached { kind, packed_size } => Some(
                    Ok(Outcome::from_cached_object(kind, &last, packed_size, out.len() as u64)),
                ),
                _ => None,
            };
        }
        self.finish_chain(last, chain, base, out, cache)
    }

    /// Puts together the object at `last` from `base` with the deltas in `chain`, unless they do not
    /// fit together.
    pub fn finish_chain<C: DecodeEntry>(
        &self,
        last: Entry,
        chain: DeltaChain,
        base: Base,
        out: &mut Vec<u8>,
        cache: &mut C,
    ) -> (r: Option<Result<Outcome, Error>>)
        requires
            deltas_of(chain).len() > 0,
            base.is_object(),
        ensures
            ({
                let walk = Walk::Reached {
                    chain: deltas_of(chain),
                    base,
                    cache: *old(cache),
                    out: old(out)@,
                };
                match r {
                    Some(r) => finishes(*self, last, walk, *final(cache), final(out)@, r),
                    None => !can_finish(*self, walk) && *final(cache) == *old(cache),
                }
            }),
    {
        let mut chain = chain;
        let chain_len = chain.len();
        let ghost chain0 = deltas_of(chain);
        let filling = fill_buffer(self.data.as_slice(), &mut chain, base, out);
        let ghost filled = fill(self.data@, chain0, base, old(out)@);
        let (total, biggest, consumed, compressed, produced, packed) = match filling {
            Filling::Ready { total, biggest, consumed, compressed, produced, packed } => {
                (total, biggest, consumed, compressed, produced, packed)
            },
            Filling::Failed(err) => {
                return Some(Err(Error::ZlibInflate(err)));
            },
            Filling::Stuck => {
                return None;
            },
        };
        let ghost buf = out@;
        let kind = base.kind();
        let base_size = self.store_base(base, kind, packed, out, cache);
        let ghost cache2 = *cache;
        apply_deltas(&chain, biggest, out);
        cache.put(last.data_offset, out.as_slice(), kind, consumed);
        let outcome = Outcome::from_delta_chain(
            kind,
            chain_len,
            total as u64 + base_size,
            compressed,
            produced,
        );
        proof {
            assert(may_store_base(*old(cache), base, buf, filled->packed, cache2));
            assert(may_store(
                *old(cache),
                base,
                filled->Ready_buf,
                filled->packed,
                last.data_offset,
                out@,
                filled->consumed,
                *cache,
            ));
        }
        Some(Ok(outcome))
    }

    /// Tells the cache of the base at the start of `out`, if it was found in the pack, and returns how
    /// many bytes it has there.
    fn store_base<C: DecodeEntry>(
        &self,
        base: Base,
        kind: Kind,
        packed: Option<usize>,
        out: &Vec<u8>,
        cache: &mut C,
    ) -> (size: u64)
        requires
            kind == base.spec_kind(),
            base.size_in_pack() <= out@.len(),
            base is InPack ==> packed is Some,
        ensures
            size == base.size_in_pack(),
            forall|p: Option<nat>|
                (packed matches Some(n) ==> p == Some(n as nat)) ==> #[trigger] may_store_base(
                    *old(cache),
                    base,
                    out@,
                    p,
                    *final(cache),
                ),
    {
        match base {
            Base::InPack(entry) => {
                assert(out.len() == out@.len());
                let object = slice_subrange(out.as_slice(), 0, entry.decompressed_size as usize);
                assert(object@ == out@.take(entry.decompressed_size as int));
                cache.put(entry.data_offset, object, kind, packed.unwrap());
                entry.decompressed_size
            },
            _ => 0,
        }
    }

    /// Decodes the delta at `last`.
    pub fn resolve_deltas<C: DecodeEntry, F: Fn(Id, Vec<u8>) -> (Vec<u8>, Option<ResolvedBase>)>(
        &self,
        last: Entry,
        resolve: F,
        out: &mut Vec<u8>,
        cache: &mut C,
    ) -> (r: Result<Outcome, Error>)
        requires
            last.header.spec_is_delta(),
            forall|id: Id, b: Vec<u8>| call_requires(resolve, (id, b)),
            self.can_resolve(last, resolve, *old(cache), old(out)@),
        ensures
            self.resolves(last, resolve, *old(cache), old(out)@, *final(cache), final(out)@, r),
    {
        self.try_resolve_deltas(last, &resolve, out, cache).unwrap()
    }

    /// Decodes the object at `entry` into `out`, resolving deltas as needed. `out` is grown or cut off
    /// to hold just that object.
    ///
    /// `entry` is commonly obtained with the help of the index of a pack.
    ///
    /// `resolve` finds the base of a delta that refers to it by its id. It takes the buffer, which it
    /// may write an object to that is outside of the pack, and gives it back.
    ///
    /// `delta_cache` is a mechanism to avoid decoding the same objects multiple times. Use a
    /// [`crate::cache::Noop`] to disable caching.
    pub fn decode_entry<C: DecodeEntry, F: Fn(Id, Vec<u8>) -> (Vec<u8>, Option<ResolvedBase>)>(
        &self,
        entry: Entry,
        out: &mut Vec<u8>,
        resolve: F,
        delta_cache: &mut C,
    ) -> (r: Result<Outcome, Error>)
        requires
            forall|id: Id, b: Vec<u8>| call_requires(resolve, (id, b)),
            self.can_decode(entry, resolve, *old(delta_cache), old(out)@),
        ensures
            self.decodes(
                entry,
                resolve,
                *old(delta_cache),
                old(out)@,
                *final(delta_cache),
                final(out)@,
                r,
            ),
            !entry.header.spec_is_delta() ==> final(out)@.len() == entry.decompressed_size,
    {
        match entry.header {
            Header::Tree | Header::Blob | Header::Commit | Header::Tag => {
                resize_zeroed(out, entry.decompressed_size as usize);
                match self.decompress_entry_from_data_offset(entry.data_offset, out.as_mut_slice()) {
                    Ok(consumed_input) => Ok(
                        Outcome::from_object_entry(
                            entry.header.to_kind().unwrap(),
                            &entry,
                            consumed_input,
                        ),
                    ),
                    Err(err) => Err(err),
                }
            },
            Header::OfsDelta { .. } | Header::RefDelta { .. } => {
                self.resolve_deltas(entry, resolve, out, delta_cache)
            },
        }
    }

    /// Decodes the object at `entry` like [`File::decode_entry()`], unless it can not be decoded.
    ///
    /// Returns `None` where the pack contradicts itself, or the object does not fit into memory. Then
    /// the cache was asked, but is told nothing, and `out` may hold anything.
    pub fn try_decode_entry<C: DecodeEntry, F: Fn(Id, Vec<u8>) -> (Vec<u8>, Option<ResolvedBase>)>(
        &self,
        entry: Entry,
        out: &mut Vec<u8>,
        resolve: F,
        delta_cache: &mut C,
    ) -> (r: Option<Result<Outcome, Error>>)
        requires
            forall|id: Id, b: Vec<u8>| call_requires(resolve, (id, b)),
        ensures
            match r {
                Some(r) => {
                    &&& self.decodes(
                        entry,
                        resolve,
                        *old(delta_cache),
                        old(out)@,
                        *final(delta_cache),
                        final(out)@,
                        r,
                    )
                    &&& !entry.header.spec_is_delta() ==> self.can_decode(
                        entry,
                        resolve,
                        *old(delta_cache),
                        old(out)@,
                    ) && final(out)@.len() == entry.decompressed_size
                },
                None => {
                    &&& !self.can_decode(entry, resolve, *old(delta_cache), old(out)@)
                    &&& entry.header.spec_is_delta() ==> exists|walk: Walk<C>|
                        #[trigger] walks(
                            *self,
                            resolve,
                            Seq::empty(),
                            entry,
                            *old(delta_cache),
                            old(out)@,
                            walk,
                        ) && !can_finish(*self, walk) && *final(delta_cache) == walk.cache()
                    &&& !entry.header.spec_is_delta() ==> *final(delta_cache) == *old(delta_cache)
                        && final(out)@ == old(out)@
                },
            },
    {
        if entry.header.is_delta() {
            self.try_resolve_deltas(entry, &resolve, out, delta_cache)
        } else if entry.data_offset < self.data.len() as u64 && entry.decompressed_size
            <= isize::MAX as u64 {
            Some(self.decode_entry(entry, out, resolve, delta_cache))
        } else {
            None
        }
    }
}

} // verus!
