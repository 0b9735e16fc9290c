//! Putting an object together from a base and the deltas that lead to it.
//!
//! All of it takes place in one buffer. First it holds what is there of the base already, followed by
//! the decompressed deltas, the oldest one first. Then two buffers for objects are made before the
//! deltas, each as large as the largest object that occurs, of which the first starts with the base.
//! Every delta reads the one and writes the other.
use crate::chain::{deltas_of, Delta, DeltaChain};
use crate::delta::{
    apply_delta, delta_fills, delta_header_size_ofs, delta_output, delta_output_len,
    lemma_delta_output_len, lemma_size_len_bounds, low_64, size_is_short, size_len, size_value, MAX_SIZE_BYTES,
};
use crate::entry::Entry;
use crate::object::Kind;
use crate::zlib::{inflate_once, inflated, overwritten};
use vstd::prelude::*;
use vstd::slice::slice_subrange;

verus! {

/// How many bytes the deltas of `chain` have when decompressed.
pub open spec fn total_size(chain: Seq<Delta>) -> nat
    decreases chain.len(),
{
    if chain.len() == 0 {
        0
    } else {
        chain[0].decompressed_size as nat + total_size(chain.skip(1))
    }
}

/// The larger one.
pub open spec fn larger(a: nat, b: nat) -> nat {
    if a < b {
        b
    } else {
        a
    }
}

/// What comes of decompressing deltas.
pub enum Prepared {
    /// All deltas were decompressed and state sizes.
    Ready {
        /// The deltas, the oldest one first.
        area: Seq<u8>,
        /// The deltas, now with their sizes and the place of their instructions.
        deltas: Seq<Delta>,
        /// The largest size of an object that occurs.
        biggest: nat,
        /// How many bytes the newest delta takes in the pack.
        consumed: nat,
        /// How many bytes all deltas take in the pack.
        compressed: nat,
        /// How many bytes all objects have that the deltas produce.
        produced: nat,
    },
    /// A delta could not be decompressed.
    Failed {
        /// The deltas up to there.
        area: Seq<u8>,
    },
    /// A delta is outside of the pack, or states sizes that can not be.
    Stuck,
}

/// What comes of decompressing one delta.
pub enum Opened {
    /// It was decompressed and states sizes.
    Ready {
        /// The deltas, this one included.
        area: Seq<u8>,
        /// The delta, now with its sizes and the place of its instructions.
        delta: Delta,
        /// How many bytes it takes in the pack.
        consumed: nat,
    },
    /// It could not be decompressed.
    Failed {
        /// The deltas, this one included.
        area: Seq<u8>,
    },
    /// It is outside of the pack, or states sizes that can not be.
    Stuck,
}

/// The delta with the two sizes that it starts with, and the place of its instructions, where it was
/// decompressed to `at` in `area`. `None` where the sizes can not be.
pub open spec fn sized(delta: Delta, at: nat, area: Seq<u8>) -> Option<Delta> {
    let sizes = area.skip(at as int);
    let base_len = size_len(sizes);
    let base_size = low_64(size_value(sizes));
    let result_len = size_len(sizes.skip(base_len as int));
    let result_size = low_64(size_value(sizes.skip(base_len as int)));
    if base_len <= MAX_SIZE_BYTES && result_len <= MAX_SIZE_BYTES && base_size <= usize::MAX
        && result_size <= usize::MAX {
        Some(
            Delta {
                data_start: (at + base_len + result_len) as usize,
                data_end: (at + delta.decompressed_size) as usize,
                base_size: base_size as usize,
                result_size: result_size as usize,
                ..delta
            },
        )
    } else {
        None
    }
}

/// Decompresses `delta` to `at` in `area`, and reads the two sizes that it starts with.
pub open spec fn open_delta(data: Seq<u8>, delta: Delta, at: nat, area: Seq<u8>) -> Opened {
    if delta.data_offset >= data.len() {
        Opened::Stuck
    } else {
        let (consumed, bytes) = inflated(
            data.skip(delta.data_offset as int),
            delta.decompressed_size as nat,
        );
        let area = overwritten(area, at as int, bytes);
        match consumed {
            None => Opened::Failed { area },
            Some(consumed) => match sized(delta, at, area) {
                Some(delta) => Opened::Ready { area, delta, consumed },
                None => Opened::Stuck,
            },
        }
    }
}

/// Adds a delta to the older ones, of which all was well.
pub open spec fn add_opened(
    opened: Opened,
    deltas: Seq<Delta>,
    biggest: nat,
    compressed: nat,
    produced: nat,
) -> Prepared {
    match opened {
        Opened::Ready { area, delta, consumed } => Prepared::Ready {
            area,
            deltas: seq![delta] + deltas,
            biggest: larger(larger(biggest, delta.base_size as nat), delta.result_size as nat),
            consumed,
            compressed: compressed + consumed,
            produced: produced + delta.result_size as nat,
        },
        Opened::Failed { area } => Prepared::Failed { area },
        Opened::Stuck => Prepared::Stuck,
    }
}

/// Decompresses the deltas of `chain` from the pack `data` into `area`, from the oldest one, which is
/// the last in the chain, to the newest.
pub open spec fn prepare(data: Seq<u8>, chain: Seq<Delta>, area: Seq<u8>) -> Prepared
    decreases chain.len(),
{
    if chain.len() == 0 {
        Prepared::Ready {
            area,
            deltas: Seq::empty(),
            biggest: 0,
            consumed: 0,
            compressed: 0,
            produced: 0,
        }
    } else {
        match prepare(data, chain.skip(1), area) {
            Prepared::Ready { area, deltas, biggest, consumed: _, compressed, produced } => add_opened(
                open_delta(data, chain[0], total_size(chain.skip(1)), area),
                deltas,
                biggest,
                compressed,
                produced,
            ),
            other => other,
        }
    }
}

/// Whether the instructions of `delta` are where they should be, can be followed, and produce as much
/// as the delta says.
pub open spec fn delta_fits(delta: Delta, instructions: Seq<u8>) -> bool {
    &&& delta.data_start <= delta.data_end <= instructions.len()
    &&& delta_output_len(
        delta.base_size as nat,
        instructions.subrange(delta.data_start as int, delta.data_end as int),
    ) matches Some(n) && n >= delta.result_size
}

/// What applying `delta` to the object at the start of `source` produces.
pub open spec fn delta_result(delta: Delta, source: Seq<u8>, instructions: Seq<u8>) -> Seq<u8> {
    delta_output(
        source.take(delta.base_size as int),
        instructions.subrange(delta.data_start as int, delta.data_end as int),
    )->0.take(delta.result_size as int)
}

/// The two buffers for objects after all `deltas` were applied, the last one first. The first of the
/// two starts with the object produced last.
pub open spec fn applied(
    deltas: Seq<Delta>,
    source: Seq<u8>,
    target: Seq<u8>,
    instructions: Seq<u8>,
) -> (Seq<u8>, Seq<u8>)
    decreases deltas.len(),
{
    if deltas.len() == 0 {
        (source, target)
    } else {
        let (source, target) = applied(deltas.skip(1), source, target, instructions);
        let result = delta_result(deltas[0], source, instructions);
        (result + target.skip(deltas[0].result_size as int), source)
    }
}

/// Whether `sum` is the number `n`, or `None` if `n` does not fit.
pub(crate) open spec fn is_sum(sum: Option<u64>, n: nat) -> bool {
    match sum {
        Some(sum) => sum == n,
        None => n > u64::MAX,
    }
}

/// Adds `n` to a sum, if it still fits then.
fn add_up(sum: Option<u64>, n: u64) -> (r: Option<u64>)
    ensures
        forall|before: nat| #[trigger] is_sum(sum, before) ==> is_sum(r, before + n as nat),
{
    match sum {
        Some(sum) => sum.checked_add(n),
        None => None,
    }
}

/// What `prepare_deltas` tells.
pub(crate) enum Preparation {
    Ready { biggest: usize, consumed: usize, compressed: Option<u64>, produced: Option<u64> },
    Failed(crate::zlib::Error),
    Stuck,
}

proof fn lemma_total_size_skip(chain: Seq<Delta>, i: int)
    requires
        0 <= i <= chain.len(),
    ensures
        total_size(chain.skip(i)) <= total_size(chain),
    decreases i,
{
    if i > 0 {
        lemma_total_size_skip(chain, i - 1);
        assert(chain.skip(i - 1).skip(1) == chain.skip(i));
    } else {
        assert(chain.skip(0) == chain);
    }
}

/// Once a delta failed, the newer ones make no difference.
pub proof fn lemma_prepare_ends(data: Seq<u8>, chain: Seq<Delta>, area: Seq<u8>, i: int)
    requires
        0 <= i <= chain.len(),
        !(prepare(data, chain.skip(i), area) is Ready),
    ensures
        prepare(data, chain, area) == prepare(data, chain.skip(i), area),
    decreases i,
{
    if i > 0 {
        assert(chain.skip(i - 1).skip(1) == chain.skip(i));
        lemma_prepare_ends(data, chain, area, i - 1);
    } else {
        assert(chain.skip(0) == chain);
    }
}

/// The next delta is added to the older ones.
pub proof fn lemma_prepare_next(data: Seq<u8>, chain: Seq<Delta>, area: Seq<u8>, i: int)
    requires
        0 <= i < chain.len(),
    ensures
        total_size(chain.skip(i)) == chain[i].decompressed_size + total_size(chain.skip(i + 1)),
        total_size(chain.skip(i)) <= total_size(chain),
        prepare(data, chain.skip(i + 1), area) matches Prepared::Ready {
            area: area2,
            deltas,
            biggest,
            consumed: _,
            compressed,
            produced,
        } ==> prepare(data, chain.skip(i), area) == add_opened(
            open_delta(data, chain[i], total_size(chain.skip(i + 1)), area2),
            deltas,
            biggest,
            compressed,
            produced,
        ),
{
    assert(chain.skip(i).skip(1) == chain.skip(i + 1));
    assert(chain.skip(i)[0] == chain[i]);
    lemma_total_size_skip(chain, i);
}

/// Replacing the delta at `i` leaves the newer ones as they were.
proof fn lemma_replaced(current: Seq<Delta>, first: Seq<Delta>, i: int, next: Delta)
    requires
        0 <= i < current.len(),
        first.len() == current.len(),
        current.take(i + 1) == first.take(i + 1),
    ensures
        current.update(i, next).skip(i) == seq![next] + current.skip(i + 1),
        current.update(i, next).take(i) == first.take(i),
        current[i] == first[i],
{
    assert forall|j: int| 0 <= j <= i implies current[j] == first[j] by {
        assert(current.take(i + 1)[j] == current[j]);
        assert(first.take(i + 1)[j] == first[j]);
    }
    assert(current.update(i, next).skip(i) =~= seq![next] + current.skip(i + 1));
    assert(current.update(i, next).take(i) =~= first.take(i));
}

/// Decompresses the deltas of `chain` into `area`, from the oldest one to the newest, and notes the
/// sizes that they state and where their instructions are.
pub(crate) fn prepare_deltas(data: &[u8], chain: &mut DeltaChain, area: &mut [u8]) -> (r: Preparation)
    requires
        old(area)@.len() == total_size(deltas_of(*old(chain))),
    ensures
        final(area)@.len() == old(area)@.len(),
        match prepare(data@, deltas_of(*old(chain)), old(area)@) {
            Prepared::Ready { area: spec_area, deltas, biggest, consumed, compressed, produced } => {
                &&& r matches Preparation::Ready {
                    biggest: biggest2,
                    consumed: consumed2,
                    compressed: compressed2,
                    produced: produced2,
                }
                &&& biggest2 == biggest
                &&& consumed2 == consumed
                &&& is_sum(compressed2, compressed)
                &&& is_sum(produced2, produced)
                &&& final(area)@ == spec_area
                &&& deltas_of(*final(chain)) == deltas
            },
            Prepared::Failed { area: spec_area } => {
                &&& r == Preparation::Failed(crate::zlib::Error::Inflate)
                &&& final(area)@ == spec_area
            },
            Prepared::Stuck => r is Stuck,
        },
{
    let ghost chain0 = deltas_of(*chain);
    let ghost area0 = area@;
    let n = chain.len();
    let mut i: usize = n;
    let mut at: usize = 0;
    let mut biggest: usize = 0;
    let mut newest: usize = 0;
    let mut compressed: Option<u64> = Some(0);
    let mut produced: Option<u64> = Some(0);
    let ghost mut all_compressed: nat = 0;
    let ghost mut all_produced: nat = 0;
    assert(chain0.skip(n as int) =~= Seq::<Delta>::empty());
    while i > 0
        invariant
            i <= n,
            n == chain0.len(),
            chain0 == deltas_of(*old(chain)),
            area0 == old(area)@,
            deltas_of(*chain).len() == n,
            area@.len() == area0.len(),
            area0.len() == total_size(chain0),
            at == total_size(chain0.skip(i as int)),
            deltas_of(*chain).take(i as int) == chain0.take(i as int),
            prepare(data@, chain0.skip(i as int), area0) == (Prepared::Ready {
                area: area@,
                deltas: deltas_of(*chain).skip(i as int),
                biggest: biggest as nat,
                consumed: newest as nat,
                compressed: all_compressed,
                produced: all_produced,
            }),
            is_sum(compressed, all_compressed),
            is_sum(produced, all_produced),
        decreases i,
    {
        let ghost current = deltas_of(*chain);
        i -= 1;
        let delta = chain.get(i);
        proof {
            lemma_prepare_next(data@, chain0, area0, i as int);
            lemma_replaced(current, chain0, i as int, delta);
        }
        assert(area.len() == area@.len());
        let opening = decompress_delta(data, delta, at, area);
        let (next, consumed) = match opening {
            Opening::Ready { delta: next, consumed } => (next, consumed),
            Opening::Failed(err) => {
                proof {
                    lemma_prepare_ends(data@, chain0, area0, i as int);
                }
                return Preparation::Failed(err);
            },
            Opening::Stuck => {
                proof {
                    lemma_prepare_ends(data@, chain0, area0, i as int);
                }
                return Preparation::Stuck;
            },
        };
        chain.set(i, next);
        if biggest < next.base_size {
            biggest = next.base_size;
        }
        if biggest < next.result_size {
            biggest = next.result_size;
        }
        at = at + delta.decompressed_size;
        newest = consumed;
        compressed = add_up(compressed, consumed as u64);
        produced = add_up(produced, next.result_size as u64);
        proof {
            all_compressed = all_compressed + consumed as nat;
            all_produced = all_produced + next.result_size as nat;
            lemma_replaced(current, chain0, i as int, next);
        }
    }
    proof {
        assert(chain0.skip(0) == chain0);
        assert(deltas_of(*chain).skip(0) == deltas_of(*chain));
    }
    Preparation::Ready { biggest, consumed: newest, compressed, produced }
}

/// What `decompress_delta` tells.
enum Opening {
    Ready { delta: Delta, consumed: usize },
    Failed(crate::zlib::Error),
    Stuck,
}

/// Decompresses `delta` to `at` in `area`, and notes the sizes that it states and where its
/// instructions are.
fn decompress_delta(data: &[u8], delta: Delta, at: usize, area: &mut [u8]) -> (r: Opening)
    requires
        at + delta.decompressed_size <= old(area)@.len(),
    ensures
        final(area)@.len() == old(area)@.len(),
        match open_delta(data@, delta, at as nat, old(area)@) {
            Opened::Ready { area: area2, delta: delta2, consumed } => {
                &&& r == (Opening::Ready { delta: delta2, consumed: consumed as usize })
                &&& consumed <= usize::MAX
                &&& final(area)@ == area2
            },
            Opened::Failed { area: area2 } => {
                &&& r == Opening::Failed(crate::zlib::Error::Inflate)
                &&& final(area)@ == area2
            },
            Opened::Stuck => r is Stuck,
        },
{
    if delta.data_offset >= data.len() as u64 {
        return Opening::Stuck;
    }
    let input = slice_subrange(data, delta.data_offset as usize, data.len());
    assert(input@ == data@.skip(delta.data_offset as int));
    let consumed = match inflate_at(input, area, at, delta.decompressed_size) {
        Ok(consumed) => consumed,
        Err(err) => {
            return Opening::Failed(err);
        },
    };
    match note_sizes(delta, at, area) {
        Some(delta) => Opening::Ready { delta, consumed },
        None => Opening::Stuck,
    }
}

/// Notes the sizes that `delta` states and where its instructions are, where it was decompressed to
/// `at` in `area`. `None` where the sizes can not be.
pub fn note_sizes(delta: Delta, at: usize, area: &[u8]) -> (r: Option<Delta>)
    requires
        at + delta.decompressed_size <= area@.len(),
    ensures
        r == sized(delta, at as nat, area@),
{
    assert(area.len() == area@.len());
    let sizes = slice_subrange(area, at, area.len());
    assert(sizes@ == area@.skip(at as int));
    let (base_size, base_len, result_size, result_len) = match read_sizes(sizes) {
        Some(read) => read,
        None => {
            return None;
        },
    };
    if base_size > usize::MAX as u64 || result_size > usize::MAX as u64 {
        return None;
    }
    Some(
        Delta {
            data_start: at + base_len + result_len,
            data_end: at + delta.decompressed_size,
            base_size: base_size as usize,
            result_size: result_size as usize,
            decompressed_size: delta.decompressed_size,
            data_offset: delta.data_offset,
        },
    )
}

/// Decompresses the stream at the start of `input` into the `size` bytes at `at` in `area`.
fn inflate_at(input: &[u8], area: &mut [u8], at: usize, size: usize) -> (r: Result<
    usize,
    crate::zlib::Error,
>)
    requires
        at + size <= old(area)@.len(),
    ensures
        final(area)@.len() == old(area)@.len(),
        inflated(input@, size as nat).1.len() <= size,
        final(area)@ == overwritten(old(area)@, at as int, inflated(input@, size as nat).1),
        match r {
            Ok(consumed) => inflated(input@, size as nat).0 == Some(consumed as nat),
            Err(err) => inflated(input@, size as nat).0 is None && err == crate::zlib::Error::Inflate,
        },
{
    let ghost before = area@;
    let (_, rest) = area.split_at_mut(at);
    let (region, _) = rest.split_at_mut(size);
    let r = inflate_once(input, region);
    proof {
        let bytes = inflated(input@, size as nat).1;
        assert(area@ =~= overwritten(before, at as int, bytes));
    }
    match r {
        Ok((consumed, _)) => Ok(consumed),
        Err(err) => Err(err),
    }
}

/// Reads the two sizes at the start of `d`: each number, and how many bytes it took. `None` where one
/// takes too many.
fn read_sizes(d: &[u8]) -> (r: Option<(u64, usize, u64, usize)>)
    ensures
        ({
            let n = size_len(d@);
            let m = size_len(d@.skip(n as int));
            match r {
                Some((base_size, base_len, result_size, result_len)) => {
                    &&& base_len == n <= MAX_SIZE_BYTES
                    &&& result_len == m <= MAX_SIZE_BYTES
                    &&& base_size == low_64(size_value(d@))
                    &&& result_size == low_64(size_value(d@.skip(n as int)))
                    &&& n + m <= d@.len()
                },
                None => n > MAX_SIZE_BYTES || m > MAX_SIZE_BYTES,
            }
        }),
{
    if !size_is_short(d) {
        return None;
    }
    let (base_size, base_len) = delta_header_size_ofs(d);
    proof {
        lemma_size_len_bounds(d@);
        lemma_size_len_bounds(d@.skip(base_len as int));
    }
    let rest = slice_subrange(d, base_len, d.len());
    assert(rest@ == d@.skip(base_len as int));
    if !size_is_short(rest) {
        return None;
    }
    let (result_size, result_len) = delta_header_size_ofs(rest);
    Some((base_size, base_len, result_size, result_len))
}

/// The object that the oldest delta of a chain applies to, and where it is found.
#[derive(Debug, Clone, Copy)]
pub enum Base {
    /// It is the whole object of an entry in the pack, still to be decompressed.
    InPack(Entry),
    /// The cache had it, and placed it in the buffer.
    Cached {
        /// Its kind.
        kind: Kind,
        /// How many bytes its entry takes in the pack.
        packed_size: usize,
    },
    /// It is outside of the pack, and was placed in the buffer.
    OutOfPack {
        /// Its kind.
        kind: Kind,
        /// How many bytes it takes in the buffer.
        end: usize,
    },
}

impl Base {
    /// The kind of the object, and so of all objects of the chain.
    pub open spec fn spec_kind(self) -> Kind {
        match self {
            Base::InPack(entry) => entry.header.spec_to_kind()->0,
            Base::Cached { kind, .. } => kind,
            Base::OutOfPack { kind, .. } => kind,
        }
    }

    /// Whether this is an object, and not another delta.
    pub open spec fn is_object(self) -> bool {
        self matches Base::InPack(entry) ==> !entry.header.spec_is_delta()
    }

    /// The kind of the object, and so of all objects of the chain.
    pub(crate) fn kind(&self) -> (kind: Kind)
        requires
            self.is_object(),
        ensures
            kind == self.spec_kind(),
    {
        match self {
            Base::InPack(entry) => entry.header.to_kind().unwrap(),
            Base::Cached { kind, .. } => *kind,
            Base::OutOfPack { kind, .. } => *kind,
        }
    }

    /// How many bytes of the buffer the object takes already, if the buffer is `len` bytes long.
    pub open spec fn len_in_buffer(self, len: nat) -> nat {
        match self {
            Base::InPack(_) => 0,
            Base::Cached { .. } => len,
            Base::OutOfPack { end, .. } => end as nat,
        }
    }

    /// How many bytes this object adds to those that are decoded from the pack.
    pub open spec fn size_in_pack(self) -> nat {
        match self {
            Base::InPack(entry) => entry.decompressed_size as nat,
            _ => 0,
        }
    }
}

/// A sequence cut off at `len` bytes, or brought to that length with zeros.
pub open spec fn resized(s: Seq<u8>, len: nat) -> Seq<u8> {
    if len <= s.len() {
        s.take(len as int)
    } else {
        s + Seq::new((len - s.len()) as nat, |i: int| 0u8)
    }
}

/// What comes of bringing the base and the deltas of a chain into the buffer.
pub enum Filled {
    /// Everything is in place, and all deltas can be applied.
    Ready {
        /// The two buffers for objects, the first of which starts with the base, and the deltas.
        buf: Seq<u8>,
        /// The deltas, with their sizes and the place of their instructions.
        deltas: Seq<Delta>,
        /// The size of each buffer for objects.
        biggest: nat,
        /// How many bytes the newest delta takes in the pack.
        consumed: nat,
        /// How many bytes all deltas take in the pack, and the base, if it was found there.
        compressed: nat,
        /// How many bytes all objects have that were decoded: those that the deltas produce, and the
        /// base, if it was found in the pack.
        produced: nat,
        /// How many bytes the base takes in the pack, if it was found there.
        packed: Option<nat>,
    },
    /// A delta or the base could not be decompressed.
    Failed {
        /// The buffer up to there.
        buf: Seq<u8>,
    },
    /// A delta or the base is outside of the pack, does not fit into memory, or contradicts itself.
    Stuck,
}

/// Whether two buffers for objects of `biggest` bytes and `total` bytes of deltas can be made from a
/// buffer in which the deltas start at `start`: whether they fit into memory, and what there is before the
/// deltas takes less than the two buffers, or nothing.
pub open spec fn can_lay_out(start: nat, biggest: nat, total: nat) -> bool {
    &&& 2 * biggest + total <= isize::MAX
    &&& start < 2 * biggest || start == 0
}

/// Two buffers for objects, followed by the deltas in `area`, made from a buffer that starts with
/// `base`, followed by the deltas.
pub open spec fn laid_out(base: Seq<u8>, area: Seq<u8>, biggest: nat) -> Seq<u8> {
    resized(base + area, 2 * biggest + area.len()).take(2 * biggest as int) + area
}

/// Everything is in `buf`: what is left is to see whether it fits together.
pub open spec fn judge(
    buf: Seq<u8>,
    deltas: Seq<Delta>,
    biggest: nat,
    consumed: nat,
    compressed: nat,
    produced: nat,
    packed: Option<nat>,
) -> Filled {
    if compressed <= usize::MAX && produced <= u64::MAX && (forall|i: int|
        0 <= i < deltas.len() ==> delta_fits(#[trigger] deltas[i], buf.skip(2 * biggest as int))) {
        Filled::Ready { buf, deltas, biggest, consumed, compressed, produced, packed }
    } else {
        Filled::Stuck
    }
}

/// Brings the base to the start of `buf`, unless it is there already.
pub open spec fn add_base(
    data: Seq<u8>,
    base: Base,
    buf: Seq<u8>,
    deltas: Seq<Delta>,
    biggest: nat,
    consumed: nat,
    compressed: nat,
    produced: nat,
) -> Filled {
    match base {
        Base::InPack(entry) => if entry.data_offset >= data.len() {
            Filled::Stuck
        } else {
            let (packed, bytes) = inflated(data.skip(entry.data_offset as int), buf.len());
            let buf = overwritten(buf, 0, bytes);
            match packed {
                None => Filled::Failed { buf },
                Some(packed) => if entry.decompressed_size > buf.len() {
                    Filled::Stuck
                } else {
                    judge(
                        buf,
                        deltas,
                        biggest,
                        consumed,
                        compressed + packed,
                        produced + entry.decompressed_size as nat,
                        Some(packed),
                    )
                },
            }
        },
        _ => judge(buf, deltas, biggest, consumed, compressed, produced, None),
    }
}

/// Brings the base and the deltas of `chain` from the pack `data` into the buffer `out`.
pub open spec fn fill(data: Seq<u8>, chain: Seq<Delta>, base: Base, out: Seq<u8>) -> Filled {
    let start = base.len_in_buffer(out.len());
    let total = total_size(chain);
    let grown = resized(out, start + total);
    if start + total > isize::MAX {
        Filled::Stuck
    } else {
        match prepare(data, chain, grown.skip(start as int)) {
            Prepared::Stuck => Filled::Stuck,
            Prepared::Failed { area } => Filled::Failed { buf: grown.take(start as int) + area },
            Prepared::Ready { area, deltas, biggest, consumed, compressed, produced } => {
                if can_lay_out(start, biggest, total) {
                    let buf = laid_out(grown.take(start as int), area, biggest);
                    add_base(data, base, buf, deltas, biggest, consumed, compressed, produced)
                } else {
                    Filled::Stuck
                }
            },
        }
    }
}

/// The object that the newest of `deltas` produces, once everything is in `buf`.
pub open spec fn assembled(buf: Seq<u8>, deltas: Seq<Delta>, biggest: nat) -> Seq<u8> {
    applied(
        deltas,
        buf.take(biggest as int),
        buf.subrange(biggest as int, 2 * biggest as int),
        buf.skip(2 * biggest as int),
    ).0.take(deltas[0].result_size as int)
}

/// Cuts off `out` at `len` bytes, or brings it to that length with zeros.
pub(crate) fn resize_zeroed(out: &mut Vec<u8>, len: usize)
    requires
        len <= isize::MAX,
    ensures
        final(out)@ == resized(old(out)@, len as nat),
{
    let ghost before = out@;
    out.resize(len, 0);
    proof {
        if len > before.len() {
            assert forall|i: int| 0 <= i < before.len() implies out@[i] == before[i] by {
                assert(out@.subrange(0, before.len() as int)[i] == before[i]);
            }
            assert forall|i: int| before.len() <= i < len implies out@[i] == 0u8 by {
                assert(cloned::<u8>(0u8, out@[i]));
            }
            assert(out@ =~= resized(before, len as nat));
        } else {
            assert(out@ =~= resized(before, len as nat));
        }
    }
}

/// Moves the `len` bytes at `from` in `buf` up to `to`.
fn move_up(buf: &mut [u8], from: usize, to: usize, len: usize)
    requires
        from <= to,
        to + len <= old(buf)@.len(),
    ensures
        final(buf)@ == old(buf)@.take(to as int) + old(buf)@.subrange(from as int, from + len)
            + old(buf)@.skip(to + len),
{
    let ghost before = buf@;
    assert(buf.len() == buf@.len());
    let mut k: usize = len;
    while k > 0
        invariant
            k <= len,
            from <= to,
            to + len <= before.len(),
            before.len() <= usize::MAX,
            buf@.len() == before.len(),
            forall|j: int| 0 <= j < to + k || to + len <= j < before.len() ==> buf@[j] == before[j],
            forall|j: int| to + k <= j < to + len ==> buf@[j] == before[j - to + from],
        decreases k,
    {
        k -= 1;
        buf[to + k] = buf[from + k];
    }
    proof {
        assert(buf@ =~= before.take(to as int) + before.subrange(from as int, from + len)
            + before.skip(to + len));
    }
}

/// Tells whether all deltas of `chain` fit, given their `instructions`.
pub fn deltas_fit(chain: &DeltaChain, instructions: &[u8]) -> (fit: bool)
    ensures
        fit == (forall|i: int|
            0 <= i < deltas_of(*chain).len() ==> delta_fits(
                #[trigger] deltas_of(*chain)[i],
                instructions@,
            )),
{
    let n = chain.len();
    let mut i: usize = 0;
    while i < n
        invariant
            i <= n,
            n == deltas_of(*chain).len(),
            forall|j: int| 0 <= j < i ==> delta_fits(#[trigger] deltas_of(*chain)[j], instructions@),
        decreases n - i,
    {
        let delta = chain.get(i);
        if delta.data_start > delta.data_end || delta.data_end > instructions.len() {
            assert(!delta_fits(deltas_of(*chain)[i as int], instructions@));
            return false;
        }
        let data = slice_subrange(instructions, delta.data_start, delta.data_end);
        if !delta_fills(delta.base_size, delta.result_size, data) {
            assert(!delta_fits(deltas_of(*chain)[i as int], instructions@));
            return false;
        }
        i += 1;
    }
    true
}

/// What `fill_buffer` tells.
pub(crate) enum Filling {
    Ready {
        total: usize,
        biggest: usize,
        consumed: usize,
        compressed: usize,
        produced: u64,
        packed: Option<usize>,
    },
    Failed(crate::zlib::Error),
    Stuck,
}

/// No object is larger than the largest.
proof fn lemma_prepare_bounds(data: Seq<u8>, chain: Seq<Delta>, area: Seq<u8>)
    ensures
        prepare(data, chain, area) matches Prepared::Ready {
            area: area2,
            deltas,
            biggest,
            ..
        } ==> deltas.len() == chain.len() && (forall|i: int|
            0 <= i < deltas.len() ==> (#[trigger] deltas[i]).base_size <= biggest
                && deltas[i].result_size <= biggest),
    decreases chain.len(),
{
    if chain.len() > 0 {
        lemma_prepare_bounds(data, chain.skip(1), area);
    }
}

impl Filling {
    /// Whether this says what came of it, and `chain` and `out` hold what they should then.
    pub(crate) open spec fn tells(self, filled: Filled, chain: Seq<Delta>, out: Seq<u8>) -> bool {
        match filled {
            Filled::Ready { buf, deltas, biggest, consumed, compressed, produced, packed } => {
                &&& self matches Filling::Ready {
                    total: _,
                    biggest: biggest2,
                    consumed: consumed2,
                    compressed: compressed2,
                    produced: produced2,
                    packed: packed2,
                }
                &&& biggest2 == biggest
                &&& consumed2 == consumed
                &&& compressed2 == compressed
                &&& produced2 == produced
                &&& (packed2 is Some <==> packed is Some)
                &&& packed2 matches Some(p) ==> packed == Some(p as nat)
                &&& out == buf
                &&& chain == deltas
            },
            Filled::Failed { buf } => {
                &&& self == Filling::Failed(crate::zlib::Error::Inflate)
                &&& out == buf
            },
            Filled::Stuck => self is Stuck,
        }
    }
}

/// Makes two buffers for objects of `biggest` bytes before the `total` bytes of deltas that start at
/// `start` in `out`.
pub fn lay_out(out: &mut Vec<u8>, start: usize, biggest: usize, total: usize)
    requires
        old(out)@.len() == start + total,
        can_lay_out(start as nat, biggest as nat, total as nat),
    ensures
        final(out)@ == laid_out(
            old(out)@.take(start as int),
            old(out)@.skip(start as int),
            biggest as nat,
        ),
        final(out)@.len() == 2 * biggest + total,
{
    let ghost before = out@;
    let end = 2 * biggest;
    resize_zeroed(out, end + total);
    let ghost grown = out@;
    move_up(out.as_mut_slice(), start, end, total);
    proof {
        assert(before.take(start as int) + before.skip(start as int) =~= before);
        assert(grown.subrange(start as int, start + total) =~= before.skip(start as int));
        assert(grown.skip(end + total) =~= Seq::<u8>::empty());
        assert(out@ =~= grown.take(end as int) + before.skip(start as int));
    }
}

/// Brings the base to the start of `out`, unless it is there already, and sees whether everything
/// fits together.
fn fill_base(
    data: &[u8],
    chain: &DeltaChain,
    base: Base,
    out: &mut Vec<u8>,
    total: usize,
    biggest: usize,
    consumed: usize,
    compressed: Option<u64>,
    produced: Option<u64>,
    Ghost(all_compressed): Ghost<nat>,
    Ghost(all_produced): Ghost<nat>,
) -> (r: Filling)
    requires
        2 * biggest <= old(out)@.len(),
        is_sum(compressed, all_compressed),
        is_sum(produced, all_produced),
    ensures
        r.tells(
            add_base(
                data@,
                base,
                old(out)@,
                deltas_of(*chain),
                biggest as nat,
                consumed as nat,
                all_compressed,
                all_produced,
            ),
            deltas_of(*chain),
            final(out)@,
        ),
        final(out)@.len() == old(out)@.len(),
        r matches Filling::Ready { total: total2, biggest: biggest2, .. } ==> total2 == total && biggest2
            == biggest,
{
    assert(out.len() == out@.len());
    match base {
        Base::InPack(entry) => {
            if entry.data_offset >= data.len() as u64 {
                return Filling::Stuck;
            }
            let input = slice_subrange(data, entry.data_offset as usize, data.len());
            assert(input@ == data@.skip(entry.data_offset as int));
            let packed = match inflate_once(input, out.as_mut_slice()) {
                Ok((packed, _)) => packed,
                Err(err) => {
                    return Filling::Failed(err);
                },
            };
            if entry.decompressed_size > out.len() as u64 {
                return Filling::Stuck;
            }
            let compressed = add_up(compressed, packed as u64);
            let produced = add_up(produced, entry.decompressed_size);
            judge_buffer(chain, out, total, biggest, consumed, compressed, produced, Some(packed))
        },
        _ => judge_buffer(chain, out, total, biggest, consumed, compressed, produced, None),
    }
}

/// Sees whether everything in `out` fits together, and the totals can be told.
fn judge_buffer(
    chain: &DeltaChain,
    out: &Vec<u8>,
    total: usize,
    biggest: usize,
    consumed: usize,
    compressed: Option<u64>,
    produced: Option<u64>,
    packed: Option<usize>,
) -> (r: Filling)
    requires
        2 * biggest <= out@.len(),
    ensures
        forall|all_compressed: nat, all_produced: nat|
            #[trigger] is_sum(compressed, all_compressed) && #[trigger] is_sum(produced, all_produced)
                ==> r.tells(
                judge(
                    out@,
                    deltas_of(*chain),
                    biggest as nat,
                    consumed as nat,
                    all_compressed,
                    all_produced,
                    match packed {
                        Some(packed) => Some(packed as nat),
                        None => None,
                    },
                ),
                deltas_of(*chain),
                out@,
            ),
        r matches Filling::Ready { total: total2, biggest: biggest2, .. } ==> total2 == total && biggest2
            == biggest,
        !(r is Failed),
{
    assert(out.len() == out@.len());
    let fit = instructions_fit(chain, out, 2 * biggest);
    match (compressed, produced) {
        (Some(compressed), Some(produced)) if fit && compressed <= usize::MAX as u64 => {
            Filling::Ready {
                total,
                biggest,
                consumed,
                compressed: compressed as usize,
                produced,
                packed,
            }
        },
        _ => Filling::Stuck,
    }
}

/// Brings the base and the deltas of `chain` into the buffer, and sees whether they fit together.
#[verifier::rlimit(30)]
pub(crate) fn fill_buffer(data: &[u8], chain: &mut DeltaChain, base: Base, out: &mut Vec<u8>) -> (r:
    Filling)
    ensures
        r.tells(
            fill(data@, deltas_of(*old(chain)), base, old(out)@),
            deltas_of(*final(chain)),
            final(out)@,
        ),
        r matches Filling::Ready { total, biggest, .. } ==> {
            &&& total == total_size(deltas_of(*old(chain))) <= isize::MAX
            &&& deltas_of(*final(chain)).len() == deltas_of(*old(chain)).len()
            &&& 2 * biggest <= final(out)@.len() <= isize::MAX
            &&& forall|i: int|
                0 <= i < deltas_of(*final(chain)).len() ==> (#[trigger] deltas_of(
                    *final(chain),
                )[i]).base_size <= biggest && deltas_of(*final(chain))[i].result_size <= biggest
        },
{
    let start: usize = match base {
        Base::InPack(_) => 0,
        Base::Cached { .. } => out.len(),
        Base::OutOfPack { end, .. } => end,
    };
    let limit: usize = isize::MAX as usize;
    let total = match sum_sizes(chain, limit) {
        Some(total) => total,
        None => {
            return Filling::Stuck;
        },
    };
    if start > limit - total {
        return Filling::Stuck;
    }
    resize_zeroed(out, start + total);
    let ghost grown = out@;
    let (_, area) = out.as_mut_slice().split_at_mut(start);
    assert(area@ == grown.skip(start as int));
    let ghost prepared = prepare(data@, deltas_of(*chain), area@);
    let preparation = prepare_deltas(data, chain, area);
    proof {
        lemma_prepare_bounds(data@, deltas_of(*old(chain)), grown.skip(start as int));
        assert(out@.skip(start as int) =~= area@);
        assert(out@.take(start as int) =~= grown.take(start as int));
        assert(out@ =~= out@.take(start as int) + out@.skip(start as int));
    }
    let (biggest, consumed, compressed, produced) = match preparation {
        Preparation::Ready { biggest, consumed, compressed, produced } => {
            (biggest, consumed, compressed, produced)
        },
        Preparation::Failed(err) => {
            return Filling::Failed(err);
        },
        Preparation::Stuck => {
            return Filling::Stuck;
        },
    };
    if biggest > (limit - total) / 2 {
        return Filling::Stuck;
    }
    let end = 2 * biggest;
    if start >= end && start > 0 {
        return Filling::Stuck;
    }
    lay_out(out, start, biggest, total);
    fill_base(
        data,
        chain,
        base,
        out,
        total,
        biggest,
        consumed,
        compressed,
        produced,
        Ghost(prepared->compressed),
        Ghost(prepared->produced),
    )
}

/// Tells whether all deltas of `chain` fit, given their instructions from `start` on in `buf`.
fn instructions_fit(chain: &DeltaChain, buf: &Vec<u8>, start: usize) -> (fit: bool)
    requires
        start <= buf@.len(),
    ensures
        fit == (forall|i: int|
            0 <= i < deltas_of(*chain).len() ==> delta_fits(
                #[trigger] deltas_of(*chain)[i],
                buf@.skip(start as int),
            )),
{
    let instructions = slice_subrange(buf.as_slice(), start, buf.len());
    assert(instructions@ == buf@.skip(start as int));
    deltas_fit(chain, instructions)
}

/// How many bytes the deltas of `chain` have when decompressed, unless they are more than `limit`.
fn sum_sizes(chain: &DeltaChain, limit: usize) -> (sum: Option<usize>)
    ensures
        sum == (if total_size(deltas_of(*chain)) <= limit {
            Some(total_size(deltas_of(*chain)) as usize)
        } else {
            None
        }),
{
    let ghost all = deltas_of(*chain);
    let mut i: usize = chain.len();
    let mut sum: usize = 0;
    assert(all.skip(i as int) =~= Seq::<Delta>::empty());
    while i > 0
        invariant
            i <= all.len(),
            all == deltas_of(*chain),
            sum == total_size(all.skip(i as int)),
            sum <= limit,
        decreases i,
    {
        i -= 1;
        let size = chain.get(i).decompressed_size;
        proof {
            assert(all.skip(i as int).skip(1) == all.skip(i + 1));
            assert(all.skip(i as int)[0] == all[i as int]);
            lemma_total_size_skip(all, i as int);
        }
        if size > limit - sum {
            return None;
        }
        sum = sum + size;
    }
    assert(all.skip(0) == all);
    Some(sum)
}

/// Applies `delta` to the object at the start of `source`, and writes what it produces to the start
/// of `target`.
fn apply_one(delta: Delta, source: &[u8], target: &mut [u8], instructions: &[u8])
    requires
        delta.base_size <= source@.len(),
        delta.result_size <= old(target)@.len(),
        delta_fits(delta, instructions@),
    ensures
        final(target)@ == delta_result(delta, source@, instructions@) + old(target)@.skip(
            delta.result_size as int,
        ),
        final(target)@.len() == old(target)@.len(),
{
    let ghost before = target@;
    let base = slice_subrange(source, 0, delta.base_size);
    let data = slice_subrange(instructions, delta.data_start, delta.data_end);
    proof {
        assert(base@ == source@.take(delta.base_size as int));
        lemma_delta_output_len(base@, data@);
    }
    let (result, _) = target.split_at_mut(delta.result_size);
    apply_delta(base, result, data);
    proof {
        assert(target@ =~= delta_result(delta, source@, instructions@) + before.skip(
            delta.result_size as int,
        ));
    }
}

/// Applies `delta` to the object at the start of the first buffer of `biggest` bytes in `out`, and
/// writes what it produces to the start of the second; or the other way round, if they are `swapped`.
fn apply_between(delta: Delta, swapped: bool, biggest: usize, out: &mut Vec<u8>)
    requires
        2 * biggest <= old(out)@.len(),
        delta.base_size <= biggest,
        delta.result_size <= biggest,
        delta_fits(delta, old(out)@.skip(2 * biggest as int)),
    ensures
        final(out)@.len() == old(out)@.len(),
        final(out)@.skip(2 * biggest as int) == old(out)@.skip(2 * biggest as int),
        ({
            let first = old(out)@.take(biggest as int);
            let second = old(out)@.subrange(biggest as int, 2 * biggest as int);
            let instructions = old(out)@.skip(2 * biggest as int);
            if swapped {
                &&& final(out)@.subrange(biggest as int, 2 * biggest as int) == second
                &&& final(out)@.take(biggest as int) == delta_result(delta, second, instructions)
                    + first.skip(delta.result_size as int)
            } else {
                &&& final(out)@.take(biggest as int) == first
                &&& final(out)@.subrange(biggest as int, 2 * biggest as int) == delta_result(
                    delta,
                    first,
                    instructions,
                ) + second.skip(delta.result_size as int)
            }
        }),
{
    let ghost before = out@;
    assert(out.len() == out@.len());
    let (buffers, rest) = out.as_mut_slice().split_at_mut(2 * biggest);
    let (first, second) = buffers.split_at_mut(biggest);
    proof {
        assert(first@ =~= before.take(biggest as int));
        assert(second@ =~= before.subrange(biggest as int, 2 * biggest as int));
        assert(rest@ =~= before.skip(2 * biggest as int));
    }
    if swapped {
        apply_one(delta, second, first, rest);
    } else {
        apply_one(delta, first, second, rest);
    }
    proof {
        assert(out@.take(biggest as int) =~= first@);
        assert(out@.subrange(biggest as int, 2 * biggest as int) =~= second@);
        assert(out@.skip(2 * biggest as int) =~= rest@);
    }
}

/// Applies all deltas of `chain`, from the oldest one to the newest, and leaves in `out` the object
/// that the newest one produces.
pub fn apply_deltas(chain: &DeltaChain, biggest: usize, out: &mut Vec<u8>)
    requires
        deltas_of(*chain).len() > 0,
        2 * biggest <= old(out)@.len(),
        forall|i: int|
            0 <= i < deltas_of(*chain).len() ==> (#[trigger] deltas_of(*chain)[i]).base_size <= biggest
                && deltas_of(*chain)[i].result_size <= biggest,
        forall|i: int|
            0 <= i < deltas_of(*chain).len() ==> delta_fits(
                #[trigger] deltas_of(*chain)[i],
                old(out)@.skip(2 * biggest as int),
            ),
    ensures
        final(out)@ == assembled(old(out)@, deltas_of(*chain), biggest as nat),
        final(out)@.len() == deltas_of(*chain)[0].result_size,
{
    let ghost all = deltas_of(*chain);
    let ghost out0 = out@;
    let ghost a0 = out@.take(biggest as int);
    let ghost b0 = out@.subrange(biggest as int, 2 * biggest as int);
    let ghost instructions = out@.skip(2 * biggest as int);
    assert(out.len() == out@.len());
    let n = chain.len();
    let mut i: usize = n;
    let mut swapped = false;
    assert(all.skip(n as int) =~= Seq::<Delta>::empty());
    while i > 0
        invariant
            i <= n,
            n == all.len(),
            all == deltas_of(*chain),
            out@.len() == out0.len(),
            2 * biggest <= out0.len() <= usize::MAX,
            out@.skip(2 * biggest as int) == instructions,
            forall|j: int|
                0 <= j < all.len() ==> (#[trigger] all[j]).base_size <= biggest && all[j].result_size
                    <= biggest,
            forall|j: int| 0 <= j < all.len() ==> delta_fits(#[trigger] all[j], instructions),
            applied(all.skip(i as int), a0, b0, instructions) == (if swapped {
                (out@.subrange(biggest as int, 2 * biggest as int), out@.take(biggest as int))
            } else {
                (out@.take(biggest as int), out@.subrange(biggest as int, 2 * biggest as int))
            }),
        decreases i,
    {
        i -= 1;
        let delta = chain.get(i);
        proof {
            assert(all.skip(i as int).skip(1) == all.skip(i + 1));
            assert(all.skip(i as int)[0] == all[i as int]);
            assert(delta_fits(all[i as int], instructions));
        }
        apply_between(delta, swapped, biggest, out);
        swapped = !swapped;
    }
    assert(all.skip(0) == all);
    let last = chain.get(0).result_size;
    if swapped {
        let ghost before = out@;
        move_down(out.as_mut_slice(), biggest, last);
        assert(out@.take(last as int) =~= before.subrange(biggest as int, 2 * biggest as int).take(
            last as int,
        ));
    } else {
        assert(out@.take(last as int) =~= out@.take(biggest as int).take(last as int));
    }
    out.truncate(last);
}

/// Copies the `len` bytes at `from` in `buf` to its start.
fn move_down(buf: &mut [u8], from: usize, len: usize)
    requires
        len <= from,
        from + len <= old(buf)@.len(),
    ensures
        final(buf)@ == old(buf)@.subrange(from as int, from + len) + old(buf)@.skip(len as int),
{
    let ghost before = buf@;
    assert(buf.len() == buf@.len());
    let mut k: usize = 0;
    while k < len
        invariant
            k <= len <= from,
            from + len <= before.len() <= usize::MAX,
            buf@.len() == before.len(),
            forall|j: int| 0 <= j < k ==> buf@[j] == before[from + j],
            forall|j: int| k <= j < before.len() ==> buf@[j] == before[j],
        decreases len - k,
    {
        buf[k] = buf[from + k];
        k += 1;
    }
    assert(buf@ =~= before.subrange(from as int, from + len) + before.skip(len as int));
}

} // verus!
