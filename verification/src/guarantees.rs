//! What resolving a chain of deltas guarantees, told by what it is given and what it gives back.
use crate::assemble::{
    assembled, delta_fits, fill, laid_out, lemma_prepare_ends, lemma_prepare_next, open_delta, prepare, resized, sized, total_size, Base, Filled,
    Opened, Prepared,
};
use crate::cache::DecodeEntry;
use crate::chain::Delta;
use crate::decode::{
    can_add, can_finish, finishes, lemma_total_size_push, may_resolve, may_store_base, next_of, walks,
    walks_on, walks_past, Error, Next, Outcome, ResolvedBase, Walk,
};
use crate::delta::{delta_output, lemma_size_len_bounds, size_len, size_value};
use crate::encoding::{holds, law_header_states_kind};
use crate::entry::{number_ends, Entry, Header};
use crate::file::File;
use crate::laws::{
    chain_of, has_base, is_of_kind, leads_on, leads_through, lemma_kind, lemma_number_prefix,
    lemma_total_size_join, packed_size, packed_size_of,
};
use crate::layout::{
    law_deltas_are_applied_in_turn, law_laid_out, law_overwritten, law_resized, made_of, starts_with,
};
use crate::object::{Id, Kind};
use crate::zlib::{self, inflated, overwritten};
use vstd::prelude::*;

verus! {

/// The size of the object that a delta applies to, as the delta states it.
pub open spec fn stated_base(delta: Seq<u8>) -> nat {
    size_value(delta) % 0x1_0000_0000_0000_0000
}

/// The size of the object that a delta produces, as the delta states it.
pub open spec fn stated_result(delta: Seq<u8>) -> nat {
    size_value(delta.skip(size_len(delta) as int)) % 0x1_0000_0000_0000_0000
}

/// Whether a delta starts with two sizes, each of which takes no more bytes than it may.
pub open spec fn states_sizes(delta: Seq<u8>) -> bool {
    let rest = delta.skip(size_len(delta) as int);
    &&& number_ends(delta)
    &&& size_len(delta) <= 10
    &&& number_ends(rest)
    &&& size_len(rest) <= 10
}

/// The instructions of a delta: what follows the two sizes.
pub open spec fn instructions_of(delta: Seq<u8>) -> Seq<u8> {
    let rest = delta.skip(size_len(delta) as int);
    rest.skip(size_len(rest) as int)
}

/// What a delta makes of `object`: it takes as much of it as it states, and gives as much as it states of
/// what its instructions produce.
pub open spec fn make_one(object: Seq<u8>, delta: Seq<u8>) -> Option<Seq<u8>> {
    match delta_output(object.take(stated_base(delta) as int), instructions_of(delta)) {
        Some(output) => if states_sizes(delta) && stated_base(delta) <= object.len() && stated_result(
            delta,
        ) <= output.len() {
            Some(output.take(stated_result(delta) as int))
        } else {
            None
        },
        None => None,
    }
}

/// What a chain of deltas makes of `object`, the last one first.
pub open spec fn make(object: Seq<u8>, deltas: Seq<Seq<u8>>) -> Option<Seq<u8>>
    decreases deltas.len(),
{
    if deltas.len() == 0 {
        Some(object)
    } else {
        match make(object, deltas.skip(1)) {
            Some(older) => make_one(older, deltas[0]),
            None => None,
        }
    }
}

/// The largest size that a delta states.
pub open spec fn biggest_stated(deltas: Seq<Seq<u8>>) -> nat
    decreases deltas.len(),
{
    if deltas.len() == 0 {
        0
    } else {
        let rest = biggest_stated(deltas.skip(1));
        let base = stated_base(deltas[0]);
        let result = stated_result(deltas[0]);
        if result >= base && result >= rest {
            result
        } else if base >= rest {
            base
        } else {
            rest
        }
    }
}

/// How many bytes all objects have that the deltas produce.
pub open spec fn all_results(deltas: Seq<Seq<u8>>) -> nat
    decreases deltas.len(),
{
    if deltas.len() == 0 {
        0
    } else {
        stated_result(deltas[0]) + all_results(deltas.skip(1))
    }
}

/// How many bytes all deltas of a chain have.
pub open spec fn all_sizes(chain: Seq<Delta>) -> nat
    decreases chain.len(),
{
    if chain.len() == 0 {
        0
    } else {
        chain[0].decompressed_size as nat + all_sizes(chain.skip(1))
    }
}

/// Whether the data of `delta` is in the pack and decompresses to the start of `bytes`, and the rest of
/// them is as in `old`.
pub open spec fn decompresses(data: Seq<u8>, delta: Delta, bytes: Seq<u8>, old: Seq<u8>) -> bool {
    let (consumed, start) = inflated(
        data.skip(delta.data_offset as int),
        delta.decompressed_size as nat,
    );
    &&& delta.data_offset < data.len()
    &&& consumed is Some
    &&& start.len() <= delta.decompressed_size
    &&& bytes.len() == delta.decompressed_size == old.len()
    &&& bytes == start + old.skip(start.len() as int)
}

/// Whether the deltas of `chain` decompress to `deltas`, one after the other into `old`, from the last one
/// to the first.
pub open spec fn all_decompress(
    data: Seq<u8>,
    chain: Seq<Delta>,
    deltas: Seq<Seq<u8>>,
    old: Seq<u8>,
) -> bool
    decreases chain.len(),
{
    &&& chain.len() == deltas.len()
    &&& chain.len() > 0 ==> {
        let at = all_sizes(chain.skip(1)) as int;
        &&& at + chain[0].decompressed_size <= old.len()
        &&& decompresses(
            data,
            chain[0],
            deltas[0],
            old.subrange(at, at + chain[0].decompressed_size),
        )
        &&& all_decompress(data, chain.skip(1), deltas.skip(1), old)
    }
}

/// Whether `base` is `object`, and there is room for it in two buffers of `biggest` bytes: in the buffer
/// `out` already, or in the pack and decompressing to it where there is room for `room` bytes.
pub open spec fn gives(
    data: Seq<u8>,
    base: Base,
    out: Seq<u8>,
    room: nat,
    biggest: nat,
    object: Seq<u8>,
) -> bool {
    match base {
        Base::InPack(entry) => {
            let (consumed, bytes) = inflated(data.skip(entry.data_offset as int), room);
            &&& !(entry.header is OfsDelta)
            &&& !(entry.header is RefDelta)
            &&& entry.data_offset < data.len()
            &&& consumed is Some
            &&& bytes == object
            &&& entry.decompressed_size <= object.len() <= 2 * biggest
        },
        Base::Cached { .. } => {
            &&& out == object
            &&& object.len() < 2 * biggest || object.len() == 0
        },
        Base::OutOfPack { end, .. } => {
            &&& brought_to(out, end as nat) == object
            &&& object.len() < 2 * biggest || object.len() == 0
        },
    }
}

/// How many bytes of the buffer an object takes that is there already.
pub open spec fn taken(base: Base, object: Seq<u8>) -> nat {
    match base {
        Base::InPack(_) => 0,
        _ => object.len(),
    }
}

/// How many bytes `base` takes in the pack, if it is found there.
pub open spec fn taken_in_pack(data: Seq<u8>, base: Base, room: nat) -> nat {
    match base {
        Base::InPack(entry) => inflated(data.skip(entry.data_offset as int), room).0->0,
        _ => 0,
    }
}

/// How many bytes `base` has, if it is found in the pack.
pub open spec fn size_of_base(base: Base) -> nat {
    match base {
        Base::InPack(entry) => entry.decompressed_size as nat,
        _ => 0,
    }
}

/// A buffer cut off at `len` bytes, or filled up with zeros.
pub open spec fn brought_to(out: Seq<u8>, len: nat) -> Seq<u8> {
    Seq::new(
        len,
        |j: int|
            if j < out.len() {
                out[j]
            } else {
                0
            },
    )
}

/// Whether the deltas of `chain` and `base`, with `out` in the buffer, can be put together: they decompress
/// to `deltas` and to `object`, make something of it, and all of it fits into memory.
pub open spec fn fits_together(
    data: Seq<u8>,
    chain: Seq<Delta>,
    deltas: Seq<Seq<u8>>,
    base: Base,
    object: Seq<u8>,
    out: Seq<u8>,
) -> bool {
    let total = all_sizes(chain);
    let biggest = biggest_stated(deltas);
    let room = 2 * biggest + total;
    let start = taken(base, object);
    &&& chain.len() > 0
    &&& gives(data, base, out, room, biggest, object)
    &&& start + total <= isize::MAX
    &&& room <= isize::MAX
    &&& all_decompress(data, chain, deltas, brought_to(out, start + total).skip(start as int))
    &&& make(object, deltas) is Some
    &&& packed_size(data, chain) + taken_in_pack(data, base, room) <= usize::MAX
    &&& all_results(deltas) + size_of_base(base) <= u64::MAX
}

/// The deltas one after the other, the last one first.
spec fn in_a_row(deltas: Seq<Seq<u8>>) -> Seq<u8>
    decreases deltas.len(),
{
    if deltas.len() == 0 {
        Seq::empty()
    } else {
        in_a_row(deltas.skip(1)) + deltas[0]
    }
}

/// The deltas of `chain` with what is noted of them.
spec fn all_noted(chain: Seq<Delta>, deltas: Seq<Seq<u8>>) -> Seq<Delta>
    decreases chain.len(),
{
    if chain.len() == 0 {
        Seq::empty()
    } else {
        let at = in_a_row(deltas.skip(1)).len();
        let rest = deltas[0].skip(size_len(deltas[0]) as int);
        seq![
            Delta {
                data_start: (at + size_len(deltas[0]) + size_len(rest)) as usize,
                data_end: (at + deltas[0].len()) as usize,
                base_size: stated_base(deltas[0]) as usize,
                result_size: stated_result(deltas[0]) as usize,
                ..chain[0]
            },
        ] + all_noted(chain.skip(1), deltas.skip(1))
    }
}

proof fn lemma_sizes(data: Seq<u8>, chain: Seq<Delta>, deltas: Seq<Seq<u8>>, old: Seq<u8>)
    requires
        all_decompress(data, chain, deltas, old),
    ensures
        all_sizes(chain) == total_size(chain) == in_a_row(deltas).len(),
        all_sizes(chain) <= old.len(),
    decreases chain.len(),
{
    if chain.len() > 0 {
        lemma_sizes(data, chain.skip(1), deltas.skip(1), old);
    }
}

proof fn lemma_size_noted(delta: Delta, older: Seq<u8>, d: Seq<u8>, tail: Seq<u8>)
    requires
        states_sizes(d),
        delta.decompressed_size == d.len(),
        older.len() + d.len() + tail.len() <= usize::MAX,
        stated_base(d) <= usize::MAX,
        stated_result(d) <= usize::MAX,
    ensures
        ({
            let rest = d.skip(size_len(d) as int);
            sized(delta, older.len(), older + d + tail) == Some(
                Delta {
                    data_start: (older.len() + size_len(d) + size_len(rest)) as usize,
                    data_end: (older.len() + d.len()) as usize,
                    base_size: stated_base(d) as usize,
                    result_size: stated_result(d) as usize,
                    ..delta
                },
            )
        }),
{
    let n = size_len(d);
    let rest = d.skip(n as int);
    lemma_size_len_bounds(d);
    lemma_size_len_bounds(rest);
    lemma_number_prefix(d, tail);
    lemma_number_prefix(rest, tail);
    assert((older + d + tail).skip(older.len() as int) =~= d + tail);
    assert((d + tail).skip(n as int) =~= rest + tail);
}

/// Decompressing the next delta puts it behind the older ones.
proof fn lemma_opened(data: Seq<u8>, delta: Delta, older: Seq<u8>, d: Seq<u8>, old: Seq<u8>)
    requires
        older.len() + delta.decompressed_size <= old.len() <= usize::MAX,
        decompresses(
            data,
            delta,
            d,
            old.subrange(older.len() as int, older.len() + delta.decompressed_size),
        ),
        states_sizes(d),
        stated_base(d) <= usize::MAX,
        stated_result(d) <= usize::MAX,
    ensures
        ({
            let tail = old.skip(older.len() + delta.decompressed_size);
            open_delta(data, delta, older.len(), older + old.skip(older.len() as int)) == (Opened::Ready {
                area: older + d + tail,
                delta: sized(delta, older.len(), older + d + tail)->0,
                consumed: packed_size_of(data, delta),
            })
        }),
{
    let at = older.len() as int;
    let size = delta.decompressed_size as int;
    let bytes = inflated(data.skip(delta.data_offset as int), delta.decompressed_size as nat).1;
    let before = older + old.skip(at);
    let tail = old.skip(at + size);
    assert(overwritten(before, at, bytes) =~= older + d + tail);
    lemma_size_noted(delta, older, d, tail);
}

/// Whether all deltas start with their two sizes.
pub open spec fn all_state_sizes(deltas: Seq<Seq<u8>>) -> bool {
    forall|i: int| 0 <= i < deltas.len() ==> states_sizes(#[trigger] deltas[i])
}

proof fn lemma_make_states_sizes(object: Seq<u8>, deltas: Seq<Seq<u8>>)
    requires
        make(object, deltas) is Some,
    ensures
        all_state_sizes(deltas),
    decreases deltas.len(),
{
    if deltas.len() > 0 {
        lemma_make_states_sizes(object, deltas.skip(1));
        assert forall|i: int| 0 <= i < deltas.len() implies states_sizes(#[trigger] deltas[i]) by {
            if i > 0 {
                assert(states_sizes(deltas.skip(1)[i - 1]));
            }
        }
    }
}

#[verifier::rlimit(30)]
proof fn lemma_all_prepared(data: Seq<u8>, chain: Seq<Delta>, deltas: Seq<Seq<u8>>, old: Seq<u8>)
    requires
        all_decompress(data, chain, deltas, old),
        old.len() <= usize::MAX,
        all_state_sizes(deltas),
        biggest_stated(deltas) <= usize::MAX,
    ensures
        prepare(data, chain, old) == (Prepared::Ready {
            area: in_a_row(deltas) + old.skip(all_sizes(chain) as int),
            deltas: all_noted(chain, deltas),
            biggest: biggest_stated(deltas),
            consumed: if chain.len() == 0 {
                0
            } else {
                packed_size_of(data, chain[0])
            },
            compressed: packed_size(data, chain),
            produced: all_results(deltas),
        }),
    decreases chain.len(),
{
    if chain.len() == 0 {
        assert(in_a_row(deltas) + old.skip(0) =~= old);
    } else {
        let rest = chain.skip(1);
        assert forall|i: int| 0 <= i < deltas.len() - 1 implies states_sizes(
            #[trigger] deltas.skip(1)[i],
        ) by {
            assert(states_sizes(deltas[i + 1]));
        }
        assert(states_sizes(deltas[0]));
        lemma_all_prepared(data, rest, deltas.skip(1), old);
        lemma_sizes(data, rest, deltas.skip(1), old);
        let older = in_a_row(deltas.skip(1));
        lemma_opened(data, chain[0], older, deltas[0], old);
        lemma_size_noted(chain[0], older, deltas[0], old.skip(all_sizes(chain) as int));
    }
}

/// What is noted of the deltas makes the same of the object as they do.
proof fn lemma_made(
    data: Seq<u8>,
    chain: Seq<Delta>,
    deltas: Seq<Seq<u8>>,
    object: Seq<u8>,
    old: Seq<u8>,
    instructions: Seq<u8>,
)
    requires
        all_decompress(data, chain, deltas, old),
        make(object, deltas) is Some,
        biggest_stated(deltas) <= usize::MAX,
        in_a_row(deltas).len() <= instructions.len() <= usize::MAX,
        instructions.take(in_a_row(deltas).len() as int) == in_a_row(deltas),
    ensures
        made_of(object, all_noted(chain, deltas), instructions) == make(object, deltas),
        all_noted(chain, deltas).len() == chain.len(),
        forall|i: int|
            0 <= i < chain.len() ==> (#[trigger] all_noted(chain, deltas)[i]).base_size <= biggest_stated(
                deltas,
            ) && all_noted(chain, deltas)[i].result_size <= biggest_stated(deltas),
        chain.len() > 0 ==> all_noted(chain, deltas)[0].result_size == make(object, deltas)->0.len(),
    decreases chain.len(),
{
    if chain.len() > 0 {
        let older = in_a_row(deltas.skip(1));
        let all = all_noted(chain, deltas);
        let rest = all_noted(chain.skip(1), deltas.skip(1));
        let d = deltas[0];
        let n = size_len(d);
        let m = size_len(d.skip(n as int));
        assert(instructions.take(older.len() as int) =~= older) by {
            assert(instructions.take(in_a_row(deltas).len() as int).take(older.len() as int)
                =~= instructions.take(older.len() as int));
            assert(in_a_row(deltas).take(older.len() as int) =~= older);
        }
        lemma_made(data, chain.skip(1), deltas.skip(1), object, old, instructions);
        lemma_size_len_bounds(d);
        lemma_size_len_bounds(d.skip(n as int));
        assert(all.skip(1) =~= rest);
        let own = instructions.subrange(all[0].data_start as int, all[0].data_end as int);
        assert(own =~= instructions_of(d)) by {
            assert forall|j: int| 0 <= j < d.len() implies instructions[older.len() + j] == d[j] by {
                assert(instructions.take(in_a_row(deltas).len() as int)[older.len() + j] == in_a_row(
                    deltas,
                )[older.len() + j]);
            }
        }
        assert forall|i: int| 0 <= i < chain.len() implies (#[trigger] all[i]).base_size
            <= biggest_stated(deltas) && all[i].result_size <= biggest_stated(deltas) by {
            if i > 0 {
                assert(all[i] == rest[i - 1]);
            }
        }
    }
}

/// The buffer once all deltas and the base are in it.
spec fn full_buffer(deltas: Seq<Seq<u8>>, base: Base, object: Seq<u8>, out: Seq<u8>) -> Seq<u8> {
    let start = taken(base, object);
    let joint = in_a_row(deltas);
    let laid = laid_out(resized(out, start + joint.len()).take(start as int), joint, biggest_stated(deltas));
    match base {
        Base::InPack(_) => overwritten(laid, 0, object),
        _ => laid,
    }
}

proof fn lemma_full_buffer(deltas: Seq<Seq<u8>>, base: Base, object: Seq<u8>, out: Seq<u8>)
    requires
        object.len() <= 2 * biggest_stated(deltas),
        match base {
            Base::InPack(_) => true,
            Base::Cached { .. } => out == object,
            Base::OutOfPack { end, .. } => brought_to(out, end as nat) == object,
        },
    ensures
        ({
            let biggest = biggest_stated(deltas);
            let buf = full_buffer(deltas, base, object, out);
            &&& buf.len() == 2 * biggest + in_a_row(deltas).len()
            &&& buf.skip(2 * biggest as int) == in_a_row(deltas)
            &&& buf.take(object.len() as int) == object
            &&& starts_with(buf.take(biggest as int), object)
        }),
{
    let biggest = biggest_stated(deltas);
    let start = taken(base, object);
    let joint = in_a_row(deltas);
    let grown = resized(out, start + joint.len());
    let head = grown.take(start as int);
    law_resized(out, start + joint.len());
    law_laid_out(head, joint, biggest);
    let laid = laid_out(head, joint, biggest);
    let buf = full_buffer(deltas, base, object, out);
    if base is InPack {
        law_overwritten(laid, 0, object);
    } else {
        assert forall|j: int| 0 <= j < object.len() implies laid[j] == object[j] by {
            assert(head[j] == grown[j]);
            if let Base::OutOfPack { end, .. } = base {
                assert(brought_to(out, end as nat)[j] == object[j]);
            }
        }
    }
    assert(buf.skip(2 * biggest as int) =~= joint);
    assert(buf.take(object.len() as int) =~= object);
    assert forall|j: int| 0 <= j < object.len() && j < biggest implies #[trigger] buf.take(biggest as int)[j]
        == object[j] by {
        assert(buf.take(object.len() as int)[j] == buf[j]);
    }
}

/// The deltas come to lie in a row.
proof fn lemma_prepares(
    data: Seq<u8>,
    chain: Seq<Delta>,
    deltas: Seq<Seq<u8>>,
    base: Base,
    object: Seq<u8>,
    out: Seq<u8>,
)
    requires
        fits_together(data, chain, deltas, base, object, out),
    ensures
        base.len_in_buffer(out.len()) == taken(base, object),
        total_size(chain) == all_sizes(chain) == in_a_row(deltas).len(),
        prepare(
            data,
            chain,
            resized(out, taken(base, object) + all_sizes(chain)).skip(taken(base, object) as int),
        ) == (Prepared::Ready {
            area: in_a_row(deltas),
            deltas: all_noted(chain, deltas),
            biggest: biggest_stated(deltas),
            consumed: packed_size_of(data, chain[0]),
            compressed: packed_size(data, chain),
            produced: all_results(deltas),
        }),
{
    let start = taken(base, object);
    let total = all_sizes(chain);
    let grown = resized(out, start + total);
    law_resized(out, start + total);
    assert(grown =~= brought_to(out, start + total));
    let old = grown.skip(start as int);
    lemma_sizes(data, chain, deltas, old);
    lemma_make_states_sizes(object, deltas);
    lemma_all_prepared(data, chain, deltas, old);
    assert(in_a_row(deltas) + old.skip(total as int) =~= in_a_row(deltas));
    assert(base.len_in_buffer(out.len()) == start) by {
        assert(base is OutOfPack ==> brought_to(out, base->end as nat).len() == base->end);
    }
}

/// The deltas fit, and applying them gives what they make of the object.
proof fn lemma_assembles(
    data: Seq<u8>,
    chain: Seq<Delta>,
    deltas: Seq<Seq<u8>>,
    base: Base,
    object: Seq<u8>,
    out: Seq<u8>,
)
    requires
        fits_together(data, chain, deltas, base, object, out),
    ensures
        ({
            let buf = full_buffer(deltas, base, object, out);
            let biggest = biggest_stated(deltas);
            let all = all_noted(chain, deltas);
            &&& all.len() == chain.len()
            &&& assembled(buf, all, biggest) == make(object, deltas)->0
            &&& all[0].result_size == make(object, deltas)->0.len()
            &&& forall|i: int|
                0 <= i < all.len() ==> delta_fits(#[trigger] all[i], buf.skip(2 * biggest as int))
            &&& buf.len() == 2 * biggest + all_sizes(chain)
            &&& buf.take(object.len() as int) == object
        }),
{
    let start = taken(base, object);
    let old = brought_to(out, start + all_sizes(chain)).skip(start as int);
    let joint = in_a_row(deltas);
    lemma_sizes(data, chain, deltas, old);
    lemma_full_buffer(deltas, base, object, out);
    assert(joint.take(joint.len() as int) =~= joint);
    lemma_made(data, chain, deltas, object, old, joint);
    law_deltas_are_applied_in_turn(
        full_buffer(deltas, base, object, out),
        all_noted(chain, deltas),
        biggest_stated(deltas),
        object,
    );
}

proof fn lemma_fills(
    data: Seq<u8>,
    chain: Seq<Delta>,
    deltas: Seq<Seq<u8>>,
    base: Base,
    object: Seq<u8>,
    out: Seq<u8>,
)
    requires
        fits_together(data, chain, deltas, base, object, out),
    ensures
        ({
            let packed = taken_in_pack(data, base, 2 * biggest_stated(deltas) + all_sizes(chain));
            fill(data, chain, base, out) == (Filled::Ready {
                buf: full_buffer(deltas, base, object, out),
                deltas: all_noted(chain, deltas),
                biggest: biggest_stated(deltas),
                consumed: packed_size_of(data, chain[0]),
                compressed: packed_size(data, chain) + packed,
                produced: all_results(deltas) + size_of_base(base),
                packed: if base is InPack {
                    Some(packed)
                } else {
                    None
                },
            })
        }),
{
    lemma_prepares(data, chain, deltas, base, object, out);
    lemma_assembles(data, chain, deltas, base, object, out);
    let start = taken(base, object);
    let grown = resized(out, start + all_sizes(chain));
    let biggest = biggest_stated(deltas);
    law_resized(out, start + all_sizes(chain));
    law_laid_out(grown.take(start as int), in_a_row(deltas), biggest);
}

/// Whether the cache is told of the base, if that was found in the pack, as `object` of this kind, as much of
/// it as its entry states, with what it takes there; and then of `result`, the object of the delta at `first`, with what that takes in
/// the pack.
pub open spec fn is_told<C: DecodeEntry>(
    before: C,
    base: Base,
    object: Seq<u8>,
    base_packed: nat,
    kind: Kind,
    first: Entry,
    result: Seq<u8>,
    packed: nat,
    after: C,
) -> bool {
    match base {
        Base::InPack(entry) => exists|between: C|
            #[trigger] C::may_put(
                before,
                entry.data_offset,
                object.take(entry.decompressed_size as int),
                kind,
                base_packed as usize,
                between,
            ) && C::may_put(between, first.data_offset, result, kind, packed as usize, after),
        _ => C::may_put(before, first.data_offset, result, kind, packed as usize, after),
    }
}

/// Where a chain of deltas and its base can be put together, they are: the buffer is left with what the
/// deltas make of the object that the base is, the totals of what was read and made are told, along with
/// the kind that the base has, and the cache is told of the base and of the result, and of nothing else.
pub proof fn law_chain_is_put_together<C: DecodeEntry>(
    file: File,
    first: Entry,
    chain: Seq<Delta>,
    deltas: Seq<Seq<u8>>,
    base: Base,
    object: Seq<u8>,
    kind: Kind,
    cache: C,
    out: Seq<u8>,
)
    requires
        fits_together(file.data@, chain, deltas, base, object, out),
        is_of_kind(base, kind),
    ensures
        can_finish(file, (Walk::Reached { chain, base, cache, out })),
        forall|cache2: C, out2: Seq<u8>, r: Result<Outcome, Error>|
            #[trigger] finishes(
                file,
                first,
                (Walk::Reached { chain, base, cache, out }),
                cache2,
                out2,
                r,
            ) ==> {
                let base_packed = taken_in_pack(
                    file.data@,
                    base,
                    2 * biggest_stated(deltas) + all_sizes(chain),
                );
                &&& out2 == make(object, deltas)->0
                &&& r == Ok::<Outcome, Error>(
                    Outcome {
                        kind,
                        num_deltas: (chain.len() % 0x1_0000_0000) as u32,
                        decompressed_size: (all_sizes(chain) + size_of_base(base)) as u64,
                        compressed_size: (packed_size(file.data@, chain) + base_packed) as usize,
                        object_size: (all_results(deltas) + size_of_base(base)) as u64,
                    },
                )
                &&& is_told(
                    cache,
                    base,
                    object,
                    base_packed,
                    kind,
                    first,
                    make(object, deltas)->0,
                    packed_size_of(file.data@, chain[0]),
                    cache2,
                )
            },
{
    lemma_kind(base);
    lemma_fills(file.data@, chain, deltas, base, object, out);
    lemma_prepares(file.data@, chain, deltas, base, object, out);
    lemma_assembles(file.data@, chain, deltas, base, object, out);
    let filled = fill(file.data@, chain, base, out);
    assert forall|cache2: C, out2: Seq<u8>, r: Result<Outcome, Error>|
        #[trigger] finishes(
            file,
            first,
            (Walk::Reached { chain, base, cache, out }),
            cache2,
            out2,
            r,
        ) implies is_told(
        cache,
        base,
        object,
        taken_in_pack(file.data@, base, 2 * biggest_stated(deltas) + all_sizes(chain)),
        kind,
        first,
        make(object, deltas)->0,
        packed_size_of(file.data@, chain[0]),
        cache2,
    ) by {
        let between = choose|between: C|
            {
                &&& #[trigger] may_store_base(cache, base, filled->Ready_buf, filled->packed, between)
                &&& C::may_put(
                    between,
                    first.data_offset,
                    out2,
                    base.spec_kind(),
                    filled->consumed as usize,
                    cache2,
                )
            };
        assert(may_store_base(cache, base, filled->Ready_buf, filled->packed, between));
        assert(kind == base.spec_kind());
        if let Base::InPack(entry) = base {
            let buf = filled->Ready_buf;
            let size = entry.decompressed_size as int;
            assert(buf.take(size) =~= buf.take(object.len() as int).take(size));
        }
    }
}

/// Whether a cache of which `cold` holds after it was asked for as many of the entries of `path` has none of
/// their objects, and `cold` goes on to hold.
pub open spec fn stays_cold<C: DecodeEntry>(cold: spec_fn(int, C) -> bool, path: Seq<Entry>) -> bool {
    forall|i: int, cache: C, out: Seq<u8>, cache2: C, out2: Seq<u8>, hit: Option<(Kind, usize)>|
        0 <= i < path.len() && cold(i, cache) && #[trigger] C::may_get(
            cache,
            path[i].data_offset,
            out,
            cache2,
            out2,
            hit,
        ) ==> cold(i + 1, cache2) && hit is None
}

/// What a delta is followed to once the cache has no object for it.
proof fn lemma_next<C: DecodeEntry, F: Fn(Id, Vec<u8>) -> (Vec<u8>, Option<ResolvedBase>)>(
    file: File,
    resolve: F,
    path: Seq<Entry>,
    i: int,
    base: Base,
    object: Seq<u8>,
    cache: C,
    out: Seq<u8>,
    end: Walk<C>,
) -> (out2: Seq<u8>)
    requires
        0 <= i < path.len() <= usize::MAX / 128 + 1,
        path[i].decompressed_size <= usize::MAX,
        all_sizes(chain_of(path)) <= u64::MAX,
        !(base is Cached),
        has_base(file, resolve, path[i], base, object),
        walks_past(file, resolve, chain_of(path).take(i), path[i], cache, out, None, end),
    ensures
        match base {
            Base::InPack(entry) => walks(
                file,
                resolve,
                chain_of(path).take(i + 1),
                entry,
                cache,
                out2,
                end,
            ),
            Base::OutOfPack { end: len, .. } => {
                &&& end == (Walk::Reached { chain: chain_of(path).take(i + 1), base, cache, out: out2 })
                &&& len <= out2.len()
                &&& out2.take(len as int) == object
            },
            Base::Cached { .. } => true,
        },
{
    let cursor = path[i];
    let before = chain_of(path).take(i);
    let longer = chain_of(path).take(i + 1);
    assert(longer =~= before.push(Delta::spec_pending(cursor)));
    assert(chain_of(path) =~= longer + chain_of(path).skip(i + 1));
    lemma_all_sizes(chain_of(path));
    lemma_total_size_join(longer, chain_of(path).skip(i + 1));
    lemma_total_size_push(before, Delta::spec_pending(cursor));
    assert(can_add(before, cursor));
    match cursor.header {
        Header::RefDelta { base_id } => {
            let (out3, found) = choose|out3: Seq<u8>, found: Option<ResolvedBase>|
                #[trigger] may_resolve(resolve, base_id, out, out3, found) && walks_on(
                    file,
                    resolve,
                    longer,
                    base_id,
                    cache,
                    out3,
                    found,
                    end,
                );
            assert(may_resolve(resolve, base_id, out, out3, found));
            out3
        },
        _ => out,
    }
}

proof fn lemma_all_sizes(chain: Seq<Delta>)
    ensures
        all_sizes(chain) == total_size(chain),
    decreases chain.len(),
{
    if chain.len() > 0 {
        lemma_all_sizes(chain.skip(1));
    }
}

/// A chain is followed through entries of which the cache has no object.
proof fn lemma_walks_through<
    C: DecodeEntry,
    F: Fn(Id, Vec<u8>) -> (Vec<u8>, Option<ResolvedBase>),
>(
    file: File,
    resolve: F,
    path: Seq<Entry>,
    to: int,
    cold: spec_fn(int, C) -> bool,
    i: int,
    cache: C,
    out: Seq<u8>,
    end: Walk<C>,
) -> (r: (C, Seq<u8>))
    requires
        0 <= i <= to < path.len(),
        leads_through(file, resolve, path),
        all_sizes(chain_of(path)) <= u64::MAX,
        stays_cold(cold, path.take(to)),
        cold(i, cache),
        walks(file, resolve, chain_of(path).take(i), path[i], cache, out, end),
    ensures
        cold(to, r.0),
        walks(file, resolve, chain_of(path).take(to), path[to], r.0, r.1, end),
    decreases to - i,
{
    if i < to {
        let cursor = path[i];
        assert(leads_on(file, resolve, path, i));
        law_header_states_kind(cursor.header);
        let (cache2, out2, hit) = choose|cache2: C, out2: Seq<u8>, hit: Option<(Kind, usize)>|
            #[trigger] C::may_get(cache, cursor.data_offset, out, cache2, out2, hit) && walks_past(
                file,
                resolve,
                chain_of(path).take(i),
                cursor,
                cache2,
                out2,
                hit,
                end,
            );
        assert(path.take(to)[i] == cursor);
        assert(C::may_get(cache, path.take(to)[i].data_offset, out, cache2, out2, hit));
        let out3 = lemma_next(
            file,
            resolve,
            path,
            i,
            Base::InPack(path[i + 1]),
            Seq::empty(),
            cache2,
            out2,
            end,
        );
        lemma_walks_through(file, resolve, path, to, cold, i + 1, cache2, out3, end)
    } else {
        (cache, out)
    }
}

/// A chain of deltas is followed to where it leads, and the cache is asked for each of them in turn, once:
/// if it has none of their objects, to the base, with all deltas on the way.
pub proof fn law_chain_is_followed<
    C: DecodeEntry,
    F: Fn(Id, Vec<u8>) -> (Vec<u8>, Option<ResolvedBase>),
>(
    file: File,
    resolve: F,
    path: Seq<Entry>,
    base: Base,
    object: Seq<u8>,
    cold: spec_fn(int, C) -> bool,
    cache: C,
    out: Seq<u8>,
    end: Walk<C>,
)
    requires
        leads_through(file, resolve, path),
        has_base(file, resolve, path.last(), base, object),
        !(base is Cached),
        base matches Base::InPack(entry) ==> !(entry.header is OfsDelta) && !(entry.header is RefDelta),
        all_sizes(chain_of(path)) <= u64::MAX,
        stays_cold(cold, path),
        cold(0, cache),
        walks(file, resolve, Seq::empty(), path[0], cache, out, end),
    ensures
        end matches Walk::Reached { chain, base: reached, cache: cache2, out: out2 } && {
            &&& chain == chain_of(path)
            &&& reached == base
            &&& cold(path.len() as int, cache2)
            &&& base matches Base::OutOfPack { end: len, .. } ==> len <= out2.len() && out2.take(
                len as int,
            ) == object
        },
{
    let last = path.len() - 1;
    assert(chain_of(path).take(0) =~= Seq::<Delta>::empty());
    assert forall|
        i: int,
        cache: C,
        out: Seq<u8>,
        cache2: C,
        out2: Seq<u8>,
        hit: Option<(Kind, usize)>,
    |
        0 <= i < last && cold(i, cache) && #[trigger] C::may_get(
            cache,
            path.take(last)[i].data_offset,
            out,
            cache2,
            out2,
            hit,
        ) implies cold(i + 1, cache2) && hit is None by {
        assert(C::may_get(cache, path[i].data_offset, out, cache2, out2, hit));
    }
    let (cache1, out1) = lemma_walks_through(
        file,
        resolve,
        path,
        last,
        cold,
        0,
        cache,
        out,
        end,
    );
    let cursor = path[last];
    law_header_states_kind(cursor.header);
    assert(leads_on(file, resolve, path, last));
    let (cache2, out2, hit) = choose|cache2: C, out2: Seq<u8>, hit: Option<(Kind, usize)>|
        #[trigger] C::may_get(cache1, cursor.data_offset, out1, cache2, out2, hit) && walks_past(
            file,
            resolve,
            chain_of(path).take(last),
            cursor,
            cache2,
            out2,
            hit,
            end,
        );
    assert(C::may_get(cache1, path[last].data_offset, out1, cache2, out2, hit));
    let out3 = lemma_next(file, resolve, path, last, base, object, cache2, out2, end);
    assert(chain_of(path).take(last + 1) =~= chain_of(path));
    if let Base::InPack(entry) = base {
        law_header_states_kind(entry.header);
    }
}

/// Following a chain of deltas that name their bases by distances leaves the buffer as it was, if the cache
/// does where it has no object.
pub proof fn law_buffer_is_left_alone<
    C: DecodeEntry,
    F: Fn(Id, Vec<u8>) -> (Vec<u8>, Option<ResolvedBase>),
>(
    file: File,
    resolve: F,
    path: Seq<Entry>,
    i: int,
    base: Entry,
    cache: C,
    out: Seq<u8>,
    end: Walk<C>,
)
    requires
        0 <= i < path.len(),
        leads_through(file, resolve, path),
        has_base(file, resolve, path.last(), Base::InPack(base), Seq::empty()),
        !(base.header is OfsDelta) && !(base.header is RefDelta),
        all_sizes(chain_of(path)) <= u64::MAX,
        forall|j: int| 0 <= j < path.len() ==> (#[trigger] path[j]).header is OfsDelta,
        forall|
            cache: C,
            offset: u64,
            out: Seq<u8>,
            cache2: C,
            out2: Seq<u8>,
            hit: Option<(Kind, usize)>,
        |
            #[trigger] C::may_get(cache, offset, out, cache2, out2, hit) ==> hit is None && out2 == out,
        walks(file, resolve, chain_of(path).take(i), path[i], cache, out, end),
    ensures
        end matches Walk::Reached { out: out2, .. } && out2 == out,
    decreases path.len() - i,
{
    let cursor = path[i];
    assert(leads_on(file, resolve, path, i));
    assert(path[i].header is OfsDelta);
    law_header_states_kind(cursor.header);
    law_header_states_kind(base.header);
    let (cache2, out2, hit) = choose|cache2: C, out2: Seq<u8>, hit: Option<(Kind, usize)>|
        #[trigger] C::may_get(cache, cursor.data_offset, out, cache2, out2, hit) && walks_past(
            file,
            resolve,
            chain_of(path).take(i),
            cursor,
            cache2,
            out2,
            hit,
            end,
        );
    assert(C::may_get(cache, cursor.data_offset, out, cache2, out2, hit));
    let before = chain_of(path).take(i);
    let longer = chain_of(path).take(i + 1);
    assert(longer =~= before.push(Delta::spec_pending(cursor)));
    assert(chain_of(path) =~= longer + chain_of(path).skip(i + 1));
    lemma_all_sizes(chain_of(path));
    lemma_total_size_join(longer, chain_of(path).skip(i + 1));
    lemma_total_size_push(before, Delta::spec_pending(cursor));
    assert(can_add(before, cursor));
    if i + 1 < path.len() {
        law_buffer_is_left_alone(file, resolve, path, i + 1, base, cache2, out2, end);
    }
}

/// A chain of deltas is followed no further than to the first one of which the cache has the object: if it
/// has none of those of `path`, but surely that of the entry `at` that they lead to.
pub proof fn law_chain_is_cut_short<
    C: DecodeEntry,
    F: Fn(Id, Vec<u8>) -> (Vec<u8>, Option<ResolvedBase>),
>(
    file: File,
    resolve: F,
    path: Seq<Entry>,
    at: Entry,
    object: Seq<u8>,
    kind: Kind,
    packed_size: usize,
    cold: spec_fn(int, C) -> bool,
    warm: spec_fn(C) -> bool,
    cache: C,
    out: Seq<u8>,
    end: Walk<C>,
)
    requires
        leads_through(file, resolve, path.push(at)),
        at.header is OfsDelta || at.header is RefDelta,
        all_sizes(chain_of(path.push(at))) <= u64::MAX,
        stays_cold(cold, path),
        cold(0, cache),
        has_surely(at, object, kind, packed_size, |cache: C| cold(path.len() as int, cache), warm),
        walks(file, resolve, Seq::empty(), path.push(at)[0], cache, out, end),
    ensures
        end matches Walk::Reached { chain, base, cache: cache2, out: out2 } && {
            &&& chain == chain_of(path)
            &&& base == Base::Cached { kind, packed_size }
            &&& warm(cache2)
            &&& out2 == object
        },
{
    let all = path.push(at);
    let n = path.len() as int;
    assert(chain_of(all).take(0) =~= Seq::<Delta>::empty());
    assert(all.take(n) =~= path);
    let (cache1, out1) = lemma_walks_through(file, resolve, all, n, cold, 0, cache, out, end);
    law_header_states_kind(at.header);
    let (cache2, out2, hit) = choose|cache2: C, out2: Seq<u8>, hit: Option<(Kind, usize)>|
        #[trigger] C::may_get(cache1, at.data_offset, out1, cache2, out2, hit) && walks_past(
            file,
            resolve,
            chain_of(all).take(n),
            at,
            cache2,
            out2,
            hit,
            end,
        );
    let before = |cache: C| cold(n, cache);
    assert(before(cache1));
    assert(C::may_get(cache1, at.data_offset, out1, cache2, out2, hit));
    assert(chain_of(all).take(n) =~= chain_of(path));
}

/// Whether a cache of which `before` holds surely has `object` for the entry `at`, and `after` holds of it
/// once it was asked.
pub open spec fn has_surely<C: DecodeEntry>(
    at: Entry,
    object: Seq<u8>,
    kind: Kind,
    packed_size: usize,
    before: spec_fn(C) -> bool,
    after: spec_fn(C) -> bool,
) -> bool {
    forall|cache: C, out: Seq<u8>, cache2: C, out2: Seq<u8>, hit: Option<(Kind, usize)>|
        before(cache) && #[trigger] C::may_get(cache, at.data_offset, out, cache2, out2, hit) ==> {
            &&& after(cache2)
            &&& out2 == object
            &&& hit == Some((kind, packed_size))
        }
}

/// Whether the deltas of the entries of `path` decompress to all bytes that they should, those in `deltas`.
pub open spec fn decompress_fully(data: Seq<u8>, path: Seq<Entry>, deltas: Seq<Seq<u8>>) -> bool {
    &&& path.len() == deltas.len()
    &&& forall|i: int|
        0 <= i < path.len() ==> {
            let (consumed, bytes) = inflated(
                data.skip((#[trigger] path[i]).data_offset as int),
                path[i].decompressed_size as nat,
            );
            &&& path[i].data_offset < data.len()
            &&& path[i].decompressed_size <= usize::MAX
            &&& consumed is Some
            &&& bytes == deltas[i]
            &&& bytes.len() == path[i].decompressed_size
        }
}

/// Whether the deltas of the entries of `path` and `base`, which is `object`, can be put together,
/// whatever else is in the buffer.
pub open spec fn can_be_put_together(
    data: Seq<u8>,
    path: Seq<Entry>,
    deltas: Seq<Seq<u8>>,
    base: Base,
    object: Seq<u8>,
) -> bool {
    let total = all_sizes(chain_of(path));
    let biggest = biggest_stated(deltas);
    let room = 2 * biggest + total;
    &&& path.len() > 0
    &&& decompress_fully(data, path, deltas)
    &&& gives(data, base, object, room, biggest, object)
    &&& room <= isize::MAX
    &&& object.len() + total <= isize::MAX
    &&& make(object, deltas) is Some
    &&& packed_size(data, chain_of(path)) + taken_in_pack(data, base, room) <= usize::MAX
    &&& all_results(deltas) + size_of_base(base) <= u64::MAX
}

proof fn lemma_decompress_fully(data: Seq<u8>, path: Seq<Entry>, deltas: Seq<Seq<u8>>, old: Seq<u8>)
    requires
        decompress_fully(data, path, deltas),
        all_sizes(chain_of(path)) <= old.len(),
    ensures
        all_decompress(data, chain_of(path), deltas, old),
    decreases path.len(),
{
    if path.len() > 0 {
        let rest = path.skip(1);
        assert(chain_of(path).skip(1) =~= chain_of(rest));
        assert forall|i: int| 0 <= i < rest.len() implies #[trigger] rest[i] == path[i + 1] && deltas.skip(
            1,
        )[i] == deltas[i + 1] by {}
        assert(path[0].decompressed_size == deltas[0].len());
        lemma_decompress_fully(data, rest, deltas.skip(1), old);
        let at = all_sizes(chain_of(rest)) as int;
        let size = path[0].decompressed_size as int;
        assert(old.subrange(at, at + size).skip(size) =~= Seq::<u8>::empty());
        assert(deltas[0] + Seq::<u8>::empty() =~= deltas[0]);
    }
}

proof fn lemma_fits_together(
    data: Seq<u8>,
    path: Seq<Entry>,
    deltas: Seq<Seq<u8>>,
    base: Base,
    object: Seq<u8>,
    out: Seq<u8>,
)
    requires
        can_be_put_together(data, path, deltas, base, object),
        match base {
            Base::InPack(_) => true,
            Base::Cached { .. } => out == object,
            Base::OutOfPack { end, .. } => end <= out.len() && out.take(end as int) == object,
        },
    ensures
        fits_together(data, chain_of(path), deltas, base, object, out),
{
    let start = taken(base, object);
    let total = all_sizes(chain_of(path));
    let old = brought_to(out, start + total).skip(start as int);
    assert(old.len() == total);
    if let Base::OutOfPack { end, .. } = base {
        assert(brought_to(out, end as nat) =~= out.take(end as int));
    }
    lemma_decompress_fully(data, path, deltas, old);
}

/// What decoding the first entry of `path` gives back, where its deltas and `base` are put together.
pub open spec fn gives_back<C: DecodeEntry>(
    data: Seq<u8>,
    path: Seq<Entry>,
    deltas: Seq<Seq<u8>>,
    base: Base,
    object: Seq<u8>,
    kind: Kind,
    out2: Seq<u8>,
    r: Result<Outcome, Error>,
    cache1: C,
    cache2: C,
) -> bool {
    let chain = chain_of(path);
    let base_packed = taken_in_pack(data, base, 2 * biggest_stated(deltas) + all_sizes(chain));
    &&& out2 == make(object, deltas)->0
    &&& r == Ok::<Outcome, Error>(
        Outcome {
            kind,
            num_deltas: (path.len() % 0x1_0000_0000) as u32,
            decompressed_size: (all_sizes(chain) + size_of_base(base)) as u64,
            compressed_size: (packed_size(data, chain) + base_packed) as usize,
            object_size: (all_results(deltas) + size_of_base(base)) as u64,
        },
    )
    &&& is_told(
        cache1,
        base,
        object,
        base_packed,
        kind,
        path[0],
        make(object, deltas)->0,
        packed_size_of(data, chain[0]),
        cache2,
    )
}

/// Decoding an entry whose deltas lead to an object, with a cache that has none of the objects on the way,
/// gives what they make of that object, with its kind and the totals; the cache is asked for each entry on
/// the way, in turn and once, and is then told of the base and of the result.
pub proof fn law_chain_is_decoded<
    C: DecodeEntry,
    F: Fn(Id, Vec<u8>) -> (Vec<u8>, Option<ResolvedBase>),
>(
    file: File,
    resolve: F,
    path: Seq<Entry>,
    deltas: Seq<Seq<u8>>,
    base: Base,
    object: Seq<u8>,
    kind: Kind,
    cold: spec_fn(int, C) -> bool,
    cache: C,
    out: Seq<u8>,
)
    requires
        leads_through(file, resolve, path),
        has_base(file, resolve, path.last(), base, object),
        !(base is Cached),
        is_of_kind(base, kind),
        can_be_put_together(file.data@, path, deltas, base, object),
        stays_cold(cold, path),
        cold(0, cache),
    ensures
        file.can_decode(path[0], resolve, cache, out),
        forall|cache2: C, out2: Seq<u8>, r: Result<Outcome, Error>|
            #[trigger] file.decodes(path[0], resolve, cache, out, cache2, out2, r) ==> exists|cache1: C|
                cold(path.len() as int, cache1) && #[trigger] gives_back(
                    file.data@,
                    path,
                    deltas,
                    base,
                    object,
                    kind,
                    out2,
                    r,
                    cache1,
                    cache2,
                ),
{
    assert(leads_on(file, resolve, path, 0));
    lemma_first_is_delta(file, resolve, path, base, object);
    assert forall|end: Walk<C>|
        #[trigger] walks(file, resolve, Seq::empty(), path[0], cache, out, end) implies can_finish(
        file,
        end,
    ) by {
        law_chain_is_followed(file, resolve, path, base, object, cold, cache, out, end);
        lemma_fits_together(file.data@, path, deltas, base, object, end->Reached_out);
        law_chain_is_put_together(
            file,
            path[0],
            chain_of(path),
            deltas,
            base,
            object,
            kind,
            end->Reached_cache,
            end->Reached_out,
        );
    }
    assert forall|cache2: C, out2: Seq<u8>, r: Result<Outcome, Error>|
        #[trigger] file.decodes(path[0], resolve, cache, out, cache2, out2, r) implies exists|cache1: C|
        cold(path.len() as int, cache1) && #[trigger] gives_back(
            file.data@,
            path,
            deltas,
            base,
            object,
            kind,
            out2,
            r,
            cache1,
            cache2,
        ) by {
        let end = choose|end: Walk<C>|
            #[trigger] walks(file, resolve, Seq::empty(), path[0], cache, out, end) && finishes(
                file,
                path[0],
                end,
                cache2,
                out2,
                r,
            );
        law_chain_is_followed(file, resolve, path, base, object, cold, cache, out, end);
        lemma_fits_together(file.data@, path, deltas, base, object, end->Reached_out);
        law_chain_is_put_together(
            file,
            path[0],
            chain_of(path),
            deltas,
            base,
            object,
            kind,
            end->Reached_cache,
            end->Reached_out,
        );
        assert(gives_back(
            file.data@,
            path,
            deltas,
            base,
            object,
            kind,
            out2,
            r,
            end->Reached_cache,
            cache2,
        ));
    }
}

/// What is followed through is a delta.
proof fn lemma_first_is_delta<F: Fn(Id, Vec<u8>) -> (Vec<u8>, Option<ResolvedBase>)>(
    file: File,
    resolve: F,
    path: Seq<Entry>,
    base: Base,
    object: Seq<u8>,
)
    requires
        leads_through(file, resolve, path),
        has_base(file, resolve, path.last(), base, object),
    ensures
        path[0].header.spec_is_delta(),
{
    assert(leads_on(file, resolve, path, 0));
    law_header_states_kind(path[0].header);
}

/// Decoding an entry, with a cache that has none of the objects of `path` but surely that of the entry that
/// they lead to, gives what their deltas make of that object, and goes no further.
pub proof fn law_chain_is_decoded_from_cache<
    C: DecodeEntry,
    F: Fn(Id, Vec<u8>) -> (Vec<u8>, Option<ResolvedBase>),
>(
    file: File,
    resolve: F,
    path: Seq<Entry>,
    deltas: Seq<Seq<u8>>,
    at: Entry,
    object: Seq<u8>,
    kind: Kind,
    packed_size: usize,
    cold: spec_fn(int, C) -> bool,
    warm: spec_fn(C) -> bool,
    cache: C,
    out: Seq<u8>,
)
    requires
        leads_through(file, resolve, path.push(at)),
        at.header is OfsDelta || at.header is RefDelta,
        all_sizes(chain_of(path.push(at))) <= u64::MAX,
        can_be_put_together(file.data@, path, deltas, (Base::Cached { kind, packed_size }), object),
        stays_cold(cold, path),
        cold(0, cache),
        has_surely(at, object, kind, packed_size, |cache: C| cold(path.len() as int, cache), warm),
    ensures
        file.can_decode(path[0], resolve, cache, out),
        forall|cache2: C, out2: Seq<u8>, r: Result<Outcome, Error>|
            #[trigger] file.decodes(path[0], resolve, cache, out, cache2, out2, r) ==> exists|cache1: C|
                warm(cache1) && #[trigger] gives_back(
                    file.data@,
                    path,
                    deltas,
                    (Base::Cached { kind, packed_size }),
                    object,
                    kind,
                    out2,
                    r,
                    cache1,
                    cache2,
                ),
{
    let all = path.push(at);
    let base = Base::Cached { kind, packed_size };
    assert(all[0] == path[0]);
    assert(leads_on(file, resolve, all, 0));
    law_header_states_kind(path[0].header);
    assert forall|end: Walk<C>|
        #[trigger] walks(file, resolve, Seq::empty(), path[0], cache, out, end) implies can_finish(
        file,
        end,
    ) by {
        law_chain_is_cut_short(
            file,
            resolve,
            path,
            at,
            object,
            kind,
            packed_size,
            cold,
            warm,
            cache,
            out,
            end,
        );
        lemma_fits_together(file.data@, path, deltas, base, object, end->Reached_out);
        law_chain_is_put_together(
            file,
            path[0],
            chain_of(path),
            deltas,
            base,
            object,
            kind,
            end->Reached_cache,
            end->Reached_out,
        );
    }
    assert forall|cache2: C, out2: Seq<u8>, r: Result<Outcome, Error>|
        #[trigger] file.decodes(path[0], resolve, cache, out, cache2, out2, r) implies exists|cache1: C|
        warm(cache1) && #[trigger] gives_back(
            file.data@,
            path,
            deltas,
            base,
            object,
            kind,
            out2,
            r,
            cache1,
            cache2,
        ) by {
        let end = choose|end: Walk<C>|
            #[trigger] walks(file, resolve, Seq::empty(), path[0], cache, out, end) && finishes(
                file,
                path[0],
                end,
                cache2,
                out2,
                r,
            );
        law_chain_is_cut_short(
            file,
            resolve,
            path,
            at,
            object,
            kind,
            packed_size,
            cold,
            warm,
            cache,
            out,
            end,
        );
        lemma_fits_together(file.data@, path, deltas, base, object, end->Reached_out);
        law_chain_is_put_together(
            file,
            path[0],
            chain_of(path),
            deltas,
            base,
            object,
            kind,
            end->Reached_cache,
            end->Reached_out,
        );
        assert(gives_back(
            file.data@,
            path,
            deltas,
            base,
            object,
            kind,
            out2,
            r,
            end->Reached_cache,
            cache2,
        ));
    }
}

/// A delta of which the cache surely has the object is not followed at all: the object is left in the
/// buffer, and told with its size and with what the cache knows of it. The cache is told of nothing.
pub proof fn law_first_is_decoded_from_cache<
    C: DecodeEntry,
    F: Fn(Id, Vec<u8>) -> (Vec<u8>, Option<ResolvedBase>),
>(
    file: File,
    resolve: F,
    entry: Entry,
    object: Seq<u8>,
    kind: Kind,
    packed_size: usize,
    before: spec_fn(C) -> bool,
    warm: spec_fn(C) -> bool,
    cache: C,
    out: Seq<u8>,
)
    requires
        entry.header is OfsDelta || entry.header is RefDelta,
        has_surely(entry, object, kind, packed_size, before, warm),
        before(cache),
    ensures
        file.can_decode(entry, resolve, cache, out),
        forall|cache2: C, out2: Seq<u8>, r: Result<Outcome, Error>|
            #[trigger] file.decodes(entry, resolve, cache, out, cache2, out2, r) ==> {
                &&& warm(cache2)
                &&& out2 == object
                &&& r == Ok::<Outcome, Error>(
                    Outcome {
                        kind,
                        num_deltas: 0,
                        decompressed_size: entry.decompressed_size,
                        compressed_size: packed_size,
                        object_size: object.len() as u64,
                    },
                )
            },
{
    law_header_states_kind(entry.header);
}

/// A whole object is decompressed to the start of the buffer, which is brought to its size; the cache is
/// neither asked nor told. It can be decoded if it is in the pack and fits into memory.
pub proof fn law_whole_object_is_decoded<
    C: DecodeEntry,
    F: Fn(Id, Vec<u8>) -> (Vec<u8>, Option<ResolvedBase>),
>(file: File, entry: Entry, resolve: F, kind: Kind, cache: C, out: Seq<u8>)
    requires
        holds(entry.header, kind),
    ensures
        file.can_decode(entry, resolve, cache, out) <==> entry.data_offset < file.data@.len()
            && entry.decompressed_size <= isize::MAX,
        forall|cache2: C, out2: Seq<u8>, r: Result<Outcome, Error>|
            #[trigger] file.decodes(entry, resolve, cache, out, cache2, out2, r) ==> {
                let size = entry.decompressed_size as nat;
                let (consumed, bytes) = inflated(file.data@.skip(entry.data_offset as int), size);
                &&& cache2 == cache
                &&& bytes.len() <= size ==> {
                    &&& out2.len() == size
                    &&& forall|j: int|
                        0 <= j < size ==> #[trigger] out2[j] == if j < bytes.len() {
                            bytes[j]
                        } else if j < out.len() {
                            out[j]
                        } else {
                            0
                        }
                }
                &&& r == match consumed {
                    Some(consumed) => Ok(
                        Outcome {
                            kind,
                            num_deltas: 0,
                            decompressed_size: entry.decompressed_size,
                            compressed_size: consumed as usize,
                            object_size: entry.decompressed_size,
                        },
                    ),
                    None => Err(Error::ZlibInflate(zlib::Error::Inflate)),
                }
            },
{
    let size = entry.decompressed_size as nat;
    let bytes = inflated(file.data@.skip(entry.data_offset as int), size).1;
    law_header_states_kind(entry.header);
    law_resized(out, size);
    if bytes.len() <= size {
        law_overwritten(resized(out, size), 0, bytes);
    }
}

/// A chain with a delta whose data can not be decompressed is refused, once the older ones are decompressed
/// and state their sizes. The cache is not told of anything.
pub proof fn law_bad_delta_is_refused<C: DecodeEntry>(
    file: File,
    first: Entry,
    chain: Seq<Delta>,
    base: Base,
    bad: int,
    older: Seq<Seq<u8>>,
    start: nat,
    cache: C,
    out: Seq<u8>,
)
    requires
        0 <= bad < chain.len(),
        chain[bad].data_offset < file.data@.len(),
        inflated(
            file.data@.skip(chain[bad].data_offset as int),
            chain[bad].decompressed_size as nat,
        ).0 is None,
        match base {
            Base::InPack(_) => start == 0,
            Base::Cached { .. } => start == out.len(),
            Base::OutOfPack { end, .. } => start == end,
        },
        start + all_sizes(chain) <= isize::MAX,
        all_decompress(
            file.data@,
            chain.skip(bad + 1),
            older,
            brought_to(out, start + all_sizes(chain)).skip(start as int),
        ),
        all_state_sizes(older),
        biggest_stated(older) <= usize::MAX,
    ensures
        can_finish(file, (Walk::Reached { chain, base, cache, out })),
        forall|cache2: C, out2: Seq<u8>, r: Result<Outcome, Error>|
            #[trigger] finishes(
                file,
                first,
                (Walk::Reached { chain, base, cache, out }),
                cache2,
                out2,
                r,
            ) ==> cache2 == cache && r == Err::<Outcome, Error>(
                Error::ZlibInflate(zlib::Error::Inflate),
            ),
{
    let grown = resized(out, start + all_sizes(chain));
    law_resized(out, start + all_sizes(chain));
    assert(grown =~= brought_to(out, start + all_sizes(chain)));
    let old = grown.skip(start as int);
    lemma_all_sizes(chain);
    lemma_prepare_next(file.data@, chain, old, bad);
    lemma_all_prepared(file.data@, chain.skip(bad + 1), older, old);
    lemma_prepare_ends(file.data@, chain, old, bad);
}

/// A chain onto an object in the pack whose data can not be decompressed is refused, once the deltas are
/// decompressed and state their sizes. The cache is not told of anything.
pub proof fn law_bad_base_is_refused<C: DecodeEntry>(
    file: File,
    first: Entry,
    chain: Seq<Delta>,
    deltas: Seq<Seq<u8>>,
    base: Entry,
    cache: C,
    out: Seq<u8>,
)
    requires
        chain.len() > 0,
        all_decompress(file.data@, chain, deltas, brought_to(out, all_sizes(chain))),
        all_state_sizes(deltas),
        2 * biggest_stated(deltas) + all_sizes(chain) <= isize::MAX,
        base.data_offset < file.data@.len(),
        inflated(
            file.data@.skip(base.data_offset as int),
            2 * biggest_stated(deltas) + all_sizes(chain),
        ).0 is None,
    ensures
        can_finish(file, (Walk::Reached { chain, base: Base::InPack(base), cache, out })),
        forall|cache2: C, out2: Seq<u8>, r: Result<Outcome, Error>|
            #[trigger] finishes(
                file,
                first,
                (Walk::Reached { chain, base: Base::InPack(base), cache, out }),
                cache2,
                out2,
                r,
            ) ==> cache2 == cache && r == Err::<Outcome, Error>(
                Error::ZlibInflate(zlib::Error::Inflate),
            ),
{
    let total = all_sizes(chain);
    let biggest = biggest_stated(deltas);
    let grown = resized(out, total);
    law_resized(out, total);
    assert(grown =~= brought_to(out, total));
    assert(grown.skip(0) =~= grown);
    lemma_all_sizes(chain);
    lemma_sizes(file.data@, chain, deltas, grown);
    lemma_all_prepared(file.data@, chain, deltas, grown);
    assert(in_a_row(deltas) + grown.skip(total as int) =~= in_a_row(deltas));
    law_laid_out(grown.take(0), in_a_row(deltas), biggest);
}

/// A chain that leads, through deltas of which the cache has no object, to one whose base can not be found
/// is refused with the id of that base. The cache was asked for each of them, in turn and once, and the
/// buffer is what `resolve` gave back.
pub proof fn law_missing_base_is_named<
    C: DecodeEntry,
    F: Fn(Id, Vec<u8>) -> (Vec<u8>, Option<ResolvedBase>),
>(
    file: File,
    resolve: F,
    path: Seq<Entry>,
    base_id: Id,
    cold: spec_fn(int, C) -> bool,
    cache: C,
    out: Seq<u8>,
)
    requires
        leads_through(file, resolve, path),
        path.last().header == (Header::RefDelta { base_id }),
        forall|before: Vec<u8>, after: Vec<u8>, found: Option<ResolvedBase>|
            #[trigger] call_ensures(resolve, (base_id, before), (after, found)) ==> found is None,
        all_sizes(chain_of(path)) <= u64::MAX,
        stays_cold(cold, path),
        cold(0, cache),
    ensures
        file.can_decode(path[0], resolve, cache, out),
        forall|cache2: C, out2: Seq<u8>, r: Result<Outcome, Error>|
            #[trigger] file.decodes(path[0], resolve, cache, out, cache2, out2, r) ==> {
                &&& r == Err::<Outcome, Error>(Error::DeltaBaseUnresolved(base_id))
                &&& cold(path.len() as int, cache2)
                &&& exists|before: Vec<u8>, after: Vec<u8>|
                    #[trigger] call_ensures(resolve, (base_id, before), (after, None)) && after@ == out2
            },
{
    assert(leads_on(file, resolve, path, 0));
    law_header_states_kind(path[0].header);
    assert forall|end: Walk<C>|
        #[trigger] walks(file, resolve, Seq::empty(), path[0], cache, out, end) implies can_finish(
        file,
        end,
    ) by {
        lemma_ends_missing(file, resolve, path, base_id, cold, cache, out, end);
    }
    assert forall|cache2: C, out2: Seq<u8>, r: Result<Outcome, Error>|
        #[trigger] file.decodes(path[0], resolve, cache, out, cache2, out2, r) implies r == Err::<
        Outcome,
        Error,
    >(Error::DeltaBaseUnresolved(base_id)) && cold(path.len() as int, cache2) && exists|
        before: Vec<u8>,
        after: Vec<u8>,
    |
        #[trigger] call_ensures(resolve, (base_id, before), (after, None)) && after@ == out2 by {
        let end = choose|end: Walk<C>|
            #[trigger] walks(file, resolve, Seq::empty(), path[0], cache, out, end) && finishes(
                file,
                path[0],
                end,
                cache2,
                out2,
                r,
            );
        lemma_ends_missing(file, resolve, path, base_id, cold, cache, out, end);
    }
}

proof fn lemma_ends_missing<
    C: DecodeEntry,
    F: Fn(Id, Vec<u8>) -> (Vec<u8>, Option<ResolvedBase>),
>(
    file: File,
    resolve: F,
    path: Seq<Entry>,
    base_id: Id,
    cold: spec_fn(int, C) -> bool,
    cache: C,
    out: Seq<u8>,
    end: Walk<C>,
)
    requires
        leads_through(file, resolve, path),
        path.last().header == (Header::RefDelta { base_id }),
        forall|before: Vec<u8>, after: Vec<u8>, found: Option<ResolvedBase>|
            #[trigger] call_ensures(resolve, (base_id, before), (after, found)) ==> found is None,
        all_sizes(chain_of(path)) <= u64::MAX,
        stays_cold(cold, path),
        cold(0, cache),
        walks(file, resolve, Seq::empty(), path[0], cache, out, end),
    ensures
        end matches Walk::Unresolved { id, cache: cache2, out: out2 } && {
            &&& id == base_id
            &&& cold(path.len() as int, cache2)
            &&& exists|before: Vec<u8>, after: Vec<u8>|
                #[trigger] call_ensures(resolve, (base_id, before), (after, None)) && after@ == out2
        },
{
    let last = path.len() - 1;
    assert(chain_of(path).take(0) =~= Seq::<Delta>::empty());
    assert forall|
        i: int,
        cache: C,
        out: Seq<u8>,
        cache2: C,
        out2: Seq<u8>,
        hit: Option<(Kind, usize)>,
    |
        0 <= i < last && cold(i, cache) && #[trigger] C::may_get(
            cache,
            path.take(last)[i].data_offset,
            out,
            cache2,
            out2,
            hit,
        ) implies cold(i + 1, cache2) && hit is None by {
        assert(C::may_get(cache, path[i].data_offset, out, cache2, out2, hit));
    }
    let (cache1, out1) = lemma_walks_through(
        file,
        resolve,
        path,
        last,
        cold,
        0,
        cache,
        out,
        end,
    );
    let cursor = path[last];
    law_header_states_kind(cursor.header);
    assert(leads_on(file, resolve, path, last));
    let (cache2, out2, hit) = choose|cache2: C, out2: Seq<u8>, hit: Option<(Kind, usize)>|
        #[trigger] C::may_get(cache1, cursor.data_offset, out1, cache2, out2, hit) && walks_past(
            file,
            resolve,
            chain_of(path).take(last),
            cursor,
            cache2,
            out2,
            hit,
            end,
        );
    assert(C::may_get(cache1, path[last].data_offset, out1, cache2, out2, hit));
    let before = chain_of(path).take(last);
    let longer = before.push(Delta::spec_pending(cursor));
    assert(chain_of(path) =~= before.push(chain_of(path)[last]));
    lemma_all_sizes(chain_of(path));
    lemma_total_size_push(before, chain_of(path)[last]);
    assert(can_add(before, cursor));
    let (out3, found) = choose|out3: Seq<u8>, found: Option<ResolvedBase>|
        #[trigger] may_resolve(resolve, base_id, out2, out3, found) && walks_on(
            file,
            resolve,
            longer,
            base_id,
            cache2,
            out3,
            found,
            end,
        );
    assert(may_resolve(resolve, base_id, out2, out3, found));
}

/// What `resolve` may find, and what it may make of the buffer, is just what it says of its result.
pub proof fn law_resolve_is_taken_at_its_word<
    F: Fn(Id, Vec<u8>) -> (Vec<u8>, Option<ResolvedBase>),
>(resolve: F, id: Id)
    ensures
        forall|before: Vec<u8>, after: Vec<u8>, found: Option<ResolvedBase>|
            #[trigger] call_ensures(resolve, (id, before), (after, found)) ==> may_resolve(
                resolve,
                id,
                before@,
                after@,
                found,
            ),
        forall|before: Seq<u8>, after: Seq<u8>, found: Option<ResolvedBase>|
            #[trigger] may_resolve(resolve, id, before, after, found) ==> exists|b: Vec<u8>, a: Vec<u8>|
                b@ == before && a@ == after && #[trigger] call_ensures(resolve, (id, b), (a, found)),
{
}

/// A delta that names its base by an id leads to the entry that was found, or to the object, or nowhere.
pub proof fn law_next(id: Id, entry: Entry, kind: Kind, end: usize)
    ensures
        next_of(id, Some(ResolvedBase::InPack(entry))) == Next::Entry(entry),
        next_of(id, Some(ResolvedBase::OutOfPack { kind, end })) == Next::Base(
            Base::OutOfPack { kind, end },
        ),
        next_of(id, None) == Next::Unresolved(id),
{
}

/// What is told of an object is what is known of it.
pub proof fn law_outcomes(
    kind: Kind,
    entry: Entry,
    num_deltas: nat,
    decompressed_size: u64,
    compressed_size: usize,
    object_size: u64,
)
    ensures
        Outcome::spec_from_object_entry(kind, entry, compressed_size) == (Outcome {
            kind,
            num_deltas: 0,
            decompressed_size: entry.decompressed_size,
            compressed_size,
            object_size: entry.decompressed_size,
        }),
        Outcome::spec_from_cached_object(kind, entry, compressed_size, object_size as nat) == (Outcome {
            kind,
            num_deltas: 0,
            decompressed_size: entry.decompressed_size,
            compressed_size,
            object_size,
        }),
        Outcome::spec_from_delta_chain(
            kind,
            num_deltas,
            decompressed_size as nat,
            compressed_size as nat,
            object_size as nat,
        ) == (Outcome {
            kind,
            num_deltas: (num_deltas % 0x1_0000_0000) as u32,
            decompressed_size,
            compressed_size,
            object_size,
        }),
{
}

} // verus!
