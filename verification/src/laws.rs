//! What holds of decoding as a whole.
use crate::assemble::{
    applied, assembled, delta_fits, delta_result, fill, laid_out, larger, lemma_prepare_ends,
    lemma_prepare_next, prepare, resized, sized, total_size, Base, Filled, Prepared,
};
use crate::cache::{DecodeEntry, Noop};
use crate::chain::{Delta, MAX_CHAIN_LEN};
use crate::decode::{
    can_add, can_finish, finishes, lemma_total_size_push, may_resolve, may_store, may_store_base, walks,
    walks_on, walks_past, Error, Outcome, ResolvedBase, Walk,
};
use crate::delta::{
    copy_args, copy_offset, copy_size, delta_output, lemma_delta_output_len, lemma_size_len_bounds, low_64, size_len,
    size_value, MAX_SIZE_BYTES,
};
use crate::encoding::{holds, law_header_states_kind};
use crate::entry::{
    distance_len, distance_value, entry_at, group_count, number_ends, type_id, Entry, Header,
};
use crate::file::File;
use crate::object::{Id, Kind};
use crate::zlib::{self, inflated, overwritten};
use vstd::arithmetic::power2::{lemma2_to64, lemma_pow2_adds, pow2};
use vstd::prelude::*;

verus! {

/// The object that a delta makes of `base`: what its instructions produce, if the two sizes that it
/// states are complete and those of the two objects.
pub open spec fn delta_object(base: Seq<u8>, delta: Seq<u8>) -> Option<Seq<u8>> {
    let n = size_len(delta);
    let rest = delta.skip(n as int);
    let m = size_len(rest);
    match delta_output(base, rest.skip(m as int)) {
        Some(object) => if number_ends(delta) && number_ends(rest) && n <= 10 && m <= 10
            && size_value(delta) == base.len() && size_value(rest) == object.len() {
            Some(object)
        } else {
            None
        },
        None => None,
    }
}

/// The object that a chain of deltas makes of `base`, the last one first.
pub open spec fn object_of(base: Seq<u8>, deltas: Seq<Seq<u8>>) -> Option<Seq<u8>>
    decreases deltas.len(),
{
    if deltas.len() == 0 {
        Some(base)
    } else {
        match object_of(base, deltas.skip(1)) {
            Some(older) => delta_object(older, deltas[0]),
            None => None,
        }
    }
}

/// The size of the largest object on the way from `base`.
pub open spec fn largest(base: Seq<u8>, deltas: Seq<Seq<u8>>) -> nat
    decreases deltas.len(),
{
    if deltas.len() == 0 {
        base.len()
    } else {
        larger(largest(base, deltas.skip(1)), object_of(base, deltas)->0.len())
    }
}

/// How many bytes all objects have that the deltas produce.
pub open spec fn objects_size(base: Seq<u8>, deltas: Seq<Seq<u8>>) -> nat
    decreases deltas.len(),
{
    if deltas.len() == 0 {
        0
    } else {
        objects_size(base, deltas.skip(1)) + object_of(base, deltas)->0.len()
    }
}

/// How many bytes the deltas of `chain` take in the pack.
pub open spec fn packed_size(data: Seq<u8>, chain: Seq<Delta>) -> nat
    decreases chain.len(),
{
    if chain.len() == 0 {
        0
    } else {
        packed_size(data, chain.skip(1)) + packed_size_of(data, chain[0])
    }
}

/// How many bytes `delta` takes in the pack.
pub open spec fn packed_size_of(data: Seq<u8>, delta: Delta) -> nat {
    inflated(data.skip(delta.data_offset as int), delta.decompressed_size as nat).0->0
}

/// Whether the deltas of `chain` are in the pack and decompress to just as many bytes as they should,
/// to those in `deltas`.
pub open spec fn decompress_to(data: Seq<u8>, chain: Seq<Delta>, deltas: Seq<Seq<u8>>) -> bool {
    &&& chain.len() == deltas.len()
    &&& forall|i: int|
        #![trigger chain[i]]
        #![trigger deltas[i]]
        0 <= i < chain.len() ==> {
            let (consumed, bytes) = inflated(
                data.skip(chain[i].data_offset as int),
                chain[i].decompressed_size as nat,
            );
            &&& chain[i].data_offset < data.len()
            &&& consumed is Some
            &&& bytes == deltas[i]
            &&& bytes.len() == chain[i].decompressed_size
        }
}

/// Whether `base` is `object`: in the buffer `out` already, or in the pack and decompressing to it
/// where there is room for `room` bytes.
pub open spec fn is_base(
    data: Seq<u8>,
    base: Base,
    out: Seq<u8>,
    room: nat,
    object: Seq<u8>,
) -> bool {
    match base {
        Base::InPack(entry) => {
            let (consumed, bytes) = inflated(data.skip(entry.data_offset as int), room);
            &&& entry.data_offset < data.len()
            &&& consumed is Some
            &&& bytes == object
            &&& bytes.len() == entry.decompressed_size
        },
        Base::Cached { .. } => out == object,
        Base::OutOfPack { end, .. } => end <= out.len() && out.take(end as int) == object,
    }
}

/// How many bytes `base` takes in the pack, if it is found there.
pub open spec fn base_packed_size(data: Seq<u8>, base: Base, room: nat) -> nat {
    match base {
        Base::InPack(entry) => inflated(data.skip(entry.data_offset as int), room).0->0,
        _ => 0,
    }
}

/// The deltas, the oldest one first, one after the other.
spec fn joined(deltas: Seq<Seq<u8>>) -> Seq<u8>
    decreases deltas.len(),
{
    if deltas.len() == 0 {
        Seq::empty()
    } else {
        joined(deltas.skip(1)) + deltas[0]
    }
}

/// The deltas of `chain` with the sizes that they state in `deltas`, and the place of their
/// instructions when joined.
spec fn noted(chain: Seq<Delta>, deltas: Seq<Seq<u8>>) -> Seq<Delta>
    decreases chain.len(),
{
    if chain.len() == 0 {
        Seq::empty()
    } else {
        let at = joined(deltas.skip(1)).len();
        let n = size_len(deltas[0]);
        let rest = deltas[0].skip(n as int);
        seq![
            Delta {
                data_start: (at + n + size_len(rest)) as usize,
                data_end: (at + deltas[0].len()) as usize,
                base_size: size_value(deltas[0]) as usize,
                result_size: size_value(rest) as usize,
                ..chain[0]
            },
        ] + noted(chain.skip(1), deltas.skip(1))
    }
}

/// What follows a complete number makes no difference to it.
pub(crate) proof fn lemma_number_prefix(d: Seq<u8>, tail: Seq<u8>)
    requires
        number_ends(d),
    ensures
        size_len(d + tail) == size_len(d),
        size_value(d + tail) == size_value(d),
    decreases d.len(),
{
    assert((d + tail)[0] == d[0]);
    if d[0] >= 0x80 {
        assert((d + tail).skip(1) == d.skip(1) + tail);
        lemma_number_prefix(d.skip(1), tail);
    }
}

proof fn lemma_decompress_to_skip(data: Seq<u8>, chain: Seq<Delta>, deltas: Seq<Seq<u8>>)
    requires
        decompress_to(data, chain, deltas),
        chain.len() > 0,
    ensures
        decompress_to(data, chain.skip(1), deltas.skip(1)),
{
    assert forall|i: int| 0 <= i < chain.len() - 1 implies chain.skip(1)[i] == chain[i + 1]
        && deltas.skip(1)[i] == deltas[i + 1] by {}
}

proof fn lemma_joined_len(data: Seq<u8>, chain: Seq<Delta>, deltas: Seq<Seq<u8>>)
    requires
        decompress_to(data, chain, deltas),
    ensures
        joined(deltas).len() == total_size(chain),
    decreases chain.len(),
{
    if chain.len() > 0 {
        lemma_decompress_to_skip(data, chain, deltas);
        lemma_joined_len(data, chain.skip(1), deltas.skip(1));
        assert(chain[0].decompressed_size == deltas[0].len());
    }
}

/// A delta that was decompressed behind the older ones states its sizes, whatever follows.
proof fn lemma_sized(delta: Delta, older: Seq<u8>, d: Seq<u8>, tail: Seq<u8>, base: Seq<u8>)
    requires
        delta_object(base, d) is Some,
        delta.decompressed_size == d.len(),
        older.len() + d.len() + tail.len() <= usize::MAX,
        base.len() <= usize::MAX,
        delta_object(base, d)->0.len() <= usize::MAX,
    ensures
        ({
            let n = size_len(d);
            let rest = d.skip(n as int);
            sized(delta, older.len(), older + d + tail) == Some(
                Delta {
                    data_start: (older.len() + n + size_len(rest)) as usize,
                    data_end: (older.len() + d.len()) as usize,
                    base_size: size_value(d) as usize,
                    result_size: size_value(rest) as usize,
                    ..delta
                },
            )
        }),
        size_len(d) + size_len(d.skip(size_len(d) as int)) <= d.len(),
{
    let n = size_len(d);
    let rest = d.skip(n as int);
    lemma_size_len_bounds(d);
    lemma_size_len_bounds(rest);
    lemma_number_prefix(d, tail);
    lemma_number_prefix(rest, tail);
    assert((older + d + tail).skip(older.len() as int) == d + tail);
    assert((d + tail).skip(n as int) == rest + tail);
}

/// Deltas that decompress as they should come to lie one after the other, and their sizes are noted.
#[verifier::rlimit(30)]
proof fn lemma_prepare(
    data: Seq<u8>,
    chain: Seq<Delta>,
    deltas: Seq<Seq<u8>>,
    base: Seq<u8>,
    area: Seq<u8>,
)
    requires
        decompress_to(data, chain, deltas),
        object_of(base, deltas) is Some,
        total_size(chain) <= area.len() <= usize::MAX,
        largest(base, deltas) <= usize::MAX,
    ensures
        prepare(data, chain, area) == (Prepared::Ready {
            area: joined(deltas) + area.skip(total_size(chain) as int),
            deltas: noted(chain, deltas),
            biggest: if chain.len() == 0 {
                0
            } else {
                largest(base, deltas)
            },
            consumed: if chain.len() == 0 {
                0
            } else {
                packed_size_of(data, chain[0])
            },
            compressed: packed_size(data, chain),
            produced: objects_size(base, deltas),
        }),
    decreases chain.len(),
{
    if chain.len() == 0 {
        assert(joined(deltas) + area.skip(0) =~= area);
    } else {
        lemma_decompress_to_skip(data, chain, deltas);
        lemma_joined_len(data, chain.skip(1), deltas.skip(1));
        lemma_joined_len(data, chain, deltas);
        lemma_prepare(data, chain.skip(1), deltas.skip(1), base, area);
        let at = total_size(chain.skip(1));
        let d = deltas[0];
        let older = joined(deltas.skip(1));
        let tail = area.skip(total_size(chain) as int);
        let before = older + area.skip(at as int);
        assert(chain[0].decompressed_size == d.len());
        assert(overwritten(before, at as int, d) =~= older + d + tail);
        let older_object = object_of(base, deltas.skip(1))->0;
        assert(older_object.len() <= largest(base, deltas.skip(1)));
        lemma_sized(chain[0], older, d, tail, older_object);
    }
}

/// All deltas of a chain that makes an object fit, and applying them makes that object.
proof fn lemma_applied(
    data: Seq<u8>,
    chain: Seq<Delta>,
    deltas: Seq<Seq<u8>>,
    base: Seq<u8>,
    source: Seq<u8>,
    target: Seq<u8>,
    instructions: Seq<u8>,
)
    requires
        decompress_to(data, chain, deltas),
        object_of(base, deltas) is Some,
        largest(base, deltas) <= source.len() <= usize::MAX,
        target.len() == source.len(),
        source.take(base.len() as int) == base,
        joined(deltas).len() <= instructions.len() <= usize::MAX,
        instructions.take(joined(deltas).len() as int) == joined(deltas),
    ensures
        ({
            let object = object_of(base, deltas)->0;
            let (source2, target2) = applied(noted(chain, deltas), source, target, instructions);
            &&& source2.len() == source.len()
            &&& target2.len() == source.len()
            &&& object.len() <= source.len()
            &&& source2.take(object.len() as int) == object
        }),
        noted(chain, deltas).len() == chain.len(),
        chain.len() > 0 ==> noted(chain, deltas)[0].result_size == object_of(base, deltas)->0.len(),
        forall|i: int|
            0 <= i < chain.len() ==> delta_fits(#[trigger] noted(chain, deltas)[i], instructions),
    decreases chain.len(),
{
    if chain.len() > 0 {
        let older = joined(deltas.skip(1));
        let older_object = object_of(base, deltas.skip(1))->0;
        let object = object_of(base, deltas)->0;
        let all = noted(chain, deltas);
        let rest = noted(chain.skip(1), deltas.skip(1));
        let d = deltas[0];
        let n = size_len(d);
        let m = size_len(d.skip(n as int));
        lemma_decompress_to_skip(data, chain, deltas);
        assert(instructions.take(older.len() as int) =~= older) by {
            assert(instructions.take(joined(deltas).len() as int).take(older.len() as int)
                =~= instructions.take(older.len() as int));
            assert(joined(deltas).take(older.len() as int) =~= older);
        }
        lemma_applied(
            data,
            chain.skip(1),
            deltas.skip(1),
            base,
            source,
            target,
            instructions,
        );
        lemma_size_len_bounds(d);
        lemma_size_len_bounds(d.skip(n as int));
        let source2 = applied(rest, source, target, instructions).0;
        assert(all.skip(1) =~= rest);
        let own = instructions.subrange(all[0].data_start as int, all[0].data_end as int);
        assert(own =~= d.skip(n as int).skip(m as int)) by {
            assert forall|j: int| 0 <= j < d.len() implies instructions[older.len() + j] == d[j] by {
                assert(instructions.take(joined(deltas).len() as int)[older.len() + j] == joined(
                    deltas,
                )[older.len() + j]);
            }
        }
        assert(source2.take(all[0].base_size as int) == older_object);
        lemma_delta_output_len(older_object, own);
        assert(delta_fits(all[0], instructions));
        assert(delta_result(all[0], source2, instructions) =~= object);
        assert forall|i: int| 0 <= i < chain.len() implies delta_fits(#[trigger] all[i], instructions) by {
            if i > 0 {
                assert(all[i] == rest[i - 1]);
            }
        }
        assert(applied(all, source, target, instructions).0.take(object.len() as int) =~= object);
    }
}

/// Whether `chain` is a chain of deltas onto `base` that makes an object: whether all deltas decompress
/// as they should, to those in `deltas`, and so does the base, to `object`; whether the deltas apply one
/// after the other, each to an object of the size that it states; and whether all of it fits into
/// memory.
pub open spec fn is_sound(
    data: Seq<u8>,
    chain: Seq<Delta>,
    deltas: Seq<Seq<u8>>,
    base: Base,
    object: Seq<u8>,
    out: Seq<u8>,
) -> bool {
    let room = 2 * largest(object, deltas) + total_size(chain);
    &&& chain.len() > 0
    &&& decompress_to(data, chain, deltas)
    &&& object_of(object, deltas) is Some
    &&& is_base(data, base, out, room, object)
    &&& room <= isize::MAX
    &&& packed_size(data, chain) + base_packed_size(data, base, room) <= usize::MAX
    &&& objects_size(object, deltas) + base.size_in_pack() <= u64::MAX
}

/// The buffer once the base and all deltas of a sound chain are in it.
spec fn buffer_of(deltas: Seq<Seq<u8>>, base: Base, object: Seq<u8>, out: Seq<u8>) -> Seq<u8> {
    let start = base.len_in_buffer(out.len());
    let grown = resized(out, start + joined(deltas).len());
    let laid = laid_out(grown.take(start as int), joined(deltas), largest(object, deltas));
    with_base(base, laid, object)
}

/// All deltas of a sound chain fit, once they are in the buffer.
proof fn lemma_all_fit(
    data: Seq<u8>,
    chain: Seq<Delta>,
    deltas: Seq<Seq<u8>>,
    base: Base,
    object: Seq<u8>,
    out: Seq<u8>,
)
    requires
        is_sound(data, chain, deltas, base, object, out),
    ensures
        noted(chain, deltas).len() == chain.len(),
        forall|i: int|
            0 <= i < chain.len() ==> delta_fits(#[trigger] noted(chain, deltas)[i], joined(deltas)),
{
    let joint = joined(deltas);
    let room = Seq::new(largest(object, deltas), |i: int| 0u8);
    let source = overwritten(room, 0, object);
    lemma_base_is_no_larger(object, deltas);
    lemma_joined_len(data, chain, deltas);
    assert(source.take(object.len() as int) =~= object);
    assert(joint.take(joint.len() as int) =~= joint);
    lemma_applied(data, chain, deltas, object, source, room, joint);
}

/// The deltas of a sound chain are decompressed, and there is room to lay out the buffers.
proof fn lemma_prepared(
    data: Seq<u8>,
    chain: Seq<Delta>,
    deltas: Seq<Seq<u8>>,
    base: Base,
    object: Seq<u8>,
    out: Seq<u8>,
)
    requires
        is_sound(data, chain, deltas, base, object, out),
    ensures
        ({
            let start = base.len_in_buffer(out.len());
            let total = total_size(chain);
            &&& start <= object.len() <= largest(object, deltas)
            &&& 0 < total
            &&& joined(deltas).len() == total
            &&& prepare(data, chain, resized(out, start + total).skip(start as int)) == (Prepared::Ready {
                area: joined(deltas),
                deltas: noted(chain, deltas),
                biggest: largest(object, deltas),
                consumed: packed_size_of(data, chain[0]),
                compressed: packed_size(data, chain),
                produced: objects_size(object, deltas),
            })
        }),
{
    let start = base.len_in_buffer(out.len());
    let total = total_size(chain);
    lemma_base_is_no_larger(object, deltas);
    assert(start <= object.len()) by {
        assert(base is OutOfPack ==> out.take(start as int).len() == start);
    }
    let area = resized(out, start + total).skip(start as int);
    lemma_joined_len(data, chain, deltas);
    lemma_prepare(data, chain, deltas, object, area);
    assert(joined(deltas) + area.skip(total as int) =~= joined(deltas));
    assert(chain[0].decompressed_size == deltas[0].len());
}

/// The base and the deltas of a sound chain come to lie in the buffer.
proof fn lemma_filled(
    data: Seq<u8>,
    chain: Seq<Delta>,
    deltas: Seq<Seq<u8>>,
    base: Base,
    object: Seq<u8>,
    out: Seq<u8>,
)
    requires
        is_sound(data, chain, deltas, base, object, out),
    ensures
        ({
            let packed = base_packed_size(data, base, 2 * largest(object, deltas) + total_size(chain));
            fill(data, chain, base, out) == (Filled::Ready {
                buf: buffer_of(deltas, base, object, out),
                deltas: noted(chain, deltas),
                biggest: largest(object, deltas),
                consumed: packed_size_of(data, chain[0]),
                compressed: packed_size(data, chain) + packed,
                produced: objects_size(object, deltas) + base.size_in_pack(),
                packed: if base is InPack {
                    Some(packed)
                } else {
                    None
                },
            })
        }),
{
    lemma_prepared(data, chain, deltas, base, object, out);
    lemma_laid_out(base, out, object, joined(deltas), largest(object, deltas));
    lemma_all_fit(data, chain, deltas, base, object, out);
}

/// A sound chain can be decoded, and gives the object that its deltas make of the base, whatever the
/// buffer held before; with the totals of what was read and what was made.
pub proof fn law_object_of_chain(
    data: Seq<u8>,
    chain: Seq<Delta>,
    deltas: Seq<Seq<u8>>,
    base: Base,
    object: Seq<u8>,
    out: Seq<u8>,
)
    requires
        is_sound(data, chain, deltas, base, object, out),
    ensures
        fill(data, chain, base, out) matches Filled::Ready { buf, deltas: noted, biggest, .. } && assembled(
            buf,
            noted,
            biggest,
        ) == object_of(object, deltas)->0 && noted[0].result_size == object_of(
            object,
            deltas,
        )->0.len(),
        fill(data, chain, base, out)->compressed == packed_size(data, chain) + base_packed_size(
            data,
            base,
            2 * largest(object, deltas) + total_size(chain),
        ),
        fill(data, chain, base, out)->produced == objects_size(object, deltas) + base.size_in_pack(),
        fill(data, chain, base, out)->consumed == packed_size_of(data, chain[0]),
        fill(data, chain, base, out)->Ready_buf.take(object.len() as int) == object,
        base is InPack ==> fill(data, chain, base, out)->packed == Some(
            base_packed_size(data, base, 2 * largest(object, deltas) + total_size(chain)),
        ),
{
    let joint = joined(deltas);
    let biggest = largest(object, deltas);
    let buf = buffer_of(deltas, base, object, out);
    lemma_filled(data, chain, deltas, base, object, out);
    lemma_joined_len(data, chain, deltas);
    lemma_base_is_no_larger(object, deltas);
    lemma_laid_out(base, out, object, joint, biggest);
    assert(joint.take(joint.len() as int) =~= joint);
    lemma_applied(
        data,
        chain,
        deltas,
        object,
        buf.take(biggest as int),
        buf.subrange(biggest as int, 2 * biggest as int),
        joint,
    );
}

/// The buffer once the base was brought there, if it has to be.
spec fn with_base(base: Base, buf: Seq<u8>, object: Seq<u8>) -> Seq<u8> {
    match base {
        Base::InPack(_) => overwritten(buf, 0, object),
        _ => buf,
    }
}

/// The first buffer starts with the base, and the deltas are behind the second.
proof fn lemma_laid_out(base: Base, out: Seq<u8>, object: Seq<u8>, area: Seq<u8>, biggest: nat)
    requires
        object.len() <= biggest,
        match base {
            Base::InPack(_) => true,
            Base::Cached { .. } => out == object,
            Base::OutOfPack { end, .. } => end <= out.len() && out.take(end as int) == object,
        },
    ensures
        ({
            let start = base.len_in_buffer(out.len());
            let grown = resized(out, start + area.len());
            let laid = laid_out(grown.take(start as int), area, biggest);
            let buf = with_base(base, laid, object);
            &&& laid.len() == 2 * biggest + area.len()
            &&& buf.len() == laid.len()
            &&& buf.skip(2 * biggest as int) == area
            &&& buf.take(object.len() as int) == object
            &&& buf.take(biggest as int).take(object.len() as int) == object
        }),
{
    let start = base.len_in_buffer(out.len());
    let grown = resized(out, start + area.len());
    let laid = laid_out(grown.take(start as int), area, biggest);
    let buf = with_base(base, laid, object);
    assert(laid.len() == 2 * biggest + area.len());
    assert(buf.skip(2 * biggest as int) =~= area);
    assert(buf.take(object.len() as int) =~= object) by {
        if !(base is InPack) {
            assert(object =~= out.take(start as int));
            assert forall|j: int| 0 <= j < start implies laid[j] == object[j] by {
                assert(grown[j] == out[j]);
            }
        }
    }
    assert(buf.take(biggest as int).take(object.len() as int) =~= buf.take(object.len() as int));
}

/// The base is no larger than the largest object.
proof fn lemma_base_is_no_larger(base: Seq<u8>, deltas: Seq<Seq<u8>>)
    ensures
        base.len() <= largest(base, deltas),
    decreases deltas.len(),
{
    if deltas.len() > 0 {
        lemma_base_is_no_larger(base, deltas.skip(1));
    }
}

/// A chain can be cut: what some deltas make of the object that the older ones make is what all of
/// them make. So a cache that has an object on the way changes nothing about the result.
pub proof fn law_chain_can_be_cut(base: Seq<u8>, newer: Seq<Seq<u8>>, older: Seq<Seq<u8>>)
    requires
        object_of(base, older) is Some,
    ensures
        object_of(base, newer + older) == object_of(object_of(base, older)->0, newer),
    decreases newer.len(),
{
    if newer.len() == 0 {
        assert(newer + older =~= older);
    } else {
        assert((newer + older).skip(1) =~= newer.skip(1) + older);
        law_chain_can_be_cut(base, newer.skip(1), older);
    }
}

/// A cache that caches nothing never cuts a chain short.
pub proof fn law_noop_cuts_nothing<F: Fn(Id, Vec<u8>) -> (Vec<u8>, Option<ResolvedBase>)>(
    file: File,
    resolve: F,
    chain: Seq<Delta>,
    cursor: Entry,
    cache: Noop,
    out: Seq<u8>,
    end: Walk<Noop>,
)
    requires
        walks(file, resolve, chain, cursor, cache, out, end),
    ensures
        !(end matches Walk::Reached { base, .. } && base is Cached),
    decreases MAX_CHAIN_LEN - chain.len(),
{
    if cursor.header.spec_is_delta() {
        let (cache2, out2, hit) = choose|cache2: Noop, out2: Seq<u8>, hit: Option<(Kind, usize)>|
            #[trigger] Noop::may_get(cache, cursor.data_offset, out, cache2, out2, hit) && walks_past(
                file,
                resolve,
                chain,
                cursor,
                cache2,
                out2,
                hit,
                end,
            );
        let longer = chain.push(Delta::spec_pending(cursor));
        if can_add(chain, cursor) {
            match cursor.header {
                Header::OfsDelta { base_distance } => {
                    if let Some(base) = file.spec_base_entry(cursor, base_distance) {
                        law_noop_cuts_nothing(file, resolve, longer, base, cache2, out2, end);
                    }
                },
                Header::RefDelta { base_id } => {
                    let (out3, found) = choose|out3: Seq<u8>, found: Option<ResolvedBase>|
                        #[trigger] may_resolve(resolve, base_id, out2, out3, found) && walks_on(
                            file,
                            resolve,
                            longer,
                            base_id,
                            cache2,
                            out3,
                            found,
                            end,
                        );
                    if let Some(ResolvedBase::InPack(base)) = found {
                        law_noop_cuts_nothing(file, resolve, longer, base, cache2, out3, end);
                    }
                },
                _ => {},
            }
        }
    }
}

/// What the older ones of the deltas that make an object make is an object too.
proof fn lemma_older_objects(base: Seq<u8>, deltas: Seq<Seq<u8>>, cut: int)
    requires
        object_of(base, deltas) is Some,
        0 <= cut <= deltas.len(),
    ensures
        object_of(base, deltas.skip(cut)) is Some,
    decreases cut,
{
    if cut > 0 {
        lemma_older_objects(base, deltas, cut - 1);
        assert(deltas.skip(cut - 1).skip(1) =~= deltas.skip(cut));
    } else {
        assert(deltas.skip(0) =~= deltas);
    }
}

/// No object that a part of a chain leads to is larger than the largest of the whole chain.
proof fn lemma_largest_of_cut(base: Seq<u8>, newer: Seq<Seq<u8>>, older: Seq<Seq<u8>>)
    requires
        object_of(base, older) is Some,
    ensures
        largest(object_of(base, older)->0, newer) <= largest(base, newer + older),
    decreases newer.len(),
{
    if newer.len() == 0 {
        assert(newer + older =~= older);
    } else {
        assert((newer + older).skip(1) =~= newer.skip(1) + older);
        lemma_largest_of_cut(base, newer.skip(1), older);
        law_chain_can_be_cut(base, newer, older);
    }
}

/// The sizes of the objects that a part of a chain produces are among those of the whole chain.
proof fn lemma_objects_size_of_cut(base: Seq<u8>, newer: Seq<Seq<u8>>, older: Seq<Seq<u8>>)
    requires
        object_of(base, older) is Some,
    ensures
        objects_size(object_of(base, older)->0, newer) <= objects_size(base, newer + older),
    decreases newer.len(),
{
    if newer.len() > 0 {
        assert((newer + older).skip(1) =~= newer.skip(1) + older);
        lemma_objects_size_of_cut(base, newer.skip(1), older);
        law_chain_can_be_cut(base, newer, older);
    }
}

/// The sizes of two parts of a chain add up.
pub(crate) proof fn lemma_total_size_join(a: Seq<Delta>, b: Seq<Delta>)
    ensures
        total_size(a + b) == total_size(a) + total_size(b),
    decreases a.len(),
{
    if a.len() == 0 {
        assert(a + b =~= b);
    } else {
        assert((a + b).skip(1) =~= a.skip(1) + b);
        lemma_total_size_join(a.skip(1), b);
    }
}

/// The sizes of two parts of a chain in the pack add up.
proof fn lemma_packed_size_join(data: Seq<u8>, a: Seq<Delta>, b: Seq<Delta>)
    ensures
        packed_size(data, a + b) == packed_size(data, a) + packed_size(data, b),
    decreases a.len(),
{
    if a.len() == 0 {
        assert(a + b =~= b);
    } else {
        assert((a + b).skip(1) =~= a.skip(1) + b);
        lemma_packed_size_join(data, a.skip(1), b);
    }
}

/// The first `cut` deltas of a sound chain are a sound chain onto the object that the others lead to,
/// if the cache has it.
proof fn lemma_cut_is_sound(
    data: Seq<u8>,
    chain: Seq<Delta>,
    deltas: Seq<Seq<u8>>,
    base: Base,
    object: Seq<u8>,
    out: Seq<u8>,
    cut: int,
    hit: Base,
)
    requires
        is_sound(data, chain, deltas, base, object, out),
        0 < cut <= chain.len(),
        hit is Cached,
    ensures
        object_of(object, deltas.skip(cut)) is Some,
        ({
            let middle = object_of(object, deltas.skip(cut))->0;
            &&& is_sound(data, chain.take(cut), deltas.take(cut), hit, middle, middle)
            &&& object_of(middle, deltas.take(cut)) == object_of(object, deltas)
        }),
{
    let newer = deltas.take(cut);
    let older = deltas.skip(cut);
    lemma_older_objects(object, deltas, cut);
    assert(newer + older =~= deltas);
    assert(chain.take(cut) + chain.skip(cut) =~= chain);
    law_chain_can_be_cut(object, newer, older);
    lemma_largest_of_cut(object, newer, older);
    lemma_objects_size_of_cut(object, newer, older);
    lemma_total_size_join(chain.take(cut), chain.skip(cut));
    lemma_packed_size_join(data, chain.take(cut), chain.skip(cut));
    assert forall|i: int| 0 <= i < cut implies chain.take(cut)[i] == chain[i] && newer[i] == deltas[i] by {}
}

/// A cache hit makes no difference to the object: if the cache has the object that all but the first
/// `cut` deltas of a sound chain lead to, then these deltas alone give the same object.
pub proof fn law_cache_hit_gives_same_object(
    data: Seq<u8>,
    chain: Seq<Delta>,
    deltas: Seq<Seq<u8>>,
    base: Base,
    object: Seq<u8>,
    out: Seq<u8>,
    cut: int,
    hit: Base,
)
    requires
        is_sound(data, chain, deltas, base, object, out),
        0 < cut <= chain.len(),
        hit is Cached,
    ensures
        ({
            let full = fill(data, chain, base, out);
            let short = fill(data, chain.take(cut), hit, object_of(object, deltas.skip(cut))->0);
            full is Ready && short is Ready && assembled(
                full->Ready_buf,
                full->deltas,
                full->biggest,
            ) == assembled(short->Ready_buf, short->deltas, short->biggest)
        }),
{
    let middle = object_of(object, deltas.skip(cut))->0;
    lemma_cut_is_sound(data, chain, deltas, base, object, out, cut, hit);
    law_object_of_chain(data, chain, deltas, base, object, out);
    law_object_of_chain(data, chain.take(cut), deltas.take(cut), hit, middle, middle);
}

/// The cache is told what is true: of the base, if it was found in the pack, with what it takes there,
/// and of the object that the deltas make of it, with what the newest delta takes in the pack.
pub proof fn law_cache_is_told_the_truth<C: DecodeEntry>(
    file: File,
    first: Entry,
    chain: Seq<Delta>,
    deltas: Seq<Seq<u8>>,
    base: Base,
    object: Seq<u8>,
    cache: C,
    out: Seq<u8>,
    cache2: C,
    out2: Seq<u8>,
    r: Result<Outcome, Error>,
)
    requires
        is_sound(file.data@, chain, deltas, base, object, out),
        finishes(file, first, (Walk::Reached { chain, base, cache, out }), cache2, out2, r),
    ensures
        may_store(
            cache,
            base,
            object,
            Some(base_packed_size(file.data@, base, 2 * largest(object, deltas) + total_size(chain))),
            first.data_offset,
            object_of(object, deltas)->0,
            packed_size_of(file.data@, chain[0]),
            cache2,
        ),
{
    law_object_of_chain(file.data@, chain, deltas, base, object, out);
    let filled = fill(file.data@, chain, base, out);
    let between = choose|between: C|
        {
            &&& #[trigger] may_store_base(cache, base, filled->Ready_buf, filled->packed, between)
            &&& C::may_put(
                between,
                first.data_offset,
                out2,
                base.spec_kind(),
                filled->consumed as usize,
                cache2,
            )
        };
    let packed = base_packed_size(file.data@, base, 2 * largest(object, deltas) + total_size(chain));
    assert(object.take(object.len() as int) =~= object);
    assert(may_store_base(cache, base, object, Some(packed), between));
}

/// Whether `base` is what the delta at `entry` applies to, and that is `object`, if it is found outside
/// of the pack; whatever the buffer holds when `resolve` is asked.
pub open spec fn has_base<F: Fn(Id, Vec<u8>) -> (Vec<u8>, Option<ResolvedBase>)>(
    file: File,
    resolve: F,
    entry: Entry,
    base: Base,
    object: Seq<u8>,
) -> bool {
    match entry.header {
        Header::OfsDelta { base_distance } => base matches Base::InPack(next) && file.spec_base_entry(
            entry,
            base_distance,
        ) == Some(next),
        Header::RefDelta { base_id } => forall|before: Vec<u8>, after: Vec<u8>, found: Option<ResolvedBase>|
            #[trigger] call_ensures(resolve, (base_id, before), (after, found)) ==> match base {
                Base::InPack(next) => found == Some(ResolvedBase::InPack(next)),
                Base::OutOfPack { kind, end } => {
                    &&& found == Some(ResolvedBase::OutOfPack { kind, end })
                    &&& end <= after@.len()
                    &&& after@.take(end as int) == object
                },
                Base::Cached { .. } => false,
            },
        _ => false,
    }
}

/// Whether the entry after the first `i` of `path` fits into memory, and what it holds is a delta to the
/// next one, if there is a next one.
pub open spec fn leads_on<F: Fn(Id, Vec<u8>) -> (Vec<u8>, Option<ResolvedBase>)>(
    file: File,
    resolve: F,
    path: Seq<Entry>,
    i: int,
) -> bool {
    &&& path[i].decompressed_size <= usize::MAX
    &&& i + 1 < path.len() ==> has_base(
        file,
        resolve,
        path[i],
        Base::InPack(path[i + 1]),
        Seq::empty(),
    )
}

/// Whether following the chain of deltas from the first entry of `path` leads through all of them.
pub open spec fn leads_through<F: Fn(Id, Vec<u8>) -> (Vec<u8>, Option<ResolvedBase>)>(
    file: File,
    resolve: F,
    path: Seq<Entry>,
) -> bool {
    &&& 0 < path.len() <= usize::MAX / 128 + 1
    &&& forall|i: int| 0 <= i < path.len() ==> #[trigger] leads_on(file, resolve, path, i)
}

/// Whether following the chain of deltas from the first entry of `path` leads through all of them to
/// `base`, which is `object`, if it is found outside of the pack.
pub open spec fn leads_to<F: Fn(Id, Vec<u8>) -> (Vec<u8>, Option<ResolvedBase>)>(
    file: File,
    resolve: F,
    path: Seq<Entry>,
    base: Base,
    object: Seq<u8>,
) -> bool {
    &&& leads_through(file, resolve, path)
    &&& base matches Base::InPack(entry) ==> !(entry.header is OfsDelta) && !(entry.header is RefDelta)
    &&& !(base is Cached)
    &&& has_base(file, resolve, path.last(), base, object)
}

/// The deltas that the entries of `path` hold.
pub open spec fn chain_of(path: Seq<Entry>) -> Seq<Delta> {
    Seq::new(
        path.len(),
        |i: int|
            Delta {
                data_start: 0,
                data_end: path[i].decompressed_size as usize,
                base_size: 0,
                result_size: 0,
                decompressed_size: path[i].decompressed_size as usize,
                data_offset: path[i].data_offset,
            },
    )
}

/// Whether this is the kind of `base`: for one in the pack, the one that its header states.
pub open spec fn is_of_kind(base: Base, kind: Kind) -> bool {
    match base {
        Base::InPack(entry) => holds(entry.header, kind),
        Base::Cached { kind: found, .. } => kind == found,
        Base::OutOfPack { kind: found, .. } => kind == found,
    }
}

/// How many bytes `base` has, if it is found in the pack.
pub open spec fn base_size(base: Base) -> nat {
    match base {
        Base::InPack(entry) => entry.decompressed_size as nat,
        _ => 0,
    }
}

/// The kind of a base is the one that its header states, or that it was found with.
pub(crate) proof fn lemma_kind(base: Base)
    requires
        base matches Base::InPack(entry) ==> !(entry.header is OfsDelta) && !(entry.header is RefDelta),
    ensures
        base.is_object(),
        forall|kind: Kind| #[trigger] is_of_kind(base, kind) <==> kind == base.spec_kind(),
        base_size(base) == base.size_in_pack(),
{
    if let Base::InPack(entry) = base {
        law_header_states_kind(entry.header);
        assert forall|kind: Kind| #[trigger] is_of_kind(base, kind) <==> kind == base.spec_kind() by {
            assert(holds(entry.header, kind) <==> entry.header.spec_to_kind() == Some(kind));
        }
    }
}

/// Whether a cache of which `honest` holds has nothing but the truth on the entries of `path`, however
/// often it is asked: if it has the object of one, then just what the deltas from there on make of
/// `object`.
pub open spec fn is_honest<C: DecodeEntry>(
    honest: spec_fn(C) -> bool,
    path: Seq<Entry>,
    deltas: Seq<Seq<u8>>,
    object: Seq<u8>,
    base: Base,
) -> bool {
    forall|cache: C, i: int, out: Seq<u8>, cache2: C, out2: Seq<u8>, hit: Option<(Kind, usize)>|
        0 <= i < path.len() && honest(cache) && #[trigger] C::may_get(
            cache,
            path[i].data_offset,
            out,
            cache2,
            out2,
            hit,
        ) ==> {
            &&& honest(cache2)
            &&& hit matches Some((hit_kind, _)) ==> is_of_kind(base, hit_kind) && out2 == object_of(
                object,
                deltas.skip(i),
            )->0
        }
}

/// Whether a cache of which `cold` holds has none of the objects of the entries of `path`, however often
/// it is asked.
pub open spec fn is_cold<C: DecodeEntry>(cold: spec_fn(C) -> bool, path: Seq<Entry>) -> bool {
    forall|cache: C, i: int, out: Seq<u8>, cache2: C, out2: Seq<u8>, hit: Option<(Kind, usize)>|
        0 <= i < path.len() && cold(cache) && #[trigger] C::may_get(
            cache,
            path[i].data_offset,
            out,
            cache2,
            out2,
            hit,
        ) ==> cold(cache2) && hit is None
}

/// Whether `outcome` sums up how the object of the first entry of `path` was decoded, if the cache had
/// the object after the first `n` entries; or had none, if these are all.
///
/// The deltas that were applied are counted, and so are what they and the objects that they make take,
/// along with the base, if it was found in the pack.
pub open spec fn sums_up(
    data: Seq<u8>,
    path: Seq<Entry>,
    deltas: Seq<Seq<u8>>,
    base: Base,
    object: Seq<u8>,
    n: nat,
    outcome: Outcome,
) -> bool {
    let chain = chain_of(path).take(n as int);
    &&& is_of_kind(base, outcome.kind)
    &&& outcome.num_deltas == n % 0x1_0000_0000
    &&& if n == 0 {
        &&& outcome.decompressed_size == path[0].decompressed_size
        &&& outcome.object_size == object_of(object, deltas)->0.len()
    } else if n < path.len() {
        &&& outcome.decompressed_size == total_size(chain)
        &&& outcome.compressed_size == packed_size(data, chain)
        &&& outcome.object_size == objects_size(
            object_of(object, deltas.skip(n as int))->0,
            deltas.take(n as int),
        )
    } else {
        &&& outcome.decompressed_size == total_size(chain) + base_size(base)
        &&& outcome.compressed_size == packed_size(data, chain) + base_packed_size(
            data,
            base,
            2 * largest(object, deltas) + total_size(chain),
        )
        &&& outcome.object_size == objects_size(object, deltas) + base_size(base)
    }
}

/// Whether following a chain ended where it should: at its base, or at an object that the cache has.
spec fn ends_well<C>(
    path: Seq<Entry>,
    deltas: Seq<Seq<u8>>,
    base: Base,
    object: Seq<u8>,
    end: Walk<C>,
) -> bool {
    end matches Walk::Reached { chain, base: reached, out, .. } && {
        &&& chain.len() <= path.len()
        &&& chain == chain_of(path).take(chain.len() as int)
        &&& if reached is Cached {
            &&& chain.len() < path.len()
            &&& is_of_kind(base, reached.spec_kind())
            &&& out == object_of(object, deltas.skip(chain.len() as int))->0
        } else {
            &&& chain.len() == path.len()
            &&& reached == base
            &&& base matches Base::OutOfPack { end, .. } ==> end <= out.len() && out.take(end as int)
                == object
        }
    }
}

/// Following a chain ends where it should.
proof fn lemma_ends_well<
    C: DecodeEntry,
    F: Fn(Id, Vec<u8>) -> (Vec<u8>, Option<ResolvedBase>),
>(
    file: File,
    resolve: F,
    path: Seq<Entry>,
    deltas: Seq<Seq<u8>>,
    base: Base,
    object: Seq<u8>,
    honest: spec_fn(C) -> bool,
    i: int,
    cache: C,
    out: Seq<u8>,
    end: Walk<C>,
)
    requires
        0 <= i < path.len(),
        leads_to(file, resolve, path, base, object),
        is_honest(honest, path, deltas, object, base),
        honest(cache),
        total_size(chain_of(path)) <= u64::MAX,
        walks(file, resolve, chain_of(path).take(i), path[i], cache, out, end),
    ensures
        ends_well(path, deltas, base, object, end),
        is_cold(honest, path) ==> !(end->base is Cached),
    decreases path.len() - i,
{
    let cursor = path[i];
    let before = chain_of(path).take(i);
    let longer = chain_of(path).take(i + 1);
    assert(leads_on(file, resolve, path, i));
    let (cache2, out2, hit) = choose|cache2: C, out2: Seq<u8>, hit: Option<(Kind, usize)>|
        #[trigger] C::may_get(cache, cursor.data_offset, out, cache2, out2, hit) && walks_past(
            file,
            resolve,
            before,
            cursor,
            cache2,
            out2,
            hit,
            end,
        );
    assert(C::may_get(cache, path[i].data_offset, out, cache2, out2, hit));
    if hit is None {
        assert(longer =~= before.push(Delta::spec_pending(cursor)));
        assert(chain_of(path) =~= longer + chain_of(path).skip(i + 1));
        lemma_total_size_join(longer, chain_of(path).skip(i + 1));
        lemma_total_size_push(before, Delta::spec_pending(cursor));
        assert(can_add(before, cursor));
        let out3 = match cursor.header {
            Header::RefDelta { base_id } => {
                let (out3, found) = choose|out3: Seq<u8>, found: Option<ResolvedBase>|
                    #[trigger] may_resolve(resolve, base_id, out2, out3, found) && walks_on(
                        file,
                        resolve,
                        longer,
                        base_id,
                        cache2,
                        out3,
                        found,
                        end,
                    );
                assert(may_resolve(resolve, base_id, out2, out3, found));
                out3
            },
            _ => out2,
        };
        if i + 1 < path.len() {
            lemma_ends_well(
                file,
                resolve,
                path,
                deltas,
                base,
                object,
                honest,
                i + 1,
                cache2,
                out3,
                end,
            );
        } else {
            assert(longer =~= chain_of(path));
            if let Base::InPack(entry) = base {
                assert(walks(file, resolve, longer, entry, cache2, out3, end));
            }
        }
    }
}

/// Where following a sound chain ended well, the object can be put together, and is the right one.
proof fn lemma_finishes_well<C: DecodeEntry>(
    file: File,
    path: Seq<Entry>,
    deltas: Seq<Seq<u8>>,
    base: Base,
    object: Seq<u8>,
    end: Walk<C>,
)
    requires
        path.len() > 0,
        base matches Base::InPack(entry) ==> !(entry.header is OfsDelta) && !(entry.header is RefDelta),
        is_sound(file.data@, chain_of(path), deltas, base, object, object),
        ends_well(path, deltas, base, object, end),
    ensures
        can_finish(file, end),
        forall|cache2: C, out2: Seq<u8>, r: Result<Outcome, Error>|
            #[trigger] finishes(file, path[0], end, cache2, out2, r) ==> {
                &&& out2 == object_of(object, deltas)->0
                &&& r is Ok
                &&& sums_up(file.data@, path, deltas, base, object, end->chain.len(), r->Ok_0)
            },
{
    let chain = chain_of(path);
    let n = end->chain.len() as int;
    let out = end->Reached_out;
    let reached = end->base;
    lemma_base_is_no_larger(object, deltas);
    lemma_kind(base);
    assert(deltas.skip(0) =~= deltas);
    if n > 0 {
        if reached is Cached {
            let middle = object_of(object, deltas.skip(n))->0;
            lemma_cut_is_sound(file.data@, chain, deltas, base, object, object, n, reached);
            law_object_of_chain(file.data@, chain.take(n), deltas.take(n), reached, middle, middle);
        } else {
            assert(chain.take(n) =~= chain);
            assert(object.take(object.len() as int) =~= object);
            assert(is_sound(file.data@, chain, deltas, base, object, out));
            law_object_of_chain(file.data@, chain, deltas, base, object, out);
        }
    }
}

/// Decoding an entry gives the object that it stands for, whatever the buffer held before, and whether
/// or not the cache has an object on the way: an entry from which a sound chain leads to an object, in
/// the pack or outside of it, can be decoded, and leaves in the buffer what the deltas make of that
/// object; as long as the cache has nothing but the truth. The outcome sums up what was done.
pub proof fn law_decodes_object<
    C: DecodeEntry,
    F: Fn(Id, Vec<u8>) -> (Vec<u8>, Option<ResolvedBase>),
>(
    file: File,
    resolve: F,
    path: Seq<Entry>,
    deltas: Seq<Seq<u8>>,
    base: Base,
    object: Seq<u8>,
    honest: spec_fn(C) -> bool,
    cache: C,
    out: Seq<u8>,
)
    requires
        leads_to(file, resolve, path, base, object),
        is_sound(file.data@, chain_of(path), deltas, base, object, object),
        is_honest(honest, path, deltas, object, base),
        honest(cache),
    ensures
        file.can_decode(path[0], resolve, cache, out),
        forall|cache2: C, out2: Seq<u8>, r: Result<Outcome, Error>|
            #[trigger] file.decodes(path[0], resolve, cache, out, cache2, out2, r) ==> {
                &&& out2 == object_of(object, deltas)->0
                &&& r is Ok
                &&& exists|n: nat|
                    n <= path.len() && #[trigger] sums_up(
                        file.data@,
                        path,
                        deltas,
                        base,
                        object,
                        n,
                        r->Ok_0,
                    )
            },
{
    assert(leads_on(file, resolve, path, 0));
    assert(chain_of(path).take(0) =~= Seq::<Delta>::empty());
    assert forall|walk: Walk<C>|
        #[trigger] walks(file, resolve, Seq::empty(), path[0], cache, out, walk) implies can_finish(
        file,
        walk,
    ) by {
        lemma_ends_well(file, resolve, path, deltas, base, object, honest, 0, cache, out, walk);
        lemma_finishes_well(file, path, deltas, base, object, walk);
    }
    assert forall|cache2: C, out2: Seq<u8>, r: Result<Outcome, Error>|
        #[trigger] file.decodes(path[0], resolve, cache, out, cache2, out2, r) implies out2 == object_of(
        object,
        deltas,
    )->0 && r is Ok && exists|n: nat|
        n <= path.len() && #[trigger] sums_up(file.data@, path, deltas, base, object, n, r->Ok_0) by {
        let walk = choose|walk: Walk<C>|
            #[trigger] walks(file, resolve, Seq::empty(), path[0], cache, out, walk) && finishes(
                file,
                path[0],
                walk,
                cache2,
                out2,
                r,
            );
        lemma_ends_well(file, resolve, path, deltas, base, object, honest, 0, cache, out, walk);
        lemma_finishes_well(file, path, deltas, base, object, walk);
        assert(sums_up(file.data@, path, deltas, base, object, walk->chain.len(), r->Ok_0));
    }
}

/// With a cache that has none of the objects on the way, all deltas of a sound chain are resolved and
/// counted, along with the totals of what was read and what was made.
pub proof fn law_decodes_object_with_cold_cache<
    C: DecodeEntry,
    F: Fn(Id, Vec<u8>) -> (Vec<u8>, Option<ResolvedBase>),
>(
    file: File,
    resolve: F,
    path: Seq<Entry>,
    deltas: Seq<Seq<u8>>,
    base: Base,
    object: Seq<u8>,
    cold: spec_fn(C) -> bool,
    cache: C,
    out: Seq<u8>,
)
    requires
        leads_to(file, resolve, path, base, object),
        is_sound(file.data@, chain_of(path), deltas, base, object, object),
        is_cold(cold, path),
        cold(cache),
    ensures
        file.can_decode(path[0], resolve, cache, out),
        forall|cache2: C, out2: Seq<u8>, r: Result<Outcome, Error>|
            #[trigger] file.decodes(path[0], resolve, cache, out, cache2, out2, r) ==> {
                &&& out2 == object_of(object, deltas)->0
                &&& r is Ok
                &&& sums_up(file.data@, path, deltas, base, object, path.len(), r->Ok_0)
            },
{
    assert(leads_on(file, resolve, path, 0));
    assert(chain_of(path).take(0) =~= Seq::<Delta>::empty());
    assert forall|walk: Walk<C>|
        #[trigger] walks(file, resolve, Seq::empty(), path[0], cache, out, walk) implies can_finish(
        file,
        walk,
    ) by {
        lemma_ends_well(file, resolve, path, deltas, base, object, cold, 0, cache, out, walk);
        lemma_finishes_well(file, path, deltas, base, object, walk);
    }
    assert forall|cache2: C, out2: Seq<u8>, r: Result<Outcome, Error>|
        #[trigger] file.decodes(path[0], resolve, cache, out, cache2, out2, r) implies out2 == object_of(
        object,
        deltas,
    )->0 && r is Ok && sums_up(file.data@, path, deltas, base, object, path.len(), r->Ok_0) by {
        let walk = choose|walk: Walk<C>|
            #[trigger] walks(file, resolve, Seq::empty(), path[0], cache, out, walk) && finishes(
                file,
                path[0],
                walk,
                cache2,
                out2,
                r,
            );
        lemma_ends_well(file, resolve, path, deltas, base, object, cold, 0, cache, out, walk);
        lemma_finishes_well(file, path, deltas, base, object, walk);
    }
}

/// A cache that caches nothing has none of the objects on any way.
pub proof fn law_noop_is_cold(path: Seq<Entry>)
    ensures
        is_cold(|cache: Noop| true, path),
{
}

/// A cache that caches nothing leaves the buffer as it was when it is asked, and has nothing.
pub proof fn law_noop_does_nothing(cache: Noop, offset: u64, out: Seq<u8>)
    ensures
        forall|cache2: Noop, out2: Seq<u8>, hit: Option<(Kind, usize)>|
            #[trigger] Noop::may_get(cache, offset, out, cache2, out2, hit) ==> out2 == out && hit is None
                && cache2 == cache,
{
}

/// Decoding an entry that holds a delta is resolving that delta: it can be done whenever the delta can be
/// resolved, and does to the cache and the buffer and returns what that does.
pub proof fn law_delta_is_resolved<
    C: DecodeEntry,
    F: Fn(Id, Vec<u8>) -> (Vec<u8>, Option<ResolvedBase>),
>(
    file: File,
    entry: Entry,
    resolve: F,
    cache: C,
    out: Seq<u8>,
    cache2: C,
    out2: Seq<u8>,
    r: Result<Outcome, Error>,
)
    requires
        entry.header.spec_is_delta(),
    ensures
        file.can_decode(entry, resolve, cache, out) == file.can_resolve(entry, resolve, cache, out),
        file.decodes(entry, resolve, cache, out, cache2, out2, r) == file.resolves(
            entry,
            resolve,
            cache,
            out,
            cache2,
            out2,
            r,
        ),
{
}

/// Decoding an entry that holds a whole object gives just that object, whatever the buffer held before;
/// the cache is neither asked nor told.
pub proof fn law_decodes_whole_object<
    C: DecodeEntry,
    F: Fn(Id, Vec<u8>) -> (Vec<u8>, Option<ResolvedBase>),
>(
    file: File,
    entry: Entry,
    resolve: F,
    kind: Kind,
    object: Seq<u8>,
    packed_size: nat,
    cache: C,
    out: Seq<u8>,
)
    requires
        holds(entry.header, kind),
        entry.data_offset < file.data@.len(),
        entry.decompressed_size <= isize::MAX,
        object.len() == entry.decompressed_size,
        inflated(file.data@.skip(entry.data_offset as int), object.len()) == (
            Some(packed_size),
            object,
        ),
    ensures
        file.can_decode(entry, resolve, cache, out),
        forall|cache2: C, out2: Seq<u8>, r: Result<Outcome, Error>|
            #[trigger] file.decodes(entry, resolve, cache, out, cache2, out2, r) ==> {
                &&& cache2 == cache
                &&& out2 == object
                &&& r == Ok::<Outcome, Error>(
                    Outcome {
                        kind,
                        num_deltas: 0,
                        decompressed_size: entry.decompressed_size,
                        compressed_size: packed_size as usize,
                        object_size: entry.decompressed_size,
                    },
                )
            },
{
    law_header_states_kind(entry.header);
    assert(overwritten(resized(out, object.len()), 0, object) =~= object);
}

/// Whether the data at `data_offset` decompresses to all of the `size` bytes that it should, unless it
/// can not be decompressed.
pub open spec fn is_complete(data: Seq<u8>, data_offset: u64, size: nat) -> bool {
    let (consumed, bytes) = inflated(data.skip(data_offset as int), size);
    consumed is Some ==> bytes.len() == size
}

/// Whether all deltas of `chain` decompress to all of the bytes that they should.
pub open spec fn are_complete(data: Seq<u8>, chain: Seq<Delta>) -> bool {
    forall|i: int|
        0 <= i < chain.len() ==> is_complete(
            data,
            (#[trigger] chain[i]).data_offset,
            chain[i].decompressed_size as nat,
        )
}

/// Whether the object at `entry`, or else all deltas on the way from an object in the pack to it,
/// decompress to all of the bytes that they should.
pub open spec fn is_complete_entry<
    C: DecodeEntry,
    F: Fn(Id, Vec<u8>) -> (Vec<u8>, Option<ResolvedBase>),
>(file: File, entry: Entry, resolve: F, cache: C, out: Seq<u8>) -> bool {
    if entry.header.spec_is_delta() {
        forall|walk: Walk<C>|
            #[trigger] walks(file, resolve, Seq::empty(), entry, cache, out, walk) ==> (
            walk matches Walk::Reached { chain, base, .. } ==> base is InPack ==> are_complete(
                file.data@,
                chain,
            ))
    } else {
        is_complete(file.data@, entry.data_offset, entry.decompressed_size as nat)
    }
}

/// Whether what a cache answers depends on its state alone, and the buffer is replaced if it has the
/// object.
pub open spec fn gets_alike<C: DecodeEntry>() -> bool {
    forall|
        cache: C,
        offset: u64,
        a: Seq<u8>,
        cache_a: C,
        a2: Seq<u8>,
        hit_a: Option<(Kind, usize)>,
        b: Seq<u8>,
        cache_b: C,
        b2: Seq<u8>,
        hit_b: Option<(Kind, usize)>,
    |
        #[trigger] C::may_get(cache, offset, a, cache_a, a2, hit_a) && #[trigger] C::may_get(
            cache,
            offset,
            b,
            cache_b,
            b2,
            hit_b,
        ) ==> cache_a == cache_b && hit_a == hit_b && (hit_a is Some ==> a2 == b2)
}

/// Whether what becomes of a cache that is told of an object depends on its state alone.
pub open spec fn puts_alike<C: DecodeEntry>() -> bool {
    forall|
        cache: C,
        offset: u64,
        data: Seq<u8>,
        kind: Kind,
        compressed_size: usize,
        cache_a: C,
        cache_b: C,
    |
        #[trigger] C::may_put(cache, offset, data, kind, compressed_size, cache_a)
            && #[trigger] C::may_put(cache, offset, data, kind, compressed_size, cache_b) ==> cache_a
            == cache_b
}

/// Whether what `resolve` finds depends on the id alone, and the buffer is replaced if that is outside
/// of the pack.
pub open spec fn resolves_alike<F: Fn(Id, Vec<u8>) -> (Vec<u8>, Option<ResolvedBase>)>(
    resolve: F,
) -> bool {
    forall|
        id: Id,
        a: Vec<u8>,
        a2: Vec<u8>,
        found_a: Option<ResolvedBase>,
        b: Vec<u8>,
        b2: Vec<u8>,
        found_b: Option<ResolvedBase>,
    |
        #[trigger] call_ensures(resolve, (id, a), (a2, found_a)) && #[trigger] call_ensures(
            resolve,
            (id, b),
            (b2, found_b),
        ) ==> found_a == found_b && (found_a matches Some(ResolvedBase::OutOfPack { .. }) ==> a2@ == b2@)
}

/// Whether two chains end alike: at the same place, and with the same object in the buffer, if the chain
/// ended with one there.
spec fn end_alike<C>(a: Walk<C>, b: Walk<C>) -> bool {
    match a {
        Walk::Reached { chain, base, cache, out } => {
            &&& b matches Walk::Reached { chain: chain_b, base: base_b, cache: cache_b, out: out_b }
            &&& chain_b == chain
            &&& base_b == base
            &&& cache_b == cache
            &&& !(base is InPack) ==> out_b == out
        },
        Walk::Unresolved { id, cache, .. } => {
            b matches Walk::Unresolved { id: id_b, cache: cache_b, .. } && id_b == id && cache_b == cache
        },
        Walk::Stuck { cache } => b == Walk::Stuck { cache },
    }
}

/// Where a chain ends does not depend on what is in the buffer at first.
proof fn lemma_walks_alike<
    C: DecodeEntry,
    F: Fn(Id, Vec<u8>) -> (Vec<u8>, Option<ResolvedBase>),
>(
    file: File,
    resolve: F,
    chain: Seq<Delta>,
    cursor: Entry,
    cache: C,
    a: Seq<u8>,
    b: Seq<u8>,
    end_a: Walk<C>,
    end_b: Walk<C>,
)
    requires
        gets_alike::<C>(),
        resolves_alike(resolve),
        walks(file, resolve, chain, cursor, cache, a, end_a),
        walks(file, resolve, chain, cursor, cache, b, end_b),
    ensures
        end_alike(end_a, end_b),
    decreases MAX_CHAIN_LEN - chain.len(),
{
    if cursor.header.spec_is_delta() {
        let (cache_a, a2, hit_a) = choose|cache2: C, out2: Seq<u8>, hit: Option<(Kind, usize)>|
            #[trigger] C::may_get(cache, cursor.data_offset, a, cache2, out2, hit) && walks_past(
                file,
                resolve,
                chain,
                cursor,
                cache2,
                out2,
                hit,
                end_a,
            );
        let (cache_b, b2, hit_b) = choose|cache2: C, out2: Seq<u8>, hit: Option<(Kind, usize)>|
            #[trigger] C::may_get(cache, cursor.data_offset, b, cache2, out2, hit) && walks_past(
                file,
                resolve,
                chain,
                cursor,
                cache2,
                out2,
                hit,
                end_b,
            );
        assert(C::may_get(cache, cursor.data_offset, a, cache_a, a2, hit_a));
        assert(C::may_get(cache, cursor.data_offset, b, cache_b, b2, hit_b));
        let longer = chain.push(Delta::spec_pending(cursor));
        if hit_a is None && can_add(chain, cursor) {
            match cursor.header {
                Header::OfsDelta { base_distance } => {
                    if let Some(base) = file.spec_base_entry(cursor, base_distance) {
                        lemma_walks_alike(file, resolve, longer, base, cache_a, a2, b2, end_a, end_b);
                    }
                },
                Header::RefDelta { base_id } => {
                    let (a3, found_a) = choose|out3: Seq<u8>, found: Option<ResolvedBase>|
                        #[trigger] may_resolve(resolve, base_id, a2, out3, found) && walks_on(
                            file,
                            resolve,
                            longer,
                            base_id,
                            cache_a,
                            out3,
                            found,
                            end_a,
                        );
                    let (b3, found_b) = choose|out3: Seq<u8>, found: Option<ResolvedBase>|
                        #[trigger] may_resolve(resolve, base_id, b2, out3, found) && walks_on(
                            file,
                            resolve,
                            longer,
                            base_id,
                            cache_a,
                            out3,
                            found,
                            end_b,
                        );
                    assert(may_resolve(resolve, base_id, a2, a3, found_a));
                    assert(may_resolve(resolve, base_id, b2, b3, found_b));
                    if let Some(ResolvedBase::InPack(base)) = found_a {
                        lemma_walks_alike(file, resolve, longer, base, cache_a, a3, b3, end_a, end_b);
                    }
                },
                _ => {},
            }
        }
    }
}

/// A number that ends within the first `k` bytes does not depend on those that follow.
proof fn lemma_number_alike(s: Seq<u8>, t: Seq<u8>, k: int)
    requires
        s.len() == t.len(),
        size_len(s) <= k <= s.len(),
        s.take(k) == t.take(k),
    ensures
        size_len(t) == size_len(s),
        size_value(t) == size_value(s),
    decreases s.len(),
{
    lemma_size_len_bounds(s);
    if s.len() > 0 {
        assert(s.take(k)[0] == s[0]);
        assert(t.take(k)[0] == t[0]);
        if s[0] >= 0x80 {
            assert(s.skip(1).take(k - 1) =~= s.take(k).skip(1));
            assert(t.skip(1).take(k - 1) =~= t.take(k).skip(1));
            lemma_number_alike(s.skip(1), t.skip(1), k - 1);
        }
    }
}

/// The sizes of a delta do not depend on what follows it, if they end within it.
proof fn lemma_sized_alike(delta: Delta, at: nat, x: Seq<u8>, y: Seq<u8>)
    requires
        x.len() == y.len() <= usize::MAX,
        at + delta.decompressed_size <= x.len(),
        x.take(at + delta.decompressed_size) == y.take(at + delta.decompressed_size),
        sized(delta, at, x) matches Some(next) && next.data_start <= next.data_end,
    ensures
        sized(delta, at, y) == sized(delta, at, x),
{
    let s = x.skip(at as int);
    let t = y.skip(at as int);
    let k = delta.decompressed_size as int;
    let n = size_len(s) as int;
    assert(s.take(k) =~= x.take(at + k).skip(at as int));
    assert(t.take(k) =~= y.take(at + k).skip(at as int));
    lemma_size_len_bounds(s);
    lemma_size_len_bounds(s.skip(n));
    lemma_number_alike(s, t, k);
    assert(s.skip(n).take(k - n) =~= s.take(k).skip(n));
    assert(t.skip(n).take(k - n) =~= t.take(k).skip(n));
    lemma_number_alike(s.skip(n), t.skip(n), k - n);
}

/// Decompressing complete deltas does not depend on what is there at first.
proof fn lemma_prepare_alike(data: Seq<u8>, chain: Seq<Delta>, x: Seq<u8>, y: Seq<u8>)
    requires
        x.len() == y.len() <= usize::MAX,
        total_size(chain) <= x.len(),
        are_complete(data, chain),
        prepare(data, chain, x) is Ready,
        forall|i: int|
            0 <= i < prepare(data, chain, x)->deltas.len() ==> (#[trigger] prepare(
                data,
                chain,
                x,
            )->deltas[i]).data_start <= prepare(data, chain, x)->deltas[i].data_end,
    ensures
        ({
            let total = total_size(chain) as int;
            let area_x = prepare(data, chain, x)->Ready_area;
            let area_y = prepare(data, chain, y)->Ready_area;
            &&& prepare(data, chain, y) == (Prepared::Ready {
                area: area_y,
                deltas: prepare(data, chain, x)->deltas,
                biggest: prepare(data, chain, x)->biggest,
                consumed: prepare(data, chain, x)->consumed,
                compressed: prepare(data, chain, x)->compressed,
                produced: prepare(data, chain, x)->produced,
            })
            &&& area_x.len() == x.len()
            &&& area_y.len() == y.len()
            &&& area_x.take(total) == area_y.take(total)
        }),
    decreases chain.len(),
{
    if chain.len() == 0 {
        assert(x.take(0) =~= y.take(0));
    } else {
        let rest = chain.skip(1);
        let at = total_size(rest);
        let delta = chain[0];
        let all = prepare(data, chain, x)->deltas;
        assert forall|i: int| 0 <= i < rest.len() implies is_complete(
            data,
            (#[trigger] rest[i]).data_offset,
            rest[i].decompressed_size as nat,
        ) by {
            assert(rest[i] == chain[i + 1]);
        }
        assert forall|i: int| 0 <= i < prepare(data, rest, x)->deltas.len() implies (#[trigger] prepare(
            data,
            rest,
            x,
        )->deltas[i]).data_start <= prepare(data, rest, x)->deltas[i].data_end by {
            assert(all[i + 1] == prepare(data, rest, x)->deltas[i]);
        }
        lemma_prepare_alike(data, rest, x, y);
        let before_x = prepare(data, rest, x)->Ready_area;
        let before_y = prepare(data, rest, y)->Ready_area;
        let bytes = inflated(
            data.skip(delta.data_offset as int),
            delta.decompressed_size as nat,
        ).1;
        assert(bytes.len() == delta.decompressed_size);
        let after_x = overwritten(before_x, at as int, bytes);
        let after_y = overwritten(before_y, at as int, bytes);
        let end = at + delta.decompressed_size;
        assert(after_x.take(end) =~= before_x.take(at as int) + bytes);
        assert(after_y.take(end) =~= before_y.take(at as int) + bytes);
        assert(all[0] == sized(delta, at, after_x)->0);
        lemma_sized_alike(delta, at, after_x, after_y);
    }
}

/// Once a chain of complete deltas and its base are in the buffer, nothing is left of what was there at
/// first, but for a base that was.
#[verifier::rlimit(30)]
proof fn lemma_fill_alike(data: Seq<u8>, chain: Seq<Delta>, base: Base, a: Seq<u8>, b: Seq<u8>)
    requires
        base is InPack ==> are_complete(data, chain),
        !(base is InPack) ==> a == b,
        fill(data, chain, base, a) is Ready,
    ensures
        fill(data, chain, base, b) == fill(data, chain, base, a),
{
    if base is InPack {
        let total = total_size(chain);
        let x = resized(a, total);
        let y = resized(b, total);
        assert(x.skip(0) =~= x);
        assert(y.skip(0) =~= y);
        assert(x.take(0) =~= y.take(0));
        let filled = fill(data, chain, base, a);
        let deltas = prepare(data, chain, x)->deltas;
        assert(filled->deltas == deltas);
        assert forall|i: int| 0 <= i < deltas.len() implies (#[trigger] deltas[i]).data_start
            <= deltas[i].data_end by {
            assert(delta_fits(
                filled->deltas[i],
                filled->Ready_buf.skip(2 * filled->biggest as int),
            ));
        }
        lemma_prepare_alike(data, chain, x, y);
        let area_x = prepare(data, chain, x)->Ready_area;
        let area_y = prepare(data, chain, y)->Ready_area;
        assert(area_x.take(total as int) =~= area_x);
        assert(area_y.take(total as int) =~= area_y);
    }
}

/// What the buffer held before makes no difference: where decoding an entry succeeds with one buffer, it
/// succeeds with any other, with the same outcome, and leaves the same object in it; and the same cache,
/// if a cache that is told the same becomes the same. Where it is refused with one buffer, it is refused
/// alike with any other with which it ends. This is so if `resolve` and the cache do not go by what is in
/// the buffer.
///
/// There is one exception: where the data of a whole object, or of a delta on the way from an object in
/// the pack, decompresses to less than it should, what the buffer held shows.
pub proof fn law_buffer_makes_no_difference<
    C: DecodeEntry,
    F: Fn(Id, Vec<u8>) -> (Vec<u8>, Option<ResolvedBase>),
>(
    file: File,
    entry: Entry,
    resolve: F,
    cache: C,
    a: Seq<u8>,
    cache_a: C,
    out_a: Seq<u8>,
    r_a: Result<Outcome, Error>,
    b: Seq<u8>,
)
    requires
        gets_alike::<C>(),
        resolves_alike(resolve),
        is_complete_entry(file, entry, resolve, cache, a),
        file.can_decode(entry, resolve, cache, a),
        file.decodes(entry, resolve, cache, a, cache_a, out_a, r_a),
    ensures
        r_a is Ok ==> file.can_decode(entry, resolve, cache, b),
        forall|cache_b: C, out_b: Seq<u8>, r_b: Result<Outcome, Error>|
            #[trigger] file.decodes(entry, resolve, cache, b, cache_b, out_b, r_b) ==> {
                &&& r_b == r_a
                &&& r_a is Ok ==> out_b == out_a
                &&& puts_alike::<C>() ==> cache_b == cache_a
            },
{
    if entry.header.spec_is_delta() {
        let walk_a = choose|walk: Walk<C>|
            #[trigger] walks(file, resolve, Seq::empty(), entry, cache, a, walk) && finishes(
                file,
                entry,
                walk,
                cache_a,
                out_a,
                r_a,
            );
        assert forall|walk: Walk<C>|
            #[trigger] walks(file, resolve, Seq::empty(), entry, cache, b, walk) && r_a is Ok implies can_finish(
            file,
            walk,
        ) by {
            lemma_walks_alike(file, resolve, Seq::empty(), entry, cache, a, b, walk_a, walk);
            lemma_can_finish_alike(file, walk_a, walk);
        }
        assert forall|cache_b: C, out_b: Seq<u8>, r_b: Result<Outcome, Error>|
            #[trigger] file.decodes(entry, resolve, cache, b, cache_b, out_b, r_b) implies r_b == r_a && (
        r_a is Ok ==> out_b == out_a) && (puts_alike::<C>() ==> cache_b == cache_a) by {
            let walk_b = choose|walk: Walk<C>|
                #[trigger] walks(file, resolve, Seq::empty(), entry, cache, b, walk) && finishes(
                    file,
                    entry,
                    walk,
                    cache_b,
                    out_b,
                    r_b,
                );
            lemma_walks_alike(file, resolve, Seq::empty(), entry, cache, a, b, walk_a, walk_b);
            lemma_finishes_alike(
                file,
                entry,
                walk_a,
                cache_a,
                out_a,
                r_a,
                walk_b,
                cache_b,
                out_b,
                r_b,
            );
        }
    } else {
        let size = entry.decompressed_size as nat;
        let bytes = inflated(file.data@.skip(entry.data_offset as int), size).1;
        if bytes.len() == size {
            assert(overwritten(resized(a, size), 0, bytes) =~= bytes);
            assert(overwritten(resized(b, size), 0, bytes) =~= bytes);
        }
    }
}

/// Where one of two chains that end alike can be put together, so can the other.
proof fn lemma_can_finish_alike<C: DecodeEntry>(file: File, walk_a: Walk<C>, walk_b: Walk<C>)
    requires
        end_alike(walk_a, walk_b),
        walk_a matches Walk::Reached { chain, base, out, .. } ==> (base is InPack ==> are_complete(
            file.data@,
            chain,
        )) && (chain.len() > 0 ==> fill(file.data@, chain, base, out) is Ready),
        !(walk_a is Stuck),
    ensures
        can_finish(file, walk_b),
{
    if let Walk::Reached { chain, base, out, .. } = walk_a {
        if chain.len() > 0 {
            lemma_fill_alike(file.data@, chain, base, out, walk_b->Reached_out);
        }
    }
}

/// What comes of two chains that end alike is the same.
proof fn lemma_finishes_alike<C: DecodeEntry>(
    file: File,
    first: Entry,
    walk_a: Walk<C>,
    cache_a: C,
    out_a: Seq<u8>,
    r_a: Result<Outcome, Error>,
    walk_b: Walk<C>,
    cache_b: C,
    out_b: Seq<u8>,
    r_b: Result<Outcome, Error>,
)
    requires
        end_alike(walk_a, walk_b),
        walk_a matches Walk::Reached { chain, base, .. } ==> base is InPack ==> are_complete(
            file.data@,
            chain,
        ),
        finishes(file, first, walk_a, cache_a, out_a, r_a),
        finishes(file, first, walk_b, cache_b, out_b, r_b),
    ensures
        r_b == r_a,
        r_a is Ok ==> out_b == out_a,
        puts_alike::<C>() ==> cache_b == cache_a,
{
    if let Walk::Reached { chain, base, cache, out } = walk_a {
        if chain.len() > 0 {
            let a = fill(file.data@, chain, base, out);
            let b = fill(file.data@, chain, base, walk_b->Reached_out);
            if a is Ready {
                lemma_fill_alike(file.data@, chain, base, out, walk_b->Reached_out);
                if puts_alike::<C>() {
                    lemma_stores_alike(
                        cache,
                        base,
                        a->Ready_buf,
                        a->packed,
                        first.data_offset,
                        out_a,
                        a->consumed,
                        cache_a,
                        cache_b,
                    );
                }
            } else if b is Ready {
                lemma_fill_alike(file.data@, chain, base, walk_b->Reached_out, out);
            }
        }
    }
}

/// A cache that is told the same becomes the same.
proof fn lemma_stores_alike<C: DecodeEntry>(
    cache: C,
    base: Base,
    buf: Seq<u8>,
    packed: Option<nat>,
    offset: u64,
    object: Seq<u8>,
    consumed: nat,
    cache_a: C,
    cache_b: C,
)
    requires
        puts_alike::<C>(),
        may_store(cache, base, buf, packed, offset, object, consumed, cache_a),
        may_store(cache, base, buf, packed, offset, object, consumed, cache_b),
    ensures
        cache_a == cache_b,
{
}

/// An object that the cache has is not decoded again: if the cache is sure to have the object of a
/// delta, that object ends up in the buffer, with its size, and the kind and the compressed size that
/// the cache was told.
pub proof fn law_cached_object_comes_back<
    C: DecodeEntry,
    F: Fn(Id, Vec<u8>) -> (Vec<u8>, Option<ResolvedBase>),
>(
    file: File,
    entry: Entry,
    resolve: F,
    cache: C,
    out: Seq<u8>,
    object: Seq<u8>,
    kind: Kind,
    compressed_size: usize,
)
    requires
        entry.header.spec_is_delta(),
        forall|cache2: C, out2: Seq<u8>, hit: Option<(Kind, usize)>|
            #[trigger] C::may_get(cache, entry.data_offset, out, cache2, out2, hit) ==> out2 == object
                && hit == Some((kind, compressed_size)),
    ensures
        file.can_decode(entry, resolve, cache, out),
        forall|cache2: C, out2: Seq<u8>, r: Result<Outcome, Error>|
            #[trigger] file.decodes(entry, resolve, cache, out, cache2, out2, r) ==> out2 == object && r
                == Ok::<Outcome, Error>(
                Outcome {
                    kind,
                    num_deltas: 0,
                    decompressed_size: entry.decompressed_size,
                    compressed_size,
                    object_size: object.len() as u64,
                },
            ),
{
}

/// Following a chain ends where no base is found.
proof fn lemma_ends_unresolved<
    C: DecodeEntry,
    F: Fn(Id, Vec<u8>) -> (Vec<u8>, Option<ResolvedBase>),
>(
    file: File,
    resolve: F,
    path: Seq<Entry>,
    base_id: Id,
    cold: spec_fn(C) -> bool,
    i: int,
    cache: C,
    out: Seq<u8>,
    end: Walk<C>,
)
    requires
        0 <= i < path.len(),
        leads_through(file, resolve, path),
        path.last().header == (Header::RefDelta { base_id }),
        forall|before: Vec<u8>, after: Vec<u8>, found: Option<ResolvedBase>|
            #[trigger] call_ensures(resolve, (base_id, before), (after, found)) ==> found is None,
        is_cold(cold, path),
        cold(cache),
        total_size(chain_of(path)) <= u64::MAX,
        walks(file, resolve, chain_of(path).take(i), path[i], cache, out, end),
    ensures
        end matches Walk::Unresolved { id, .. } && id == base_id,
    decreases path.len() - i,
{
    let cursor = path[i];
    let before = chain_of(path).take(i);
    let longer = chain_of(path).take(i + 1);
    assert(leads_on(file, resolve, path, i));
    let (cache2, out2, hit) = choose|cache2: C, out2: Seq<u8>, hit: Option<(Kind, usize)>|
        #[trigger] C::may_get(cache, cursor.data_offset, out, cache2, out2, hit) && walks_past(
            file,
            resolve,
            before,
            cursor,
            cache2,
            out2,
            hit,
            end,
        );
    assert(C::may_get(cache, path[i].data_offset, out, cache2, out2, hit));
    assert(longer =~= before.push(Delta::spec_pending(cursor)));
    assert(chain_of(path) =~= longer + chain_of(path).skip(i + 1));
    lemma_total_size_join(longer, chain_of(path).skip(i + 1));
    lemma_total_size_push(before, Delta::spec_pending(cursor));
    assert(can_add(before, cursor));
    let out3 = match cursor.header {
        Header::RefDelta { base_id: id } => {
            let (out3, found) = choose|out3: Seq<u8>, found: Option<ResolvedBase>|
                #[trigger] may_resolve(resolve, id, out2, out3, found) && walks_on(
                    file,
                    resolve,
                    longer,
                    id,
                    cache2,
                    out3,
                    found,
                    end,
                );
            assert(may_resolve(resolve, id, out2, out3, found));
            out3
        },
        _ => out2,
    };
    if i + 1 < path.len() {
        lemma_ends_unresolved(file, resolve, path, base_id, cold, i + 1, cache2, out3, end);
    }
}

/// A chain of deltas that leads to one whose base can not be found is refused with the id of that base.
pub proof fn law_unresolved_base_is_named<
    C: DecodeEntry,
    F: Fn(Id, Vec<u8>) -> (Vec<u8>, Option<ResolvedBase>),
>(
    file: File,
    resolve: F,
    path: Seq<Entry>,
    base_id: Id,
    cold: spec_fn(C) -> bool,
    cache: C,
    out: Seq<u8>,
)
    requires
        leads_through(file, resolve, path),
        path.last().header == (Header::RefDelta { base_id }),
        forall|before: Vec<u8>, after: Vec<u8>, found: Option<ResolvedBase>|
            #[trigger] call_ensures(resolve, (base_id, before), (after, found)) ==> found is None,
        is_cold(cold, path),
        cold(cache),
        total_size(chain_of(path)) <= u64::MAX,
    ensures
        file.can_decode(path[0], resolve, cache, out),
        forall|cache2: C, out2: Seq<u8>, r: Result<Outcome, Error>|
            #[trigger] file.decodes(path[0], resolve, cache, out, cache2, out2, r) ==> r == Err::<
                Outcome,
                Error,
            >(Error::DeltaBaseUnresolved(base_id)),
{
    assert(leads_on(file, resolve, path, 0));
    assert(chain_of(path).take(0) =~= Seq::<Delta>::empty());
    assert forall|walk: Walk<C>|
        #[trigger] walks(file, resolve, Seq::empty(), path[0], cache, out, walk) implies walk matches Walk::Unresolved {
        id,
        ..
    } && id == base_id by {
        lemma_ends_unresolved(file, resolve, path, base_id, cold, 0, cache, out, walk);
    }
}

/// A whole object whose data is no zlib stream is refused; the cache is neither asked nor told.
pub proof fn law_broken_object_is_refused<
    C: DecodeEntry,
    F: Fn(Id, Vec<u8>) -> (Vec<u8>, Option<ResolvedBase>),
>(file: File, entry: Entry, resolve: F, cache: C, out: Seq<u8>)
    requires
        !entry.header.spec_is_delta(),
        entry.data_offset < file.data@.len(),
        entry.decompressed_size <= isize::MAX,
        inflated(file.data@.skip(entry.data_offset as int), entry.decompressed_size as nat).0 is None,
    ensures
        file.can_decode(entry, resolve, cache, out),
        forall|cache2: C, out2: Seq<u8>, r: Result<Outcome, Error>|
            #[trigger] file.decodes(entry, resolve, cache, out, cache2, out2, r) ==> cache2 == cache && r
                == Err::<Outcome, Error>(Error::ZlibInflate(zlib::Error::Inflate)),
{
}

/// A chain with a delta whose data is no zlib stream is refused, if the older deltas are in order: if
/// they decompress as they should, and make something of some object. The cache is not told of
/// anything.
pub proof fn law_broken_delta_is_refused<C: DecodeEntry>(
    file: File,
    first: Entry,
    chain: Seq<Delta>,
    base: Base,
    broken: int,
    older: Seq<Seq<u8>>,
    object: Seq<u8>,
    cache: C,
    out: Seq<u8>,
)
    requires
        0 <= broken < chain.len(),
        chain[broken].data_offset < file.data@.len(),
        inflated(
            file.data@.skip(chain[broken].data_offset as int),
            chain[broken].decompressed_size as nat,
        ).0 is None,
        decompress_to(file.data@, chain.skip(broken + 1), older),
        object_of(object, older) is Some,
        largest(object, older) <= usize::MAX,
        base.len_in_buffer(out.len()) + total_size(chain) <= isize::MAX,
    ensures
        can_finish(file, (Walk::Reached { chain, base, cache, out })),
        forall|cache2: C, out2: Seq<u8>, r: Result<Outcome, Error>|
            #[trigger] finishes(
                file,
                first,
                (Walk::Reached { chain, base, cache, out }),
                cache2,
                out2,
                r,
            ) ==> cache2 == cache && r == Err::<Outcome, Error>(
                Error::ZlibInflate(zlib::Error::Inflate),
            ),
{
    let start = base.len_in_buffer(out.len());
    let area = resized(out, start + total_size(chain)).skip(start as int);
    lemma_prepare_next(file.data@, chain, area, broken);
    lemma_prepare(file.data@, chain.skip(broken + 1), older, object, area);
    lemma_prepare_ends(file.data@, chain, area, broken);
}

/// A chain onto an object in the pack whose data is no zlib stream is refused, if the deltas are in order:
/// if they decompress as they should, and make something of some object. The cache is not told of
/// anything.
pub proof fn law_broken_base_is_refused<C: DecodeEntry>(
    file: File,
    first: Entry,
    chain: Seq<Delta>,
    deltas: Seq<Seq<u8>>,
    base: Entry,
    object: Seq<u8>,
    cache: C,
    out: Seq<u8>,
)
    requires
        chain.len() > 0,
        decompress_to(file.data@, chain, deltas),
        object_of(object, deltas) is Some,
        2 * largest(object, deltas) + total_size(chain) <= isize::MAX,
        base.data_offset < file.data@.len(),
        inflated(
            file.data@.skip(base.data_offset as int),
            2 * largest(object, deltas) + total_size(chain),
        ).0 is None,
    ensures
        can_finish(file, (Walk::Reached { chain, base: Base::InPack(base), cache, out })),
        forall|cache2: C, out2: Seq<u8>, r: Result<Outcome, Error>|
            #[trigger] finishes(
                file,
                first,
                (Walk::Reached { chain, base: Base::InPack(base), cache, out }),
                cache2,
                out2,
                r,
            ) ==> cache2 == cache && r == Err::<Outcome, Error>(
                Error::ZlibInflate(zlib::Error::Inflate),
            ),
{
    let total = total_size(chain);
    let grown = resized(out, total);
    assert(grown.skip(0) =~= grown);
    lemma_joined_len(file.data@, chain, deltas);
    lemma_prepare(file.data@, chain, deltas, object, grown);
    let area = joined(deltas) + grown.skip(total as int);
    assert(area.len() == total);
    assert(laid_out(grown.take(0), area, largest(object, deltas)).len() == 2 * largest(object, deltas)
        + total);
}

/// The bytes that stand for the size `n`: as few as it takes.
pub open spec fn size_bytes(n: nat) -> Seq<u8>
    decreases n,
{
    if n < 128 {
        seq![n as u8]
    } else {
        seq![(128 + n % 128) as u8] + size_bytes(n / 128)
    }
}

proof fn lemma_size_bytes_len(n: nat, k: nat)
    requires
        k >= 1,
        n < pow2(7 * k),
    ensures
        size_bytes(n).len() <= k,
    decreases k,
{
    lemma2_to64();
    if n >= 128 {
        let less = (k - 1) as nat;
        lemma_pow2_adds(7 * less, 7);
        assert(n / 128 < pow2(7 * less)) by (nonlinear_arith)
            requires
                n < pow2(7 * less) * 128,
        ;
        lemma_size_bytes_len(n / 128, less);
    }
}

/// Reading a size gives back the number that was written, and just the bytes that it took.
pub proof fn law_size_round_trip(n: u64, tail: Seq<u8>)
    ensures
        size_len(size_bytes(n as nat) + tail) == size_bytes(n as nat).len(),
        size_len(size_bytes(n as nat) + tail) <= MAX_SIZE_BYTES == 10,
        low_64(size_value(size_bytes(n as nat) + tail)) == n,
{
    lemma2_to64();
    lemma_pow2_adds(64, 6);
    lemma_size_bytes_len(n as nat, 10);
    lemma_size_bytes(n as nat);
    lemma_number_prefix(size_bytes(n as nat), tail);
}

proof fn lemma_size_bytes(n: nat)
    ensures
        number_ends(size_bytes(n)),
        size_len(size_bytes(n)) == size_bytes(n).len(),
        size_value(size_bytes(n)) == n,
    decreases n,
{
    if n >= 128 {
        lemma_size_bytes(n / 128);
        assert(size_bytes(n).skip(1) =~= size_bytes(n / 128));
    }
}

/// Instructions add up: what two runs of them produce one after the other is what each produces.
#[verifier::rlimit(30)]
pub proof fn law_instructions_add_up(base: Seq<u8>, first: Seq<u8>, second: Seq<u8>)
    requires
        delta_output(base, first) is Some,
        delta_output(base, second) is Some,
    ensures
        delta_output(base, first + second) == Some(
            delta_output(base, first)->0 + delta_output(base, second)->0,
        ),
    decreases first.len(),
{
    let all = first + second;
    if first.len() == 0 {
        assert(all =~= second);
        assert(delta_output(base, first)->0 + delta_output(base, second)->0 =~= delta_output(
            base,
            second,
        )->0);
    } else {
        let cmd = first[0];
        let rest = first.skip(1);
        assert(all.skip(1) =~= rest + second);
        let n = if cmd >= 0x80 {
            copy_args(cmd)
        } else {
            cmd as nat
        };
        assert((rest + second).skip(n as int) =~= rest.skip(n as int) + second);
        law_instructions_add_up(base, rest.skip(n as int), second);
        assert((rest + second).take(n as int) =~= rest.take(n as int));
        assert(copy_offset(cmd, rest + second) == copy_offset(cmd, rest) || cmd < 0x80);
        assert(copy_size(cmd, rest + second) == copy_size(cmd, rest) || cmd < 0x80);
        assert(delta_output(base, all)->0 =~= delta_output(base, first)->0 + delta_output(
            base,
            second,
        )->0);
    }
}

/// Whether the size at the start of an entry is stored in as few bytes as it needs.
pub open spec fn size_is_minimal(d: Seq<u8>) -> bool {
    size_len(d) == 1 || d[size_len(d) - 1] != 0
}

/// Behind the first byte of a number of several bytes there is a number too.
proof fn lemma_rest_of_number(d: Seq<u8>)
    requires
        number_ends(d),
        d[0] >= 0x80,
    ensures
        number_ends(d.skip(1)),
        d.skip(1).len() > 0,
        size_len(d) == 1 + size_len(d.skip(1)),
        size_is_minimal(d) ==> size_is_minimal(d.skip(1)),
{
    let rest = d.skip(1);
    reveal_with_fuel(number_ends, 2);
    lemma_size_len_bounds(rest);
    assert(rest[size_len(rest) - 1] == d[size_len(d) - 1]);
}

/// A number in as few bytes as it needs takes one for each group of seven bits.
proof fn lemma_minimal_size(d: Seq<u8>)
    requires
        number_ends(d),
        size_is_minimal(d),
    ensures
        size_len(d) == group_count(size_value(d)),
        size_value(d) == 0 ==> size_len(d) == 1 && d[0] == 0,
    decreases d.len(),
{
    if d[0] >= 0x80 {
        lemma_rest_of_number(d);
        lemma_minimal_size(d.skip(1));
    }
}

proof fn lemma_distance_len(bytes: Seq<u8>)
    requires
        bytes.len() > 0,
    ensures
        distance_len(distance_value(bytes)) == bytes.len(),
    decreases bytes.len(),
{
    if bytes.len() > 1 {
        lemma_distance_len(bytes.drop_last());
    }
}

/// An entry knows where it starts, and so where its base does, unless its size is stored in more bytes
/// than it needs.
pub proof fn law_entry_knows_its_offset(d: Seq<u8>, pack_offset: u64, entry: Entry)
    requires
        entry_at(d, pack_offset) == Some(entry),
        size_is_minimal(d),
    ensures
        entry.data_offset - entry.spec_header_size() == pack_offset,
{
    let n = size_len(d);
    if d[0] >= 0x80 {
        lemma_rest_of_number(d);
        lemma_minimal_size(d.skip(1));
    }
    if type_id(d[0]) == 6 {
        let rest = d.skip(n as int);
        lemma_size_len_bounds(rest);
        lemma_distance_len(rest.take(size_len(rest) as int));
    }
}

} // verus!
