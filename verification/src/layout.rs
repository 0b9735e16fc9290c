//! What holds of the buffer in which an object is put together, byte for byte.
use crate::assemble::{
    applied, assembled, delta_fits, delta_result, laid_out, resized, sized, total_size,
};
use crate::chain::Delta;
use crate::decode::lemma_total_size_push;
use crate::delta::{delta_output, lemma_delta_output_len};
use crate::encoding::{are_groups, groups_bytes, groups_value, law_low_64, law_number_cut_short, law_number_is_read, open_bytes};
use crate::zlib::overwritten;
use vstd::prelude::*;

verus! {

/// Where bytes are written over a buffer, they are there, and everything else is as it was.
pub proof fn law_overwritten(buf: Seq<u8>, at: int, bytes: Seq<u8>)
    requires
        0 <= at,
        at + bytes.len() <= buf.len(),
    ensures
        overwritten(buf, at, bytes).len() == buf.len(),
        forall|j: int|
            0 <= j < buf.len() ==> #[trigger] overwritten(buf, at, bytes)[j] == if at <= j < at
                + bytes.len() {
                bytes[j - at]
            } else {
                buf[j]
            },
{
}

/// A buffer that is brought to a length keeps what fits, and is filled up with zeros.
pub proof fn law_resized(s: Seq<u8>, len: nat)
    ensures
        resized(s, len).len() == len,
        forall|j: int|
            0 <= j < len ==> #[trigger] resized(s, len)[j] == if j < s.len() {
                s[j]
            } else {
                0
            },
{
}

/// Once two buffers of `biggest` bytes are made before the deltas in `area`, these are right behind them,
/// and the buffers start with what was before the deltas, followed by a trace of them, and zeros.
pub proof fn law_laid_out(base: Seq<u8>, area: Seq<u8>, biggest: nat)
    requires
        base.len() <= 2 * biggest,
    ensures
        laid_out(base, area, biggest).len() == 2 * biggest + area.len(),
        forall|j: int|
            0 <= j < 2 * biggest + area.len() ==> #[trigger] laid_out(base, area, biggest)[j] == if j >= 2
                * biggest {
                area[j - 2 * biggest]
            } else if j < base.len() {
                base[j]
            } else if j < base.len() + area.len() {
                area[j - base.len()]
            } else {
                0
            },
{
}

/// The sizes of all deltas of a chain add up.
pub proof fn law_total_size(chain: Seq<Delta>, delta: Delta)
    ensures
        total_size(Seq::empty()) == 0,
        total_size(chain.push(delta)) == total_size(chain) + delta.decompressed_size,
{
    lemma_total_size_push(chain, delta);
}

/// What is noted of a delta are the two sizes that it starts with, in 64 bits each, and the place of the
/// instructions behind them, up to where the delta ends; unless a size does not fit into memory.
pub proof fn law_sizes_are_noted(
    delta: Delta,
    older: Seq<u8>,
    base_groups: Seq<u8>,
    base_size: u64,
    base_beyond: nat,
    result_groups: Seq<u8>,
    result_size: u64,
    result_beyond: nat,
    tail: Seq<u8>,
)
    requires
        are_groups(base_groups),
        0 < base_groups.len() <= 10,
        groups_value(base_groups) == base_size as nat + 0x1_0000_0000_0000_0000 * base_beyond,
        are_groups(result_groups),
        0 < result_groups.len() <= 10,
        groups_value(result_groups) == result_size as nat + 0x1_0000_0000_0000_0000 * result_beyond,
        older.len() + delta.decompressed_size <= usize::MAX,
        older.len() + base_groups.len() + result_groups.len() + tail.len() <= usize::MAX,
    ensures
        sized(
            delta,
            older.len(),
            older + groups_bytes(base_groups) + groups_bytes(result_groups) + tail,
        ) == if base_size <= usize::MAX && result_size <= usize::MAX {
            Some(
                Delta {
                    data_start: (older.len() + base_groups.len() + result_groups.len()) as usize,
                    data_end: (older.len() + delta.decompressed_size) as usize,
                    base_size: base_size as usize,
                    result_size: result_size as usize,
                    decompressed_size: delta.decompressed_size,
                    data_offset: delta.data_offset,
                },
            )
        } else {
            None
        },
{
    let b = groups_bytes(base_groups);
    let r = groups_bytes(result_groups);
    let area = older + b + r + tail;
    assert(area.skip(older.len() as int) =~= b + (r + tail));
    law_number_is_read(base_groups, r + tail);
    assert((b + (r + tail)).skip(b.len() as int) =~= r + tail);
    law_number_is_read(result_groups, tail);
    law_low_64(base_size, base_beyond);
    law_low_64(result_size, result_beyond);
}

/// Where the bytes end before the sizes of a delta do, the sizes are what there is of them: of both, or of
/// the first one, where the second one is zero.
pub proof fn law_sizes_are_cut_short(
    delta: Delta,
    older: Seq<u8>,
    base_groups: Seq<u8>,
    base_size: usize,
    result_groups: Seq<u8>,
    result_size: usize,
)
    requires
        are_groups(base_groups),
        base_groups.len() <= 9,
        groups_value(base_groups) == base_size <= u64::MAX,
        are_groups(result_groups),
        result_groups.len() <= 9,
        groups_value(result_groups) == result_size <= u64::MAX,
        older.len() + delta.decompressed_size <= usize::MAX,
        older.len() + base_groups.len() + result_groups.len() <= usize::MAX,
    ensures
        sized(delta, older.len(), older + open_bytes(base_groups)) == Some(
            Delta {
                data_start: (older.len() + base_groups.len()) as usize,
                data_end: (older.len() + delta.decompressed_size) as usize,
                base_size,
                result_size: 0,
                decompressed_size: delta.decompressed_size,
                data_offset: delta.data_offset,
            },
        ),
        base_groups.len() > 0 ==> sized(
            delta,
            older.len(),
            older + groups_bytes(base_groups) + open_bytes(result_groups),
        ) == Some(
            Delta {
                data_start: (older.len() + base_groups.len() + result_groups.len()) as usize,
                data_end: (older.len() + delta.decompressed_size) as usize,
                base_size,
                result_size,
                decompressed_size: delta.decompressed_size,
                data_offset: delta.data_offset,
            },
        ),
{
    let o = open_bytes(base_groups);
    assert((older + o).skip(older.len() as int) =~= o);
    law_number_cut_short(base_groups);
    assert(o.skip(o.len() as int) =~= Seq::<u8>::empty());
    law_low_64(base_size as u64, 0);
    law_low_64(result_size as u64, 0);
    law_low_64(0, 0);
    if base_groups.len() > 0 {
        let b = groups_bytes(base_groups);
        let r = open_bytes(result_groups);
        assert((older + b + r).skip(older.len() as int) =~= b + r);
        law_number_is_read(base_groups, r);
        assert((b + r).skip(b.len() as int) =~= r);
        law_number_cut_short(result_groups);
    }
}

/// A size in too many bytes is refused.
pub proof fn law_long_size_is_refused(delta: Delta, older: Seq<u8>, groups: Seq<u8>, tail: Seq<u8>)
    requires
        are_groups(groups),
        groups.len() > 10,
    ensures
        sized(delta, older.len(), older + groups_bytes(groups) + tail) is None,
{
    let area = older + groups_bytes(groups) + tail;
    assert(area.skip(older.len() as int) =~= groups_bytes(groups) + tail);
    law_number_is_read(groups, tail);
}

/// A delta fits if its instructions are there and make enough of every object of the size that it states.
pub proof fn law_delta_fits(delta: Delta, instructions: Seq<u8>)
    ensures
        delta_fits(delta, instructions) <==> {
            &&& delta.data_start <= delta.data_end <= instructions.len()
            &&& forall|base: Seq<u8>|
                base.len() == delta.base_size ==> (#[trigger] delta_output(
                    base,
                    instructions.subrange(delta.data_start as int, delta.data_end as int),
                ) matches Some(output) && output.len() >= delta.result_size)
        },
{
    let own = instructions.subrange(delta.data_start as int, delta.data_end as int);
    assert forall|base: Seq<u8>| base.len() == delta.base_size && delta_fits(delta, instructions) implies (
    #[trigger] delta_output(base, own) matches Some(output) && output.len() >= delta.result_size) by {
        lemma_delta_output_len(base, own);
    }
    let zeros = Seq::new(delta.base_size as nat, |i: int| 0u8);
    lemma_delta_output_len(zeros, own);
    assert(zeros.len() == delta.base_size);
}

/// What `deltas` make of `object`, the last one first: each of them takes as much as it states of what the
/// one before it made, and gives as much as it states of what its instructions produce. `None` where a
/// delta states more than there is, or its instructions are malformed.
pub open spec fn made_of(
    object: Seq<u8>,
    deltas: Seq<Delta>,
    instructions: Seq<u8>,
) -> Option<Seq<u8>>
    decreases deltas.len(),
{
    if deltas.len() == 0 {
        Some(object)
    } else {
        let delta = deltas[0];
        match made_of(object, deltas.skip(1), instructions) {
            Some(older) => if delta.base_size <= older.len() && delta.data_start <= delta.data_end
                <= instructions.len() {
                match delta_output(
                    older.take(delta.base_size as int),
                    instructions.subrange(delta.data_start as int, delta.data_end as int),
                ) {
                    Some(output) if delta.result_size <= output.len() => Some(
                        output.take(delta.result_size as int),
                    ),
                    _ => None,
                }
            } else {
                None
            },
            None => None,
        }
    }
}

/// Whether a buffer starts with an object, as far as there is room for it.
pub open spec fn starts_with(buf: Seq<u8>, object: Seq<u8>) -> bool {
    forall|j: int| 0 <= j < object.len() && j < buf.len() ==> #[trigger] buf[j] == object[j]
}

/// A delta reads as much as it states from the buffer that was written last, and writes what its
/// instructions produce, as much as it states, over the start of the other.
pub proof fn law_buffers_take_turns(
    deltas: Seq<Delta>,
    source: Seq<u8>,
    target: Seq<u8>,
    instructions: Seq<u8>,
)
    requires
        deltas.len() > 0,
    ensures
        applied(Seq::empty(), source, target, instructions) == (source, target),
        ({
            let delta = deltas[0];
            let (read, written) = applied(deltas.skip(1), source, target, instructions);
            let own = instructions.subrange(delta.data_start as int, delta.data_end as int);
            delta_output(read.take(delta.base_size as int), own) matches Some(output) ==> output.len()
                >= delta.result_size && written.len() >= delta.result_size ==> {
                let (read2, written2) = applied(deltas, source, target, instructions);
                &&& written2 == read
                &&& read2.len() == written.len()
                &&& forall|j: int|
                    0 <= j < written.len() ==> #[trigger] read2[j] == if j < delta.result_size {
                        output[j]
                    } else {
                        written[j]
                    }
            }
        }),
{
}

proof fn lemma_applied_in_turn(
    deltas: Seq<Delta>,
    source: Seq<u8>,
    target: Seq<u8>,
    instructions: Seq<u8>,
    object: Seq<u8>,
)
    requires
        target.len() == source.len(),
        forall|i: int|
            0 <= i < deltas.len() ==> (#[trigger] deltas[i]).base_size <= source.len()
                && deltas[i].result_size <= source.len(),
        starts_with(source, object),
        made_of(object, deltas, instructions) is Some,
    ensures
        ({
            let (source2, target2) = applied(deltas, source, target, instructions);
            &&& source2.len() == source.len()
            &&& target2.len() == source.len()
            &&& starts_with(source2, made_of(object, deltas, instructions)->0)
        }),
        deltas.len() > 0 ==> made_of(object, deltas, instructions)->0.len() == deltas[0].result_size,
        forall|i: int| 0 <= i < deltas.len() ==> delta_fits(#[trigger] deltas[i], instructions),
    decreases deltas.len(),
{
    if deltas.len() > 0 {
        let rest = deltas.skip(1);
        let delta = deltas[0];
        assert forall|i: int| 0 <= i < rest.len() implies (#[trigger] rest[i]).base_size <= source.len()
            && rest[i].result_size <= source.len() by {
            assert(rest[i] == deltas[i + 1]);
        }
        lemma_applied_in_turn(rest, source, target, instructions, object);
        let older = made_of(object, rest, instructions)->0;
        let (source2, target2) = applied(rest, source, target, instructions);
        let own = instructions.subrange(delta.data_start as int, delta.data_end as int);
        assert(source2.take(delta.base_size as int) =~= older.take(delta.base_size as int));
        lemma_delta_output_len(older.take(delta.base_size as int), own);
        assert(delta_fits(delta, instructions));
        assert forall|i: int| 0 <= i < deltas.len() implies delta_fits(#[trigger] deltas[i], instructions) by {
            if i > 0 {
                assert(deltas[i] == rest[i - 1]);
            }
        }
        assert(delta_result(delta, source2, instructions) == made_of(object, deltas, instructions)->0);
    }
}

/// Applying deltas in turn, from one buffer to the other and back, leaves what they make of the object
/// that the first buffer starts with; and all of them fit.
pub proof fn law_deltas_are_applied_in_turn(
    buf: Seq<u8>,
    deltas: Seq<Delta>,
    biggest: nat,
    object: Seq<u8>,
)
    requires
        deltas.len() > 0,
        2 * biggest <= buf.len(),
        forall|i: int|
            0 <= i < deltas.len() ==> (#[trigger] deltas[i]).base_size <= biggest
                && deltas[i].result_size <= biggest,
        starts_with(buf.take(biggest as int), object),
        made_of(object, deltas, buf.skip(2 * biggest as int)) is Some,
    ensures
        assembled(buf, deltas, biggest) == made_of(object, deltas, buf.skip(2 * biggest as int))->0,
        forall|i: int|
            0 <= i < deltas.len() ==> delta_fits(#[trigger] deltas[i], buf.skip(2 * biggest as int)),
{
    let source = buf.take(biggest as int);
    let target = buf.subrange(biggest as int, 2 * biggest as int);
    let instructions = buf.skip(2 * biggest as int);
    lemma_applied_in_turn(deltas, source, target, instructions, object);
    assert(assembled(buf, deltas, biggest) =~= made_of(object, deltas, instructions)->0);
}

} // verus!
