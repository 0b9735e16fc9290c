//! What calls of the functions that read a pack give back, told by the bytes that they are given.
use crate::assemble::{apply_deltas, laid_out, lay_out, note_sizes, Base};
use crate::cache::DecodeEntry;
use crate::chain::{deltas_of, Delta, DeltaChain};
use crate::decode::{can_finish, finishes, Error, Outcome, ResolvedBase, Walk};
use crate::delta::{
    apply_delta, delta_fills, delta_header_size_ofs, delta_output, lemma_delta_output_len,
};
use crate::encoding::{
    are_groups, groups_bytes, groups_value, header_bytes, holds, is_size, law_entry_is_read, law_entry_of_pack_is_read,
    law_base_is_at_its_distance, law_header_size, law_header_states_kind, law_low_64, law_number_cut_short,
    law_number_is_read, open_bytes, upper_groups,
};
use crate::entry::{Entry, Header};
use crate::file::{File, Version};
use crate::guarantees::{
    all_results, all_sizes, biggest_stated, can_be_put_together, fits_together, gives_back, is_told,
    law_chain_is_decoded, law_chain_is_put_together, law_whole_object_is_decoded, make, size_of_base,
    stays_cold, taken_in_pack,
};
use crate::laws::{has_base, is_of_kind, leads_on, leads_through, packed_size, packed_size_of};
use crate::layout::{
    law_deltas_are_applied_in_turn, law_laid_out, law_overwritten, law_sizes_are_noted, made_of, starts_with,
};
use crate::object::{Id, Kind};
use crate::zlib::{self, inflated};
use vstd::prelude::*;

verus! {

/// `delta_header_size_ofs` returns the number that the bytes hold, in 64 bits, and how many bytes it takes;
/// also where the bytes end before the number does.
pub proof fn law_size_is_returned(
    d: &[u8],
    groups: Seq<u8>,
    size: u64,
    beyond: nat,
    tail: Seq<u8>,
    r: (u64, usize),
)
    requires
        are_groups(groups),
        groups.len() <= 10,
        groups_value(groups) == size as nat + 0x1_0000_0000_0000_0000 * beyond,
        d@ == open_bytes(groups) || groups.len() > 0 && d@ == groups_bytes(groups) + tail,
        call_ensures(delta_header_size_ofs, (d,), r),
    ensures
        r.0 == size,
        r.1 == groups.len(),
{
    law_number_cut_short(groups);
    if groups.len() > 0 {
        law_number_is_read(groups, tail);
    }
    law_low_64(size, beyond);
}

/// `Entry::try_from_bytes` and `Entry::from_bytes` return the entry that was written.
pub proof fn law_entry_is_returned(
    d: &[u8],
    header: Header,
    low: u8,
    groups: Seq<u8>,
    size: u64,
    rest: Seq<u8>,
    pack_offset: u64,
    tried: Option<Entry>,
    read: Entry,
)
    requires
        is_size(low, groups, size),
        d@ == header_bytes(header, low, groups) + rest,
        pack_offset + header_bytes(header, low, groups).len() <= u64::MAX,
        call_ensures(Entry::try_from_bytes, (d, pack_offset), tried),
        call_ensures(Entry::from_bytes, (d, pack_offset), read),
    ensures
        read == (Entry {
            header,
            decompressed_size: size,
            data_offset: (pack_offset + header_bytes(header, low, groups).len()) as u64,
        }),
        tried == Some(read),
{
    law_entry_is_read(header, low, groups, size, rest, pack_offset);
}

/// `File::entry` and `File::try_entry` return the entry that was written at the offset.
pub proof fn law_entry_of_pack_is_returned(
    file: &File,
    before: Seq<u8>,
    header: Header,
    low: u8,
    groups: Seq<u8>,
    size: u64,
    behind: Seq<u8>,
    offset: u64,
    tried: Option<Entry>,
    read: Entry,
)
    requires
        file.version == Version::V2,
        is_size(low, groups, size),
        file.data@ == before + header_bytes(header, low, groups) + behind,
        file.data@.len() <= u64::MAX,
        offset == before.len(),
        call_ensures(File::try_entry, (file, offset), tried),
        call_ensures(File::entry, (file, offset), read),
    ensures
        read == (Entry {
            header,
            decompressed_size: size,
            data_offset: (offset + header_bytes(header, low, groups).len()) as u64,
        }),
        tried == Some(read),
{
    law_entry_of_pack_is_read(*file, before, header, low, groups, size, behind);
}

/// `File::try_base_entry` returns the entry that was written at the distance before a delta.
pub proof fn law_base_is_returned(
    file: &File,
    before: Seq<u8>,
    base: Header,
    base_low: u8,
    base_groups: Seq<u8>,
    base_size: u64,
    between: Seq<u8>,
    base_distance: u64,
    size: u64,
    behind: Seq<u8>,
    offset: u64,
    delta: &Entry,
    r: Option<Entry>,
)
    requires
        file.version == Version::V2,
        is_size(base_low, base_groups, base_size),
        base_distance == header_bytes(base, base_low, base_groups).len() + between.len(),
        file.data@ == before + header_bytes(base, base_low, base_groups) + between + header_bytes(
            Header::OfsDelta { base_distance },
            (size % 16) as u8,
            upper_groups(size),
        ) + behind,
        file.data@.len() <= u64::MAX,
        offset == before.len() + base_distance,
        call_ensures(File::entry, (file, offset), *delta),
        call_ensures(File::try_base_entry, (file, delta, base_distance), r),
    ensures
        r == Some(
            Entry {
                header: base,
                decompressed_size: base_size,
                data_offset: (before.len() + header_bytes(base, base_low, base_groups).len()) as u64,
            },
        ),
{
    law_base_is_at_its_distance(
        *file,
        before,
        base,
        base_low,
        base_groups,
        base_size,
        between,
        base_distance,
        size,
        behind,
    );
}

/// The sizes and offsets that an entry tells are those of the bytes that it is written in, as few as it
/// takes.
pub proof fn law_offsets_are_returned(
    entry: &Entry,
    distance: u64,
    header_size: usize,
    pack_offset: u64,
    base_offset: u64,
)
    requires
        call_ensures(Entry::header_size, (entry,), header_size),
        call_ensures(Entry::pack_offset, (entry,), pack_offset),
        call_ensures(Entry::base_pack_offset, (entry, distance), base_offset),
    ensures
        header_size == header_bytes(
            entry.header,
            (entry.decompressed_size % 16) as u8,
            upper_groups(entry.decompressed_size),
        ).len(),
        pack_offset == entry.data_offset - header_size,
        base_offset == pack_offset - distance,
{
    law_header_size(*entry);
}

/// `Header::is_delta` and `Header::to_kind` tell what the header states.
pub proof fn law_kind_is_returned(header: &Header, is_delta: bool, kind: Option<Kind>)
    requires
        call_ensures(Header::is_delta, (header,), is_delta),
        call_ensures(Header::to_kind, (header,), kind),
    ensures
        is_delta <==> *header is OfsDelta || *header is RefDelta,
        kind is None <==> is_delta,
        kind matches Some(kind) ==> holds(*header, kind),
{
    law_header_states_kind(*header);
    if let Some(kind) = kind {
        assert(holds(*header, kind) <==> header.spec_to_kind() == Some(kind));
    }
}

/// `delta_fills` tells whether the instructions make enough of every object of a size.
pub proof fn law_filling_is_told(base_len: usize, target_len: usize, data: &[u8], fills: bool)
    requires
        call_ensures(delta_fills, (base_len, target_len, data), fills),
    ensures
        fills <==> forall|base: Seq<u8>|
            base.len() == base_len ==> (#[trigger] delta_output(base, data@) matches Some(output)
                && output.len() >= target_len),
{
    assert forall|base: Seq<u8>| base.len() == base_len && fills implies (#[trigger] delta_output(
        base,
        data@,
    ) matches Some(output) && output.len() >= target_len) by {
        lemma_delta_output_len(base, data@);
    }
    let zeros = Seq::new(base_len as nat, |i: int| 0u8);
    lemma_delta_output_len(zeros, data@);
    assert(zeros.len() == base_len);
}

/// `note_sizes` notes the two sizes that a delta was written with, and where its instructions are.
pub proof fn law_sizes_are_returned(
    delta: Delta,
    at: usize,
    area: &[u8],
    older: Seq<u8>,
    base_groups: Seq<u8>,
    base_size: usize,
    result_groups: Seq<u8>,
    result_size: usize,
    tail: Seq<u8>,
    r: Option<Delta>,
)
    requires
        are_groups(base_groups),
        0 < base_groups.len() <= 10,
        groups_value(base_groups) == base_size <= u64::MAX,
        are_groups(result_groups),
        0 < result_groups.len() <= 10,
        groups_value(result_groups) == result_size <= u64::MAX,
        area@ == older + groups_bytes(base_groups) + groups_bytes(result_groups) + tail,
        area@.len() <= usize::MAX,
        at == older.len(),
        at + delta.decompressed_size <= usize::MAX,
        call_ensures(note_sizes, (delta, at, area), r),
    ensures
        r == Some(
            Delta {
                data_start: (at + base_groups.len() + result_groups.len()) as usize,
                data_end: (at + delta.decompressed_size) as usize,
                base_size,
                result_size,
                decompressed_size: delta.decompressed_size,
                data_offset: delta.data_offset,
            },
        ),
{
    law_sizes_are_noted(
        delta,
        older,
        base_groups,
        base_size as u64,
        0,
        result_groups,
        result_size as u64,
        0,
        tail,
    );
}

/// Of an object of which only the kind is known, that is told, and zeros.
pub proof fn law_default_is_returned(kind: Kind, outcome: Outcome)
    requires
        call_ensures(Outcome::default_from_kind, (kind,), outcome),
    ensures
        outcome == (Outcome {
            kind,
            num_deltas: 0,
            decompressed_size: 0,
            compressed_size: 0,
            object_size: 0,
        }),
{
}

/// `apply_delta` leaves in the target what the instructions produce, as much as it holds.
pub proof fn law_output_is_left(base: &[u8], target: &mut [u8], data: &[u8], output: Seq<u8>)
    requires
        delta_output(base@, data@) == Some(output),
        output.len() >= old(target)@.len(),
        call_ensures(apply_delta, (base, target, data), ()),
    ensures
        final(target)@.len() == old(target)@.len(),
        forall|j: int| 0 <= j < old(target)@.len() ==> #[trigger] final(target)@[j] == output[j],
{
}

/// `lay_out` makes room for two buffers before the deltas.
pub proof fn law_layout_is_left(out: &mut Vec<u8>, start: usize, biggest: usize, total: usize)
    requires
        old(out)@.len() == start + total,
        start <= 2 * biggest,
        call_ensures(lay_out, (out, start, biggest, total), ()),
    ensures
        final(out)@.len() == 2 * biggest + total,
        forall|j: int|
            0 <= j < 2 * biggest + total ==> #[trigger] final(out)@[j] == if j >= 2 * biggest {
                old(out)@[start + j - 2 * biggest]
            } else if j < start + total {
                old(out)@[j]
            } else {
                0
            },
{
    let base = old(out)@.take(start as int);
    let area = old(out)@.skip(start as int);
    law_laid_out(base, area, biggest as nat);
    assert forall|j: int| 0 <= j < 2 * biggest + total implies #[trigger] final(out)@[j] == if j >= 2
        * biggest {
        old(out)@[start + j - 2 * biggest]
    } else if j < start + total {
        old(out)@[j]
    } else {
        0
    } by {
        assert(laid_out(base, area, biggest as nat)[j] == final(out)@[j]);
    }
}

/// `apply_deltas` leaves what the deltas make, in turn, of the object that the first buffer starts with.
pub proof fn law_result_is_left(chain: &DeltaChain, biggest: usize, out: &mut Vec<u8>, object: Seq<u8>)
    requires
        deltas_of(*chain).len() > 0,
        2 * biggest <= old(out)@.len(),
        forall|i: int|
            0 <= i < deltas_of(*chain).len() ==> (#[trigger] deltas_of(*chain)[i]).base_size <= biggest
                && deltas_of(*chain)[i].result_size <= biggest,
        starts_with(old(out)@.take(biggest as int), object),
        made_of(object, deltas_of(*chain), old(out)@.skip(2 * biggest as int)) is Some,
        call_ensures(apply_deltas, (chain, biggest, out), ()),
    ensures
        final(out)@ == made_of(object, deltas_of(*chain), old(out)@.skip(2 * biggest as int))->0,
{
    law_deltas_are_applied_in_turn(old(out)@, deltas_of(*chain), biggest as nat, object);
}

/// Whether a buffer is what it was, but for `bytes` at its start.
pub open spec fn is_written(before: Seq<u8>, bytes: Seq<u8>, after: Seq<u8>) -> bool {
    &&& bytes.len() <= before.len()
    &&& after.len() == before.len()
    &&& forall|j: int|
        0 <= j < before.len() ==> #[trigger] after[j] == if j < bytes.len() {
            bytes[j]
        } else {
            before[j]
        }
}

/// `File::decompress_entry` writes what the data of the entry decompresses to, and returns how much that
/// is, or that it failed.
pub proof fn law_entry_is_decompressed(
    file: &File,
    before: Seq<u8>,
    stream: Seq<u8>,
    entry: &Entry,
    out: &mut [u8],
    r: Result<usize, Error>,
)
    requires
        file.data@ == before + stream,
        entry.data_offset == before.len(),
        call_ensures(File::decompress_entry, (file, entry, out), r),
    ensures
        ({
            let (consumed, bytes) = inflated(stream, old(out)@.len());
            &&& is_written(old(out)@, bytes, final(out)@)
            &&& r == match consumed {
                Some(_) => Ok(bytes.len() as usize),
                None => Err(Error::ZlibInflate(zlib::Error::Inflate)),
            }
        }),
{
    let bytes = inflated(stream, old(out)@.len()).1;
    assert(file.data@.skip(before.len() as int) =~= stream);
    law_overwritten(old(out)@, 0, bytes);
}

/// `File::decompress_entry_from_data_offset` writes what the data at the offset decompresses to, and returns
/// how many bytes it takes in the pack, or that it failed.
pub proof fn law_data_is_decompressed(
    file: &File,
    before: Seq<u8>,
    stream: Seq<u8>,
    data_offset: u64,
    out: &mut [u8],
    r: Result<usize, Error>,
)
    requires
        file.data@ == before + stream,
        data_offset == before.len(),
        call_ensures(File::decompress_entry_from_data_offset, (file, data_offset, out), r),
    ensures
        ({
            let (consumed, bytes) = inflated(stream, old(out)@.len());
            &&& is_written(old(out)@, bytes, final(out)@)
            &&& r == match consumed {
                Some(consumed) => Ok(consumed as usize),
                None => Err(Error::ZlibInflate(zlib::Error::Inflate)),
            }
        }),
{
    let bytes = inflated(stream, old(out)@.len()).1;
    assert(file.data@.skip(before.len() as int) =~= stream);
    law_overwritten(old(out)@, 0, bytes);
}

/// `zlib::inflate_once` writes what the stream decompresses to, and returns how many bytes it takes and how
/// much it wrote, or that it failed.
pub proof fn law_stream_is_decompressed(
    input: &[u8],
    out: &mut [u8],
    r: Result<(usize, usize), zlib::Error>,
)
    requires
        call_ensures(zlib::inflate_once, (input, out), r),
    ensures
        ({
            let (consumed, bytes) = inflated(input@, old(out)@.len());
            &&& is_written(old(out)@, bytes, final(out)@)
            &&& r == match consumed {
                Some(consumed) => Ok((consumed as usize, bytes.len() as usize)),
                None => Err(zlib::Error::Inflate),
            }
        }),
{
    law_overwritten(old(out)@, 0, inflated(input@, old(out)@.len()).1);
}

/// `File::decode_entry` and `File::try_decode_entry` give, for an entry whose deltas lead to an object, what
/// they make of it, with a cache that has none of the objects on the way; and so does
/// `File::resolve_deltas`.
pub proof fn law_chain_is_returned<
    C: DecodeEntry,
    F: Fn(Id, Vec<u8>) -> (Vec<u8>, Option<ResolvedBase>),
>(
    file: &File,
    resolve: F,
    path: Seq<Entry>,
    deltas: Seq<Seq<u8>>,
    base: Base,
    object: Seq<u8>,
    kind: Kind,
    cold: spec_fn(int, C) -> bool,
    cache: &mut C,
    out: &mut Vec<u8>,
    r: Result<Outcome, Error>,
)
    requires
        leads_through(*file, resolve, path),
        has_base(*file, resolve, path.last(), base, object),
        !(base is Cached),
        is_of_kind(base, kind),
        can_be_put_together(file.data@, path, deltas, base, object),
        stays_cold(cold, path),
        cold(0, *old(cache)),
        ({
            ||| call_ensures(File::decode_entry::<C, F>, (file, path[0], out, resolve, cache), r)
            ||| call_ensures(
                File::try_decode_entry::<C, F>,
                (file, path[0], out, resolve, cache),
                Some(r),
            )
            ||| call_ensures(File::resolve_deltas::<C, F>, (file, path[0], resolve, out, cache), r)
        }),
    ensures
        exists|cache1: C|
            cold(path.len() as int, cache1) && #[trigger] gives_back(
                file.data@,
                path,
                deltas,
                base,
                object,
                kind,
                final(out)@,
                r,
                cache1,
                *final(cache),
            ),
{
    law_chain_is_decoded(
        *file,
        resolve,
        path,
        deltas,
        base,
        object,
        kind,
        cold,
        *old(cache),
        old(out)@,
    );
    lemma_is_delta(*file, resolve, path, base, object);
    assert(file.decodes(
        path[0],
        resolve,
        *old(cache),
        old(out)@,
        *final(cache),
        final(out)@,
        r,
    ));
}

proof fn lemma_is_delta<F: Fn(Id, Vec<u8>) -> (Vec<u8>, Option<ResolvedBase>)>(
    file: File,
    resolve: F,
    path: Seq<Entry>,
    base: Base,
    object: Seq<u8>,
)
    requires
        leads_through(file, resolve, path),
        has_base(file, resolve, path.last(), base, object),
    ensures
        path[0].header.spec_is_delta(),
{
    assert(leads_on(file, resolve, path, 0));
    law_header_states_kind(path[0].header);
}

/// `File::try_decode_entry` does not give up on an entry whose deltas lead to an object.
pub proof fn law_chain_is_not_given_up<
    C: DecodeEntry,
    F: Fn(Id, Vec<u8>) -> (Vec<u8>, Option<ResolvedBase>),
>(
    file: &File,
    resolve: F,
    path: Seq<Entry>,
    deltas: Seq<Seq<u8>>,
    base: Base,
    object: Seq<u8>,
    kind: Kind,
    cold: spec_fn(int, C) -> bool,
    cache: &mut C,
    out: &mut Vec<u8>,
    r: Option<Result<Outcome, Error>>,
)
    requires
        leads_through(*file, resolve, path),
        has_base(*file, resolve, path.last(), base, object),
        !(base is Cached),
        is_of_kind(base, kind),
        can_be_put_together(file.data@, path, deltas, base, object),
        stays_cold(cold, path),
        cold(0, *old(cache)),
        call_ensures(File::try_decode_entry::<C, F>, (file, path[0], out, resolve, cache), r),
    ensures
        r is Some,
{
    law_chain_is_decoded(
        *file,
        resolve,
        path,
        deltas,
        base,
        object,
        kind,
        cold,
        *old(cache),
        old(out)@,
    );
}

/// `File::decode_entry` and `File::try_decode_entry` give, for an entry that holds a whole object, what its
/// data decompresses to, in a buffer of its size; and the cache is as it was. The second one gives up on
/// an entry that is not in the pack or does not fit into memory.
pub proof fn law_whole_object_is_returned<
    C: DecodeEntry,
    F: Fn(Id, Vec<u8>) -> (Vec<u8>, Option<ResolvedBase>),
>(
    file: &File,
    resolve: F,
    before: Seq<u8>,
    stream: Seq<u8>,
    entry: Entry,
    kind: Kind,
    cache: &mut C,
    out: &mut Vec<u8>,
    r: Option<Result<Outcome, Error>>,
)
    requires
        file.data@ == before + stream,
        entry.data_offset == before.len(),
        holds(entry.header, kind),
        ({
            ||| call_ensures(File::try_decode_entry::<C, F>, (file, entry, out, resolve, cache), r)
            ||| r is Some && call_ensures(
                File::decode_entry::<C, F>,
                (file, entry, out, resolve, cache),
                r->0,
            ) && stream.len() > 0 && entry.decompressed_size <= isize::MAX
        }),
        inflated(stream, entry.decompressed_size as nat).1.len() <= entry.decompressed_size,
    ensures
        *final(cache) == *old(cache),
        r is Some <==> stream.len() > 0 && entry.decompressed_size <= isize::MAX,
        r matches Some(r) ==> {
            let (consumed, bytes) = inflated(stream, entry.decompressed_size as nat);
            &&& final(out)@.len() == entry.decompressed_size
            &&& forall|j: int|
                0 <= j < entry.decompressed_size ==> #[trigger] final(out)@[j] == if j < bytes.len() {
                    bytes[j]
                } else if j < old(out)@.len() {
                    old(out)@[j]
                } else {
                    0
                }
            &&& r == match consumed {
                Some(consumed) => Ok(
                    Outcome {
                        kind,
                        num_deltas: 0,
                        decompressed_size: entry.decompressed_size,
                        compressed_size: consumed as usize,
                        object_size: entry.decompressed_size,
                    },
                ),
                None => Err(Error::ZlibInflate(zlib::Error::Inflate)),
            }
        },
{
    assert(file.data@.skip(before.len() as int) =~= stream);
    law_header_states_kind(entry.header);
    law_whole_object_is_decoded(*file, entry, resolve, kind, *old(cache), old(out)@);
    if r is Some {
        assert(file.decodes(
            entry,
            resolve,
            *old(cache),
            old(out)@,
            *final(cache),
            final(out)@,
            r->0,
        ));
    }
}

/// `File::finish_chain` gives what the deltas of a chain make of the object that its base is.
pub proof fn law_put_together_is_returned<C: DecodeEntry>(
    file: &File,
    last: Entry,
    chain: DeltaChain,
    deltas: Seq<Seq<u8>>,
    base: Base,
    object: Seq<u8>,
    kind: Kind,
    out: &mut Vec<u8>,
    cache: &mut C,
    r: Option<Result<Outcome, Error>>,
)
    requires
        fits_together(file.data@, deltas_of(chain), deltas, base, object, old(out)@),
        is_of_kind(base, kind),
        call_ensures(File::finish_chain::<C>, (file, last, chain, base, out, cache), r),
    ensures
        ({
            let data = file.data@;
            let all = deltas_of(chain);
            let base_packed = taken_in_pack(data, base, 2 * biggest_stated(deltas) + all_sizes(all));
            &&& final(out)@ == make(object, deltas)->0
            &&& r == Some(
                Ok::<Outcome, Error>(
                    Outcome {
                        kind,
                        num_deltas: (all.len() % 0x1_0000_0000) as u32,
                        decompressed_size: (all_sizes(all) + size_of_base(base)) as u64,
                        compressed_size: (packed_size(data, all) + base_packed) as usize,
                        object_size: (all_results(deltas) + size_of_base(base)) as u64,
                    },
                ),
            )
            &&& is_told(
                *old(cache),
                base,
                object,
                base_packed,
                kind,
                last,
                make(object, deltas)->0,
                packed_size_of(data, all[0]),
                *final(cache),
            )
        }),
{
    law_chain_is_put_together(
        *file,
        last,
        deltas_of(chain),
        deltas,
        base,
        object,
        kind,
        *old(cache),
        old(out)@,
    );
    let walk = Walk::Reached { chain: deltas_of(chain), base, cache: *old(cache), out: old(out)@ };
    assert(can_finish(*file, walk));
    assert(finishes(*file, last, walk, *final(cache), final(out)@, r->0));
}

} // verus!
