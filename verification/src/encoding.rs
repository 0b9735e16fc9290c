//! How the numbers, entries and instructions in a pack are written, and that reading gives back what was
//! written.
use crate::delta::{
    argument, copy_args, copy_offset, copy_size, delta_output, given, lemma_size_len_bounds, low_64, size_len, size_value,
};
use crate::entry::{
    distance_len, distance_value, entry_at, entry_size, group_count, header_at, number_ends, type_id, Entry, Header,
};
use crate::file::{File, Version};
use crate::object::Kind;
use vstd::arithmetic::power2::{lemma2_to64, lemma_pow2_adds, pow2};
use vstd::prelude::*;

verus! {

/// Whether all of these are groups of seven bits.
pub open spec fn are_groups(groups: Seq<u8>) -> bool {
    forall|i: int| 0 <= i < groups.len() ==> #[trigger] groups[i] < 128
}

/// The number that groups of seven bits make up, the least significant one first.
pub open spec fn groups_value(groups: Seq<u8>) -> nat
    decreases groups.len(),
{
    if groups.len() == 0 {
        0
    } else {
        groups[0] as nat + 128 * groups_value(groups.skip(1))
    }
}

/// The groups with their high bits set.
pub open spec fn open_bytes(groups: Seq<u8>) -> Seq<u8> {
    Seq::new(groups.len(), |i: int| (groups[i] + 128) as u8)
}

/// The bytes that groups are stored in: all but the last one have their high bit set.
pub open spec fn groups_bytes(groups: Seq<u8>) -> Seq<u8> {
    if groups.len() == 0 {
        Seq::empty()
    } else {
        open_bytes(groups.drop_last()).push(groups.last())
    }
}

/// As few groups as it takes to hold `n`.
pub open spec fn groups_of(n: nat) -> Seq<u8>
    decreases n,
{
    if n < 128 {
        seq![n as u8]
    } else {
        seq![(n % 128) as u8] + groups_of(n / 128)
    }
}

/// A number that is stored in groups is read as what they make up, whatever follows it, and takes just
/// their bytes.
pub proof fn law_number_is_read(groups: Seq<u8>, tail: Seq<u8>)
    requires
        are_groups(groups),
        groups.len() > 0,
    ensures
        number_ends(groups_bytes(groups) + tail),
        size_len(groups_bytes(groups) + tail) == groups.len(),
        size_value(groups_bytes(groups) + tail) == groups_value(groups),
    decreases groups.len(),
{
    let d = groups_bytes(groups) + tail;
    if groups.len() == 1 {
        reveal_with_fuel(groups_value, 2);
        assert(groups.skip(1) =~= Seq::<u8>::empty());
        assert(d[0] == groups[0]);
    } else {
        let rest = groups.skip(1);
        assert(groups[0] < 128);
        assert(d[0] == groups[0] + 128);
        assert forall|i: int| 0 <= i < rest.len() implies #[trigger] rest[i] < 128 by {
            assert(groups[i + 1] < 128);
        }
        assert(d.skip(1) =~= groups_bytes(rest) + tail);
        law_number_is_read(rest, tail);
    }
}

/// A number whose bytes end before it does takes all of them, and is what they make up.
pub proof fn law_number_cut_short(groups: Seq<u8>)
    requires
        are_groups(groups),
    ensures
        !number_ends(open_bytes(groups)),
        size_len(open_bytes(groups)) == groups.len(),
        size_value(open_bytes(groups)) == groups_value(groups),
    decreases groups.len(),
{
    if groups.len() > 0 {
        let rest = groups.skip(1);
        assert(groups[0] < 128);
        assert forall|i: int| 0 <= i < rest.len() implies #[trigger] rest[i] < 128 by {
            assert(groups[i + 1] < 128);
        }
        assert(open_bytes(groups).skip(1) =~= open_bytes(rest));
        law_number_cut_short(rest);
    }
}

/// In 64 bits, what is beyond them is dropped.
pub proof fn law_low_64(n: u64, beyond: nat)
    ensures
        low_64(n as nat + 0x1_0000_0000_0000_0000 * beyond) == n,
{
}

/// The groups of a number make it up.
proof fn lemma_groups_of(n: nat)
    ensures
        groups_of(n).len() > 0,
        are_groups(groups_of(n)),
        groups_value(groups_of(n)) == n,
        group_count(n) == groups_of(n).len(),
    decreases n,
{
    if n >= 128 {
        lemma_groups_of(n / 128);
        assert(groups_of(n).skip(1) =~= groups_of(n / 128));
        assert forall|i: int| 0 <= i < groups_of(n).len() implies #[trigger] groups_of(n)[i] < 128 by {
            if i > 0 {
                assert(groups_of(n)[i] == groups_of(n / 128)[i - 1]);
            }
        }
    } else {
        reveal_with_fuel(groups_value, 2);
        assert(groups_of(n).skip(1) =~= Seq::<u8>::empty());
    }
}

/// A number of few bits takes few groups.
proof fn lemma_groups_of_len(n: nat, k: nat)
    requires
        k >= 1,
        n < pow2(7 * k),
    ensures
        groups_of(n).len() <= k,
    decreases k,
{
    lemma2_to64();
    if n >= 128 {
        let less = (k - 1) as nat;
        lemma_pow2_adds(7 * less, 7);
        assert(n / 128 < pow2(7 * less)) by (nonlinear_arith)
            requires
                n < pow2(7 * less) * 128,
        ;
        lemma_groups_of_len(n / 128, less);
    }
}

/// The bytes of a distance but for the last one: those of one less than what is above its last group,
/// with their high bits set.
pub open spec fn distance_head(n: nat) -> Seq<u8>
    decreases n,
{
    if n < 128 {
        seq![(n + 128) as u8]
    } else {
        distance_head((n / 128 - 1) as nat).push((n % 128 + 128) as u8)
    }
}

/// The bytes of a distance: groups of seven bits, the most significant one first, where one is taken off
/// all that is above a group.
pub open spec fn distance_bytes(n: nat) -> Seq<u8> {
    if n < 128 {
        seq![n as u8]
    } else {
        distance_head((n / 128 - 1) as nat).push((n % 128) as u8)
    }
}

proof fn lemma_distance_head(n: nat)
    ensures
        distance_head(n).len() == distance_len(n),
        distance_value(distance_head(n)) == n,
        forall|i: int| 0 <= i < distance_head(n).len() ==> #[trigger] distance_head(n)[i] >= 128,
    decreases n,
{
    if n >= 128 {
        let above = (n / 128 - 1) as nat;
        lemma_distance_head(above);
        assert(distance_head(n).drop_last() =~= distance_head(above));
        assert(((n % 128 + 128) as u8) % 128 == n % 128);
    } else {
        assert(((n + 128) as u8) % 128 == n);
    }
}

proof fn lemma_distance_head_len(n: nat, k: nat)
    requires
        k >= 1,
        n < pow2(7 * k),
    ensures
        distance_len(n) <= k,
    decreases k,
{
    lemma2_to64();
    if n >= 128 {
        let less = (k - 1) as nat;
        lemma_pow2_adds(7 * less, 7);
        assert(n / 128 < pow2(7 * less)) by (nonlinear_arith)
            requires
                n < pow2(7 * less) * 128,
        ;
        lemma_distance_head_len((n / 128 - 1) as nat, less);
    }
}

/// A number of which only the last byte has a low high bit.
proof fn lemma_open_then_last(head: Seq<u8>, last: u8, tail: Seq<u8>)
    requires
        forall|i: int| 0 <= i < head.len() ==> #[trigger] head[i] >= 128,
        last < 128,
    ensures
        number_ends(head.push(last) + tail),
        size_len(head.push(last) + tail) == head.len() + 1,
    decreases head.len(),
{
    let d = head.push(last) + tail;
    if head.len() > 0 {
        assert(d[0] == head[0]);
        assert forall|i: int| 0 <= i < head.skip(1).len() implies #[trigger] head.skip(1)[i] >= 128 by {
            assert(head[i + 1] >= 128);
        }
        assert(d.skip(1) =~= head.skip(1).push(last) + tail);
        lemma_open_then_last(head.skip(1), last, tail);
    } else {
        assert(d[0] == last);
    }
}

/// Reading a distance gives back the one that was written, whatever follows it, and takes just its bytes.
pub proof fn law_distance_round_trip(n: u64, tail: Seq<u8>)
    ensures
        ({
            let bytes = distance_bytes(n as nat);
            &&& number_ends(bytes + tail)
            &&& size_len(bytes + tail) == bytes.len() <= 10
            &&& distance_value((bytes + tail).take(bytes.len() as int)) == n
            &&& distance_len(n as nat) == bytes.len()
        }),
{
    let bytes = distance_bytes(n as nat);
    lemma2_to64();
    lemma_pow2_adds(64, 6);
    lemma_distance_head_len(n as nat, 10);
    assert((bytes + tail).take(bytes.len() as int) =~= bytes);
    if n >= 128 {
        let above = (n as nat / 128 - 1) as nat;
        lemma_distance_head(above);
        assert(bytes.drop_last() =~= distance_head(above));
        lemma_open_then_last(distance_head(above), (n % 128) as u8, tail);
    } else {
        lemma_open_then_last(Seq::empty(), n as u8, tail);
        assert(Seq::<u8>::empty().push(n as u8) =~= bytes);
    }
}

/// The number that stands for what an entry holds.
pub open spec fn header_type(header: Header) -> u8 {
    match header {
        Header::Commit => 1,
        Header::Tree => 2,
        Header::Blob => 3,
        Header::Tag => 4,
        Header::OfsDelta { .. } => 6,
        Header::RefDelta { .. } => 7,
    }
}

/// The bytes that start an entry: its type and the lowest four bits of its size in the first one, and the
/// other bits of its size in groups.
pub open spec fn size_head(header: Header, low: u8, groups: Seq<u8>) -> Seq<u8> {
    seq![
        (16 * header_type(header) + low + if groups.len() > 0 {
            128int
        } else {
            0
        }) as u8,
    ] + groups_bytes(groups)
}

/// The bytes behind the size of an entry: those that a delta names its base with.
pub open spec fn reference_bytes(header: Header) -> Seq<u8> {
    match header {
        Header::OfsDelta { base_distance } => distance_bytes(base_distance as nat),
        Header::RefDelta { base_id } => base_id.bytes@,
        _ => Seq::empty(),
    }
}

/// The bytes before the data of an entry.
pub open spec fn header_bytes(header: Header, low: u8, groups: Seq<u8>) -> Seq<u8> {
    size_head(header, low, groups) + reference_bytes(header)
}

/// Whether `low` and `groups` hold a size: four bits, and at most nine groups of seven bits, which make up
/// 64 bits.
pub open spec fn is_size(low: u8, groups: Seq<u8>, size: u64) -> bool {
    &&& low < 16
    &&& are_groups(groups)
    &&& groups.len() <= 9
    &&& size == low + 16 * groups_value(groups)
}

proof fn lemma_reference_is_read(header: Header, rest: Seq<u8>)
    ensures
        header_at(header_type(header), reference_bytes(header) + rest) == Some(
            (header, reference_bytes(header).len()),
        ),
{
    let d = reference_bytes(header) + rest;
    match header {
        Header::OfsDelta { base_distance } => {
            law_distance_round_trip(base_distance, rest);
        },
        Header::RefDelta { base_id } => {
            assert(d.take(20) =~= base_id.bytes@);
            assert(crate::entry::id_of(d.take(20)).bytes =~= base_id.bytes);
        },
        _ => {},
    }
}

proof fn lemma_size_is_read(header: Header, low: u8, groups: Seq<u8>, size: u64, rest: Seq<u8>)
    requires
        is_size(low, groups, size),
    ensures
        ({
            let d = size_head(header, low, groups) + rest;
            &&& number_ends(d)
            &&& size_len(d) == 1 + groups.len()
            &&& entry_size(d) == size
            &&& type_id(d[0]) == header_type(header)
        }),
{
    let d = size_head(header, low, groups) + rest;
    let first = d[0];
    assert(first == 16 * header_type(header) + low + if groups.len() > 0 {
        128int
    } else {
        0
    });
    assert(d.skip(1) =~= groups_bytes(groups) + rest);
    if groups.len() > 0 {
        law_number_is_read(groups, rest);
    }
}

/// An entry is read as what was written, whatever follows it: what it holds, its size, and where its data
/// starts.
pub proof fn law_entry_is_read(
    header: Header,
    low: u8,
    groups: Seq<u8>,
    size: u64,
    rest: Seq<u8>,
    pack_offset: u64,
)
    requires
        is_size(low, groups, size),
        pack_offset + header_bytes(header, low, groups).len() <= u64::MAX,
    ensures
        entry_at(header_bytes(header, low, groups) + rest, pack_offset) == Some(
            Entry {
                header,
                decompressed_size: size,
                data_offset: (pack_offset + header_bytes(header, low, groups).len()) as u64,
            },
        ),
{
    let head = size_head(header, low, groups);
    let d = header_bytes(header, low, groups) + rest;
    assert(d =~= head + (reference_bytes(header) + rest));
    lemma_size_is_read(header, low, groups, size, reference_bytes(header) + rest);
    assert(d.skip(head.len() as int) =~= reference_bytes(header) + rest);
    lemma_reference_is_read(header, rest);
}

/// The entry at an offset of a pack is what was written there, whatever comes before it and behind it.
pub proof fn law_entry_of_pack_is_read(
    file: File,
    before: Seq<u8>,
    header: Header,
    low: u8,
    groups: Seq<u8>,
    size: u64,
    behind: Seq<u8>,
)
    requires
        file.version == Version::V2,
        is_size(low, groups, size),
        file.data@ == before + header_bytes(header, low, groups) + behind,
        file.data@.len() <= u64::MAX,
    ensures
        file.spec_entry(before.len() as int) == Some(
            Entry {
                header,
                decompressed_size: size,
                data_offset: (before.len() + header_bytes(header, low, groups).len()) as u64,
            },
        ),
{
    assert(file.data@.skip(before.len() as int) =~= header_bytes(header, low, groups) + behind);
    law_entry_is_read(header, low, groups, size, behind, before.len() as u64);
}

/// The groups that the bytes of `d` hold.
spec fn groups_in(d: Seq<u8>) -> Seq<u8> {
    Seq::new(size_len(d), |i: int| d[i] % 128)
}

proof fn lemma_groups_in(d: Seq<u8>)
    requires
        number_ends(d),
    ensures
        0 < size_len(d) <= d.len(),
        are_groups(groups_in(d)),
        groups_in(d).len() == size_len(d),
        groups_value(groups_in(d)) == size_value(d),
        groups_bytes(groups_in(d)) == d.take(size_len(d) as int),
    decreases d.len(),
{
    let groups = groups_in(d);
    let n = size_len(d) as int;
    lemma_size_len_bounds(d);
    if d[0] >= 128 {
        let rest = d.skip(1);
        lemma_groups_in(rest);
        assert(groups.skip(1) =~= groups_in(rest));
        assert(groups.last() == groups_in(rest).last());
        assert forall|i: int| 0 <= i < n implies groups_bytes(groups)[i] == d[i] by {
            if i > 0 {
                assert(groups_bytes(groups_in(rest))[i - 1] == rest.take(n - 1)[i - 1]);
                assert(groups[i] == groups_in(rest)[i - 1]);
                if i + 1 < n {
                    assert(groups_bytes(groups)[i] == groups[i] + 128);
                }
            }
        }
        assert(groups_bytes(groups) =~= d.take(n));
    } else {
        reveal_with_fuel(groups_value, 2);
        assert(groups.skip(1) =~= Seq::<u8>::empty());
        assert(groups_bytes(groups) =~= d.take(1));
    }
}

proof fn lemma_distance_in(bytes: Seq<u8>)
    requires
        bytes.len() > 0,
        forall|i: int| 0 <= i < bytes.len() ==> #[trigger] bytes[i] >= 128,
    ensures
        distance_head(distance_value(bytes)) == bytes,
    decreases bytes.len(),
{
    let n = distance_value(bytes);
    if bytes.len() > 1 {
        let above = bytes.drop_last();
        assert forall|i: int| 0 <= i < above.len() implies #[trigger] above[i] >= 128 by {
            assert(bytes[i] >= 128);
        }
        lemma_distance_in(above);
        assert(n / 128 - 1 == distance_value(above));
        assert(bytes.last() >= 128);
        assert(distance_head(n) =~= bytes);
    } else {
        assert(bytes[0] >= 128);
        assert(distance_head(n) =~= bytes);
    }
}

/// The bytes of a number but for its last one have their high bit set.
proof fn lemma_number_shape(d: Seq<u8>)
    requires
        number_ends(d),
    ensures
        0 < size_len(d) <= d.len(),
        d[size_len(d) - 1] < 128,
        forall|i: int| 0 <= i < size_len(d) - 1 ==> #[trigger] d[i] >= 128,
    decreases d.len(),
{
    lemma_size_len_bounds(d);
    if d[0] >= 128 {
        let rest = d.skip(1);
        lemma_number_shape(rest);
        assert forall|i: int| 0 <= i < size_len(d) - 1 implies #[trigger] d[i] >= 128 by {
            if i > 0 {
                assert(rest[i - 1] >= 128);
            }
        }
        assert(d[size_len(d) - 1] == rest[size_len(rest) - 1]);
    }
}

/// What was read behind the size of an entry stands there.
proof fn lemma_reference_stands_there(kind: u8, d: Seq<u8>)
    requires
        header_at(kind, d) is Some,
    ensures
        ({
            let (header, len) = header_at(kind, d)->0;
            &&& kind == header_type(header)
            &&& len <= d.len()
            &&& d.take(len as int) == reference_bytes(header)
        }),
{
    let (header, len) = header_at(kind, d)->0;
    match header {
        Header::OfsDelta { base_distance } => {
            lemma_number_shape(d);
            let bytes = d.take(len as int);
            assert(bytes.drop_last() =~= d.take(len - 1));
            if len > 1 {
                let above = bytes.drop_last();
                assert forall|i: int| 0 <= i < above.len() implies #[trigger] above[i] >= 128 by {
                    assert(d[i] >= 128);
                }
                lemma_distance_in(above);
                assert(base_distance as nat / 128 - 1 == distance_value(above));
                assert(distance_bytes(base_distance as nat) =~= bytes);
            } else {
                assert(distance_bytes(base_distance as nat) =~= bytes);
            }
        },
        Header::RefDelta { base_id } => {
            assert(base_id.bytes@ =~= d.take(20));
        },
        _ => {
            assert(d.take(0) =~= Seq::<u8>::empty());
        },
    }
}

/// Nothing is read as an entry but what was written as one: the bytes before the data are those of what
/// the entry holds and of its size.
pub proof fn law_entry_stands_there(d: Seq<u8>, pack_offset: u64, entry: Entry)
    requires
        entry_at(d, pack_offset) == Some(entry),
    ensures
        pack_offset < entry.data_offset <= pack_offset + d.len(),
        exists|low: u8, groups: Seq<u8>|
            is_size(low, groups, entry.decompressed_size) && #[trigger] header_bytes(
                entry.header,
                low,
                groups,
            ) == d.take(entry.data_offset - pack_offset),
{
    let n = size_len(d) as int;
    let low = d[0] % 16;
    let groups = if d[0] >= 128 {
        groups_in(d.skip(1))
    } else {
        Seq::empty()
    };
    lemma_size_len_bounds(d);
    lemma_reference_stands_there(type_id(d[0]), d.skip(n));
    if d[0] >= 128 {
        reveal_with_fuel(number_ends, 2);
        lemma_groups_in(d.skip(1));
    }
    let head = size_head(entry.header, low, groups);
    assert(head[0] == d[0]);
    assert(head =~= d.take(n)) by {
        if d[0] >= 128 {
            assert(d.skip(1).take(n - 1) =~= d.take(n).skip(1));
            assert(head.skip(1) =~= groups_bytes(groups));
            assert forall|i: int| 0 <= i < n implies head[i] == d[i] by {
                if i > 0 {
                    assert(head[i] == groups_bytes(groups)[i - 1]);
                    assert(d.skip(1).take(n - 1)[i - 1] == d[i]);
                }
            }
        }
    }
    let k = entry.data_offset - pack_offset;
    assert(d.take(k) =~= d.take(n) + d.skip(n).take(k - n));
    assert(is_size(low, groups, entry.decompressed_size));
    assert(header_bytes(entry.header, low, groups) == d.take(k));
}

/// Only packs of the second version have entries that can be read, and only within their bytes; and what
/// is read as an entry was written as one right there.
pub proof fn law_entry_of_pack_stands_there(file: File, offset: int, entry: Entry)
    requires
        file.spec_entry(offset) == Some(entry),
    ensures
        file.version == Version::V2,
        0 <= offset < entry.data_offset <= file.data@.len(),
        exists|low: u8, groups: Seq<u8>|
            is_size(low, groups, entry.decompressed_size) && #[trigger] header_bytes(
                entry.header,
                low,
                groups,
            ) == file.data@.subrange(offset, entry.data_offset as int),
{
    let d = file.data@.skip(offset);
    law_entry_stands_there(d, offset as u64, entry);
    assert(d.take(entry.data_offset - offset) =~= file.data@.subrange(
        offset,
        entry.data_offset as int,
    ));
}

/// The groups of a size but for its lowest four bits, as few as it takes.
pub open spec fn upper_groups(size: u64) -> Seq<u8> {
    if size < 16 {
        Seq::empty()
    } else {
        groups_of(size as nat / 16)
    }
}

/// The size of a header is that of its bytes, if its size is written in as few as it takes.
pub proof fn law_header_size(entry: Entry)
    ensures
        is_size(
            (entry.decompressed_size % 16) as u8,
            upper_groups(entry.decompressed_size),
            entry.decompressed_size,
        ),
        entry.spec_header_size() == header_bytes(
            entry.header,
            (entry.decompressed_size % 16) as u8,
            upper_groups(entry.decompressed_size),
        ).len(),
{
    let size = entry.decompressed_size as nat;
    lemma2_to64();
    lemma_pow2_adds(60, 3);
    if size >= 16 {
        lemma_groups_of(size / 16);
        assert(size / 16 < pow2(63)) by {
            assert(size / 16 < 0x1000_0000_0000_0000);
            assert(pow2(60) == 0x1000_0000_0000_0000) by {
                vstd::arithmetic::power2::lemma2_to64_rest();
            }
        }
        lemma_groups_of_len(size / 16, 9);
    }
    if let Header::OfsDelta { base_distance } = entry.header {
        law_distance_round_trip(base_distance, Seq::empty());
    }
}

proof fn lemma_regroup(a: Seq<u8>, b: Seq<u8>, c: Seq<u8>, d: Seq<u8>, e: Seq<u8>)
    ensures
        a + b + c + d + e == a + b + (c + d + e),
{
    assert(a + b + c + d + e =~= a + b + (c + d + e));
}

/// A delta that names its base by a distance finds it that far before its own start, whatever is between
/// them.
pub proof fn law_base_is_at_its_distance(
    file: File,
    before: Seq<u8>,
    base: Header,
    base_low: u8,
    base_groups: Seq<u8>,
    base_size: u64,
    between: Seq<u8>,
    base_distance: u64,
    size: u64,
    behind: Seq<u8>,
)
    requires
        file.version == Version::V2,
        is_size(base_low, base_groups, base_size),
        base_distance == header_bytes(base, base_low, base_groups).len() + between.len(),
        file.data@ == before + header_bytes(base, base_low, base_groups) + between + header_bytes(
            Header::OfsDelta { base_distance },
            (size % 16) as u8,
            upper_groups(size),
        ) + behind,
        file.data@.len() <= u64::MAX,
    ensures
        ({
            let offset = before.len() + base_distance;
            &&& file.spec_entry(offset) matches Some(delta)
            &&& delta.header == (Header::OfsDelta { base_distance })
            &&& delta.decompressed_size == size
            &&& file.spec_base_entry(delta, base_distance) == Some(
                Entry {
                    header: base,
                    decompressed_size: base_size,
                    data_offset: (before.len() + header_bytes(base, base_low, base_groups).len()) as u64,
                },
            )
        }),
{
    let header = Header::OfsDelta { base_distance };
    let own = header_bytes(header, (size % 16) as u8, upper_groups(size));
    let based = header_bytes(base, base_low, base_groups);
    let delta = Entry {
        header,
        decompressed_size: size,
        data_offset: (before.len() + base_distance + own.len()) as u64,
    };
    law_header_size(delta);
    law_entry_of_pack_is_read(
        file,
        before + based + between,
        header,
        (size % 16) as u8,
        upper_groups(size),
        size,
        behind,
    );
    lemma_regroup(before, based, between, own, behind);
    law_entry_of_pack_is_read(
        file,
        before,
        base,
        base_low,
        base_groups,
        base_size,
        between + own + behind,
    );
}

/// Whether an entry that starts with `header` holds a whole object of this kind.
pub open spec fn holds(header: Header, kind: Kind) -> bool {
    match kind {
        Kind::Commit => header == Header::Commit,
        Kind::Tree => header == Header::Tree,
        Kind::Blob => header == Header::Blob,
        Kind::Tag => header == Header::Tag,
    }
}

/// An entry holds an object of the kind that its header states, or else a delta, and nothing is both.
pub proof fn law_header_states_kind(header: Header)
    ensures
        forall|kind: Kind| #[trigger] holds(header, kind) <==> header.spec_to_kind() == Some(kind),
        header.spec_is_delta() <==> header is OfsDelta || header is RefDelta,
        header.spec_is_delta() <==> header.spec_to_kind() is None,
{
    assert forall|kind: Kind| #[trigger] holds(header, kind) <==> header.spec_to_kind() == Some(kind) by {
        match kind {
            Kind::Commit => {},
            Kind::Tree => {},
            Kind::Blob => {},
            Kind::Tag => {},
        }
    }
}

/// A base starts as far before an entry as the distance says, and that starts as far before its data as
/// its header has bytes.
pub proof fn law_base_starts_before(file: File, delta: Entry, distance: u64)
    ensures
        file.spec_base_entry(delta, distance) == file.spec_entry(
            delta.data_offset - header_bytes(
                delta.header,
                (delta.decompressed_size % 16) as u8,
                upper_groups(delta.decompressed_size),
            ).len() - distance,
        ),
{
    law_header_size(delta);
}

/// An argument byte of a copy instruction, if `flag` announces it.
pub open spec fn announced(cmd: u8, flag: u8, byte: u8) -> Seq<u8> {
    if cmd & flag != 0 {
        seq![byte]
    } else {
        Seq::empty()
    }
}

/// The bytes of a copy instruction: of the offset and then of the size, the least significant one first,
/// those that `cmd` announces.
pub open spec fn copy_bytes(cmd: u8, offset: (u8, u8, u8, u8), size: (u8, u8, u8)) -> Seq<u8> {
    seq![cmd] + announced(cmd, 0x01, offset.0) + announced(cmd, 0x02, offset.1) + announced(
        cmd,
        0x04,
        offset.2,
    ) + announced(cmd, 0x08, offset.3) + announced(cmd, 0x10, size.0) + announced(cmd, 0x20, size.1)
        + announced(cmd, 0x40, size.2)
}

/// Whether `cmd` starts a copy instruction, and announces all bytes of the offset and of the size that
/// are not zero.
pub open spec fn announces(cmd: u8, offset: (u8, u8, u8, u8), size: (u8, u8, u8)) -> bool {
    &&& cmd >= 128
    &&& cmd & 0x01 == 0 ==> offset.0 == 0
    &&& cmd & 0x02 == 0 ==> offset.1 == 0
    &&& cmd & 0x04 == 0 ==> offset.2 == 0
    &&& cmd & 0x08 == 0 ==> offset.3 == 0
    &&& cmd & 0x10 == 0 ==> size.0 == 0
    &&& cmd & 0x20 == 0 ==> size.1 == 0
    &&& cmd & 0x40 == 0 ==> size.2 == 0
}

/// The arguments of a copy instruction are read from their bytes.
proof fn lemma_copy_is_read(cmd: u8, offset: (u8, u8, u8, u8), size: (u8, u8, u8), rest: Seq<u8>)
    requires
        announces(cmd, offset, size),
    ensures
        ({
            let d = copy_bytes(cmd, offset, size) + rest;
            let bytes = size.0 + 0x100 * size.1 + 0x1_0000 * size.2;
            &&& d.len() > 0
            &&& d[0] == cmd
            &&& copy_args(cmd) + 1 == copy_bytes(cmd, offset, size).len()
            &&& d.skip(1).skip(copy_args(cmd) as int) == rest
            &&& copy_offset(cmd, d.skip(1)) == offset.0 + 0x100 * offset.1 + 0x1_0000 * offset.2
                + 0x100_0000 * offset.3
            &&& copy_size(cmd, d.skip(1)) == if bytes == 0 {
                0x1_0000
            } else {
                bytes
            }
        }),
{
    let d = copy_bytes(cmd, offset, size) + rest;
    let b1 = announced(cmd, 0x01, offset.0);
    let b2 = announced(cmd, 0x02, offset.1);
    let b3 = announced(cmd, 0x04, offset.2);
    let b4 = announced(cmd, 0x08, offset.3);
    let b5 = announced(cmd, 0x10, size.0);
    let b6 = announced(cmd, 0x20, size.1);
    let b7 = announced(cmd, 0x40, size.2);
    let a2 = b1 + b2;
    let a3 = a2 + b3;
    let a4 = a3 + b4;
    let a5 = a4 + b5;
    let a6 = a5 + b6;
    let a7 = a6 + b7;
    let first = seq![cmd];
    lemma_join(first, b1, b2);
    lemma_join(first, a2, b3);
    lemma_join(first, a3, b4);
    lemma_join(first, a4, b5);
    lemma_join(first, a5, b6);
    lemma_join(first, a6, b7);
    lemma_join(first, a7, rest);
    let args = a7 + rest;
    assert(d == first + args);
    assert((first + args).skip(1) =~= args);
    assert(args.skip(a7.len() as int) =~= rest);
    let none = Seq::<u8>::empty();
    lemma_join(a6, b7, rest);
    lemma_join(a5, b6, b7 + rest);
    lemma_join(a4, b5, b6 + (b7 + rest));
    lemma_join(a3, b4, b5 + (b6 + (b7 + rest)));
    lemma_join(a2, b3, b4 + (b5 + (b6 + (b7 + rest))));
    lemma_join(b1, b2, b3 + (b4 + (b5 + (b6 + (b7 + rest)))));
    let t1 = b2 + (b3 + (b4 + (b5 + (b6 + (b7 + rest)))));
    assert(none + (b1 + t1) =~= b1 + t1);
    lemma_argument(none, cmd, 0x01, offset.0, t1);
    lemma_argument(b1, cmd, 0x02, offset.1, b3 + (b4 + (b5 + (b6 + (b7 + rest)))));
    lemma_argument(a2, cmd, 0x04, offset.2, b4 + (b5 + (b6 + (b7 + rest))));
    lemma_argument(a3, cmd, 0x08, offset.3, b5 + (b6 + (b7 + rest)));
    lemma_argument(a4, cmd, 0x10, size.0, b6 + (b7 + rest));
    lemma_argument(a5, cmd, 0x20, size.1, b7 + rest);
    lemma_argument(a6, cmd, 0x40, size.2, rest);
}

proof fn lemma_join(a: Seq<u8>, b: Seq<u8>, c: Seq<u8>)
    ensures
        a + b + c == a + (b + c),
        (a + b).len() == a.len() + b.len(),
{
    assert(a + b + c =~= a + (b + c));
}

/// An argument byte is found behind those before it.
proof fn lemma_argument(before: Seq<u8>, cmd: u8, flag: u8, byte: u8, behind: Seq<u8>)
    requires
        cmd & flag == 0 ==> byte == 0,
    ensures
        given(cmd, flag) == announced(cmd, flag, byte).len(),
        argument(cmd, flag, before + (announced(cmd, flag, byte) + behind), before.len()) == byte,
{
}

/// A copy instruction produces the bytes of the base that its offset and its size tell, where a size of
/// zero stands for 65536; followed by what the instructions behind it produce. It is malformed if these
/// bytes are not all in the base.
pub proof fn law_copy_instruction(
    base: Seq<u8>,
    cmd: u8,
    offset: (u8, u8, u8, u8),
    size: (u8, u8, u8),
    rest: Seq<u8>,
)
    requires
        announces(cmd, offset, size),
    ensures
        ({
            let start = offset.0 + 0x100 * offset.1 + 0x1_0000 * offset.2 + 0x100_0000 * offset.3;
            let bytes = size.0 + 0x100 * size.1 + 0x1_0000 * size.2;
            let end = start + if bytes == 0 {
                0x1_0000
            } else {
                bytes
            };
            delta_output(base, copy_bytes(cmd, offset, size) + rest) == match delta_output(base, rest) {
                Some(tail) if end <= base.len() => Some(base.subrange(start, end) + tail),
                _ => None,
            }
        }),
{
    lemma_copy_is_read(cmd, offset, size, rest);
}

/// Every stretch of a base can be copied: the instruction that tells its offset and its size produces just
/// that.
pub proof fn law_copy_round_trip(base: Seq<u8>, start: u32, size: u32)
    requires
        0 < size < 0x100_0000,
        start + size <= base.len(),
    ensures
        delta_output(
            base,
            seq![
                0xffu8,
                (start % 0x100) as u8,
                (start / 0x100 % 0x100) as u8,
                (start / 0x1_0000 % 0x100) as u8,
                (start / 0x100_0000) as u8,
                (size % 0x100) as u8,
                (size / 0x100 % 0x100) as u8,
                (size / 0x1_0000) as u8,
            ],
        ) == Some(base.subrange(start as int, start + size)),
{
    let o = (
        (start % 0x100) as u8,
        (start / 0x100 % 0x100) as u8,
        (start / 0x1_0000 % 0x100) as u8,
        (start / 0x100_0000) as u8,
    );
    let z = ((size % 0x100) as u8, (size / 0x100 % 0x100) as u8, (size / 0x1_0000) as u8);
    let rest = Seq::<u8>::empty();
    lemma_bytes_of(start);
    lemma_bytes_of(size);
    lemma_all_announced(o, z);
    law_copy_instruction(base, 0xff, o, z, rest);
    law_no_instruction(base, rest);
    assert(base.subrange(start as int, start + size) + rest =~= base.subrange(
        start as int,
        start + size,
    ));
}

/// The bytes of a number make it up.
proof fn lemma_bytes_of(n: u32)
    ensures
        (n % 0x100) + 0x100 * (n / 0x100 % 0x100) + 0x1_0000 * (n / 0x1_0000 % 0x100) + 0x100_0000 * (n
            / 0x100_0000) == n,
        n / 0x100_0000 < 0x100,
        n < 0x100_0000 ==> n / 0x1_0000 < 0x100 && n / 0x100_0000 == 0 && n / 0x1_0000 % 0x100 == n
            / 0x1_0000,
{
    assert((n % 0x100) + 0x100 * (n / 0x100 % 0x100) + 0x1_0000 * (n / 0x1_0000 % 0x100) + 0x100_0000 * (n
        / 0x100_0000) == n && n / 0x100_0000 < 0x100) by (bit_vector);
    assert(n < 0x100_0000 ==> n / 0x1_0000 < 0x100 && n / 0x100_0000 == 0 && n / 0x1_0000 % 0x100 == n
        / 0x1_0000) by (bit_vector);
}

/// An instruction that announces all bytes has all of them.
proof fn lemma_all_announced(o: (u8, u8, u8, u8), z: (u8, u8, u8))
    ensures
        announces(0xff, o, z),
        copy_bytes(0xff, o, z) + Seq::<u8>::empty() == seq![0xffu8, o.0, o.1, o.2, o.3, z.0, z.1, z.2],
{
    assert(0xffu8 & 0x01 != 0 && 0xffu8 & 0x02 != 0 && 0xffu8 & 0x04 != 0 && 0xffu8 & 0x08 != 0 && 0xffu8
        & 0x10 != 0 && 0xffu8 & 0x20 != 0 && 0xffu8 & 0x40 != 0) by (bit_vector);
    assert(copy_bytes(0xff, o, z) =~= seq![0xffu8, o.0, o.1, o.2, o.3, z.0, z.1, z.2]);
    assert(copy_bytes(0xff, o, z) + Seq::<u8>::empty() =~= copy_bytes(0xff, o, z));
}

/// An insert instruction, the length of some bytes and these bytes, produces them, followed by what the
/// instructions behind it produce.
pub proof fn law_insert_instruction(base: Seq<u8>, bytes: Seq<u8>, rest: Seq<u8>)
    requires
        0 < bytes.len() < 128,
    ensures
        delta_output(base, seq![bytes.len() as u8] + bytes + rest) == match delta_output(base, rest) {
            Some(tail) => Some(bytes + tail),
            None => None,
        },
{
    let d = seq![bytes.len() as u8] + bytes + rest;
    assert(d.skip(1) =~= bytes + rest);
    assert(d.skip(1).take(bytes.len() as int) =~= bytes);
    assert(d.skip(1).skip(bytes.len() as int) =~= rest);
}

/// No instructions produce nothing, and a zero is no instruction.
pub proof fn law_no_instruction(base: Seq<u8>, rest: Seq<u8>)
    ensures
        delta_output(base, Seq::empty()) == Some(Seq::<u8>::empty()),
        delta_output(base, seq![0u8] + rest) is None,
{
    assert((seq![0u8] + rest)[0] == 0);
}

/// An instruction that is cut short is malformed.
pub proof fn law_instruction_cut_short(
    base: Seq<u8>,
    cmd: u8,
    offset: (u8, u8, u8, u8),
    size: (u8, u8, u8),
    bytes: Seq<u8>,
    k: int,
)
    ensures
        announces(cmd, offset, size) && 0 < k < copy_bytes(cmd, offset, size).len() ==> delta_output(
            base,
            copy_bytes(cmd, offset, size).take(k),
        ) is None,
        0 < bytes.len() < 128 && 0 < k <= bytes.len() ==> delta_output(
            base,
            (seq![bytes.len() as u8] + bytes).take(k),
        ) is None,
{
    if announces(cmd, offset, size) && 0 < k < copy_bytes(cmd, offset, size).len() {
        lemma_copy_is_read(cmd, offset, size, Seq::empty());
        assert(copy_bytes(cmd, offset, size).take(k)[0] == cmd);
    }
    if 0 < bytes.len() < 128 && 0 < k <= bytes.len() {
        assert((seq![bytes.len() as u8] + bytes).take(k)[0] == bytes.len());
    }
}

} // verus!
