//! The entries of a pack: the header that precedes the compressed data of each.
use crate::delta::{delta_header_size_ofs, lemma_size_len_bounds, size_len, size_value, MAX_SIZE_BYTES};
use crate::object::{Id, Kind};
use vstd::prelude::*;
use vstd::slice::slice_subrange;

verus! {

/// What an entry holds once decompressed: an object, or a delta and what it applies to.
#[derive(Debug, PartialEq, Eq, Hash, Ord, PartialOrd, Clone, Copy)]
pub enum Header {
    /// A whole commit.
    Commit,
    /// A whole tree.
    Tree,
    /// A whole blob.
    Blob,
    /// A whole tag.
    Tag,
    /// A delta whose base is named by its id; the base may be outside of the pack.
    RefDelta {
        /// The id of the base.
        base_id: Id,
    },
    /// A delta whose base is in the same pack, earlier than the delta.
    OfsDelta {
        /// How far before the start of this entry the entry of the base starts.
        base_distance: u64,
    },
}

impl Header {
    /// Tells whether the entry holds a delta.
    pub open spec fn spec_is_delta(self) -> bool {
        self is RefDelta || self is OfsDelta
    }

    /// Tells whether the entry holds a delta.
    pub fn is_delta(&self) -> (delta: bool)
        ensures
            delta == self.spec_is_delta(),
    {
        match self {
            Header::RefDelta { .. } | Header::OfsDelta { .. } => true,
            _ => false,
        }
    }

    /// The kind of the object that the entry holds, unless it is a delta.
    pub open spec fn spec_to_kind(self) -> Option<Kind> {
        match self {
            Header::Commit => Some(Kind::Commit),
            Header::Tree => Some(Kind::Tree),
            Header::Blob => Some(Kind::Blob),
            Header::Tag => Some(Kind::Tag),
            _ => None,
        }
    }

    /// The kind of the object that the entry holds, unless it is a delta.
    pub fn to_kind(&self) -> (kind: Option<Kind>)
        ensures
            kind == self.spec_to_kind(),
    {
        match self {
            Header::Commit => Some(Kind::Commit),
            Header::Tree => Some(Kind::Tree),
            Header::Blob => Some(Kind::Blob),
            Header::Tag => Some(Kind::Tag),
            _ => None,
        }
    }
}

/// The header of an entry, and where its data is.
#[derive(Debug, PartialEq, Eq, Hash, Ord, PartialOrd, Clone, Copy)]
pub struct Entry {
    /// What the entry holds.
    pub header: Header,
    /// How many bytes the data has once decompressed.
    pub decompressed_size: u64,
    /// Where in the pack the compressed data starts.
    pub data_offset: u64,
}

/// Whether the number at the start of `d`, of bytes with their high bit set but for the last one,
/// ends within `d`.
pub open spec fn number_ends(d: Seq<u8>) -> bool
    decreases d.len(),
{
    d.len() > 0 && (d[0] < 0x80 || number_ends(d.skip(1)))
}

/// The type that the first byte of an entry holds in the three bits below the highest.
pub open spec fn type_id(first: u8) -> u8 {
    (first / 16) % 8
}

/// The decompressed size at the start of an entry: four bits in the first byte, then groups of
/// seven bits, the least significant one first.
pub open spec fn entry_size(d: Seq<u8>) -> nat {
    (d[0] % 16) as nat + if d[0] < 0x80 {
        0
    } else {
        16 * size_value(d.skip(1))
    }
}

/// The distance to the base of a delta: groups of seven bits, the most significant one first, where
/// every group but the first counts from one group past all shorter distances.
pub open spec fn distance_value(bytes: Seq<u8>) -> nat
    decreases bytes.len(),
{
    if bytes.len() == 0 {
        0
    } else if bytes.len() == 1 {
        (bytes[0] % 128) as nat
    } else {
        128 * (distance_value(bytes.drop_last()) + 1) + (bytes.last() % 128) as nat
    }
}

/// The id that consists of these twenty bytes.
pub open spec fn id_of(bytes: Seq<u8>) -> Id {
    Id {
        bytes: [
            bytes[0],
            bytes[1],
            bytes[2],
            bytes[3],
            bytes[4],
            bytes[5],
            bytes[6],
            bytes[7],
            bytes[8],
            bytes[9],
            bytes[10],
            bytes[11],
            bytes[12],
            bytes[13],
            bytes[14],
            bytes[15],
            bytes[16],
            bytes[17],
            bytes[18],
            bytes[19],
        ],
    }
}

/// What follows the size in an entry of the given type, and how many bytes it takes there.
/// `None` for a type that does not exist and for bytes that are cut short.
pub open spec fn header_at(type_id: u8, d: Seq<u8>) -> Option<(Header, nat)> {
    if type_id == 1 {
        Some((Header::Commit, 0))
    } else if type_id == 2 {
        Some((Header::Tree, 0))
    } else if type_id == 3 {
        Some((Header::Blob, 0))
    } else if type_id == 4 {
        Some((Header::Tag, 0))
    } else if type_id == 6 {
        let n = size_len(d);
        let distance = distance_value(d.take(n as int));
        if number_ends(d) && n <= MAX_SIZE_BYTES && distance <= u64::MAX {
            Some((Header::OfsDelta { base_distance: distance as u64 }, n))
        } else {
            None
        }
    } else if type_id == 7 && d.len() >= 20 {
        Some((Header::RefDelta { base_id: id_of(d.take(20)) }, 20))
    } else {
        None
    }
}

/// The entry that starts with `d`, at `pack_offset` in its pack. `None` where `d` starts no entry.
pub open spec fn entry_at(d: Seq<u8>, pack_offset: u64) -> Option<Entry> {
    let n = size_len(d);
    if number_ends(d) && n <= MAX_SIZE_BYTES && entry_size(d) <= u64::MAX {
        match header_at(type_id(d[0]), d.skip(n as int)) {
            Some((header, len)) if pack_offset + n + len <= u64::MAX => Some(
                Entry {
                    header,
                    decompressed_size: entry_size(d) as u64,
                    data_offset: (pack_offset + n + len) as u64,
                },
            ),
            _ => None,
        }
    } else {
        None
    }
}

/// The fewest groups of seven bits that hold `n`.
pub open spec fn group_count(n: nat) -> nat
    decreases n,
{
    if n < 128 {
        1
    } else {
        1 + group_count(n / 128)
    }
}

/// How many bytes the distance `n` takes.
pub open spec fn distance_len(n: nat) -> nat
    decreases n,
{
    if n < 128 {
        1
    } else {
        1 + distance_len((n / 128 - 1) as nat)
    }
}

/// Nine groups of seven bits stay below the highest bit.
proof fn lemma_size_value_bound(d: Seq<u8>, n: nat)
    requires
        size_len(d) <= n <= 9,
    ensures
        n == 0 ==> size_value(d) == 0,
        n == 1 ==> size_value(d) < 0x80,
        n == 2 ==> size_value(d) < 0x4000,
        n == 3 ==> size_value(d) < 0x20_0000,
        n == 4 ==> size_value(d) < 0x1000_0000,
        n == 5 ==> size_value(d) < 0x8_0000_0000,
        n == 6 ==> size_value(d) < 0x400_0000_0000,
        n == 7 ==> size_value(d) < 0x2_0000_0000_0000,
        n == 8 ==> size_value(d) < 0x100_0000_0000_0000,
        n == 9 ==> size_value(d) < 0x8000_0000_0000_0000,
    decreases n,
{
    lemma_size_len_bounds(d);
    if n > 0 && d.len() > 0 && d[0] >= 0x80 {
        lemma_size_value_bound(d.skip(1), (n - 1) as nat);
    }
}

/// Finds the end of the number at the start of `d`, unless `d` or the limit on bytes cuts it short.
fn find_number_end(d: &[u8]) -> (end: Option<usize>)
    ensures
        end == (if number_ends(d@) && size_len(d@) <= MAX_SIZE_BYTES {
            Some(size_len(d@) as usize)
        } else {
            None
        }),
{
    let mut n: usize = 0;
    assert(d@.skip(0) == d@);
    while n < d.len() && n < MAX_SIZE_BYTES
        invariant
            n <= d@.len(),
            n <= MAX_SIZE_BYTES,
            number_ends(d@) == number_ends(d@.skip(n as int)),
            size_len(d@) == n + size_len(d@.skip(n as int)),
        decreases d@.len() - n,
    {
        assert(d@.skip(n as int).skip(1) == d@.skip(n + 1));
        if d[n] < 0x80 {
            return Some(n + 1);
        }
        n += 1;
    }
    proof {
        lemma_size_len_bounds(d@.skip(n as int));
    }
    None
}

proof fn lemma_distance_grows(bytes: Seq<u8>, k: nat)
    requires
        k <= bytes.len(),
    ensures
        distance_value(bytes.take(k as int)) <= distance_value(bytes),
    decreases bytes.len() - k,
{
    if k < bytes.len() {
        lemma_distance_grows(bytes, k + 1);
        assert(bytes.take(k as int + 1).drop_last() == bytes.take(k as int));
    } else {
        assert(bytes.take(k as int) == bytes);
    }
}

/// The distance that `d` consists of, unless it does not fit.
fn read_distance(d: &[u8]) -> (distance: Option<u64>)
    requires
        d@.len() > 0,
    ensures
        distance == (if distance_value(d@) <= u64::MAX {
            Some(distance_value(d@) as u64)
        } else {
            None
        }),
{
    let first = d[0];
    assert(first & 0x7f == first % 128) by (bit_vector);
    let mut value: u64 = (first & 0x7f) as u64;
    let mut k: usize = 1;
    while k < d.len()
        invariant
            1 <= k <= d@.len(),
            value == distance_value(d@.take(k as int)),
        decreases d@.len() - k,
    {
        let b = d[k];
        assert(b & 0x7f == b % 128) by (bit_vector);
        proof {
            assert(d@.take(k + 1).drop_last() == d@.take(k as int));
            lemma_distance_grows(d@, k as nat + 1);
        }
        if value >= 0x1ff_ffff_ffff_ffff {
            return None;
        }
        value = (value + 1) * 128 + (b & 0x7f) as u64;
        k += 1;
    }
    assert(d@.take(k as int) == d@);
    Some(value)
}

/// The id in the first twenty bytes of `d`.
fn read_id(d: &[u8]) -> (id: Id)
    requires
        d@.len() >= 20,
    ensures
        id == id_of(d@.take(20)),
{
    let mut bytes: [u8; 20] = [0; 20];
    let mut k: usize = 0;
    while k < 20
        invariant
            k <= 20,
            d@.len() >= 20,
            bytes@.len() == 20,
            bytes@.take(k as int) == d@.take(k as int),
        decreases 20 - k,
    {
        let ghost before = bytes@;
        bytes[k] = d[k];
        k += 1;
        proof {
            assert(bytes@.take(k as int) == before.take(k - 1).push(d@[k - 1]));
            assert(d@.take(k as int) == d@.take(k - 1).push(d@[k - 1]));
        }
    }
    let id = Id { bytes };
    proof {
        assert(id.bytes@ == d@.take(20));
        let other = id_of(d@.take(20));
        assert(other.bytes =~= id.bytes);
    }
    id
}

/// Reads what follows the size in an entry of the given type.
fn read_header(type_id: u8, d: &[u8]) -> (r: Option<(Header, usize)>)
    ensures
        header_at(type_id, d@) is Some <==> r is Some,
        r matches Some((header, n)) ==> header_at(type_id, d@) == Some((header, n as nat)) && n
            <= d@.len(),
{
    if type_id == 1 {
        Some((Header::Commit, 0))
    } else if type_id == 2 {
        Some((Header::Tree, 0))
    } else if type_id == 3 {
        Some((Header::Blob, 0))
    } else if type_id == 4 {
        Some((Header::Tag, 0))
    } else if type_id == 6 {
        match find_number_end(d) {
            Some(n) => {
                proof {
                    lemma_size_len_bounds(d@);
                }
                let bytes = slice_subrange(d, 0, n);
                assert(bytes@ == d@.take(n as int));
                match read_distance(bytes) {
                    Some(base_distance) => Some((Header::OfsDelta { base_distance }, n)),
                    None => None,
                }
            },
            None => None,
        }
    } else if type_id == 7 && d.len() >= 20 {
        Some((Header::RefDelta { base_id: read_id(d) }, 20))
    } else {
        None
    }
}

impl Entry {
    /// Reads the entry that starts with `d`, at `pack_offset` in its pack. `None` where `d` starts no
    /// entry.
    pub fn try_from_bytes(d: &[u8], pack_offset: u64) -> (entry: Option<Entry>)
        ensures
            entry == entry_at(d@, pack_offset),
    {
        let n = match find_number_end(d) {
            Some(n) => n,
            None => {
                return None;
            },
        };
        proof {
            lemma_size_len_bounds(d@);
        }
        let first = d[0];
        assert(first & 0x0f == first % 16 && (first >> 4u8) & 0x07 == (first / 16) % 8) by (bit_vector);
        let mut size: u64 = (first & 0x0f) as u64;
        if first >= 0x80 {
            let rest = slice_subrange(d, 1, d.len());
            proof {
                assert(rest@ == d@.skip(1));
                lemma_size_value_bound(rest@, 9);
            }
            let (high, _) = delta_header_size_ofs(rest);
            if high > 0xfff_ffff_ffff_ffff {
                return None;
            }
            size = size + high * 16;
        }
        let rest = slice_subrange(d, n, d.len());
        assert(rest@ == d@.skip(n as int));
        match read_header((first >> 4u8) & 0x07, rest) {
            Some((header, len)) => match pack_offset.checked_add((n + len) as u64) {
                Some(data_offset) => Some(Entry { header, decompressed_size: size, data_offset }),
                None => None,
            },
            None => None,
        }
    }

    /// Reads the entry that starts with `d`, at `pack_offset` in its pack.
    pub fn from_bytes(d: &[u8], pack_offset: u64) -> (entry: Entry)
        requires
            entry_at(d@, pack_offset) is Some,
        ensures
            Some(entry) == entry_at(d@, pack_offset),
    {
        Entry::try_from_bytes(d, pack_offset).unwrap()
    }

    /// How many bytes the header takes in the pack, if its size is stored in as few as it needs.
    pub open spec fn spec_header_size(self) -> nat {
        let size = self.decompressed_size as nat;
        (if size < 16 {
            1
        } else {
            1 + group_count(size / 16)
        }) + match self.header {
            Header::OfsDelta { base_distance } => distance_len(base_distance as nat),
            Header::RefDelta { .. } => 20,
            _ => 0,
        }
    }

    /// How many bytes the header takes in the pack, if its size is stored in as few as it needs.
    pub fn header_size(&self) -> (n: usize)
        ensures
            n == self.spec_header_size(),
            n <= 40,
    {
        let mut n: usize = 1;
        let mut size: u64 = self.decompressed_size / 16;
        if size > 0 {
            n = 2;
            let ghost all = group_count(size as nat);
            while size >= 128
                invariant
                    2 <= n <= 10,
                    all + 1 == n - 1 + group_count(size as nat),
                    n == 2 ==> size < 0x1000_0000_0000_0000,
                    n == 3 ==> size < 0x20_0000_0000_0000,
                    n == 4 ==> size < 0x4000_0000_0000,
                    n == 5 ==> size < 0x80_0000_0000,
                    n == 6 ==> size < 0x1_0000_0000,
                    n == 7 ==> size < 0x200_0000,
                    n == 8 ==> size < 0x4_0000,
                    n == 9 ==> size < 0x800,
                    n == 10 ==> size < 0x10,
                decreases size,
            {
                size = size / 128;
                n += 1;
            }
            assert(n == 1 + all);
        }
        match self.header {
            Header::OfsDelta { base_distance } => {
                let mut distance: u64 = base_distance;
                let mut m: usize = 1;
                while distance >= 128
                    invariant
                        1 <= m <= 20,
                        distance_len(base_distance as nat) == m - 1 + distance_len(distance as nat),
                        distance <= u64::MAX,
                        m == 2 ==> distance < 0x200_0000_0000_0000,
                        m == 3 ==> distance < 0x4_0000_0000_0000,
                        m == 4 ==> distance < 0x800_0000_0000,
                        m == 5 ==> distance < 0x10_0000_0000,
                        m == 6 ==> distance < 0x2000_0000,
                        m == 7 ==> distance < 0x40_0000,
                        m == 8 ==> distance < 0x8000,
                        m == 9 ==> distance < 0x100,
                        m >= 10 ==> distance < 0x2,
                    decreases distance,
                {
                    distance = distance / 128 - 1;
                    m += 1;
                }
                n + m
            },
            Header::RefDelta { .. } => n + 20,
            _ => n,
        }
    }

    /// Where the entry starts in the pack that it was read from.
    pub fn pack_offset(&self) -> (offset: u64)
        requires
            self.spec_header_size() <= self.data_offset,
        ensures
            offset == self.data_offset - self.spec_header_size(),
    {
        self.data_offset - self.header_size() as u64
    }

    /// Where the base of this entry starts, if it is `distance` before this entry.
    pub fn base_pack_offset(&self, distance: u64) -> (offset: u64)
        requires
            self.spec_header_size() + distance <= self.data_offset,
        ensures
            offset == self.data_offset - self.spec_header_size() - distance,
    {
        self.pack_offset() - distance
    }
}

} // verus!
