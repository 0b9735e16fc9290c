use std::collections::HashMap;
use std::io::Write;

use git_pack_decode::assemble::Base;
use git_pack_decode::cache::{DecodeEntry, Noop};
use git_pack_decode::chain::{Delta, DeltaChain};
use git_pack_decode::decode::{Error, Next, Outcome, ResolvedBase};
use git_pack_decode::entry::{Entry, Header};
use git_pack_decode::file::{File, Version};
use git_pack_decode::object::{Id, Kind};
use git_pack_decode::zlib;

const BLOB: u8 = 3;
const OFS_DELTA: u8 = 6;
const REF_DELTA: u8 = 7;

fn deflate(data: &[u8]) -> Vec<u8> {
    let mut encoder = flate2::write::ZlibEncoder::new(Vec::new(), flate2::Compression::default());
    encoder.write_all(data).unwrap();
    encoder.finish().unwrap()
}

fn size_bytes(mut n: usize) -> Vec<u8> {
    let mut bytes = Vec::new();
    while n >= 128 {
        bytes.push(0x80 | (n % 128) as u8);
        n /= 128;
    }
    bytes.push(n as u8);
    bytes
}

fn header_bytes(type_id: u8, size: usize) -> Vec<u8> {
    let mut first = type_id << 4 | (size % 16) as u8;
    if size < 16 {
        return vec![first];
    }
    first |= 0x80;
    let mut bytes = vec![first];
    bytes.extend(size_bytes(size / 16));
    bytes
}

fn distance_bytes(mut n: usize) -> Vec<u8> {
    let mut bytes = vec![(n % 128) as u8];
    while n >= 128 {
        n = n / 128 - 1;
        bytes.insert(0, 0x80 | (n % 128) as u8);
    }
    bytes
}

/// A delta that copies `keep` bytes of a base of `base_len` bytes, and inserts `add`.
fn delta(base_len: usize, keep: usize, add: &[u8]) -> Vec<u8> {
    let mut bytes = size_bytes(base_len);
    bytes.extend(size_bytes(keep + add.len()));
    if keep > 0 {
        bytes.extend_from_slice(&[0xb0, keep as u8, (keep >> 8) as u8]);
    }
    if !add.is_empty() {
        bytes.push(add.len() as u8);
        bytes.extend_from_slice(add);
    }
    bytes
}

struct Pack {
    data: Vec<u8>,
}

impl Pack {
    fn new() -> Pack {
        Pack { data: b"PACK\0\0\0\x02\0\0\0\0".to_vec() }
    }

    fn add_raw(&mut self, header: Vec<u8>, stream: &[u8]) -> u64 {
        let offset = self.data.len() as u64;
        self.data.extend(header);
        self.data.extend_from_slice(stream);
        offset
    }

    fn add_blob(&mut self, content: &[u8]) -> u64 {
        self.add_raw(header_bytes(BLOB, content.len()), &deflate(content))
    }

    fn add_ofs_delta(&mut self, base: u64, delta: &[u8]) -> u64 {
        let mut header = header_bytes(OFS_DELTA, delta.len());
        header.extend(distance_bytes(self.data.len() - base as usize));
        self.add_raw(header, &deflate(delta))
    }

    fn add_ref_delta(&mut self, base: Id, delta: &[u8]) -> u64 {
        let mut header = header_bytes(REF_DELTA, delta.len());
        header.extend_from_slice(&base.bytes);
        self.add_raw(header, &deflate(delta))
    }

    fn file(&self) -> File {
        File { version: Version::V2, data: self.data.clone() }
    }
}

fn id(n: u8) -> Id {
    Id { bytes: [n; 20] }
}

fn find_nothing(_id: Id, out: Vec<u8>) -> (Vec<u8>, Option<ResolvedBase>) {
    (out, None)
}

fn decode(file: &File, offset: u64, out: &mut Vec<u8>) -> Option<Result<Outcome, Error>> {
    file.try_decode_entry(file.entry(offset), out, find_nothing, &mut Noop)
}

#[derive(Default)]
struct Cache {
    objects: HashMap<u64, (Vec<u8>, Kind, usize)>,
    asked: Vec<u64>,
    told: Vec<u64>,
}

impl DecodeEntry for Cache {
    fn put(&mut self, offset: u64, data: &[u8], kind: Kind, compressed_size: usize) {
        self.told.push(offset);
        self.objects.insert(offset, (data.to_vec(), kind, compressed_size));
    }

    fn get(&mut self, offset: u64, out: &mut Vec<u8>) -> Option<(Kind, usize)> {
        self.asked.push(offset);
        let (data, kind, compressed_size) = self.objects.get(&offset)?;
        *out = data.clone();
        Some((*kind, *compressed_size))
    }
}

#[test]
fn whole_object() {
    let mut pack = Pack::new();
    let offset = pack.add_blob(b"hello, hello, hello");
    let file = pack.file();
    let outcome = Outcome {
        kind: Kind::Blob,
        num_deltas: 0,
        decompressed_size: 19,
        compressed_size: deflate(b"hello, hello, hello").len(),
        object_size: 19,
    };
    let mut cache = Cache::default();
    let mut out = Vec::new();
    let entry = file.entry(offset);
    assert_eq!(file.decode_entry(entry, &mut out, find_nothing, &mut cache), Ok(outcome));
    assert_eq!(out, b"hello, hello, hello".to_vec());
    assert!(cache.asked.is_empty() && cache.told.is_empty());

    let mut out = vec![7; 100];
    assert_eq!(decode(&file, offset, &mut out), Some(Ok(outcome)));
    assert_eq!(out, b"hello, hello, hello".to_vec());
}

#[test]
fn whole_objects_of_all_kinds() {
    let kinds = [Kind::Commit, Kind::Tree, Kind::Blob, Kind::Tag];
    for (i, kind) in kinds.into_iter().enumerate() {
        let mut pack = Pack::new();
        let offset = pack.add_raw(header_bytes(i as u8 + 1, 3), &deflate(b"abc"));
        let mut out = Vec::new();
        let outcome = decode(&pack.file(), offset, &mut out).unwrap().unwrap();
        assert_eq!(outcome.kind, kind);
        assert_eq!(out, b"abc".to_vec());
    }
}

#[test]
fn large_object() {
    let content: Vec<u8> = (0..200_000u32).map(|i| (i * i >> 7) as u8).collect();
    let mut pack = Pack::new();
    let offset = pack.add_blob(&content);
    let mut out = Vec::new();
    assert!(decode(&pack.file(), offset, &mut out).unwrap().is_ok());
    assert_eq!(out, content);
}

#[test]
fn empty_object() {
    let mut pack = Pack::new();
    let offset = pack.add_blob(b"");
    let mut out = vec![1, 2, 3];
    let outcome = decode(&pack.file(), offset, &mut out).unwrap().unwrap();
    assert_eq!(outcome.object_size, 0);
    assert!(out.is_empty());
}

#[test]
fn chains_of_deltas() {
    let base = b"line one\nline two\nline three\n";
    let mut pack = Pack::new();
    let mut offset = pack.add_blob(base);
    let mut object = base.to_vec();
    let mut outcome = Outcome {
        kind: Kind::Blob,
        num_deltas: 0,
        decompressed_size: base.len() as u64,
        compressed_size: deflate(base).len(),
        object_size: base.len() as u64,
    };
    for i in 1..=12u32 {
        let add = format!("line {}\n", i);
        let keep = object.len() - 3;
        let bytes = delta(object.len(), keep, add.as_bytes());
        offset = pack.add_ofs_delta(offset, &bytes);
        object.truncate(keep);
        object.extend_from_slice(add.as_bytes());
        outcome.num_deltas = i;
        outcome.decompressed_size += bytes.len() as u64;
        outcome.compressed_size += deflate(&bytes).len();
        outcome.object_size += object.len() as u64;

        let file = pack.file();
        for before in [vec![], vec![0xaa; 10], vec![0xff; 1000]] {
            let mut out = before;
            assert_eq!(decode(&file, offset, &mut out), Some(Ok(outcome)));
            assert_eq!(out, object);
            let entry = file.entry(offset);
            let r = file.decode_entry(entry, &mut out, find_nothing, &mut Noop);
            assert_eq!(r, Ok(outcome));
            assert_eq!(out, object);
        }
    }
}

#[test]
fn delta_that_shrinks_and_delta_that_grows() {
    let base: Vec<u8> = (0..500u32).map(|i| i as u8).collect();
    let mut pack = Pack::new();
    let offset = pack.add_blob(&base);
    let shrunk = pack.add_ofs_delta(offset, &delta(500, 2, b""));
    let grown = pack.add_ofs_delta(shrunk, &delta(2, 2, &[9; 100]));
    let mut out = Vec::new();
    assert!(decode(&pack.file(), shrunk, &mut out).unwrap().is_ok());
    assert_eq!(out, vec![0, 1]);
    assert!(decode(&pack.file(), grown, &mut out).unwrap().is_ok());
    assert_eq!(out, [&[0, 1][..], &[9; 100]].concat());
}

#[test]
fn delta_larger_than_its_objects() {
    let mut pack = Pack::new();
    let offset = pack.add_blob(b"ab");
    let mut bytes = size_bytes(2);
    bytes.extend(size_bytes(2));
    // Most of what the instructions produce is beyond the object.
    for _ in 0..100 {
        bytes.extend_from_slice(b"\x02xy");
    }
    let offset = pack.add_ofs_delta(offset, &bytes);
    let mut out = vec![5; 3];
    assert!(decode(&pack.file(), offset, &mut out).unwrap().is_ok());
    assert_eq!(out, b"xy".to_vec());
}

#[test]
fn base_in_pack_found_by_id() {
    let mut pack = Pack::new();
    let base = pack.add_blob(b"base");
    let offset = pack.add_ref_delta(id(1), &delta(4, 4, b" and more"));
    let file = pack.file();
    let resolve = |wanted: Id, out: Vec<u8>| {
        assert_eq!(wanted, id(1));
        (out, Some(ResolvedBase::InPack(file.entry(base))))
    };
    let mut out = Vec::new();
    let outcome = file
        .try_decode_entry(file.entry(offset), &mut out, resolve, &mut Noop)
        .unwrap()
        .unwrap();
    assert_eq!(out, b"base and more".to_vec());
    assert_eq!(outcome.num_deltas, 1);
    assert_eq!(outcome.object_size, 4 + 13);
}

#[test]
fn base_out_of_pack() {
    let mut pack = Pack::new();
    let bytes = delta(4, 4, b" and more");
    let older = pack.add_ref_delta(id(1), &bytes);
    let newer_bytes = delta(13, 13, b"!");
    let offset = pack.add_ofs_delta(older, &newer_bytes);
    let file = pack.file();
    let resolve = |_: Id, mut out: Vec<u8>| {
        out.clear();
        out.extend_from_slice(b"base");
        (out, Some(ResolvedBase::OutOfPack { kind: Kind::Tree, end: 4 }))
    };
    let mut cache = Cache::default();
    let mut out = vec![1; 50];
    let outcome = file
        .try_decode_entry(file.entry(offset), &mut out, resolve, &mut cache)
        .unwrap()
        .unwrap();
    assert_eq!(out, b"base and more!".to_vec());
    assert_eq!(
        outcome,
        Outcome {
            kind: Kind::Tree,
            num_deltas: 2,
            decompressed_size: (bytes.len() + newer_bytes.len()) as u64,
            compressed_size: deflate(&bytes).len() + deflate(&newer_bytes).len(),
            object_size: 13 + 14,
        }
    );
    // The cache is told of the object, but not of its base.
    assert_eq!(cache.told, vec![file.entry(offset).data_offset]);
    assert_eq!(cache.asked, vec![file.entry(offset).data_offset, file.entry(older).data_offset]);
}

#[test]
fn base_out_of_pack_in_a_longer_buffer() {
    let mut pack = Pack::new();
    let offset = pack.add_ref_delta(id(1), &delta(4, 4, b"!"));
    let file = pack.file();
    let resolve = |_: Id, _: Vec<u8>| {
        (b"base and garbage".to_vec(), Some(ResolvedBase::OutOfPack { kind: Kind::Tag, end: 4 }))
    };
    let mut out = Vec::new();
    let outcome = file.try_decode_entry(file.entry(offset), &mut out, resolve, &mut Noop);
    assert!(outcome.unwrap().is_ok());
    assert_eq!(out, b"base!".to_vec());
}

#[test]
fn base_that_is_not_found() {
    let mut pack = Pack::new();
    let older = pack.add_ref_delta(id(4), &delta(4, 4, b"!"));
    let offset = pack.add_ofs_delta(older, &delta(5, 5, b"!"));
    let file = pack.file();
    let mut out = Vec::new();
    assert_eq!(decode(&file, older, &mut out), Some(Err(Error::DeltaBaseUnresolved(id(4)))));
    let entry = file.entry(offset);
    assert_eq!(
        file.decode_entry(entry, &mut out, find_nothing, &mut Noop),
        Err(Error::DeltaBaseUnresolved(id(4)))
    );
}

#[test]
fn where_a_chain_leads_by_id() {
    let entry = Entry { header: Header::Blob, decompressed_size: 1, data_offset: 2 };
    assert!(matches!(
        Next::from_found(id(1), Some(ResolvedBase::InPack(entry))),
        Next::Entry(found) if found == entry
    ));
    assert!(matches!(
        Next::from_found(id(1), Some(ResolvedBase::OutOfPack { kind: Kind::Tag, end: 9 })),
        Next::Base(Base::OutOfPack { kind: Kind::Tag, end: 9 })
    ));
    assert!(matches!(Next::from_found(id(1), None), Next::Unresolved(found) if found == id(1)));
}

#[test]
fn cache_is_told_of_base_and_object() {
    let mut pack = Pack::new();
    let base = pack.add_blob(b"base");
    let bytes = delta(4, 4, b"!");
    let offset = pack.add_ofs_delta(base, &bytes);
    let file = pack.file();
    let (base, entry) = (file.entry(base), file.entry(offset));
    let mut cache = Cache::default();
    let mut out = Vec::new();
    assert!(file.decode_entry(entry, &mut out, find_nothing, &mut cache).is_ok());
    assert_eq!(cache.asked, vec![entry.data_offset]);
    assert_eq!(cache.told, vec![base.data_offset, entry.data_offset]);
    assert_eq!(
        cache.objects[&base.data_offset],
        (b"base".to_vec(), Kind::Blob, deflate(b"base").len())
    );
    assert_eq!(
        cache.objects[&entry.data_offset],
        (b"base!".to_vec(), Kind::Blob, deflate(&bytes).len())
    );
}

#[test]
fn object_that_the_cache_has_comes_back() {
    let mut pack = Pack::new();
    let base = pack.add_blob(b"base");
    let bytes = delta(4, 4, b" and more");
    let offset = pack.add_ofs_delta(base, &bytes);
    let file = pack.file();
    let entry = file.entry(offset);
    let mut cache = Cache::default();
    let mut out = Vec::new();
    let first = file.decode_entry(entry, &mut out, find_nothing, &mut cache).unwrap();
    cache.told.clear();
    let mut again = vec![1; 40];
    let second = file.decode_entry(entry, &mut again, find_nothing, &mut cache).unwrap();
    assert_eq!(again, out);
    assert_eq!(first.num_deltas, 1);
    assert_eq!(
        second,
        Outcome {
            kind: first.kind,
            num_deltas: 0,
            decompressed_size: bytes.len() as u64,
            compressed_size: deflate(&bytes).len(),
            object_size: 13,
        }
    );
    assert!(cache.told.is_empty());
}

#[test]
fn cache_cuts_the_chain_short() {
    let mut pack = Pack::new();
    let base = pack.add_blob(b"base");
    let mut offset = base;
    let mut offsets = Vec::new();
    let mut sizes = Vec::new();
    for n in 0..5usize {
        let bytes = delta(4 + n, 4 + n, b"!");
        sizes.push((bytes.len() as u64, deflate(&bytes).len()));
        offset = pack.add_ofs_delta(offset, &bytes);
        offsets.push(offset);
    }
    let file = pack.file();
    let mut cache = Cache::default();
    let mut out = Vec::new();
    assert!(file.decode_entry(file.entry(offsets[2]), &mut out, find_nothing, &mut cache).is_ok());
    assert_eq!(out, b"base!!!".to_vec());
    let outcome = file
        .decode_entry(file.entry(offsets[4]), &mut out, find_nothing, &mut cache)
        .unwrap();
    assert_eq!(out, b"base!!!!!".to_vec());
    assert_eq!(
        outcome,
        Outcome {
            kind: Kind::Blob,
            num_deltas: 2,
            decompressed_size: sizes[3].0 + sizes[4].0,
            compressed_size: sizes[3].1 + sizes[4].1,
            object_size: 8 + 9,
        }
    );
    // Without the cache it is the same object.
    let outcome = decode(&file, offsets[4], &mut out).unwrap().unwrap();
    assert_eq!(out, b"base!!!!!".to_vec());
    assert_eq!(outcome.num_deltas, 5);
}

#[test]
fn decoding_a_delta_is_resolving_it() {
    let mut pack = Pack::new();
    let base = pack.add_blob(b"base");
    let older = pack.add_ofs_delta(base, &delta(4, 4, b"!"));
    let newer = pack.add_ofs_delta(older, &delta(5, 5, b"?"));
    let file = pack.file();
    for offset in [older, newer] {
        let (mut a, mut b) = (Vec::new(), Vec::new());
        let (mut cache_a, mut cache_b) = (Cache::default(), Cache::default());
        let entry = file.entry(offset);
        assert_eq!(
            file.decode_entry(entry, &mut a, find_nothing, &mut cache_a),
            file.resolve_deltas(entry, find_nothing, &mut b, &mut cache_b)
        );
        assert_eq!(a, b);
        assert_eq!(cache_a.objects, cache_b.objects);
        assert_eq!(cache_a.told, cache_b.told);
    }
}

#[test]
fn buffer_makes_no_difference_to_a_chain_with_a_cache() {
    let mut pack = Pack::new();
    let base = pack.add_blob(b"base");
    let older = pack.add_ofs_delta(base, &delta(4, 4, b"!"));
    let newer = pack.add_ofs_delta(older, &delta(5, 5, b"?"));
    let file = pack.file();
    for warm in [false, true] {
        let mut outcomes = Vec::new();
        for before in [vec![], vec![0x81; 3], vec![0xff; 300]] {
            let mut cache = Cache::default();
            let mut out = before;
            if warm {
                let mut other = Vec::new();
                let entry = file.entry(older);
                assert!(file.decode_entry(entry, &mut other, find_nothing, &mut cache).is_ok());
            }
            let entry = file.entry(newer);
            let outcome = file.decode_entry(entry, &mut out, find_nothing, &mut cache).unwrap();
            assert_eq!(out, b"base!?".to_vec());
            assert_eq!(outcome.num_deltas, if warm { 1 } else { 2 });
            outcomes.push(outcome);
        }
        assert_eq!(outcomes[0], outcomes[1]);
        assert_eq!(outcomes[0], outcomes[2]);
    }
}

#[test]
fn buffer_shows_where_data_decompresses_to_less_than_it_should() {
    let mut pack = Pack::new();
    let offset = pack.add_raw(header_bytes(BLOB, 5), &deflate(b"abc"));
    let file = pack.file();
    let mut out = vec![9; 8];
    assert!(decode(&file, offset, &mut out).unwrap().is_ok());
    assert_eq!(out, b"abc\x09\x09".to_vec());
    let mut out = Vec::new();
    assert!(decode(&file, offset, &mut out).unwrap().is_ok());
    assert_eq!(out, b"abc\0\0".to_vec());
}

#[test]
fn streams_that_can_not_be_decompressed() {
    let inflate = Some(Err(Error::ZlibInflate(zlib::Error::Inflate)));
    let mut out = Vec::new();

    let mut pack = Pack::new();
    let offset = pack.add_raw(header_bytes(BLOB, 4), &[0xff; 20]);
    assert_eq!(decode(&pack.file(), offset, &mut out), inflate);

    let delta_offset = pack.add_ofs_delta(offset, &delta(4, 4, b"!"));
    assert_eq!(decode(&pack.file(), delta_offset, &mut out), inflate);

    let mut pack = Pack::new();
    let base = pack.add_blob(b"base");
    let mut header = header_bytes(OFS_DELTA, 5);
    header.extend(distance_bytes(pack.data.len() - base as usize));
    let offset = pack.add_raw(header, &[0xff; 20]);
    let file = pack.file();
    let mut cache = Cache::default();
    let entry = file.entry(offset);
    assert_eq!(
        file.decode_entry(entry, &mut out, find_nothing, &mut cache),
        Err(Error::ZlibInflate(zlib::Error::Inflate))
    );
    assert!(cache.told.is_empty());
}

#[test]
fn whole_objects_outside_of_the_pack() {
    let file = Pack::new().file();
    let mut out = vec![1, 2, 3];
    let entry = Entry {
        header: Header::Blob,
        decompressed_size: 1,
        data_offset: file.data.len() as u64,
    };
    assert_eq!(file.try_decode_entry(entry, &mut out, find_nothing, &mut Noop), None);
    let entry = Entry { header: Header::Blob, decompressed_size: u64::MAX, data_offset: 0 };
    assert_eq!(file.try_decode_entry(entry, &mut out, find_nothing, &mut Noop), None);
    assert_eq!(out, vec![1, 2, 3]);
}

#[test]
fn chains_that_lead_nowhere() {
    let mut out = Vec::new();
    // Before the start of the pack.
    let mut pack = Pack::new();
    let mut header = header_bytes(OFS_DELTA, 5);
    header.extend(distance_bytes(13));
    let offset = pack.add_raw(header, &deflate(&delta(4, 4, b"")));
    assert_eq!(decode(&pack.file(), offset, &mut out), None);
    // To bytes that start no entry.
    let mut pack = Pack::new();
    let mut header = header_bytes(OFS_DELTA, 5);
    header.extend(distance_bytes(5));
    let offset = pack.add_raw(header, &deflate(&delta(4, 4, b"")));
    assert_eq!(decode(&pack.file(), offset, &mut out), None);
    // To an entry whose data is outside of the pack.
    let mut pack = Pack::new();
    let offset = pack.add_ref_delta(id(1), &delta(4, 4, b"!"));
    let file = pack.file();
    let outside = Entry {
        header: Header::Blob,
        decompressed_size: 4,
        data_offset: file.data.len() as u64,
    };
    let resolve = |_: Id, out: Vec<u8>| (out, Some(ResolvedBase::InPack(outside)));
    let entry = file.entry(offset);
    assert_eq!(file.try_decode_entry(entry, &mut out, resolve, &mut Noop), None);
    // By distance in a pack of another version.
    let mut pack = Pack::new();
    let base = pack.add_blob(b"base");
    let offset = pack.add_ofs_delta(base, &delta(4, 4, b"!"));
    let mut file = pack.file();
    let entry = file.entry(offset);
    file.version = Version::V3;
    assert_eq!(file.try_decode_entry(entry, &mut out, find_nothing, &mut Noop), None);
}

#[test]
fn deltas_that_contradict_themselves() {
    let cases: Vec<Vec<u8>> = vec![
        // Reserved instruction.
        vec![4, 1, 0],
        // Copies from beyond the base.
        vec![4, 5, 0x90, 5],
        // Produces too little.
        vec![4, 5, 0x90, 4],
        // Cut short.
        vec![4, 5, 0x90],
        // Has no end to its sizes.
        vec![0xff; 30],
    ];
    for bytes in cases {
        let mut pack = Pack::new();
        let base = pack.add_blob(b"base");
        let offset = pack.add_ofs_delta(base, &bytes);
        let file = pack.file();
        let mut cache = Cache::default();
        let mut out = Vec::new();
        let entry = file.entry(offset);
        assert_eq!(file.try_decode_entry(entry, &mut out, find_nothing, &mut cache), None);
        assert!(cache.told.is_empty());
    }
}

#[test]
fn base_larger_than_the_delta_says() {
    // The delta takes the start of its base for all of it.
    let mut pack = Pack::new();
    let base = pack.add_blob(b"base");
    let offset = pack.add_ofs_delta(base, &delta(2, 2, b"?"));
    let mut out = Vec::new();
    assert!(decode(&pack.file(), offset, &mut out).unwrap().is_ok());
    assert_eq!(out, b"ba?".to_vec());
    // An object from the outside that leaves no room for the deltas.
    let mut pack = Pack::new();
    let offset = pack.add_ref_delta(id(1), &delta(2, 2, b"?"));
    let file = pack.file();
    let resolve = |_: Id, _: Vec<u8>| {
        (vec![b'x'; 6], Some(ResolvedBase::OutOfPack { kind: Kind::Blob, end: 6 }))
    };
    assert_eq!(file.try_decode_entry(file.entry(offset), &mut out, resolve, &mut Noop), None);
}

#[test]
fn chain_of_empty_objects() {
    let mut pack = Pack::new();
    let base = pack.add_blob(b"");
    let offset = pack.add_ofs_delta(base, &delta(0, 0, b""));
    let mut out = vec![7; 3];
    let outcome = decode(&pack.file(), offset, &mut out).unwrap().unwrap();
    assert!(out.is_empty());
    assert_eq!(
        outcome,
        Outcome {
            kind: Kind::Blob,
            num_deltas: 1,
            decompressed_size: 2,
            compressed_size: deflate(b"").len() + deflate(&[0, 0]).len(),
            object_size: 0,
        }
    );
    let newer = pack.add_ofs_delta(offset, &delta(0, 0, b"x"));
    assert!(decode(&pack.file(), newer, &mut out).unwrap().is_ok());
    assert_eq!(out, b"x".to_vec());
}

#[test]
fn empty_objects_behind_a_cache_hit() {
    let mut pack = Pack::new();
    let base = pack.add_blob(b"x");
    let older = pack.add_ofs_delta(base, &delta(1, 0, b""));
    let newer = pack.add_ofs_delta(older, &delta(0, 0, b""));
    let file = pack.file();
    let mut out = vec![1];
    assert!(decode(&file, newer, &mut out).unwrap().is_ok());
    assert!(out.is_empty());
    // The same without the base.
    let mut cache = Cache::default();
    let entry = file.entry(older);
    assert!(file.decode_entry(entry, &mut out, find_nothing, &mut cache).is_ok());
    let entry = file.entry(newer);
    let outcome = file.decode_entry(entry, &mut out, find_nothing, &mut cache).unwrap();
    assert!(out.is_empty());
    assert_eq!(outcome.num_deltas, 1);
    assert_eq!(outcome.object_size, 0);
}

#[test]
fn broken_stream_behind_sizes_that_do_not_add_up() {
    // Two deltas state objects of 2^63 bytes each, and the one behind them is no stream.
    let mut bytes = size_bytes(1 << 63);
    bytes.extend(size_bytes(1 << 63));
    let mut pack = Pack::new();
    let mut offset = pack.add_blob(b"base");
    for _ in 0..2 {
        offset = pack.add_ofs_delta(offset, &bytes);
    }
    let mut header = header_bytes(OFS_DELTA, 5);
    header.extend(distance_bytes(pack.data.len() - offset as usize));
    let newest = pack.add_raw(header, &[0xff; 20]);
    let file = pack.file();
    let mut out = Vec::new();
    let inflate = Some(Err(Error::ZlibInflate(zlib::Error::Inflate)));
    assert_eq!(decode(&file, newest, &mut out), inflate);
    // Without it, they do not fit into memory.
    assert_eq!(decode(&file, offset, &mut out), None);
}

#[test]
fn buffer_makes_no_difference_to_short_deltas_outside_of_the_pack() {
    // The delta states one byte more than it has: the one that completes its last instruction.
    let bytes = [4, 4, 0x90, 4, 0x91, 0];
    let mut pack = Pack::new();
    let mut header = header_bytes(REF_DELTA, bytes.len() + 1);
    header.extend_from_slice(&id(1).bytes);
    let offset = pack.add_raw(header, &deflate(&bytes));
    let file = pack.file();
    let resolve = |_: Id, _: Vec<u8>| {
        let mut out = b"base".to_vec();
        out.extend_from_slice(&[1; 8]);
        (out, Some(ResolvedBase::OutOfPack { kind: Kind::Tag, end: 4 }))
    };
    let mut outcomes = Vec::new();
    for before in [vec![], vec![2; 7], vec![0xff; 100]] {
        let mut out = before;
        let entry = file.entry(offset);
        outcomes.push(file.try_decode_entry(entry, &mut out, resolve, &mut Noop).unwrap().unwrap());
        assert_eq!(out, b"base".to_vec());
    }
    assert_eq!(outcomes[0], outcomes[1]);
    assert_eq!(outcomes[0], outcomes[2]);
}

#[test]
fn delta_that_decompresses_to_less_than_it_should() {
    // What is missing is taken from the buffer, which is filled up with zeros.
    let bytes = [4, 4, 0x90, 4];
    let mut pack = Pack::new();
    let base = pack.add_blob(b"base");
    let mut header = header_bytes(OFS_DELTA, bytes.len() + 1);
    header.extend(distance_bytes(pack.data.len() - base as usize));
    let offset = pack.add_raw(header, &deflate(&bytes));
    let mut out = Vec::new();
    assert_eq!(decode(&pack.file(), offset, &mut out), None);
    // Here it is a complete instruction.
    let mut out = vec![0x90; 5];
    assert_eq!(decode(&pack.file(), offset, &mut out), None);
    let bytes = [4, 4, 0x90, 4, 0x91, 0];
    let mut pack = Pack::new();
    let base = pack.add_blob(b"base");
    let mut header = header_bytes(OFS_DELTA, bytes.len() + 1);
    header.extend(distance_bytes(pack.data.len() - base as usize));
    let offset = pack.add_raw(header, &deflate(&bytes));
    let mut out = vec![1; 7];
    assert!(decode(&pack.file(), offset, &mut out).unwrap().is_ok());
    assert_eq!(out, b"base".to_vec());
}

#[test]
fn decompressing_entries() {
    let mut pack = Pack::new();
    let offset = pack.add_blob(b"hello, hello, hello");
    let stream = deflate(b"hello, hello, hello");
    let file = pack.file();
    let entry = file.entry(offset);

    let mut out = vec![0xee; 25];
    assert_eq!(file.decompress_entry(&entry, &mut out), Ok(19));
    assert_eq!(&out[..19], b"hello, hello, hello");
    assert_eq!(&out[19..], &[0xee; 6]);

    let mut out = vec![0xee; 25];
    assert_eq!(
        file.decompress_entry_from_data_offset(entry.data_offset, &mut out),
        Ok(stream.len())
    );
    assert_eq!(&out[..19], b"hello, hello, hello");
    assert_eq!(&out[19..], &[0xee; 6]);

    // As far as there is room.
    let mut out = vec![0xee; 5];
    assert!(file.decompress_entry_from_data_offset(entry.data_offset, &mut out).is_ok());
    assert_eq!(out, b"hello".to_vec());
}

#[test]
fn decompressing_a_delta_does_not_resolve_it() {
    let mut pack = Pack::new();
    let base = pack.add_blob(b"base");
    let bytes = delta(4, 4, b"!");
    let offset = pack.add_ofs_delta(base, &bytes);
    let file = pack.file();
    let mut out = vec![0; bytes.len()];
    assert_eq!(file.decompress_entry(&file.entry(offset), &mut out), Ok(bytes.len()));
    assert_eq!(out, bytes);
}

#[test]
fn decompressing_what_is_no_stream() {
    let mut pack = Pack::new();
    let offset = pack.add_raw(header_bytes(BLOB, 4), &[0xff; 20]);
    let file = pack.file();
    let entry = file.entry(offset);
    let mut out = vec![0; 4];
    let inflate = Err(Error::ZlibInflate(zlib::Error::Inflate));
    assert_eq!(file.decompress_entry(&entry, &mut out), inflate);
    assert_eq!(file.decompress_entry_from_data_offset(entry.data_offset, &mut out), inflate);
    assert_eq!(zlib::inflate_once(&[0xff; 20], &mut out), Err(zlib::Error::Inflate));
}

#[test]
fn decompressing_a_stream_that_is_cut_short() {
    let stream = deflate(&[7; 30]);
    let mut out = vec![0xee; 30];
    assert_eq!(zlib::inflate_once(&[], &mut out), Ok((0, 0)));
    assert_eq!(out, vec![0xee; 30]);
    let (consumed, written) = zlib::inflate_once(&stream[..4], &mut out).unwrap();
    assert_eq!(consumed, 4);
    assert!(written < 30);
    assert_eq!(zlib::inflate_once(&stream, &mut out), Ok((stream.len(), 30)));
    assert_eq!(out, vec![7; 30]);
}

#[test]
fn outcomes() {
    assert_eq!(
        Outcome::default_from_kind(Kind::Tag),
        Outcome {
            kind: Kind::Tag,
            num_deltas: 0,
            decompressed_size: 0,
            compressed_size: 0,
            object_size: 0,
        }
    );
    let entry = Entry { header: Header::Tree, decompressed_size: 10, data_offset: 20 };
    assert_eq!(
        Outcome::from_object_entry(Kind::Tree, &entry, 5),
        Outcome {
            kind: Kind::Tree,
            num_deltas: 0,
            decompressed_size: 10,
            compressed_size: 5,
            object_size: 10,
        }
    );
    assert_eq!(
        Outcome::from_cached_object(Kind::Tree, &entry, 5, 30),
        Outcome {
            kind: Kind::Tree,
            num_deltas: 0,
            decompressed_size: 10,
            compressed_size: 5,
            object_size: 30,
        }
    );
    assert_eq!(
        Outcome::from_delta_chain(Kind::Blob, 3, 10, 5, 20),
        Outcome {
            kind: Kind::Blob,
            num_deltas: 3,
            decompressed_size: 10,
            compressed_size: 5,
            object_size: 20,
        }
    );
}

#[test]
fn finishing_a_chain_with_an_object_in_the_buffer() {
    let mut pack = Pack::new();
    let bytes = delta(4, 4, b"!");
    let offset = pack.add_ref_delta(id(1), &bytes);
    let file = pack.file();
    let entry = file.entry(offset);
    let pending = Delta {
        data_start: 0,
        data_end: bytes.len(),
        base_size: 0,
        result_size: 0,
        decompressed_size: bytes.len(),
        data_offset: entry.data_offset,
    };
    let chain = DeltaChain::from_deltas(&[pending]);
    let base = Base::Cached { kind: Kind::Commit, packed_size: 1 };
    let mut out = b"base".to_vec();
    let outcome = file.finish_chain(entry, chain, base, &mut out, &mut Noop).unwrap().unwrap();
    assert_eq!(out, b"base!".to_vec());
    assert_eq!(outcome.kind, Kind::Commit);
    assert_eq!(outcome.compressed_size, deflate(&bytes).len());
}
