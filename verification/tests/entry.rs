use git_pack_decode::entry::{Entry, Header};
use git_pack_decode::file::{File, Version};
use git_pack_decode::object::{Id, Kind};

fn id(first: u8) -> Id {
    let mut bytes = [0u8; 20];
    for (i, b) in bytes.iter_mut().enumerate() {
        *b = first + i as u8;
    }
    Id { bytes }
}

#[test]
fn whole_objects() {
    let cases = [
        (0x10, Header::Commit, Kind::Commit),
        (0x20, Header::Tree, Kind::Tree),
        (0x30, Header::Blob, Kind::Blob),
        (0x40, Header::Tag, Kind::Tag),
    ];
    for (first, header, kind) in cases {
        let entry = Entry::from_bytes(&[first | 5, 0xff], 100);
        assert_eq!(entry, Entry { header, decompressed_size: 5, data_offset: 101 });
        assert!(!entry.header.is_delta());
        assert_eq!(entry.header.to_kind(), Some(kind));
    }
}

#[test]
fn sizes_of_several_bytes() {
    let entry = Entry::from_bytes(&[0xbf, 0x01], 0);
    assert_eq!(entry.decompressed_size, 15 + 16);
    assert_eq!(entry.data_offset, 2);
    let entry = Entry::from_bytes(&[0xb1, 0x82, 0x03], 10);
    assert_eq!(entry.decompressed_size, 1 + 16 * (2 + 128 * 3));
    assert_eq!(entry.data_offset, 13);
    let entry = Entry::from_bytes(&[0xbf, 0xff, 0xff, 0xff, 0xff, 0xff, 0xff, 0xff, 0xff, 0x0f], 0);
    assert_eq!(entry.decompressed_size, u64::MAX);
}

#[test]
fn delta_by_distance() {
    let cases: Vec<(Vec<u8>, u64)> = vec![
        (vec![0x00], 0),
        (vec![0x7f], 127),
        (vec![0x80, 0x00], 128),
        (vec![0x80, 0x7f], 255),
        (vec![0x81, 0x00], 256),
        (vec![0xff, 0x7f], 16511),
        (vec![0x80, 0x80, 0x00], 16512),
    ];
    for (bytes, base_distance) in cases {
        let mut d = vec![0x65];
        d.extend_from_slice(&bytes);
        let entry = Entry::from_bytes(&d, 50_000);
        assert_eq!(entry.header, Header::OfsDelta { base_distance });
        assert!(entry.header.is_delta());
        assert_eq!(entry.header.to_kind(), None);
        assert_eq!(entry.data_offset, 50_000 + d.len() as u64);
        assert_eq!(entry.pack_offset(), 50_000);
        assert_eq!(entry.base_pack_offset(base_distance), 50_000 - base_distance);
    }
}

#[test]
fn delta_by_id() {
    let mut d = vec![0x75];
    d.extend_from_slice(&id(9).bytes);
    let entry = Entry::from_bytes(&d, 3);
    assert_eq!(entry.header, Header::RefDelta { base_id: id(9) });
    assert!(entry.header.is_delta());
    assert_eq!(entry.data_offset, 24);
    assert_eq!(entry.header_size(), 21);
    assert_eq!(entry.pack_offset(), 3);
}

#[test]
fn bytes_that_start_no_entry() {
    // Nothing at all.
    assert_eq!(Entry::try_from_bytes(&[], 0), None);
    // Types that do not exist.
    assert_eq!(Entry::try_from_bytes(&[0x05], 0), None);
    assert_eq!(Entry::try_from_bytes(&[0x55], 0), None);
    // A size that is cut short, takes too many bytes or does not fit.
    assert_eq!(Entry::try_from_bytes(&[0xb5, 0x80], 0), None);
    assert_eq!(
        Entry::try_from_bytes(&[0xb5, 0x80, 0x80, 0x80, 0x80, 0x80, 0x80, 0x80, 0x80, 0x80, 0x00], 0),
        None
    );
    assert_eq!(
        Entry::try_from_bytes(&[0xbf, 0xff, 0xff, 0xff, 0xff, 0xff, 0xff, 0xff, 0xff, 0x10], 0),
        None
    );
    // A distance that is cut short or does not fit.
    assert_eq!(Entry::try_from_bytes(&[0x65, 0x80], 0), None);
    assert_eq!(
        Entry::try_from_bytes(&[0x65, 0xff, 0xff, 0xff, 0xff, 0xff, 0xff, 0xff, 0xff, 0xff, 0x7f], 0),
        None
    );
    // An id that is cut short.
    assert_eq!(Entry::try_from_bytes(&[0x75; 20], 0), None);
    // An offset that does not fit.
    assert_eq!(Entry::try_from_bytes(&[0x35], u64::MAX), None);
}

#[test]
fn header_sizes() {
    let size = |decompressed_size| {
        Entry { header: Header::Blob, decompressed_size, data_offset: 0 }.header_size()
    };
    assert_eq!(size(0), 1);
    assert_eq!(size(15), 1);
    assert_eq!(size(16), 2);
    assert_eq!(size(16 * 128 - 1), 2);
    assert_eq!(size(16 * 128), 3);
    assert_eq!(size(u64::MAX), 10);
}

#[test]
fn entry_does_not_know_its_offset_if_its_size_takes_too_many_bytes() {
    let entry = Entry::from_bytes(&[0xb5, 0x00], 100);
    assert_eq!(entry.decompressed_size, 5);
    assert_eq!(entry.data_offset, 102);
    assert_eq!(entry.pack_offset(), 101);
}

#[test]
fn entries_of_a_file() {
    let file = File { version: Version::V2, data: vec![0, 0, 0x31, 0x22] };
    file.assure_v2();
    let entry = Entry { header: Header::Blob, decompressed_size: 1, data_offset: 3 };
    assert_eq!(file.entry(2), entry);
    assert_eq!(file.try_entry(2), Some(entry));
    assert_eq!(
        file.entry(3),
        Entry { header: Header::Tree, decompressed_size: 2, data_offset: 4 }
    );
    assert_eq!(file.try_entry(0), None);
    assert_eq!(file.try_entry(4), None);
    assert_eq!(file.try_entry(5), None);
    assert_eq!(file.try_entry(u64::MAX), None);
    let file = File { version: Version::V3, data: vec![0, 0, 0x31, 0x22] };
    assert_eq!(file.try_entry(2), None);
}

#[test]
fn entry_of_a_base() {
    let file = File { version: Version::V2, data: vec![0x31, 0, 0, 0x65, 3] };
    let delta = file.entry(3);
    assert_eq!(delta.header, Header::OfsDelta { base_distance: 3 });
    assert_eq!(file.try_base_entry(&delta, 3), Some(file.entry(0)));
    assert_eq!(file.try_base_entry(&delta, 2), None);
    assert_eq!(file.try_base_entry(&delta, 4), None);
}
