use git_pack_decode::assemble::{apply_deltas, deltas_fit, lay_out, note_sizes};
use git_pack_decode::chain::{Delta, DeltaChain};
use git_pack_decode::delta::{apply_delta, delta_fills, delta_header_size_ofs};

fn applied(base: &[u8], target_len: usize, data: &[u8]) -> Vec<u8> {
    assert!(delta_fills(base.len(), target_len, data));
    let mut target = vec![0xee; target_len];
    apply_delta(base, &mut target, data);
    target
}

fn pending(decompressed_size: usize) -> Delta {
    Delta {
        data_start: 0,
        data_end: decompressed_size,
        base_size: 0,
        result_size: 0,
        decompressed_size,
        data_offset: 7,
    }
}

#[test]
fn size_of_one_byte() {
    assert_eq!(delta_header_size_ofs(&[0]), (0, 1));
    assert_eq!(delta_header_size_ofs(&[0x7f, 0xff]), (127, 1));
}

#[test]
fn size_of_several_bytes() {
    assert_eq!(delta_header_size_ofs(&[0x80, 0x01]), (128, 2));
    assert_eq!(delta_header_size_ofs(&[0x91, 0x2e, 0xff]), (0x11 + 0x2e * 128, 2));
    assert_eq!(delta_header_size_ofs(&[0xff, 0xff, 0x03]), (65535, 3));
}

#[test]
fn size_that_is_cut_short() {
    assert_eq!(delta_header_size_ofs(&[]), (0, 0));
    assert_eq!(delta_header_size_ofs(&[0x81]), (1, 1));
    assert_eq!(delta_header_size_ofs(&[0x81, 0x82]), (1 + 2 * 128, 2));
    assert_eq!(delta_header_size_ofs(&[0x80; 10]), (0, 10));
}

#[test]
fn size_of_64_bits() {
    let mut bytes = vec![0xff; 9];
    bytes.push(0x01);
    assert_eq!(delta_header_size_ofs(&bytes), (u64::MAX, 10));
}

#[test]
fn size_bits_beyond_the_64th_are_dropped() {
    let mut bytes = vec![0x80; 9];
    bytes.push(0x7f);
    assert_eq!(delta_header_size_ofs(&bytes), (1 << 63, 10));
    bytes[9] = 0x7e;
    assert_eq!(delta_header_size_ofs(&bytes), (0, 10));
}

#[test]
fn size_that_was_written_is_read_back() {
    let numbers: Vec<u64> = vec![0, 1, 127, 128, 300, 16383, 16384, 1 << 35, u64::MAX];
    for n in numbers {
        let mut bytes: Vec<u8> = Vec::new();
        let mut left = n;
        while left >= 128 {
            bytes.push(0x80 | (left % 128) as u8);
            left /= 128;
        }
        bytes.push(left as u8);
        let len = bytes.len();
        bytes.extend_from_slice(&[0xaa, 0x55]);
        assert_eq!(delta_header_size_ofs(&bytes), (n, len));
    }
}

#[test]
fn insert_instruction() {
    assert_eq!(applied(b"", 3, b"\x03abc"), b"abc".to_vec());
    assert_eq!(applied(b"", 3, b"\x01a\x02bc"), b"abc".to_vec());
}

#[test]
fn copy_instruction() {
    // One byte of offset and one of size.
    assert_eq!(applied(b"0123456789", 4, &[0x91, 2, 4]), b"2345".to_vec());
    // Without an offset.
    assert_eq!(applied(b"0123456789", 4, &[0x90, 4]), b"0123".to_vec());
}

#[test]
fn copy_instruction_with_all_arguments() {
    let mut base = vec![0u8; 0x0002_0105];
    base[0x0001_0203] = 1;
    base[0x0001_0204] = 2;
    let size = 0x0000_0102;
    let data = [0xff, 0x03, 0x02, 0x01, 0x00, 0x02, 0x01, 0x00];
    let result = applied(&base, size, &data);
    assert_eq!(&result[..3], &[1, 2, 0]);
    assert_eq!(result.len(), size);
}

#[test]
fn copy_instruction_with_gaps_in_its_arguments() {
    let mut base = vec![0u8; 0x0001_0010];
    base[0x0001_0000] = 9;
    // Only the third byte of the offset, and the first of the size.
    assert_eq!(applied(&base, 2, &[0x94, 0x01, 0x02]), vec![9, 0]);
}

#[test]
fn copy_of_size_zero_copies_65536_bytes() {
    let base: Vec<u8> = (0..0x1_0001u32).map(|i| (i % 251) as u8).collect();
    assert_eq!(applied(&base, 0x1_0000, &[0x81, 1]), base[1..].to_vec());
}

#[test]
fn instructions_one_after_the_other() {
    let base = b"the quick fox";
    let data = [&[0x90, 4][..], b"\x05slow ", &[0x91, 10, 3]].concat();
    assert_eq!(applied(base, 12, &data), b"the slow fox".to_vec());
    assert_eq!(applied(base, 4, &data[..2]), b"the ".to_vec());
    assert_eq!(applied(base, 8, &data[2..]), b"slow fox".to_vec());
}

#[test]
fn output_beyond_the_target_is_dropped() {
    assert_eq!(applied(b"0123456789", 6, &[0x90, 4, 0x91, 5, 5]), b"012356".to_vec());
    assert_eq!(applied(b"0123456789", 0, &[0x90, 4]), b"".to_vec());
}

#[test]
fn deltas_that_do_not_fill() {
    // Reserved instruction.
    assert!(!delta_fills(10, 0, &[0]));
    // Cut short.
    assert!(!delta_fills(10, 0, &[0x91, 2]));
    assert!(!delta_fills(10, 0, &[3, 1, 2]));
    // Copies from beyond the base.
    assert!(delta_fills(10, 4, &[0x91, 6, 4]));
    assert!(!delta_fills(10, 4, &[0x91, 7, 4]));
    assert!(!delta_fills(0xffff, 4, &[0x80]));
    // Produces too little.
    assert!(delta_fills(10, 4, &[0x90, 4]));
    assert!(!delta_fills(10, 5, &[0x90, 4]));
    // Produces nothing.
    assert!(delta_fills(10, 0, &[]));
    assert!(!delta_fills(10, 1, &[]));
}

#[test]
fn sizes_and_instructions_of_a_delta() {
    let mut area = vec![0xff; 3];
    area.extend_from_slice(&[0x80, 0x01, 0x05, 0x90, 0x05]);
    area.extend_from_slice(&[0xff; 20]);
    let noted = note_sizes(pending(5), 3, &area).unwrap();
    assert_eq!(noted.base_size, 128);
    assert_eq!(noted.result_size, 5);
    assert_eq!(noted.data_start, 6);
    assert_eq!(noted.data_end, 8);
    assert_eq!(noted.decompressed_size, 5);
    assert_eq!(noted.data_offset, 7);
}

#[test]
fn sizes_that_take_too_many_bytes() {
    let area = vec![0xff; 30];
    assert!(note_sizes(pending(5), 0, &area).is_none());
    let mut area = vec![0xff; 30];
    area[0] = 1;
    assert!(note_sizes(pending(5), 0, &area).is_none());
}

#[test]
fn deltas_are_applied_from_the_last_to_the_first() {
    // Two buffers of eight bytes, the first of which starts with the base.
    let mut out = b"abc.............".to_vec();
    // The older delta makes "abcd" of "abc", the newer one "dab" of "abcd".
    out.extend_from_slice(&[0x90, 3, 1, b'd']);
    out.extend_from_slice(&[0x91, 3, 1, 0x90, 2]);
    let older = Delta { data_start: 0, data_end: 4, base_size: 3, result_size: 4, ..pending(4) };
    let newer = Delta { data_start: 4, data_end: 9, base_size: 4, result_size: 3, ..pending(5) };
    let chain = DeltaChain::from_deltas(&[newer, older]);
    assert!(deltas_fit(&chain, &out[16..]));
    let mut both = out.clone();
    apply_deltas(&chain, 8, &mut both);
    assert_eq!(both, b"dab".to_vec());

    let chain = DeltaChain::from_deltas(&[older]);
    apply_deltas(&chain, 8, &mut out);
    assert_eq!(out, b"abcd".to_vec());
}

#[test]
fn deltas_that_do_not_fit() {
    let fits = |delta: Delta| deltas_fit(&DeltaChain::from_deltas(&[delta]), &[0x90, 3]);
    let delta = Delta { data_start: 0, data_end: 2, base_size: 3, result_size: 3, ..pending(2) };
    assert!(fits(delta));
    assert!(!fits(Delta { result_size: 4, ..delta }));
    assert!(!fits(Delta { base_size: 2, ..delta }));
    assert!(!fits(Delta { data_end: 3, ..delta }));
    assert!(!fits(Delta { data_start: 2, data_end: 1, ..delta }));
}

#[test]
fn chain_of_more_deltas_than_are_stored_in_place() {
    let n = 25usize;
    // Every delta copies its base and appends its number.
    let mut deltas: Vec<Delta> = Vec::new();
    let mut instructions: Vec<u8> = Vec::new();
    for i in 0..n {
        let start = instructions.len();
        instructions.extend_from_slice(&[0x90, (i + 1) as u8, 1, (i + 1) as u8]);
        deltas.push(Delta {
            data_start: start,
            data_end: start + 4,
            base_size: i + 1,
            result_size: i + 2,
            ..pending(4)
        });
    }
    deltas.reverse();
    let chain = DeltaChain::from_deltas(&deltas);
    let biggest = n + 1;
    let mut out = vec![0u8; 2 * biggest];
    out.extend_from_slice(&instructions);
    assert!(deltas_fit(&chain, &instructions));
    apply_deltas(&chain, biggest, &mut out);
    assert_eq!(out, (0..=n as u8).collect::<Vec<u8>>());
}

#[test]
fn buffers_are_made_before_the_deltas() {
    let mut out = b"basedelta".to_vec();
    lay_out(&mut out, 4, 6, 5);
    assert_eq!(out, b"basedelta\0\0\0delta".to_vec());

    let mut out = b"basedelta".to_vec();
    lay_out(&mut out, 4, 3, 5);
    assert_eq!(out, b"basededelta".to_vec());
}
