//! The delta format: the two sizes that start a delta, and the instructions that follow them.
use vstd::arithmetic::power2::{
    lemma2_to64, lemma2_to64_rest, lemma_pow2_adds, lemma_pow2_strictly_increases, pow2,
};
use vstd::bits::lemma_u64_shl_is_mul;
use vstd::prelude::*;
use vstd::slice::slice_subrange;

verus! {

/// The most bytes that a size may take: the payload of an eleventh byte has no place in 64 bits.
pub const MAX_SIZE_BYTES: usize = 10;

/// How many bytes the size at the start of `d` takes. Every byte of it but the last has its high
/// bit set; a size that `d` cuts short takes all of `d`.
pub open spec fn size_len(d: Seq<u8>) -> nat
    decreases d.len(),
{
    if d.len() == 0 {
        0
    } else if d[0] < 0x80 {
        1
    } else {
        1 + size_len(d.skip(1))
    }
}

/// The number that the size at the start of `d` stands for: groups of seven bits, the least
/// significant one first.
pub open spec fn size_value(d: Seq<u8>) -> nat
    decreases d.len(),
{
    if d.len() == 0 {
        0
    } else if d[0] < 0x80 {
        d[0] as nat
    } else {
        (d[0] - 0x80) as nat + 128 * size_value(d.skip(1))
    }
}

/// What is left of a number in 64 bits.
pub open spec fn low_64(n: nat) -> u64 {
    (n % 0x1_0000_0000_0000_0000) as u64
}

/// A size takes at least a byte, and no more than there are.
pub proof fn lemma_size_len_bounds(d: Seq<u8>)
    ensures
        size_len(d) <= d.len(),
        d.len() > 0 ==> size_len(d) >= 1,
    decreases d.len(),
{
    if d.len() > 0 && d[0] >= 0x80 {
        lemma_size_len_bounds(d.skip(1));
    }
}

/// A group of seven bits joins the `k` groups below it, none of whose bits it shares.
proof fn lemma_add_group(size: u64, payload: u64, k: nat)
    requires
        k <= 8,
        payload < 128,
        size < pow2(7 * k),
    ensures
        size | (payload << ((7 * k) as u64)) == size + payload * pow2(7 * k),
        size + payload * pow2(7 * k) < pow2(7 * (k + 1)),
{
    let s = (7 * k) as u64;
    let unit = pow2(7 * k);
    lemma_pow2_adds(7 * k, 7);
    lemma2_to64();
    lemma2_to64_rest();
    if k < 8 {
        lemma_pow2_strictly_increases(7 * k, 56);
    }
    assert(payload * unit + unit <= 128 * unit) by (nonlinear_arith)
        requires
            payload < 128,
    ;
    assert(1 * unit == unit);
    lemma_u64_shl_is_mul(payload, s);
    lemma_u64_shl_is_mul(1, s);
    assert(size | (payload << s) == size + (payload << s)) by (bit_vector)
        requires
            s <= 56,
            payload < 128,
            size < (1u64 << s),
    ;
}

/// Of the tenth group only the lowest bit is left in 64 bits, and nothing of what follows it.
proof fn lemma_add_last_group(size: u64, payload: u64, rest: nat)
    requires
        payload < 128,
        size < pow2(63),
    ensures
        size | (payload << 63u64) == low_64(size as nat + pow2(63) * (payload as nat + 128 * rest)),
{
    lemma2_to64();
    lemma2_to64_rest();
    assert(size | (payload << 63u64) == size + (payload % 2) * 0x8000_0000_0000_0000) by (bit_vector)
        requires
            size < 0x8000_0000_0000_0000u64,
    ;
    let high = (payload / 2) as nat + 64 * rest;
    assert(size as nat + pow2(63) * (payload as nat + 128 * rest) == size + (payload % 2)
        * 0x8000_0000_0000_0000 + 0x1_0000_0000_0000_0000 * high) by (nonlinear_arith)
        requires
            pow2(63) == 0x8000_0000_0000_0000,
            high == (payload / 2) as nat + 64 * rest,
    ;
}

/// Reads the size at the start of `d`: the number, and how many bytes it took.
///
/// Bits beyond the 64th are dropped.
pub fn delta_header_size_ofs(d: &[u8]) -> (r: (u64, usize))
    requires
        size_len(d@) <= MAX_SIZE_BYTES,
    ensures
        r.0 == low_64(size_value(d@)),
        r.1 == size_len(d@),
{
    let mut i: u32 = 0;
    let mut size: u64 = 0;
    let mut consumed: usize = 0;
    let mut more = true;
    proof {
        lemma2_to64();
        assert(d@.skip(0) == d@);
    }
    while more && consumed < d.len()
        invariant
            consumed <= d@.len(),
            size_len(d@) <= MAX_SIZE_BYTES,
            !more || consumed > 9 ==> size == low_64(size_value(d@)),
            !more ==> consumed == size_len(d@),
            more ==> i == 7 * consumed,
            more ==> size_len(d@) == consumed + size_len(d@.skip(consumed as int)),
            more && consumed <= 9 ==> {
                &&& size < pow2(7 * consumed as nat)
                &&& size_value(d@) == size + pow2(7 * consumed as nat) * size_value(
                    d@.skip(consumed as int),
                )
            },
        decreases d@.len() - consumed,
    {
        let ghost k = consumed as nat;
        let ghost before = size;
        let cmd = d[consumed];
        let ghost rest = d@.skip(k as int);
        assert(rest.skip(1) == d@.skip(k as int + 1));
        assert(size_len(rest) >= 1);
        let payload: u64 = cmd as u64 & 0x7f;
        assert(payload < 128 && payload == if cmd < 0x80 { cmd as u64 } else { (cmd - 0x80) as u64 })
            by (bit_vector)
            requires
                payload == cmd as u64 & 0x7f,
        ;
        assert((cmd & 0x80 == 0) == (cmd < 0x80)) by (bit_vector);
        consumed += 1;
        size |= payload << i;
        proof {
            let tail = if cmd < 0x80 { 0nat } else { size_value(rest.skip(1)) };
            if k <= 8 {
                lemma_add_group(before, payload, k);
                lemma_pow2_adds(7 * k, 7);
                lemma2_to64();
                let unit = pow2(7 * k);
                assert(unit * (payload as nat + 128 * tail) == payload * unit + (unit * 128) * tail)
                    by (nonlinear_arith);
            } else {
                lemma_add_last_group(before, payload, tail);
            }
        }
        i += 7;
        if cmd & 0x80 == 0 {
            proof {
                lemma2_to64();
                lemma2_to64_rest();
                if k < 8 {
                    lemma_pow2_strictly_increases(7 * (k + 1), 63);
                }
            }
            more = false;
        }
    }
    proof {
        if more && consumed <= 9 {
            assert(pow2(7 * consumed as nat) * 0 == 0);
        }
    }
    (size, consumed)
}

/// Tells whether the size at the start of `d` takes no more bytes than a size may.
pub(crate) fn size_is_short(d: &[u8]) -> (short: bool)
    ensures
        short == (size_len(d@) <= MAX_SIZE_BYTES),
{
    let mut n: usize = 0;
    assert(d@.skip(0) == d@);
    while n < d.len() && n <= MAX_SIZE_BYTES
        invariant
            n <= d@.len(),
            n <= MAX_SIZE_BYTES + 1,
            size_len(d@) == n + size_len(d@.skip(n as int)),
        decreases d@.len() - n,
    {
        assert(d@.skip(n as int).skip(1) == d@.skip(n + 1));
        if d[n] < 0x80 {
            return n < MAX_SIZE_BYTES;
        }
        n += 1;
    }
    n <= MAX_SIZE_BYTES
}

/// How many argument bytes a flag of a copy instruction announces.
pub open spec fn given(cmd: u8, flag: u8) -> nat {
    if cmd & flag != 0 {
        1
    } else {
        0
    }
}

/// The argument byte that `flag` announces, found at `at`; zero where it is not announced.
pub open spec fn argument(cmd: u8, flag: u8, args: Seq<u8>, at: nat) -> nat {
    if cmd & flag != 0 {
        args[at as int] as nat
    } else {
        0
    }
}

/// How many argument bytes make up the offset of a copy instruction.
pub open spec fn offset_args(cmd: u8) -> nat {
    given(cmd, 0x01) + given(cmd, 0x02) + given(cmd, 0x04) + given(cmd, 0x08)
}

/// How many argument bytes a copy instruction has in all.
pub open spec fn copy_args(cmd: u8) -> nat {
    offset_args(cmd) + given(cmd, 0x10) + given(cmd, 0x20) + given(cmd, 0x40)
}

/// Where in the base a copy instruction starts to read: four bytes, the least significant one
/// first, of which only those announced in `cmd` are stored.
pub open spec fn copy_offset(cmd: u8, args: Seq<u8>) -> nat {
    let b = given(cmd, 0x01);
    let c = b + given(cmd, 0x02);
    let d = c + given(cmd, 0x04);
    argument(cmd, 0x01, args, 0) + 0x100 * argument(cmd, 0x02, args, b) + 0x1_0000 * argument(
        cmd,
        0x04,
        args,
        c,
    ) + 0x100_0000 * argument(cmd, 0x08, args, d)
}

/// How many bytes a copy instruction copies: three bytes, stored like the offset, right after it;
/// zero stands for 65536.
pub open spec fn copy_size(cmd: u8, args: Seq<u8>) -> nat {
    let a = offset_args(cmd);
    let b = a + given(cmd, 0x10);
    let c = b + given(cmd, 0x20);
    let size = argument(cmd, 0x10, args, a) + 0x100 * argument(cmd, 0x20, args, b) + 0x1_0000
        * argument(cmd, 0x40, args, c);
    if size == 0 {
        0x1_0000
    } else {
        size
    }
}

/// What the instructions in `data` produce from `base`, or `None` where they are malformed: where
/// an instruction is the reserved zero, is cut short, or copies from beyond the base.
pub open spec fn delta_output(base: Seq<u8>, data: Seq<u8>) -> Option<Seq<u8>>
    decreases data.len(),
{
    if data.len() == 0 {
        Some(Seq::empty())
    } else {
        let cmd = data[0];
        let rest = data.skip(1);
        if cmd >= 0x80 {
            let ofs = copy_offset(cmd, rest);
            let size = copy_size(cmd, rest);
            if copy_args(cmd) <= rest.len() && ofs + size <= base.len() {
                match delta_output(base, rest.skip(copy_args(cmd) as int)) {
                    Some(tail) => Some(base.subrange(ofs as int, (ofs + size) as int) + tail),
                    None => None,
                }
            } else {
                None
            }
        } else if 0 < cmd <= rest.len() {
            match delta_output(base, rest.skip(cmd as int)) {
                Some(tail) => Some(rest.take(cmd as int) + tail),
                None => None,
            }
        } else {
            None
        }
    }
}

/// Four bytes put together to a number, and three.
proof fn lemma_join_bytes(a: u32, b: u32, c: u32, d: u32)
    requires
        a < 0x100,
        b < 0x100,
        c < 0x100,
        d < 0x100,
    ensures
        a | (b << 8u32) | (c << 16u32) | (d << 24u32) == a + 0x100 * b + 0x1_0000 * c + 0x100_0000 * d,
        a | (b << 8u32) | (c << 16u32) == a + 0x100 * b + 0x1_0000 * c,
{
    assert(a | (b << 8u32) | (c << 16u32) | (d << 24u32) == a + 0x100 * b + 0x1_0000 * c
        + 0x100_0000 * d) by (bit_vector)
        requires
            a < 0x100,
            b < 0x100,
            c < 0x100,
            d < 0x100,
    ;
    assert(a | (b << 8u32) | (c << 16u32) == a + 0x100 * b + 0x1_0000 * c) by (bit_vector)
        requires
            a < 0x100,
            b < 0x100,
            c < 0x100,
    ;
}

/// Reads the byte at `*i` and steps over it if `cmd` announces it with `flag`; else zero.
fn read_argument(cmd: u8, flag: u8, data: &[u8], i: &mut usize) -> (value: u32)
    requires
        *old(i) + given(cmd, flag) <= data@.len(),
    ensures
        *final(i) == *old(i) + given(cmd, flag),
        value == argument(cmd, flag, data@, *old(i) as nat),
        value < 0x100,
{
    if cmd & flag != 0 {
        let value = data[*i] as u32;
        *i += 1;
        value
    } else {
        0
    }
}

/// Reads the offset and the size of the copy instruction `cmd` from its arguments at `*i`.
fn read_copy(cmd: u8, data: &[u8], i: &mut usize) -> (r: (u32, u32))
    requires
        *old(i) + copy_args(cmd) <= data@.len(),
    ensures
        *final(i) == *old(i) + copy_args(cmd),
        r.0 == copy_offset(cmd, data@.skip(*old(i) as int)),
        r.1 == copy_size(cmd, data@.skip(*old(i) as int)),
{
    let a = read_argument(cmd, 0b0000_0001, data, i);
    let b = read_argument(cmd, 0b0000_0010, data, i);
    let c = read_argument(cmd, 0b0000_0100, data, i);
    let d = read_argument(cmd, 0b0000_1000, data, i);
    let ofs: u32 = a | (b << 8u32) | (c << 16u32) | (d << 24u32);
    proof {
        lemma_join_bytes(a, b, c, d);
    }
    let a = read_argument(cmd, 0b0001_0000, data, i);
    let b = read_argument(cmd, 0b0010_0000, data, i);
    let c = read_argument(cmd, 0b0100_0000, data, i);
    let mut size: u32 = a | (b << 8u32) | (c << 16u32);
    proof {
        lemma_join_bytes(a, b, c, 0);
    }
    if size == 0 {
        size = 0x10000;
    }
    (ofs, size)
}

/// Copies as much of `from` into `target` as there is room for beyond the first `*at` bytes, and
/// moves `*at` past it.
fn write_some(target: &mut [u8], at: &mut usize, from: &[u8])
    requires
        *old(at) <= old(target)@.len(),
    ensures
        final(target)@.len() == old(target)@.len(),
        *final(at) <= final(target)@.len(),
        *old(at) <= *final(at),
        *final(at) - *old(at) <= from@.len(),
        *final(at) < final(target)@.len() ==> *final(at) == *old(at) + from@.len(),
        final(target)@.take(*final(at) as int) == old(target)@.take(*old(at) as int) + from@.take(
            *final(at) - *old(at),
        ),
{
    let ghost start = *at;
    let ghost first = target@;
    let mut k: usize = 0;
    while k < from.len() && *at < target.len()
        invariant
            target@.len() == first.len(),
            k <= from@.len(),
            start <= *at <= target@.len(),
            *at == start + k,
            target@.take(*at as int) == first.take(start as int) + from@.take(k as int),
        decreases from@.len() - k,
    {
        let ghost before = target@;
        target[*at] = from[k];
        *at += 1;
        k += 1;
        proof {
            assert(target@.take(*at as int) == before.take(*at - 1).push(from@[k - 1]));
            assert(from@.take(k as int) == from@.take(k - 1).push(from@[k - 1]));
        }
    }
}

/// What is written of `output` after the next `piece` of it, where `tail` of it was missing before
/// that and `next` is missing now. Once all `len` bytes are written, nothing more is.
proof fn lemma_written(
    output: Seq<u8>,
    tail: Seq<u8>,
    piece: Seq<u8>,
    next: Seq<u8>,
    before: int,
    after: int,
    len: int,
)
    requires
        tail.len() <= output.len(),
        output.skip(output.len() - tail.len()) == tail,
        tail == piece + next,
        0 <= before <= after <= len <= output.len(),
        after - before <= piece.len(),
        before < len ==> before == output.len() - tail.len(),
        after < len ==> after == before + piece.len(),
    ensures
        output.skip(output.len() - next.len()) == next,
        after < len ==> after == output.len() - next.len(),
        output.take(after) == output.take(before) + piece.take(after - before),
{
    let done = output.len() - tail.len();
    assert forall|j: int| 0 <= j < tail.len() implies tail[j] == output[done + j] by {
        assert(output.skip(done)[j] == output[done + j]);
    }
    assert(output.skip(output.len() - next.len()) =~= next) by {
        assert forall|j: int| 0 <= j < next.len() implies next[j] == output[output.len() - next.len()
            + j] by {
            assert(tail[piece.len() + j] == next[j]);
        }
    }
    assert(output.take(after) =~= output.take(before) + piece.take(after - before)) by {
        assert forall|j: int| before <= j < after implies output[j] == piece[j - before] by {
            assert(tail[j - before] == piece[j - before]);
        }
    }
}

/// Applies the instructions in `data` to `base` and fills `target` with what they produce.
///
/// Where they produce more than `target` can hold, the rest is dropped.
pub fn apply_delta(base: &[u8], target: &mut [u8], data: &[u8])
    requires
        delta_output(base@, data@) matches Some(output) && output.len() >= old(target)@.len(),
    ensures
        final(target)@ == delta_output(base@, data@)->0.take(old(target)@.len() as int),
{
    let ghost output = delta_output(base@, data@)->0;
    let ghost len = target@.len();
    let mut written: usize = 0;
    let mut i: usize = 0;
    proof {
        assert(data@.skip(0) == data@);
        assert(target@.take(0) == output.take(0));
    }
    while i < data.len()
        invariant
            i <= data@.len(),
            target@.len() == len,
            len <= output.len(),
            written <= len,
            delta_output(base@, data@.skip(i as int)) matches Some(tail) && tail.len() <= output.len()
                && output.skip(output.len() - tail.len()) == tail && (written < len ==> written
                == output.len() - tail.len()),
            target@.take(written as int) == output.take(written as int),
        decreases data@.len() - i,
    {
        let ghost start = i as int;
        let ghost tail = delta_output(base@, data@.skip(start))->0;
        let ghost done = output.len() - tail.len();
        let ghost old_written = written;
        let cmd = data[i];
        i += 1;
        assert(data@.skip(start).skip(1) == data@.skip(start + 1));
        assert((cmd & 0b1000_0000 != 0) == (cmd >= 0x80)) by (bit_vector);
        let ghost piece;
        if cmd & 0b1000_0000 != 0 {
            let (ofs, size) = read_copy(cmd, data, &mut i);
            let ofs = ofs as usize;
            assert(ofs + size <= base.len());
            let from = slice_subrange(base, ofs, ofs + size as usize);
            assert(data@.skip(start + 1).skip(copy_args(cmd) as int) == data@.skip(i as int));
            proof {
                piece = from@;
            }
            write_some(target, &mut written, from);
        } else {
            let size = cmd as usize;
            let from = slice_subrange(data, i, i + size);
            i += size;
            assert(data@.skip(start + 1).skip(cmd as int) == data@.skip(i as int));
            assert(data@.skip(start + 1).take(cmd as int) == from@);
            proof {
                piece = from@;
            }
            write_some(target, &mut written, from);
        }
        proof {
            let next = delta_output(base@, data@.skip(i as int))->0;
            lemma_written(output, tail, piece, next, old_written as int, written as int, len as int);
        }
    }
    proof {
        assert(target@.take(written as int) == target@);
    }
}

/// How much the instructions in `data` produce from a base of `base_len` bytes, or `None` where they
/// are malformed: the length of `delta_output`, which the content of the base has no part in.
pub open spec fn delta_output_len(base_len: nat, data: Seq<u8>) -> Option<nat>
    decreases data.len(),
{
    if data.len() == 0 {
        Some(0)
    } else {
        let cmd = data[0];
        let rest = data.skip(1);
        if cmd >= 0x80 {
            let size = copy_size(cmd, rest);
            if copy_args(cmd) <= rest.len() && copy_offset(cmd, rest) + size <= base_len {
                match delta_output_len(base_len, rest.skip(copy_args(cmd) as int)) {
                    Some(tail) => Some(size + tail),
                    None => None,
                }
            } else {
                None
            }
        } else if 0 < cmd <= rest.len() {
            match delta_output_len(base_len, rest.skip(cmd as int)) {
                Some(tail) => Some(cmd as nat + tail),
                None => None,
            }
        } else {
            None
        }
    }
}

/// Whether a delta is well-formed and how much it produces depends on the length of its base alone.
pub proof fn lemma_delta_output_len(base: Seq<u8>, data: Seq<u8>)
    ensures
        delta_output_len(base.len(), data) is Some <==> delta_output(base, data) is Some,
        delta_output(base, data) is Some ==> delta_output_len(base.len(), data) == Some(
            delta_output(base, data)->0.len(),
        ),
    decreases data.len(),
{
    if data.len() > 0 {
        let cmd = data[0];
        let rest = data.skip(1);
        if cmd >= 0x80 {
            if copy_args(cmd) <= rest.len() {
                lemma_delta_output_len(base, rest.skip(copy_args(cmd) as int));
            }
        } else if 0 < cmd <= rest.len() {
            lemma_delta_output_len(base, rest.skip(cmd as int));
        }
    }
}

/// How many argument bytes the copy instruction `cmd` has.
fn count_copy_args(cmd: u8) -> (n: usize)
    ensures
        n == copy_args(cmd),
{
    let mut n: usize = 0;
    if cmd & 0x01 != 0 {
        n += 1;
    }
    if cmd & 0x02 != 0 {
        n += 1;
    }
    if cmd & 0x04 != 0 {
        n += 1;
    }
    if cmd & 0x08 != 0 {
        n += 1;
    }
    if cmd & 0x10 != 0 {
        n += 1;
    }
    if cmd & 0x20 != 0 {
        n += 1;
    }
    if cmd & 0x40 != 0 {
        n += 1;
    }
    n
}

/// Tells whether the instructions in `data` can be applied to a base of `base_len` bytes and fill a
/// target of `target_len` bytes, without running them.
pub fn delta_fills(base_len: usize, target_len: usize, data: &[u8]) -> (fills: bool)
    ensures
        fills == (delta_output_len(base_len as nat, data@) matches Some(n) && n >= target_len),
{
    let mut missing: usize = target_len;
    let mut i: usize = 0;
    let ghost mut produced: nat = 0;
    assert(data@.skip(0) == data@);
    while i < data.len()
        invariant
            i <= data@.len(),
            missing == if produced < target_len { target_len - produced } else { 0 },
            delta_output_len(base_len as nat, data@) is Some <==> delta_output_len(
                base_len as nat,
                data@.skip(i as int),
            ) is Some,
            delta_output_len(base_len as nat, data@.skip(i as int)) matches Some(tail)
                ==> delta_output_len(base_len as nat, data@) == Some(produced + tail),
        decreases data@.len() - i,
    {
        let ghost start = i as int;
        let cmd = data[i];
        i += 1;
        assert(data@.skip(start).skip(1) == data@.skip(start + 1));
        assert((cmd & 0b1000_0000 != 0) == (cmd >= 0x80)) by (bit_vector);
        if cmd & 0b1000_0000 != 0 {
            if count_copy_args(cmd) > data.len() - i {
                return false;
            }
            let (ofs, size) = read_copy(cmd, data, &mut i);
            if ofs as u64 + size as u64 > base_len as u64 {
                return false;
            }
            assert(data@.skip(start + 1).skip(copy_args(cmd) as int) == data@.skip(i as int));
            missing = missing.saturating_sub(size as usize);
            proof {
                produced = produced + size as nat;
            }
        } else {
            if cmd == 0 || cmd as usize > data.len() - i {
                return false;
            }
            i += cmd as usize;
            assert(data@.skip(start + 1).skip(cmd as int) == data@.skip(i as int));
            missing = missing.saturating_sub(cmd as usize);
            proof {
                produced = produced + cmd as nat;
            }
        }
    }
    missing == 0
}

} // verus!
