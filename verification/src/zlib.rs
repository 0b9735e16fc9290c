//! Decompression of the zlib streams that a pack stores its data in.
use vstd::prelude::*;

verus! {

/// What can go wrong when decompressing.
#[derive(Debug, PartialEq, Eq, Clone, Copy)]
pub enum Error {
    /// The bytes are no zlib stream, or one that needs a dictionary.
    Inflate,
}

/// An error of `flate2`, of which nothing is known but that it occurred.
#[verifier::external_type_specification]
#[verifier::external_body]
pub struct ExDecompressError(flate2::DecompressError);

/// What a new decompressor makes of `input` when it has room for `room` bytes and is run once: how
/// many bytes of `input` it consumed, or `None` if it failed, and what it wrote.
pub uninterp spec fn inflated(input: Seq<u8>, room: nat) -> (Option<nat>, Seq<u8>);

/// The bytes of `buf` from `at` on replaced by as many of `bytes`.
pub open spec fn overwritten(buf: Seq<u8>, at: int, bytes: Seq<u8>) -> Seq<u8> {
    buf.take(at) + bytes + buf.skip(at + bytes.len())
}

/// Runs `flate2::Decompress::decompress` once, with the backend that is written in Rust, on a new
/// decompressor that expects a zlib header and is not told that the stream has to end.
///
/// It is taken to depend on `input` and on the length of `out` alone: to write its output to the
/// start of `out`, also where it fails after that, to leave the rest of `out` as it was, and to
/// return how many bytes it consumed of `input` and how many it wrote.
#[verifier::external_body]
fn decompress(input: &[u8], out: &mut [u8]) -> (r: Result<(usize, usize), flate2::DecompressError>)
    ensures
        ({
            let bytes = inflated(input@, old(out)@.len()).1;
            bytes.len() <= old(out)@.len() && final(out)@ == overwritten(old(out)@, 0, bytes)
        }),
        match r {
            Ok((consumed, written)) => {
                &&& inflated(input@, old(out)@.len()).0 == Some(consumed as nat)
                &&& written == inflated(input@, old(out)@.len()).1.len()
                &&& consumed <= input@.len()
            },
            Err(_) => inflated(input@, old(out)@.len()).0 is None,
        },
{
    let mut state = flate2::Decompress::new(true);
    match state.decompress(input, out, flate2::FlushDecompress::None) {
        Ok(_) => Ok((state.total_in() as usize, state.total_out() as usize)),
        Err(err) => Err(err),
    }
}

/// Decompresses the stream at the start of `input` into `out`, as far as it has room.
///
/// Returns how many bytes of `input` were consumed, and how many of `out` were written.
pub fn inflate_once(input: &[u8], out: &mut [u8]) -> (r: Result<(usize, usize), Error>)
    ensures
        inflated(input@, old(out)@.len()).1.len() <= old(out)@.len(),
        final(out)@ == overwritten(old(out)@, 0, inflated(input@, old(out)@.len()).1),
        match r {
            Ok((consumed, written)) => {
                &&& inflated(input@, old(out)@.len()).0 == Some(consumed as nat)
                &&& written == inflated(input@, old(out)@.len()).1.len()
                &&& consumed <= input@.len()
            },
            Err(err) => inflated(input@, old(out)@.len()).0 is None && err == Error::Inflate,
        },
{
    match decompress(input, out) {
        Ok(counts) => Ok(counts),
        Err(_) => Err(Error::Inflate),
    }
}

} // verus!
