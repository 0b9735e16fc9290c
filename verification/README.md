# git_pack_decode

Decodes the objects in a git pack: decompresses entries, follows chains of deltas to the object they
are based on, and applies the deltas to it. Written and proved in Verus.

- `src/object.rs`: kinds and ids of objects
- `src/entry.rs`: the headers of entries
- `src/file.rs`: packs, and where their entries are
- `src/delta.rs`: the delta format
- `src/zlib.rs`: decompression, by `flate2`
- `src/chain.rs`: the list of deltas of a chain, a `smallvec`
- `src/cache.rs`: caches for decoded objects
- `src/assemble.rs`: the buffer in which an object is put together
- `src/decode.rs`: decoding of entries
- `src/laws.rs`: what holds of all of it together
- `app/`: the same for callers that expect panics, errors that can be displayed and results that can
  be stored

`File::decode_entry` asks for a pack that does not contradict itself; `File::try_decode_entry` asks for
nothing, and returns `None` where `File::decode_entry` could not be called.

Two things are taken on trust: that `flate2::Decompress` gives the same result for the same input and
the same room, and that `smallvec::SmallVec` keeps what it is given, in order.
