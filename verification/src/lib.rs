//! Decoding of objects stored in git packs.
//!
//! A pack stores each object either as a whole, or as a delta to another object. [`decode`] has the
//! entry points, as methods of a [`file::File`]. What they return is stated with the functions
//! themselves.
//!
//! What holds of them together is stated apart from them: of how a pack is written in [`encoding`], of the
//! buffer in which an object is put together in [`layout`], of chains of deltas in [`guarantees`] and
//! [`laws`], and of calls of the functions in [`calls`].
pub mod assemble;
pub mod cache;
pub mod calls;
pub mod chain;
pub mod decode;
pub mod delta;
pub mod encoding;
pub mod entry;
pub mod file;
pub mod guarantees;
pub mod laws;
pub mod layout;
pub mod object;
pub mod zlib;
