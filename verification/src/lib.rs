//! An adaptive-dictionary (LZ78-family) byte-stream compressor.
//!
//! The library builds one or more phrase tries over an input byte sequence,
//! where each trie node records a previously seen phrase as a reference to its
//! parent phrase plus one literal extension byte, and serializes the tries
//! into a bit-packed stream whose parent-index fields grow in width with the
//! node count.

pub mod bits;
pub mod builder;
pub mod encoder;
pub mod mode;
mod sink;
pub mod trie;
