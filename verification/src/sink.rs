//! The bit sink: a `bitbit::BitWriter` over a growable byte buffer, seen by
//! the verifier as the sequence of bits written into it so far.

use vstd::prelude::*;
use crate::bits::{bits_of, byte_bits, bytes_bits};

verus! {

/// A bit-granular output stream backed by `bitbit::BitWriter` over an owned
/// byte buffer. The buffer holds every completed byte; up to seven pending
/// bits live inside the writer until a byte fills up.
#[verifier::external_body]
pub struct BitSink {
    inner: bitbit::BitWriter<Vec<u8>>,
}

/// The bits written into the sink so far, in order.
pub uninterp spec fn sink_bits(w: BitSink) -> Seq<bool>;

/// Relies on bitbit::BitWriter::new: a fresh writer has written nothing.
#[verifier::external_body]
pub fn new_sink() -> (w: BitSink)
    ensures
        sink_bits(w) == Seq::<bool>::empty(),
{
    BitSink { inner: bitbit::BitWriter::new(Vec::new()) }
}

/// Relies on bitbit::BitWriter::write_bits: appends the low `nbits` bits of
/// `val`, most significant first. The callee clamps `nbits` above 32 and
/// underflows on 0, so those are kept out; a write into a `Vec` cannot fail.
#[verifier::external_body]
pub fn sink_write_bits(w: &mut BitSink, val: u32, nbits: usize)
    requires
        1 <= nbits <= 32,
    ensures
        sink_bits(*final(w)) == sink_bits(*old(w)) + bits_of(val as nat, nbits as nat),
{
    let _ = w.inner.write_bits(val, nbits);
}

/// Relies on bitbit::BitWriter::write_byte: appends the byte's eight bits,
/// most significant first; a write into a `Vec` cannot fail.
#[verifier::external_body]
pub fn sink_write_byte(w: &mut BitSink, byte: u8)
    ensures
        sink_bits(*final(w)) == sink_bits(*old(w)) + byte_bits(byte),
{
    let _ = w.inner.write_byte(byte);
}

/// Relies on bitbit::BitWriter::get_ref: once the bit count is a whole
/// number of bytes, every bit written sits flushed, in order, in the
/// underlying buffer.
#[verifier::external_body]
pub fn sink_bytes(w: &mut BitSink) -> (out: Vec<u8>)
    requires
        sink_bits(*old(w)).len() % 8 == 0,
    ensures
        sink_bits(*final(w)) == sink_bits(*old(w)),
        bytes_bits(out@) == sink_bits(*old(w)),
{
    w.inner.get_ref().clone()
}

} // verus!
