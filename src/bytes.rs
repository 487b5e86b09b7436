use vstd::prelude::*;

use byteorder::{BigEndian, ByteOrder};

verus! {

/// The big-endian 16-bit value held by `b[at]` and `b[at + 1]`.
pub open spec fn be16(b: Seq<u8>, at: int) -> int {
    b[at] as int * 256 + b[at + 1] as int
}

/// The two big-endian bytes of `n`.
pub open spec fn be16_bytes(n: u16) -> Seq<u8> {
    seq![(n / 256) as u8, (n % 256) as u8]
}

/// Relies on byteorder's `BigEndian::read_u16`: it reads the first two bytes
/// of the slice, most significant first, and panics on a shorter slice.
#[verifier::external_body]
pub(crate) fn read_be_u16(b: &[u8], at: usize) -> (r: u16)
    requires
        at + 2 <= b@.len(),
    ensures
        r == be16(b@, at as int),
{
    BigEndian::read_u16(&b[at..])
}

/// Relies on byteorder's `BigEndian::write_u16`: it writes the two bytes of
/// `n`, most significant first, to the start of the slice and leaves the rest
/// alone; it panics on a shorter slice.
#[verifier::external_body]
pub(crate) fn write_be_u16(b: &mut Vec<u8>, at: usize, n: u16)
    requires
        at + 2 <= old(b)@.len(),
    ensures
        final(b)@ == old(b)@.update(at as int, (n / 256) as u8).update(at + 1, (n % 256) as u8),
{
    BigEndian::write_u16(&mut b[at..], n)
}

} // verus!
