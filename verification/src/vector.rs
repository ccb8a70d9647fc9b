//! Vector register values, held as their bytes in memory order.

use crate::endian::{le_byte, le_value};
use vstd::prelude::*;

verus! {

/// Bytes moved by one 128-bit operation.
pub const SSE_VECTOR_SIZE: usize = 16;

/// Bytes moved by one 256-bit operation.
pub const AVX_VECTOR_SIZE: usize = 32;

/// The value of a vector register of `BYTES` bytes.
#[derive(Clone, Copy, Debug)]
pub struct Vector<const BYTES: usize> {
    bytes: [u8; BYTES],
}

/// A 128-bit register.
pub type Vector128 = Vector<SSE_VECTOR_SIZE>;

/// A 256-bit register.
pub type Vector256 = Vector<AVX_VECTOR_SIZE>;

/// Lane `lane` of a register image cut into lanes of `width` bytes, as an
/// unsigned integer.
pub open spec fn lane_value(bytes: Seq<u8>, width: nat, lane: int) -> nat {
    le_value(bytes.subrange(lane * width, lane * width + width))
}

/// `value` wrapped into `[0, bound)`: what masking a lane with
/// `bound - 1` leaves when `bound` is a power of two.
pub open spec fn wrapped(value: nat, bound: nat) -> nat {
    value % bound
}

/// The register image in which every lane of `width` bytes is wrapped into
/// `[0, bound)`.
pub open spec fn masked_lanes(bytes: Seq<u8>, width: nat, bound: nat) -> Seq<u8> {
    Seq::new(
        bytes.len(),
        |i: int|
            le_byte(
                wrapped(lane_value(bytes, width, i / (width as int)), bound),
                (i % (width as int)) as nat,
            ),
    )
}

/// A lane of one byte has the value of that byte.
pub proof fn lemma_single_byte_lane(bytes: Seq<u8>, lane: int)
    requires
        0 <= lane < bytes.len(),
    ensures
        lane_value(bytes, 1, lane) == bytes[lane],
{
    let one = bytes.subrange(lane * 1, lane * 1 + 1);
    assert(one.skip(1).len() == 0);
    assert(le_value(one.skip(1)) == 0);
    assert(le_value(one) == one[0] as nat + 256 * le_value(one.skip(1)));
}

impl<const BYTES: usize> Vector<BYTES> {
    /// The register's bytes, lowest address first.
    pub closed spec fn view(self) -> Seq<u8> {
        self.bytes@
    }

    /// A register always holds `BYTES` bytes.
    pub proof fn lemma_len(self)
        ensures
            self@.len() == BYTES,
    {
    }

    /// The register that holds `bytes`.
    pub fn from_bytes(bytes: [u8; BYTES]) -> (v: Self)
        ensures
            v@ == bytes@,
    {
        Vector { bytes }
    }

    /// The bytes held.
    pub fn to_bytes(&self) -> (bytes: [u8; BYTES])
        ensures
            bytes@ == self@,
    {
        self.bytes
    }

    /// The bytes held, borrowed.
    pub fn as_slice(&self) -> (bytes: &[u8])
        ensures
            bytes@ == self@,
            bytes@.len() == BYTES,
    {
        self.bytes.as_slice()
    }
}

} // verus!
