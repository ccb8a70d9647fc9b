//! Integers that carry a declared upper bound in their type.
//!
//! A value of one of these types is strictly below its `UPPER_BOUND` at all
//! times. The bound is a type invariant: constructors establish it and no
//! operation can break it.

use crate::element::Element;
use crate::endian::{le_byte_of, le_bytes};
use crate::pow2::lemma_mask_is_mod;
use vstd::arithmetic::power2::is_pow2;
use vstd::prelude::*;

verus! {

/// An element index strictly below `UPPER_BOUND`.
#[derive(Clone, Copy, Debug)]
pub struct BoundedUsize<const UPPER_BOUND: usize> {
    value: usize,
}

impl<const UPPER_BOUND: usize> BoundedUsize<UPPER_BOUND> {
    #[verifier::type_invariant]
    spec fn in_range(self) -> bool {
        self.value < UPPER_BOUND
    }

    /// The integer held.
    pub closed spec fn view(self) -> nat {
        self.value as nat
    }

    /// `Some` exactly when `value` is below the bound.
    pub fn new(value: usize) -> (bounded: Option<Self>)
        ensures
            bounded.is_some() == (value < UPPER_BOUND),
            bounded matches Some(b) ==> b@ == value,
    {
        if value < UPPER_BOUND {
            Some(BoundedUsize { value })
        } else {
            None
        }
    }

    /// The integer held, which is below the bound.
    pub fn get(&self) -> (value: usize)
        ensures
            value == self@,
            value < UPPER_BOUND,
    {
        proof {
            use_type_invariant(self);
        }
        self.value
    }
}

/// A byte strictly below `UPPER_BOUND`.
#[derive(Clone, Copy, Debug)]
pub struct BoundedU8<const UPPER_BOUND: usize> {
    value: u8,
}

impl<const UPPER_BOUND: usize> BoundedU8<UPPER_BOUND> {
    #[verifier::type_invariant]
    spec fn in_range(self) -> bool {
        self.value < UPPER_BOUND
    }

    /// The integer held.
    pub closed spec fn view(self) -> nat {
        self.value as nat
    }

    /// `Some` exactly when `value` is below the bound.
    pub fn new(value: u8) -> (bounded: Option<Self>)
        ensures
            bounded.is_some() == (value < UPPER_BOUND),
            bounded matches Some(b) ==> b@ == value,
    {
        if (value as usize) < UPPER_BOUND {
            Some(BoundedU8 { value })
        } else {
            None
        }
    }

    /// The mask that wraps a byte into range: the bound less one, cut to
    /// the width of a byte.
    pub fn mask() -> (mask: u8)
        requires
            is_pow2(UPPER_BOUND as int),
        ensures
            forall|value: u8| #[trigger] (value & mask) == value as nat % UPPER_BOUND as nat,
    {
        let bound: u64 = UPPER_BOUND as u64;
        proof {
            lemma_mask_is_mod(0, bound);
        }
        let low: u64 = bound - 1;
        let mask: u8 = (low & 0xff) as u8;
        assert forall|value: u8| #[trigger] (value & mask) == value as nat % UPPER_BOUND as nat by {
            lemma_mask_is_mod(value as u64, bound);
            assert(value & (low & 0xff) as u8 == (value as u64) & low) by (bit_vector);
        }
        mask
    }

    /// `value` wrapped into range: its remainder modulo the bound.
    pub fn new_masked(value: u8) -> (bounded: Self)
        requires
            is_pow2(UPPER_BOUND as int),
        ensures
            bounded@ == value as nat % UPPER_BOUND as nat,
    {
        let mask = Self::mask();
        proof {
            lemma_mask_is_mod(value as u64, UPPER_BOUND as u64);
        }
        BoundedU8 { value: value & mask }
    }

    /// The integer held, which is below the bound.
    pub fn get(&self) -> (value: u8)
        ensures
            value == self@,
            value < UPPER_BOUND,
    {
        proof {
            use_type_invariant(self);
        }
        self.value
    }
}

impl<const UPPER_BOUND: usize> Element for BoundedU8<UPPER_BOUND> {
    open spec fn size() -> nat {
        1
    }

    open spec fn bytes(self) -> Seq<u8> {
        le_bytes(self@, 1)
    }

    proof fn lemma_layout(self) {
    }

    fn byte_size() -> (n: usize) {
        1
    }

    fn byte(&self, index: usize) -> (b: u8) {
        le_byte_of(self.value as u64, index)
    }
}

/// A 32-bit integer strictly below `UPPER_BOUND`.
#[derive(Clone, Copy, Debug)]
pub struct BoundedU32<const UPPER_BOUND: usize> {
    value: u32,
}

impl<const UPPER_BOUND: usize> BoundedU32<UPPER_BOUND> {
    #[verifier::type_invariant]
    spec fn in_range(self) -> bool {
        self.value < UPPER_BOUND
    }

    /// The integer held.
    pub closed spec fn view(self) -> nat {
        self.value as nat
    }

    /// `Some` exactly when `value` is below the bound.
    pub fn new(value: u32) -> (bounded: Option<Self>)
        ensures
            bounded.is_some() == (value < UPPER_BOUND),
            bounded matches Some(b) ==> b@ == value,
    {
        if (value as u64) < (UPPER_BOUND as u64) {
            Some(BoundedU32 { value })
        } else {
            None
        }
    }

    /// The mask that wraps a 32-bit lane into range: the bound less one,
    /// cut to the width of the lane.
    pub fn mask() -> (mask: u32)
        requires
            is_pow2(UPPER_BOUND as int),
        ensures
            forall|value: u32| #[trigger] (value & mask) == value as nat % UPPER_BOUND as nat,
    {
        let bound: u64 = UPPER_BOUND as u64;
        proof {
            lemma_mask_is_mod(0, bound);
        }
        let low: u64 = bound - 1;
        let mask: u32 = (low & 0xffff_ffff) as u32;
        assert forall|value: u32| #[trigger] (value & mask) == value as nat % UPPER_BOUND as nat by {
            lemma_mask_is_mod(value as u64, bound);
            assert(value & (low & 0xffff_ffff) as u32 == (value as u64) & low) by (bit_vector);
        }
        mask
    }

    /// `value` wrapped into range: its remainder modulo the bound.
    pub fn new_masked(value: u32) -> (bounded: Self)
        requires
            is_pow2(UPPER_BOUND as int),
        ensures
            bounded@ == value as nat % UPPER_BOUND as nat,
    {
        let mask = Self::mask();
        proof {
            lemma_mask_is_mod(value as u64, UPPER_BOUND as u64);
        }
        BoundedU32 { value: value & mask }
    }

    /// The integer held, which is below the bound.
    pub fn get(&self) -> (value: u32)
        ensures
            value == self@,
            value < UPPER_BOUND,
    {
        proof {
            use_type_invariant(self);
        }
        self.value
    }
}

impl<const UPPER_BOUND: usize> Element for BoundedU32<UPPER_BOUND> {
    open spec fn size() -> nat {
        4
    }

    open spec fn bytes(self) -> Seq<u8> {
        le_bytes(self@, 4)
    }

    proof fn lemma_layout(self) {
    }

    fn byte_size() -> (n: usize) {
        4
    }

    fn byte(&self, index: usize) -> (b: u8) {
        le_byte_of(self.value as u64, index)
    }
}

} // verus!
