//! Element types and their byte images.
//!
//! A sequence is read and written a vector at a time, so each element type
//! says how many bytes it occupies and which bytes those are. Integers are
//! laid out least significant byte first, signed ones in two's complement.

use crate::endian::{
    le_byte_of, le_bytes, le_value_of, lemma_le_bytes_of_value, lemma_le_value_bound,
    lemma_pow256_values,
};
use vstd::prelude::*;

verus! {

/// A type whose values occupy a fixed number of bytes in a sequence.
pub trait Element: Copy {
    /// Bytes occupied by one element.
    spec fn size() -> nat;

    /// The element's bytes, lowest address first.
    spec fn bytes(self) -> Seq<u8>;

    /// Every element occupies `size()` bytes, and at least one.
    proof fn lemma_layout(self)
        ensures
            Self::size() > 0,
            self.bytes().len() == Self::size(),
    ;

    /// Bytes occupied by one element.
    fn byte_size() -> (n: usize)
        ensures
            n == Self::size(),
    ;

    /// Byte `index` of the element.
    fn byte(&self, index: usize) -> (b: u8)
        requires
            index < Self::size(),
        ensures
            b == self.bytes()[index as int],
    ;
}

/// An element type of which every byte pattern is a value, so that a vector
/// may be written over its elements.
pub trait PlainElement: Element {
    /// The element with the given bytes.
    fn from_bytes(bytes: &[u8]) -> (e: Self)
        requires
            bytes@.len() == Self::size(),
        ensures
            e.bytes() == bytes@,
    ;
}

impl Element for u8 {
    open spec fn size() -> nat {
        1
    }

    open spec fn bytes(self) -> Seq<u8> {
        seq![self]
    }

    proof fn lemma_layout(self) {
    }

    fn byte_size() -> (n: usize) {
        1
    }

    fn byte(&self, index: usize) -> (b: u8) {
        *self
    }
}

impl PlainElement for u8 {
    fn from_bytes(bytes: &[u8]) -> (e: Self) {
        let e = bytes[0];
        assert(seq![e] =~= bytes@);
        e
    }
}

impl Element for u16 {
    open spec fn size() -> nat {
        2
    }

    open spec fn bytes(self) -> Seq<u8> {
        le_bytes(self as nat, 2)
    }

    proof fn lemma_layout(self) {
    }

    fn byte_size() -> (n: usize) {
        2
    }

    fn byte(&self, index: usize) -> (b: u8) {
        le_byte_of(*self as u64, index)
    }
}

impl PlainElement for u16 {
    fn from_bytes(bytes: &[u8]) -> (e: Self) {
        proof {
            lemma_le_value_bound(bytes@);
            lemma_le_bytes_of_value(bytes@);
            lemma_pow256_values();
        }
        le_value_of(bytes) as u16
    }
}

impl Element for u32 {
    open spec fn size() -> nat {
        4
    }

    open spec fn bytes(self) -> Seq<u8> {
        le_bytes(self as nat, 4)
    }

    proof fn lemma_layout(self) {
    }

    fn byte_size() -> (n: usize) {
        4
    }

    fn byte(&self, index: usize) -> (b: u8) {
        le_byte_of(*self as u64, index)
    }
}

impl PlainElement for u32 {
    fn from_bytes(bytes: &[u8]) -> (e: Self) {
        proof {
            lemma_le_value_bound(bytes@);
            lemma_le_bytes_of_value(bytes@);
            lemma_pow256_values();
        }
        le_value_of(bytes) as u32
    }
}

impl Element for u64 {
    open spec fn size() -> nat {
        8
    }

    open spec fn bytes(self) -> Seq<u8> {
        le_bytes(self as nat, 8)
    }

    proof fn lemma_layout(self) {
    }

    fn byte_size() -> (n: usize) {
        8
    }

    fn byte(&self, index: usize) -> (b: u8) {
        le_byte_of(*self, index)
    }
}

impl PlainElement for u64 {
    fn from_bytes(bytes: &[u8]) -> (e: Self) {
        proof {
            lemma_le_bytes_of_value(bytes@);
        }
        le_value_of(bytes)
    }
}

impl Element for i8 {
    open spec fn size() -> nat {
        1
    }

    open spec fn bytes(self) -> Seq<u8> {
        seq![self as u8]
    }

    proof fn lemma_layout(self) {
    }

    fn byte_size() -> (n: usize) {
        1
    }

    fn byte(&self, index: usize) -> (b: u8) {
        *self as u8
    }
}

impl PlainElement for i8 {
    fn from_bytes(bytes: &[u8]) -> (e: Self) {
        let byte: u8 = bytes[0];
        let e: i8 = byte as i8;
        assert(e as u8 == byte) by (bit_vector)
            requires
                e == byte as i8,
        ;
        assert(seq![e as u8] =~= bytes@);
        e
    }
}

impl Element for i16 {
    open spec fn size() -> nat {
        2
    }

    open spec fn bytes(self) -> Seq<u8> {
        le_bytes((self as u16) as nat, 2)
    }

    proof fn lemma_layout(self) {
    }

    fn byte_size() -> (n: usize) {
        2
    }

    fn byte(&self, index: usize) -> (b: u8) {
        le_byte_of((*self as u16) as u64, index)
    }
}

impl PlainElement for i16 {
    fn from_bytes(bytes: &[u8]) -> (e: Self) {
        let word: u16 = <u16 as PlainElement>::from_bytes(bytes);
        let e: i16 = word as i16;
        assert(e as u16 == word) by (bit_vector)
            requires
                e == word as i16,
        ;
        e
    }
}

impl Element for i32 {
    open spec fn size() -> nat {
        4
    }

    open spec fn bytes(self) -> Seq<u8> {
        le_bytes((self as u32) as nat, 4)
    }

    proof fn lemma_layout(self) {
    }

    fn byte_size() -> (n: usize) {
        4
    }

    fn byte(&self, index: usize) -> (b: u8) {
        le_byte_of((*self as u32) as u64, index)
    }
}

impl PlainElement for i32 {
    fn from_bytes(bytes: &[u8]) -> (e: Self) {
        let word: u32 = <u32 as PlainElement>::from_bytes(bytes);
        let e: i32 = word as i32;
        assert(e as u32 == word) by (bit_vector)
            requires
                e == word as i32,
        ;
        e
    }
}

impl Element for i64 {
    open spec fn size() -> nat {
        8
    }

    open spec fn bytes(self) -> Seq<u8> {
        le_bytes((self as u64) as nat, 8)
    }

    proof fn lemma_layout(self) {
    }

    fn byte_size() -> (n: usize) {
        8
    }

    fn byte(&self, index: usize) -> (b: u8) {
        le_byte_of(*self as u64, index)
    }
}

impl PlainElement for i64 {
    fn from_bytes(bytes: &[u8]) -> (e: Self) {
        let word: u64 = <u64 as PlainElement>::from_bytes(bytes);
        let e: i64 = word as i64;
        assert(e as u64 == word) by (bit_vector)
            requires
                e == word as i64,
        ;
        e
    }
}

} // verus!
