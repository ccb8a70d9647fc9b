//! Little-endian byte images of unsigned integers.

use vstd::arithmetic::div_mod::lemma_mod_breakdown;
use vstd::arithmetic::power::{lemma_pow_increases, lemma_pow_positive, pow};
use vstd::prelude::*;

verus! {

/// Byte `index` of `value`, counting from the least significant.
pub open spec fn le_byte(value: nat, index: nat) -> u8
    decreases index,
{
    if index == 0 {
        (value % 256) as u8
    } else {
        le_byte(value / 256, (index - 1) as nat)
    }
}

/// The `count` low bytes of `value`, least significant first.
pub open spec fn le_bytes(value: nat, count: nat) -> Seq<u8> {
    Seq::new(count, |i: int| le_byte(value, i as nat))
}

/// The integer whose little-endian bytes are `bytes`.
pub open spec fn le_value(bytes: Seq<u8>) -> nat
    decreases bytes.len(),
{
    if bytes.len() == 0 {
        0
    } else {
        bytes[0] as nat + 256 * le_value(bytes.skip(1))
    }
}

/// Byte `index` of the decoded integer is byte `index` of the input.
pub proof fn lemma_le_byte_of_value(bytes: Seq<u8>, index: nat)
    requires
        index < bytes.len(),
    ensures
        le_byte(le_value(bytes), index) == bytes[index as int],
    decreases index,
{
    let rest = le_value(bytes.skip(1));
    assert(le_value(bytes) == bytes[0] as nat + 256 * rest);
    if index == 0 {
        assert((bytes[0] as nat + 256 * rest) % 256 == bytes[0] as nat) by (nonlinear_arith)
            requires
                bytes[0] < 256,
        ;
    } else {
        assert((bytes[0] as nat + 256 * rest) / 256 == rest) by (nonlinear_arith)
            requires
                bytes[0] < 256,
        ;
        lemma_le_byte_of_value(bytes.skip(1), (index - 1) as nat);
    }
}

/// Decoding bytes and encoding the result gives the bytes back.
pub proof fn lemma_le_bytes_of_value(bytes: Seq<u8>)
    ensures
        le_bytes(le_value(bytes), bytes.len()) == bytes,
{
    let value = le_value(bytes);
    assert forall|i: int| 0 <= i < bytes.len() implies le_byte(value, i as nat) == bytes[i] by {
        lemma_le_byte_of_value(bytes, i as nat);
    }
    assert(le_bytes(value, bytes.len()) =~= bytes);
}

/// Encoding an integer into `count` bytes and decoding them keeps the
/// integer modulo `256^count`.
pub proof fn lemma_le_value_of_bytes(value: nat, count: nat)
    ensures
        le_value(le_bytes(value, count)) == value % (pow(256, count) as nat),
    decreases count,
{
    lemma_pow_positive(256, count);
    reveal(pow);
    if count == 0 {
        assert(le_bytes(value, 0).len() == 0);
    } else {
        let bytes = le_bytes(value, count);
        let q = pow(256, (count - 1) as nat);
        lemma_pow_positive(256, (count - 1) as nat);
        assert(pow(256, count) == 256 * q);
        assert(bytes.skip(1) =~= le_bytes(value / 256, (count - 1) as nat));
        lemma_le_value_of_bytes(value / 256, (count - 1) as nat);
        assert(le_value(bytes) == (value % 256) + 256 * ((value / 256) % (q as nat)));
        lemma_mod_breakdown(value as int, 256, q);
    }
}

/// `count` bytes decode to an integer below `256^count`.
pub proof fn lemma_le_value_bound(bytes: Seq<u8>)
    ensures
        le_value(bytes) < pow(256, bytes.len()),
    decreases bytes.len(),
{
    reveal(pow);
    if bytes.len() > 0 {
        lemma_le_value_bound(bytes.skip(1));
        let q = pow(256, (bytes.len() - 1) as nat);
        assert(pow(256, bytes.len()) == 256 * q);
        assert(bytes[0] as nat + 256 * le_value(bytes.skip(1)) < 256 * q) by (nonlinear_arith)
            requires
                bytes[0] < 256,
                le_value(bytes.skip(1)) < q,
        ;
    }
}

/// The powers of 256 that bound the integers of one to eight bytes.
pub proof fn lemma_pow256_values()
    ensures
        pow(256, 0) == 1,
        pow(256, 1) == 0x100,
        pow(256, 2) == 0x1_0000,
        pow(256, 3) == 0x100_0000,
        pow(256, 4) == 0x1_0000_0000,
        pow(256, 5) == 0x100_0000_0000,
        pow(256, 6) == 0x1_0000_0000_0000,
        pow(256, 7) == 0x100_0000_0000_0000,
        pow(256, 8) == 0x1_0000_0000_0000_0000,
{
    reveal_with_fuel(pow, 9);
}

/// Shifting right by a whole number of bytes drops that many low bytes.
proof fn lemma_shift_drops_byte(x: u64, k: u64)
    by (bit_vector)
    requires
        1 <= k < 8,
    ensures
        x >> ((8 * k) as u64) == (x / 256) >> ((8 * (k - 1)) as u64),
{
}

/// Byte `index` of a word is the word shifted right by `index` bytes,
/// truncated to its low byte.
pub proof fn lemma_le_byte_is_shift(x: u64, index: u64)
    requires
        index < 8,
    ensures
        le_byte(x as nat, index as nat) == ((x >> ((8 * index) as u64)) & 0xff) as u8,
    decreases index,
{
    if index == 0 {
        assert((x >> 0u64) & 0xff == x % 256) by (bit_vector);
    } else {
        lemma_shift_drops_byte(x, index);
        lemma_le_byte_is_shift(x / 256, (index - 1) as u64);
    }
}

/// Byte `index` of `x`, counting from the least significant.
pub fn le_byte_of(x: u64, index: usize) -> (b: u8)
    requires
        index < 8,
    ensures
        b == le_byte(x as nat, index as nat),
{
    let k: u64 = index as u64;
    proof {
        lemma_le_byte_is_shift(x, k);
        let s = x >> ((8 * k) as u64);
        assert(s & 0xff < 256) by (bit_vector);
    }
    ((x >> (8 * k)) & 0xff) as u8
}

/// The integer whose little-endian bytes are `bytes`.
pub fn le_value_of(bytes: &[u8]) -> (x: u64)
    requires
        bytes@.len() <= 8,
    ensures
        x == le_value(bytes@),
{
    let n: usize = bytes.len();
    let mut acc: u64 = 0;
    let mut i: usize = n;
    proof {
        lemma_pow256_values();
        assert(bytes@.subrange(n as int, n as int).len() == 0);
    }
    while i > 0
        invariant
            i <= n,
            n == bytes@.len(),
            n <= 8,
            acc == le_value(bytes@.subrange(i as int, n as int)),
        decreases i,
    {
        let ghost tail = bytes@.subrange(i as int, n as int);
        i -= 1;
        proof {
            let next = bytes@.subrange(i as int, n as int);
            assert(next.skip(1) =~= tail);
            assert(next[0] == bytes@[i as int]);
            lemma_le_value_bound(tail);
            lemma_le_value_bound(next);
            lemma_pow256_values();
            lemma_pow_increases(256, next.len(), 8);
        }
        acc = acc * 256 + bytes[i] as u64;
    }
    assert(bytes@.subrange(0, n as int) =~= bytes@);
    acc
}

} // verus!
