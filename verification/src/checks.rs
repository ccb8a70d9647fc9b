//! The static conditions under which a vector operation is sound.
//!
//! Each condition is a predicate over declared bounds only, never over a
//! value that exists at run time. The wrappers name them in `requires`; the
//! executable twins let unverified callers evaluate the same conditions.

use crate::pow2::{lemma_divisor_of_pow2, lemma_pow2_divides, lemma_single_bit_is_pow2};
use vstd::arithmetic::power2::is_pow2;
use vstd::prelude::*;

verus! {

/// A vector of `vector_size` bytes fits behind the largest declared start:
/// `start_bound * elem_size + vector_size <= slice_bound * elem_size`.
pub open spec fn lengths_suffice(
    elem_size: nat,
    slice_bound: nat,
    start_bound: nat,
    vector_size: nat,
) -> bool {
    start_bound * elem_size + vector_size <= slice_bound * elem_size
}

/// Elements of `elem_size` bytes tile a vector of `vector_size` bytes exactly.
pub open spec fn tiles_vector(elem_size: nat, vector_size: nat) -> bool {
    elem_size > 0 && vector_size % elem_size == 0
}

/// The address scale of a gather equals the byte size of one element.
pub open spec fn same_size(elem_size: nat, scale: nat) -> bool {
    scale == elem_size
}

/// Decides [`lengths_suffice`] without overflow, whatever the bounds.
pub fn check_lengths_simd(
    elem_size: usize,
    slice_bound: usize,
    start_bound: usize,
    vector_size: usize,
) -> (ok: bool)
    ensures
        ok == lengths_suffice(
            elem_size as nat,
            slice_bound as nat,
            start_bound as nat,
            vector_size as nat,
        ),
{
    let e: u128 = elem_size as u128;
    let s: u128 = slice_bound as u128;
    let o: u128 = start_bound as u128;
    let v: u128 = vector_size as u128;
    assert(o * e <= 0xffff_ffff_ffff_ffff * 0xffff_ffff_ffff_ffff) by (nonlinear_arith)
        requires
            o <= 0xffff_ffff_ffff_ffff,
            e <= 0xffff_ffff_ffff_ffff,
    ;
    assert(s * e <= 0xffff_ffff_ffff_ffff * 0xffff_ffff_ffff_ffff) by (nonlinear_arith)
        requires
            s <= 0xffff_ffff_ffff_ffff,
            e <= 0xffff_ffff_ffff_ffff,
    ;
    o * e + v <= s * e
}

/// Decides [`tiles_vector`].
pub fn check_pow2_size(elem_size: usize, vector_size: usize) -> (ok: bool)
    ensures
        ok == tiles_vector(elem_size as nat, vector_size as nat),
{
    elem_size != 0 && vector_size % elem_size == 0
}

/// Decides [`same_size`].
pub fn check_same_size(elem_size: usize, scale: usize) -> (ok: bool)
    ensures
        ok == same_size(elem_size as nat, scale as nat),
{
    scale == elem_size
}

/// For a vector whose size is a power of two, elements tile it exactly
/// when their size is a power of two no larger than the vector.
pub proof fn lemma_tiles_iff_pow2_size(elem_size: nat, vector_size: nat)
    requires
        is_pow2(vector_size as int),
    ensures
        tiles_vector(elem_size, vector_size) <==> (is_pow2(elem_size as int) && elem_size
            <= vector_size),
{
    if tiles_vector(elem_size, vector_size) {
        lemma_divisor_of_pow2(elem_size as int, vector_size as int);
    }
    if is_pow2(elem_size as int) && elem_size <= vector_size {
        lemma_pow2_divides(elem_size as int, vector_size as int);
    }
}

/// Decides whether `n` is a power of two.
pub fn check_pow2(n: usize) -> (ok: bool)
    ensures
        ok == is_pow2(n as int),
{
    let w: u64 = n as u64;
    proof {
        lemma_single_bit_is_pow2(w);
    }
    w != 0 && (w & (w - 1)) == 0
}

/// Under [`lengths_suffice`], a vector that starts at any element index
/// below `start_bound` lies inside the `slice_bound * elem_size` bytes of
/// the sequence.
pub proof fn lemma_access_in_bounds(
    elem_size: nat,
    slice_bound: nat,
    start_bound: nat,
    vector_size: nat,
    start: nat,
)
    requires
        lengths_suffice(elem_size, slice_bound, start_bound, vector_size),
        start < start_bound,
    ensures
        0 <= start * elem_size,
        start * elem_size + vector_size <= slice_bound * elem_size,
{
    assert(start * elem_size <= start_bound * elem_size) by (nonlinear_arith)
        requires
            start < start_bound,
    ;
}

} // verus!
