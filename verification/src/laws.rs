//! Laws that relate the operations to one another.
//!
//! Each law is stated over the functions in which the operations'
//! contracts are written: the byte image of a sequence, `splice` for what a
//! store leaves, a subrange for what a load returns, `masked_lanes` for what
//! a masked store writes, and `gather_index` for where a gather reads.

use crate::checks::{lemma_access_in_bounds, lengths_suffice};
use crate::endian::{le_bytes, lemma_le_value_bound, lemma_le_value_of_bytes, lemma_pow256_values};
use crate::pow2::{lemma_pow256_is_pow2, lemma_pow2_divides};
use crate::slice::splice;
use crate::vector::{lane_value, masked_lanes, wrapped};
use crate::wrappers::gather_index;
use vstd::arithmetic::div_mod::{
    lemma_fundamental_div_mod, lemma_fundamental_div_mod_converse, lemma_mod_bound,
    lemma_mod_decreases, lemma_mod_multiples_vanish, lemma_small_mod,
};
use vstd::arithmetic::power::{lemma_pow_positive, pow};
use vstd::arithmetic::power2::is_pow2;
use vstd::prelude::*;

verus! {

/// A lane read as a signed integer of `modulus` values in two's
/// complement.
pub open spec fn signed_lane(lane: nat, modulus: nat) -> int {
    if 2 * lane >= modulus {
        lane - modulus
    } else {
        lane as int
    }
}

/// Round trip: under the length condition, a load at the offset at which a
/// vector was stored returns that vector, and the store changed no byte
/// outside the vector's range.
pub proof fn lemma_load_after_store(
    memory: Seq<u8>,
    value: Seq<u8>,
    elem_size: nat,
    slice_bound: nat,
    start_bound: nat,
    start: nat,
)
    requires
        memory.len() == slice_bound * elem_size,
        lengths_suffice(elem_size, slice_bound, start_bound, value.len()),
        start < start_bound,
    ensures
        ({
            let at = (start * elem_size) as int;
            let stored = splice(memory, at, value);
            &&& stored.len() == memory.len()
            &&& stored.subrange(at, at + value.len()) == value
            &&& forall|i: int|
                0 <= i < memory.len() && !(at <= i < at + value.len()) ==> stored[i] == memory[i]
        }),
{
    let at = (start * elem_size) as int;
    lemma_access_in_bounds(elem_size, slice_bound, start_bound, value.len(), start);
    assert(splice(memory, at, value).subrange(at, at + value.len()) =~= value);
}

/// Position `lane * width + position` of an image lies in lane `lane`.
proof fn lemma_lane_position(width: int, lane: int, position: int)
    requires
        width > 0,
        0 <= position < width,
    ensures
        (lane * width + position) / width == lane,
        (lane * width + position) % width == position,
{
    assert(lane * width + position == width * lane + position) by (nonlinear_arith);
    lemma_fundamental_div_mod_converse(lane * width + position, width, lane, position);
}

/// Masking wraps: a lane read back after a masked store holds the stored
/// lane's value modulo the bound.
pub proof fn lemma_masked_lane_reads_wrapped(value: Seq<u8>, width: nat, bound: nat, lane: int)
    requires
        width > 0,
        bound > 0,
        0 <= lane,
        lane * width + width <= value.len(),
    ensures
        lane_value(masked_lanes(value, width, bound), width, lane) == lane_value(value, width, lane)
            % bound,
        lane_value(masked_lanes(value, width, bound), width, lane) < bound,
{
    let stored = lane_value(value, width, lane);
    let kept = wrapped(stored, bound);
    let masked = masked_lanes(value, width, bound);
    let piece = masked.subrange(lane * width, lane * width + width);
    assert(lane * width >= 0) by (nonlinear_arith)
        requires
            lane >= 0,
            width > 0,
    ;
    assert forall|p: int| 0 <= p < width implies piece[p] == le_bytes(kept, width)[p] by {
        lemma_lane_position(width as int, lane, p);
    }
    assert(piece =~= le_bytes(kept, width));
    lemma_le_value_of_bytes(kept, width);
    lemma_le_value_bound(value.subrange(lane * width, lane * width + width));
    lemma_mod_decreases(stored, bound);
    lemma_mod_bound(stored as int, bound as int);
    lemma_pow_positive(256, width);
    lemma_small_mod(kept, pow(256, width) as nat);
}

/// Every position of an image made of whole lanes lies in one of them.
proof fn lemma_lane_of_position(length: int, width: int, position: int)
    requires
        width > 0,
        length % width == 0,
        0 <= position < length,
    ensures
        0 <= position / width,
        (position / width) * width >= 0,
        (position / width) * width + width <= length,
{
    let lane = position / width;
    let lanes = length / width;
    lemma_fundamental_div_mod(position, width);
    lemma_mod_bound(position, width);
    lemma_fundamental_div_mod(length, width);
    assert(0 <= lane < lanes) by (nonlinear_arith)
        requires
            0 <= position < length,
            position == width * lane + position % width,
            0 <= position % width < width,
            length == width * lanes,
    ;
    assert(lane * width >= 0 && lane * width + width <= length) by (nonlinear_arith)
        requires
            0 <= lane < lanes,
            length == width * lanes,
            width > 0,
    ;
}

/// Masking idempotence: masking a masked vector changes nothing.
pub proof fn lemma_masked_lanes_idempotent(value: Seq<u8>, width: nat, bound: nat)
    requires
        width > 0,
        bound > 0,
        value.len() % width == 0,
    ensures
        masked_lanes(masked_lanes(value, width, bound), width, bound) == masked_lanes(
            value,
            width,
            bound,
        ),
{
    let once = masked_lanes(value, width, bound);
    let twice = masked_lanes(once, width, bound);
    assert forall|i: int| 0 <= i < value.len() implies twice[i] == once[i] by {
        let lane = i / (width as int);
        lemma_lane_of_position(value.len() as int, width as int, i);
        lemma_masked_lane_reads_wrapped(value, width, bound, lane);
        lemma_small_mod(lane_value(once, width, lane), bound);
    }
    assert(twice =~= once);
}

/// Adding the bound to a lane, with the overflow that the lane's width
/// gives, does not change what masking leaves of it.
pub proof fn lemma_wrapped_ignores_bound(lane: nat, modulus: nat, bound: nat)
    requires
        is_pow2(bound as int),
        is_pow2(modulus as int),
        lane < modulus,
    ensures
        wrapped((lane + bound) % modulus, bound) == wrapped(lane, bound),
{
    let sum = lane + bound;
    if bound <= modulus {
        lemma_pow2_divides(bound as int, modulus as int);
        let m = modulus / bound;
        let t = sum / modulus;
        lemma_fundamental_div_mod(modulus as int, bound as int);
        lemma_fundamental_div_mod(sum as int, modulus as int);
        assert(sum == bound * (m * t) + (sum % modulus)) by (nonlinear_arith)
            requires
                modulus == bound * m,
                sum == modulus * t + sum % modulus,
        ;
        lemma_mod_multiples_vanish((m * t) as int, (sum % modulus) as int, bound as int);
        lemma_mod_multiples_vanish(1, lane as int, bound as int);
    } else {
        lemma_pow2_divides(modulus as int, bound as int);
        let m = bound / modulus;
        lemma_fundamental_div_mod(bound as int, modulus as int);
        assert(sum == modulus * m + lane) by (nonlinear_arith)
            requires
                bound == modulus * m,
                sum == lane + bound,
        ;
        lemma_mod_multiples_vanish(m as int, lane as int, modulus as int);
        lemma_small_mod(lane, modulus);
    }
}

/// Masking idempotence: two vectors whose lanes differ by the bound, with
/// the overflow of the lane width, are stored as the same bytes.
pub proof fn lemma_masked_lanes_ignore_bound(x: Seq<u8>, y: Seq<u8>, width: nat, bound: nat)
    requires
        is_pow2(bound as int),
        width > 0,
        x.len() == y.len(),
        x.len() % width == 0,
        forall|lane: int|
            0 <= lane < x.len() / width ==> #[trigger] lane_value(y, width, lane) == (lane_value(
                x,
                width,
                lane,
            ) + bound) % (pow(256, width) as nat),
    ensures
        masked_lanes(x, width, bound) == masked_lanes(y, width, bound),
{
    let modulus = pow(256, width) as nat;
    lemma_pow_positive(256, width);
    lemma_pow256_is_pow2(width);
    let w = width as int;
    assert forall|i: int| 0 <= i < x.len() implies masked_lanes(x, width, bound)[i]
        == masked_lanes(y, width, bound)[i] by {
        let lane = i / w;
        lemma_lane_of_position(x.len() as int, w, i);
        lemma_fundamental_div_mod(x.len() as int, w);
        lemma_fundamental_div_mod(i, w);
        lemma_mod_bound(i, w);
        assert(lane < x.len() as int / w) by (nonlinear_arith)
            requires
                lane * w + w <= x.len(),
                x.len() == w * (x.len() as int / w),
                w > 0,
        ;
        lemma_le_value_bound(x.subrange(lane * w, lane * w + w));
        lemma_wrapped_ignores_bound(lane_value(x, width, lane), modulus, bound);
        assert(lane_value(y, width, lane) == (lane_value(x, width, lane) + bound) % modulus);
    }
    assert(masked_lanes(x, width, bound) =~= masked_lanes(y, width, bound));
}

/// Two's complement: a lane that holds a negative integer is masked to that
/// integer's remainder modulo the bound, as long as the bound fits the lane.
pub proof fn lemma_wrapped_signed(lane: nat, modulus: nat, bound: nat)
    requires
        is_pow2(bound as int),
        is_pow2(modulus as int),
        bound <= modulus,
        lane < modulus,
    ensures
        wrapped(lane, bound) == signed_lane(lane, modulus) % (bound as int),
{
    lemma_pow2_divides(bound as int, modulus as int);
    let m = modulus / bound;
    lemma_fundamental_div_mod(modulus as int, bound as int);
    assert(lane - modulus == bound * (-m) + lane) by (nonlinear_arith)
        requires
            modulus == bound * m,
    ;
    lemma_mod_multiples_vanish(-(m as int), lane as int, bound as int);
}

/// Gather wraparound: whatever the offset, the element read is the one at
/// the offset modulo the array bound, and its bytes lie inside the
/// `array_bound * scale` bytes of the sequence.
pub proof fn lemma_gather_stays_in_bounds(offset: nat, scale: nat, array_bound: nat)
    requires
        array_bound > 0,
    ensures
        gather_index(offset, array_bound) == offset % array_bound,
        0 <= gather_index(offset, array_bound) < array_bound,
        0 <= gather_index(offset, array_bound) * scale,
        gather_index(offset, array_bound) * scale + scale <= array_bound * scale,
{
    let index = gather_index(offset, array_bound);
    lemma_mod_bound(offset as int, array_bound as int);
    assert(0 <= index * scale && index * scale + scale <= array_bound * scale) by (nonlinear_arith)
        requires
            0 <= index < array_bound,
            scale >= 0,
    ;
}

/// Gather wraparound for negative offsets: a 32-bit offset lane read as a
/// signed integer selects the element at that integer modulo the array
/// bound.
pub proof fn lemma_gather_index_signed(offset: nat, array_bound: nat)
    requires
        is_pow2(array_bound as int),
        array_bound <= 0x1_0000_0000,
        offset < 0x1_0000_0000,
    ensures
        gather_index(offset, array_bound) == signed_lane(offset, 0x1_0000_0000) % (
        array_bound as int),
{
    lemma_pow256_is_pow2(4);
    lemma_pow256_values();
    lemma_wrapped_signed(offset, 0x1_0000_0000, array_bound);
}

} // verus!
