//! The vector operations: load, store, masked store and gather.
//!
//! Each operation names in `requires` the static conditions of its
//! instance: a caller for whose bounds they do not hold is not verified.
//! Under them the operation is total, and its contract says which bytes of
//! the sequence it reads or leaves behind.

use crate::bounded::{BoundedU32, BoundedU8, BoundedUsize};
use crate::checks::{lemma_access_in_bounds, lengths_suffice, same_size, tiles_vector};
use crate::element::{Element, PlainElement};
use crate::endian::{le_byte, le_value_of, lemma_le_value_bound, lemma_pow256_values};
use crate::slice::{byte_image, byte_offset, splice, BoundedSlice};
use crate::vector::{
    lane_value, lemma_single_byte_lane, masked_lanes, wrapped, Vector, Vector128, Vector256,
    AVX_VECTOR_SIZE, SSE_VECTOR_SIZE,
};
use vstd::arithmetic::div_mod::{
    lemma_basic_div, lemma_fundamental_div_mod, lemma_fundamental_div_mod_converse,
    lemma_mod_bound, lemma_small_mod,
};
use vstd::arithmetic::power2::is_pow2;
use vstd::prelude::*;
use vstd::slice::slice_subrange;

verus! {

/// Byte `start * size + offset` of a sequence lies in element
/// `start + offset / size`, at position `offset % size`.
proof fn lemma_byte_position(size: int, start: int, offset: int)
    requires
        size > 0,
        start >= 0,
        offset >= 0,
    ensures
        (start * size + offset) / size == start + offset / size,
        (start * size + offset) % size == offset % size,
        0 <= offset % size < size,
{
    lemma_mod_bound(offset, size);
    let q = offset / size;
    let r = offset % size;
    lemma_fundamental_div_mod(offset, size);
    assert(start * size + offset == (start + q) * size + r) by (nonlinear_arith)
        requires
            offset == size * q + r,
    ;
    lemma_fundamental_div_mod_converse(start * size + offset, size, start + q, r);
}

/// Reads `BYTES` bytes that begin at element `start`.
fn load<T: Element, const SLICE_BOUND: usize, const START_BOUND: usize, const BYTES: usize>(
    data: &BoundedSlice<T, SLICE_BOUND>,
    start: BoundedUsize<START_BOUND>,
) -> (value: Vector<BYTES>)
    requires
        lengths_suffice(T::size(), SLICE_BOUND as nat, START_BOUND as nat, BYTES as nat),
        tiles_vector(T::size(), BYTES as nat),
    ensures
        value@ == data.bytes().subrange(
            byte_offset::<T>(start@),
            byte_offset::<T>(start@) + BYTES,
        ),
{
    let elements = data.get_slice();
    let size: usize = T::byte_size();
    let first: usize = start.get();
    let ghost base: int = first * size;
    let ghost image = byte_image(elements@);
    proof {
        lemma_access_in_bounds(
            T::size(),
            SLICE_BOUND as nat,
            START_BOUND as nat,
            BYTES as nat,
            first as nat,
        );
    }
    let mut out: [u8; BYTES] = [0u8; BYTES];
    let mut j: usize = 0;
    while j < BYTES
        invariant
            j <= BYTES,
            size == T::size(),
            size > 0,
            elements@.len() == SLICE_BOUND,
            image == byte_image(elements@),
            base == first * size,
            base + BYTES <= SLICE_BOUND * size,
            forall|i: int| 0 <= i < j ==> out@[i] == image[base + i],
        decreases BYTES - j,
    {
        proof {
            lemma_byte_position(size as int, first as int, j as int);
            assert((base + j) / (size as int) < SLICE_BOUND) by (nonlinear_arith)
                requires
                    base + j < SLICE_BOUND * size,
                    size > 0,
            ;
        }
        let index: usize = first + j / size;
        out[j] = elements[index].byte(j % size);
        j += 1;
    }
    let value = Vector::from_bytes(out);
    assert(value@ =~= data.bytes().subrange(base, base + BYTES));
    value
}

/// A byte between the first bytes of two elements lies in an element
/// between them.
proof fn lemma_element_of_byte(size: int, low: int, high: int, byte: int)
    requires
        size > 0,
        low * size <= byte < high * size,
    ensures
        low <= byte / size < high,
{
    lemma_fundamental_div_mod(byte, size);
    lemma_mod_bound(byte, size);
    let q = byte / size;
    let r = byte % size;
    assert(low <= q < high) by (nonlinear_arith)
        requires
            size > 0,
            byte == size * q + r,
            0 <= r < size,
            low * size <= byte < high * size,
    ;
}

/// A sequence in which `count` elements from `first` on took their bytes
/// from `patch`, the others unchanged, has the image of the old sequence
/// with `patch` written at the first of those elements.
proof fn lemma_image_after_write<T: Element>(
    before: Seq<T>,
    after: Seq<T>,
    first: int,
    count: int,
    patch: Seq<u8>,
)
    requires
        T::size() > 0,
        after.len() == before.len(),
        0 <= first,
        0 <= count,
        first + count <= before.len(),
        patch.len() == count * T::size(),
        forall|i: int|
            0 <= i < before.len() && !(first <= i < first + count) ==> after[i] == before[i],
        forall|i: int|
            first <= i < first + count ==> #[trigger] after[i].bytes() == patch.subrange(
                (i - first) * T::size(),
                (i - first) * T::size() + T::size(),
            ),
    ensures
        byte_image(after) == splice(byte_image(before), first * T::size(), patch),
{
    let size = T::size() as int;
    let base = first * size;
    let target = splice(byte_image(before), base, patch);
    assert(byte_image(after).len() == target.len());
    assert forall|b: int| 0 <= b < target.len() implies byte_image(after)[b] == target[b] by {
        let index = b / size;
        let position = b % size;
        lemma_fundamental_div_mod(b, size);
        lemma_mod_bound(b, size);
        lemma_element_of_byte(size, 0, before.len() as int, b);
        assert(byte_image(after)[b] == after[index].bytes()[position]);
        assert(byte_image(before)[b] == before[index].bytes()[position]);
        assert((first + count) * size == base + patch.len()) by (nonlinear_arith)
            requires
                base == first * size,
                patch.len() == count * size,
        ;
        if base <= b < base + patch.len() {
            lemma_element_of_byte(size, first, first + count, b);
            assert(b - base == (index - first) * size + position) by (nonlinear_arith)
                requires
                    b == size * index + position,
                    base == first * size,
            ;
            assert(after[index].bytes() == patch.subrange(
                (index - first) * size,
                (index - first) * size + size,
            ));
            assert((index - first) * size + size <= patch.len()) by (nonlinear_arith)
                requires
                    index < first + count,
                    patch.len() == count * size,
                    size > 0,
            ;
            assert((index - first) * size >= 0) by (nonlinear_arith)
                requires
                    index >= first,
                    size > 0,
            ;
            assert(target[b] == patch[b - base]);
        } else if b < base {
            lemma_element_of_byte(size, 0, first, b);
            assert(after[index] == before[index]);
        } else {
            assert(index >= first + count) by (nonlinear_arith)
                requires
                    b >= (first + count) * size,
                    b == size * index + position,
                    0 <= position < size,
            ;
            assert(after[index] == before[index]);
        }
    }
    assert(byte_image(after) =~= target);
}

/// Writes the `BYTES` bytes of `value` over the elements that begin at
/// `start`.
fn store<T: PlainElement, const SLICE_BOUND: usize, const START_BOUND: usize, const BYTES: usize>(
    data: &mut BoundedSlice<T, SLICE_BOUND>,
    start: BoundedUsize<START_BOUND>,
    value: Vector<BYTES>,
)
    requires
        lengths_suffice(T::size(), SLICE_BOUND as nat, START_BOUND as nat, BYTES as nat),
        tiles_vector(T::size(), BYTES as nat),
    ensures
        final(data).bytes() == splice(old(data).bytes(), byte_offset::<T>(start@), value@),
        final(data).spec_len() == old(data).spec_len(),
        final(data)@.len() == SLICE_BOUND,
        forall|i: int|
            0 <= i < SLICE_BOUND && !(start@ <= i < start@ + BYTES as nat / T::size())
                ==> final(data)@[i] == old(data)@[i],
{
    let size: usize = T::byte_size();
    let count: usize = BYTES / size;
    let first: usize = start.get();
    let _ = data.len_bound();
    let bytes = value.as_slice();
    let ghost before = data@;
    let ghost base: int = first * size;
    proof {
        lemma_access_in_bounds(
            T::size(),
            SLICE_BOUND as nat,
            START_BOUND as nat,
            BYTES as nat,
            first as nat,
        );
        lemma_fundamental_div_mod(BYTES as int, size as int);
        assert(BYTES == count * size) by (nonlinear_arith)
            requires
                BYTES == size * count + BYTES % size,
                BYTES % size == 0,
        ;
        assert((first + count) * size == base + count * size) by (nonlinear_arith)
            requires
                base == first * size,
        ;
        assert(first + count <= SLICE_BOUND) by (nonlinear_arith)
            requires
                (first + count) * size <= SLICE_BOUND * size,
                size > 0,
        ;
    }
    let mut k: usize = 0;
    while k < count
        invariant
            k <= count,
            size == T::size(),
            size > 0,
            BYTES == count * size,
            first + count <= SLICE_BOUND,
            bytes@ == value@,
            bytes@.len() == BYTES,
            data@.len() == SLICE_BOUND,
            before.len() == SLICE_BOUND,
            data.spec_len() == old(data).spec_len(),
            forall|i: int|
                0 <= i < SLICE_BOUND && !(first <= i < first + k) ==> data@[i] == before[i],
            forall|i: int|
                first <= i < first + k ==> #[trigger] data@[i].bytes() == value@.subrange(
                    (i - first) * size,
                    (i - first) * size + size,
                ),
        decreases count - k,
    {
        assert(k * size + size <= count * size) by (nonlinear_arith)
            requires
                k < count,
                size > 0,
        ;
        let low: usize = k * size;
        let chunk = slice_subrange(bytes, low, low + size);
        let element = T::from_bytes(chunk);
        data.set(first + k, element);
        k += 1;
    }
    proof {
        lemma_image_after_write::<T>(before, data@, first as int, count as int, value@);
    }
}

/// Writes `value` over the bytes that begin at `start`, every byte wrapped
/// into `[0, VALUE_BOUND)`.
fn store_masked_u8<
    const SLICE_BOUND: usize,
    const START_BOUND: usize,
    const VALUE_BOUND: usize,
    const BYTES: usize,
>(
    data: &mut BoundedSlice<BoundedU8<VALUE_BOUND>, SLICE_BOUND>,
    start: BoundedUsize<START_BOUND>,
    value: Vector<BYTES>,
)
    requires
        lengths_suffice(1, SLICE_BOUND as nat, START_BOUND as nat, BYTES as nat),
        is_pow2(VALUE_BOUND as int),
    ensures
        final(data).bytes() == splice(
            old(data).bytes(),
            byte_offset::<BoundedU8<VALUE_BOUND>>(start@),
            masked_lanes(value@, 1, VALUE_BOUND as nat),
        ),
        final(data).spec_len() == old(data).spec_len(),
        final(data)@.len() == SLICE_BOUND,
        forall|i: int|
            0 <= i < SLICE_BOUND && !(start@ <= i < start@ + BYTES) ==> final(data)@[i]
                == old(data)@[i],
        forall|i: int|
            start@ <= i < start@ + BYTES ==> (#[trigger] final(data)@[i])@ == wrapped(
                value@[i - start@] as nat,
                VALUE_BOUND as nat,
            ),
{
    let first: usize = start.get();
    let _ = data.len_bound();
    let bytes = value.as_slice();
    let ghost before = data@;
    proof {
        lemma_access_in_bounds(
            1,
            SLICE_BOUND as nat,
            START_BOUND as nat,
            BYTES as nat,
            first as nat,
        );
    }
    let mut j: usize = 0;
    while j < BYTES
        invariant
            j <= BYTES,
            first + BYTES <= SLICE_BOUND,
            is_pow2(VALUE_BOUND as int),
            bytes@ == value@,
            bytes@.len() == BYTES,
            data@.len() == SLICE_BOUND,
            before.len() == SLICE_BOUND,
            data.spec_len() == old(data).spec_len(),
            forall|i: int|
                0 <= i < SLICE_BOUND && !(first <= i < first + j) ==> data@[i] == before[i],
            forall|i: int|
                first <= i < first + j ==> (#[trigger] data@[i])@ == wrapped(
                    value@[i - first] as nat,
                    VALUE_BOUND as nat,
                ),
        decreases BYTES - j,
    {
        let element = BoundedU8::<VALUE_BOUND>::new_masked(bytes[j]);
        data.set(first + j, element);
        j += 1;
    }
    proof {
        let patch = masked_lanes(value@, 1, VALUE_BOUND as nat);
        assert(BoundedU8::<VALUE_BOUND>::size() == 1);
        assert forall|i: int| first <= i < first + BYTES implies #[trigger] data@[i].bytes()
            == patch.subrange((i - first) * 1, (i - first) * 1 + 1) by {
            let lane = i - first;
            lemma_single_byte_lane(value@, lane);
            assert(patch[lane] == le_byte(
                wrapped(lane_value(value@, 1, lane / 1), VALUE_BOUND as nat),
                0,
            ));
            assert(data@[i].bytes()[0] == le_byte(data@[i]@, 0));
            assert(data@[i].bytes() =~= patch.subrange(lane, lane + 1));
        }
        lemma_image_after_write::<BoundedU8<VALUE_BOUND>>(
            before,
            data@,
            first as int,
            BYTES as int,
            patch,
        );
    }
}

/// Writes `value` over the 32-bit elements that begin at `start`, every
/// lane wrapped into `[0, VALUE_BOUND)`.
fn store_masked_u32<
    const SLICE_BOUND: usize,
    const START_BOUND: usize,
    const VALUE_BOUND: usize,
    const BYTES: usize,
>(
    data: &mut BoundedSlice<BoundedU32<VALUE_BOUND>, SLICE_BOUND>,
    start: BoundedUsize<START_BOUND>,
    value: Vector<BYTES>,
)
    requires
        lengths_suffice(4, SLICE_BOUND as nat, START_BOUND as nat, BYTES as nat),
        is_pow2(VALUE_BOUND as int),
        BYTES % 4 == 0,
    ensures
        final(data).bytes() == splice(
            old(data).bytes(),
            byte_offset::<BoundedU32<VALUE_BOUND>>(start@),
            masked_lanes(value@, 4, VALUE_BOUND as nat),
        ),
        final(data).spec_len() == old(data).spec_len(),
        final(data)@.len() == SLICE_BOUND,
        forall|i: int|
            0 <= i < SLICE_BOUND && !(start@ <= i < start@ + BYTES / 4) ==> final(data)@[i]
                == old(data)@[i],
        forall|i: int|
            start@ <= i < start@ + BYTES / 4 ==> (#[trigger] final(data)@[i])@ == wrapped(
                lane_value(value@, 4, i - start@),
                VALUE_BOUND as nat,
            ),
{
    let first: usize = start.get();
    let count: usize = BYTES / 4;
    let _ = data.len_bound();
    let bytes = value.as_slice();
    let ghost before = data@;
    proof {
        lemma_access_in_bounds(
            4,
            SLICE_BOUND as nat,
            START_BOUND as nat,
            BYTES as nat,
            first as nat,
        );
    }
    let mut k: usize = 0;
    while k < count
        invariant
            k <= count,
            BYTES == count * 4,
            first + count <= SLICE_BOUND,
            is_pow2(VALUE_BOUND as int),
            bytes@ == value@,
            bytes@.len() == BYTES,
            data@.len() == SLICE_BOUND,
            before.len() == SLICE_BOUND,
            data.spec_len() == old(data).spec_len(),
            forall|i: int|
                0 <= i < SLICE_BOUND && !(first <= i < first + k) ==> data@[i] == before[i],
            forall|i: int|
                first <= i < first + k ==> (#[trigger] data@[i])@ == wrapped(
                    lane_value(value@, 4, i - first),
                    VALUE_BOUND as nat,
                ),
        decreases count - k,
    {
        let chunk = slice_subrange(bytes, 4 * k, 4 * k + 4);
        proof {
            lemma_le_value_bound(chunk@);
            lemma_pow256_values();
        }
        let lane: u32 = le_value_of(chunk) as u32;
        let element = BoundedU32::<VALUE_BOUND>::new_masked(lane);
        data.set(first + k, element);
        k += 1;
    }
    proof {
        let patch = masked_lanes(value@, 4, VALUE_BOUND as nat);
        assert(BoundedU32::<VALUE_BOUND>::size() == 4);
        assert forall|i: int| first <= i < first + count implies #[trigger] data@[i].bytes()
            == patch.subrange((i - first) * 4, (i - first) * 4 + 4) by {
            let lane = i - first;
            let image = data@[i].bytes();
            let piece = patch.subrange(lane * 4, lane * 4 + 4);
            assert forall|p: int| 0 <= p < 4 implies image[p] == piece[p] by {
                assert((lane * 4 + p) / 4 == lane);
                assert((lane * 4 + p) % 4 == p);
                assert(piece[p] == patch[lane * 4 + p]);
            }
            assert(image =~= piece);
        }
        lemma_image_after_write::<BoundedU32<VALUE_BOUND>>(
            before,
            data@,
            first as int,
            count as int,
            patch,
        );
    }
}

/// The element that a gather offset selects in a sequence of `array_bound`
/// elements: the offset wrapped into range.
pub open spec fn gather_index(offset: nat, array_bound: nat) -> int {
    wrapped(offset, array_bound) as int
}

/// A 32-bit lane filled from the bytes of one element: the first four of
/// them, or all of them followed by zeros.
pub open spec fn lane_image(element: Seq<u8>) -> Seq<u8> {
    Seq::new(
        4,
        |p: int|
            if p < element.len() {
                element[p]
            } else {
                0u8
            },
    )
}

/// What a gather returns: lane `i / 4` holds the element of `memory` that
/// the same lane of `offsets` selects, `scale` bytes to the element.
pub open spec fn gathered(memory: Seq<u8>, offsets: Seq<u8>, scale: nat, array_bound: nat) -> Seq<
    u8,
> {
    Seq::new(
        offsets.len(),
        |i: int|
            {
                let index = gather_index(lane_value(offsets, 4, i / 4), array_bound);
                lane_image(memory.subrange(index * scale, index * scale + scale))[i % 4]
            },
    )
}

/// The bytes of element `index` are the bytes of the image from
/// `index * size` on.
proof fn lemma_element_image<T: Element>(elements: Seq<T>, index: int)
    requires
        0 <= index < elements.len(),
    ensures
        byte_image(elements).subrange(index * T::size(), index * T::size() + T::size())
            == elements[index].bytes(),
{
    let size = T::size() as int;
    let element = elements[index];
    element.lemma_layout();
    assert((index + 1) * size <= elements.len() * size) by (nonlinear_arith)
        requires
            index + 1 <= elements.len(),
            size > 0,
    ;
    assert(index * size + size == (index + 1) * size) by (nonlinear_arith);
    assert(index * size >= 0) by (nonlinear_arith)
        requires
            index >= 0,
            size > 0,
    ;
    let piece = byte_image(elements).subrange(index * size, index * size + size);
    assert forall|p: int| 0 <= p < size implies piece[p] == element.bytes()[p] by {
        lemma_byte_position(size, index, p);
        lemma_small_mod(p as nat, size as nat);
        lemma_basic_div(p, size);
    }
    assert(piece =~= element.bytes());
}

/// Byte `position` of the lane that holds `element`.
fn lane_byte<T: Element>(element: &T, position: usize) -> (b: u8)
    requires
        position < 4,
    ensures
        b == lane_image(element.bytes())[position as int],
{
    proof {
        element.lemma_layout();
    }
    if position < T::byte_size() {
        element.byte(position)
    } else {
        0
    }
}

/// Gathers eight 32-bit lanes, one element to a lane.
///
/// Lane `k` of `offsets` selects the element for lane `k` of the result.
/// An offset outside the sequence is not rejected: it wraps into the
/// sequence modulo `ARRAY_BOUND`, so that every lane reads inside the
/// committed elements. An element narrower than a lane fills the lane's low
/// bytes, a wider one gives the lane its first four bytes.
pub fn _mm256_masked_i32gather<T: Element, const SCALE: usize, const ARRAY_BOUND: usize>(
    slice: &BoundedSlice<T, ARRAY_BOUND>,
    offsets: Vector256,
) -> (value: Vector256)
    requires
        is_pow2(ARRAY_BOUND as int),
        same_size(T::size(), SCALE as nat),
    ensures
        value@ == gathered(slice.bytes(), offsets@, SCALE as nat, ARRAY_BOUND as nat),
{
    let elements = slice.get_slice();
    let lanes = offsets.as_slice();
    let ghost memory = byte_image(elements@);
    let ghost target = gathered(memory, offsets@, SCALE as nat, ARRAY_BOUND as nat);
    let mut out: [u8; AVX_VECTOR_SIZE] = [0u8; AVX_VECTOR_SIZE];
    let mut lane: usize = 0;
    while lane < AVX_VECTOR_SIZE / 4
        invariant
            lane <= AVX_VECTOR_SIZE / 4,
            is_pow2(ARRAY_BOUND as int),
            SCALE == T::size(),
            elements@.len() == ARRAY_BOUND,
            lanes@ == offsets@,
            lanes@.len() == AVX_VECTOR_SIZE,
            memory == byte_image(elements@),
            target == gathered(memory, offsets@, SCALE as nat, ARRAY_BOUND as nat),
            forall|i: int| 0 <= i < 4 * lane ==> out@[i] == target[i],
        decreases AVX_VECTOR_SIZE / 4 - lane,
    {
        let chunk = slice_subrange(lanes, 4 * lane, 4 * lane + 4);
        proof {
            lemma_le_value_bound(chunk@);
            lemma_pow256_values();
        }
        let offset: u32 = le_value_of(chunk) as u32;
        let index: usize = BoundedU32::<ARRAY_BOUND>::new_masked(offset).get() as usize;
        let element = &elements[index];
        proof {
            lemma_element_image::<T>(elements@, index as int);
            assert(index == gather_index(lane_value(offsets@, 4, lane as int), ARRAY_BOUND as nat));
            assert forall|p: int| 0 <= p < 4 implies target[4 * lane + p] == lane_image(
                element.bytes(),
            )[p] by {
                assert((4 * lane + p) / 4 == lane);
                assert((4 * lane + p) % 4 == p);
            }
        }
        out[4 * lane] = lane_byte(element, 0);
        out[4 * lane + 1] = lane_byte(element, 1);
        out[4 * lane + 2] = lane_byte(element, 2);
        out[4 * lane + 3] = lane_byte(element, 3);
        lane += 1;
    }
    let value = Vector::from_bytes(out);
    assert(value@ =~= target);
    value
}

/// Loads the 32 bytes that begin at element `start`: never a byte beyond
/// the capacity, whatever offset `start` holds.
pub fn _mm256_load<T: Element, const SLICE_BOUND: usize, const START_BOUND: usize>(
    data: &BoundedSlice<T, SLICE_BOUND>,
    start: BoundedUsize<START_BOUND>,
) -> (value: Vector256)
    requires
        lengths_suffice(T::size(), SLICE_BOUND as nat, START_BOUND as nat, AVX_VECTOR_SIZE as nat),
        tiles_vector(T::size(), AVX_VECTOR_SIZE as nat),
    ensures
        value@ == data.bytes().subrange(byte_offset::<T>(start@), byte_offset::<T>(start@) + AVX_VECTOR_SIZE),
{
    load::<T, SLICE_BOUND, START_BOUND, AVX_VECTOR_SIZE>(data, start)
}

/// Stores the 32 bytes of `value` from element `start` on, and changes
/// nothing else.
pub fn _mm256_store<T: PlainElement, const SLICE_BOUND: usize, const START_BOUND: usize>(
    data: &mut BoundedSlice<T, SLICE_BOUND>,
    start: BoundedUsize<START_BOUND>,
    value: Vector256,
)
    requires
        lengths_suffice(T::size(), SLICE_BOUND as nat, START_BOUND as nat, AVX_VECTOR_SIZE as nat),
        tiles_vector(T::size(), AVX_VECTOR_SIZE as nat),
    ensures
        final(data).bytes() == splice(old(data).bytes(), byte_offset::<T>(start@), value@),
        final(data).spec_len() == old(data).spec_len(),
        final(data)@.len() == SLICE_BOUND,
        forall|i: int|
            0 <= i < SLICE_BOUND && !(start@ <= i < start@ + AVX_VECTOR_SIZE as nat / T::size())
                ==> final(data)@[i] == old(data)@[i],
{
    store::<T, SLICE_BOUND, START_BOUND, AVX_VECTOR_SIZE>(data, start, value)
}

/// Stores the 32 bytes of `value` from element `start` on, each byte
/// wrapped into `[0, VALUE_BOUND)`: a byte out of range is stored as its
/// remainder modulo the bound, not rejected and not saturated.
pub fn _mm256_store_masked_u8<
    const SLICE_BOUND: usize,
    const START_BOUND: usize,
    const VALUE_BOUND: usize,
>(
    data: &mut BoundedSlice<BoundedU8<VALUE_BOUND>, SLICE_BOUND>,
    start: BoundedUsize<START_BOUND>,
    value: Vector256,
)
    requires
        lengths_suffice(1, SLICE_BOUND as nat, START_BOUND as nat, AVX_VECTOR_SIZE as nat),
        is_pow2(VALUE_BOUND as int),
    ensures
        final(data).bytes() == splice(
            old(data).bytes(),
            byte_offset::<BoundedU8<VALUE_BOUND>>(start@),
            masked_lanes(value@, 1, VALUE_BOUND as nat),
        ),
        final(data).spec_len() == old(data).spec_len(),
        final(data)@.len() == SLICE_BOUND,
        forall|i: int|
            0 <= i < SLICE_BOUND && !(start@ <= i < start@ + AVX_VECTOR_SIZE) ==> final(data)@[i]
                == old(data)@[i],
        forall|i: int|
            start@ <= i < start@ + AVX_VECTOR_SIZE ==> (#[trigger] final(data)@[i])@ == wrapped(
                value@[i - start@] as nat,
                VALUE_BOUND as nat,
            ),
{
    store_masked_u8::<SLICE_BOUND, START_BOUND, VALUE_BOUND, AVX_VECTOR_SIZE>(data, start, value)
}

/// Stores the eight 32-bit lanes of `value` from element `start` on, each
/// lane wrapped into `[0, VALUE_BOUND)`: a lane out of range is stored as
/// its remainder modulo the bound, not rejected and not saturated.
pub fn _mm256_store_masked_u32<
    const SLICE_BOUND: usize,
    const START_BOUND: usize,
    const VALUE_BOUND: usize,
>(
    data: &mut BoundedSlice<BoundedU32<VALUE_BOUND>, SLICE_BOUND>,
    start: BoundedUsize<START_BOUND>,
    value: Vector256,
)
    requires
        lengths_suffice(4, SLICE_BOUND as nat, START_BOUND as nat, AVX_VECTOR_SIZE as nat),
        is_pow2(VALUE_BOUND as int),
    ensures
        final(data).bytes() == splice(
            old(data).bytes(),
            byte_offset::<BoundedU32<VALUE_BOUND>>(start@),
            masked_lanes(value@, 4, VALUE_BOUND as nat),
        ),
        final(data).spec_len() == old(data).spec_len(),
        final(data)@.len() == SLICE_BOUND,
        forall|i: int|
            0 <= i < SLICE_BOUND && !(start@ <= i < start@ + AVX_VECTOR_SIZE / 4) ==> final(data)@[i]
                == old(data)@[i],
        forall|i: int|
            start@ <= i < start@ + AVX_VECTOR_SIZE / 4 ==> (#[trigger] final(data)@[i])@ == wrapped(
                lane_value(value@, 4, i - start@),
                VALUE_BOUND as nat,
            ),
{
    store_masked_u32::<SLICE_BOUND, START_BOUND, VALUE_BOUND, AVX_VECTOR_SIZE>(data, start, value)
}

/// Loads the 16 bytes that begin at element `start`: never a byte beyond
/// the capacity, whatever offset `start` holds.
pub fn _mm_load<T: Element, const SLICE_BOUND: usize, const START_BOUND: usize>(
    data: &BoundedSlice<T, SLICE_BOUND>,
    start: BoundedUsize<START_BOUND>,
) -> (value: Vector128)
    requires
        lengths_suffice(T::size(), SLICE_BOUND as nat, START_BOUND as nat, SSE_VECTOR_SIZE as nat),
        tiles_vector(T::size(), SSE_VECTOR_SIZE as nat),
    ensures
        value@ == data.bytes().subrange(byte_offset::<T>(start@), byte_offset::<T>(start@) + SSE_VECTOR_SIZE),
{
    load::<T, SLICE_BOUND, START_BOUND, SSE_VECTOR_SIZE>(data, start)
}

/// Stores the 16 bytes of `value` from element `start` on, and changes
/// nothing else.
pub fn _mm_store<T: PlainElement, const SLICE_BOUND: usize, const START_BOUND: usize>(
    data: &mut BoundedSlice<T, SLICE_BOUND>,
    start: BoundedUsize<START_BOUND>,
    value: Vector128,
)
    requires
        lengths_suffice(T::size(), SLICE_BOUND as nat, START_BOUND as nat, SSE_VECTOR_SIZE as nat),
        tiles_vector(T::size(), SSE_VECTOR_SIZE as nat),
    ensures
        final(data).bytes() == splice(old(data).bytes(), byte_offset::<T>(start@), value@),
        final(data).spec_len() == old(data).spec_len(),
        final(data)@.len() == SLICE_BOUND,
        forall|i: int|
            0 <= i < SLICE_BOUND && !(start@ <= i < start@ + SSE_VECTOR_SIZE as nat / T::size())
                ==> final(data)@[i] == old(data)@[i],
{
    store::<T, SLICE_BOUND, START_BOUND, SSE_VECTOR_SIZE>(data, start, value)
}

/// Stores the 16 bytes of `value` from element `start` on, each byte
/// wrapped into `[0, VALUE_BOUND)`: a byte out of range is stored as its
/// remainder modulo the bound, not rejected and not saturated.
pub fn _mm_store_masked_u8<
    const SLICE_BOUND: usize,
    const START_BOUND: usize,
    const VALUE_BOUND: usize,
>(
    data: &mut BoundedSlice<BoundedU8<VALUE_BOUND>, SLICE_BOUND>,
    start: BoundedUsize<START_BOUND>,
    value: Vector128,
)
    requires
        lengths_suffice(1, SLICE_BOUND as nat, START_BOUND as nat, SSE_VECTOR_SIZE as nat),
        is_pow2(VALUE_BOUND as int),
    ensures
        final(data).bytes() == splice(
            old(data).bytes(),
            byte_offset::<BoundedU8<VALUE_BOUND>>(start@),
            masked_lanes(value@, 1, VALUE_BOUND as nat),
        ),
        final(data).spec_len() == old(data).spec_len(),
        final(data)@.len() == SLICE_BOUND,
        forall|i: int|
            0 <= i < SLICE_BOUND && !(start@ <= i < start@ + SSE_VECTOR_SIZE) ==> final(data)@[i]
                == old(data)@[i],
        forall|i: int|
            start@ <= i < start@ + SSE_VECTOR_SIZE ==> (#[trigger] final(data)@[i])@ == wrapped(
                value@[i - start@] as nat,
                VALUE_BOUND as nat,
            ),
{
    store_masked_u8::<SLICE_BOUND, START_BOUND, VALUE_BOUND, SSE_VECTOR_SIZE>(data, start, value)
}

/// Stores the four 32-bit lanes of `value` from element `start` on, each
/// lane wrapped into `[0, VALUE_BOUND)`: a lane out of range is stored as
/// its remainder modulo the bound, not rejected and not saturated.
pub fn _mm_store_masked_u32<
    const SLICE_BOUND: usize,
    const START_BOUND: usize,
    const VALUE_BOUND: usize,
>(
    data: &mut BoundedSlice<BoundedU32<VALUE_BOUND>, SLICE_BOUND>,
    start: BoundedUsize<START_BOUND>,
    value: Vector128,
)
    requires
        lengths_suffice(4, SLICE_BOUND as nat, START_BOUND as nat, SSE_VECTOR_SIZE as nat),
        is_pow2(VALUE_BOUND as int),
    ensures
        final(data).bytes() == splice(
            old(data).bytes(),
            byte_offset::<BoundedU32<VALUE_BOUND>>(start@),
            masked_lanes(value@, 4, VALUE_BOUND as nat),
        ),
        final(data).spec_len() == old(data).spec_len(),
        final(data)@.len() == SLICE_BOUND,
        forall|i: int|
            0 <= i < SLICE_BOUND && !(start@ <= i < start@ + SSE_VECTOR_SIZE / 4) ==> final(data)@[i]
                == old(data)@[i],
        forall|i: int|
            start@ <= i < start@ + SSE_VECTOR_SIZE / 4 ==> (#[trigger] final(data)@[i])@ == wrapped(
                lane_value(value@, 4, i - start@),
                VALUE_BOUND as nat,
            ),
{
    store_masked_u32::<SLICE_BOUND, START_BOUND, VALUE_BOUND, SSE_VECTOR_SIZE>(data, start, value)
}

} // verus!
