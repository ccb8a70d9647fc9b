use safe_arch::bounded::{BoundedU32, BoundedU8, BoundedUsize};
use safe_arch::checks::{check_lengths_simd, check_pow2, check_pow2_size};
use safe_arch::slice::BoundedSlice;
use safe_arch::vector::{Vector128, Vector256};
use safe_arch::wrappers::{
    _mm256_load, _mm256_store_masked_u32, _mm256_store_masked_u8, _mm_load, _mm_store_masked_u32,
    _mm_store_masked_u8,
};

// The operations may be instantiated only where the static conditions
// hold; each helper confirms them for the instance it makes.

fn store_bytes_128<const S: usize, const O: usize, const B: usize>(
    data: &mut BoundedSlice<BoundedU8<B>, S>,
    start: usize,
    bytes: [u8; 16],
) {
    assert!(check_lengths_simd(1, S, O, 16));
    assert!(check_pow2(B));
    let start = BoundedUsize::<O>::new(start).unwrap();
    _mm_store_masked_u8::<S, O, B>(data, start, Vector128::from_bytes(bytes));
}

fn store_bytes_256<const S: usize, const O: usize, const B: usize>(
    data: &mut BoundedSlice<BoundedU8<B>, S>,
    start: usize,
    bytes: [u8; 32],
) {
    assert!(check_lengths_simd(1, S, O, 32));
    assert!(check_pow2(B));
    let start = BoundedUsize::<O>::new(start).unwrap();
    _mm256_store_masked_u8::<S, O, B>(data, start, Vector256::from_bytes(bytes));
}

fn store_words_128<const S: usize, const O: usize, const B: usize>(
    data: &mut BoundedSlice<BoundedU32<B>, S>,
    start: usize,
    lanes: [u32; 4],
) {
    assert!(check_lengths_simd(4, S, O, 16));
    assert!(check_pow2(B));
    let start = BoundedUsize::<O>::new(start).unwrap();
    _mm_store_masked_u32::<S, O, B>(data, start, lanes_128(lanes));
}

fn store_words_256<const S: usize, const O: usize, const B: usize>(
    data: &mut BoundedSlice<BoundedU32<B>, S>,
    start: usize,
    lanes: [u32; 8],
) {
    assert!(check_lengths_simd(4, S, O, 32));
    assert!(check_pow2(B));
    let start = BoundedUsize::<O>::new(start).unwrap();
    _mm256_store_masked_u32::<S, O, B>(data, start, lanes_256(lanes));
}

fn lanes_128(lanes: [u32; 4]) -> Vector128 {
    let mut bytes = [0u8; 16];
    for (index, lane) in lanes.iter().enumerate() {
        bytes[4 * index..4 * index + 4].copy_from_slice(&lane.to_le_bytes());
    }
    Vector128::from_bytes(bytes)
}

fn lanes_256(lanes: [u32; 8]) -> Vector256 {
    let mut bytes = [0u8; 32];
    for (index, lane) in lanes.iter().enumerate() {
        bytes[4 * index..4 * index + 4].copy_from_slice(&lane.to_le_bytes());
    }
    Vector256::from_bytes(bytes)
}

fn values_u8<const B: usize, const S: usize>(data: &BoundedSlice<BoundedU8<B>, S>) -> Vec<u8> {
    data.get_slice().iter().map(|e| e.get()).collect()
}

fn values_u32<const B: usize, const S: usize>(data: &BoundedSlice<BoundedU32<B>, S>) -> Vec<u32> {
    data.get_slice().iter().map(|e| e.get()).collect()
}

#[test]
fn a_byte_lane_of_200_is_stored_as_8_under_bound_16() {
    let zero = BoundedU8::<16>::new(0).unwrap();
    let mut data = BoundedSlice::<BoundedU8<16>, 17>::new(vec![], zero).unwrap();
    store_bytes_128::<17, 1, 16>(&mut data, 0, [200; 16]);
    assert_eq!(values_u8(&data)[..16], [200 & 15; 16]);
    assert_eq!(values_u8(&data)[..16], [8; 16]);
    assert_eq!(values_u8(&data)[16], 0);
}

#[test]
fn masked_bytes_read_back_as_remainders() {
    let zero = BoundedU8::<32>::new(0).unwrap();
    let mut stored = [0u8; 32];
    for (index, byte) in stored.iter_mut().enumerate() {
        *byte = (index as u8).wrapping_mul(37).wrapping_add(11);
    }
    let mut data = BoundedSlice::<BoundedU8<32>, 40>::new(vec![zero; 40], zero).unwrap();
    // 8 * 1 + 32 = 40 <= 40.
    store_bytes_256::<40, 8, 32>(&mut data, 5, stored);
    assert!(check_pow2_size(1, 32));
    let start = BoundedUsize::<8>::new(5).unwrap();
    let back = _mm256_load::<BoundedU8<32>, 40, 8>(&data, start).to_bytes();
    for index in 0..32 {
        assert_eq!(back[index], stored[index] % 32);
        assert!(back[index] < 32);
    }
}

#[test]
fn masked_store_leaves_the_rest_of_the_sequence() {
    let seven = BoundedU8::<8>::new(7).unwrap();
    let mut data = BoundedSlice::<BoundedU8<8>, 20>::new(vec![seven; 10], seven).unwrap();
    store_bytes_128::<20, 4, 8>(&mut data, 2, [0x19; 16]);
    let mut expected = vec![7u8; 20];
    for value in expected[2..18].iter_mut() {
        *value = 1;
    }
    assert_eq!(values_u8(&data), expected);
    assert_eq!(data.to_bytes(), expected);
    assert_eq!(data.len(), 10);
}

#[test]
fn a_byte_and_the_byte_plus_the_bound_are_stored_alike() {
    let zero = BoundedU8::<64>::new(0).unwrap();
    for v in 0..=255u8 {
        let mut first = BoundedSlice::<BoundedU8<64>, 17>::new(vec![], zero).unwrap();
        let mut second = BoundedSlice::<BoundedU8<64>, 17>::new(vec![], zero).unwrap();
        store_bytes_128::<17, 1, 64>(&mut first, 0, [v; 16]);
        store_bytes_128::<17, 1, 64>(&mut second, 0, [v.wrapping_add(64); 16]);
        assert_eq!(first.to_bytes(), second.to_bytes());
        assert_eq!(values_u8(&first)[..16], [v % 64; 16]);
    }
}

#[test]
fn byte_bounds_at_the_edges() {
    let mut pattern = [0u8; 16];
    for (index, byte) in pattern.iter_mut().enumerate() {
        *byte = 0xf0 + index as u8;
    }
    // Bound 1: every byte becomes 0.
    let zero = BoundedU8::<1>::new(0).unwrap();
    let mut one = BoundedSlice::<BoundedU8<1>, 17>::new(vec![], zero).unwrap();
    store_bytes_128::<17, 1, 1>(&mut one, 0, pattern);
    assert_eq!(values_u8(&one), vec![0; 17]);
    // Bound 128: the top bit is dropped.
    let zero = BoundedU8::<128>::new(0).unwrap();
    let mut half = BoundedSlice::<BoundedU8<128>, 17>::new(vec![], zero).unwrap();
    store_bytes_128::<17, 1, 128>(&mut half, 0, pattern);
    assert_eq!(values_u8(&half)[..16], pattern.map(|b| b & 0x7f));
    // Bound 256 and beyond: every byte is in range already.
    let zero = BoundedU8::<256>::new(0).unwrap();
    let mut all = BoundedSlice::<BoundedU8<256>, 17>::new(vec![], zero).unwrap();
    store_bytes_128::<17, 1, 256>(&mut all, 0, pattern);
    assert_eq!(values_u8(&all)[..16], pattern);
    let zero = BoundedU8::<4096>::new(0).unwrap();
    let mut more = BoundedSlice::<BoundedU8<4096>, 17>::new(vec![], zero).unwrap();
    store_bytes_128::<17, 1, 4096>(&mut more, 0, pattern);
    assert_eq!(values_u8(&more)[..16], pattern);
}

#[test]
fn masked_words_are_stored_as_remainders() {
    let zero = BoundedU32::<1024>::new(0).unwrap();
    let mut data = BoundedSlice::<BoundedU32<1024>, 8>::new(vec![zero; 8], zero).unwrap();
    // 4 * 4 + 16 = 32 <= 8 * 4.
    let lanes = [1023, 1024, 0xdead_beef, u32::MAX];
    store_words_128::<8, 4, 1024>(&mut data, 3, lanes);
    assert_eq!(values_u32(&data), vec![0, 0, 0, 1023, 0, 0xdead_beef % 1024, 1023, 0]);
    assert!(check_pow2_size(4, 16));
    let start = BoundedUsize::<4>::new(3).unwrap();
    let back = _mm_load::<BoundedU32<1024>, 8, 4>(&data, start).to_bytes();
    for (index, lane) in lanes.iter().enumerate() {
        let read = u32::from_le_bytes(back[4 * index..4 * index + 4].try_into().unwrap());
        assert_eq!(read, lane % 1024);
    }
}

#[test]
fn eight_masked_words_keep_their_order() {
    let zero = BoundedU32::<256>::new(0).unwrap();
    let mut data = BoundedSlice::<BoundedU32<256>, 11>::new(vec![], zero).unwrap();
    // 3 * 4 + 32 = 44 <= 11 * 4.
    let lanes = [0x100, 0x201, 0x302, 0x403, 0x504, 0x605, 0x706, 0xffff_ff07];
    store_words_256::<11, 3, 256>(&mut data, 2, lanes);
    assert_eq!(values_u32(&data), vec![0, 0, 0, 1, 2, 3, 4, 5, 6, 7, 0]);
    let mut image = vec![0u8; 8];
    for lane in 0..8u8 {
        image.extend_from_slice(&[lane, 0, 0, 0]);
    }
    image.extend_from_slice(&[0; 4]);
    assert_eq!(data.to_bytes(), image);
}

#[test]
fn a_word_and_the_word_plus_the_bound_are_stored_alike() {
    let zero = BoundedU32::<4096>::new(0).unwrap();
    for v in [0u32, 1, 4095, 4096, 0x7fff_ffff, 0x8000_0000, u32::MAX - 4096, u32::MAX] {
        let mut first = BoundedSlice::<BoundedU32<4096>, 5>::new(vec![], zero).unwrap();
        let mut second = BoundedSlice::<BoundedU32<4096>, 5>::new(vec![], zero).unwrap();
        store_words_128::<5, 1, 4096>(&mut first, 0, [v; 4]);
        store_words_128::<5, 1, 4096>(&mut second, 0, [v.wrapping_add(4096); 4]);
        assert_eq!(values_u32(&first), values_u32(&second));
        assert_eq!(values_u32(&first)[..4], [v % 4096; 4]);
    }
}

#[test]
fn negative_word_lanes_wrap_in_twos_complement() {
    let zero = BoundedU32::<16>::new(0).unwrap();
    let mut data = BoundedSlice::<BoundedU32<16>, 5>::new(vec![], zero).unwrap();
    let lanes = [-1i32, -16, -17, i32::MIN];
    store_words_128::<5, 1, 16>(&mut data, 0, lanes.map(|lane| lane as u32));
    // -1 mod 16 = 15, -16 mod 16 = 0, -17 mod 16 = 15, i32::MIN mod 16 = 0.
    assert_eq!(values_u32(&data)[..4], [15, 0, 15, 0]);
    for (stored, lane) in values_u32(&data).iter().zip(lanes) {
        assert_eq!(*stored as i32, lane.rem_euclid(16));
    }
}

#[test]
fn negative_byte_lanes_wrap_in_twos_complement() {
    let zero = BoundedU8::<32>::new(0).unwrap();
    let mut data = BoundedSlice::<BoundedU8<32>, 17>::new(vec![], zero).unwrap();
    let mut lanes = [0i8; 16];
    for (index, lane) in lanes.iter_mut().enumerate() {
        *lane = -(index as i8) * 8 - 1;
    }
    store_bytes_128::<17, 1, 32>(&mut data, 0, lanes.map(|lane| lane as u8));
    for (stored, lane) in values_u8(&data).iter().zip(lanes) {
        assert_eq!(*stored as i8, lane.rem_euclid(32));
    }
    assert_eq!(values_u8(&data)[0], 31);
    assert_eq!(values_u8(&data)[1], 23);
}

#[test]
fn word_bounds_at_the_edges() {
    let lanes = [0, 1, 0x8000_0000, u32::MAX];
    let zero = BoundedU32::<1>::new(0).unwrap();
    let mut one = BoundedSlice::<BoundedU32<1>, 5>::new(vec![], zero).unwrap();
    store_words_128::<5, 1, 1>(&mut one, 0, lanes);
    assert_eq!(values_u32(&one), vec![0; 5]);
    let zero = BoundedU32::<{ 1 << 31 }>::new(0).unwrap();
    let mut half = BoundedSlice::<BoundedU32<{ 1 << 31 }>, 5>::new(vec![], zero).unwrap();
    store_words_128::<5, 1, { 1 << 31 }>(&mut half, 0, lanes);
    assert_eq!(values_u32(&half)[..4], [0, 1, 0, 0x7fff_ffff]);
    let zero = BoundedU32::<{ 1 << 32 }>::new(0).unwrap();
    let mut all = BoundedSlice::<BoundedU32<{ 1 << 32 }>, 5>::new(vec![], zero).unwrap();
    store_words_128::<5, 1, { 1 << 32 }>(&mut all, 0, lanes);
    assert_eq!(values_u32(&all)[..4], lanes);
}
