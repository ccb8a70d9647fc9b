use safe_arch::bounded::BoundedUsize;
use safe_arch::checks::{check_lengths_simd, check_pow2_size};
use safe_arch::element::{Element, PlainElement};
use safe_arch::slice::BoundedSlice;
use safe_arch::wrappers::_mm_load;
use zerocopy::{AsBytes, FromBytes};

// The library lays elements out as this machine does: the byte image of an
// element is what `zerocopy` gives for the same value.

fn image<T: Element>(element: &T) -> Vec<u8> {
    (0..T::byte_size()).map(|index| element.byte(index)).collect()
}

#[test]
fn unsigned_elements_have_the_bytes_they_have_in_memory() {
    for x in [0u64, 1, 0x80, 0xff, 0x1234, 0xdead_beef, 0x0123_4567_89ab_cdef, u64::MAX] {
        assert_eq!(image(&(x as u8)), (x as u8).as_bytes());
        assert_eq!(image(&(x as u16)), (x as u16).as_bytes());
        assert_eq!(image(&(x as u32)), (x as u32).as_bytes());
        assert_eq!(image(&x), x.as_bytes());
    }
}

#[test]
fn signed_elements_have_the_bytes_they_have_in_memory() {
    for x in [0i64, 1, -1, -2, 0x7f, -0x80, 0x1234_5678, -0x1234_5678, i64::MIN, i64::MAX] {
        assert_eq!(image(&(x as i8)), (x as i8).as_bytes());
        assert_eq!(image(&(x as i16)), (x as i16).as_bytes());
        assert_eq!(image(&(x as i32)), (x as i32).as_bytes());
        assert_eq!(image(&x), x.as_bytes());
    }
}

#[test]
fn elements_are_rebuilt_as_memory_is_read() {
    let bytes = [0x10u8, 0x32, 0x54, 0x76, 0x98, 0xba, 0xdc, 0xfe];
    assert_eq!(Some(<u16 as PlainElement>::from_bytes(&bytes[..2])), u16::read_from(&bytes[..2]));
    assert_eq!(Some(<u32 as PlainElement>::from_bytes(&bytes[..4])), u32::read_from(&bytes[..4]));
    assert_eq!(Some(<u64 as PlainElement>::from_bytes(&bytes)), u64::read_from(&bytes[..]));
    assert_eq!(Some(<i16 as PlainElement>::from_bytes(&bytes[6..])), i16::read_from(&bytes[6..]));
    assert_eq!(Some(<i32 as PlainElement>::from_bytes(&bytes[4..])), i32::read_from(&bytes[4..]));
    assert_eq!(Some(<i64 as PlainElement>::from_bytes(&bytes)), i64::read_from(&bytes[..]));
}

#[test]
fn a_sequence_has_the_bytes_of_the_same_slice_in_memory() {
    let items: Vec<u32> = (0..12).map(|i| 0x0123_4567u32.wrapping_mul(i + 1)).collect();
    let data = BoundedSlice::<u32, 12>::new(items.clone(), 0).unwrap();
    assert_eq!(data.to_bytes(), items.as_bytes());
    assert!(check_lengths_simd(4, 12, 8, 16));
    assert!(check_pow2_size(4, 16));
    for offset in 0..8usize {
        let start = BoundedUsize::<8>::new(offset).unwrap();
        let loaded = _mm_load::<u32, 12, 8>(&data, start).to_bytes();
        assert_eq!(loaded[..], items.as_bytes()[4 * offset..4 * offset + 16]);
    }
}
