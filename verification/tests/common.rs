//! Buffers whose size comes from a file.

use png_spark::common::zeroed_vec;
use std::hint::black_box;

#[test]
fn zeroed_vec_hands_back_an_owned_zeroed_buffer() {
    assert_eq!(zeroed_vec(0).unwrap(), Vec::<u8>::new());

    for len in [1usize, 7, 16, 1000, 65_536] {
        let mut buffer = zeroed_vec(len).unwrap();
        assert_eq!(buffer.len(), len);
        assert_eq!(buffer.capacity(), len);
        assert!(buffer.iter().all(|&byte| byte == 0), "{len} bytes were not zeroed");

        buffer[len - 1] = 0xAB;
        buffer.push(0xCD);
        assert_eq!(buffer.len(), len + 1);
    }

    // A size no vector can hold is refused before the allocator is asked, and a size that
    // one can hold but no allocator can satisfy is refused by the allocator.
    assert!(zeroed_vec(usize::MAX).is_none());
    // Both `black_box` calls are load-bearing, and this assertion silently passes without them
    // at any optimisation level above zero.
    assert!(black_box(zeroed_vec(black_box(isize::MAX as usize))).is_none());
}
