//! Adler-32 against known values and a byte-by-byte sum.

use png_spark::adler32::{adler32, update_portable, Adler32};

const BASE: u32 = 65_521;

fn reference(data: &[u8]) -> u32 {
    let (mut a, mut b) = (1u32, 0u32);
    for &byte in data {
        a = (a + byte as u32) % BASE;
        b = (b + a) % BASE;
    }
    (b << 16) | a
}

const LENGTHS: [usize; 20] = [
    0, 1, 5, 15, 16, 17, 31, 32, 33, 63, 64, 65, 100, 5503, 5504, 5505, 11_007, 11_008, 11_009,
    20_000,
];

#[test]
fn adler32_known_vectors() {
    assert_eq!(adler32(b""), 1);
    assert_eq!(adler32(b"a"), 0x0062_0062);
    assert_eq!(adler32(b"Wikipedia"), 0x11E6_0398);
}

fn varied_data(len: usize) -> Vec<u8> {
    (0..len as u32).map(|i| (i.wrapping_mul(2_654_435_761) >> 11) as u8).collect()
}

#[test]
fn matches_reference() {
    let data = varied_data(20_000);
    for len in LENGTHS {
        assert_eq!(adler32(&data[..len]), reference(&data[..len]), "len {len}");
    }
}

/// The `b` half is what can overflow; saturating the input exercises that bound.
#[test]
fn saturated_input_does_not_overflow() {
    let data = vec![0xffu8; 40_000];
    assert_eq!(adler32(&data), reference(&data));
}

/// The block-wise sums agree with the sums taken byte by byte.
#[test]
fn all_implementations_agree() {
    let data = varied_data(20_000);
    for len in LENGTHS {
        let slice = &data[..len];
        let expected = reference(slice);

        let (a, b) = update_portable(1, 0, slice);
        assert_eq!((b << 16) | a, expected, "portable, len {len}");
    }
}

#[test]
fn incremental_matches_one_shot() {
    let data: Vec<u8> = (0..9000u32).map(|i| (i % 251) as u8).collect();
    for split in [0, 1, 17, 64, 65, 5504, 6000, 9000] {
        let mut hasher = Adler32::new();
        hasher.update(&data[..split]);
        hasher.update(&data[split..]);
        assert_eq!(hasher.finish(), reference(&data), "split {split}");
    }
}
