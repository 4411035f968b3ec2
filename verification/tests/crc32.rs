//! CRC-32 against known values and a byte-by-byte division.

use png_spark::crc32::{build_tables, crc32, Crc32};

#[test]
fn crc32_known_vectors() {
    assert_eq!(crc32(b""), 0);
    assert_eq!(crc32(b"a"), 0xe8b7_be43);
    assert_eq!(crc32(b"123456789"), 0xcbf4_3926);
    assert_eq!(crc32(b"IEND"), 0xae42_6082);
}

#[test]
fn matches_bytewise_reference() {
    let data: Vec<u8> =
        (0..1024u32).map(|i| (i.wrapping_mul(2654435761) >> 13) as u8).collect();

    let tables = build_tables();
    let mut reference: u32 = !0;
    for &byte in &data {
        reference = (reference >> 8) ^ tables[((reference ^ byte as u32) & 0xff) as usize];
    }
    assert_eq!(crc32(&data), !reference);

    // Splitting the input must not change the result.
    for split in [0, 1, 7, 8, 15, 16, 17, 511, 1023, 1024] {
        let mut hasher = Crc32::new();
        hasher.update(&data[..split]);
        hasher.update(&data[split..]);
        assert_eq!(hasher.finish(), crc32(&data), "split at {split}");
    }
}
