//! Every way a compressed stream can be refused, and what streams put together by hand mean.

use png_spark::adler32::adler32;
use png_spark::deflate::{compress_zlib, Deflater};
use png_spark::inflate::{
    decompress_zlib, decompress_zlib_to_vec, InflateError, Inflater, OUTPUT_SLACK,
};

/// Bits in stream order.
struct Bits {
    bytes: Vec<u8>,
    used: usize,
}

impl Bits {
    /// A zlib header, and nothing behind it.
    fn new() -> Self {
        Bits { bytes: vec![0x78, 0x01], used: 0 }
    }

    fn bit(&mut self, bit: u32) -> &mut Self {
        if self.used % 8 == 0 {
            self.bytes.push(0);
        }
        *self.bytes.last_mut().unwrap() |= (bit as u8) << (self.used % 8);
        self.used += 1;
        self
    }

    /// A number, least significant bit first.
    fn number(&mut self, value: u32, count: u32) -> &mut Self {
        for i in 0..count {
            self.bit((value >> i) & 1);
        }
        self
    }

    /// A codeword, most significant bit first.
    fn code(&mut self, value: u32, count: u32) -> &mut Self {
        for i in (0..count).rev() {
            self.bit((value >> i) & 1);
        }
        self
    }

    fn finish(&self, data: &[u8]) -> Vec<u8> {
        let mut bytes = self.bytes.clone();
        bytes.extend_from_slice(&adler32(data).to_be_bytes());
        bytes
    }
}

fn refused(bits: &Bits) -> InflateError {
    decompress_zlib_to_vec(&bits.finish(&[]), 1 << 16).unwrap_err()
}

#[test]
fn framing_errors() {
    assert_eq!(decompress_zlib(&[], 0), Err(InflateError::UnexpectedEof));
    assert_eq!(decompress_zlib(&[0x78], 0), Err(InflateError::UnexpectedEof));
    assert_eq!(decompress_zlib(&[0x78, 0x02, 0], 0), Err(InflateError::BadZlibHeader));
    assert_eq!(decompress_zlib(&[0x79, 0x9c, 0], 0), Err(InflateError::BadZlibHeader));
    assert_eq!(decompress_zlib(&[0x88, 0x1c, 0], 0), Err(InflateError::BadZlibHeader));
    assert_eq!(decompress_zlib(&[0x78, 0x20, 0], 0), Err(InflateError::PresetDictionary));
    assert_eq!(decompress_zlib(&[0x78, 0x01], 0), Err(InflateError::UnexpectedEof));
}

#[test]
fn block_errors() {
    assert_eq!(refused(Bits::new().bit(1).number(3, 2)), InflateError::InvalidBlockType);
    let mut stored = Bits::new();
    stored.bit(1).number(0, 2).number(0, 5).number(1, 16).number(1, 16);
    assert_eq!(refused(&stored), InflateError::InvalidStoredLength);
    let mut short = Bits::new();
    short.bit(1).number(0, 2).number(0, 5).number(9, 16).number(65526, 16);
    assert_eq!(refused(&short), InflateError::UnexpectedEof);
}

#[test]
fn header_errors() {
    assert_eq!(
        refused(Bits::new().bit(1).number(2, 2).number(30, 5).number(0, 5).number(0, 4)),
        InflateError::InvalidHlit
    );
    assert_eq!(
        refused(Bits::new().bit(1).number(2, 2).number(29, 5).number(30, 5).number(0, 4)),
        InflateError::InvalidHdist
    );
    // No code length has a codeword.
    assert_eq!(
        refused(Bits::new().bit(1).number(2, 2).number(0, 5).number(0, 5).number(0, 4).number(0, 12)),
        InflateError::BadCodeLengthTree
    );
    // A repeat with nothing to repeat: the alphabet holds 0 and 16.
    let mut repeat = Bits::new();
    repeat.bit(1).number(2, 2).number(0, 5).number(0, 5).number(0, 4);
    repeat.number(1, 3).number(0, 3).number(0, 3).number(1, 3).code(1, 1).number(0, 2);
    assert_eq!(refused(&repeat), InflateError::InvalidCodeLengthRepeat);
    // Zeros past the end of the alphabets: 138 and 138 where 258 are wanted.
    let mut past = Bits::new();
    past.bit(1).number(2, 2).number(0, 5).number(0, 5).number(0, 4);
    past.number(0, 3).number(0, 3).number(1, 3).number(1, 3);
    past.code(1, 1).number(127, 7).code(1, 1).number(127, 7);
    assert_eq!(refused(&past), InflateError::InvalidCodeLengthRepeat);
    // No literal has a codeword.
    let mut none = Bits::new();
    none.bit(1).number(2, 2).number(0, 5).number(0, 5).number(0, 4);
    none.number(0, 3).number(0, 3).number(1, 3).number(1, 3);
    none.code(1, 1).number(127, 7).code(1, 1).number(109, 7);
    assert_eq!(refused(&none), InflateError::BadLiteralLengthTree);
}

/// A dynamic header with codewords of one bit for the literal 0 and the end of the block, and
/// distance codewords of one or two bits.
fn two_symbols(distances: &[u32]) -> Bits {
    let mut bits = Bits::new();
    bits.bit(1).number(2, 2).number(0, 5).number(distances.len() as u32 - 1, 5).number(14, 4);
    // 16, 17, 18, 0, 8, 7, 9, 6, 10, 5, 11, 4, 12, 3, 13, 2, 14, 1.
    for clcl in [0, 0, 1, 0, 0, 0, 0, 0, 0, 0, 0, 0, 0, 0, 0, 2, 0, 2] {
        bits.number(clcl, 3);
    }
    bits.code(0b10, 2).code(0, 1).number(127, 7).code(0, 1).number(106, 7).code(0b10, 2);
    for &length in distances {
        bits.code(if length == 1 { 0b10 } else { 0b11 }, 2);
    }
    bits
}

#[test]
fn distance_codes_must_be_usable() {
    assert_eq!(refused(&two_symbols(&[2, 2])), InflateError::BadDistanceTree);
    assert_eq!(refused(&two_symbols(&[1, 2])), InflateError::BadDistanceTree);
    assert_eq!(refused(&two_symbols(&[1, 1, 1])), InflateError::BadDistanceTree);
    // A single codeword is, whatever its length, and so is a complete code. Literal 0 twice,
    // then the end.
    for distances in [&[1][..], &[2], &[1, 1], &[1, 2, 2]] {
        let mut fine = two_symbols(distances);
        fine.code(0, 1).code(0, 1).code(1, 1);
        assert_eq!(decompress_zlib(&fine.finish(&[0, 0]), 2), Ok(vec![0, 0]));
    }
}

#[test]
fn symbol_errors() {
    let fixed = || {
        let mut bits = Bits::new();
        bits.bit(1).number(1, 2);
        bits
    };
    assert_eq!(
        refused(fixed().code(0b11000110, 8)),
        InflateError::InvalidLiteralLengthCode
    );
    assert_eq!(
        refused(fixed().code(0b0000001, 7).code(0b11110, 5)),
        InflateError::InvalidDistanceCode
    );
    assert_eq!(
        refused(fixed().code(0b0000001, 7).code(0, 5)),
        InflateError::DistanceTooFarBack
    );
}

#[test]
fn fixed_codes_and_matches() {
    // "ab", a match of five bytes at distance two, the end.
    let mut bits = Bits::new();
    bits.bit(1).number(1, 2).code(0x30 + 97, 8).code(0x30 + 98, 8);
    bits.code(0b0000011, 7).code(1, 5).code(0, 7);
    assert_eq!(decompress_zlib(&bits.finish(b"ababababa"[..7].as_ref()), 7), Ok(b"abababa".to_vec()));
    // The longest match, 258 copies of one byte.
    let mut long = Bits::new();
    long.bit(1).number(1, 2).code(0x30 + 7, 8).code(0b11000101, 8).code(0, 5).code(0, 7);
    let data = vec![7u8; 259];
    assert_eq!(decompress_zlib(&long.finish(&data), 259), Ok(data));
}

#[test]
fn stored_blocks() {
    let mut bits = Bits::new();
    bits.bit(0).number(0, 2).number(0, 5).number(2, 16).number(65533, 16).number(5, 8).number(6, 8);
    bits.bit(1).number(0, 2).number(0, 5).number(0, 16).number(65535, 16);
    assert_eq!(decompress_zlib(&bits.finish(&[5, 6]), 2), Ok(vec![5, 6]));
}

#[test]
fn lengths_and_checksums() {
    let stream = compress_zlib(b"some bytes");
    assert_eq!(decompress_zlib(&stream, 10), Ok(b"some bytes".to_vec()));
    assert_eq!(decompress_zlib(&stream, 9), Err(InflateError::OutputOverflow));
    assert_eq!(decompress_zlib(&stream, 11), Err(InflateError::OutputUnderflow));
    let mut wrong = stream.clone();
    let end = wrong.len() - 1;
    wrong[end] ^= 1;
    assert_eq!(decompress_zlib(&wrong, 10), Err(InflateError::WrongChecksum));
    let mut inflater = Inflater::new();
    let mut output = vec![0u8; 10 + OUTPUT_SLACK];
    inflater.verify_checksum(false);
    assert_eq!(inflater.zlib(&wrong, &mut output), Ok(10));
    assert_eq!(&output[..10], b"some bytes");
    inflater.verify_checksum(true);
    assert_eq!(inflater.zlib(&wrong, &mut output), Err(InflateError::WrongChecksum));
    assert_eq!(inflater.zlib_at_most(&stream, &mut [0u8; 40]), Ok(10));
}

#[test]
fn an_expansion_that_cannot_be_held_is_refused() {
    let stream = compress_zlib(b"x");
    let refusal = decompress_zlib(&stream, isize::MAX as usize).unwrap_err();
    assert!(matches!(refusal, InflateError::OutOfMemory { .. }), "{refusal:?}");
}

#[test]
fn a_stream_cut_anywhere_is_refused() {
    for data in [vec![], vec![9u8; 3000], (0..3000u32).map(|i| (i * i >> 3) as u8).collect()] {
        let stream = compress_zlib(&data);
        for cut in 0..stream.len() {
            assert!(decompress_zlib_to_vec(&stream[..cut], 1 << 20).is_err(), "cut at {cut}");
        }
        assert_eq!(decompress_zlib_to_vec(&stream, 1 << 20), Ok(data));
    }
}

#[test]
fn a_larger_limit_changes_nothing() {
    let data: Vec<u8> = (0..5000u32).map(|i| (i % 17) as u8).collect();
    let stream = compress_zlib(&data);
    for limit in [5000, 5001, 6000, 1 << 20] {
        assert_eq!(decompress_zlib_to_vec(&stream, limit), Ok(data.clone()));
    }
    assert_eq!(decompress_zlib_to_vec(&stream, 4999), Err(InflateError::OutputOverflow));
}

#[test]
fn small_input_does_not_grow() {
    let mut state = 1u32;
    for len in [0usize, 1, 2, 100, 65535, 65536, 200_000] {
        let data: Vec<u8> = (0..len)
            .map(|_| {
                state = state.wrapping_mul(1_664_525).wrapping_add(1_013_904_223);
                (state >> 24) as u8
            })
            .collect();
        let size = compress_zlib(&data).len();
        let blocks = len.div_ceil(65535).max(1);
        assert!(size <= len + 6 + 5 * blocks, "{len} became {size}");
    }
}

#[test]
fn the_smallest_streams() {
    // An empty block: three bits, padding, lengths of zero; or a coded block that holds only
    // its end. Either way it decodes to nothing.
    let empty = compress_zlib(b"");
    assert_eq!(&empty[..2], &[0x78, 0x01]);
    assert_eq!(&empty[empty.len() - 4..], &[0, 0, 0, 1]);
    let mut raw = Vec::new();
    Deflater::new().raw(b"", &mut raw);
    assert_eq!(&empty[2..empty.len() - 4], &raw[..]);
}

#[test]
fn a_refused_buffer_is_one_of_the_attempts() {
    // The stream expands to far more than any guess, and the ceiling to more than there is.
    let stream = compress_zlib(&vec![0u8; 1 << 20]);
    let first = (4 * stream.len()).max(1024);
    assert_eq!(decompress_zlib_to_vec(&stream, usize::MAX).map(|out| out.len()), Ok(1 << 20));
    assert_eq!(decompress_zlib_to_vec(&stream, first), Err(InflateError::OutputOverflow));
}
