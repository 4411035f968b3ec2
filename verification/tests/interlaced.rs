//! Interlaced files, put together pass by pass.

use png_spark::common::{adam7_pass_size, row_bytes_for, ADAM7_PASSES, SIGNATURE};
use png_spark::crc32::crc32;
use png_spark::deflate::compress_zlib;
use png_spark::{decode, encode, BitDepth, ColorType, Error, Filter, Info, Interlacing};

fn chunk(kind: &[u8; 4], body: &[u8]) -> Vec<u8> {
    let mut bytes = (body.len() as u32).to_be_bytes().to_vec();
    bytes.extend_from_slice(kind);
    bytes.extend_from_slice(body);
    bytes.extend_from_slice(&crc32(&bytes[4..]).to_be_bytes());
    bytes
}

fn bits_at(row: &[u8], at: usize, count: usize) -> u64 {
    (0..count).fold(0, |value, i| {
        let bit = at + i;
        value << 1 | (row[bit / 8] >> (7 - bit % 8) & 1) as u64
    })
}

fn put_bits(row: &mut [u8], at: usize, count: usize, value: u64) {
    for i in 0..count {
        let bit = at + i;
        let one = (value >> (count - 1 - i) & 1) as u8;
        row[bit / 8] |= one << (7 - bit % 8);
    }
}

/// The scanlines of all passes, unfiltered, each behind a zero byte.
fn interlace(info: &Info, data: &[u8]) -> Vec<u8> {
    let (width, height) = (info.width as usize, info.height as usize);
    let bits = info.bits_per_pixel();
    let mut raw = Vec::new();
    for (pass, &(x_start, y_start, x_step, y_step)) in ADAM7_PASSES.iter().enumerate() {
        let (across, down) = adam7_pass_size(pass, width, height);
        if across == 0 || down == 0 {
            continue;
        }
        for row in 0..down {
            let y = y_start + row * y_step;
            let source = &data[y * info.row_bytes()..(y + 1) * info.row_bytes()];
            let mut line = vec![0u8; row_bytes_for(across, bits)];
            for k in 0..across {
                let x = x_start + k * x_step;
                for part in 0..bits {
                    let bit = bits_at(source, x * bits + part, 1);
                    put_bits(&mut line, k * bits + part, 1, bit);
                }
            }
            raw.push(0);
            raw.extend_from_slice(&line);
        }
    }
    raw
}

fn file(info: &Info, raw: &[u8]) -> Vec<u8> {
    let mut header = info.width.to_be_bytes().to_vec();
    header.extend_from_slice(&info.height.to_be_bytes());
    header.extend_from_slice(&[info.bit_depth.bits() as u8, info.color_type.to_byte(), 0, 0, 1]);
    let mut png = SIGNATURE.to_vec();
    png.extend_from_slice(&chunk(b"IHDR", &header));
    png.extend_from_slice(&chunk(b"IDAT", &compress_zlib(raw)));
    png.extend_from_slice(&chunk(b"IEND", b""));
    png
}

fn pixels(info: &Info) -> Vec<u8> {
    let bits = info.bits_per_pixel();
    let mut data = vec![0u8; info.output_size()];
    let row_bytes = info.row_bytes();
    let mut state = 7u32;
    for y in 0..info.height as usize {
        let row = &mut data[y * row_bytes..(y + 1) * row_bytes];
        for bit in 0..info.width as usize * bits {
            state = state.wrapping_mul(1_664_525).wrapping_add(1_013_904_223);
            put_bits(row, bit, 1, (state >> 31) as u64);
        }
    }
    data
}

#[test]
fn interlaced_images_of_every_size_are_put_together() {
    let layouts = [
        (ColorType::Grayscale, BitDepth::One),
        (ColorType::Grayscale, BitDepth::Two),
        (ColorType::Grayscale, BitDepth::Four),
        (ColorType::Grayscale, BitDepth::Eight),
        (ColorType::Rgb, BitDepth::Eight),
        (ColorType::Rgba, BitDepth::Sixteen),
    ];
    for (color_type, bit_depth) in layouts {
        for width in 1..=9u32 {
            for height in 1..=9u32 {
                let mut info = Info::new(width, height, color_type, bit_depth);
                info.interlacing = Interlacing::Adam7;
                let data = pixels(&info);
                let raw = interlace(&info, &data);
                assert_eq!(raw.len(), info.decompressed_size());
                let image = decode(&file(&info, &raw)).unwrap();
                assert_eq!(image.data, data, "{color_type:?} {bit_depth:?} {width}x{height}");
                assert_eq!(image.info.interlacing, Interlacing::Adam7);

                // Written again it is sequential, with the same pixels.
                let again = decode(&encode(&image.info, &image.data).unwrap()).unwrap();
                assert_eq!(again.data, data);
                assert_eq!(again.info.interlacing, Interlacing::Sequential);
            }
        }
    }
}

#[test]
fn pass_sizes() {
    let sizes: Vec<(usize, usize)> = (0..7).map(|pass| adam7_pass_size(pass, 8, 8)).collect();
    assert_eq!(sizes, [(1, 1), (1, 1), (2, 1), (2, 2), (4, 2), (4, 4), (8, 4)]);
    let small: Vec<(usize, usize)> = (0..7).map(|pass| adam7_pass_size(pass, 1, 1)).collect();
    assert_eq!(small, [(1, 1), (0, 1), (1, 0), (0, 1), (1, 0), (0, 1), (1, 0)]);
}

#[test]
fn every_pixel_comes_in_one_pass() {
    for (width, height) in [(1, 1), (5, 7), (8, 8), (13, 31)] {
        let mut seen = vec![0; width * height];
        for (pass, &(x_start, y_start, x_step, y_step)) in ADAM7_PASSES.iter().enumerate() {
            let (across, down) = adam7_pass_size(pass, width, height);
            for row in 0..down {
                for k in 0..across {
                    seen[(y_start + row * y_step) * width + x_start + k * x_step] += 1;
                }
            }
        }
        assert!(seen.iter().all(|&count| count == 1), "{width}x{height}");
    }
}

#[test]
fn a_bad_filter_is_counted_over_all_passes() {
    // Eight by eight: the passes have 1, 1, 1, 2, 2, 4 and 4 scanlines.
    let mut info = Info::new(8, 8, ColorType::Grayscale, BitDepth::Eight);
    info.interlacing = Interlacing::Adam7;
    let mut raw = interlace(&info, &pixels(&info));
    // The second scanline of the fourth pass follows three passes and one scanline.
    let at = (1 + 1) + (1 + 1) + (1 + 2) + (1 + 2);
    raw[at] = 9;
    assert_eq!(decode(&file(&info, &raw)), Err(Error::InvalidFilter { row: 4 }));
}

#[test]
fn passes_are_filtered_on_their_own() {
    // Two rows of one pixel each: the first pass holds one, the last the other, and nothing
    // is above either.
    let mut info = Info::new(1, 2, ColorType::Grayscale, BitDepth::Eight);
    info.interlacing = Interlacing::Adam7;
    let up = Filter::Up.to_byte();
    let image = decode(&file(&info, &[up, 5, up, 6])).unwrap();
    assert_eq!(image.data, vec![5, 6]);
}
