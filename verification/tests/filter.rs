//! The scanline filters, forward and reverse.

use png_spark::filter::{filter_row, paeth, unfilter_image, Filter};

const P: Filter = Filter::Paeth;
const S: Filter = Filter::Sub;
const U: Filter = Filter::Up;

fn round_trip<const BPP: usize>(filter: Filter, width_pixels: usize, height: usize) {
    let row_bytes = width_pixels * BPP;
    let image: Vec<u8> = (0..row_bytes * height)
        .map(|i| (i.wrapping_mul(97).wrapping_add(i / row_bytes * 13) % 256) as u8)
        .collect();

    // Build the filtered stream the way an encoder would.
    let mut stream = vec![0u8; height * (1 + row_bytes)];
    let zero_row = vec![0u8; row_bytes];
    for row in 0..height {
        let prev = if row == 0 {
            &zero_row[..]
        } else {
            &image[(row - 1) * row_bytes..row * row_bytes]
        };
        let base = row * (1 + row_bytes);
        stream[base] = filter.to_byte();
        let (before, after) = stream.split_at_mut(base + 1);
        let _ = before;
        filter_row::<BPP>(
            filter,
            prev,
            &image[row * row_bytes..(row + 1) * row_bytes],
            &mut after[..row_bytes],
        );
    }

    unfilter_image(&mut stream, row_bytes, height, BPP).unwrap();
    assert_eq!(&stream[..row_bytes * height], &image[..], "bpp {BPP} {filter:?}");
}

#[test]
fn every_filter_round_trips() {
    for filter in Filter::ALL {
        round_trip::<1>(filter, 17, 5);
        round_trip::<2>(filter, 13, 4);
        round_trip::<3>(filter, 11, 6);
        round_trip::<4>(filter, 9, 7);
        round_trip::<6>(filter, 5, 3);
        round_trip::<8>(filter, 4, 3);
    }
}

/// Narrower than one pixel stride: the whole row is "off the left edge".
#[test]
fn rows_narrower_than_the_stride() {
    for filter in Filter::ALL {
        round_trip::<8>(filter, 1, 3);
        round_trip::<4>(filter, 1, 2);
    }
}

/// Round-trips an image whose rows use `filters[row % filters.len()]`.
///
/// Reconstruction takes adjacent `Paeth` rows two at a time, so what matters is where
/// the runs of them start and stop: an odd-length run leaves a row for the single-row
/// path, and a run reaching the last row has no successor to pair with.
fn round_trip_mixed<const BPP: usize>(filters: &[Filter], width_pixels: usize, height: usize) {
    let row_bytes = width_pixels * BPP;
    let image: Vec<u8> = (0..row_bytes * height)
        .map(|i| (i.wrapping_mul(31).wrapping_add(i / row_bytes * 7) % 251) as u8)
        .collect();

    let mut stream = vec![0u8; height * (1 + row_bytes)];
    let zero_row = vec![0u8; row_bytes];
    for row in 0..height {
        let filter = filters[row % filters.len()];
        let prev = if row == 0 {
            &zero_row[..]
        } else {
            &image[(row - 1) * row_bytes..row * row_bytes]
        };
        let base = row * (1 + row_bytes);
        stream[base] = filter.to_byte();
        let (_, after) = stream.split_at_mut(base + 1);
        filter_row::<BPP>(
            filter,
            prev,
            &image[row * row_bytes..(row + 1) * row_bytes],
            &mut after[..row_bytes],
        );
    }

    unfilter_image(&mut stream, row_bytes, height, BPP).unwrap();
    assert_eq!(
        &stream[..row_bytes * height],
        &image[..],
        "bpp {BPP} {filters:?} {width_pixels}x{height}"
    );
}

/// Every arrangement of `Paeth` runs the two-row wavefront has to cope with.
#[test]
fn paeth_runs_of_every_length_and_alignment() {
    let patterns: &[&[Filter]] = &[
        &[P],             // every row, so runs bounded only by the image
        &[P, S],          // no run longer than one
        &[P, P, S],       // an even run, then a break
        &[P, P, P, S],    // an odd run, so one row is left for the single-row path
        &[P, P, P, P, U], // a longer run whose remainder lands differently each time
        &[S, P, P],       // a run that does not start at the top
        &[U, U, P],       // isolated rows between other filters
    ];

    // Heights either side of each pattern's period, so runs end mid-pattern as well as
    // on it, and in particular so a run sometimes reaches the last row of the image.
    for pattern in patterns {
        for height in 1..=9 {
            round_trip_mixed::<1>(pattern, 13, height);
            round_trip_mixed::<2>(pattern, 7, height);
            round_trip_mixed::<3>(pattern, 11, height);
            round_trip_mixed::<4>(pattern, 9, height);
            round_trip_mixed::<6>(pattern, 5, height);
            round_trip_mixed::<8>(pattern, 3, height);
        }
    }
}

/// A single pixel per row leaves the wavefront with nothing but its prologue and tail.
#[test]
fn paeth_rows_one_pixel_wide() {
    for height in 1..=5 {
        round_trip_mixed::<3>(&[Filter::Paeth], 1, height);
        round_trip_mixed::<4>(&[Filter::Paeth], 1, height);
        round_trip_mixed::<1>(&[Filter::Paeth], 2, height);
    }
}

/// The predictor written out literally: of left, above and upper left the one nearest to the
/// linear estimate, in that order.
fn reference(a: u8, b: u8, c: u8) -> u8 {
    let p = a as i32 + b as i32 - c as i32;
    let pa = (p - a as i32).abs();
    let pb = (p - b as i32).abs();
    let pc = (p - c as i32).abs();
    if pa <= pb && pa <= pc {
        a
    } else if pb <= pc {
        b
    } else {
        c
    }
}

#[test]
fn paeth_matches_the_specification() {
    for a in 0..=255u8 {
        for b in [0u8, 1, 63, 127, 128, 200, 255] {
            for c in [0u8, 1, 63, 127, 128, 200, 255] {
                assert_eq!(paeth(a as i16, b as i16, c as i16), reference(a, b, c), "{a} {b} {c}");
            }
        }
    }
}
