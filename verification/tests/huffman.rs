//! Huffman code lengths and canonical codes.

use png_spark::huffman::{canonical_codes, Builder};

fn is_complete(lengths: &[u8]) -> bool {
    let total: u64 = lengths.iter().filter(|&&l| l > 0).map(|&l| 1u64 << (15 - l)).sum();
    total == 1 << 15
}

fn weighted_bits(frequencies: &[u32], lengths: &[u8]) -> u64 {
    frequencies.iter().zip(lengths).map(|(&f, &l)| f as u64 * l as u64).sum()
}

#[test]
fn produces_complete_trees() {
    let mut builder = Builder::new();
    let mut lengths = [0u8; 288];

    let cases: Vec<Vec<u32>> = vec![
        vec![0; 30],
        {
            let mut f = vec![0u32; 30];
            f[7] = 5;
            f
        },
        {
            let mut f = vec![0u32; 30];
            f[3] = 5;
            f[9] = 1;
            f
        },
        (0..286u32).map(|i| i % 7).collect(),
        (0..286u32).map(|i| if i == 0 { 1_000_000 } else { 1 }).collect(),
        (0..286u32).map(|i| 1u32 << (i % 28)).collect(),
    ];

    for frequencies in cases {
        builder.code_lengths(&frequencies, &mut lengths, 15);
        let used = &lengths[..frequencies.len()];
        assert!(is_complete(used), "incomplete for {frequencies:?}");
        for (symbol, &length) in used.iter().enumerate() {
            assert!(length <= 15);
            if frequencies[symbol] > 0 {
                assert!(length > 0, "symbol {symbol} used but has no code");
            }
        }
        let mut codes = [0u16; 288];
        assert!(canonical_codes(used, &mut codes));
    }
}

/// Highly skewed frequencies naturally produce codes longer than DEFLATE allows; the
/// repair must bring them under the ceiling without breaking the tree.
#[test]
fn respects_the_length_ceiling() {
    let mut builder = Builder::new();
    let mut lengths = [0u8; 288];
    // Fibonacci frequencies are the classic worst case: they force a maximally
    // unbalanced tree, one level per symbol.
    let mut frequencies = vec![0u32; 40];
    let (mut a, mut b) = (1u32, 1u32);
    for slot in frequencies.iter_mut() {
        *slot = a;
        let next = a.saturating_add(b);
        a = b;
        b = next;
    }

    for limit in [7, 15] {
        builder.code_lengths(&frequencies, &mut lengths, limit);
        assert!(lengths[..40].iter().all(|&l| l as usize <= limit));
        assert!(is_complete(&lengths[..40]));
    }
}

/// The assignment must be at least as good as giving every symbol the same length.
#[test]
fn beats_a_flat_code() {
    let mut builder = Builder::new();
    let mut lengths = [0u8; 288];
    let frequencies: Vec<u32> = (0..256u32).map(|i| 1 + (i % 5) * (i % 13)).collect();
    builder.code_lengths(&frequencies, &mut lengths, 15);

    let flat = vec![8u8; 256];
    assert!(weighted_bits(&frequencies, &lengths[..256]) <= weighted_bits(&frequencies, &flat));
}
