use brotli_cost::bit_cost::{BitsEntropy, BrotliPopulationCost, ShannonEntropy};
use brotli_cost::histogram::Histogram;
use brotli_cost::log2::{FastLog2, ONE_BIT};

fn histogram(counts: &[u32], size: usize) -> Histogram {
    let mut data = vec![0u32; size];
    data[..counts.len()].copy_from_slice(counts);
    Histogram::from_counts(data).unwrap()
}

fn bits(cost: i128) -> f64 {
    cost as f64 / ONE_BIT as f64
}

#[test]
fn one_symbol_costs_twelve_bits() {
    assert_eq!(bits(BrotliPopulationCost(&histogram(&[10], 256))), 12.0);
}

#[test]
fn two_symbols_cost_twenty_plus_counts() {
    assert_eq!(bits(BrotliPopulationCost(&histogram(&[7, 0, 0, 5], 256))), 32.0);
    assert_eq!(bits(BrotliPopulationCost(&histogram(&[5, 5], 256))), 30.0);
}

#[test]
fn three_equal_symbols() {
    assert_eq!(bits(BrotliPopulationCost(&histogram(&[3, 3, 3], 256))), 43.0);
}

#[test]
fn empty_histogram_costs_twelve_bits() {
    assert_eq!(bits(BrotliPopulationCost(&histogram(&[], 256))), 12.0);
    assert_eq!(bits(BrotliPopulationCost(&histogram(&[], 0))), 12.0);
}

#[test]
fn log2_of_powers_of_two_is_exact() {
    assert_eq!(FastLog2(0), 0);
    assert_eq!(FastLog2(1), 0);
    assert_eq!(FastLog2(2), 65536);
    assert_eq!(FastLog2(1024), 10 * 65536);
    assert_eq!(FastLog2(1 << 40), 40 * 65536);
}

#[test]
fn entropy_of_uniform_counts() {
    let mut total = 0usize;
    let e = ShannonEntropy(&[4, 4, 4, 4], 4, &mut total);
    assert_eq!(total, 16);
    assert_eq!(bits(e), 32.0);
    assert_eq!(bits(BitsEntropy(&[4, 4, 4, 4], 4)), 32.0);
    assert_eq!(bits(BitsEntropy(&[9, 0, 0, 0], 4)), 9.0);
}
