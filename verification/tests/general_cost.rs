use brotli_cost::bit_cost::{BitsEntropy, BrotliPopulationCost, CostComputation, ShannonEntropy};
use brotli_cost::histogram::Histogram;
use brotli_cost::log2::FastLog2;

fn cost(counts: Vec<u32>) -> i128 {
    BrotliPopulationCost(&Histogram::from_counts(counts).unwrap())
}

fn padded(counts: &[u32], zeros: usize) -> Vec<u32> {
    let mut data = counts.to_vec();
    data.extend(std::iter::repeat(0).take(zeros));
    data
}

#[test]
fn four_symbols_follow_the_closed_form() {
    // sorted 9 3 2 1: 37 + 3 * 3 + 2 * 12 - max(3, 9)
    assert_eq!(cost(padded(&[9, 1, 2, 3], 4)), 61 * 65536);
    // sorted 4 3 2 1: 37 + 3 * 3 + 2 * 7 - max(3, 4)
    assert_eq!(cost(vec![4, 3, 2, 1]), 56 * 65536);
    // sorted 1 1 1 1: 37 + 3 * 2 + 2 * 2 - max(2, 1)
    assert_eq!(cost(vec![1, 1, 1, 1]), 45 * 65536);
    // sorted 10 1 1 1: 37 + 3 * 2 + 2 * 11 - max(2, 10)
    assert_eq!(cost(vec![0, 10, 0, 1, 1, 0, 0, 1]), 55 * 65536);
}

#[test]
fn three_symbols_follow_the_closed_form() {
    assert_eq!(cost(vec![2, 0, 9, 4]), (28 + 2 * 15 - 9) * 65536);
    assert_eq!(cost(vec![100, 100, 100]), (28 + 5 * 100) * 65536);
}

#[test]
fn large_counts_do_not_wrap() {
    let big = u32::MAX;
    assert_eq!(cost(vec![big, big]), (20 + 2 * big as i128) * 65536);
    assert_eq!(cost(vec![big, big, big]), (28 + 5 * big as i128) * 65536);
    assert_eq!(cost(vec![big, big, big, big]), (37 + 8 * big as i128) * 65536);
}

#[test]
fn five_symbols_take_the_general_path() {
    // 3 repeat codes for the 251 zeros, depths 4 3 2 2 2, deepest 4
    assert_eq!(cost(padded(&[1, 2, 3, 4, 5], 251)), 5356196);
}

#[test]
fn zero_runs_are_charged_by_length() {
    let mut data = vec![8, 0, 0, 8, 0, 8, 0, 0, 0, 8, 8];
    data.extend(std::iter::repeat(0).take(20));
    data.extend([100, 1]);
    assert_eq!(cost(data), 18810976);
}

#[test]
fn a_busy_histogram() {
    let data: Vec<u32> = (0..256u32).map(|i| (i * 37) % 11).collect();
    assert_eq!(cost(data), 677517194);
}

#[test]
fn general_cost_is_close_to_the_real_numbers() {
    let data = padded(&[1, 2, 3, 4, 5], 251);
    let total = 15.0f64;
    let symbols: f64 = [1.0f64, 2.0, 3.0, 4.0, 5.0].iter().map(|c| c * (total / c).log2()).sum();
    let depth_entropy = 8.0 * 8.0f64.log2() - 2.0 * 3.0 * 3.0f64.log2();
    let expected = 9.0 + symbols + 18.0 + 2.0 * 4.0 + depth_entropy;
    let got = cost(data) as f64 / 65536.0;
    assert!((got - expected).abs() < 0.001, "{} against {}", got, expected);
}

#[test]
fn cost_computation_tallies_depths() {
    let mut depth_histo = [0u32; 18];
    depth_histo[0] = 2;
    depth_histo[17] = 1;
    let counts = [1u32, 2, 3, 4, 5, 99];
    let bits = CostComputation(&mut depth_histo, &counts, 5, FastLog2(15));
    assert_eq!(depth_histo, [2, 0, 3, 1, 1, 0, 0, 0, 0, 0, 0, 0, 0, 0, 0, 0, 0, 1]);
    let symbols: i128 = counts[..5]
        .iter()
        .map(|c| *c as i128 * (FastLog2(15) as i128 - FastLog2(*c as u64) as i128))
        .sum();
    assert_eq!(bits, symbols + (18 + 2 * 4) * 65536 + BitsEntropy(&depth_histo, 18));
}

#[test]
fn cost_computation_clamps_depths() {
    let mut depth_histo = [0u32; 18];
    // a total far above the count is 15 deep, a total below the count 0 deep
    let bits = CostComputation(&mut depth_histo, &[1, 1 << 20], 2, 20 * 65536);
    assert_eq!(depth_histo[15], 1);
    assert_eq!(depth_histo[0], 1);
    assert_eq!(bits, 20 * 65536 + (18 + 2 * 15) * 65536 + BitsEntropy(&depth_histo, 18));
    let mut depth_histo = [0u32; 18];
    let bits = CostComputation(&mut depth_histo, &[1 << 20], 1, 0);
    assert_eq!(depth_histo[0], 1);
    assert_eq!(bits, -(1i128 << 20) * 20 * 65536 + (18 + 2) * 65536 + 65536);
}

#[test]
fn entropy_values() {
    let mut total = 7usize;
    assert_eq!(ShannonEntropy(&[1, 2, 3, 4], 4, &mut total), 1210084);
    assert_eq!(total, 10);
    assert_eq!(ShannonEntropy(&[1, 2, 3, 4], 2, &mut total), 3 * 103872 - 2 * 65536);
    assert_eq!(total, 3);
    assert_eq!(ShannonEntropy(&[1, 2, 3, 4], 0, &mut total), 0);
    assert_eq!(total, 0);
    assert_eq!(ShannonEntropy(&[5, 0, 5], 3, &mut total), 10 * 65536);
    assert_eq!(BitsEntropy(&[1, 2, 3, 4], 4), 1210084);
    // the entropy of 1000 and 1 is below one bit per symbol
    assert_eq!(BitsEntropy(&[1000, 1], 2), 1001 * 65536);
    assert_eq!(BitsEntropy(&[], 0), 0);
}

#[test]
fn histogram_keeps_counts_and_total() {
    let h = Histogram::from_counts(vec![3, 0, 4]).unwrap();
    assert_eq!(h.slice(), &[3u32, 0, 4]);
    assert_eq!(h.total_count(), 7);
    let empty = Histogram::from_counts(Vec::new()).unwrap();
    assert_eq!(empty.total_count(), 0);
    assert!(empty.slice().is_empty());
}
