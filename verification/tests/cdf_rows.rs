use brotli_cost::cdf::{
    compute_combined_cost, compute_cost, extract_single_cdf, init_cdfs, update_cdf,
    update_one_cdf, MAXES_TO_SEARCH, SPEEDS_TO_SEARCH,
};

fn fresh_row() -> Vec<u16> {
    let mut row = vec![0u16; 256];
    init_cdfs(&mut row);
    row
}

fn assert_mass_everywhere(row: &[u16]) {
    for speed in 0..16 {
        assert!(row[speed] > 0);
        for bucket in 1..16 {
            assert!(row[bucket * 16 + speed] > row[(bucket - 1) * 16 + speed]);
        }
    }
}

#[test]
fn init_sets_a_ramp_of_four_per_bucket() {
    let mut bank = vec![9u16; 512];
    init_cdfs(&mut bank);
    for i in 0..512 {
        assert_eq!(bank[i] as usize, 4 + 4 * ((i / 16) % 16));
    }
}

#[test]
fn init_of_nothing_is_nothing() {
    let mut bank: Vec<u16> = Vec::new();
    init_cdfs(&mut bank);
    assert!(bank.is_empty());
}

#[test]
fn fresh_row_prices_every_nibble_at_four_bits() {
    let row = fresh_row();
    for nibble in 0..16u8 {
        let mut cost = [0i128; 16];
        compute_cost(&mut cost, &row, nibble);
        assert_eq!(cost, [4 * 65536i128; 16]);
    }
}

#[test]
fn cost_is_added_to_what_was_there() {
    let row = fresh_row();
    let mut cost = [65536i128; 16];
    compute_cost(&mut cost, &row, 7);
    compute_cost(&mut cost, &row, 0);
    assert_eq!(cost, [9 * 65536i128; 16]);
}

#[test]
fn update_adds_the_increment_from_the_nibble_up() {
    let mut row = fresh_row();
    update_cdf(&mut row, 3);
    // speed 5 adds 4 and stays below its ceiling of 1024
    for bucket in 0..16 {
        let expected = 4 + 4 * bucket + if bucket >= 3 { 4 } else { 0 };
        assert_eq!(row[bucket * 16 + 5] as usize, expected);
    }
    // speed 14 adds 1664 and stays below its ceiling of 16384
    assert_eq!(row[2 * 16 + 14], 12);
    assert_eq!(row[3 * 16 + 14], 16 + 1664);
    assert_eq!(row[15 * 16 + 14], 64 + 1664);
    assert_mass_everywhere(&row);
}

#[test]
fn update_rescales_a_speed_at_its_ceiling() {
    let mut row = fresh_row();
    update_cdf(&mut row, 3);
    // speed 0 adds nothing and has the ceiling 32, below the fresh top of 64
    for bucket in 0..16usize {
        let biased = 4 + 4 * bucket + bucket + 1;
        assert_eq!(row[bucket * 16] as usize, biased - biased / 4);
    }
    // speed 7 adds 16 and has the ceiling 48
    for bucket in 0..16usize {
        let biased = 4 + 4 * bucket + if bucket >= 3 { 16 } else { 0 } + bucket + 1;
        assert_eq!(row[bucket * 16 + 7] as usize, biased - biased / 4);
    }
}

#[test]
fn learned_nibble_gets_cheaper() {
    let mut row = fresh_row();
    for _ in 0..20 {
        update_cdf(&mut row, 9);
    }
    let mut seen = [0i128; 16];
    let mut unseen = [0i128; 16];
    compute_cost(&mut seen, &row, 9);
    compute_cost(&mut unseen, &row, 2);
    for speed in [4usize, 5, 6, 8, 9, 10, 12, 13, 14, 15] {
        assert!(seen[speed] < 4 * 65536, "speed {}", speed);
        assert!(unseen[speed] > 4 * 65536, "speed {}", speed);
    }
    // speed 10 adds 64 per observation: nibble 9 has the mass 4 + 1280 of 64 + 1280
    assert_eq!(seen[10], brotli_cost::log2::FastLog2(1344) as i128 - brotli_cost::log2::FastLog2(1284) as i128);
    assert_eq!(unseen[10], brotli_cost::log2::FastLog2(1344) as i128 - 2 * 65536);
}

#[test]
fn mass_survives_long_runs_of_updates() {
    let mut row = fresh_row();
    let mut state = 12345u32;
    for _ in 0..20000 {
        state = state.wrapping_mul(1664525).wrapping_add(1013904223);
        update_cdf(&mut row, (state >> 28) as u8);
        assert_mass_everywhere(&row);
        for speed in 0..16 {
            assert!(row[15 * 16 + speed] <= 16384);
        }
    }
    for _ in 0..20000 {
        update_cdf(&mut row, 15);
        assert_mass_everywhere(&row);
    }
    for _ in 0..20000 {
        update_cdf(&mut row, 0);
        assert_mass_everywhere(&row);
    }
}

#[test]
fn update_of_one_speed_leaves_the_others() {
    let mut row = fresh_row();
    let before = row.clone();
    update_one_cdf(&mut row, 4, 9, 16);
    for i in 0..256 {
        if i % 16 == 9 {
            let bucket = i / 16;
            let expected = 4 + 4 * bucket + if bucket >= 4 { 32 } else { 0 };
            assert_eq!(row[i] as usize, expected);
        } else {
            assert_eq!(row[i], before[i]);
        }
    }
}

#[test]
fn update_of_one_speed_matches_the_full_update() {
    let mut all = fresh_row();
    let mut state = 7u32;
    let mut single = fresh_row();
    for _ in 0..5000 {
        state = state.wrapping_mul(1664525).wrapping_add(1013904223);
        let nibble = (state >> 28) as u8;
        update_cdf(&mut all, nibble);
        update_one_cdf(&mut single, nibble, 11, 16);
        assert_eq!(extract_single_cdf(&all, 11), extract_single_cdf(&single, 11));
    }
    assert_eq!(extract_single_cdf(&single, 3), extract_single_cdf(&fresh_row(), 3));
}

#[test]
fn single_cdf_is_one_column() {
    let mut row = fresh_row();
    update_cdf(&mut row, 6);
    let cdf = extract_single_cdf(&row, 13);
    for bucket in 0..16 {
        assert_eq!(cdf[bucket], row[bucket * 16 + 13]);
    }
    assert_eq!(cdf[5], 24);
    assert_eq!(cdf[6], 28 + 512);
}

#[test]
fn blend_of_equal_models_costs_the_same() {
    let row = fresh_row();
    let mixing = extract_single_cdf(&row, 0);
    let mut cost = [0i128; 16];
    compute_combined_cost(&mut cost, &row, mixing, 5);
    assert_eq!(cost, [4 * 65536i128; 16]);
}

#[test]
fn blend_weighs_the_mixing_model_three_to_one() {
    let mut row = fresh_row();
    for _ in 0..3 {
        update_cdf(&mut row, 15);
    }
    // speed 10 adds 64: the top is 64 + 192 = 256 and nibble 15 has the mass 196
    assert_eq!(row[15 * 16 + 10], 256);
    assert_eq!(row[14 * 16 + 10], 60);
    let mixing = extract_single_cdf(&fresh_row(), 0);
    let mut cost = [0i128; 16];
    compute_combined_cost(&mut cost, &row, mixing, 15);
    // mass (196 + 3 * 4) / 4 = 52 of (256 + 3 * 64) / 4 = 112
    let expected = brotli_cost::log2::FastLog2(112) as i128 - brotli_cost::log2::FastLog2(52) as i128;
    assert_eq!(cost[10], expected);
    assert_eq!(expected, 72543);
}

#[test]
fn the_speeds_pair_increments_with_ceilings() {
    assert_eq!(SPEEDS_TO_SEARCH[0], 0);
    assert_eq!(MAXES_TO_SEARCH[0], 32);
    assert_eq!(SPEEDS_TO_SEARCH[15], 1664);
    assert_eq!(MAXES_TO_SEARCH[15], 16384);
    assert_eq!(SPEEDS_TO_SEARCH[7], 16);
    assert_eq!(MAXES_TO_SEARCH[7], 48);
}

#[test]
fn row_check_tells_valid_rows() {
    let mut row = fresh_row();
    assert!(brotli_cost::cdf::is_valid_row(&row));
    update_cdf(&mut row, 11);
    assert!(brotli_cost::cdf::is_valid_row(&row));
    assert!(!brotli_cost::cdf::is_valid_row(&row[..255]));
    assert!(!brotli_cost::cdf::is_valid_row(&vec![0u16; 256]));
    let mut flat = fresh_row();
    flat[5 * 16 + 3] = flat[4 * 16 + 3];
    assert!(!brotli_cost::cdf::is_valid_row(&flat));
    let mut tall = fresh_row();
    tall[15 * 16 + 9] = 16385;
    assert!(!brotli_cost::cdf::is_valid_row(&tall));
    tall[15 * 16 + 9] = 16384;
    assert!(brotli_cost::cdf::is_valid_row(&tall));
}
