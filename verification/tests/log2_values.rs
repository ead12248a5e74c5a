use brotli_cost::log2::{FastLog2, FastLog2u16, LOG2_TABLE, ONE_BIT};

#[test]
fn table_holds_rounded_logarithms() {
    assert_eq!(LOG2_TABLE[0], 0);
    for i in 1..256usize {
        let exact = (i as f64).log2() * 65536.0;
        assert!((LOG2_TABLE[i] as f64 - exact).abs() <= 0.5, "entry {}", i);
    }
}

#[test]
fn small_arguments_come_from_the_table() {
    for v in 0..256u64 {
        assert_eq!(FastLog2(v), LOG2_TABLE[v as usize]);
    }
    assert_eq!(FastLog2(3), 103872);
    assert_eq!(FastLog2(255), 523918);
}

#[test]
fn large_arguments_lie_on_the_line_between_entries() {
    assert_eq!(FastLog2(256), 8 * 65536);
    assert_eq!(FastLog2(257), 524656);
    assert_eq!(FastLog2(1000), 653118);
    assert_eq!(FastLog2(65535), 1048574);
    assert_eq!(FastLog2(1 << 20), 20 * 65536);
    assert_eq!(FastLog2((1 << 20) + 1), 20 * 65536);
    assert_eq!(FastLog2(12345678901234), 2850099);
    assert_eq!(FastLog2(u64::MAX), 64 * 65536 - 1);
    assert_eq!(FastLog2(1u64 << 63), 63 * 65536);
}

#[test]
fn logarithm_is_close_to_the_real_one() {
    let mut state = 1u64;
    for _ in 0..100000 {
        state = state.wrapping_mul(6364136223846793005).wrapping_add(1442695040888963407);
        let v = (state >> (state % 64)) | 1;
        let exact = (v as f64).log2();
        let got = FastLog2(v) as f64 / ONE_BIT as f64;
        assert!((got - exact).abs() < 0.00005, "{}: {} against {}", v, got, exact);
    }
}

#[test]
fn logarithm_never_falls() {
    let mut last = 0;
    for v in 0..200000u64 {
        let now = FastLog2(v);
        assert!(now >= last);
        last = now;
    }
}

#[test]
fn doubling_adds_one_bit() {
    for v in [1u64, 3, 127, 128, 255, 256, 999, 123456789] {
        assert_eq!(FastLog2(2 * v), FastLog2(v) + 65536);
    }
}

#[test]
fn sixteen_bit_logarithm_agrees() {
    for v in [0u16, 1, 2, 255, 256, 4097, 65535] {
        assert_eq!(FastLog2u16(v), FastLog2(v as u64));
    }
}
