use iomap::binary64::{quotient_double, round_to_even, to_double};

#[test]
fn rounding_goes_to_the_nearest_and_ties_to_even() {
    assert_eq!(round_to_even(0, 7), 0);
    assert_eq!(round_to_even(10, 4), 2);
    assert_eq!(round_to_even(14, 4), 4);
    assert_eq!(round_to_even(11, 4), 3);
    assert_eq!(round_to_even(9, 4), 2);
    assert_eq!(round_to_even(5, 10), 0);
    assert_eq!(round_to_even(15, 10), 2);
    assert_eq!(round_to_even(25, 10), 2);
    assert_eq!(round_to_even(7, 1), 7);
    assert_eq!(round_to_even(u128::MAX, 1), u128::MAX);
    assert_eq!(round_to_even(u128::MAX, 2), 1u128 << 127);
    assert_eq!(round_to_even(u128::MAX, u128::MAX), 1);
    assert_eq!(round_to_even(u128::MAX / 2, u128::MAX), 0);
    assert_eq!(round_to_even(u128::MAX / 2 + 1, u128::MAX), 1);
}

#[test]
fn whole_numbers_become_the_double_that_a_cast_gives() {
    let check = |n: u64| assert_eq!(to_double(n), (n as f64) as u128, "{}", n);
    let mut shift = 0;
    while shift < 64 {
        let p = 1u64 << shift;
        for n in [p, p - 1, p + 1, p + (p >> 1), u64::MAX >> shift, p.wrapping_mul(3)] {
            check(n);
        }
        shift += 1;
    }
    let mut k = 0;
    while k < 10_000 {
        check(u64::MAX - k);
        check((1u64 << 53) - 5_000 + k);
        check((1u64 << 54) - 5_000 + k);
        check((1u64 << 63) - 5_000 + k);
        k += 1;
    }
    let mut state: u64 = 1;
    let mut round = 0;
    while round < 100_000 {
        state = state.wrapping_mul(6_364_136_223_846_793_005).wrapping_add(1_442_695_040_888_963_407);
        check(state);
        check(state >> 9);
        round += 1;
    }
    assert_eq!(to_double(u64::MAX), 1u128 << 64);
    assert_eq!(to_double((1u64 << 53) + 1), 1u128 << 53);
    assert_eq!(to_double((1u64 << 53) + 3), (1u128 << 53) + 4);
}

#[test]
fn a_quotient_becomes_the_double_that_division_gives() {
    let check = |n: u64, d: u32| {
        let whole = to_double(n);
        let (m, unit) = quotient_double(whole, d as u128);
        let expected = n as f64 / d as f64;
        assert_eq!(m as f64 / unit as f64, expected, "{} / {}", n, d);
        if n > 0 {
            assert!(m >= 1u128 << 52 && m <= 1u128 << 53, "{} / {}", n, d);
        } else {
            assert_eq!((m, unit), (0, 1));
        }
    };
    for n in [0u64, 1, 2, 3, 50_000, 150_000, 250_000, 999_999, 1_000_000, 1_000_001, u64::MAX] {
        check(n, 1_000_000);
    }
    assert_eq!(quotient_double(1, 1), (1u128 << 52, 1u128 << 52));
    assert_eq!(quotient_double(1, 3), (6_004_799_503_160_661, 1u128 << 54));
    assert_eq!(quotient_double(250_000, 1_000_000), (1u128 << 52, 1u128 << 54));
    assert_eq!(quotient_double(3u128 << 60, 1), (3u128 << 60, 1));
    let mut state: u64 = 7;
    let mut round = 0;
    while round < 100_000 {
        state = state.wrapping_mul(6_364_136_223_846_793_005).wrapping_add(1_442_695_040_888_963_407);
        check(state >> (round % 64), 1_000_000);
        check((state >> (round % 64)) % (3u64 << 52), 3);
        check((state >> (round % 64)) >> 12, ((state >> 32) as u32) | 0x1000);
        round += 1;
    }
}
