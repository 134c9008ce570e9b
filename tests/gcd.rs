use gcdn::{gcd2, gcd3, gcd4, gcdn};

#[test]
fn test_gcd2() {
    assert_eq!(gcd2(5, 3), 1u32);
    assert_eq!(gcd2(3, 3), 3u32);
    assert_eq!(gcd2(5, 25), 5u32);
    assert_eq!(gcd2(4, 2), 2u32);
    assert_eq!(gcd2(4, 8), 4u32);
    assert_eq!(gcd2(0, 25), 25u32);
    assert_eq!(gcd2(4, 0), 4u32);
}

#[test]
fn test_gcd3() {
    assert_eq!(gcd3(5, 4, 3), 1u32);
    assert_eq!(gcd3(5, 3, 3), 1u32);
    assert_eq!(gcd3(7, 14, 28), 7u32);
    assert_eq!(gcd3(3, 3, 3), 3u32);
    assert_eq!(gcd3(120, 5, 25), 5u32);
    assert_eq!(gcd3(4, 4, 2), 2u32);
    assert_eq!(gcd3(16, 4, 8), 4u32);
    assert_eq!(gcd3(0, 5, 25), 5u32);
    assert_eq!(gcd3(4, 0, 2), 2u32);
    assert_eq!(gcd3(16, 4, 0), 4u32);
}

#[test]
fn test_gcd4() {
    assert_eq!(gcd4(4, 5, 4, 3), 1u32);
    assert_eq!(gcd4(5, 5, 3, 3), 1u32);
    assert_eq!(gcd4(21, 7, 14, 28), 7u32);
    assert_eq!(gcd4(3, 3, 3, 3), 3u32);
    assert_eq!(gcd4(15, 120, 30, 25), 5u32);
    assert_eq!(gcd4(4, 4, 4, 2), 2u32);
    assert_eq!(gcd4(4, 16, 4, 8), 4u32);
    assert_eq!(gcd4(0, 3, 3, 3), 3u32);
    assert_eq!(gcd4(15, 0, 30, 25), 5u32);
    assert_eq!(gcd4(4, 4, 0, 2), 2u32);
    assert_eq!(gcd4(4, 16, 4, 0), 4u32);
}

#[test]
fn test_gcdn() {
    assert_eq!(gcdn(&mut [0]), 0u32);
    assert_eq!(gcdn(&mut [3]), 3u32);
    assert_eq!(gcdn(&mut [4, 3]), 1u32);
    assert_eq!(gcdn(&mut [5, 4, 3]), 1u32);
    assert_eq!(gcdn(&mut [4, 5, 4, 3]), 1u32);
    assert_eq!(gcdn(&mut [5, 5, 3, 3]), 1u32);
    assert_eq!(gcdn(&mut [21, 7, 14, 28]), 7u32);
    assert_eq!(gcdn(&mut [3, 3, 3, 3]), 3u32);
    assert_eq!(gcdn(&mut [15, 120, 30, 25]), 5u32);
    assert_eq!(gcdn(&mut [4, 4, 4, 2]), 2u32);
    assert_eq!(gcdn(&mut [4, 16, 4, 8]), 4u32);
    assert_eq!(gcdn(&mut [4, 16, 4, 8, 0]), 4u32);
    assert_eq!(gcdn(&mut [4, 16, 4, 0, 8]), 4u32);
    assert_eq!(gcdn(&mut [4, 16, 0, 4, 8]), 4u32);
    assert_eq!(gcdn(&mut [4, 0, 16, 4, 8]), 4u32);
    assert_eq!(gcdn(&mut [0, 4, 16, 4, 8]), 4u32);
}

#[test]
fn gcd2_divides_both_and_is_greatest() {
    let g: u32 = gcd2(84, 120);
    assert_eq!(g, 12);
    assert_eq!(84 % g, 0);
    assert_eq!(120 % g, 0);
    for d in (g + 1)..=84 {
        assert!(84 % d != 0 || 120 % d != 0);
    }
}

#[test]
fn gcd_grouping_does_not_matter() {
    let inner: u32 = gcd2(36, 60);
    let nested: u32 = gcd2(inner as i32, 90);
    assert_eq!(gcd3(36, 60, 90), nested);
    let right: u32 = gcd2(60, 90);
    assert_eq!(gcd2(36, right as i32), nested);
    assert_eq!(gcdn(&mut [36, 60, 90]), nested);
    assert_eq!(gcdn(&mut [inner as i32, 90]), nested);
    assert_eq!(gcd4(36, 60, 90, 42), gcd2(nested as i32, 42));
    assert_eq!(nested, 6);
}

#[test]
fn gcd_with_one_and_with_zero() {
    for a in [0i64, 1, 2, 7, 64, -9, 1_000_000_007] {
        assert_eq!(gcd2(a, 1), 1u64);
        assert_eq!(gcd2(a, 0), a.unsigned_abs());
        assert_eq!(gcd2(0, a), a.unsigned_abs());
    }
}

#[test]
fn gcdn_empty_and_single() {
    let empty: &mut [i32] = &mut [];
    assert_eq!(gcdn(empty), 1u32);
    assert_eq!(gcdn(&mut [-7]), 7u32);
    assert_eq!(gcdn(&mut [i32::MIN]), 2147483648u32);
}

#[test]
fn gcd_ignores_signs_of_arguments() {
    for (a, b) in [(12i32, 18i32), (7, 5), (0, -25), (-64, 48), (i32::MIN, 6)] {
        let g: u32 = gcd2(a, b);
        assert_eq!(g, gcd2(a.wrapping_neg(), b));
        assert_eq!(g, gcd2(a, b.wrapping_neg()));
        assert_eq!(g, gcd2(a.wrapping_neg(), b.wrapping_neg()));
    }
    assert_eq!(gcd2(-12, 18), 6u32);
    assert_eq!(gcd3(-7, 14, -28), 7u32);
    assert_eq!(gcd4(-15, 120, -30, 25), 5u32);
    assert_eq!(gcdn(&mut [-4, 16, -4, 8]), 4u32);
}

#[test]
fn gcd_of_all_zeros_is_zero() {
    assert_eq!(gcd2(0, 0), 0u32);
    assert_eq!(gcd3(0, 0, 0), 0u32);
    assert_eq!(gcd4(0, 0, 0, 0), 0u32);
    assert_eq!(gcdn(&mut [0, 0]), 0u32);
    assert_eq!(gcdn(&mut [0, 0, 0, 0, 0]), 0u32);
}

#[test]
fn gcdn_one_nonzero_among_zeros() {
    assert_eq!(gcdn(&mut [0, 0, 6, 0]), 6u32);
    assert_eq!(gcdn(&mut [12, 0, 0]), 12u32);
    assert_eq!(gcdn(&mut [0, 0, 0, -40]), 40u32);
}

#[test]
fn gcdn_zero_with_several_odd_values() {
    assert_eq!(gcdn(&mut [15, 9, 0]), 3u32);
    assert_eq!(gcdn(&mut [0, 45, 75, 0, 105]), 15u32);
    assert_eq!(gcdn(&mut [1, 0, 9]), 1u32);
}

#[test]
fn gcd_at_signed_minimum() {
    assert_eq!(gcd2(i32::MIN, 0), 2147483648u32);
    assert_eq!(gcd2(i32::MIN, i32::MIN), 2147483648u32);
    assert_eq!(gcd2(i8::MIN, 96i8), 32u8);
    assert_eq!(gcd3(i64::MIN, i64::MIN, 0), 9223372036854775808u64);
    assert_eq!(gcdn(&mut [i16::MIN, 0, i16::MIN]), 32768u16);
    assert_eq!(gcdn(&mut [i16::MIN, 24]), 8u16);
}

#[test]
fn gcd_at_widest_width() {
    assert_eq!(gcd2(u128::MAX, u128::MAX), u128::MAX);
    assert_eq!(gcd2(1u128 << 127, 1u128 << 100), 1u128 << 100);
    assert_eq!(gcd2(i128::MIN, 3i128 << 90), 1u128 << 90);
    assert_eq!(gcd4(u128::MAX, u128::MAX - 2, 0, 5), 1u128);
    assert_eq!(gcdn(&mut [u128::MAX, 255u128, 15u128]), 15u128);
}

#[test]
fn gcd_on_every_width() {
    assert_eq!(gcd2(-12i8, 18i8), 6u8);
    assert_eq!(gcd2(12u8, 18u8), 6u8);
    assert_eq!(gcd2(-12i16, 18i16), 6u16);
    assert_eq!(gcd2(-12i64, 18i64), 6u64);
    assert_eq!(gcd2(-12isize, 18isize), 6usize);
    assert_eq!(gcd2(12usize, 18usize), 6usize);
}
