use gcdn::{gcd2, lcm2, lcm3, lcm4};

#[test]
fn test_lcm2() {
    assert_eq!(lcm2(5, 3), 15u32);
    assert_eq!(lcm2(3, 3), 3u32);
    assert_eq!(lcm2(5, 25), 25u32);
    assert_eq!(lcm2(4, 2), 4u32);
    assert_eq!(lcm2(6, 8), 24u32);
}

#[test]
fn test_lcm3() {
    assert_eq!(lcm3(5, 4, 3), 60u32);
    assert_eq!(lcm3(5, 3, 3), 15u32);
    assert_eq!(lcm3(7, 14, 28), 28u32);
    assert_eq!(lcm3(3, 3, 3), 3u32);
    assert_eq!(lcm3(120, 5, 25), 600u32);
    assert_eq!(lcm3(4, 4, 2), 4u32);
    assert_eq!(lcm3(16, 4, 8), 16u32);
}

#[test]
fn test_lcm4() {
    assert_eq!(lcm4(4, 5, 4, 3), 60u32);
    assert_eq!(lcm4(5, 5, 3, 3), 15u32);
    assert_eq!(lcm4(21, 7, 14, 28), 84u32);
    assert_eq!(lcm4(3, 3, 3, 3), 3u32);
    assert_eq!(lcm4(15, 120, 30, 25), 600u32);
    assert_eq!(lcm4(4, 4, 4, 2), 4u32);
    assert_eq!(lcm4(4, 16, 4, 8), 16u32);
}

#[test]
fn lcm_times_gcd_is_product() {
    for (a, b) in [(6u64, 8u64), (12, 18), (7, 13), (96, 36), (1, 99), (40, 40), (1 << 20, 3 << 10)] {
        let l: u64 = lcm2(a, b);
        let g: u64 = gcd2(a, b);
        assert_eq!(l * g, a * b);
    }
    assert_eq!(lcm2(12u64, 18u64), 36u64);
}

#[test]
fn lcm_with_zero_and_signs() {
    assert_eq!(lcm2(0, 0), 0u32);
    assert_eq!(lcm2(0, 9), 0u32);
    assert_eq!(lcm2(12, 0), 0u32);
    assert_eq!(lcm3(0, 0, 0), 0u32);
    assert_eq!(lcm4(3, 0, 5, 7), 0u32);
    assert_eq!(lcm2(-6, 8), 24u32);
    assert_eq!(lcm3(-7, 14, -28), 28u32);
}

#[test]
fn lcm_at_widest_width() {
    assert_eq!(lcm2(1u128 << 64, 3u128 << 60), 3u128 << 64);
    assert_eq!(lcm2(u64::MAX as u128, 2u128), (u64::MAX as u128) * 2);
}
