use gcdn::binary::{expot, unpot};
use gcdn::{iabs, uabs};

#[test]
fn test_uabs() {
    assert_eq!(uabs::<i32, u32>(0), 0);
    assert_eq!(uabs::<i32, u32>(1), 1);
    assert_eq!(uabs::<i32, u32>(-1), 1);
}

#[test]
fn test_iabs() {
    assert_eq!(iabs::<i32, u32>(0u32), 0i32);
    assert_eq!(iabs::<i32, u32>(1u32), 1i32);
}

#[test]
fn test_unpot() {
    assert_eq!(unpot(0), 0);
    assert_eq!(unpot(1), 1);
    assert_eq!(unpot(2), 1);
    assert_eq!(unpot(3), 3);
    assert_eq!(unpot(6), 3);
    assert_eq!(unpot(32), 1);
    assert_eq!(unpot(50), 25);
}

#[test]
fn test_expot() {
    assert_eq!(expot(0), u128::MAX);
    assert_eq!(expot(1), 1);
    assert_eq!(expot(2), 2);
    assert_eq!(expot(3), 1);
    assert_eq!(expot(6), 2);
    assert_eq!(expot(32), 32);
    assert_eq!(expot(50), 2);
    assert_eq!(expot(28), 4);
}

#[test]
fn uabs_at_signed_minimum() {
    assert_eq!(uabs::<i8, u8>(i8::MIN), 128);
    assert_eq!(uabs::<i32, u32>(i32::MIN), 2147483648);
    assert_eq!(uabs::<i128, u128>(i128::MIN), 1u128 << 127);
    assert_eq!(uabs::<isize, usize>(isize::MIN), (isize::MAX as usize) + 1);
    assert_eq!(uabs::<i64, u64>(-42), 42);
    assert_eq!(uabs::<u16, u16>(u16::MAX), u16::MAX);
}

#[test]
fn iabs_wraps_beyond_signed_range() {
    assert_eq!(iabs::<i32, u32>(2147483648u32), i32::MIN);
    assert_eq!(iabs::<i32, u32>(u32::MAX), -1);
    assert_eq!(iabs::<i8, u8>(200u8), -56);
    assert_eq!(iabs::<isize, usize>(usize::MAX), -1);
    assert_eq!(iabs::<u64, u64>(u64::MAX), u64::MAX);
}

#[test]
fn unpot_and_expot_split_a_value() {
    for x in [1u128, 2, 12, 40, 96, 1 << 100, u128::MAX, (u128::MAX >> 1) + 1] {
        assert_eq!(unpot(x) * expot(x), x);
        assert_eq!(unpot(x) % 2, 1);
    }
}
