use bignum::{SignedNumDigit, UnsignedNumDigit};

#[test]
fn digit_constants() {
    assert_eq!(<u8 as UnsignedNumDigit>::num_bits(), 8);
    assert_eq!(<u64 as UnsignedNumDigit>::num_bits(), 64);
    assert_eq!(<u16 as UnsignedNumDigit>::zero(), 0);
    assert_eq!(<u32 as UnsignedNumDigit>::one(), 1);
    assert_eq!(<u32 as UnsignedNumDigit>::max_value(), u32::MAX);
    assert!(UnsignedNumDigit::is_zero(0u8));
    assert!(!UnsignedNumDigit::is_zero(3u64));
}

#[test]
fn digit_flavours() {
    assert_eq!(UnsignedNumDigit::overflowing_add(250u8, 10), (4, true));
    assert_eq!(UnsignedNumDigit::overflowing_sub(3u16, 5), (65534, true));
    assert_eq!(UnsignedNumDigit::overflowing_mul(16u8, 17), (16, true));
    assert_eq!(UnsignedNumDigit::wrapping_add(u32::MAX, 2), 1);
    assert_eq!(UnsignedNumDigit::wrapping_sub(0u64, 1), u64::MAX);
    assert_eq!(UnsignedNumDigit::wrapping_mul(3u8, 100), 44);
    assert_eq!(UnsignedNumDigit::checked_add(200u8, 55), Some(255));
    assert_eq!(UnsignedNumDigit::checked_add(200u8, 56), None);
    assert_eq!(UnsignedNumDigit::checked_sub(1u16, 2), None);
    assert_eq!(UnsignedNumDigit::checked_mul(1000u32, 1000), Some(1_000_000));
    assert_eq!(UnsignedNumDigit::checked_mul(u64::MAX, 2), None);
}

#[test]
fn digit_widening_multiply_and_shifts() {
    assert_eq!(UnsignedNumDigit::mul_to_parts(255u8, 255), (254, 1));
    assert_eq!(UnsignedNumDigit::mul_to_parts(u64::MAX, u64::MAX), (u64::MAX - 1, 1));
    assert_eq!(UnsignedNumDigit::mul_to_parts(0x1234u16, 0x100), (0x12, 0x3400));
    assert_eq!(UnsignedNumDigit::shl_bits(0b1100_0001u8, 2), 0b0000_0100);
    assert_eq!(UnsignedNumDigit::shr_bits(0b1100_0001u8, 6), 0b11);
    assert_eq!(UnsignedNumDigit::shl_bits(1u64, 63), 1 << 63);
}

#[test]
fn signed_digit_flavours() {
    assert_eq!(SignedNumDigit::overflowing_add(127i8, 1), (-128, true));
    assert_eq!(SignedNumDigit::overflowing_add(-100i8, -100), (56, true));
    assert_eq!(SignedNumDigit::overflowing_add(-100i8, 100), (0, false));
    assert_eq!(SignedNumDigit::overflowing_sub(i16::MIN, 1), (i16::MAX, true));
    assert_eq!(SignedNumDigit::overflowing_sub(5i32, 7), (-2, false));
    assert_eq!(SignedNumDigit::wrapping_add(i64::MAX, 2), i64::MIN + 1);
    assert_eq!(SignedNumDigit::wrapping_sub(i64::MIN, 1), i64::MAX);
    assert_eq!(SignedNumDigit::checked_add(i32::MAX, 1), None);
    assert_eq!(SignedNumDigit::checked_sub(-3i8, 4), Some(-7));
    assert!(SignedNumDigit::is_negative(-1i16));
    assert!(!SignedNumDigit::is_negative(<i16 as SignedNumDigit>::zero()));
    assert_eq!(<i64 as SignedNumDigit>::one(), 1);
}

#[test]
fn digit_division_flavours() {
    assert_eq!(UnsignedNumDigit::div_rem(17u8, 5), (3, 2));
    assert_eq!(UnsignedNumDigit::wrapping_div(100u16, 7), 14);
    assert_eq!(UnsignedNumDigit::wrapping_rem(100u16, 7), 2);
    assert_eq!(UnsignedNumDigit::overflowing_div(9u32, 2), (4, false));
    assert_eq!(UnsignedNumDigit::overflowing_rem(9u32, 2), (1, false));
    assert_eq!(UnsignedNumDigit::checked_div(9u64, 0), None);
    assert_eq!(UnsignedNumDigit::checked_div(9u64, 3), Some(3));
    assert_eq!(UnsignedNumDigit::checked_rem(9u8, 0), None);
    assert_eq!(UnsignedNumDigit::checked_rem(9u8, 4), Some(1));
    assert_eq!(UnsignedNumDigit::wrapping_div_euclid(7u8, 2), 3);
    assert_eq!(UnsignedNumDigit::wrapping_rem_euclid(7u8, 2), 1);
    assert_eq!(UnsignedNumDigit::overflowing_div_euclid(7u16, 3), (2, false));
    assert_eq!(UnsignedNumDigit::overflowing_rem_euclid(7u16, 3), (1, false));
    assert_eq!(UnsignedNumDigit::checked_div_euclid(7u32, 0), None);
    assert_eq!(UnsignedNumDigit::checked_rem_euclid(7u32, 5), Some(2));
}

#[test]
fn digit_power_and_shift_flavours() {
    assert_eq!(UnsignedNumDigit::overflowing_pow(2u8, 7), (128, false));
    assert_eq!(UnsignedNumDigit::overflowing_pow(2u8, 8), (0, true));
    assert_eq!(UnsignedNumDigit::overflowing_pow(3u8, 6), 3u8.overflowing_pow(6));
    assert_eq!(UnsignedNumDigit::overflowing_pow(0u16, 0), (1, false));
    assert_eq!(UnsignedNumDigit::wrapping_pow(10u32, 10), 10u32.wrapping_pow(10));
    assert_eq!(UnsignedNumDigit::checked_pow(10u64, 19), Some(10u64.pow(19)));
    assert_eq!(UnsignedNumDigit::checked_pow(10u64, 20), None);
    assert_eq!(UnsignedNumDigit::overflowing_shl(1u8, 9), (2, true));
    assert_eq!(UnsignedNumDigit::overflowing_shr(128u8, 3), (16, false));
    assert_eq!(UnsignedNumDigit::wrapping_shl(0x8001u16, 1), 2);
    assert_eq!(UnsignedNumDigit::wrapping_shr(0x8000u16, 17), 0x4000);
    assert_eq!(UnsignedNumDigit::checked_shl(1u32, 32), None);
    assert_eq!(UnsignedNumDigit::checked_shl(1u32, 31), Some(1 << 31));
    assert_eq!(UnsignedNumDigit::checked_shr(u64::MAX, 64), None);
    assert_eq!(UnsignedNumDigit::checked_shr(u64::MAX, 63), Some(1));
}
