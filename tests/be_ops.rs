use bignum::{
    add_unsigned, add_unsigned_in_place, compare_unsigned, multiply_accumulate_digit, sub_unsigned,
    sub_unsigned_in_place,
};
use std::cmp::Ordering;

#[test]
fn add_test_all_u16_nums() {
    for l in 0..std::u16::MAX {
        for r in 0..(std::u16::MAX >> 8) {
            let mut lb = l.to_be_bytes();
            let rb = r.to_be_bytes();

            let carry = add_unsigned_in_place(&mut lb[..], &rb[..]);

            let (res, overflow) = l.overflowing_add(r);
            assert_eq!(&res.to_be_bytes()[..], &lb[..]);
            assert_eq!(overflow, carry);
        }
    }
}

#[test]
fn add_test_all_u16_nums_into_u32() {
    for l in 0..std::u16::MAX {
        for r in 0..(std::u16::MAX >> 8) {
            let lb = l.to_be_bytes();
            let rb = r.to_be_bytes();

            let l = l as u32;
            let r = r as u32;

            let mut res = [0u8; 4];
            let bytes_res = (l + r).to_be_bytes();
            let c = add_unsigned(&mut res, &lb[..], &rb[..]);
            assert_eq!(&bytes_res[..], &res[..]);
            assert!(!c);
        }
    }
}

#[test]
fn test_compare_eq() {
    for (l, r) in [
        (&[][..], &[][..]),
        (&[1, 2, 3][..], &[1, 2, 3][..]),
        (&[0, 0, 0, 0, 1, 2, 3][..], &[1, 2, 3][..]),
        (&[1, 2, 3][..], &[0, 0, 0, 1, 2, 3][..]),
    ]
    .iter()
    {
        let v = compare_unsigned(&l[..], &r[..]);
        assert_eq!(v, Ordering::Equal, "{:?} == {:?}", &l[..], &r[..]);
    }
}

#[test]
fn sub_test_all_u16_nums() {
    for l in 0..std::u16::MAX {
        for r in 0..(std::u16::MAX >> 8) {
            let mut lb = l.to_be_bytes();
            let rb = r.to_be_bytes();

            let burrow = sub_unsigned_in_place(&mut lb[..], &rb[..]);

            let (res, overflow) = l.overflowing_sub(r);
            assert_eq!(&res.to_be_bytes()[..], &lb[..]);
            assert_eq!(overflow, burrow);
        }
    }
}

#[test]
fn sub_test_all_u16_nums_into_u32() {
    for l in 0..std::u16::MAX {
        for r in 0..(std::u16::MAX >> 8) {
            let lb = l.to_be_bytes();
            let rb = r.to_be_bytes();

            let l = l as u32;
            let r = r as u32;

            let mut res = [0u8; 4];

            let burrow = sub_unsigned(&mut res, &lb[..], &rb[..]);

            let (actual_res, overflow) = l.overflowing_sub(r);

            assert_eq!(&actual_res.to_be_bytes()[..], &res[..]);
            assert_eq!(overflow, burrow);
        }
    }
}

#[test]
fn compare_padded_and_ordered() {
    assert_eq!(compare_unsigned(&[0, 0, 0, 1, 2, 3], &[1, 2, 3]), Ordering::Equal);
    assert_eq!(compare_unsigned(&[1, 2, 3], &[1, 2, 4]), Ordering::Less);
    assert_eq!(compare_unsigned(&[1, 2, 4], &[1, 2, 3]), Ordering::Greater);
    assert_eq!(compare_unsigned(&[0, 255], &[1, 0]), Ordering::Less);
    assert_eq!(compare_unsigned(&[1, 0, 0], &[0, 255, 255]), Ordering::Greater);
    assert_eq!(compare_unsigned(&[0, 0], &[]), Ordering::Equal);
}

#[test]
fn add_in_place_carries_into_higher_bytes() {
    let mut res = [0u8, 255, 255];
    let carry = add_unsigned_in_place(&mut res[..], &[1u8][..]);
    assert_eq!(res, [1, 0, 0]);
    assert!(!carry);

    let mut res = [255u8, 255];
    let carry = add_unsigned_in_place(&mut res[..], &[0u8, 1][..]);
    assert_eq!(res, [0, 0]);
    assert!(carry);

    let mut res = [7u8];
    let carry = add_unsigned_in_place(&mut res[..], &[][..]);
    assert_eq!(res, [7]);
    assert!(!carry);
}

#[test]
fn add_in_place_wider_digits() {
    let mut res = [1u32, u32::MAX];
    let carry = add_unsigned_in_place(&mut res[..], &[1u32][..]);
    assert_eq!(res, [2, 0]);
    assert!(!carry);
}

#[test]
fn sub_in_place_borrows() {
    let mut res = [1u8, 0, 0];
    let borrow = sub_unsigned_in_place(&mut res[..], &[1u8][..]);
    assert_eq!(res, [0, 255, 255]);
    assert!(!borrow);

    let mut res = [0u8, 5];
    let borrow = sub_unsigned_in_place(&mut res[..], &[6u8][..]);
    assert_eq!(res, [255, 255]);
    assert!(borrow);
}

#[test]
fn add_and_sub_into_wider_destination() {
    let mut res = [9u8; 3];
    let carry = add_unsigned(&mut res, &[255, 255], &[1]);
    assert_eq!(res, [1, 0, 0]);
    assert!(!carry);

    let mut res = [9u8; 2];
    let carry = add_unsigned(&mut res, &[255, 255], &[0, 1]);
    assert_eq!(res, [0, 0]);
    assert!(carry);

    let mut res = [9u8; 3];
    let borrow = sub_unsigned(&mut res, &[1, 0], &[1]);
    assert_eq!(res, [0, 0, 255]);
    assert!(!borrow);

    let mut res = [9u8; 3];
    let borrow = sub_unsigned(&mut res, &[1], &[2]);
    assert_eq!(res, [255, 255, 255]);
    assert!(borrow);
}

#[test]
fn multiply_accumulate_digit_big_endian() {
    // 0x0102 * 3 + 0x0001 = 0x0307
    let mut res = [0u8, 1];
    let fits = multiply_accumulate_digit(&mut res[..], &[1u8, 2][..], 3u8);
    assert_eq!(res, [3, 7]);
    assert!(fits);

    // 0x00ff * 0xff = 0xfe01
    let mut res = [0u8, 0];
    let fits = multiply_accumulate_digit(&mut res[..], &[255u8][..], 255u8);
    assert_eq!(res, [254, 1]);
    assert!(fits);

    // 0x0100 * 0x0100 does not fit two bytes
    let mut res = [0u8, 0];
    let fits = multiply_accumulate_digit(&mut res[..], &[1u8, 0][..], 0u8);
    assert_eq!(res, [0, 0]);
    assert!(fits);
    let fits = multiply_accumulate_digit(&mut res[..], &[1u8, 0, 0][..], 1u8);
    assert_eq!(res, [0, 0]);
    assert!(!fits);

    // 0xffff + 0x01 * 1 wraps
    let mut res = [255u8, 255];
    let fits = multiply_accumulate_digit(&mut res[..], &[1u8][..], 1u8);
    assert_eq!(res, [0, 0]);
    assert!(!fits);
}
