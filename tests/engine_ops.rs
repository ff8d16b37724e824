use bignum::{
    BigNum, BigNumExt, BigNumMut, DynamicBigNum, SimpleEngine, UnsignedEngine, VecBigNum,
};

#[test]
fn test_add_accumulate_u16() {
    for a in 0..(std::u16::MAX) {
        for b in 0..(std::u16::MAX >> 8) {
            let bn_a = VecBigNum::from(Vec::from(&a.to_le_bytes()[..]));
            let bn_b = VecBigNum::from(Vec::from(&b.to_le_bytes()[..]));
            let (c, overflow) = a.overflowing_add(b);

            let mut res: VecBigNum<u8> = VecBigNum::new_zeroed_sized(core::mem::size_of::<u16>());
            let ov1 = SimpleEngine::add_accumulate(&mut res, &bn_a);
            let ov2 = SimpleEngine::add_accumulate(&mut res, &bn_b);

            assert!(!ov1);
            assert_eq!(overflow, ov2);

            assert_eq!(&res.into_inner()[..], &c.to_le_bytes()[..]);
        }
    }
}

#[test]
fn test_sub_accumulate_u16() {
    for a in 0..(std::u16::MAX) {
        for b in 0..(std::u16::MAX >> 8) {
            let bn_a = VecBigNum::from(Vec::from(&a.to_le_bytes()[..]));
            let bn_b = VecBigNum::from(Vec::from(&b.to_le_bytes()[..]));
            let (c, overflow) = a.overflowing_sub(b);

            let mut res: VecBigNum<u8> = VecBigNum::new_zeroed_sized(core::mem::size_of::<u16>());
            let ov1 = SimpleEngine::add_accumulate(&mut res, &bn_a);
            let ov2 = SimpleEngine::sub_accumulate(&mut res, &bn_b);

            assert!(!ov1);
            assert_eq!(overflow, ov2);

            assert_eq!(&res.into_inner()[..], &c.to_le_bytes()[..]);
        }
    }
}

#[test]
fn test_mul_accumulate_u16() {
    for a in 0..(std::u16::MAX) {
        for b in 0..(std::u16::MAX >> 8) {
            let bn_a = VecBigNum::from(Vec::from(&a.to_le_bytes()[..]));
            let bn_b = VecBigNum::from(Vec::from(&b.to_le_bytes()[..]));
            let (c, overflow) = a.overflowing_mul(b);

            let mut res: VecBigNum<u8> = VecBigNum::new_zeroed_sized(core::mem::size_of::<u16>());
            let ov2 = SimpleEngine::mul_accumulate(&mut res, &bn_a, &bn_b);

            assert_eq!(overflow, ov2);
            assert_eq!(&res.into_inner()[..], &c.to_le_bytes()[..]);
        }
    }
}

#[test]
fn add_accumulate_carry_absorbed_by_second_digit() {
    let mut dst: VecBigNum<u8> = VecBigNum::from(vec![0u8, 0]);
    let ov = SimpleEngine::add_accumulate(&mut dst, &VecBigNum::from(vec![255u8]));
    assert!(!ov);
    assert_eq!(dst.clone_num().into_inner(), vec![255, 0]);
    let ov = SimpleEngine::add_accumulate(&mut dst, &VecBigNum::from(vec![1u8]));
    assert!(!ov);
    assert_eq!(dst.into_inner(), vec![0, 1]);
}

#[test]
fn add_accumulate_overflow_and_empty() {
    let mut dst: VecBigNum<u8> = VecBigNum::from(vec![255u8, 255]);
    assert!(SimpleEngine::add_accumulate(&mut dst, &VecBigNum::from(vec![1u8])));
    assert_eq!(dst.into_inner(), vec![0, 0]);

    let mut dst: VecBigNum<u8> = VecBigNum::from(vec![]);
    assert!(!SimpleEngine::add_accumulate(&mut dst, &VecBigNum::<u8>::from(vec![])));
    assert_eq!(dst.len(), 0);
}

#[test]
fn single_digit_ops_match_native_every_width() {
    let pairs32: [(u32, u32); 4] = [(0, 0), (u32::MAX, 1), (5, 7), (1 << 31, 1 << 31)];
    for &(a, b) in pairs32.iter() {
        let mut dst = VecBigNum::from(vec![a]);
        let ov = SimpleEngine::add_accumulate(&mut dst, &VecBigNum::from(vec![b]));
        assert_eq!((dst.into_inner()[0], ov), a.overflowing_add(b));

        let mut dst = VecBigNum::from(vec![a]);
        let ov = SimpleEngine::sub_accumulate(&mut dst, &VecBigNum::from(vec![b]));
        assert_eq!((dst.into_inner()[0], ov), a.overflowing_sub(b));

        let mut dst = VecBigNum::from(vec![0u32]);
        let ov = SimpleEngine::mul_accumulate(
            &mut dst,
            &VecBigNum::from(vec![a]),
            &VecBigNum::from(vec![b]),
        );
        assert_eq!((dst.into_inner()[0], ov), a.overflowing_mul(b));
    }
    let pairs64: [(u64, u64); 3] = [(u64::MAX, u64::MAX), (3, 4), (1 << 63, 2)];
    for &(a, b) in pairs64.iter() {
        let mut dst = VecBigNum::from(vec![a]);
        let ov = SimpleEngine::add_accumulate(&mut dst, &VecBigNum::from(vec![b]));
        assert_eq!((dst.into_inner()[0], ov), a.overflowing_add(b));

        let mut dst = VecBigNum::from(vec![a]);
        let ov = SimpleEngine::sub_accumulate(&mut dst, &VecBigNum::from(vec![b]));
        assert_eq!((dst.into_inner()[0], ov), a.overflowing_sub(b));

        let mut dst = VecBigNum::from(vec![0u64]);
        let ov = SimpleEngine::mul_accumulate(
            &mut dst,
            &VecBigNum::from(vec![a]),
            &VecBigNum::from(vec![b]),
        );
        assert_eq!((dst.into_inner()[0], ov), a.overflowing_mul(b));
    }
    for a in 0..=255u8 {
        for b in [0u8, 1, 2, 128, 255] {
            let mut dst = VecBigNum::from(vec![a]);
            let ov = SimpleEngine::add_accumulate(&mut dst, &VecBigNum::from(vec![b]));
            assert_eq!((dst.into_inner()[0], ov), a.overflowing_add(b));
            let mut dst = VecBigNum::from(vec![0u16]);
            let ov = SimpleEngine::mul_accumulate(
                &mut dst,
                &VecBigNum::from(vec![a as u16 * 256]),
                &VecBigNum::from(vec![b as u16]),
            );
            assert_eq!((dst.into_inner()[0], ov), (a as u16 * 256).overflowing_mul(b as u16));
        }
    }
}

#[test]
fn mul_accumulate_top_digit_high_half_at_last_position() {
    // 0xffff * 0xff = 0xfeff01: the high half of the top product lands on the last digit
    let mut dst: VecBigNum<u8> = VecBigNum::new_zeroed_sized(3);
    let ov = SimpleEngine::mul_accumulate(
        &mut dst,
        &VecBigNum::from(vec![255u8, 255]),
        &VecBigNum::from(vec![255u8]),
    );
    assert!(!ov);
    assert_eq!(dst.into_inner(), vec![0x01, 0xff, 0xfe]);

    let mut dst: VecBigNum<u8> = VecBigNum::new_zeroed_sized(2);
    let ov = SimpleEngine::mul_accumulate(
        &mut dst,
        &VecBigNum::from(vec![255u8, 255]),
        &VecBigNum::from(vec![255u8]),
    );
    assert!(ov);
    assert_eq!(dst.into_inner(), vec![0x01, 0xff]);

    // 0x0100 * 0x0100 = 0x010000 into 2 digits: truncated to zero
    let mut dst: VecBigNum<u8> = VecBigNum::new_zeroed_sized(2);
    let ov = SimpleEngine::mul_accumulate(
        &mut dst,
        &VecBigNum::from(vec![0u8, 1]),
        &VecBigNum::from(vec![0u8, 1]),
    );
    assert!(ov);
    assert_eq!(dst.into_inner(), vec![0, 0]);
}

#[test]
fn mul_accumulate_adds_to_existing_value() {
    // 10 + 300 * 7 = 2110 = 0x083e
    let mut dst: VecBigNum<u8> = VecBigNum::from(vec![10u8, 0, 0]);
    let ov = SimpleEngine::mul_accumulate(
        &mut dst,
        &VecBigNum::from(vec![44u8, 1]),
        &VecBigNum::from(vec![7u8]),
    );
    assert!(!ov);
    assert_eq!(dst.into_inner(), vec![0x3e, 0x08, 0]);
}

#[test]
fn add_resize_three_times_gives_three_hundred() {
    let hundred: VecBigNum<u8> = VecBigNum::from(vec![100u8]);
    let mut acc: VecBigNum<u8> = VecBigNum::new_zeroed();
    SimpleEngine::add_resize(&mut acc, &hundred);
    SimpleEngine::add_resize(&mut acc, &hundred);
    SimpleEngine::add_resize(&mut acc, &hundred);
    assert_eq!(acc.into_inner(), vec![44, 1]);
}

#[test]
fn add_resize_grows_on_carry() {
    let mut acc: VecBigNum<u8> = VecBigNum::from(vec![255u8, 255]);
    SimpleEngine::add_resize(&mut acc, &VecBigNum::from(vec![1u8]));
    assert_eq!(acc.into_inner(), vec![0, 0, 1]);

    let mut acc: VecBigNum<u8> = VecBigNum::from(vec![1u8]);
    SimpleEngine::add_resize(&mut acc, &VecBigNum::from(vec![2u8, 3, 4]));
    assert_eq!(acc.into_inner(), vec![3, 3, 4]);
}

#[test]
fn sub_resize_reports_borrow() {
    let mut acc: VecBigNum<u8> = VecBigNum::from(vec![5u8]);
    let borrow = SimpleEngine::sub_resize(&mut acc, &VecBigNum::from(vec![6u8, 0]));
    assert!(borrow);
    assert_eq!(acc.into_inner(), vec![255, 255]);

    let mut acc: VecBigNum<u8> = VecBigNum::from(vec![0u8, 1]);
    let borrow = SimpleEngine::sub_resize(&mut acc, &VecBigNum::from(vec![1u8]));
    assert!(!borrow);
    assert_eq!(acc.into_inner(), vec![255, 0]);
}

#[test]
fn mul_resize_sizes_from_significant_digits() {
    let mut acc: VecBigNum<u8> = VecBigNum::new_zeroed();
    SimpleEngine::mul_resize(
        &mut acc,
        &VecBigNum::from(vec![255u8, 255, 0, 0]),
        &VecBigNum::from(vec![255u8, 0]),
    );
    assert_eq!(acc.into_inner(), vec![0x01, 0xff, 0xfe]);

    let mut acc: VecBigNum<u8> = VecBigNum::from(vec![1u8, 0, 0, 0, 0]);
    SimpleEngine::mul_resize(
        &mut acc,
        &VecBigNum::from(vec![2u8]),
        &VecBigNum::from(vec![3u8]),
    );
    assert_eq!(acc.into_inner(), vec![7, 0, 0, 0, 0]);

    let mut acc: VecBigNum<u8> = VecBigNum::new_zeroed();
    SimpleEngine::mul_resize(&mut acc, &VecBigNum::from(vec![0u8]), &VecBigNum::from(vec![9u8]));
    assert_eq!(acc.len(), 1);
}

#[test]
fn resize_truncates_and_pads() {
    let mut n: VecBigNum<u16> = VecBigNum::from(vec![1u16, 2, 3]);
    n.resize(5);
    assert_eq!(n.clone_num().into_inner(), vec![1, 2, 3, 0, 0]);
    n.resize(2);
    assert_eq!(n.clone_num().into_inner(), vec![1, 2]);
    n.resize(2);
    assert_eq!(n.into_inner(), vec![1, 2]);

    let mut twice: VecBigNum<u16> = VecBigNum::from(vec![1u16, 2, 3]);
    twice.resize(4);
    twice.resize(1);
    let mut once: VecBigNum<u16> = VecBigNum::from(vec![1u16, 2, 3]);
    once.resize(1);
    assert_eq!(twice.into_inner(), once.into_inner());
}

#[test]
fn storage_accessors() {
    let mut n: VecBigNum<u32> = VecBigNum::new_zeroed_sized(3);
    assert_eq!(n.len(), 3);
    n.set_digit(1, 42);
    assert_eq!(n.get_digit(1), 42);
    assert_eq!(n.get_digit(0), 0);
    let copy = n.clone_num();
    assert_eq!(copy.into_inner(), vec![0, 42, 0]);
    let empty: VecBigNum<u32> = VecBigNum::new_zeroed();
    assert_eq!(empty.len(), 0);
    let direct = VecBigNum::from_digits(vec![7u32]);
    assert_eq!(direct.into_inner(), vec![7]);
}

#[test]
fn ext_add_returns_new_truncated_sum() {
    let a: VecBigNum<u8> = VecBigNum::from(vec![200u8, 1]);
    let b: VecBigNum<u8> = VecBigNum::from(vec![100u8]);
    let sum = a.add::<SimpleEngine, _>(&b);
    assert_eq!(sum.into_inner(), vec![44, 2]);
    assert_eq!(a.into_inner(), vec![200, 1]);

    let a: VecBigNum<u8> = VecBigNum::from(vec![255u8]);
    let sum = a.add::<SimpleEngine, _>(&VecBigNum::from(vec![1u8]));
    assert_eq!(sum.into_inner(), vec![0]);
}

#[test]
fn test_shift_left_u32() {
    for a in 0..(std::u16::MAX) {
        for b in 0..18u32 {
            let bn_a = VecBigNum::from(Vec::from(&a.to_le_bytes()[..]));
            let (c, overflow) = a.overflowing_shl(b);

            let mut res: VecBigNum<u8> = VecBigNum::new_zeroed_sized(core::mem::size_of::<u16>());
            SimpleEngine::add_accumulate(&mut res, &bn_a);
            let ov2 = SimpleEngine::shift_left_u32(&mut res, b);

            assert_eq!(overflow, ov2);
            assert_eq!(&res.into_inner()[..], &c.to_le_bytes()[..]);
        }
    }
}

#[test]
fn shift_left_wide_digits_and_edges() {
    let mut n: VecBigNum<u32> = VecBigNum::from(vec![0x8000_0001u32, 0]);
    assert!(!SimpleEngine::shift_left_u32(&mut n, 1));
    assert_eq!(n.into_inner(), vec![2, 1]);

    let mut n: VecBigNum<u32> = VecBigNum::from(vec![5u32, 6, 7]);
    assert!(!SimpleEngine::shift_left_u32(&mut n, 32));
    assert_eq!(n.into_inner(), vec![0, 5, 6]);

    // 96 bits on a 96-bit number: counted modulo the width, reported
    let mut n: VecBigNum<u32> = VecBigNum::from(vec![5u32, 6, 7]);
    assert!(SimpleEngine::shift_left_u32(&mut n, 96 + 4));
    assert_eq!(n.into_inner(), vec![80, 96, 112]);

    let mut n: VecBigNum<u64> = VecBigNum::new_zeroed();
    assert!(SimpleEngine::shift_left_u32(&mut n, 3));
    assert_eq!(n.len(), 0);

    let mut n: VecBigNum<u8> = VecBigNum::from(vec![0xffu8, 0x0f]);
    assert!(!SimpleEngine::shift_left_u32(&mut n, 12));
    assert_eq!(n.into_inner(), vec![0x00, 0xf0]);
}

#[test]
fn shift_right_divides_by_power_of_two() {
    for a in [0u16, 1, 2, 255, 256, 0x1234, 0x8001, u16::MAX] {
        for b in 0..20u32 {
            let mut res: VecBigNum<u8> = VecBigNum::from(Vec::from(&a.to_le_bytes()[..]));
            let reported = SimpleEngine::shift_right_u32(&mut res, b);
            let expected = if b >= 16 { 0 } else { a >> b };
            assert!(!reported);
            assert_eq!(&res.into_inner()[..], &expected.to_le_bytes()[..]);
        }
    }

    let mut n: VecBigNum<u32> = VecBigNum::from(vec![0u32, 5, 0x8000_0000]);
    assert!(!SimpleEngine::shift_right_u32(&mut n, 33));
    assert_eq!(n.into_inner(), vec![2, 0x4000_0000, 0]);

    let mut n: VecBigNum<u64> = VecBigNum::from(vec![7u64]);
    assert!(!SimpleEngine::shift_right_u32(&mut n, 1000));
    assert_eq!(n.into_inner(), vec![0]);
}
