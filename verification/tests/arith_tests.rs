use bnum::{BInt, BUint};
use std::cmp::Ordering;

#[test]
fn add_family_consistency_concrete() {
    // near the top of a 128-bit width: the four policies agree on when
    // overflow happens and what each returns
    let a = BUint::from_u128(u128::MAX - 5, 2);
    let b = BUint::from_u128(9, 2);
    let (wrapped, overflow) = a.overflowing_add(&b);
    assert!(overflow);
    assert!(a.checked_add(&b).is_none());
    assert_eq!(a.wrapping_add(&b), wrapped);
    assert_eq!(wrapped, BUint::from_u128(3, 2));
    assert_eq!(a.saturating_add(&b), BUint::max_value(2));

    let c = BUint::from_u128(5, 2);
    let (sum, overflow) = a.overflowing_add(&c);
    assert!(!overflow);
    assert_eq!(a.checked_add(&c).unwrap(), sum);
    assert_eq!(a.wrapping_add(&c), sum);
    assert_eq!(a.saturating_add(&c), sum);
    assert_eq!(sum, BUint::from_u128(u128::MAX, 2));
}

#[test]
fn sub_family_consistency_concrete() {
    let a = BUint::from_u128(7, 2);
    let b = BUint::from_u128(9, 2);
    let (wrapped, underflow) = a.overflowing_sub(&b);
    assert!(underflow);
    assert!(a.checked_sub(&b).is_none());
    assert_eq!(a.wrapping_sub(&b), wrapped);
    assert_eq!(wrapped, BUint::from_u128(u128::MAX - 1, 2));
    assert_eq!(a.saturating_sub(&b), BUint::zero(2));
    assert_eq!(b.checked_sub(&a).unwrap(), BUint::from_u128(2, 2));
    assert_eq!(b.sub(&a), BUint::from_u128(2, 2));
}

#[test]
fn native_width_agreement() {
    // width one against native u64, across overflow boundaries
    let cases = [
        (0u64, 0u64),
        (1, u64::MAX),
        (u64::MAX, u64::MAX),
        (0x8000_0000_0000_0000, 0x8000_0000_0000_0000),
        (12345678901234567, 987654321),
    ];
    for &(x, y) in cases.iter() {
        let bx = BUint::from_digit(x, 1);
        let by = BUint::from_digit(y, 1);
        assert_eq!(bx.wrapping_add(&by).try_into_u64().unwrap(), x.wrapping_add(y));
        assert_eq!(bx.wrapping_sub(&by).try_into_u64().unwrap(), x.wrapping_sub(y));
        assert_eq!(bx.overflowing_add(&by).1, x.checked_add(y).is_none());
        assert_eq!(bx.cmp(&by), x.cmp(&y));
        if y != 0 {
            assert_eq!(bx.div(&by).try_into_u64().unwrap(), x / y);
            assert_eq!(bx.rem(&by).try_into_u64().unwrap(), x % y);
        }
    }
    // width two against native u128
    let wide = [
        (0u128, 5u128),
        (u128::MAX, 1),
        (u128::MAX / 3, 77777777777777777777u128),
        (1u128 << 64, (1u128 << 64) - 1),
    ];
    for &(x, y) in wide.iter() {
        let bx = BUint::from_u128(x, 2);
        let by = BUint::from_u128(y, 2);
        assert_eq!(bx.wrapping_add(&by), BUint::from_u128(x.wrapping_add(y), 2));
        assert_eq!(bx.wrapping_sub(&by), BUint::from_u128(x.wrapping_sub(y), 2));
        assert_eq!(bx.cmp(&by), x.cmp(&y));
        if y != 0 {
            assert_eq!(bx.div(&by), BUint::from_u128(x / y, 2));
            assert_eq!(bx.rem(&by), BUint::from_u128(x % y, 2));
        }
    }
}

#[test]
fn comparison_and_bounds() {
    let small = BUint::from_u128(3, 2);
    let big = BUint::from_u128(1u128 << 100, 2);
    assert_eq!(small.cmp(&big), Ordering::Less);
    assert_eq!(big.cmp(&small), Ordering::Greater);
    assert_eq!(small.cmp(&BUint::from_u128(3, 2)), Ordering::Equal);
    assert_eq!(small.clone().max(big.clone()), big);
    assert_eq!(small.clone().min(big.clone()), small);
    let lo = BUint::from_u128(10, 2);
    let hi = BUint::from_u128(20, 2);
    assert_eq!(BUint::from_u128(5, 2).clamp(lo.clone(), hi.clone()), lo);
    assert_eq!(BUint::from_u128(25, 2).clamp(lo.clone(), hi.clone()), hi);
    assert_eq!(BUint::from_u128(15, 2).clamp(lo, hi), BUint::from_u128(15, 2));
}

#[test]
fn bit_operations() {
    let a = BUint::from_u128(0xF0F0_1234_5678_9ABC_DEF0_0FF0_AAAA_5555, 2);
    let b = BUint::from_u128(0x0FF0_FFFF_0000_1111_2222_3333_4444_5555, 2);
    let anb = a.bitand(&b);
    let aob = a.bitor(&b);
    let axb = a.bitxor(&b);
    let na = a.not();
    assert_eq!(
        anb,
        BUint::from_u128(
            0xF0F0_1234_5678_9ABC_DEF0_0FF0_AAAA_5555 & 0x0FF0_FFFF_0000_1111_2222_3333_4444_5555,
            2
        )
    );
    assert_eq!(
        aob,
        BUint::from_u128(
            0xF0F0_1234_5678_9ABC_DEF0_0FF0_AAAA_5555 | 0x0FF0_FFFF_0000_1111_2222_3333_4444_5555,
            2
        )
    );
    assert_eq!(
        axb,
        BUint::from_u128(
            0xF0F0_1234_5678_9ABC_DEF0_0FF0_AAAA_5555 ^ 0x0FF0_FFFF_0000_1111_2222_3333_4444_5555,
            2
        )
    );
    assert_eq!(na, BUint::from_u128(!0xF0F0_1234_5678_9ABC_DEF0_0FF0_AAAA_5555u128, 2));
}

#[test]
fn division_properties() {
    let a = BUint::from_u128(0xDEAD_BEEF_CAFE_BABE_1234_5678_9ABC_DEF0, 2);
    let b = BUint::from_u128(0x1_0000_0001, 2);
    let (q, r) = a.div_rem(&b);
    let native_a = 0xDEAD_BEEF_CAFE_BABE_1234_5678_9ABC_DEF0u128;
    let native_b = 0x1_0000_0001u128;
    assert_eq!(q, BUint::from_u128(native_a / native_b, 2));
    assert_eq!(r, BUint::from_u128(native_a % native_b, 2));
    assert!(a.checked_div(&BUint::zero(2)).is_none());
    assert!(a.checked_rem(&BUint::zero(2)).is_none());
    assert_eq!(a.checked_div(&b).unwrap(), q);
    assert_eq!(a.wrapping_div(&b), q);
    assert_eq!(a.wrapping_rem(&b), r);
    // single-digit division
    assert_eq!(a.div_digit(7), BUint::from_u128(native_a / 7, 2));
    assert_eq!(a.rem_digit(7), (native_a % 7) as u64);
    // digit addition wraps at the width
    let top = BUint::from_u128(u128::MAX, 2);
    assert_eq!(top.add_digit(1), BUint::zero(2));
    assert_eq!(BUint::from_u128(41, 2).add_digit(1), BUint::from_u128(42, 2));
}

#[test]
fn resize_and_narrowing() {
    let v = BUint::from_u128(0x1234_5678_9ABC_DEF0_1111_2222_3333_4444, 2);
    let wide = v.resize(4);
    assert_eq!(wide.resize(2), v);
    let narrow = v.resize(1);
    assert_eq!(narrow.try_into_u64().unwrap(), 0x1111_2222_3333_4444);
    assert!(v.try_into_u64().is_err());
    assert!(BUint::from_u128(u64::MAX as u128, 2).try_into_u64().is_ok());
}

#[test]
fn signed_comparison_and_negation() {
    let minus_two = BInt::from_bits(BUint::from_u128(2, 2)).wrapping_neg();
    let minus_one = BInt::from_bits(BUint::from_u128(1, 2)).wrapping_neg();
    let zero = BInt::zero(2);
    let one = BInt::from_bits(BUint::from_u128(1, 2));
    assert_eq!(minus_two.cmp(&minus_one), Ordering::Less);
    assert_eq!(minus_one.cmp(&zero), Ordering::Less);
    assert_eq!(zero.cmp(&one), Ordering::Less);
    assert_eq!(one.cmp(&one), Ordering::Equal);
    assert_eq!(one.cmp(&minus_two), Ordering::Greater);
    assert!(minus_one.is_negative());
    assert!(!zero.is_negative());
    assert!(!one.is_negative());

    // negation round-trips away from the minimum
    assert_eq!(minus_two.checked_neg().unwrap(), BInt::from_bits(BUint::from_u128(2, 2)));
    assert_eq!(one.checked_neg().unwrap(), minus_one);
    assert_eq!(zero.checked_neg().unwrap(), zero);

    // the minimum is the single unrepresentable negation
    let min = BInt::min_value(2);
    let max = BInt::max_value(2);
    assert!(min.checked_neg().is_none());
    let (wrapped, overflow) = min.overflowing_neg();
    assert!(overflow);
    assert_eq!(wrapped, min);
    assert_eq!(min.saturating_neg(), max);
    assert_eq!(max.checked_neg().unwrap().cmp(&min), Ordering::Greater);
    assert_eq!(min.cmp(&max), Ordering::Less);

    // two's-complement bit patterns match the native ones
    assert_eq!(minus_one.to_bits(), BUint::from_u128((-1i128) as u128, 2));
    assert_eq!(minus_two.to_bits(), BUint::from_u128((-2i128) as u128, 2));
    assert_eq!(min.to_bits(), BUint::from_u128(i128::MIN as u128, 2));
    assert_eq!(max.to_bits(), BUint::from_u128(i128::MAX as u128, 2));
}

#[test]
fn constructors_and_is_zero() {
    assert!(BUint::zero(4).is_zero());
    assert!(!BUint::from_digit(1, 4).is_zero());
    assert!(!BUint::max_value(4).is_zero());
    assert_eq!(BUint::max_value(1).try_into_u64().unwrap(), u64::MAX);
    assert_eq!(BUint::from_digit(7, 3), BUint::from_u128(7, 3));
}

#[test]
fn shifts_match_native() {
    let x = 0xDEAD_BEEF_1234_5678_9ABC_DEF0_1122_3344u128;
    let bx = BUint::from_u128(x, 2);
    for n in [0u32, 1, 7, 63, 64, 65, 100, 127] {
        assert_eq!(bx.wrapping_shl(n), BUint::from_u128(x << n, 2), "shl {n}");
        assert_eq!(bx.wrapping_shr(n), BUint::from_u128(x >> n, 2), "shr {n}");
        assert_eq!(bx.checked_shl(n).unwrap(), BUint::from_u128(x.checked_shl(n).unwrap(), 2));
        assert_eq!(bx.checked_shr(n).unwrap(), BUint::from_u128(x.checked_shr(n).unwrap(), 2));
    }
    // amounts at or past the width wrap around, as the native wrapping shifts do
    assert_eq!(bx.wrapping_shl(128), BUint::from_u128(x.wrapping_shl(128), 2));
    assert_eq!(bx.wrapping_shl(130), BUint::from_u128(x.wrapping_shl(130), 2));
    assert_eq!(bx.wrapping_shr(129), BUint::from_u128(x.wrapping_shr(129), 2));
    assert!(bx.checked_shl(128).is_none());
    assert!(bx.checked_shr(200).is_none());
    assert!(x.checked_shl(128).is_none());
    let (shifted, reduced) = bx.overflowing_shl(130);
    assert!(reduced);
    assert_eq!(shifted, BUint::from_u128(x.overflowing_shl(130).0, 2));
    let (shifted, reduced) = bx.overflowing_shr(7);
    assert!(!reduced);
    assert_eq!(shifted, BUint::from_u128(x >> 7, 2));
}

#[test]
fn signed_division_matches_native() {
    let cases: [(i128, i128); 10] = [
        (7, 3),
        (-7, 3),
        (7, -3),
        (-7, -3),
        (0, 5),
        (i128::MIN, 2),
        (i128::MAX, -1),
        (i128::MIN, i128::MAX),
        (-1, i128::MIN),
        (123456789123456789123456789, -987654321),
    ];
    for &(a, b) in cases.iter() {
        let ba = BInt::from_bits(BUint::from_u128(a as u128, 2));
        let bb = BInt::from_bits(BUint::from_u128(b as u128, 2));
        let q = ba.checked_div(&bb).unwrap();
        let r = ba.checked_rem(&bb).unwrap();
        assert_eq!(q.to_bits(), BUint::from_u128((a / b) as u128, 2), "div {a} {b}");
        assert_eq!(r.to_bits(), BUint::from_u128((a % b) as u128, 2), "rem {a} {b}");
        assert_eq!(ba.div(&bb).to_bits(), BUint::from_u128((a / b) as u128, 2));
        assert_eq!(ba.rem(&bb).to_bits(), BUint::from_u128((a % b) as u128, 2));
    }
    // the two unanswerable cases
    let min = BInt::min_value(2);
    let minus_one = BInt::from_bits(BUint::from_u128((-1i128) as u128, 2));
    let zero = BInt::zero(2);
    assert!(min.checked_div(&minus_one).is_none());
    assert!(min.checked_rem(&minus_one).is_none());
    assert!(min.checked_div(&zero).is_none());
    assert!(minus_one.checked_rem(&zero).is_none());
    assert!(minus_one.checked_div(&min).is_some());
}

#[test]
fn signed_display() {
    let v = BInt::from_bits(BUint::from_u128((-12345i128) as u128, 2));
    assert_eq!(v.to_str_radix(10), "-12345");
    assert_eq!(v.to_str_radix(16), "-3039");
    let w = BInt::from_bits(BUint::from_u128(98765, 2));
    assert_eq!(w.to_str_radix(10), "98765");
    assert_eq!(BInt::zero(2).to_str_radix(10), "0");
    assert_eq!(
        BInt::min_value(2).to_str_radix(10),
        format!("{}", i128::MIN)
    );
    assert_eq!(
        BInt::max_value(2).to_str_radix(10),
        format!("{}", i128::MAX)
    );
    assert_eq!(v.unsigned_abs(), BUint::from_u128(12345, 2));
}

#[test]
fn narrowing_to_u128() {
    let v = BUint::from_u128(u128::MAX, 2);
    assert_eq!(v.try_into_u128().unwrap(), u128::MAX);
    let w = v.resize(4);
    assert_eq!(w.try_into_u128().unwrap(), u128::MAX);
    let big = BUint::from_digit(1, 3).wrapping_shl(130);
    assert!(big.try_into_u128().is_err());
    assert_eq!(BUint::zero(5).try_into_u128().unwrap(), 0);
}


#[test]
fn mul_family_matches_native() {
    let cases = [
        (0u128, 0u128),
        (1, u128::MAX),
        (u128::MAX, u128::MAX),
        (1u128 << 64, 1u128 << 64),
        (1234567890123456789, 9876543210987654321),
        ((1u128 << 64) - 1, (1u128 << 64) + 1),
    ];
    for &(x, y) in cases.iter() {
        let bx = BUint::from_u128(x, 2);
        let by = BUint::from_u128(y, 2);
        assert_eq!(bx.wrapping_mul(&by), BUint::from_u128(x.wrapping_mul(y), 2), "mul {x} {y}");
        assert_eq!(bx.overflowing_mul(&by).1, x.checked_mul(y).is_none());
        match x.checked_mul(y) {
            Some(p) => assert_eq!(bx.checked_mul(&by).unwrap(), BUint::from_u128(p, 2)),
            None => {
                assert!(bx.checked_mul(&by).is_none());
                assert_eq!(bx.saturating_mul(&by), BUint::max_value(2));
            }
        }
    }
    assert_eq!(
        BUint::from_digit(6, 1).mul(&BUint::from_digit(7, 1)).try_into_u64().unwrap(),
        42
    );
}

#[test]
fn signed_native_conversions() {
    let cases: [i128; 8] = [
        0,
        1,
        -1,
        i128::MAX,
        i128::MIN,
        -123456789012345678901234567890,
        98765,
        i128::MIN + 1,
    ];
    for &v in cases.iter() {
        let b = BInt::from_i128(v, 2);
        assert_eq!(b.to_bits(), BUint::from_u128(v as u128, 2), "bits of {v}");
        let b3 = BInt::from_i128(v, 3);
        assert_eq!(b3.try_into_i128().unwrap(), v, "round trip {v}");
        assert_eq!(b3.is_negative(), v < 0);
    }
    // a three-digit value outside the 128-bit range does not narrow
    let big = BInt::from_bits(BUint::from_digit(1, 3).wrapping_shl(130));
    assert!(big.try_into_i128().is_err());
    let very_negative = BInt::min_value(3);
    assert!(very_negative.try_into_i128().is_err());

    let small: [i64; 5] = [0, -1, 42, i64::MIN, i64::MAX];
    for &v in small.iter() {
        let b = BInt::from_i64(v, 1);
        assert_eq!(b.to_bits(), BUint::from_digit(v as u64, 1), "i64 bits of {v}");
        let b2 = BInt::from_i64(v, 2);
        assert_eq!(b2.try_into_i128().unwrap(), v as i128);
    }
}
