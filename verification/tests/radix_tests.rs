use bnum::{BUint, IntErrorKind};

#[test]
fn parse_decimal_round_trip() {
    // a 128-bit value (two digits) parsed from decimal text
    let s = "398475394875230495745";
    let v = BUint::from_str_radix(s, 10, 2).unwrap();
    assert_eq!(v, BUint::from_u128(398475394875230495745u128, 2));
    assert_eq!(v.to_str_radix(10), s);
    let w = BUint::from_str(s, 2).unwrap();
    assert_eq!(v, w);
}

#[test]
fn radix_be_round_trip() {
    let digits = [3u8, 55, 60, 100, 5, 0, 5, 88];
    let v = BUint::from_radix_be(&digits, 120, 4).unwrap();
    assert_eq!(v.to_radix_be(120), digits.to_vec());

    let buf = [34u8, 57, 100, 184, 54, 40, 78, 10, 5, 200, 45, 67];
    let v = BUint::from_radix_be(&buf, 201, 4).unwrap();
    assert_eq!(v.to_radix_be(201), buf.to_vec());

    let base4 = [
        1u8, 0, 2, 3, 1, 0, 0, 2, 3, 1, 2, 3, 1, 0, 1, 2, 3, 1, 3, 1, 3, 1, 3, 2, 3, 2, 3, 1, 3,
        2, 3, 1, 3, 2, 3, 2, 3, 1, 2, 3, 0, 0, 0, 2, 3,
    ];
    let v = BUint::from_radix_be(&base4, 4, 4).unwrap();
    assert_eq!(v.to_radix_be(4), base4.to_vec());

    // an out-of-range digit is rejected
    let bad = [100u8, 4, 0, 54, 45, 20, 200, 43];
    assert!(BUint::from_radix_be(&bad, 150, 4).is_none());
}

#[test]
fn radix_le_round_trip() {
    let buf = [
        23u8, 100, 45, 58, 44, 56, 55, 100, 76, 54, 10, 100, 100, 100, 100, 100, 200, 200, 200,
        200, 255, 255, 255, 255, 255, 100, 100, 44, 60, 56, 48, 69, 160, 59, 50, 50, 200, 250,
        250, 250, 250, 250, 240, 120,
    ];
    let v = BUint::from_radix_le(&buf, 256, 8).unwrap();
    assert_eq!(v.to_radix_le(256), buf.to_vec());

    let bad = [34u8, 45, 32, 100, 53, 54, 65, 53, 0, 53];
    assert!(BUint::from_radix_le(&bad, 99, 8).is_none());

    let base4 = [
        1u8, 0, 2, 3, 1, 0, 0, 2, 3, 1, 2, 3, 1, 0, 1, 2, 3, 1, 3, 1, 3, 1, 3, 2, 3, 2, 3, 1, 3,
        2, 3, 1, 3, 2, 3, 2, 3, 1, 2, 3, 0, 0, 0, 2, 3,
    ];
    let v = BUint::from_radix_le(&base4, 4, 8).unwrap();
    assert_eq!(v.to_radix_le(4), base4.to_vec());
}

#[test]
fn str_radix_round_trip() {
    let src = "af7345asdofiuweor";
    let v = BUint::from_str_radix(src, 35, 4).unwrap();
    assert_eq!(v.to_str_radix(35), src);

    let src = "934579gfhjh394hdkg9845798";
    let r = BUint::from_str_radix(src, 18, 4);
    assert_eq!(r.unwrap_err().kind(), IntErrorKind::InvalidDigit);

    let src = "34985789aasdfhoehdghjkh93485797df";
    let v = BUint::from_str_radix(src, 32, 8).unwrap();
    assert_eq!(v.to_str_radix(32), src);

    let src = "120102301230102301230102030120321012";
    let v = BUint::from_str_radix(src, 4, 8).unwrap();
    assert_eq!(v.to_str_radix(4), src);
}

#[test]
fn parse_bytes_agrees_with_from_str_radix() {
    let src = "134957dkbhadoinegrhi983475hdgkhgdhiu3894hfd";
    let u = BUint::parse_bytes(src.as_bytes(), 35, 8).unwrap();
    let v = BUint::from_str_radix(src, 35, 8).unwrap();
    assert_eq!(u, v);
    assert_eq!(v.to_str_radix(35), src);

    let bytes = b"345977fsuudf0350845";
    assert!(BUint::parse_bytes(bytes, 20, 8).is_none());
    // a byte that is not even ASCII is no digit
    assert!(BUint::parse_bytes(&[0x80u8, 0x31], 36, 8).is_none());
}

#[test]
fn parse_error_kinds() {
    assert_eq!(BUint::from_str_radix("", 10, 2).unwrap_err().kind(), IntErrorKind::Empty);
    assert_eq!(BUint::from_str_radix("+", 10, 2).unwrap_err().kind(), IntErrorKind::Empty);
    assert_eq!(BUint::from_str_radix("12z", 10, 2).unwrap_err().kind(), IntErrorKind::InvalidDigit);
    // 2^64 does not fit one digit
    assert_eq!(
        BUint::from_str_radix("18446744073709551616", 10, 1).unwrap_err().kind(),
        IntErrorKind::PosOverflow
    );
    // but 2^64 - 1 does
    let v = BUint::from_str_radix("18446744073709551615", 10, 1).unwrap();
    assert_eq!(v.try_into_u64().unwrap(), u64::MAX);
}

#[test]
fn plus_sign_and_case() {
    let v = BUint::from_str_radix("+1234", 10, 1).unwrap();
    assert_eq!(v.try_into_u64().unwrap(), 1234);
    let a = BUint::from_str_radix("AbCdEf", 16, 1).unwrap();
    let b = BUint::from_str_radix("abcdef", 16, 1).unwrap();
    assert_eq!(a, b);
    assert_eq!(a.try_into_u64().unwrap(), 0xabcdef);
    assert_eq!(a.to_str_radix(16), "abcdef");
}

#[test]
fn formatting_exact_values() {
    let v = BUint::from_digit(255, 1);
    assert_eq!(v.to_str_radix(16), "ff");
    assert_eq!(v.to_str_radix(2), "11111111");
    assert_eq!(v.to_str_radix(10), "255");
    assert_eq!(v.to_radix_be(16), vec![15u8, 15]);
    assert_eq!(v.to_radix_le(16), vec![15u8, 15]);
    assert_eq!(BUint::zero(3).to_str_radix(10), "0");
    assert_eq!(BUint::zero(3).to_radix_be(7), vec![0u8]);
    // formatting matches the native format at the native width
    let n = 0xDEAD_BEEF_0123u64;
    assert_eq!(BUint::from_digit(n, 1).to_str_radix(16), format!("{n:x}"));
    assert_eq!(BUint::from_digit(n, 1).to_str_radix(10), format!("{n}"));
    let m = 338_327_950_288_419_716_939_937_510u128;
    assert_eq!(BUint::from_u128(m, 2).to_str_radix(10), format!("{m}"));
}

#[test]
fn empty_digit_slices_are_zero() {
    let v = BUint::from_radix_be(&[], 10, 3).unwrap();
    assert_eq!(v, BUint::zero(3));
    let v = BUint::from_radix_le(&[], 250, 3).unwrap();
    assert_eq!(v, BUint::zero(3));
}

#[test]
fn ilog2_and_div_ceil() {
    assert_eq!(bnum::radix::ilog2(1), 0);
    assert_eq!(bnum::radix::ilog2(2), 1);
    assert_eq!(bnum::radix::ilog2(36), 5);
    assert_eq!(bnum::radix::ilog2(u32::MAX), 31);
    assert_eq!(bnum::radix::div_ceil(10, 5), 2);
    assert_eq!(bnum::radix::div_ceil(11, 5), 3);
    assert_eq!(bnum::radix::div_ceil(0, 7), 0);
}


#[test]
fn wide_round_trips_cross_chunk_boundaries() {
    // a 256-bit value: parsing and formatting run several full big-base
    // passes in every radix family
    let s = "98712364987126349871236498712634987123649871263498712364987123649871263498712";
    let v = BUint::from_str_radix(s, 10, 4).unwrap();
    assert_eq!(v.to_str_radix(10), s);
    for radix in [2u32, 3, 7, 10, 16, 36] {
        let t = v.to_str_radix(radix);
        assert_eq!(BUint::from_str_radix(&t, radix, 4).unwrap(), v, "radix {radix}");
    }
    for radix in [2u32, 5, 64, 120, 255, 256] {
        let be = v.to_radix_be(radix);
        assert_eq!(BUint::from_radix_be(&be, radix, 4).unwrap(), v, "be radix {radix}");
        let le = v.to_radix_le(radix);
        assert_eq!(BUint::from_radix_le(&le, radix, 4).unwrap(), v, "le radix {radix}");
    }
    // cross-check one digit string against the native formatter
    let n = 987123649871263498712364987126349871u128;
    assert_eq!(BUint::from_u128(n, 2).to_str_radix(10), format!("{n}"));
}
