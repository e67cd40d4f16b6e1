use bnum::signed::BInt;
use bnum::uint::BUint;
use bnum::convert::TryFromReason;
use bnum::convert::TryFromIntError;

fn b(v: i128) -> BInt {
    BInt::from_i128(4, v)
}

fn val(x: &BInt) -> i128 {
    x.try_to_i128().unwrap()
}

#[test]
fn test_add_sub_edges() {
    let max = BInt::max_value(4);
    let min = BInt::min_value(4);
    let one = BInt::one(4);
    assert!(max.checked_add(&one).is_none());
    assert!(min.checked_sub(&one).is_none());
    assert_eq!(val(&max), i128::MAX);
    assert_eq!(val(&min), i128::MIN);
    let s = b(40).checked_add(&b(2)).unwrap();
    assert_eq!(val(&s), 42);
    let d = b(40).checked_sub(&b(50)).unwrap();
    assert_eq!(val(&d), -10);
}

#[test]
fn test_add_sub_unsigned() {
    let u5 = BUint::from_u128(4, 5);
    let s = b(-3).checked_add_unsigned(&u5).unwrap();
    assert_eq!(val(&s), 2);
    let d = b(3).checked_sub_unsigned(&u5).unwrap();
    assert_eq!(val(&d), -2);
    let max = BInt::max_value(4);
    assert!(max.checked_add_unsigned(&BUint::from_u128(4, 1)).is_none());
    let min = BInt::min_value(4);
    assert!(min.checked_sub_unsigned(&BUint::from_u128(4, 1)).is_none());
}

#[test]
fn test_neg_abs() {
    let min = BInt::min_value(4);
    assert!(min.checked_neg().is_none());
    assert!(min.checked_abs().is_none());
    let x = b(-239794576947569847566236i128);
    let nx = x.checked_neg().unwrap();
    assert_eq!(val(&nx), 239794576947569847566236i128);
    let back = nx.checked_neg().unwrap();
    assert_eq!(val(&back), -239794576947569847566236i128);
    assert_eq!(val(&x.checked_abs().unwrap()), 239794576947569847566236i128);
}

#[test]
fn test_mul() {
    let min = BInt::min_value(4);
    assert!(min.checked_mul(&b(-1)).is_none());
    let p = b(-20907564975789647596i128).checked_mul(&b(4096579405794i128)).unwrap();
    assert_eq!(val(&p), -20907564975789647596i128 * 4096579405794i128);
    let z = b(0).checked_mul(&b(-7)).unwrap();
    assert_eq!(val(&z), 0);
}

#[test]
fn test_div_rem_by_zero() {
    for x in [0i128, 5, -7, i128::MAX, i128::MIN] {
        let z = b(0);
        assert!(b(x).checked_div(&z).is_none());
        assert!(b(x).checked_rem(&z).is_none());
        assert!(b(x).checked_div_euclid(&z).is_none());
        assert!(b(x).checked_rem_euclid(&z).is_none());
    }
}

#[test]
fn test_div_rem_min_by_minus_one() {
    let min = BInt::min_value(4);
    let m1 = b(-1);
    assert!(min.checked_div(&m1).is_none());
    assert!(min.checked_rem(&m1).is_none());
    assert!(min.checked_div_euclid(&m1).is_none());
    assert!(min.checked_rem_euclid(&m1).is_none());
}

#[test]
fn test_div_rem_values() {
    let cases: [(i128, i128); 5] = [
        (2249495769845768947598254, -497495769),
        (-20907564975789647596748956456, -4096579405794756974586),
        (-34564564564, -33219654565456456453434545697),
        (20459671029456874957698457698, 819475697456465656),
        (-2045967240596724598645645, -3479475689457),
    ];
    for (x, y) in cases {
        assert_eq!(val(&b(x).checked_div(&b(y)).unwrap()), x.checked_div(y).unwrap());
        assert_eq!(val(&b(x).checked_rem(&b(y)).unwrap()), x.checked_rem(y).unwrap());
        assert_eq!(
            val(&b(x).checked_div_euclid(&b(y)).unwrap()),
            x.checked_div_euclid(y).unwrap()
        );
        assert_eq!(
            val(&b(x).checked_rem_euclid(&b(y)).unwrap()),
            x.checked_rem_euclid(y).unwrap()
        );
    }
}

#[test]
fn test_pow() {
    let p = b(-13).checked_pow(22).unwrap();
    assert_eq!(val(&p), (-13i128).checked_pow(22).unwrap());
    let q = b(7).checked_pow(29).unwrap();
    assert_eq!(val(&q), 7i128.checked_pow(29).unwrap());
    assert!(b(2).checked_pow(127).is_none());
    assert_eq!(val(&b(-2).checked_pow(127).unwrap()), i128::MIN);
    assert_eq!(val(&b(5).checked_pow(0).unwrap()), 1);
    assert_eq!(val(&b(0).checked_pow(9).unwrap()), 0);
}

#[test]
fn test_shifts() {
    let x = b(1907304597249567965987i128);
    assert!(x.checked_shl(128).is_none());
    assert!(x.checked_shr(128).is_none());
    let l = x.checked_shl(21).unwrap();
    assert_eq!(val(&l), 1907304597249567965987i128 << 21);
    let y = b(-2023973209458764967589i128);
    let r = y.checked_shr(15).unwrap();
    assert_eq!(val(&r), -2023973209458764967589i128 >> 15);
    let r2 = b(61354072459679717429576097i128).checked_shr(120).unwrap();
    assert_eq!(val(&r2), 61354072459679717429576097i128 >> 120);
}

#[test]
fn test_logs() {
    assert_eq!(b(1024).checked_log2(), Some(10));
    assert_eq!(b(1025).checked_log2(), Some(10));
    assert_eq!(b(1).checked_log2(), Some(0));
    assert!(b(0).checked_log2().is_none());
    assert!(b(-8).checked_log2().is_none());
    assert_eq!(b(999).checked_log10(), Some(2));
    assert_eq!(b(1000).checked_log10(), Some(3));
    assert_eq!(b(1).checked_log10(), Some(0));
    assert!(b(0).checked_log10().is_none());
    assert!(b(-10).checked_log10().is_none());
}

#[test]
fn test_next_multiple_of() {
    assert_eq!(val(&b(16).checked_next_multiple_of(&b(8)).unwrap()), 16);
    assert_eq!(val(&b(23).checked_next_multiple_of(&b(8)).unwrap()), 24);
    assert_eq!(val(&b(-23).checked_next_multiple_of(&b(8)).unwrap()), -16);
    assert_eq!(val(&b(23).checked_next_multiple_of(&b(-8)).unwrap()), 16);
    assert!(b(5).checked_next_multiple_of(&b(0)).is_none());
    let max = BInt::max_value(4);
    assert!(max.checked_next_multiple_of(&b(2)).is_none());
}

#[test]
fn test_roundtrip_conversions() {
    for v in [0i128, 1, -1, 42, i128::MAX, i128::MIN, -9049873947589473745] {
        assert_eq!(BInt::from_i128(4, v).try_to_i128().unwrap(), v);
        assert_eq!(BInt::from_i128(7, v).try_to_i128().unwrap(), v);
    }
    // a value wider than the native target fails as too large
    let wide = BInt::max_value(5);
    let e = wide.try_to_i128().unwrap_err();
    assert_eq!(e.reason, TryFromReason::TooLarge);
    let low = BInt::min_value(5);
    assert_eq!(low.try_to_i128().unwrap_err().reason, TryFromReason::TooLarge);
}

#[test]
fn test_unsigned_conversions() {
    let x = BInt::from_u128(4, 123456789).unwrap();
    assert_eq!(x.try_to_i128().unwrap(), 123456789);
    let e = BInt::from_u128(4, u128::MAX).unwrap_err();
    assert_eq!(e.reason, TryFromReason::TooLarge);
    let e2 = BInt::from_u128(4, 1u128 << 127).unwrap_err();
    assert_eq!(e2.reason, TryFromReason::TooLarge);
    assert!(BInt::from_u128(4, (1u128 << 127) - 1).is_ok());

    let m = BUint::from_u128(4, 77);
    let s = BInt::try_from_bits(m).unwrap();
    assert_eq!(s.try_to_i128().unwrap(), 77);
    let big = BUint::from_u128(4, 1u128 << 127);
    assert_eq!(BInt::try_from_bits(big).unwrap_err().reason, TryFromReason::TooLarge);

    let neg = b(-5);
    assert_eq!(neg.try_to_bits().unwrap_err().reason, TryFromReason::Negative);
    let pos = b(5);
    assert_eq!(pos.try_to_bits().unwrap().try_to_u64().unwrap(), 5);
}

#[test]
fn test_float_parts_decision() {
    // a failed magnitude conversion propagates its reason
    let err: Result<BUint, TryFromIntError> = Err(TryFromIntError {
        from: "f64",
        to: "BUint",
        reason: TryFromReason::NotFinite,
    });
    let r = BInt::from_float_parts(true, err);
    assert_eq!(r.unwrap_err().reason, TryFromReason::NotFinite);
    // a non-negative input reinterprets the magnitude
    let m = BUint::from_u128(4, 1000);
    let v = BInt::from_float_parts(false, Ok(m)).unwrap();
    assert_eq!(v.try_to_i128().unwrap(), 1000);
    // a negative input negates in two's complement
    let m2 = BUint::from_u128(4, 1000);
    let v2 = BInt::from_float_parts(true, Ok(m2)).unwrap();
    assert_eq!(v2.try_to_i128().unwrap(), -1000);
}
