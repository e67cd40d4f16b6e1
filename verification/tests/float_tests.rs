use bnum::float::Float;

fn bits64(f: Float) -> u64 {
    f.to_bits().try_to_u64().unwrap()
}

#[test]
fn test_constants() {
    let n = 2usize;
    let mb = 52u32;

    assert_eq!(bits64(Float::nan(n, mb)), f64::NAN.to_bits());
    assert_eq!(bits64(Float::infinity(n, mb)), f64::INFINITY.to_bits());
    assert_eq!(bits64(Float::neg_infinity(n, mb)), f64::NEG_INFINITY.to_bits());
    assert_eq!(bits64(Float::max(n, mb)), f64::MAX.to_bits());
    assert_eq!(bits64(Float::min(n, mb)), f64::MIN.to_bits());
    assert_eq!(bits64(Float::min_positive(n, mb)), f64::MIN_POSITIVE.to_bits());

    assert_eq!(bits64(Float::zero(n, mb)), 0.0f64.to_bits());
    assert_eq!(bits64(Float::neg_zero(n, mb)), (-0.0f64).to_bits());
    assert_eq!(bits64(Float::one(n, mb)), 1.0f64.to_bits());
    assert_eq!(bits64(Float::neg_one(n, mb)), (-1.0f64).to_bits());

    assert_eq!(bits64(Float::max_negative(n, mb)), (-f64::MIN_POSITIVE).to_bits());

    let min_exp = Float::min_exp(n, mb).to_bits().try_to_u64().unwrap();
    assert_eq!(min_exp, (f64::MIN_EXP as i64) as u64);
    let max_exp = Float::max_exp(n, mb).to_bits().try_to_u64().unwrap();
    assert_eq!(max_exp, (f64::MAX_EXP as i64) as u64);

    assert_eq!(Float::radix(), f64::RADIX);
    assert_eq!(Float::mantissa_digits(n, mb), f64::MANTISSA_DIGITS);
    assert_eq!(Float::digits10(n, mb), f64::DIGITS);

    assert_eq!(Float::bits(n, mb), 64);
    assert_eq!(Float::exponent_bits(n, mb), 11);
    assert_eq!(Float::exp_bias(n, mb).to_bits().try_to_u64().unwrap(), 1023);
    assert_eq!(Float::max_unbiased_exp(1, 23).try_to_u64().unwrap(), 254);
}

#[test]
fn test_constants_single_precision() {
    let n = 1usize;
    let mb = 23u32;

    assert_eq!(bits64(Float::nan(n, mb)), f32::NAN.to_bits() as u64);
    assert_eq!(bits64(Float::infinity(n, mb)), f32::INFINITY.to_bits() as u64);
    assert_eq!(bits64(Float::neg_infinity(n, mb)), f32::NEG_INFINITY.to_bits() as u64);
    assert_eq!(bits64(Float::max(n, mb)), f32::MAX.to_bits() as u64);
    assert_eq!(bits64(Float::min(n, mb)), f32::MIN.to_bits() as u64);
    assert_eq!(bits64(Float::min_positive(n, mb)), f32::MIN_POSITIVE.to_bits() as u64);
    assert_eq!(bits64(Float::zero(n, mb)), 0.0f32.to_bits() as u64);
    assert_eq!(bits64(Float::neg_zero(n, mb)), (-0.0f32).to_bits() as u64);
    assert_eq!(bits64(Float::one(n, mb)), 1.0f32.to_bits() as u64);
    assert_eq!(bits64(Float::neg_one(n, mb)), (-1.0f32).to_bits() as u64);
    assert_eq!(Float::mantissa_digits(n, mb), f32::MANTISSA_DIGITS);
    assert_eq!(Float::digits10(n, mb), f32::DIGITS);
    assert_eq!(
        Float::exp_bias(n, mb).to_bits().try_to_u64().unwrap(),
        127
    );
    let min_exp = Float::min_exp(n, mb).to_bits().try_to_u64().unwrap();
    assert_eq!(min_exp as u32, (f32::MIN_EXP as i32) as u32);
}

#[test]
fn test_subnormal_constants() {
    let n = 2usize;
    let mb = 52u32;
    assert_eq!(bits64(Float::min_positive_subnormal(n, mb)), 1);
    assert_eq!(bits64(Float::max_subnormal(n, mb)), (1u64 << 52) - 1);
    assert_eq!(bits64(Float::max_negative_subnormal(n, mb)), (1u64 << 63) + 1);
    assert_eq!(bits64(Float::min_subnormal(n, mb)), (1u64 << 63) + (1u64 << 52) - 1);
    assert_eq!(bits64(Float::neg_nan(n, mb)), (-f64::NAN).to_bits());
}
