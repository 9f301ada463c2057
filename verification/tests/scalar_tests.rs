use raytracing::sampling::unit_interval;
use raytracing::scalar::{Scalar, MAX_RAW, ONE_RAW};

fn raw(r: i64) -> Scalar {
    Scalar::from_raw(r)
}

fn whole(i: i32) -> Scalar {
    Scalar::from_int(i)
}

#[test]
fn constants_have_their_raw_values() {
    assert_eq!(ONE_RAW, 1i64 << 32);
    assert_eq!(MAX_RAW, i64::MAX);
    assert_eq!(Scalar::zero().raw(), 0);
    assert_eq!(Scalar::one().raw(), ONE_RAW);
    assert_eq!(Scalar::max_value().raw(), MAX_RAW);
}

#[test]
fn from_raw_saturates_the_one_unrepresentable_value() {
    assert_eq!(raw(i64::MIN).raw(), -MAX_RAW);
    assert_eq!(raw(-MAX_RAW).raw(), -MAX_RAW);
    assert_eq!(raw(12345).raw(), 12345);
}

#[test]
fn integers_convert_exactly_or_saturate() {
    assert_eq!(whole(3).raw(), 3 * ONE_RAW);
    assert_eq!(whole(-7).raw(), -7 * ONE_RAW);
    assert_eq!(whole(i32::MIN).raw(), -MAX_RAW);
    assert_eq!(Scalar::from_i64(5).raw(), 5 * ONE_RAW);
    assert_eq!(Scalar::from_i64(-1).raw(), -ONE_RAW);
    assert_eq!(Scalar::from_i64(i64::MAX).raw(), MAX_RAW);
    assert_eq!(Scalar::from_i64(i64::MIN).raw(), -MAX_RAW);
    assert_eq!(Scalar::from_u32(1024).raw(), 1024 * ONE_RAW);
    assert_eq!(Scalar::from_u32(u32::MAX).raw(), MAX_RAW);
    assert_eq!(Scalar::from_usize(500).raw(), 500 * ONE_RAW);
    assert_eq!(Scalar::from_usize(usize::MAX).raw(), MAX_RAW);
}

#[test]
fn ratios_round_toward_zero() {
    assert_eq!(Scalar::from_ratio(1, 2).raw(), ONE_RAW / 2);
    assert_eq!(Scalar::from_ratio(1, 3).raw(), 1431655765);
    assert_eq!(Scalar::from_ratio(-1, 3).raw(), -1431655765);
    assert_eq!(Scalar::from_ratio(1, -3).raw(), -1431655765);
    assert_eq!(Scalar::from_ratio(-1, -3).raw(), 1431655765);
    assert_eq!(Scalar::from_ratio(255999, 1000).raw(), 1099507332808);
    assert_eq!(Scalar::from_ratio(1, 10000).raw(), 429496);
    assert_eq!(Scalar::from_ratio(i64::MIN, 1).raw(), -MAX_RAW);
    assert_eq!(Scalar::from_ratio(i64::MAX, i64::MIN).raw(), -(ONE_RAW - 1));
}

#[test]
fn ratio_with_zero_denominator_saturates() {
    assert_eq!(Scalar::from_ratio(5, 0).raw(), MAX_RAW);
    assert_eq!(Scalar::from_ratio(-5, 0).raw(), -MAX_RAW);
    assert_eq!(Scalar::from_ratio(0, 0).raw(), 0);
}

#[test]
fn fraction_bits_cover_the_unit_intervals() {
    assert_eq!(Scalar::from_fraction_bits(0).raw(), 0);
    assert_eq!(Scalar::from_fraction_bits(1 << 31).raw(), ONE_RAW / 2);
    assert_eq!(Scalar::from_fraction_bits(u32::MAX).raw(), ONE_RAW - 1);
    assert_eq!(Scalar::from_signed_fraction_bits(0).raw(), -ONE_RAW);
    assert_eq!(Scalar::from_signed_fraction_bits(1 << 31).raw(), 0);
    assert_eq!(Scalar::from_signed_fraction_bits(u32::MAX).raw(), ONE_RAW - 2);
}

#[test]
fn addition_and_subtraction_saturate() {
    assert_eq!(whole(2).add(whole(3)), whole(5));
    assert_eq!(whole(2).sub(whole(3)), whole(-1));
    assert_eq!(raw(MAX_RAW).add(raw(1)).raw(), MAX_RAW);
    assert_eq!(raw(-MAX_RAW).sub(raw(1)).raw(), -MAX_RAW);
    assert_eq!(raw(MAX_RAW).sub(raw(-MAX_RAW)).raw(), MAX_RAW);
    assert_eq!(raw(-MAX_RAW).add(raw(-MAX_RAW)).raw(), -MAX_RAW);
    assert_eq!(raw(MAX_RAW).add(raw(-MAX_RAW)).raw(), 0);
}

#[test]
fn negation_is_exact() {
    assert_eq!(whole(4).neg(), whole(-4));
    assert_eq!(raw(MAX_RAW).neg().raw(), -MAX_RAW);
    assert_eq!(raw(-MAX_RAW).neg().raw(), MAX_RAW);
    assert_eq!(Scalar::zero().neg(), Scalar::zero());
}

#[test]
fn multiplication_rounds_toward_zero_and_saturates() {
    assert_eq!(whole(6).mul(whole(7)), whole(42));
    assert_eq!(whole(-6).mul(whole(7)), whole(-42));
    assert_eq!(whole(-6).mul(whole(-7)), whole(42));
    assert_eq!(raw(3).mul(raw(ONE_RAW / 2)).raw(), 1);
    assert_eq!(raw(-3).mul(raw(ONE_RAW / 2)).raw(), -1);
    assert_eq!(raw(1).mul(raw(1)).raw(), 0);
    assert_eq!(raw(MAX_RAW).mul(whole(2)).raw(), MAX_RAW);
    assert_eq!(raw(MAX_RAW).mul(whole(-2)).raw(), -MAX_RAW);
    assert_eq!(raw(MAX_RAW).mul(raw(MAX_RAW)).raw(), MAX_RAW);
    assert_eq!(raw(12345).mul(Scalar::one()).raw(), 12345);
    assert_eq!(raw(12345).mul(Scalar::zero()).raw(), 0);
}

#[test]
fn division_rounds_toward_zero_and_saturates() {
    assert_eq!(whole(42).div(whole(7)), whole(6));
    assert_eq!(whole(1).div(whole(3)).raw(), 1431655765);
    assert_eq!(whole(-1).div(whole(3)).raw(), -1431655765);
    assert_eq!(whole(1).div(raw(1)).raw(), MAX_RAW);
    assert_eq!(whole(-1).div(raw(1)).raw(), -MAX_RAW);
    assert_eq!(raw(987654321).div(Scalar::one()).raw(), 987654321);
}

#[test]
fn division_by_zero_saturates_with_the_sign_of_the_dividend() {
    assert_eq!(whole(1).div(Scalar::zero()).raw(), MAX_RAW);
    assert_eq!(whole(-1).div(Scalar::zero()).raw(), -MAX_RAW);
    assert_eq!(Scalar::zero().div(Scalar::zero()).raw(), 0);
}

#[test]
fn reciprocal_is_one_divided_by_the_scalar() {
    assert_eq!(whole(4).recip().raw(), ONE_RAW / 4);
    assert_eq!(Scalar::from_ratio(3, 2).recip().raw(), 2863311530);
    assert_eq!(Scalar::zero().recip().raw(), MAX_RAW);
}

#[test]
fn square_root_rounds_down() {
    assert_eq!(whole(4).sqrt(), whole(2));
    assert_eq!(whole(2).sqrt().raw(), 6074000999);
    assert_eq!(Scalar::from_ratio(1, 4).sqrt().raw(), ONE_RAW / 2);
    assert_eq!(raw(1).sqrt().raw(), 65536);
    assert_eq!(Scalar::zero().sqrt().raw(), 0);
    assert_eq!(raw(MAX_RAW).sqrt().raw(), 199032864766430);
}

#[test]
fn square_root_of_a_negative_scalar_is_zero() {
    assert_eq!(whole(-4).sqrt().raw(), 0);
    assert_eq!(raw(-1).sqrt().raw(), 0);
}

#[test]
fn square_root_is_the_floor_on_many_values() {
    let mut r: i64 = 1;
    while r < MAX_RAW / 3 {
        let s = raw(r).sqrt().raw() as i128;
        let n = (r as i128) << 32;
        assert!(s * s <= n && n < (s + 1) * (s + 1));
        r = r * 3 + 1;
    }
}

#[test]
fn powers_multiply_repeatedly() {
    assert_eq!(whole(3).powi(0), Scalar::one());
    assert_eq!(whole(3).powi(1), whole(3));
    assert_eq!(whole(3).powi(4), whole(81));
    assert_eq!(Scalar::from_ratio(1, 2).powi(5).raw(), ONE_RAW / 32);
    assert_eq!(whole(-2).powi(3), whole(-8));
    assert_eq!(Scalar::zero().powi(5), Scalar::zero());
    assert_eq!(whole(1 << 20).powi(2).raw(), MAX_RAW);
}

#[test]
fn floor_rounds_toward_minus_infinity() {
    assert_eq!(Scalar::from_ratio(11, 4).floor(), 2);
    assert_eq!(Scalar::from_ratio(-1, 2).floor(), -1);
    assert_eq!(whole(-3).floor(), -3);
    assert_eq!(whole(3).floor(), 3);
    assert_eq!(raw(-1).floor(), -1);
    assert_eq!(raw(ONE_RAW - 1).floor(), 0);
    assert_eq!(raw(MAX_RAW).floor(), (1i64 << 31) - 1);
    assert_eq!(raw(-MAX_RAW).floor(), -(1i64 << 31));
}

#[test]
fn comparisons_follow_the_raw_values() {
    assert!(whole(1) < whole(2));
    assert!(!(whole(2) < whole(2)));
    assert!(whole(2) <= whole(2));
    assert!(whole(3) > whole(2));
    assert!(!(whole(2) > whole(2)));
    assert!(whole(2) >= whole(2));
    assert!(whole(-1) < Scalar::zero());
    assert!(whole(2) == whole(2));
    assert!(whole(2) != whole(3));
}

#[test]
fn random_scalars_fill_the_unit_interval() {
    let n = 4000;
    let first = unit_interval();
    let mut distinct = 0;
    let mut sum = 0.0f64;
    let mut low = 0;
    for _ in 0..n {
        let r = unit_interval();
        assert!(r >= Scalar::zero() && r < Scalar::one());
        if r != first {
            distinct += 1;
        }
        if r < Scalar::from_ratio(1, 4) {
            low += 1;
        }
        sum += r.raw() as f64 / ONE_RAW as f64;
    }
    assert!(distinct >= n - 1);
    assert!((sum / n as f64 - 0.5).abs() < 0.05);
    assert!(low > n / 8 && low < n * 3 / 8);
}
