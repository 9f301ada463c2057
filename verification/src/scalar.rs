//! Fixed-point scalars.
//!
//! A [`Scalar`] holds a signed 64-bit integer that counts units of `2^-32`.
//! Every operation is total: a result that leaves the representable range
//! saturates at `±MAX_RAW`, products and quotients round toward zero, a
//! quotient by zero saturates with the sign of the dividend, and the square
//! root of a negative number is zero. A product below `2^-32` in magnitude
//! is zero; what must not vanish with it, such as the length of a short
//! vector, is computed from the raw values in 128 bits.
//!
//! The model of a scalar is its raw value as a mathematical integer; the
//! `q_*` functions below say what each operation does to raw values.

use vstd::arithmetic::div_mod::{
    lemma_div_is_ordered, lemma_div_of0, lemma_fundamental_div_mod, lemma_mod_bound,
};
use core::cmp::Ordering;
use vstd::prelude::*;
use vstd::std_specs::cmp::PartialOrdSpecImpl;

verus! {

/// Raw value of the scalar one.
pub const ONE_RAW: i64 = 0x1_0000_0000;

/// Largest raw value; the smallest is its negation.
pub const MAX_RAW: i64 = 0x7fff_ffff_ffff_ffff;

/// Whether `x` is the raw value of some scalar.
pub open spec fn in_range(x: int) -> bool {
    -MAX_RAW <= x <= MAX_RAW
}

/// Clamps `x` into the symmetric raw range.
pub open spec fn sat(x: int) -> int {
    if x > MAX_RAW {
        MAX_RAW as int
    } else if x < -MAX_RAW {
        -(MAX_RAW as int)
    } else {
        x
    }
}

/// Absolute value.
pub open spec fn magnitude(x: int) -> int {
    if x < 0 {
        -x
    } else {
        x
    }
}

/// Quotient of `n` by `d` rounded toward zero, for `d != 0`.
pub open spec fn tdiv(n: int, d: int) -> int {
    let q = magnitude(n) / magnitude(d);
    if (n < 0) != (d < 0) {
        -q
    } else {
        q
    }
}

/// Raw value of `n / d` for plain integers `n` and `d`.
///
/// A zero denominator gives the saturated value with the sign of `n`.
pub open spec fn q_ratio(n: int, d: int) -> int {
    if d == 0 {
        if n > 0 {
            MAX_RAW as int
        } else if n < 0 {
            -(MAX_RAW as int)
        } else {
            0
        }
    } else {
        sat(tdiv(n * ONE_RAW, d))
    }
}

/// Negation of raw values.
pub open spec fn q_neg(a: int) -> int {
    sat(-a)
}

/// Saturating sum of raw values.
pub open spec fn q_add(a: int, b: int) -> int {
    sat(a + b)
}

/// Saturating difference of raw values.
pub open spec fn q_sub(a: int, b: int) -> int {
    sat(a - b)
}

/// Saturating product of raw values, rounded toward zero.
pub open spec fn q_mul(a: int, b: int) -> int {
    sat(tdiv(a * b, ONE_RAW as int))
}

/// Saturating quotient of raw values, rounded toward zero.
pub open spec fn q_div(a: int, b: int) -> int {
    q_ratio(a, b)
}

/// Reciprocal of a raw value.
pub open spec fn q_recip(a: int) -> int {
    q_div(ONE_RAW as int, a)
}

/// Whether `r` is the integer square root of `n`, rounded down.
pub open spec fn is_floor_sqrt(n: int, r: int) -> bool {
    0 <= r && r * r <= n < (r + 1) * (r + 1)
}

/// The integer square root of `n`, rounded down, for `n >= 0`.
pub open spec fn floor_sqrt(n: int) -> int {
    choose|r: int| is_floor_sqrt(n, r)
}

/// Square root of a raw value, rounded down; zero for negative arguments.
pub open spec fn q_sqrt(a: int) -> int {
    if a <= 0 {
        0
    } else {
        floor_sqrt(a * ONE_RAW)
    }
}

/// `a` raised to the power `n` by repeated rounding multiplication.
pub open spec fn q_pow(a: int, n: nat) -> int
    decreases n,
{
    if n == 0 {
        ONE_RAW as int
    } else {
        q_mul(q_pow(a, (n - 1) as nat), a)
    }
}

/// The largest integer that is not above the scalar with raw value `a`.
pub open spec fn q_floor(a: int) -> int {
    a / (ONE_RAW as int)
}

/// The magnitude of a product is the product of the magnitudes, and the
/// product is negative exactly when the factors are nonzero with opposite
/// signs.
pub proof fn lemma_product_sign(a: int, b: int)
    ensures
        magnitude(a * b) == magnitude(a) * magnitude(b),
        (a * b < 0) <==> (a != 0 && b != 0 && ((a < 0) != (b < 0))),
        (a * b == 0) <==> (a == 0 || b == 0),
{
    assert(magnitude(a * b) == magnitude(a) * magnitude(b) && ((a * b < 0) <==> (a != 0 && b != 0
        && ((a < 0) != (b < 0)))) && ((a * b == 0) <==> (a == 0 || b == 0)))
        by (nonlinear_arith);
}

/// Dividing by one changes nothing.
pub proof fn lemma_tdiv_by_one(n: int)
    ensures
        tdiv(n, 1) == n,
{
    assert(magnitude(n) / 1 == magnitude(n));
}

/// At most one integer is the rounded-down square root of `n`.
pub proof fn lemma_floor_sqrt_unique(n: int, r: int)
    requires
        is_floor_sqrt(n, r),
    ensures
        floor_sqrt(n) == r,
{
    let s = floor_sqrt(n);
    assert(s == r) by (nonlinear_arith)
        requires
            0 <= r,
            0 <= s,
            r * r <= n,
            n < (r + 1) * (r + 1),
            s * s <= n,
            n < (s + 1) * (s + 1),
    ;
}

/// Every integer that is not negative has a rounded-down square root.
pub proof fn lemma_floor_sqrt_exists(n: int)
    requires
        n >= 0,
    ensures
        is_floor_sqrt(n, floor_sqrt(n)),
    decreases n,
{
    if n == 0 {
        assert(is_floor_sqrt(0, 0));
    } else {
        lemma_floor_sqrt_exists(n - 1);
        let r = floor_sqrt(n - 1);
        if (r + 1) * (r + 1) <= n {
            assert(n < (r + 2) * (r + 2)) by (nonlinear_arith)
                requires
                    0 <= r,
                    n - 1 < (r + 1) * (r + 1),
            ;
            assert(is_floor_sqrt(n, r + 1));
        } else {
            assert(is_floor_sqrt(n, r));
        }
    }
}

/// A square root is never negative, and the square root of a positive
/// scalar is the largest raw value whose square does not exceed the scalar.
pub proof fn lemma_q_sqrt_bounds(a: int)
    ensures
        q_sqrt(a) >= 0,
        a > 0 ==> q_sqrt(a) * q_sqrt(a) <= a * ONE_RAW < (q_sqrt(a) + 1) * (q_sqrt(a) + 1),
{
    if a > 0 {
        lemma_floor_sqrt_exists(a * ONE_RAW);
    }
}

/// Saturation commutes with negation.
pub proof fn lemma_sat_neg(x: int)
    ensures
        sat(-x) == -sat(x),
{
}

/// Saturation keeps the order.
pub proof fn lemma_sat_monotone(x: int, y: int)
    requires
        x <= y,
    ensures
        sat(x) <= sat(y),
{
}

/// Negating the numerator or the denominator negates the rounded quotient.
pub proof fn lemma_tdiv_neg(n: int, d: int)
    requires
        d != 0,
    ensures
        tdiv(-n, d) == -tdiv(n, d),
        tdiv(n, -d) == -tdiv(n, d),
{
    if n == 0 {
        lemma_div_of0(magnitude(d));
    }
}

/// The rounded quotient grows with the numerator, for a positive
/// denominator.
pub proof fn lemma_tdiv_monotone(n1: int, n2: int, d: int)
    requires
        n1 <= n2,
        d > 0,
    ensures
        tdiv(n1, d) <= tdiv(n2, d),
{
    lemma_div_of0(d);
    if n1 >= 0 {
        lemma_div_is_ordered(n1, n2, d);
    } else if n2 < 0 {
        lemma_div_is_ordered(-n2, -n1, d);
    } else {
        lemma_div_is_ordered(0, -n1, d);
        lemma_div_is_ordered(0, n2, d);
    }
}

/// What rounding toward zero leaves out: `n - d * tdiv(n, d)` has the sign
/// of `n` and is smaller than `d` in magnitude, for a positive `d`.
pub proof fn lemma_tdiv_remainder(n: int, d: int)
    requires
        d > 0,
    ensures
        n >= 0 ==> 0 <= n - d * tdiv(n, d) < d,
        n <= 0 ==> -d < n - d * tdiv(n, d) <= 0,
{
    let m = magnitude(n);
    lemma_fundamental_div_mod(m, d);
    lemma_mod_bound(m, d);
    assert(d * (-(m / d)) == -(d * (m / d))) by (nonlinear_arith);
}

/// Rounding toward zero is additive up to one unit: the rounded quotient
/// of a sum differs from the sum of the rounded quotients by at most one.
pub proof fn lemma_tdiv_additive(x: int, y: int, d: int)
    requires
        d > 0,
    ensures
        -1 <= tdiv(x + y, d) - tdiv(x, d) - tdiv(y, d) <= 1,
{
    lemma_tdiv_remainder(x, d);
    lemma_tdiv_remainder(y, d);
    lemma_tdiv_remainder(x + y, d);
    let k = tdiv(x + y, d) - tdiv(x, d) - tdiv(y, d);
    let ex = x - d * tdiv(x, d);
    let ey = y - d * tdiv(y, d);
    let e = (x + y) - d * tdiv(x + y, d);
    assert(d * k == ex + ey - e) by (nonlinear_arith)
        requires
            k == tdiv(x + y, d) - tdiv(x, d) - tdiv(y, d),
            ex == x - d * tdiv(x, d),
            ey == y - d * tdiv(y, d),
            e == (x + y) - d * tdiv(x + y, d),
    ;
    assert(-2 * d < ex + ey - e < 2 * d);
    assert(-1 <= k <= 1) by (nonlinear_arith)
        requires
            d > 0,
            -2 * d < d * k < 2 * d,
    ;
}

/// Scaling by one and dividing by one again changes nothing.
pub proof fn lemma_tdiv_scaled(a: int)
    ensures
        tdiv(a * ONE_RAW, ONE_RAW as int) == a,
{
    let m = magnitude(a);
    assert((m * 0x1_0000_0000) / 0x1_0000_0000 == m);
}

/// Negating one factor negates the product; negating both changes nothing.
pub proof fn lemma_q_mul_neg(a: int, b: int)
    ensures
        q_mul(-a, b) == -q_mul(a, b),
        q_mul(a, -b) == -q_mul(a, b),
        q_mul(-a, -b) == q_mul(a, b),
{
    assert((-a) * b == -(a * b) && a * (-b) == -(a * b) && (-a) * (-b) == a * b)
        by (nonlinear_arith);
    lemma_tdiv_neg(a * b, ONE_RAW as int);
    lemma_sat_neg(tdiv(a * b, ONE_RAW as int));
}

/// Zero times anything is zero, and one times a scalar is that scalar.
pub proof fn lemma_q_mul_units(a: int)
    ensures
        q_mul(a, 0) == 0,
        q_mul(0, a) == 0,
        q_mul(a, ONE_RAW as int) == sat(a),
        q_mul(ONE_RAW as int, a) == sat(a),
        q_mul(a, 2 * ONE_RAW) == sat(2 * a),
{
    lemma_tdiv_scaled(a);
    lemma_tdiv_scaled(2 * a);
}

/// The product of scalars that are not negative grows with each factor.
pub proof fn lemma_q_mul_monotone(a1: int, b1: int, a2: int, b2: int)
    requires
        0 <= a1 <= a2,
        0 <= b1 <= b2,
    ensures
        0 <= q_mul(a1, b1) <= q_mul(a2, b2),
{
    assert(0 <= a1 * b1 <= a2 * b2) by (nonlinear_arith)
        requires
            0 <= a1 <= a2,
            0 <= b1 <= b2,
    ;
    lemma_tdiv_monotone(a1 * b1, a2 * b2, ONE_RAW as int);
    lemma_tdiv_monotone(0, a1 * b1, ONE_RAW as int);
}

/// A power of a scalar that is not negative grows with the base.
pub proof fn lemma_q_pow_monotone(a: int, b: int, n: nat)
    requires
        0 <= a <= b,
    ensures
        0 <= q_pow(a, n) <= q_pow(b, n),
    decreases n,
{
    if n > 0 {
        lemma_q_pow_monotone(a, b, (n - 1) as nat);
        lemma_q_mul_monotone(q_pow(a, (n - 1) as nat), a, q_pow(b, (n - 1) as nat), b);
    }
}

/// Negating the dividend negates the quotient; so does negating a divisor
/// that is not zero.
pub proof fn lemma_q_div_neg(a: int, b: int)
    ensures
        q_div(-a, b) == -q_div(a, b),
        b != 0 ==> q_div(a, -b) == -q_div(a, b),
{
    if b != 0 {
        lemma_tdiv_neg(a * ONE_RAW, b);
        lemma_sat_neg(tdiv(a * ONE_RAW, b));
    }
}

/// A quotient grows with the dividend, for a positive divisor.
pub proof fn lemma_q_div_monotone(a1: int, a2: int, b: int)
    requires
        a1 <= a2,
        b > 0,
    ensures
        q_div(a1, b) <= q_div(a2, b),
{
    lemma_tdiv_monotone(a1 * ONE_RAW, a2 * ONE_RAW, b);
    lemma_sat_monotone(tdiv(a1 * ONE_RAW, b), tdiv(a2 * ONE_RAW, b));
}

/// Dividing by one changes nothing.
pub proof fn lemma_q_div_by_one(a: int)
    ensures
        q_div(a, ONE_RAW as int) == sat(a),
{
    lemma_tdiv_scaled(a);
}

/// A quotient is at most one in magnitude when the dividend is at most
/// the divisor in magnitude.
pub proof fn lemma_q_div_at_most_one(a: int, b: int)
    requires
        magnitude(a) <= magnitude(b),
        b != 0,
    ensures
        -ONE_RAW <= q_div(a, b) <= ONE_RAW,
{
    let m = magnitude(a * ONE_RAW);
    let d = magnitude(b);
    assert(m <= d * ONE_RAW) by (nonlinear_arith)
        requires
            m == magnitude(a) * ONE_RAW,
            magnitude(a) <= d,
    ;
    lemma_div_is_ordered(m, d * ONE_RAW, d);
    lemma_div_is_ordered(0, m, d);
    lemma_div_of0(d);
    assert((d * ONE_RAW) / d == ONE_RAW) by (nonlinear_arith)
        requires
            d > 0,
    ;
}

/// A fixed-point number with 32 fractional bits.
#[derive(Clone, Copy, Debug, PartialEq, Eq, Structural)]
pub struct Scalar {
    raw: i64,
}

impl View for Scalar {
    type V = int;

    closed spec fn view(&self) -> int {
        self.raw as int
    }
}

/// Scalars are ordered as their raw values are.
impl PartialOrd for Scalar {
    fn partial_cmp(&self, other: &Scalar) -> (r: Option<Ordering>) {
        if self.raw < other.raw {
            Some(Ordering::Less)
        } else if self.raw > other.raw {
            Some(Ordering::Greater)
        } else {
            Some(Ordering::Equal)
        }
    }
}

impl PartialOrdSpecImpl for Scalar {
    open spec fn obeys_partial_cmp_spec() -> bool {
        true
    }

    open spec fn partial_cmp_spec(&self, other: &Scalar) -> Option<Ordering> {
        if self@ < other@ {
            Some(Ordering::Less)
        } else if self@ > other@ {
            Some(Ordering::Greater)
        } else {
            Some(Ordering::Equal)
        }
    }
}

/// Two scalars are equal exactly when their raw values are.
pub proof fn lemma_view_injective(a: Scalar, b: Scalar)
    ensures
        (a@ == b@) <==> (a == b),
{
}

/// Magnitude of a 64-bit integer.
pub(crate) fn magnitude_of(x: i64) -> (m: u128)
    ensures
        m == magnitude(x as int),
{
    if x < 0 {
        (-(x as i128)) as u128
    } else {
        x as u128
    }
}

/// Integer square root by bisection.
pub(crate) fn isqrt(n: u128) -> (r: u128)
    ensures
        is_floor_sqrt(n as int, r as int),
        r < 0x1_0000_0000_0000_0000,
{
    let mut lo: u128 = 0;
    let mut hi: u128 = 0x1_0000_0000_0000_0000;
    assert(n < 0x1_0000_0000_0000_0000int * 0x1_0000_0000_0000_0000int);
    while hi - lo > 1
        invariant
            lo < hi <= 0x1_0000_0000_0000_0000,
            lo * lo <= n < hi * hi,
        decreases hi - lo,
    {
        let mid: u128 = lo + (hi - lo) / 2;
        assert(mid * mid <= 0xffff_ffff_ffff_ffff * 0xffff_ffff_ffff_ffff) by (nonlinear_arith)
            requires
                0 <= mid <= 0xffff_ffff_ffff_ffff,
        ;
        if mid * mid <= n {
            lo = mid;
        } else {
            hi = mid;
        }
    }
    lo
}

impl Scalar {
    /// The invariant of the type: the raw value lies in the symmetric
    /// range.
    #[verifier::type_invariant]
    pub open spec fn representable(self) -> bool {
        in_range(self@)
    }

    /// The scalar with the given sign and magnitude, saturated into range.
    pub(crate) fn from_sign_magnitude(negative: bool, m: u128) -> (r: Scalar)
        ensures
            r@ == sat(
                if negative {
                    -(m as int)
                } else {
                    m as int
                },
            ),
    {
        let clamped: i64 = if m > MAX_RAW as u128 {
            MAX_RAW
        } else {
            m as i64
        };
        if negative {
            Scalar { raw: -clamped }
        } else {
            Scalar { raw: clamped }
        }
    }

    /// The scalar whose raw value is `raw`, saturated into range.
    pub fn from_raw(raw: i64) -> (r: Scalar)
        ensures
            r@ == sat(raw as int),
    {
        if raw < -MAX_RAW {
            Scalar { raw: -MAX_RAW }
        } else {
            Scalar { raw }
        }
    }

    /// The raw value: the scalar counted in units of `2^-32`.
    pub fn raw(self) -> (r: i64)
        ensures
            r == self@,
            in_range(self@),
    {
        proof {
            use_type_invariant(&self);
        }
        self.raw
    }

    /// The scalar `n / d`, rounded toward zero and saturated. A zero
    /// denominator gives the largest scalar with the sign of `n`, and zero
    /// when `n` is zero.
    pub fn from_ratio(n: i64, d: i64) -> (r: Scalar)
        ensures
            r@ == q_ratio(n as int, d as int),
    {
        if d == 0 {
            if n > 0 {
                Scalar { raw: MAX_RAW }
            } else if n < 0 {
                Scalar { raw: -MAX_RAW }
            } else {
                Scalar { raw: 0 }
            }
        } else {
            let negative = (n < 0) != (d < 0);
            let a = magnitude_of(n);
            let b = magnitude_of(d);
            assert(a <= 0x8000_0000_0000_0000 && ONE_RAW as u128 == 0x1_0000_0000);
            let q: u128 = (a * (ONE_RAW as u128)) / b;
            Scalar::from_sign_magnitude(negative, q)
        }
    }

    /// The scalar `n / d` for a denominator that is not negative.
    pub(crate) fn from_wide_ratio(n: i64, d: u128) -> (r: Scalar)
        ensures
            r@ == q_ratio(n as int, d as int),
    {
        if d == 0 {
            if n > 0 {
                Scalar { raw: MAX_RAW }
            } else if n < 0 {
                Scalar { raw: -MAX_RAW }
            } else {
                Scalar { raw: 0 }
            }
        } else {
            let a = magnitude_of(n);
            assert(a <= 0x8000_0000_0000_0000 && ONE_RAW as u128 == 0x1_0000_0000);
            let q: u128 = (a * (ONE_RAW as u128)) / d;
            Scalar::from_sign_magnitude(n < 0, q)
        }
    }

    /// The integer `n` as a scalar, saturated.
    pub fn from_i64(n: i64) -> (r: Scalar)
        ensures
            r@ == sat(n * ONE_RAW),
    {
        proof {
            lemma_tdiv_by_one(n * ONE_RAW);
        }
        Scalar::from_ratio(n, 1)
    }

    /// The integer `i` as a scalar, saturated.
    pub fn from_int(i: i32) -> (r: Scalar)
        ensures
            r@ == sat(i * ONE_RAW),
    {
        Scalar::from_i64(i as i64)
    }

    /// The integer `n` as a scalar, saturated.
    pub fn from_u32(n: u32) -> (r: Scalar)
        ensures
            r@ == sat(n * ONE_RAW),
    {
        Scalar::from_i64(n as i64)
    }

    /// The integer `n` as a scalar, saturated.
    pub fn from_usize(n: usize) -> (r: Scalar)
        ensures
            r@ == sat(n * ONE_RAW),
    {
        if n > 0x7fff_ffff {
            Scalar { raw: MAX_RAW }
        } else {
            Scalar::from_i64(n as i64)
        }
    }

    /// The scalar `bits / 2^32`, which lies in `[0, 1)`.
    pub fn from_fraction_bits(bits: u32) -> (r: Scalar)
        ensures
            r@ == bits,
            0 <= r@ < ONE_RAW,
    {
        Scalar { raw: bits as i64 }
    }

    /// The scalar `bits / 2^31 - 1`, which lies in `[-1, 1)`.
    pub fn from_signed_fraction_bits(bits: u32) -> (r: Scalar)
        ensures
            r@ == 2 * bits - ONE_RAW,
            -ONE_RAW <= r@ < ONE_RAW,
    {
        Scalar { raw: 2 * (bits as i64) - ONE_RAW }
    }

    /// Zero.
    pub fn zero() -> (r: Scalar)
        ensures
            r@ == 0,
    {
        Scalar { raw: 0 }
    }

    /// One.
    pub fn one() -> (r: Scalar)
        ensures
            r@ == ONE_RAW,
    {
        Scalar { raw: ONE_RAW }
    }

    /// The largest scalar.
    pub fn max_value() -> (r: Scalar)
        ensures
            r@ == MAX_RAW,
    {
        Scalar { raw: MAX_RAW }
    }

    /// `-self`.
    pub fn neg(self) -> (r: Scalar)
        ensures
            r@ == q_neg(self@),
            r@ == -self@,
    {
        proof {
            use_type_invariant(&self);
        }
        Scalar { raw: -self.raw }
    }

    /// `self + other`, saturating.
    pub fn add(self, other: Scalar) -> (r: Scalar)
        ensures
            r@ == q_add(self@, other@),
    {
        proof {
            use_type_invariant(&self);
            use_type_invariant(&other);
        }
        let s: i128 = self.raw as i128 + other.raw as i128;
        if s > MAX_RAW as i128 {
            Scalar { raw: MAX_RAW }
        } else if s < -(MAX_RAW as i128) {
            Scalar { raw: -MAX_RAW }
        } else {
            Scalar { raw: s as i64 }
        }
    }

    /// `self - other`, saturating.
    pub fn sub(self, other: Scalar) -> (r: Scalar)
        ensures
            r@ == q_sub(self@, other@),
    {
        proof {
            use_type_invariant(&self);
            use_type_invariant(&other);
        }
        let s: i128 = self.raw as i128 - other.raw as i128;
        if s > MAX_RAW as i128 {
            Scalar { raw: MAX_RAW }
        } else if s < -(MAX_RAW as i128) {
            Scalar { raw: -MAX_RAW }
        } else {
            Scalar { raw: s as i64 }
        }
    }

    /// `self * other`, rounded toward zero and saturating.
    pub fn mul(self, other: Scalar) -> (r: Scalar)
        ensures
            r@ == q_mul(self@, other@),
    {
        proof {
            use_type_invariant(&self);
            use_type_invariant(&other);
            lemma_product_sign(self@, other@);
        }
        let negative = (self.raw < 0) != (other.raw < 0);
        let a = magnitude_of(self.raw);
        let b = magnitude_of(other.raw);
        assert(a * b <= MAX_RAW * MAX_RAW) by (nonlinear_arith)
            requires
                0 <= a <= MAX_RAW,
                0 <= b <= MAX_RAW,
        ;
        let q: u128 = (a * b) / (ONE_RAW as u128);
        Scalar::from_sign_magnitude(negative, q)
    }

    /// `self / other`, rounded toward zero and saturating.
    ///
    /// Division by zero gives the largest scalar with the sign of `self`,
    /// and zero when `self` is zero.
    pub fn div(self, other: Scalar) -> (r: Scalar)
        ensures
            r@ == q_div(self@, other@),
    {
        Scalar::from_ratio(self.raw, other.raw)
    }

    /// `1 / self`.
    pub fn recip(self) -> (r: Scalar)
        ensures
            r@ == q_recip(self@),
    {
        Scalar::from_ratio(ONE_RAW, self.raw)
    }

    /// The square root of `self`, rounded down; zero when `self` is negative.
    pub fn sqrt(self) -> (r: Scalar)
        ensures
            r@ == q_sqrt(self@),
    {
        if self.raw <= 0 {
            Scalar { raw: 0 }
        } else {
            let n: u128 = (self.raw as u128) * (ONE_RAW as u128);
            let s = isqrt(n);
            proof {
                lemma_floor_sqrt_unique(n as int, s as int);
                assert(s < 0x1_0000_0000_0000) by (nonlinear_arith)
                    requires
                        0 <= s,
                        s * s <= n,
                        n < 0x1_0000_0000_0000_0000_0000_0000int,
                ;
            }
            Scalar { raw: s as i64 }
        }
    }

    /// `self` raised to the power `n`.
    pub fn powi(self, n: u32) -> (r: Scalar)
        ensures
            r@ == q_pow(self@, n as nat),
    {
        let mut acc = Scalar { raw: ONE_RAW };
        let mut i: u32 = 0;
        while i < n
            invariant
                i <= n,
                acc@ == q_pow(self@, i as nat),
            decreases n - i,
        {
            acc = acc.mul(self);
            i = i + 1;
        }
        acc
    }

    /// The integer part of `self`, rounded down.
    pub fn floor(self) -> (r: i64)
        ensures
            r == q_floor(self@),
    {
        if self.raw >= 0 {
            self.raw / ONE_RAW
        } else {
            let m: u128 = magnitude_of(self.raw);
            let up: u128 = (m + (ONE_RAW as u128 - 1)) / (ONE_RAW as u128);
            -(up as i64)
        }
    }
}

} // verus!
