//! Three-component vectors over [`Scalar`], used for points, directions and
//! colours.

use crate::sampling::random_bits;
use crate::scalar::{
    floor_sqrt, in_range, isqrt, lemma_floor_sqrt_exists, lemma_floor_sqrt_unique,
    lemma_product_sign, lemma_q_div_at_most_one, lemma_q_mul_neg, lemma_q_mul_units,
    lemma_q_mul_monotone, lemma_sat_monotone, lemma_tdiv_additive, lemma_tdiv_monotone,
    lemma_tdiv_neg,
    lemma_tdiv_remainder, lemma_tdiv_scaled, magnitude, magnitude_of,
    q_add, q_div, q_floor, q_mul, q_neg, q_sqrt, q_sub, sat, tdiv, Scalar, MAX_RAW, ONE_RAW,
};
use vstd::prelude::*;

verus! {

/// Raw value of the factor that maps a colour channel in `[0, 1)` onto
/// `[0, 256)`: 255.999.
pub const BYTE_SCALE_RAW: i64 = 1099507332808;

/// How many candidates [`Vec3::rand_in_unit_ball`] draws before it settles
/// for the centre of the ball.
pub const BALL_ATTEMPTS: u32 = 64;

/// The model of a [`Vec3`]: the raw values of its components.
pub struct Vec3Model {
    pub x: int,
    pub y: int,
    pub z: int,
}

impl Vec3Model {
    pub open spec fn zero() -> Vec3Model {
        Vec3Model { x: 0, y: 0, z: 0 }
    }

    pub open spec fn neg(self) -> Vec3Model {
        Vec3Model { x: q_neg(self.x), y: q_neg(self.y), z: q_neg(self.z) }
    }

    pub open spec fn add(self, o: Vec3Model) -> Vec3Model {
        Vec3Model { x: q_add(self.x, o.x), y: q_add(self.y, o.y), z: q_add(self.z, o.z) }
    }

    pub open spec fn sub(self, o: Vec3Model) -> Vec3Model {
        Vec3Model { x: q_sub(self.x, o.x), y: q_sub(self.y, o.y), z: q_sub(self.z, o.z) }
    }

    /// Every component times `k`.
    pub open spec fn mul(self, k: int) -> Vec3Model {
        Vec3Model { x: q_mul(self.x, k), y: q_mul(self.y, k), z: q_mul(self.z, k) }
    }

    /// Component by component product.
    pub open spec fn mul_vec(self, o: Vec3Model) -> Vec3Model {
        Vec3Model { x: q_mul(self.x, o.x), y: q_mul(self.y, o.y), z: q_mul(self.z, o.z) }
    }

    /// Every component divided by `k`.
    pub open spec fn div(self, k: int) -> Vec3Model {
        Vec3Model { x: q_div(self.x, k), y: q_div(self.y, k), z: q_div(self.z, k) }
    }

    pub open spec fn sqrt(self) -> Vec3Model {
        Vec3Model { x: q_sqrt(self.x), y: q_sqrt(self.y), z: q_sqrt(self.z) }
    }

    /// The exact sum of the three products of raw components, in units of
    /// `2^-64`.
    pub open spec fn raw_dot(self, o: Vec3Model) -> int {
        self.x * o.x + self.y * o.y + self.z * o.z
    }

    /// The dot product: the exact sum of the three products of raw
    /// components, rounded toward zero once and saturated.
    pub open spec fn dot(self, o: Vec3Model) -> int {
        sat(tdiv(self.raw_dot(o), ONE_RAW as int))
    }

    pub open spec fn cross(self, o: Vec3Model) -> Vec3Model {
        Vec3Model {
            x: q_sub(q_mul(self.y, o.z), q_mul(self.z, o.y)),
            y: q_sub(q_mul(self.z, o.x), q_mul(self.x, o.z)),
            z: q_sub(q_mul(self.x, o.y), q_mul(self.y, o.x)),
        }
    }

    pub open spec fn squared_length(self) -> int {
        self.dot(self)
    }

    /// The exact sum of the squares of the raw components, in units of
    /// `2^-64`.
    pub open spec fn norm_sum(self) -> int {
        self.x * self.x + self.y * self.y + self.z * self.z
    }

    /// The length: the square root, rounded down, of the exact sum of the
    /// squares. No square is rounded, so only the zero vector has length
    /// zero.
    pub open spec fn length(self) -> int {
        sat(floor_sqrt(self.norm_sum()))
    }

    /// The largest magnitude among the raw components.
    pub open spec fn max_magnitude(self) -> int {
        let x = magnitude(self.x);
        let y = magnitude(self.y);
        let z = magnitude(self.z);
        if x >= y && x >= z {
            x
        } else if y >= z {
            y
        } else {
            z
        }
    }

    /// The raw components times `f`, as plain integers.
    pub open spec fn stretched(self, f: int) -> Vec3Model {
        Vec3Model { x: self.x * f, y: self.y * f, z: self.z * f }
    }

    /// The vector divided by its length.
    ///
    /// So that a short vector loses no precision, the components are first
    /// doubled as often as [`stretch`] says; then each is divided by the
    /// square root, rounded down, of the exact sum of their squares. The
    /// unit vector of the zero vector is the zero vector.
    pub open spec fn unit(self) -> Vec3Model {
        let w = self.stretched(stretch(self.max_magnitude()));
        let l = floor_sqrt(w.norm_sum());
        Vec3Model { x: q_div(w.x, l), y: q_div(w.y, l), z: q_div(w.z, l) }
    }

    /// The mirror image of `self` at the plane with normal `n`:
    /// `self - 2 (self . n) n`.
    pub open spec fn reflect(self, n: Vec3Model) -> Vec3Model {
        self.sub(n.mul(self.dot(n)).mul(2 * ONE_RAW))
    }

    /// The discriminant `1 - r^2 (1 - dt^2)` of Snell's law, where `dt` is
    /// the cosine between the unit vector of `self` and `n`.
    pub open spec fn refract_discriminant(self, n: Vec3Model, r: int) -> int {
        let dt = self.unit().dot(n);
        q_sub(ONE_RAW as int, q_mul(q_mul(r, r), q_sub(ONE_RAW as int, q_mul(dt, dt))))
    }

    /// The refracted direction, or `None` under total internal reflection.
    pub open spec fn refract(self, n: Vec3Model, r: int) -> Option<Vec3Model> {
        let uv = self.unit();
        let dt = uv.dot(n);
        let discr = self.refract_discriminant(n, r);
        if discr >= 0 {
            Some(uv.sub(n.mul(dt)).mul(r).sub(n.mul(q_sqrt(discr))))
        } else {
            None
        }
    }

    /// Whether the vector lies strictly inside the unit ball.
    pub open spec fn in_unit_ball(self) -> bool {
        self.squared_length() < ONE_RAW
    }

    /// Whether every component lies between zero and one, as the channels
    /// of a colour do.
    pub open spec fn in_unit_range(self) -> bool {
        0 <= self.x <= ONE_RAW && 0 <= self.y <= ONE_RAW && 0 <= self.z <= ONE_RAW
    }

    /// Whether every component is the raw value of a scalar, as it is for
    /// the model of every [`Vec3`].
    pub open spec fn valid(self) -> bool {
        in_range(self.x) && in_range(self.y) && in_range(self.z)
    }
}

/// Raw magnitude up to which [`stretch`] doubles: `2^61`.
pub const STRETCH_LIMIT: i64 = 0x2000_0000_0000_0000;

/// The power of two by which to multiply a magnitude `m` so that it comes
/// to lie above `2^61` and not above `2^62`; one for a magnitude that is
/// zero or lies there already.
pub open spec fn stretch(m: int) -> int
    decreases 2 * STRETCH_LIMIT - m,
{
    if 0 < m <= STRETCH_LIMIT {
        2 * stretch(2 * m)
    } else {
        1
    }
}

/// The rounded-down square root of `n` is at least `m` when `n` is at
/// least the square of `m`.
pub proof fn lemma_floor_sqrt_at_least(n: int, m: int)
    requires
        0 <= m,
        m * m <= n,
    ensures
        floor_sqrt(n) >= m,
{
    assert(0 <= m * m) by (nonlinear_arith);
    lemma_floor_sqrt_exists(n);
    let r = floor_sqrt(n);
    assert(r >= m) by (nonlinear_arith)
        requires
            0 <= r,
            0 <= m,
            m * m <= n,
            n < (r + 1) * (r + 1),
    ;
}

/// The exact sum of squares is at least the square of each component.
pub proof fn lemma_norm_sum_bounds(v: Vec3Model)
    ensures
        v.norm_sum() >= magnitude(v.x) * magnitude(v.x),
        v.norm_sum() >= magnitude(v.y) * magnitude(v.y),
        v.norm_sum() >= magnitude(v.z) * magnitude(v.z),
        v.norm_sum() >= 0,
        v.norm_sum() == magnitude(v.x) * magnitude(v.x) + magnitude(v.y) * magnitude(v.y)
            + magnitude(v.z) * magnitude(v.z),
{
    lemma_product_sign(v.x, v.x);
    lemma_product_sign(v.y, v.y);
    lemma_product_sign(v.z, v.z);
}

/// Only the zero vector has length zero: the length of a vector is at
/// least the magnitude of each of its components.
pub proof fn lemma_length_positive(v: Vec3Model)
    requires
        v.valid(),
    ensures
        v.length() >= magnitude(v.x),
        v.length() >= magnitude(v.y),
        v.length() >= magnitude(v.z),
        v != Vec3Model::zero() ==> v.length() > 0,
{
    lemma_norm_sum_bounds(v);
    lemma_floor_sqrt_at_least(v.norm_sum(), magnitude(v.x));
    lemma_floor_sqrt_at_least(v.norm_sum(), magnitude(v.y));
    lemma_floor_sqrt_at_least(v.norm_sum(), magnitude(v.z));
}

/// The product of two colours, channel by channel, is a colour.
pub proof fn lemma_mul_vec_in_unit_range(a: Vec3Model, b: Vec3Model)
    requires
        a.in_unit_range(),
        b.in_unit_range(),
    ensures
        a.mul_vec(b).in_unit_range(),
{
    lemma_q_mul_units(ONE_RAW as int);
    lemma_q_mul_monotone(a.x, b.x, ONE_RAW as int, ONE_RAW as int);
    lemma_q_mul_monotone(a.y, b.y, ONE_RAW as int, ONE_RAW as int);
    lemma_q_mul_monotone(a.z, b.z, ONE_RAW as int, ONE_RAW as int);
}

/// The zero vector lies strictly inside the unit ball.
pub proof fn lemma_zero_in_unit_ball()
    ensures
        Vec3Model::zero().in_unit_ball(),
{
    let z = Vec3Model::zero();
    assert(z.x * z.x + z.y * z.y + z.z * z.z == 0) by (nonlinear_arith)
        requires
            z.x == 0,
            z.y == 0,
            z.z == 0,
    ;
    lemma_tdiv_scaled(0);
    assert(0 * ONE_RAW == 0);
}

/// A length is never negative.
pub proof fn lemma_length_nonnegative(v: Vec3Model)
    ensures
        v.length() >= 0,
{
    lemma_norm_sum_bounds(v);
    lemma_floor_sqrt_exists(v.norm_sum());
}

/// The zero vector has length zero.
pub proof fn lemma_length_of_zero()
    ensures
        Vec3Model::zero().length() == 0,
{
    lemma_floor_sqrt_unique(0, 0);
}

/// The length of a vector is at most twice its largest component.
pub proof fn lemma_length_at_most_twice(v: Vec3Model)
    ensures
        v.length() <= 2 * v.max_magnitude(),
{
    let m = v.max_magnitude();
    lemma_norm_sum_bounds(v);
    lemma_floor_sqrt_exists(v.norm_sum());
    let r = floor_sqrt(v.norm_sum());
    assert(r <= 2 * m) by (nonlinear_arith)
        requires
            0 <= r,
            0 <= m,
            r * r <= v.norm_sum(),
            v.norm_sum() == magnitude(v.x) * magnitude(v.x) + magnitude(v.y) * magnitude(v.y)
                + magnitude(v.z) * magnitude(v.z),
            0 <= magnitude(v.x) <= m,
            0 <= magnitude(v.y) <= m,
            0 <= magnitude(v.z) <= m,
    {
        assert(magnitude(v.x) * magnitude(v.x) <= m * m);
        assert(magnitude(v.y) * magnitude(v.y) <= m * m);
        assert(magnitude(v.z) * magnitude(v.z) <= m * m);
        if r > 2 * m {
            assert(r * r >= (2 * m + 1) * (2 * m + 1));
        }
    }
}

/// A short vector has the unit vector of its double: as long as the
/// largest component does not exceed `2^61` units, doubling every
/// component leaves the unit vector as it is. So the unit vector of a
/// short vector is as precise as that of a long one.
pub proof fn lemma_unit_of_doubled(v: Vec3Model)
    requires
        0 < v.max_magnitude() <= STRETCH_LIMIT,
    ensures
        v.stretched(2).unit() == v.unit(),
{
    let m = v.max_magnitude();
    let d = v.stretched(2);
    assert(d.max_magnitude() == 2 * m);
    let f = stretch(2 * m);
    assert(stretch(m) == 2 * f);
    assert(d.stretched(f) == v.stretched(2 * f)) by {
        assert((v.x * 2) * f == v.x * (2 * f)) by (nonlinear_arith);
        assert((v.y * 2) * f == v.y * (2 * f)) by (nonlinear_arith);
        assert((v.z * 2) * f == v.z * (2 * f)) by (nonlinear_arith);
    }
}

/// A magnitude that is not zero is stretched beyond `2^61` units.
pub proof fn lemma_stretch_reaches(m: int)
    requires
        m > 0,
    ensures
        stretch(m) >= 1,
        m * stretch(m) > STRETCH_LIMIT,
    decreases 2 * STRETCH_LIMIT - m,
{
    if m <= STRETCH_LIMIT {
        lemma_stretch_reaches(2 * m);
        assert(m * (2 * stretch(2 * m)) == (2 * m) * stretch(2 * m)) by (nonlinear_arith);
    }
}

/// What the division of a stretched component `w` by the stretched length
/// `l` leaves out: the magnitude `a` of the quotient satisfies
/// `a l <= |w| 2^32 < (a + 1) l`.
proof fn lemma_unit_component(w: int, l: int)
    requires
        l > 0,
        magnitude(w) <= l,
    ensures
        0 <= magnitude(q_div(w, l)) <= ONE_RAW,
        magnitude(q_div(w, l)) * l <= magnitude(w) * ONE_RAW,
        magnitude(w) * ONE_RAW < (magnitude(q_div(w, l)) + 1) * l,
{
    let n = magnitude(w) * ONE_RAW;
    assert(magnitude(w * ONE_RAW) == n);
    lemma_q_div_at_most_one(w, l);
    lemma_tdiv_remainder(n, l);
    assert(tdiv(n, l) == n / l);
    assert(magnitude(tdiv(w * ONE_RAW, l)) == n / l);
    let a = n / l;
    assert((a + 1) * l == l * a + l) by (nonlinear_arith);
    assert(a * l == l * a) by (nonlinear_arith);
}

/// A unit vector has length one up to rounding, for every vector that is
/// not zero: the exact sum of the squares of its raw components differs
/// from the square of one by less than seven units of `2^-32`, and its
/// squared length lies at most seven units below one and not above.
pub proof fn lemma_unit_has_unit_length(v: Vec3Model)
    requires
        v.valid(),
        v != Vec3Model::zero(),
    ensures
        ONE_RAW * ONE_RAW - 7 * ONE_RAW < v.unit().norm_sum() < ONE_RAW * ONE_RAW + 17,
        ONE_RAW - 7 <= v.unit().squared_length() <= ONE_RAW,
{
    let m = v.max_magnitude();
    let f = stretch(m);
    lemma_stretch_reaches(m);
    let w = v.stretched(f);
    let l = floor_sqrt(w.norm_sum());
    let u = v.unit();
    lemma_norm_sum_bounds(w);
    lemma_norm_sum_bounds(u);
    lemma_floor_sqrt_exists(w.norm_sum());
    lemma_floor_sqrt_at_least(w.norm_sum(), magnitude(w.x));
    lemma_floor_sqrt_at_least(w.norm_sum(), magnitude(w.y));
    lemma_floor_sqrt_at_least(w.norm_sum(), magnitude(w.z));
    lemma_product_sign(v.x, f);
    lemma_product_sign(v.y, f);
    lemma_product_sign(v.z, f);
    assert(l > STRETCH_LIMIT);
    lemma_unit_component(w.x, l);
    lemma_unit_component(w.y, l);
    lemma_unit_component(w.z, l);
    let s = ONE_RAW as int;
    let (a, b, c) = (magnitude(u.x), magnitude(u.y), magnitude(u.z));
    let (x, y, z) = (magnitude(w.x), magnitude(w.y), magnitude(w.z));
    let n = w.norm_sum();
    let l2 = l * l;
    let s2 = s * s;
    let total = a * a + b * b + c * c;
    let up = (a + 1) * (a + 1) + (b + 1) * (b + 1) + (c + 1) * (c + 1);
    // Below: the squares of the quotients, times l^2, do not exceed 2^64 n.
    lemma_square_ordered(a * l, x * s);
    lemma_square_ordered(b * l, y * s);
    lemma_square_ordered(c * l, z * s);
    lemma_square_of_product(a, l);
    lemma_square_of_product(b, l);
    lemma_square_of_product(c, l);
    lemma_square_of_product(x, s);
    lemma_square_of_product(y, s);
    lemma_square_of_product(z, s);
    lemma_distribute(a * a, b * b, c * c, l2);
    lemma_distribute(x * x, y * y, z * z, s2);
    assert(total * l2 <= n * s2);
    // Above: the squares of the quotients plus one, times l^2, exceed it.
    lemma_square_ordered(x * s, (a + 1) * l);
    lemma_square_ordered(y * s, (b + 1) * l);
    lemma_square_ordered(z * s, (c + 1) * l);
    lemma_square_of_product(a + 1, l);
    lemma_square_of_product(b + 1, l);
    lemma_square_of_product(c + 1, l);
    lemma_distribute((a + 1) * (a + 1), (b + 1) * (b + 1), (c + 1) * (c + 1), l2);
    assert(n * s2 < up * l2);
    assert(total < s2 + 17) by (nonlinear_arith)
        requires
            total * l2 <= n * s2,
            l2 == l * l,
            n < (l + 1) * (l + 1),
            l > 0x2000_0000_0000_0000,
            s2 == 0x1_0000_0000_0000_0000,
            total >= 0,
    {
        if total >= s2 + 17 {
            assert(total * l2 >= (s2 + 17) * l2);
            assert(17 * l2 >= s2 * (2 * l + 1));
            assert(n * s2 <= s2 * (l * l + 2 * l));
        }
    }
    assert(l2 > 0) by (nonlinear_arith)
        requires
            l2 == l * l,
            l > 0,
    ;
    assert(s2 < up) by (nonlinear_arith)
        requires
            n * s2 < up * l2,
            l2 <= n,
            l2 > 0,
            s2 > 0,
    {
        if up <= s2 {
            assert(up * l2 <= s2 * l2);
            assert(s2 * l2 <= n * s2);
        }
    }
    assert(up == total + 2 * (a + b + c) + 3) by (nonlinear_arith)
        requires
            up == (a + 1) * (a + 1) + (b + 1) * (b + 1) + (c + 1) * (c + 1),
            total == a * a + b * b + c * c,
    ;
    assert(s2 == ONE_RAW * ONE_RAW);
    lemma_tdiv_scaled(ONE_RAW - 7);
    lemma_tdiv_scaled(ONE_RAW as int);
    lemma_tdiv_monotone((ONE_RAW - 7) * ONE_RAW, u.norm_sum(), ONE_RAW as int);
    lemma_tdiv_monotone(u.norm_sum(), ONE_RAW * ONE_RAW + 16, ONE_RAW as int);
    assert(tdiv(ONE_RAW * ONE_RAW + 16, ONE_RAW as int) == ONE_RAW) by {
        assert(ONE_RAW * ONE_RAW + 16 == 0x1_0000_0000_0000_0010);
        assert(0x1_0000_0000_0000_0010int / 0x1_0000_0000int == 0x1_0000_0000int);
    }
}

/// The square of a product is the product of the squares.
proof fn lemma_square_of_product(p: int, q: int)
    ensures
        (p * q) * (p * q) == (p * p) * (q * q),
{
    assert((p * q) * (p * q) == (p * p) * (q * q)) by (nonlinear_arith);
}

/// A sum of three times a factor is the sum of the three products.
proof fn lemma_distribute(p: int, q: int, r: int, k: int)
    ensures
        (p + q + r) * k == p * k + q * k + r * k,
{
    assert((p + q + r) * k == p * k + q * k + r * k) by (nonlinear_arith);
}

/// Squaring keeps the order of numbers that are not negative.
proof fn lemma_square_ordered(p: int, q: int)
    requires
        0 <= p <= q,
    ensures
        p * p <= q * q,
        p < q ==> p * p < q * q,
{
    assert(p * p <= q * q && (p < q ==> p * p < q * q)) by (nonlinear_arith)
        requires
            0 <= p <= q,
    ;
}

/// Every component of a unit vector lies between minus one and one.
pub proof fn lemma_unit_bounded(v: Vec3Model)
    ensures
        -ONE_RAW <= v.unit().x <= ONE_RAW,
        -ONE_RAW <= v.unit().y <= ONE_RAW,
        -ONE_RAW <= v.unit().z <= ONE_RAW,
{
    let w = v.stretched(stretch(v.max_magnitude()));
    let l = floor_sqrt(w.norm_sum());
    lemma_norm_sum_bounds(w);
    lemma_floor_sqrt_at_least(w.norm_sum(), magnitude(w.x));
    lemma_floor_sqrt_at_least(w.norm_sum(), magnitude(w.y));
    lemma_floor_sqrt_at_least(w.norm_sum(), magnitude(w.z));
    if l != 0 {
        lemma_q_div_at_most_one(w.x, l);
        lemma_q_div_at_most_one(w.y, l);
        lemma_q_div_at_most_one(w.z, l);
    }
}

/// The squared length of a vector is never negative.
pub proof fn lemma_squared_length_nonnegative(v: Vec3Model)
    ensures
        v.squared_length() >= 0,
{
    lemma_norm_sum_bounds(v);
    lemma_tdiv_monotone(0, v.norm_sum(), ONE_RAW as int);
}

/// The dot product is additive up to one unit of `2^-32`, where neither
/// the sum of the vectors nor the dot products saturate.
pub proof fn lemma_dot_additive(a: Vec3Model, b: Vec3Model, n: Vec3Model)
    requires
        a.add(b) == (Vec3Model { x: a.x + b.x, y: a.y + b.y, z: a.z + b.z }),
        in_range(tdiv(a.raw_dot(n), ONE_RAW as int)),
        in_range(tdiv(b.raw_dot(n), ONE_RAW as int)),
        in_range(tdiv(a.add(b).raw_dot(n), ONE_RAW as int)),
    ensures
        -1 <= a.add(b).dot(n) - a.dot(n) - b.dot(n) <= 1,
{
    assert(a.add(b).raw_dot(n) == a.raw_dot(n) + b.raw_dot(n)) by (nonlinear_arith)
        requires
            a.add(b).raw_dot(n) == (a.x + b.x) * n.x + (a.y + b.y) * n.y + (a.z + b.z) * n.z,
            a.raw_dot(n) == a.x * n.x + a.y * n.y + a.z * n.z,
            b.raw_dot(n) == b.x * n.x + b.y * n.y + b.z * n.z,
    ;
    lemma_tdiv_additive(a.raw_dot(n), b.raw_dot(n), ONE_RAW as int);
}

/// Negating a vector negates its dot product with any other.
pub proof fn lemma_dot_neg(a: Vec3Model, b: Vec3Model)
    requires
        a.valid(),
    ensures
        a.neg().dot(b) == -a.dot(b),
        b.dot(a.neg()) == -b.dot(a),
{
    let sum = a.x * b.x + a.y * b.y + a.z * b.z;
    assert((-a.x) * b.x + (-a.y) * b.y + (-a.z) * b.z == -sum) by (nonlinear_arith)
        requires
            sum == a.x * b.x + a.y * b.y + a.z * b.z,
    ;
    assert(b.x * (-a.x) + b.y * (-a.y) + b.z * (-a.z) == -(b.x * a.x + b.y * a.y + b.z * a.z))
        by (nonlinear_arith);
    lemma_tdiv_neg(sum, ONE_RAW as int);
    lemma_tdiv_neg(b.x * a.x + b.y * a.y + b.z * a.z, ONE_RAW as int);
}

/// Refraction fails exactly when the discriminant of Snell's law is
/// negative, that is, under total internal reflection.
pub proof fn lemma_refract_none_iff_negative_discriminant(v: Vec3Model, n: Vec3Model, r: int)
    ensures
        v.refract(n, r) is None <==> v.refract_discriminant(n, r) < 0,
{
}

/// A vector that is orthogonal to the normal is its own mirror image.
pub proof fn lemma_reflect_orthogonal(v: Vec3Model, n: Vec3Model)
    requires
        v.valid(),
        v.dot(n) == 0,
    ensures
        v.reflect(n) == v,
{
    lemma_q_mul_units(n.x);
    lemma_q_mul_units(n.y);
    lemma_q_mul_units(n.z);
    lemma_q_mul_units(0);
}

/// A vector along an axis is mirrored to its negation at the plane across
/// that axis: for the normal `(0, 1, 0)` and every scalar `k`, the mirror
/// image of `(0, k, 0)` is `(0, -k, 0)`, and likewise for the other axes
/// and for the opposite normals. The law holds where `2 k` is
/// representable.
pub proof fn lemma_reflect_along_axis(n: Vec3Model, k: int)
    requires
        n.valid(),
        magnitude(n.x) + magnitude(n.y) + magnitude(n.z) == ONE_RAW,
        n.x == 0 && n.y == 0 || n.x == 0 && n.z == 0 || n.y == 0 && n.z == 0,
        in_range(2 * k),
    ensures
        n.mul(k).reflect(n) == n.mul(k).neg(),
{
    let v = n.mul(k);
    lemma_q_mul_units(k);
    lemma_q_mul_units(-k);
    lemma_q_mul_units(0);
    lemma_q_mul_neg(ONE_RAW as int, k);
    lemma_q_mul_neg(k, ONE_RAW as int);
    lemma_q_mul_neg(-k, ONE_RAW as int);
    lemma_tdiv_scaled(k);
    lemma_tdiv_scaled(-k);
    assert(v.x * n.x + v.y * n.y + v.z * n.z == k * ONE_RAW || v.x * n.x + v.y * n.y + v.z * n.z
        == (-k) * ONE_RAW) by (nonlinear_arith)
        requires
            n.x == 0 && n.y == 0 || n.x == 0 && n.z == 0 || n.y == 0 && n.z == 0,
            magnitude(n.x) + magnitude(n.y) + magnitude(n.z) == ONE_RAW,
            v.x == 0 || v.x == k || v.x == -k,
            v.y == 0 || v.y == k || v.y == -k,
            v.z == 0 || v.z == k || v.z == -k,
            n.x == 0 ==> v.x == 0,
            n.y == 0 ==> v.y == 0,
            n.z == 0 ==> v.z == 0,
            n.x == ONE_RAW ==> v.x == k,
            n.x == -ONE_RAW ==> v.x == -k,
            n.y == ONE_RAW ==> v.y == k,
            n.y == -ONE_RAW ==> v.y == -k,
            n.z == ONE_RAW ==> v.z == k,
            n.z == -ONE_RAW ==> v.z == -k,
    ;
    lemma_reflect_parallel(v, n);
}

/// A vector along a normal of unit length is mirrored to its negation.
///
/// That `v` lies along the unit normal `n` is stated as: the projection
/// `(v . n) n` of `v` onto `n` is `v` itself. The law holds where `2 v`
/// is representable; beyond, the doubling saturates.
pub proof fn lemma_reflect_parallel(v: Vec3Model, n: Vec3Model)
    requires
        n.mul(v.dot(n)) == v,
        in_range(2 * v.x),
        in_range(2 * v.y),
        in_range(2 * v.z),
    ensures
        v.reflect(n) == v.neg(),
{
    lemma_q_mul_units(v.x);
    lemma_q_mul_units(v.y);
    lemma_q_mul_units(v.z);
}

/// The byte for a colour channel: `floor(c * 255.999)`, clamped to `0..=255`.
pub open spec fn channel_byte(c: int) -> int {
    let scaled = q_floor(q_mul(c, BYTE_SCALE_RAW as int));
    if scaled < 0 {
        0
    } else if scaled > 255 {
        255
    } else {
        scaled
    }
}

/// The byte of a channel lies in `0..=255` and does not fall when the
/// channel grows.
pub proof fn lemma_channel_byte_monotone(c1: int, c2: int)
    requires
        c1 <= c2,
    ensures
        0 <= channel_byte(c1) <= channel_byte(c2) <= 255,
{
    assert(c1 * BYTE_SCALE_RAW <= c2 * BYTE_SCALE_RAW) by (nonlinear_arith)
        requires
            c1 <= c2,
            BYTE_SCALE_RAW > 0,
    ;
    lemma_tdiv_monotone(c1 * BYTE_SCALE_RAW, c2 * BYTE_SCALE_RAW, ONE_RAW as int);
    lemma_sat_monotone(
        tdiv(c1 * BYTE_SCALE_RAW, ONE_RAW as int),
        tdiv(c2 * BYTE_SCALE_RAW, ONE_RAW as int),
    );
}

/// Whether `bytes` holds the bytes of the three channels of the colour `c`.
pub open spec fn is_rgb_of(bytes: [u8; 3], c: Vec3Model) -> bool {
    bytes[0] == channel_byte(c.x) && bytes[1] == channel_byte(c.y) && bytes[2] == channel_byte(c.z)
}

/// The sum of the vectors of `s`, added from the left, starting at zero.
pub open spec fn sum_model(s: Seq<Vec3Model>) -> Vec3Model
    decreases s.len(),
{
    if s.len() == 0 {
        Vec3Model::zero()
    } else {
        sum_model(s.drop_last()).add(s.last())
    }
}

/// The models of the vectors of `s`.
pub open spec fn models(s: Seq<Vec3>) -> Seq<Vec3Model> {
    s.map_values(|v: Vec3| v@)
}

/// A vector with three fixed-point components.
#[derive(Clone, Copy, Debug, PartialEq, Eq, Structural)]
pub struct Vec3 {
    pub x: Scalar,
    pub y: Scalar,
    pub z: Scalar,
}

impl View for Vec3 {
    type V = Vec3Model;

    open spec fn view(&self) -> Vec3Model {
        Vec3Model { x: self.x@, y: self.y@, z: self.z@ }
    }
}

impl Vec3 {
    pub fn new(x: Scalar, y: Scalar, z: Scalar) -> (v: Vec3)
        ensures
            v@ == (Vec3Model { x: x@, y: y@, z: z@ }),
    {
        Vec3 { x, y, z }
    }

    pub fn from_array(xyz: [Scalar; 3]) -> (v: Vec3)
        ensures
            v@ == (Vec3Model { x: xyz[0]@, y: xyz[1]@, z: xyz[2]@ }),
    {
        Vec3 { x: xyz[0], y: xyz[1], z: xyz[2] }
    }

    /// The zero vector.
    pub fn zero() -> (v: Vec3)
        ensures
            v@ == Vec3Model::zero(),
    {
        Vec3 { x: Scalar::zero(), y: Scalar::zero(), z: Scalar::zero() }
    }

    /// Whether every component is zero.
    pub fn is_zero(&self) -> (b: bool)
        ensures
            b == (self@ == Vec3Model::zero()),
    {
        self.x.raw() == 0 && self.y.raw() == 0 && self.z.raw() == 0
    }

    pub fn neg(self) -> (v: Vec3)
        ensures
            v@ == self@.neg(),
    {
        Vec3 { x: self.x.neg(), y: self.y.neg(), z: self.z.neg() }
    }

    pub fn add(self, other: Vec3) -> (v: Vec3)
        ensures
            v@ == self@.add(other@),
    {
        Vec3 { x: self.x.add(other.x), y: self.y.add(other.y), z: self.z.add(other.z) }
    }

    pub fn sub(self, other: Vec3) -> (v: Vec3)
        ensures
            v@ == self@.sub(other@),
    {
        Vec3 { x: self.x.sub(other.x), y: self.y.sub(other.y), z: self.z.sub(other.z) }
    }

    /// Every component times `k`.
    pub fn mul(self, k: Scalar) -> (v: Vec3)
        ensures
            v@ == self@.mul(k@),
    {
        Vec3 { x: self.x.mul(k), y: self.y.mul(k), z: self.z.mul(k) }
    }

    /// Component by component product, as used to attenuate a colour.
    pub fn mul_vec(self, other: Vec3) -> (v: Vec3)
        ensures
            v@ == self@.mul_vec(other@),
    {
        Vec3 { x: self.x.mul(other.x), y: self.y.mul(other.y), z: self.z.mul(other.z) }
    }

    /// Every component divided by `k`.
    pub fn div(self, k: Scalar) -> (v: Vec3)
        ensures
            v@ == self@.div(k@),
    {
        Vec3 { x: self.x.div(k), y: self.y.div(k), z: self.z.div(k) }
    }

    pub fn add_assign(&mut self, other: Vec3)
        ensures
            final(self)@ == old(self)@.add(other@),
    {
        self.x = self.x.add(other.x);
        self.y = self.y.add(other.y);
        self.z = self.z.add(other.z);
    }

    pub fn sub_assign(&mut self, other: Vec3)
        ensures
            final(self)@ == old(self)@.sub(other@),
    {
        self.x = self.x.sub(other.x);
        self.y = self.y.sub(other.y);
        self.z = self.z.sub(other.z);
    }

    pub fn mul_assign(&mut self, k: Scalar)
        ensures
            final(self)@ == old(self)@.mul(k@),
    {
        self.x = self.x.mul(k);
        self.y = self.y.mul(k);
        self.z = self.z.mul(k);
    }

    pub fn div_assign(&mut self, k: Scalar)
        ensures
            final(self)@ == old(self)@.div(k@),
    {
        self.x = self.x.div(k);
        self.y = self.y.div(k);
        self.z = self.z.div(k);
    }

    /// The sum of `items`, added from the left, starting at zero.
    pub fn sum(items: &[Vec3]) -> (v: Vec3)
        ensures
            v@ == sum_model(models(items@)),
    {
        let mut acc = Vec3::zero();
        let mut i: usize = 0;
        while i < items.len()
            invariant
                i <= items.len(),
                acc@ == sum_model(models(items@.take(i as int))),
            decreases items.len() - i,
        {
            proof {
                let next = models(items@.take(i + 1));
                assert(next.drop_last() == models(items@.take(i as int)));
            }
            acc = acc.add(items[i]);
            i = i + 1;
        }
        assert(items@.take(i as int) == items@);
        acc
    }

    /// The component-wise square root.
    pub fn sqrt(&self) -> (v: Vec3)
        ensures
            v@ == self@.sqrt(),
    {
        Vec3 { x: self.x.sqrt(), y: self.y.sqrt(), z: self.z.sqrt() }
    }

    pub fn dot(&self, other: &Vec3) -> (d: Scalar)
        ensures
            d@ == self@.dot(other@),
    {
        let (px, nx) = signed_product(self.x.raw(), other.x.raw());
        let (py, ny) = signed_product(self.y.raw(), other.y.raw());
        let (pz, nz) = signed_product(self.z.raw(), other.z.raw());
        assert(MAX_RAW * MAX_RAW <= 0x3fff_ffff_ffff_ffff_0000_0000_0000_0001);
        let above: u128 = px + py + pz;
        let below: u128 = nx + ny + nz;
        if above >= below {
            Scalar::from_sign_magnitude(false, (above - below) / (ONE_RAW as u128))
        } else {
            Scalar::from_sign_magnitude(true, (below - above) / (ONE_RAW as u128))
        }
    }

    pub fn cross(&self, other: &Vec3) -> (v: Vec3)
        ensures
            v@ == self@.cross(other@),
    {
        Vec3::new(
            self.y.mul(other.z).sub(self.z.mul(other.y)),
            self.z.mul(other.x).sub(self.x.mul(other.z)),
            self.x.mul(other.y).sub(self.y.mul(other.x)),
        )
    }

    /// The squared length, with every square rounded toward zero: it is
    /// zero for a vector whose components all lie below `2^-16`, of which
    /// [`Vec3::length`] still tells the length.
    pub fn squared_length(&self) -> (d: Scalar)
        ensures
            d@ == self@.squared_length(),
            d@ >= 0,
    {
        proof {
            lemma_squared_length_nonnegative(self@);
        }
        self.dot(self)
    }

    /// The length. It is zero for the zero vector only.
    pub fn length(&self) -> (d: Scalar)
        ensures
            d@ == self@.length(),
            d@ >= 0,
            self@ == Vec3Model::zero() ==> d@ == 0,
            self@ != Vec3Model::zero() ==> d@ > 0,
    {
        proof {
            use_type_invariant(&self.x);
            use_type_invariant(&self.y);
            use_type_invariant(&self.z);
            lemma_length_positive(self@);
            lemma_length_of_zero();
        }
        let x = square(magnitude_of(self.x.raw()));
        let y = square(magnitude_of(self.y.raw()));
        let z = square(magnitude_of(self.z.raw()));
        proof {
            lemma_norm_sum_bounds(self@);
            assert(MAX_RAW * MAX_RAW <= 0x3fff_ffff_ffff_ffff_0000_0000_0000_0001);
        }
        let sum: u128 = x + y + z;
        let root = isqrt(sum);
        proof {
            lemma_floor_sqrt_unique(sum as int, root as int);
        }
        Scalar::from_sign_magnitude(false, root)
    }

    /// Divides the vector by its length.
    pub fn normalize(&mut self)
        ensures
            final(self)@ == old(self)@.unit(),
    {
        let unit = self.unit();
        *self = unit;
    }

    /// The vector divided by its length; the zero vector for the zero
    /// vector. Every component of the result lies between minus one and
    /// one.
    pub fn unit(&self) -> (v: Vec3)
        ensures
            v@ == self@.unit(),
            -ONE_RAW <= v@.x <= ONE_RAW,
            -ONE_RAW <= v@.y <= ONE_RAW,
            -ONE_RAW <= v@.z <= ONE_RAW,
    {
        proof {
            lemma_unit_bounded(self@);
        }
        let x = self.x.raw();
        let y = self.y.raw();
        let z = self.z.raw();
        let mx = magnitude_of(x);
        let my = magnitude_of(y);
        let mz = magnitude_of(z);
        let m = if mx >= my && mx >= mz {
            mx
        } else if my >= mz {
            my
        } else {
            mz
        };
        let f = stretch_of(m);
        let wx = stretched(x, f, m);
        let wy = stretched(y, f, m);
        let wz = stretched(z, f, m);
        let sx = square(magnitude_of(wx));
        let sy = square(magnitude_of(wy));
        let sz = square(magnitude_of(wz));
        proof {
            lemma_norm_sum_bounds(self@.stretched(f as int));
        }
        let sum: u128 = sx + sy + sz;
        let l = isqrt(sum);
        proof {
            lemma_floor_sqrt_unique(sum as int, l as int);
        }
        Vec3 {
            x: Scalar::from_wide_ratio(wx, l),
            y: Scalar::from_wide_ratio(wy, l),
            z: Scalar::from_wide_ratio(wz, l),
        }
    }

    /// The three colour bytes of the vector; always `Some`, because a
    /// channel outside `[0, 1)` is clamped.
    pub fn rgb(&self) -> (bytes: Option<[u8; 3]>)
        ensures
            bytes matches Some(b) && is_rgb_of(b, self@),
    {
        Some([channel(self.x), channel(self.y), channel(self.z)])
    }

    /// The mirror image of `self` at the plane with normal `n`.
    pub fn reflect(&self, n: &Vec3) -> (v: Vec3)
        ensures
            v@ == self@.reflect(n@),
    {
        self.sub(n.mul(self.dot(n)).mul(Scalar::from_int(2)))
    }

    /// The direction of `self` after refraction at a surface with normal
    /// `n` and ratio of refractive indices `r`; `None` exactly when the
    /// discriminant of Snell's law is negative.
    pub fn refract(&self, n: &Vec3, r: Scalar) -> (v: Option<Vec3>)
        ensures
            option_model(v) == self@.refract(n@, r@),
            v.is_none() <==> self@.refract_discriminant(n@, r@) < 0,
    {
        let uv = self.unit();
        let dt = uv.dot(n);
        let discr = Scalar::one().sub(r.mul(r).mul(Scalar::one().sub(dt.mul(dt))));
        if discr >= Scalar::zero() {
            Some(uv.sub(n.mul(dt)).mul(r).sub(n.mul(discr.sqrt())))
        } else {
            None
        }
    }

    /// The vector with components `bx`, `by`, `bz` read as fractions in
    /// `[-1, 1)`, if it lies strictly inside the unit ball.
    pub fn ball_candidate(bx: u32, by: u32, bz: u32) -> (v: Option<Vec3>)
        ensures
            option_model(v) == ball_candidate_model(bx, by, bz),
            v matches Some(p) ==> p@.in_unit_ball(),
    {
        let p = Vec3::new(
            Scalar::from_signed_fraction_bits(bx),
            Scalar::from_signed_fraction_bits(by),
            Scalar::from_signed_fraction_bits(bz),
        );
        if p.squared_length() < Scalar::one() {
            Some(p)
        } else {
            None
        }
    }

    /// A random point strictly inside the unit ball.
    ///
    /// Candidates are drawn uniformly from the cube `[-1, 1)^3` until one
    /// falls inside the ball. After [`BALL_ATTEMPTS`] rejections in a row,
    /// which has probability below `10^-20`, the centre is returned.
    pub fn rand_in_unit_ball() -> (v: Vec3)
        ensures
            v@.in_unit_ball(),
            v@ == Vec3Model::zero() || exists|bx: u32, by: u32, bz: u32|
                #[trigger] ball_candidate_model(bx, by, bz) == Some(v@),
    {
        let mut i: u32 = 0;
        while i < BALL_ATTEMPTS
            invariant
                i <= BALL_ATTEMPTS,
            decreases BALL_ATTEMPTS - i,
        {
            let bx = random_bits();
            let by = random_bits();
            let bz = random_bits();
            if let Some(p) = Vec3::ball_candidate(bx, by, bz) {
                return p;
            }
            i = i + 1;
        }
        Vec3::zero()
    }
}

/// The model of an optional vector.
pub open spec fn option_model(v: Option<Vec3>) -> Option<Vec3Model> {
    match v {
        Some(p) => Some(p@),
        None => None,
    }
}

/// What [`Vec3::ball_candidate`] returns, as a model.
pub open spec fn ball_candidate_model(bx: u32, by: u32, bz: u32) -> Option<Vec3Model> {
    let p = Vec3Model { x: 2 * bx - ONE_RAW, y: 2 * by - ONE_RAW, z: 2 * bz - ONE_RAW };
    if p.in_unit_ball() {
        Some(p)
    } else {
        None
    }
}

/// The product of two raw values, split into its part above zero and its
/// part below: one of the two is zero and their difference is the product.
fn signed_product(a: i64, b: i64) -> (parts: (u128, u128))
    requires
        in_range(a as int),
        in_range(b as int),
    ensures
        parts.0 - parts.1 == a * b,
        parts.0 <= MAX_RAW * MAX_RAW,
        parts.1 <= MAX_RAW * MAX_RAW,
{
    proof {
        lemma_product_sign(a as int, b as int);
    }
    let m = magnitude_of(a);
    let n = magnitude_of(b);
    assert(m * n <= MAX_RAW * MAX_RAW) by (nonlinear_arith)
        requires
            0 <= m <= MAX_RAW,
            0 <= n <= MAX_RAW,
    ;
    assert(MAX_RAW * MAX_RAW <= 0x3fff_ffff_ffff_ffff_0000_0000_0000_0001);
    let product: u128 = m * n;
    if (a < 0) != (b < 0) {
        (0, product)
    } else {
        (product, 0)
    }
}

/// The square of a magnitude.
fn square(m: u128) -> (s: u128)
    requires
        m <= MAX_RAW,
    ensures
        s == m * m,
        s <= MAX_RAW * MAX_RAW,
{
    assert(m * m <= MAX_RAW * MAX_RAW) by (nonlinear_arith)
        requires
            0 <= m <= MAX_RAW,
    ;
    assert(MAX_RAW * MAX_RAW <= 0x3fff_ffff_ffff_ffff_0000_0000_0000_0001);
    m * m
}

/// The power of two by which [`stretch`] multiplies the magnitude `m`.
fn stretch_of(m: u128) -> (f: u128)
    requires
        m <= MAX_RAW,
    ensures
        f == stretch(m as int),
        1 <= f <= MAX_RAW,
        m * f <= MAX_RAW,
{
    let mut f: u128 = 1;
    let mut w: u128 = m;
    assert(m * 1 == m) by (nonlinear_arith);
    while w != 0 && w <= STRETCH_LIMIT as u128
        invariant
            w == m * f,
            1 <= f,
            w <= MAX_RAW,
            w == 0 || f <= w,
            w == 0 ==> f == 1,
            stretch(m as int) == f * stretch(w as int),
        decreases 2 * STRETCH_LIMIT - w,
    {
        assert(f * (2 * stretch(2 * w)) == (2 * f) * stretch(2 * w)) by (nonlinear_arith);
        assert(m * (2 * f) == 2 * (m * f)) by (nonlinear_arith);
        w = 2 * w;
        f = 2 * f;
    }
    assert(f * 1 == f) by (nonlinear_arith);
    f
}

/// The raw value `x` times the stretch factor `f`.
fn stretched(x: i64, f: u128, m: u128) -> (w: i64)
    requires
        magnitude(x as int) <= m,
        1 <= f <= MAX_RAW,
        m * f <= MAX_RAW,
    ensures
        w == x * f,
        magnitude(w as int) <= MAX_RAW,
{
    assert(-(m * f) <= x * f <= m * f) by (nonlinear_arith)
        requires
            -m <= x <= m,
            1 <= f,
    ;
    ((x as i128) * (f as i128)) as i64
}

/// The byte for one colour channel.
fn channel(c: Scalar) -> (b: u8)
    ensures
        b == channel_byte(c@),
{
    let scaled = c.mul(Scalar::from_raw(BYTE_SCALE_RAW)).floor();
    if scaled < 0 {
        0
    } else if scaled > 255 {
        255
    } else {
        scaled as u8
    }
}

} // verus!
