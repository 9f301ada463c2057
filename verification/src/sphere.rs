//! Spheres.
//!
//! A ray `O + t D` meets the sphere with centre `C` and radius `R` where
//! `a t^2 + 2 b t + c = 0`, with `a = D . D`, `b = (O - C) . D` and
//! `c = (O - C) . (O - C) - R^2`. The roots are `(-b -+ sqrt(b^2 - a c)) / a`.
//!
//! Squares of short vectors vanish in fixed point and squares of long ones
//! saturate, so the roots are not computed from `b^2 - a c` itself. The
//! ray is closest to the centre at `-b / a`, at the distance `E` from it,
//! and `b^2 - a c = a (R^2 - E^2)`. Hence the discriminant is positive
//! exactly where `E < |R|`, and the roots lie `sqrt(R^2 - E^2) / sqrt(a)`
//! before and after `-b / a`. All of this is done for the direction
//! divided by its length; dividing the roots by that length gives the
//! parameters along the ray itself.

use crate::hitable::{Hit, HitModel, HitRecord};
use crate::material::{Material, MaterialModel};
use crate::ray::{Ray, RayModel};
use crate::scalar::{
    floor_sqrt, in_range, isqrt, lemma_floor_sqrt_exists, lemma_floor_sqrt_unique,
    lemma_q_div_at_most_one, lemma_q_div_by_one, lemma_q_div_monotone, lemma_q_div_neg,
    lemma_q_sqrt_bounds, lemma_tdiv_monotone, lemma_tdiv_scaled, magnitude, q_add, q_div, q_neg,
    q_sqrt, q_sub, sat, Scalar, MAX_RAW, ONE_RAW,
};
use crate::vec3::{
    lemma_dot_neg, lemma_length_at_most_twice, lemma_length_nonnegative, lemma_length_of_zero,
    lemma_length_positive, lemma_norm_sum_bounds, Vec3, Vec3Model,
};
use vstd::arithmetic::div_mod::{lemma_div_by_multiple, lemma_div_is_ordered_by_denominator};
use vstd::prelude::*;

verus! {

/// The model of a [`Sphere`].
pub struct SphereModel {
    pub center: Vec3Model,
    pub radius: int,
    pub material: MaterialModel,
}

/// How a ray passes a sphere, seen along the direction of the ray divided
/// by its length.
pub struct Crossing {
    /// The length of the direction of the ray.
    pub length: int,
    /// The coefficient `a`: the squared length of the normalised direction.
    pub a: int,
    /// The coefficient `b`: the dot product of the normalised direction
    /// with the vector from the centre to the origin of the ray.
    pub b: int,
    /// The parameter `-b / a` at which the ray is closest to the centre.
    pub closest: int,
    /// The distance `E` of the ray from the centre.
    pub distance: int,
    /// The magnitude `|R|` of the radius.
    pub radius: int,
}

impl Crossing {
    /// `R^2 - E^2` as the exact product `(|R| - E) (|R| + E)` of raw values.
    /// It has the sign of the discriminant `b^2 - a c`.
    pub open spec fn discriminant(self) -> int {
        (self.radius - self.distance) * (self.radius + self.distance)
    }

    /// Whether the ray meets the sphere in two points: the direction is
    /// not zero and the discriminant is positive.
    pub open spec fn has_roots(self) -> bool {
        self.length > 0 && self.distance < self.radius
    }

    /// Half the length of the chord that the sphere cuts from the ray,
    /// `sqrt(R^2 - E^2)`.
    pub open spec fn half_chord(self) -> int {
        sat(floor_sqrt(self.discriminant()))
    }

    /// How far before and after `closest` the roots lie,
    /// `sqrt(R^2 - E^2) / sqrt(a)`.
    pub open spec fn reach(self) -> int {
        q_div(self.half_chord(), q_sqrt(self.a))
    }

    /// The smaller root along the normalised direction.
    pub open spec fn near_unit_root(self) -> int {
        q_sub(self.closest, self.reach())
    }

    /// The larger root along the normalised direction.
    pub open spec fn far_unit_root(self) -> int {
        q_add(self.closest, self.reach())
    }

    /// The smaller root along the ray.
    pub open spec fn near_root(self) -> int {
        q_div(self.near_unit_root(), self.length)
    }

    /// The larger root along the ray.
    pub open spec fn far_root(self) -> int {
        q_div(self.far_unit_root(), self.length)
    }
}

impl SphereModel {
    /// How the ray `ray` passes the sphere.
    pub open spec fn crossing(self, ray: RayModel) -> Crossing {
        let oc = ray.origin.sub(self.center);
        let length = ray.direction.length();
        let u = ray.direction.div(length);
        let a = u.dot(u);
        let b = oc.dot(u);
        let closest = q_div(q_neg(b), a);
        Crossing {
            length,
            a,
            b,
            closest,
            distance: oc.add(u.mul(closest)).length(),
            radius: magnitude(self.radius),
        }
    }

    /// The record of the hit at parameter `t` of `ray`: the normal is
    /// `(p - center) / radius`.
    pub open spec fn record_at(self, ray: RayModel, t: int) -> HitModel {
        let p = ray.point_at_parameter(t);
        HitModel { t, p, normal: p.sub(self.center).div(self.radius), material: self.material }
    }

    /// The hit of `ray` within `(t_min, t_max)`: at the smaller root if it
    /// lies in the range, else at the larger root if that one does.
    pub open spec fn hit(self, ray: RayModel, t_min: int, t_max: int) -> Option<HitModel> {
        let q = self.crossing(ray);
        if !q.has_roots() {
            None
        } else if t_min < q.near_root() < t_max {
            Some(self.record_at(ray, q.near_root()))
        } else if t_min < q.far_root() < t_max {
            Some(self.record_at(ray, q.far_root()))
        } else {
            None
        }
    }
}

/// The direction of every ray that is not zero has a positive length, and
/// the coefficient `a` of its crossing is at least a quarter. Along such a
/// ray a sphere has two roots wherever the discriminant is positive, that
/// is, wherever the ray passes the centre at less than the radius.
pub proof fn lemma_direction_counts(s: SphereModel, ray: RayModel)
    requires
        ray.direction.valid(),
        ray.direction != Vec3Model::zero(),
    ensures
        s.crossing(ray).length > 0,
        s.crossing(ray).a >= ONE_RAW / 4,
        q_sqrt(s.crossing(ray).a) >= ONE_RAW / 2,
        s.crossing(ray).distance >= 0,
        s.crossing(ray).has_roots() <==> s.crossing(ray).discriminant() > 0,
{
    let d = ray.direction;
    let len = d.length();
    lemma_length_positive(d);
    lemma_length_at_most_twice(d);
    let m = d.max_magnitude();
    let u = d.div(len);
    let large = if magnitude(d.x) == m {
        d.x
    } else if magnitude(d.y) == m {
        d.y
    } else {
        d.z
    };
    lemma_large_component(large, len);
    lemma_norm_sum_bounds(u);
    let top = magnitude(q_div(large, len));
    assert(top * top >= 0x8000_0000 * 0x8000_0000) by (nonlinear_arith)
        requires
            top >= 0x8000_0000,
    ;
    assert(0x8000_0000int * 0x8000_0000int == 0x4000_0000int * 0x1_0000_0000int);
    lemma_tdiv_scaled(0x4000_0000int);
    lemma_tdiv_monotone(0x4000_0000int * ONE_RAW, u.norm_sum(), ONE_RAW as int);
    let q = s.crossing(ray);
    lemma_q_sqrt_bounds(q.a);
    let root = q_sqrt(q.a);
    assert(root >= ONE_RAW / 2) by (nonlinear_arith)
        requires
            0 <= root,
            q.a * ONE_RAW < (root + 1) * (root + 1),
            q.a >= 0x4000_0000,
            ONE_RAW == 0x1_0000_0000,
    {
        if root < 0x8000_0000 {
            assert((root + 1) * (root + 1) <= 0x8000_0000 * 0x8000_0000);
        }
    }
    lemma_length_nonnegative(ray.origin.sub(s.center).add(u.mul(q.closest)));
    assert((q.discriminant() > 0) <==> q.distance < q.radius) by (nonlinear_arith)
        requires
            q.discriminant() == (q.radius - q.distance) * (q.radius + q.distance),
            q.distance >= 0,
            q.radius >= 0,
    ;
}

/// A component whose magnitude is at least half the divisor gives a
/// quotient of at least a half in magnitude.
proof fn lemma_large_component(x: int, len: int)
    requires
        0 < len <= 2 * magnitude(x),
        magnitude(x) <= len,
    ensures
        magnitude(q_div(x, len)) >= ONE_RAW / 2,
{
    let m = magnitude(x);
    let half = ONE_RAW / 2;
    assert(magnitude(x * ONE_RAW) == m * ONE_RAW);
    assert(m * ONE_RAW == half * (2 * m)) by (nonlinear_arith)
        requires
            half * 2 == ONE_RAW,
    ;
    lemma_div_by_multiple(half as int, 2 * m);
    lemma_div_is_ordered_by_denominator(m * ONE_RAW, len, 2 * m);
    lemma_q_div_at_most_one(x, len);
}

/// A sphere is hit at the closest root in the range: a hit lies at one of
/// the two roots, at the smaller one whenever that lies in the range, no
/// root in the range is nearer than the hit, and the smaller root is never
/// above the larger. Without a root in the range there is no hit.
pub proof fn lemma_near_root_first(s: SphereModel, ray: RayModel, t_min: int, t_max: int)
    requires
        ray.direction.valid(),
    ensures
        s.crossing(ray).has_roots() ==> s.crossing(ray).near_root() <= s.crossing(
            ray,
        ).far_root(),
        s.hit(ray, t_min, t_max) matches Some(h) ==> {
            let q = s.crossing(ray);
            &&& q.has_roots()
            &&& t_min < h.t < t_max
            &&& h.t == q.near_root() || h.t == q.far_root()
            &&& t_min < q.near_root() < t_max ==> h.t == q.near_root()
            &&& t_min < q.far_root() < t_max ==> h.t <= q.far_root()
            &&& h == s.record_at(ray, h.t)
        },
        s.hit(ray, t_min, t_max) is None ==> {
            let q = s.crossing(ray);
            !q.has_roots() || (!(t_min < q.near_root() < t_max) && !(t_min < q.far_root() < t_max))
        },
{
    let q = s.crossing(ray);
    if q.has_roots() {
        lemma_length_of_zero();
        lemma_direction_counts(s, ray);
        lemma_floor_sqrt_exists(q.discriminant());
        lemma_q_div_monotone(0, q.half_chord(), q_sqrt(q.a));
        lemma_q_div_monotone(q.near_unit_root(), q.far_unit_root(), q.length);
    }
}

/// Along the normalised direction the two roots lie symmetrically around
/// the parameter `-b / a` at which the ray comes closest to the centre:
/// their sum is twice that parameter. For a direction of length one these
/// are the roots along the ray itself.
///
/// The law holds where the two roots are representable; beyond, they
/// saturate.
pub proof fn lemma_roots_symmetric(q: Crossing)
    requires
        in_range(q.closest - q.reach()),
        in_range(q.closest + q.reach()),
    ensures
        q.near_unit_root() + q.far_unit_root() == 2 * q.closest,
        q.far_unit_root() - q.closest == q.closest - q.near_unit_root(),
        q.length == ONE_RAW ==> q.near_root() == q.near_unit_root() && q.far_root()
            == q.far_unit_root(),
{
    lemma_q_div_by_one(q.near_unit_root());
    lemma_q_div_by_one(q.far_unit_root());
}

/// Negating the radius of a sphere negates the normal of the record at any
/// parameter, and with it the dot product of the ray and the normal; the
/// point stays.
pub proof fn lemma_negated_radius_record(s: SphereModel, ray: RayModel, t: int)
    requires
        s.radius != 0,
    ensures
        ({
            let h = s.record_at(ray, t);
            let g = (SphereModel { radius: -s.radius, ..s }).record_at(ray, t);
            &&& g.t == h.t
            &&& g.p == h.p
            &&& g.material == h.material
            &&& g.normal == h.normal.neg()
            &&& ray.dot(g.normal) == -ray.dot(h.normal)
        }),
{
    let h = s.record_at(ray, t);
    let m = h.p.sub(s.center);
    lemma_q_div_neg(m.x, s.radius);
    lemma_q_div_neg(m.y, s.radius);
    lemma_q_div_neg(m.z, s.radius);
    lemma_dot_neg(h.normal, ray.direction);
}

/// A sphere whose radius is negated is hit at the same parameters and in
/// the same points, and there its normal is the negation of the normal of
/// the sphere itself, so that the dot product of the ray with the normal
/// changes its sign.
pub proof fn lemma_negated_radius_flips_normal(
    s: SphereModel,
    ray: RayModel,
    t_min: int,
    t_max: int,
)
    requires
        s.radius != 0,
    ensures
        ({
            let flipped = SphereModel { radius: -s.radius, ..s };
            &&& flipped.crossing(ray) == s.crossing(ray)
            &&& match (s.hit(ray, t_min, t_max), flipped.hit(ray, t_min, t_max)) {
                (Some(h), Some(g)) => {
                    &&& g.t == h.t
                    &&& g.p == h.p
                    &&& g.material == h.material
                    &&& g.normal == h.normal.neg()
                    &&& ray.dot(g.normal) == -ray.dot(h.normal)
                },
                (None, None) => true,
                _ => false,
            }
        }),
{
    let flipped = SphereModel { radius: -s.radius, ..s };
    assert(flipped.crossing(ray) == s.crossing(ray));
    let q = s.crossing(ray);
    lemma_negated_radius_record(s, ray, q.near_root());
    lemma_negated_radius_record(s, ray, q.far_root());
}

/// A sphere. A negative radius turns the normals inward, which serves to
/// model the inner surface of a hollow shell.
#[derive(Clone, Copy, Debug)]
pub struct Sphere {
    center: Vec3,
    radius: Scalar,
    material: Material,
}

impl View for Sphere {
    type V = SphereModel;

    closed spec fn view(&self) -> SphereModel {
        SphereModel { center: self.center@, radius: self.radius@, material: self.material@ }
    }
}

impl Sphere {
    pub fn new(center: Vec3, radius: Scalar, material: Material) -> (s: Sphere)
        ensures
            s@ == (SphereModel { center: center@, radius: radius@, material: material@ }),
    {
        Sphere { center, radius, material }
    }

    /// The record of the hit at parameter `t` of `ray`.
    fn record_at(&self, ray: &Ray, t: Scalar) -> (hr: HitRecord)
        ensures
            hr@ == self@.record_at(ray@, t@),
    {
        let p = ray.point_at_parameter(t);
        let normal = p.sub(self.center).div(self.radius);
        HitRecord::new(t, p, normal, self.material)
    }
}

impl Hit for Sphere {
    open spec fn hit_model(&self, r: RayModel, t_min: int, t_max: int) -> Option<HitModel> {
        self@.hit(r, t_min, t_max)
    }

    proof fn hit_model_in_range(&self, r: RayModel, t_min: int, t_max: int) {
    }

    fn hit(&self, r: &Ray, t_min: Scalar, t_max: Scalar) -> (res: Option<HitRecord>) {
        let oc = r.origin().sub(self.center);
        let length = r.direction().length();
        let u = r.direction().div(length);
        let a = u.dot(&u);
        let b = oc.dot(&u);
        let closest = b.neg().div(a);
        let distance = oc.add(u.mul(closest)).length();
        let radius = if self.radius < Scalar::zero() {
            self.radius.neg()
        } else {
            self.radius
        };
        if length > Scalar::zero() && distance < radius {
            let reach = half_chord(radius, distance).div(a.sqrt());
            let near = closest.sub(reach).div(length);
            if t_min < near && near < t_max {
                return Some(self.record_at(r, near));
            }
            let far = closest.add(reach).div(length);
            if t_min < far && far < t_max {
                return Some(self.record_at(r, far));
            }
        }
        None
    }
}

/// Half the chord that a sphere of radius `radius` cuts from a line at the
/// distance `distance` from its centre: the square root of the exact
/// product `(radius - distance) (radius + distance)`.
fn half_chord(radius: Scalar, distance: Scalar) -> (h: Scalar)
    requires
        0 <= distance@ < radius@,
    ensures
        h@ == sat(floor_sqrt((radius@ - distance@) * (radius@ + distance@))),
{
    let r = radius.raw();
    let d = distance.raw();
    let less: u128 = (r - d) as u128;
    let more: u128 = r as u128 + d as u128;
    assert(less * more <= MAX_RAW * (2 * MAX_RAW)) by (nonlinear_arith)
        requires
            0 <= less <= MAX_RAW,
            0 <= more <= 2 * MAX_RAW,
    ;
    let product: u128 = less * more;
    let root = isqrt(product);
    proof {
        lemma_floor_sqrt_unique(product as int, root as int);
    }
    Scalar::from_sign_magnitude(false, root)
}

} // verus!
