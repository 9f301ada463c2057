//! Materials: how a surface scatters the light that reaches it.
//!
//! The direction of a ray need not have unit length. Wherever an angle
//! enters, for the mirror image at a metal and for the cosines at a
//! dielectric, the direction is normalised first.

use crate::hitable::{HitModel, HitRecord};
use crate::ray::{Ray, RayModel};
use crate::sampling::unit_interval;
use crate::scalar::{
    in_range, lemma_q_div_at_most_one, lemma_q_mul_monotone, lemma_q_mul_neg, lemma_q_mul_units,
    lemma_q_pow_monotone, q_add, q_div, q_mul, q_neg, q_pow, q_recip, q_sqrt, q_sub, tdiv, Scalar,
    ONE_RAW,
};
use crate::vec3::{lemma_dot_additive, Vec3, Vec3Model};
use vstd::prelude::*;

verus! {

/// The model of a [`Material`].
pub enum MaterialModel {
    Lambertian(Vec3Model),
    Metal(Vec3Model, int),
    Dielectric(int),
}

/// The squared ratio `((1 - n) / (1 + n))^2`: the reflectance of a
/// dielectric with refractive index `n` at normal incidence.
pub open spec fn normal_reflectance(n: int) -> int {
    let r0 = q_div(q_sub(ONE_RAW as int, n), q_add(ONE_RAW as int, n));
    q_mul(r0, r0)
}

/// Schlick's approximation `r0 + (1 - r0) (1 - cosine)^5` of the
/// reflectance of a dielectric.
pub open spec fn schlick_model(cosine: int, n: int) -> int {
    let r0 = normal_reflectance(n);
    q_add(r0, q_mul(q_sub(ONE_RAW as int, r0), q_pow(q_sub(ONE_RAW as int, cosine), 5)))
}

/// The colour that a dielectric lets through: white.
pub open spec fn white() -> Vec3Model {
    Vec3Model { x: ONE_RAW as int, y: ONE_RAW as int, z: ONE_RAW as int }
}

/// The direction in which a metal with roughness `fuzz` sends a ray: the
/// mirror image of the normalised incoming direction, displaced by `fuzz`
/// times `ball`.
pub open spec fn metal_direction(ray: RayModel, hr: HitModel, fuzz: int, ball: Vec3Model)
    -> Vec3Model {
    ray.direction.unit().reflect(hr.normal).add(ball.mul(fuzz))
}

/// The cosine between the incoming direction and the surface normal: the
/// dot product of the normalised direction with the normal.
pub open spec fn incidence_cosine(ray: RayModel, hr: HitModel) -> int {
    ray.direction.unit().dot(hr.normal)
}

/// The direction of the refracted ray at a dielectric with index `n`, if
/// refraction is possible.
pub open spec fn dielectric_refracted(ray: RayModel, hr: HitModel, n: int) -> Option<Vec3Model> {
    if incidence_cosine(ray, hr) > 0 {
        ray.direction.refract(hr.normal.neg(), n)
    } else {
        ray.direction.refract(hr.normal, q_recip(n))
    }
}

/// The cosine that enters Schlick's approximation at a dielectric with
/// index `n`.
pub open spec fn dielectric_cosine(ray: RayModel, hr: HitModel, n: int) -> int {
    let cos = incidence_cosine(ray, hr);
    if cos > 0 {
        q_sqrt(q_sub(ONE_RAW as int, q_mul(q_mul(n, n), q_sub(ONE_RAW as int, q_mul(cos, cos)))))
    } else {
        q_neg(cos)
    }
}

/// What a material does to `ray` at the hit `hr`, given a point `ball` of
/// the unit ball and a number `draw` of `[0, 1)`: the attenuation and the
/// scattered ray, or `None` when the ray is absorbed.
#[verifier::opaque]
pub open spec fn scatter_model(
    m: MaterialModel,
    ray: RayModel,
    hr: HitModel,
    ball: Vec3Model,
    draw: int,
) -> Option<(Vec3Model, RayModel)> {
    match m {
        MaterialModel::Lambertian(albedo) => Some(
            (albedo, RayModel { origin: hr.p, direction: hr.normal.add(ball) }),
        ),
        MaterialModel::Metal(albedo, fuzz) => {
            let direction = metal_direction(ray, hr, fuzz, ball);
            if direction.dot(hr.normal) > 0 {
                Some((albedo, RayModel { origin: hr.p, direction }))
            } else {
                None
            }
        },
        MaterialModel::Dielectric(n) => {
            let reflected = ray.direction.reflect(hr.normal);
            match dielectric_refracted(ray, hr, n) {
                Some(refracted) if draw > schlick_model(dielectric_cosine(ray, hr, n), n) => Some(
                    (white(), RayModel { origin: hr.p, direction: refracted }),
                ),
                _ => Some((white(), RayModel { origin: hr.p, direction: reflected })),
            }
        },
    }
}

/// For a refractive index that is not negative, the reflectance at normal
/// incidence lies between zero and one.
pub proof fn lemma_normal_reflectance_bounds(n: int)
    requires
        n >= 0,
    ensures
        0 <= normal_reflectance(n) <= ONE_RAW,
{
    let num = q_sub(ONE_RAW as int, n);
    let den = q_add(ONE_RAW as int, n);
    let r = q_div(num, den);
    lemma_q_div_at_most_one(num, den);
    if r >= 0 {
        lemma_q_mul_monotone(0, 0, r, r);
        lemma_q_mul_monotone(r, r, ONE_RAW as int, ONE_RAW as int);
    } else {
        lemma_q_mul_neg(r, r);
        lemma_q_mul_monotone(0, 0, -r, -r);
        lemma_q_mul_monotone(-r, -r, ONE_RAW as int, ONE_RAW as int);
    }
    lemma_q_mul_units(ONE_RAW as int);
}

/// Seen head-on, where the cosine is one, a dielectric reflects exactly
/// its reflectance at normal incidence.
pub proof fn lemma_schlick_at_normal_incidence(n: int)
    ensures
        schlick_model(ONE_RAW as int, n) == normal_reflectance(n),
{
    reveal_with_fuel(q_pow, 6);
    lemma_q_mul_units(0);
    lemma_q_mul_units(ONE_RAW as int);
    lemma_q_mul_units(q_sub(ONE_RAW as int, normal_reflectance(n)));
}

/// For a refractive index that is not negative, Schlick's reflectance
/// does not fall as the cosine falls from one toward zero.
pub proof fn lemma_schlick_monotone(c1: int, c2: int, n: int)
    requires
        0 <= c1 <= c2 <= ONE_RAW,
        n >= 0,
    ensures
        schlick_model(c2, n) <= schlick_model(c1, n),
{
    let r0 = normal_reflectance(n);
    lemma_normal_reflectance_bounds(n);
    let k = q_sub(ONE_RAW as int, r0);
    let x1 = q_sub(ONE_RAW as int, c1);
    let x2 = q_sub(ONE_RAW as int, c2);
    lemma_q_pow_monotone(x2, x1, 5);
    lemma_q_mul_monotone(k, q_pow(x2, 5), k, q_pow(x1, 5));
}

/// A matte surface scatters every ray.
pub proof fn lemma_lambertian_always_scatters(
    albedo: Vec3Model,
    ray: RayModel,
    hr: HitModel,
    ball: Vec3Model,
    draw: int,
)
    ensures
        scatter_model(MaterialModel::Lambertian(albedo), ray, hr, ball, draw) is Some,
{
    reveal(scatter_model);
}

/// A dielectric scatters every ray: it reflects or refracts.
pub proof fn lemma_dielectric_always_scatters(
    n: int,
    ray: RayModel,
    hr: HitModel,
    ball: Vec3Model,
    draw: int,
)
    ensures
        scatter_model(MaterialModel::Dielectric(n), ray, hr, ball, draw) is Some,
{
    reveal(scatter_model);
}

/// A metal absorbs a ray exactly when the scattered direction does not
/// point away from the surface, that is, when its dot product with the
/// normal is not positive.
pub proof fn lemma_metal_absorbs_below_surface(
    albedo: Vec3Model,
    fuzz: int,
    ray: RayModel,
    hr: HitModel,
    ball: Vec3Model,
    draw: int,
)
    ensures
        scatter_model(MaterialModel::Metal(albedo, fuzz), ray, hr, ball, draw) is None
            <==> metal_direction(ray, hr, fuzz, ball).dot(hr.normal) <= 0,
{
    reveal(scatter_model);
}

/// Whether `res` is what a material may do to `ray` at the hit `hr`: what
/// [`scatter_model`] gives for some point of the unit ball and some number
/// of `[0, 1)`.
pub open spec fn possible_scatter(
    m: MaterialModel,
    ray: RayModel,
    hr: HitModel,
    res: Option<(Vec3Model, RayModel)>,
) -> bool {
    exists|ball: Vec3Model, draw: int|
        ball.in_unit_ball() && 0 <= draw < ONE_RAW && res == #[trigger] scatter_model(
            m,
            ray,
            hr,
            ball,
            draw,
        )
}

/// A metal absorbs a ray whose mirrored direction and displacement
/// together point below the surface: where their dot products with the
/// normal sum to less than minus one unit of `2^-32`. The law holds where
/// neither the sum of the two vectors nor the dot products saturate.
pub proof fn lemma_metal_absorbs_when_pushed_below(
    albedo: Vec3Model,
    fuzz: int,
    ray: RayModel,
    hr: HitModel,
    ball: Vec3Model,
    draw: int,
)
    requires
        ({
            let mirrored = ray.direction.unit().reflect(hr.normal);
            let pushed = ball.mul(fuzz);
            &&& mirrored.add(pushed) == (Vec3Model {
                x: mirrored.x + pushed.x,
                y: mirrored.y + pushed.y,
                z: mirrored.z + pushed.z,
            })
            &&& in_range(tdiv(mirrored.raw_dot(hr.normal), ONE_RAW as int))
            &&& in_range(tdiv(pushed.raw_dot(hr.normal), ONE_RAW as int))
            &&& in_range(tdiv(mirrored.add(pushed).raw_dot(hr.normal), ONE_RAW as int))
            &&& mirrored.dot(hr.normal) + pushed.dot(hr.normal) < -1
        }),
    ensures
        scatter_model(MaterialModel::Metal(albedo, fuzz), ray, hr, ball, draw) is None,
{
    reveal(scatter_model);
    lemma_dot_additive(ray.direction.unit().reflect(hr.normal), ball.mul(fuzz), hr.normal);
}

/// The model of what [`Material::scatter`] returns.
pub open spec fn scatter_view(s: Option<(Vec3, Ray)>) -> Option<(Vec3Model, RayModel)> {
    match s {
        Some((attenuation, scattered)) => Some((attenuation@, scattered@)),
        None => None,
    }
}

/// A surface material.
#[derive(Clone, Copy, Debug)]
pub enum Material {
    /// A matte surface with the given albedo.
    Lambertian(Vec3),
    /// A mirror with the given albedo and roughness.
    Metal(Vec3, Scalar),
    /// A transparent medium with the given refractive index.
    Dielectric(Scalar),
}

impl View for Material {
    type V = MaterialModel;

    open spec fn view(&self) -> MaterialModel {
        match *self {
            Material::Lambertian(albedo) => MaterialModel::Lambertian(albedo@),
            Material::Metal(albedo, fuzz) => MaterialModel::Metal(albedo@, fuzz@),
            Material::Dielectric(n) => MaterialModel::Dielectric(n@),
        }
    }
}

impl Material {
    /// Schlick's approximation of the reflectance of a dielectric with
    /// refractive index `n`, seen under the given cosine.
    pub fn schlick(cosine: Scalar, n: Scalar) -> (r: Scalar)
        ensures
            r@ == schlick_model(cosine@, n@),
    {
        let one = Scalar::one();
        let mut r0 = one.sub(n).div(one.add(n));
        r0 = r0.mul(r0);
        r0.add(one.sub(r0).mul(one.sub(cosine).powi(5)))
    }

    /// Scatters `ray` at the hit `hr`, with `ball` as the random point of
    /// the unit ball and `draw` as the random number of `[0, 1)`.
    pub fn scatter_with(&self, ray: &Ray, hr: &HitRecord, ball: Vec3, draw: Scalar) -> (res: Option<
        (Vec3, Ray),
    >)
        ensures
            scatter_view(res) == scatter_model(self@, ray@, hr@, ball@, draw@),
    {
        proof {
            reveal(scatter_model);
        }
        match self {
            Material::Lambertian(albedo) => {
                let scattered = Ray::new(hr.p, hr.normal.add(ball));
                Some((*albedo, scattered))
            },
            Material::Metal(albedo, fuzz) => {
                let reflected = ray.direction().unit().reflect(&hr.normal);
                let scattered = Ray::new(hr.p, reflected.add(ball.mul(*fuzz)));
                if scattered.dot(&hr.normal) > Scalar::zero() {
                    Some((*albedo, scattered))
                } else {
                    None
                }
            },
            Material::Dielectric(n) => {
                let one = Scalar::one();
                let albedo = Vec3::new(one, one, one);
                let reflected = ray.direction().reflect(&hr.normal);
                let cos = ray.direction().unit().dot(&hr.normal);
                let (out_normal, ni_over_nt, cosine) = if cos > Scalar::zero() {
                    (
                        hr.normal.neg(),
                        *n,
                        one.sub(n.mul(*n).mul(one.sub(cos.mul(cos)))).sqrt(),
                    )
                } else {
                    (hr.normal, n.recip(), cos.neg())
                };
                if let Some(refracted) = ray.direction().refract(&out_normal, ni_over_nt) {
                    if draw > Material::schlick(cosine, *n) {
                        return Some((albedo, Ray::new(hr.p, refracted)));
                    }
                }
                Some((albedo, Ray::new(hr.p, reflected)))
            },
        }
    }

    /// Scatters `ray` at the hit `hr`.
    ///
    /// A matte surface and a metal draw a random point of the unit ball, a
    /// dielectric draws a random number of `[0, 1)`; the result is what
    /// [`scatter_model`] gives for some such point and number.
    pub fn scatter(&self, ray: &Ray, hr: &HitRecord) -> (res: Option<(Vec3, Ray)>)
        ensures
            possible_scatter(self@, ray@, hr@, scatter_view(res)),
            !(self is Metal) ==> res is Some,
    {
        proof {
            reveal(scatter_model);
        }
        let (ball, draw) = match self {
            Material::Dielectric(_) => (Vec3::zero(), unit_interval()),
            _ => (Vec3::rand_in_unit_ball(), Scalar::zero()),
        };
        self.scatter_with(ray, hr, ball, draw)
    }
}

} // verus!
