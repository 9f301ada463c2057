//! The colour that a ray brings back from a scene.

use crate::hitable::{hit_view, nearest_hit, Hit, HitModel, HitRecord};
use crate::hitable::lemma_nearest_hit_is_minimal;
use crate::material::{scatter_model, scatter_view, MaterialModel};
use crate::ray::{Ray, RayModel};
use crate::scalar::{
    lemma_q_div_at_most_one, lemma_q_div_monotone, lemma_q_mul_monotone, lemma_q_mul_units, q_add,
    q_div, q_sub, Scalar, MAX_RAW, ONE_RAW,
};
use crate::sphere::Sphere;
use crate::vec3::{
    lemma_mul_vec_in_unit_range, lemma_unit_bounded, lemma_zero_in_unit_ball, Vec3, Vec3Model,
};
use vstd::prelude::*;

verus! {

/// The number of bounces after which a ray brings back no light.
pub const MAX_DEPTH: usize = 50;

/// Raw value of the smallest parameter at which a hit counts: 0.0001. A
/// scattered ray would otherwise hit the surface that it leaves.
pub const T_MIN_RAW: i64 = 429496;

/// Raw value of the red component of the sky's blue: 0.5.
pub const SKY_RED_RAW: i64 = 2147483648;

/// Raw value of the green component of the sky's blue: 0.7.
pub const SKY_GREEN_RAW: i64 = 3006477107;

/// Raw value of the blue component of the sky's blue: 1.
pub const SKY_BLUE_RAW: i64 = 4294967296;

/// The colour of the sky in the direction of `ray`: a blend of white and
/// blue by the height of the normalised direction.
pub open spec fn sky_model(ray: RayModel) -> Vec3Model {
    let t = q_div(q_add(ray.direction.unit().y, ONE_RAW as int), 2 * ONE_RAW);
    let white = Vec3Model { x: ONE_RAW as int, y: ONE_RAW as int, z: ONE_RAW as int };
    let blue = Vec3Model { x: SKY_RED_RAW as int, y: SKY_GREEN_RAW as int, z: SKY_BLUE_RAW as int };
    white.mul(q_sub(ONE_RAW as int, t)).add(blue.mul(t))
}

/// The random values that one bounce may consume, as a model.
pub struct BounceModel {
    pub ball: Vec3Model,
    pub draw: int,
}

impl BounceModel {
    /// Whether `ball` lies strictly inside the unit ball and `draw` in
    /// `[0, 1)`.
    pub open spec fn valid(self) -> bool {
        self.ball.in_unit_ball() && 0 <= self.draw < ONE_RAW
    }
}

/// The colour that `ray` brings back from `world` after `depth` earlier
/// bounces, when the bounces to come take their random values from
/// `samples` in turn.
///
/// A ray that misses every object sees the sky. A ray that hits one is
/// scattered by its material, and brings back the colour of the scattered
/// ray times the attenuation; it brings back black when it is absorbed,
/// when `depth` has reached [`MAX_DEPTH`], or when `samples` is used up.
pub open spec fn color_model(
    ray: RayModel,
    world: Seq<Sphere>,
    depth: nat,
    samples: Seq<BounceModel>,
) -> Vec3Model
    decreases samples.len(),
{
    match nearest_hit(world, ray, T_MIN_RAW as int, MAX_RAW as int) {
        Some(hr) => {
            if depth < MAX_DEPTH && samples.len() > 0 {
                match scatter_model(hr.material, ray, hr, samples[0].ball, samples[0].draw) {
                    Some((attenuation, scattered)) => attenuation.mul_vec(
                        color_model(scattered, world, depth + 1, samples.skip(1)),
                    ),
                    None => Vec3Model::zero(),
                }
            } else {
                Vec3Model::zero()
            }
        },
        None => sky_model(ray),
    }
}

/// Every channel of the colour of the sky lies between zero and one,
/// whatever the direction, the zero direction included.
pub proof fn lemma_sky_in_unit_range(ray: RayModel)
    ensures
        sky_model(ray).in_unit_range(),
{
    let y = ray.direction.unit().y;
    lemma_unit_bounded(ray.direction);
    let rise = q_add(y, ONE_RAW as int);
    let t = q_div(rise, 2 * ONE_RAW);
    lemma_q_div_at_most_one(rise, 2 * ONE_RAW);
    lemma_q_div_monotone(0, rise, 2 * ONE_RAW);
    assert(0 <= t <= ONE_RAW);
    lemma_q_mul_units(q_sub(ONE_RAW as int, t));
    lemma_q_mul_units(t);
    lemma_q_mul_monotone(0, 0, SKY_RED_RAW as int, t);
    lemma_q_mul_monotone(SKY_RED_RAW as int, t, ONE_RAW as int, t);
    lemma_q_mul_monotone(0, 0, SKY_GREEN_RAW as int, t);
    lemma_q_mul_monotone(SKY_GREEN_RAW as int, t, ONE_RAW as int, t);
}

/// Whether the albedo of a material is a colour: every channel lies
/// between zero and one. A dielectric has no albedo.
pub open spec fn albedo_in_unit_range(m: MaterialModel) -> bool {
    match m {
        MaterialModel::Lambertian(albedo) => albedo.in_unit_range(),
        MaterialModel::Metal(albedo, _) => albedo.in_unit_range(),
        MaterialModel::Dielectric(_) => true,
    }
}

/// Whether the albedo of every sphere of `world` is a colour.
pub open spec fn albedos_in_unit_range(world: Seq<Sphere>) -> bool {
    forall|i: int| 0 <= i < world.len() ==> albedo_in_unit_range((#[trigger] world[i])@.material)
}

/// The attenuation of a material whose albedo is a colour is a colour.
pub proof fn lemma_attenuation_in_unit_range(
    m: MaterialModel,
    ray: RayModel,
    hr: HitModel,
    ball: Vec3Model,
    draw: int,
)
    requires
        albedo_in_unit_range(m),
    ensures
        scatter_model(m, ray, hr, ball, draw) matches Some(s) ==> s.0.in_unit_range(),
{
    reveal(scatter_model);
}

/// Where the albedo of every sphere is a colour, the nearest hit has a
/// material whose albedo is a colour.
pub proof fn lemma_hit_material_in_unit_range(
    ray: RayModel,
    world: Seq<Sphere>,
    t_min: int,
    t_max: int,
)
    requires
        albedos_in_unit_range(world),
    ensures
        nearest_hit(world, ray, t_min, t_max) matches Some(hr) ==> albedo_in_unit_range(
            hr.material,
        ),
{
    lemma_nearest_hit_is_minimal(world, ray, t_min, t_max);
    if let Some(hr) = nearest_hit(world, ray, t_min, t_max) {
        let i = choose|i: int|
            0 <= i < world.len() && (#[trigger] world[i]).hit_model(ray, t_min, t_max) == Some(hr);
        assert(hr.material == world[i]@.material);
    }
}

/// Where the albedo of every sphere is a colour, so is the colour that a
/// ray brings back: every channel lies between zero and one, whatever the
/// ray, the depth and the random values.
pub proof fn lemma_color_in_unit_range(
    ray: RayModel,
    world: Seq<Sphere>,
    depth: nat,
    samples: Seq<BounceModel>,
)
    requires
        albedos_in_unit_range(world),
    ensures
        color_model(ray, world, depth, samples).in_unit_range(),
    decreases samples.len(),
{
    lemma_sky_in_unit_range(ray);
    lemma_hit_material_in_unit_range(ray, world, T_MIN_RAW as int, MAX_RAW as int);
    if let Some(hr) = nearest_hit(world, ray, T_MIN_RAW as int, MAX_RAW as int) {
        if depth < MAX_DEPTH && samples.len() > 0 {
            lemma_attenuation_in_unit_range(
                hr.material,
                ray,
                hr,
                samples[0].ball,
                samples[0].draw,
            );
            if let Some((attenuation, scattered)) = scatter_model(
                hr.material,
                ray,
                hr,
                samples[0].ball,
                samples[0].draw,
            ) {
                lemma_color_in_unit_range(scattered, world, depth + 1, samples.skip(1));
                lemma_mul_vec_in_unit_range(
                    attenuation,
                    color_model(scattered, world, depth + 1, samples.skip(1)),
                );
            }
        }
    }
}

/// Where the albedo of every sphere is a colour, every colour that
/// [`color`] may return is one.
pub proof fn lemma_possible_color_in_unit_range(
    ray: RayModel,
    world: Seq<Sphere>,
    depth: nat,
    c: Vec3Model,
)
    requires
        albedos_in_unit_range(world),
        possible_color(ray, world, depth, c),
    ensures
        c.in_unit_range(),
{
    let samples = choose|samples: Seq<BounceModel>|
        {
            &&& samples.len() + depth >= MAX_DEPTH
            &&& forall|i: int| 0 <= i < samples.len() ==> (#[trigger] samples[i]).valid()
            &&& c == #[trigger] color_model(ray, world, depth, samples)
        };
    lemma_color_in_unit_range(ray, world, depth, samples);
}

/// In a scene without objects every ray brings back the colour of the
/// sky, whatever the depth and the random values.
pub proof fn lemma_empty_scene_is_sky(ray: RayModel, depth: nat, samples: Seq<BounceModel>)
    ensures
        color_model(ray, Seq::<Sphere>::empty(), depth, samples) == sky_model(ray),
{
}

/// Once the depth has reached [`MAX_DEPTH`], a ray that hits an object
/// brings back black.
pub proof fn lemma_depth_limit_is_black(
    ray: RayModel,
    world: Seq<Sphere>,
    depth: nat,
    samples: Seq<BounceModel>,
)
    requires
        depth >= MAX_DEPTH,
        nearest_hit(world, ray, T_MIN_RAW as int, MAX_RAW as int) is Some,
    ensures
        color_model(ray, world, depth, samples) == Vec3Model::zero(),
{
}

/// The random values that one bounce may consume.
#[derive(Clone, Copy, Debug)]
pub struct Bounce {
    /// A point of the unit ball, for matte and metallic surfaces.
    pub ball: Vec3,
    /// A number of `[0, 1)`, for dielectrics.
    pub draw: Scalar,
}

impl View for Bounce {
    type V = BounceModel;

    open spec fn view(&self) -> BounceModel {
        BounceModel { ball: self.ball@, draw: self.draw@ }
    }
}

/// The models of the bounces of `s`.
pub open spec fn bounce_models(s: Seq<Bounce>) -> Seq<BounceModel> {
    s.map_values(|b: Bounce| b@)
}

/// The colour of the sky in the direction of `r`.
pub fn sky(r: &Ray) -> (c: Vec3)
    ensures
        c@ == sky_model(r@),
        c@.in_unit_range(),
{
    proof {
        lemma_sky_in_unit_range(r@);
    }
    let one = Scalar::one();
    let unit_direction = r.direction().unit();
    let t = unit_direction.y.add(one).div(Scalar::from_int(2));
    let blue = Vec3::new(
        Scalar::from_raw(SKY_RED_RAW),
        Scalar::from_raw(SKY_GREEN_RAW),
        Scalar::from_raw(SKY_BLUE_RAW),
    );
    Vec3::new(one, one, one).mul(one.sub(t)).add(blue.mul(t))
}

/// The nearest hit of `r` in `world` that counts.
fn first_hit(r: &Ray, world: &[Sphere]) -> (res: Option<HitRecord>)
    ensures
        hit_view(res) == nearest_hit(world@, r@, T_MIN_RAW as int, MAX_RAW as int),
{
    world.hit(r, Scalar::from_raw(T_MIN_RAW), Scalar::max_value())
}

/// The colour that `r` brings back from `world` after `depth` earlier
/// bounces, when the bounces to come take their random values from
/// `samples[next..]`.
fn color_from(r: &Ray, world: &[Sphere], depth: usize, samples: &[Bounce], next: usize) -> (c: Vec3)
    requires
        next <= samples.len(),
    ensures
        c@ == color_model(r@, world@, depth as nat, bounce_models(samples@.skip(next as int))),
    decreases samples.len() - next,
{
    let ghost rest = bounce_models(samples@.skip(next as int));
    match first_hit(r, world) {
        Some(hr) => {
            if depth < MAX_DEPTH && next < samples.len() {
                proof {
                    assert(rest.skip(1) == bounce_models(samples@.skip(next + 1)));
                }
                let s = samples[next];
                match hr.material.scatter_with(r, &hr, s.ball, s.draw) {
                    Some((attenuation, scattered)) => attenuation.mul_vec(
                        color_from(&scattered, world, depth + 1, samples, next + 1),
                    ),
                    None => Vec3::zero(),
                }
            } else {
                Vec3::zero()
            }
        },
        None => sky(r),
    }
}

/// The colour that `r` brings back from `world` after `depth` earlier
/// bounces, when the bounces to come take their random values from
/// `samples` in turn. No randomness enters.
pub fn color_with(r: &Ray, world: &[Sphere], depth: usize, samples: &[Bounce]) -> (c: Vec3)
    ensures
        c@ == color_model(r@, world@, depth as nat, bounce_models(samples@)),
        albedos_in_unit_range(world@) ==> c@.in_unit_range(),
{
    assert(samples@.skip(0) == samples@);
    proof {
        if albedos_in_unit_range(world@) {
            lemma_color_in_unit_range(r@, world@, depth as nat, bounce_models(samples@));
        }
    }
    color_from(r, world, depth, samples, 0)
}

/// A sequence of `n` valid bounces.
pub open spec fn idle_samples(n: nat) -> Seq<BounceModel> {
    Seq::new(n, |i: int| BounceModel { ball: Vec3Model::zero(), draw: 0 })
}

/// Whether `c` is a colour that `ray` may bring back from `world` after
/// `depth` earlier bounces: the one that [`color_model`] gives for some
/// valid random values, enough of them to reach [`MAX_DEPTH`].
pub open spec fn possible_color(ray: RayModel, world: Seq<Sphere>, depth: nat, c: Vec3Model)
    -> bool {
    exists|samples: Seq<BounceModel>|
        {
            &&& samples.len() + depth >= MAX_DEPTH
            &&& forall|i: int| 0 <= i < samples.len() ==> (#[trigger] samples[i]).valid()
            &&& c == #[trigger] color_model(ray, world, depth, samples)
        }
}

/// The colour that `r` brings back from `world` after `depth` earlier
/// bounces, with random scattering. Where the albedo of every sphere is a
/// colour, every channel of the result lies between zero and one.
pub fn color(r: &Ray, world: &[Sphere], depth: usize) -> (c: Vec3)
    ensures
        possible_color(r@, world@, depth as nat, c@),
        nearest_hit(world@, r@, T_MIN_RAW as int, MAX_RAW as int) is None ==> c@ == sky_model(r@),
        nearest_hit(world@, r@, T_MIN_RAW as int, MAX_RAW as int) is Some && depth >= MAX_DEPTH
            ==> c@ == Vec3Model::zero(),
        albedos_in_unit_range(world@) ==> c@.in_unit_range(),
{
    let c = bounce(r, world, depth);
    proof {
        if albedos_in_unit_range(world@) {
            lemma_possible_color_in_unit_range(r@, world@, depth as nat, c@);
        }
    }
    c
}

/// The colour that `r` brings back from `world` after `depth` earlier
/// bounces, with random scattering.
fn bounce(r: &Ray, world: &[Sphere], depth: usize) -> (c: Vec3)
    ensures
        possible_color(r@, world@, depth as nat, c@),
        nearest_hit(world@, r@, T_MIN_RAW as int, MAX_RAW as int) is None ==> c@ == sky_model(r@),
        nearest_hit(world@, r@, T_MIN_RAW as int, MAX_RAW as int) is Some && depth >= MAX_DEPTH
            ==> c@ == Vec3Model::zero(),
    decreases MAX_DEPTH - depth,
{
    let ghost fill = idle_samples((MAX_DEPTH - depth) as nat);
    proof {
        lemma_zero_in_unit_ball();
    }
    match first_hit(r, world) {
        Some(hr) => {
            if depth < MAX_DEPTH {
                let scattered = hr.material.scatter(r, &hr);
                let ghost (ball, draw) = choose|ball: Vec3Model, draw: int|
                    ball.in_unit_ball() && 0 <= draw < ONE_RAW && scatter_view(scattered)
                        == #[trigger] scatter_model(hr.material@, r@, hr@, ball, draw);
                let ghost first = seq![BounceModel { ball, draw }];
                if let Some((attenuation, next)) = scattered {
                    let inner = bounce(&next, world, depth + 1);
                    proof {
                        let tail = choose|samples: Seq<BounceModel>|
                            {
                                &&& samples.len() + (depth + 1) >= MAX_DEPTH
                                &&& forall|i: int|
                                    0 <= i < samples.len() ==> (#[trigger] samples[i]).valid()
                                &&& inner@ == #[trigger] color_model(
                                    next@,
                                    world@,
                                    (depth + 1) as nat,
                                    samples,
                                )
                            };
                        let all = first + tail;
                        assert(all.skip(1) == tail);
                        assert(attenuation@.mul_vec(inner@) == color_model(
                            r@,
                            world@,
                            depth as nat,
                            all,
                        ));
                    }
                    attenuation.mul_vec(inner)
                } else {
                    proof {
                        let all = first + fill;
                        assert(Vec3Model::zero() == color_model(r@, world@, depth as nat, all));
                    }
                    Vec3::zero()
                }
            } else {
                proof {
                    assert(Vec3Model::zero() == color_model(r@, world@, depth as nat, fill));
                }
                Vec3::zero()
            }
        },
        None => {
            proof {
                assert(sky_model(r@) == color_model(r@, world@, depth as nat, fill));
            }
            sky(r)
        },
    }
}

} // verus!
