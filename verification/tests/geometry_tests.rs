use raytracing::hitable::{Hit, HitRecord};
use raytracing::material::Material;
use raytracing::ray::Ray;
use raytracing::scalar::{Scalar, ONE_RAW};
use raytracing::sphere::Sphere;
use raytracing::vec3::Vec3;

fn raw(r: i64) -> Scalar {
    Scalar::from_raw(r)
}

fn whole(i: i32) -> Scalar {
    Scalar::from_int(i)
}

fn vec_raw(x: i64, y: i64, z: i64) -> Vec3 {
    Vec3::new(raw(x), raw(y), raw(z))
}

fn vec_whole(x: i32, y: i32, z: i32) -> Vec3 {
    Vec3::new(whole(x), whole(y), whole(z))
}

fn t_min() -> Scalar {
    Scalar::from_ratio(1, 10000)
}

fn t_max() -> Scalar {
    Scalar::max_value()
}

fn matte() -> Material {
    Material::Lambertian(vec_raw(ONE_RAW / 2, ONE_RAW / 2, ONE_RAW / 2))
}

fn glass() -> Material {
    Material::Dielectric(Scalar::from_ratio(3, 2))
}

fn down_the_z_axis() -> Ray {
    Ray::new(Vec3::zero(), vec_whole(0, 0, -1))
}

#[test]
fn ray_keeps_origin_and_direction() {
    let r = Ray::new(vec_whole(1, 2, 3), vec_whole(4, 5, 6));
    assert_eq!(r.origin(), vec_whole(1, 2, 3));
    assert_eq!(r.direction(), vec_whole(4, 5, 6));
}

#[test]
fn ray_point_at_parameter() {
    let r = Ray::new(vec_whole(1, 2, 3), vec_whole(4, 5, 6));
    assert_eq!(r.point_at_parameter(Scalar::zero()), vec_whole(1, 2, 3));
    assert_eq!(r.point_at_parameter(whole(2)), vec_whole(9, 12, 15));
    assert_eq!(r.point_at_parameter(whole(-1)), vec_whole(-3, -3, -3));
    assert_eq!(
        r.point_at_parameter(Scalar::from_ratio(1, 2)),
        vec_raw(3 * ONE_RAW, 9 * ONE_RAW / 2, 6 * ONE_RAW)
    );
}

#[test]
fn ray_dot_uses_the_direction() {
    let r = Ray::new(vec_whole(100, 100, 100), vec_whole(1, 2, 3));
    assert_eq!(r.dot(&vec_whole(4, 5, 6)), whole(32));
    assert_eq!(r.dot(&r.direction()), whole(14));
}

#[test]
fn hit_record_keeps_its_fields() {
    let hr = HitRecord::new(whole(2), vec_whole(0, 0, -2), vec_whole(0, 0, 1), matte());
    assert_eq!(hr.t, whole(2));
    assert_eq!(hr.p, vec_whole(0, 0, -2));
    assert_eq!(hr.normal, vec_whole(0, 0, 1));
    assert!(matches!(hr.material, Material::Lambertian(_)));
}

#[test]
fn hit_records_compare_by_parameter_alone() {
    let near = HitRecord::new(whole(2), vec_whole(0, 0, -2), vec_whole(0, 0, 1), matte());
    let far = HitRecord::new(whole(4), vec_whole(0, 0, -4), vec_whole(0, 0, -1), matte());
    let other_at_two = HitRecord::new(whole(2), vec_whole(9, 9, 9), vec_whole(1, 0, 0), glass());
    assert!(near < far);
    assert!(far > near);
    assert!(near <= other_at_two);
    assert!(near == other_at_two);
    assert!(near != far);
    assert_eq!(near.partial_cmp(&far), Some(std::cmp::Ordering::Less));
    assert_eq!(far.partial_cmp(&near), Some(std::cmp::Ordering::Greater));
    assert_eq!(near.partial_cmp(&other_at_two), Some(std::cmp::Ordering::Equal));
}

#[test]
fn ray_at_the_centre_hits_the_closer_of_two_symmetric_roots() {
    let sphere = Sphere::new(vec_whole(0, 0, -3), whole(1), matte());
    let ray = down_the_z_axis();
    let near = sphere.hit(&ray, t_min(), t_max()).unwrap();
    assert_eq!(near.t, whole(2));
    assert_eq!(near.p, vec_whole(0, 0, -2));
    assert_eq!(near.normal, vec_whole(0, 0, 1));
    // With the closer root out of range, the farther one is found.
    let far = sphere.hit(&ray, Scalar::from_ratio(5, 2), t_max()).unwrap();
    assert_eq!(far.t, whole(4));
    assert_eq!(far.p, vec_whole(0, 0, -4));
    assert_eq!(far.normal, vec_whole(0, 0, -1));
    // The centre is closest at parameter three, halfway between the roots.
    let closest = whole(3);
    assert_eq!(closest.sub(near.t), far.t.sub(closest));
}

#[test]
fn roots_are_symmetric_for_a_direction_that_is_not_normalised() {
    let sphere = Sphere::new(vec_whole(0, 0, -3), whole(1), matte());
    let ray = Ray::new(Vec3::zero(), vec_whole(0, 0, -2));
    let near = sphere.hit(&ray, t_min(), t_max()).unwrap();
    let far = sphere.hit(&ray, Scalar::from_ratio(5, 4), t_max()).unwrap();
    assert_eq!(near.t, whole(1));
    assert_eq!(far.t, whole(2));
    assert_eq!(near.p, vec_whole(0, 0, -2));
    assert_eq!(far.p, vec_whole(0, 0, -4));
    let closest = Scalar::from_ratio(3, 2);
    assert_eq!(closest.sub(near.t), far.t.sub(closest));
}

#[test]
fn roots_of_an_oblique_ray_are_symmetric_up_to_rounding() {
    let centre = vec_whole(0, 0, -1);
    let sphere = Sphere::new(centre, Scalar::from_ratio(1, 2), matte());
    for k in -7..=7 {
        let direction = Vec3::new(Scalar::from_ratio(k, 23), Scalar::from_ratio(k, 31), whole(-1));
        let ray = Ray::new(Vec3::zero(), direction);
        let near = sphere.hit(&ray, t_min(), t_max()).unwrap();
        let far = sphere.hit(&ray, near.t, t_max()).unwrap();
        assert!(near.t < far.t);
        // The ray is closest to the centre at the parameter -b / a, taken
        // along the direction divided by its length.
        let length = direction.length();
        let u = direction.div(length);
        let oc = ray.origin().sub(centre);
        let closest = oc.dot(&u).neg().div(u.dot(&u)).div(length);
        let off = near.t.raw() + far.t.raw() - 2 * closest.raw();
        assert!(off.abs() < 8);
    }
}

#[test]
fn oblique_ray_hits_where_the_model_says() {
    let sphere = Sphere::new(vec_whole(0, 0, -1), Scalar::from_ratio(1, 2), matte());
    let ray = Ray::new(Vec3::zero(), vec_raw(ONE_RAW / 4, ONE_RAW / 8, -ONE_RAW));
    let hr = sphere.hit(&ray, t_min(), t_max()).unwrap();
    assert_eq!(hr.t, raw(2240852502));
    assert_eq!(hr.p, vec_raw(560213125, 280106562, -2240852502));
    assert_eq!(hr.normal, vec_raw(1120426250, 560213124, 4108229588));
    // The point lies on the sphere and the normal has unit length.
    let d = hr.p.sub(vec_whole(0, 0, -1)).length().raw() as f64 / ONE_RAW as f64;
    assert!((d - 0.5).abs() < 1e-8);
    let n = hr.normal.length().raw() as f64 / ONE_RAW as f64;
    assert!((n - 1.0).abs() < 1e-8);
}

#[test]
fn range_bounds_are_exclusive() {
    let sphere = Sphere::new(vec_whole(0, 0, -3), whole(1), matte());
    let ray = down_the_z_axis();
    // The closer root is exactly the lower bound: it does not count.
    assert_eq!(sphere.hit(&ray, whole(2), t_max()).unwrap().t, whole(4));
    // The farther root is exactly the upper bound: it does not count.
    assert!(sphere.hit(&ray, whole(3), whole(4)).is_none());
    assert_eq!(sphere.hit(&ray, whole(3), raw(4 * ONE_RAW + 1)).unwrap().t, whole(4));
    assert_eq!(sphere.hit(&ray, raw(2 * ONE_RAW - 1), whole(3)).unwrap().t, whole(2));
    assert!(sphere.hit(&ray, whole(2), whole(4)).is_none());
    assert!(sphere.hit(&ray, whole(5), t_max()).is_none());
    assert!(sphere.hit(&ray, t_min(), whole(1)).is_none());
}

#[test]
fn ray_from_inside_hits_the_far_side() {
    let sphere = Sphere::new(Vec3::zero(), whole(2), matte());
    let ray = Ray::new(Vec3::zero(), vec_whole(1, 0, 0));
    let hr = sphere.hit(&ray, t_min(), t_max()).unwrap();
    assert_eq!(hr.t, whole(2));
    assert_eq!(hr.p, vec_whole(2, 0, 0));
    assert_eq!(hr.normal, vec_whole(1, 0, 0));
}

#[test]
fn rays_that_miss_or_graze_do_not_hit() {
    let ray = down_the_z_axis();
    let off_axis = Sphere::new(vec_whole(0, 5, -3), whole(1), matte());
    assert!(off_axis.hit(&ray, t_min(), t_max()).is_none());
    // A tangent ray has discriminant zero.
    let tangent = Sphere::new(vec_whole(0, 1, -3), whole(1), matte());
    assert!(tangent.hit(&ray, t_min(), t_max()).is_none());
    // The sphere lies behind the ray.
    let behind = Sphere::new(vec_whole(0, 0, 3), whole(1), matte());
    assert!(behind.hit(&ray, t_min(), t_max()).is_none());
    assert_eq!(behind.hit(&ray, whole(-10), t_max()).unwrap().t, whole(-4));
}

#[test]
fn zero_direction_does_not_hit() {
    let sphere = Sphere::new(vec_whole(0, 0, -3), whole(1), matte());
    let still = Ray::new(Vec3::zero(), Vec3::zero());
    assert!(sphere.hit(&still, whole(-1), t_max()).is_none());
    let inside = Sphere::new(Vec3::zero(), whole(1), matte());
    assert!(inside.hit(&still, whole(-1), t_max()).is_none());
}

#[test]
fn short_direction_still_hits() {
    let sphere = Sphere::new(vec_whole(0, 0, -3), whole(1), matte());
    let slow = Ray::new(Vec3::zero(), vec_raw(0, 0, -65536));
    let hr = sphere.hit(&slow, t_min(), t_max()).unwrap();
    assert_eq!(hr.t, whole(131072));
    assert_eq!(hr.p, vec_whole(0, 0, -2));
    assert_eq!(hr.normal, vec_whole(0, 0, 1));
}

#[test]
fn direction_whose_square_is_below_the_resolution_still_hits() {
    // The direction has length 2^-17, so that its square cannot be held.
    let crawling = Ray::new(Vec3::zero(), vec_raw(0, 0, -32768));
    assert_eq!(crawling.dot(&crawling.direction()), Scalar::zero());
    let sphere = Sphere::new(vec_whole(0, 0, -1), Scalar::from_ratio(1, 2), matte());
    let near = sphere.hit(&crawling, t_min(), t_max()).unwrap();
    assert_eq!(near.t, whole(65536));
    assert_eq!(near.p, vec_raw(0, 0, -(ONE_RAW / 2)));
    assert_eq!(near.normal, vec_whole(0, 0, 1));
    assert!(crawling.direction().length() > Scalar::zero());
    let far = sphere.hit(&crawling, near.t, t_max()).unwrap();
    assert_eq!(far.t, whole(196608));
    assert_eq!(far.normal, vec_whole(0, 0, -1));
    let distant = Sphere::new(vec_whole(0, 0, -3000), whole(1), matte());
    let hr = distant.hit(&crawling, t_min(), t_max()).unwrap();
    assert_eq!(hr.t, whole(2999 * 131072));
    assert_eq!(hr.p, vec_whole(0, 0, -2999));
}

#[test]
fn shortest_directions_hit_where_the_root_can_be_held() {
    let sphere = Sphere::new(vec_whole(0, 0, -1), Scalar::from_ratio(1, 2), matte());
    // Along a direction of one unit of 2^-32 the root would be 2^31.
    let one_unit = Ray::new(Vec3::zero(), vec_raw(0, 0, -1));
    assert!(sphere.hit(&one_unit, t_min(), t_max()).is_none());
    let three_units = Ray::new(Vec3::zero(), vec_raw(0, 0, -3));
    let hr = sphere.hit(&three_units, t_min(), t_max()).unwrap();
    assert_eq!(hr.t, raw(3074457345618258602));
    assert_eq!(hr.p, vec_raw(0, 0, -2147483647));
    let diagonal = Ray::new(Vec3::zero(), vec_raw(0, 1, -8));
    assert!(sphere.hit(&diagonal, t_min(), t_max()).is_some());
}

#[test]
fn distant_and_large_spheres_are_hit() {
    // The squares of these distances and radii cannot be held.
    let ray = Ray::new(Vec3::zero(), vec_whole(0, 0, -1));
    let distant = Sphere::new(vec_whole(0, 0, -100000), whole(1), matte());
    let hr = distant.hit(&ray, t_min(), t_max()).unwrap();
    assert_eq!(hr.t, whole(99999));
    assert_eq!(hr.normal, vec_whole(0, 0, 1));
    let large = Sphere::new(vec_whole(0, 0, -2000000), whole(1000000), matte());
    let hr = large.hit(&ray, t_min(), t_max()).unwrap();
    assert_eq!(hr.t, whole(1000000));
    assert_eq!(hr.p, vec_whole(0, 0, -1000000));
    let aside = Sphere::new(vec_whole(3000, 4000, -100000), whole(100), matte());
    let oblique = Ray::new(Vec3::zero(), vec_whole(3, 4, -100));
    let hr = aside.hit(&oblique, t_min(), t_max()).unwrap();
    assert_eq!(hr.t, raw(4290677688047));
    assert_eq!(hr.normal, vec_raw(-128688238, -171584318, 4289607953));
    // In floating point: the centre lies 100125 away along a direction of
    // length 100.125, and the sphere begins 100 before it.
    let t = hr.t.raw() as f64 / ONE_RAW as f64;
    let length = (9.0f64 + 16.0 + 10000.0).sqrt();
    assert!((t - (1000.0 * length - 100.0) / length).abs() < 1e-6);
    let passing = Ray::new(Vec3::zero(), vec_whole(4, 4, -100));
    assert!(aside.hit(&passing, t_min(), t_max()).is_none());
}

#[test]
fn entering_ray_meets_a_normal_that_faces_it() {
    let centre = vec_whole(0, 0, -1);
    let solid = Sphere::new(centre, Scalar::from_ratio(1, 2), matte());
    let hollow = Sphere::new(centre, Scalar::from_ratio(-1, 2), matte());
    for shift in [0, 4, 10, 17, 24] {
        for k in -3..=3i64 {
            let (x, y) = ((k * ONE_RAW / 10) >> shift, (k * ONE_RAW / 17) >> shift);
            let direction = vec_raw(x, y, -ONE_RAW >> shift);
            let ray = Ray::new(Vec3::zero(), direction);
            let outside = solid.hit(&ray, t_min(), t_max()).unwrap();
            assert!(ray.dot(&outside.normal) < Scalar::zero());
            let inside = hollow.hit(&ray, t_min(), t_max()).unwrap();
            assert!(ray.dot(&inside.normal) > Scalar::zero());
            assert_eq!(inside.t, outside.t);
        }
    }
}

#[test]
fn negative_radius_turns_the_normal_inward() {
    let ray = down_the_z_axis();
    let solid = Sphere::new(vec_whole(0, 0, -3), whole(1), glass());
    let hollow = Sphere::new(vec_whole(0, 0, -3), whole(-1), glass());
    let a = solid.hit(&ray, t_min(), t_max()).unwrap();
    let b = hollow.hit(&ray, t_min(), t_max()).unwrap();
    assert_eq!(a.t, b.t);
    assert_eq!(a.p, b.p);
    assert_eq!(b.normal, a.normal.neg());
    assert!(ray.dot(&a.normal) < Scalar::zero());
    assert!(ray.dot(&b.normal) > Scalar::zero());
    assert_eq!(ray.dot(&b.normal), ray.dot(&a.normal).neg());
}

#[test]
fn hollow_shell_inverts_the_normal_at_both_crossings() {
    let centre = vec_whole(-1, 0, -1);
    let outer = Sphere::new(centre, Scalar::from_ratio(1, 2), glass());
    let inner = Sphere::new(centre, Scalar::from_ratio(-45, 100), glass());
    let same_sign = Sphere::new(centre, Scalar::from_ratio(45, 100), glass());
    let ray = Ray::new(Vec3::zero(), vec_whole(-1, 0, -1));
    // Entering: the outer surface first, then the inner one.
    let first = outer.hit(&ray, t_min(), t_max()).unwrap();
    let second = inner.hit(&ray, first.t, t_max()).unwrap();
    let reference = same_sign.hit(&ray, first.t, t_max()).unwrap();
    assert!(first.t < second.t);
    assert!(ray.dot(&first.normal) < Scalar::zero());
    assert!(ray.dot(&second.normal) > Scalar::zero());
    assert!(ray.dot(&reference.normal) < Scalar::zero());
    assert_eq!(second.t, reference.t);
    assert_eq!(second.p, reference.p);
    assert_eq!(second.normal, reference.normal.neg());
    // Leaving: the inner surface again, then the outer one.
    let third = inner.hit(&ray, second.t, t_max()).unwrap();
    let third_reference = same_sign.hit(&ray, second.t, t_max()).unwrap();
    let fourth = outer.hit(&ray, third.t, t_max()).unwrap();
    assert!(second.t < third.t && third.t < fourth.t);
    assert!(ray.dot(&third.normal) < Scalar::zero());
    assert!(ray.dot(&third_reference.normal) > Scalar::zero());
    assert!(ray.dot(&fourth.normal) > Scalar::zero());
    assert_eq!(third.normal, third_reference.normal.neg());
}

#[test]
fn list_returns_the_nearest_hit() {
    let ray = down_the_z_axis();
    let world = vec![
        Sphere::new(vec_whole(0, 0, -10), whole(1), matte()),
        Sphere::new(vec_whole(0, 0, -3), whole(1), glass()),
        Sphere::new(vec_whole(0, 0, -6), whole(1), matte()),
        Sphere::new(vec_whole(0, 50, -6), whole(1), matte()),
    ];
    let list: &[Sphere] = &world;
    let hr = list.hit(&ray, t_min(), t_max()).unwrap();
    assert_eq!(hr.t, whole(2));
    assert!(matches!(hr.material, Material::Dielectric(_)));
    for s in &world {
        if let Some(h) = s.hit(&ray, t_min(), t_max()) {
            assert!(hr.t <= h.t);
        }
    }
    // The range applies to every member.
    let hr = list.hit(&ray, whole(4), t_max()).unwrap();
    assert_eq!(hr.t, whole(5));
    let hr = list.hit(&ray, whole(7), t_max()).unwrap();
    assert_eq!(hr.t, whole(9));
    assert!(list.hit(&ray, whole(11), t_max()).is_none());
}

#[test]
fn list_order_does_not_change_the_nearest_hit() {
    let ray = down_the_z_axis();
    let a = Sphere::new(vec_whole(0, 0, -10), whole(1), matte());
    let b = Sphere::new(vec_whole(0, 0, -3), whole(1), glass());
    let c = Sphere::new(vec_whole(0, 0, -6), whole(1), matte());
    for world in [vec![a, b, c], vec![c, b, a], vec![b, a, c], vec![c, a, b]] {
        let list: &[Sphere] = &world;
        assert_eq!(list.hit(&ray, t_min(), t_max()).unwrap().t, whole(2));
    }
}

#[test]
fn list_keeps_the_first_of_equally_near_hits() {
    let ray = down_the_z_axis();
    let world = vec![
        Sphere::new(vec_whole(0, 0, -3), whole(1), matte()),
        Sphere::new(vec_whole(0, 0, -3), whole(1), glass()),
    ];
    let list: &[Sphere] = &world;
    let hr = list.hit(&ray, t_min(), t_max()).unwrap();
    assert!(matches!(hr.material, Material::Lambertian(_)));
    let world = vec![world[1], world[0]];
    let list: &[Sphere] = &world;
    let hr = list.hit(&ray, t_min(), t_max()).unwrap();
    assert!(matches!(hr.material, Material::Dielectric(_)));
}

#[test]
fn empty_list_is_never_hit() {
    let world: Vec<Sphere> = Vec::new();
    let list: &[Sphere] = &world;
    assert!(list.hit(&down_the_z_axis(), t_min(), t_max()).is_none());
}
