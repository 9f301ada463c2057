//! The camera: from pixels to rays, and from the colours of the rays to
//! the bytes of an image.

use crate::ray::{Ray, RayModel};
use crate::sampling::unit_interval;
use crate::scalar::{q_add, q_div, sat, Scalar, ONE_RAW};
use crate::vec3::{is_rgb_of, models, sum_model, Vec3, Vec3Model};
use vstd::prelude::*;

verus! {

/// The model of a [`Camera`].
pub struct CameraModel {
    pub lower_left_corner: Vec3Model,
    pub horizontal: Vec3Model,
    pub vertical: Vec3Model,
    pub origin: Vec3Model,
    pub nx: int,
    pub ny: int,
    pub ns: int,
}

impl CameraModel {
    /// The ray from the origin through the point of the image plane with
    /// coordinates `u` and `v`, both in `[0, 1]` from the lower left corner.
    pub open spec fn get_ray(self, u: int, v: int) -> RayModel {
        RayModel {
            origin: self.origin,
            direction: self.lower_left_corner.add(self.horizontal.mul(u)).add(
                self.vertical.mul(v),
            ).sub(self.origin),
        }
    }

    /// The ray through pixel `(x, y)`, counted from the upper left corner,
    /// displaced within the pixel by `ju` to the right and `jv` upward.
    pub open spec fn sample_ray(self, x: int, y: int, ju: int, jv: int) -> RayModel {
        let u = q_div(q_add(sat(x * ONE_RAW), ju), sat(self.nx * ONE_RAW));
        let v = q_div(q_add(sat((self.ny - y - 1) * ONE_RAW), jv), sat(self.ny * ONE_RAW));
        self.get_ray(u, v)
    }

    /// Whether `ray` passes through pixel `(x, y)`.
    pub open spec fn through_pixel(self, x: int, y: int, ray: RayModel) -> bool {
        exists|ju: int, jv: int|
            0 <= ju < ONE_RAW && 0 <= jv < ONE_RAW && ray == #[trigger] self.sample_ray(
                x,
                y,
                ju,
                jv,
            )
    }

    /// Whether `c` is what `color` may return for some ray through pixel
    /// `(x, y)`.
    pub open spec fn sample_of<Fun: Fn(Ray) -> Vec3>(self, color: Fun, x: int, y: int, c: Vec3)
        -> bool {
        exists|ray: Ray|
            self.through_pixel(x, y, ray@) && #[trigger] call_ensures(color, (ray,), c)
    }

    /// Whether `colors` holds one sample of pixel `(x, y)` for each of the
    /// `ns` rays.
    pub open spec fn sampled<Fun: Fn(Ray) -> Vec3>(
        self,
        color: Fun,
        x: int,
        y: int,
        colors: Seq<Vec3>,
    ) -> bool {
        &&& colors.len() == self.ns
        &&& forall|k: int|
            0 <= k < colors.len() ==> #[trigger] self.sample_of(color, x, y, colors[k])
    }

    /// Whether `bytes` is a value that pixel `(x, y)` may take when the
    /// rays are coloured by `color`.
    pub open spec fn renders<Fun: Fn(Ray) -> Vec3>(
        self,
        color: Fun,
        x: int,
        y: int,
        bytes: [u8; 3],
    ) -> bool {
        exists|colors: Seq<Vec3>| #[trigger]
            self.sampled(color, x, y, colors) && is_rgb_of(
                bytes,
                pixel_model(models(colors), self.ns),
            )
    }

    /// The place of pixel `(x, y)` in the image, which is stored row by
    /// row from the top.
    pub open spec fn pixel_index(self, x: int, y: int) -> int {
        y * self.nx + x
    }
}

/// The colour of a pixel whose `ns` samples have the colours `colors`:
/// their mean, with gamma 2 applied by a square root.
pub open spec fn pixel_model(colors: Seq<Vec3Model>, ns: int) -> Vec3Model {
    sum_model(colors).div(sat(ns * ONE_RAW)).sqrt()
}

/// A pinhole camera with its image plane, the size of the image in pixels
/// and the number of rays to trace for each pixel.
#[derive(Clone, Copy, Debug)]
pub struct Camera {
    lower_left_corner: Vec3,
    horizontal: Vec3,
    vertical: Vec3,
    origin: Vec3,
    nx: u32,
    ny: u32,
    ns: usize,
}

impl View for Camera {
    type V = CameraModel;

    closed spec fn view(&self) -> CameraModel {
        CameraModel {
            lower_left_corner: self.lower_left_corner@,
            horizontal: self.horizontal@,
            vertical: self.vertical@,
            origin: self.origin@,
            nx: self.nx as int,
            ny: self.ny as int,
            ns: self.ns as int,
        }
    }
}

impl Camera {
    pub fn new(
        lower_left_corner: Vec3,
        horizontal: Vec3,
        vertical: Vec3,
        origin: Vec3,
        nx: u32,
        ny: u32,
        ns: usize,
    ) -> (cam: Camera)
        ensures
            cam@ == (CameraModel {
                lower_left_corner: lower_left_corner@,
                horizontal: horizontal@,
                vertical: vertical@,
                origin: origin@,
                nx: nx as int,
                ny: ny as int,
                ns: ns as int,
            }),
    {
        Camera { lower_left_corner, horizontal, vertical, origin, nx, ny, ns }
    }

    /// The same camera with an image of `w` by `h` pixels.
    pub fn size(self, w: u32, h: u32) -> (cam: Camera)
        ensures
            cam@ == (CameraModel { nx: w as int, ny: h as int, ..self@ }),
    {
        let mut cam = self;
        cam.nx = w;
        cam.ny = h;
        cam
    }

    /// The same camera with `ns` rays for each pixel.
    pub fn nbsamples(self, ns: usize) -> (cam: Camera)
        ensures
            cam@ == (CameraModel { ns: ns as int, ..self@ }),
    {
        let mut cam = self;
        cam.ns = ns;
        cam
    }

    /// The ray from the origin through the point of the image plane with
    /// coordinates `u` and `v`.
    pub fn get_ray(&self, u: Scalar, v: Scalar) -> (r: Ray)
        ensures
            r@ == self@.get_ray(u@, v@),
    {
        Ray::new(
            self.origin,
            self.lower_left_corner.add(self.horizontal.mul(u)).add(self.vertical.mul(v)).sub(
                self.origin,
            ),
        )
    }

    /// The ray through pixel `(x, y)`, displaced within the pixel by `ju`
    /// to the right and `jv` upward.
    pub fn sample_ray(&self, x: u32, y: u32, ju: Scalar, jv: Scalar) -> (r: Ray)
        ensures
            r@ == self@.sample_ray(x as int, y as int, ju@, jv@),
    {
        let u = Scalar::from_u32(x).add(ju).div(Scalar::from_u32(self.nx));
        let row: i64 = self.ny as i64 - y as i64 - 1;
        let v = Scalar::from_i64(row).add(jv).div(Scalar::from_u32(self.ny));
        self.get_ray(u, v)
    }

    /// The bytes of a pixel whose samples have the colours `colors`, for a
    /// camera that takes `ns` samples.
    pub fn pixel(colors: &[Vec3], ns: usize) -> (bytes: [u8; 3])
        ensures
            is_rgb_of(bytes, pixel_model(models(colors@), ns as int)),
    {
        let mean = Vec3::sum(colors).div(Scalar::from_usize(ns)).sqrt();
        match mean.rgb() {
            Some(bytes) => bytes,
            None => [0, 0, 0],
        }
    }

    /// The colours that `color` gives for `ns` random rays through pixel
    /// `(x, y)`.
    fn sample_colors<Fun: Fn(Ray) -> Vec3>(&self, color: &Fun, x: u32, y: u32) -> (colors: Vec<
        Vec3,
    >)
        requires
            forall|r: Ray| call_requires(*color, (r,)),
        ensures
            self@.sampled(*color, x as int, y as int, colors@),
    {
        let mut colors: Vec<Vec3> = Vec::new();
        while colors.len() < self.ns
            invariant
                forall|r: Ray| call_requires(*color, (r,)),
                colors.len() <= self.ns,
                forall|k: int|
                    0 <= k < colors.len() ==> #[trigger] self@.sample_of(
                        *color,
                        x as int,
                        y as int,
                        colors@[k],
                    ),
            decreases self.ns - colors.len(),
        {
            let ju = unit_interval();
            let jv = unit_interval();
            let r = self.sample_ray(x, y, ju, jv);
            let c = color(r);
            colors.push(c);
        }
        colors
    }

    /// Renders pixel `(x, y)`: the bytes of the gamma-corrected mean of the
    /// colours that `color` gives for `ns` random rays through the pixel.
    pub fn render_pixel<Fun: Fn(Ray) -> Vec3>(&self, color: &Fun, x: u32, y: u32) -> (bytes: [
        u8;
        3
    ])
        requires
            forall|r: Ray| call_requires(*color, (r,)),
        ensures
            self@.renders(*color, x as int, y as int, bytes),
    {
        let colors = self.sample_colors(color, x, y);
        Camera::pixel(colors.as_slice(), self.ns)
    }

    /// Renders the image: every pixel as [`Camera::render_pixel`] renders
    /// it, row by row from the top.
    pub fn image<Fun: Fn(Ray) -> Vec3>(&self, color: Fun) -> (img: Vec<[u8; 3]>)
        requires
            forall|r: Ray| call_requires(color, (r,)),
        ensures
            img@.len() == self@.nx * self@.ny,
            forall|x: int, y: int|
                0 <= x < self@.nx && 0 <= y < self@.ny ==> self@.renders(
                    color,
                    x,
                    y,
                    #[trigger] img@[self@.pixel_index(x, y)],
                ),
    {
        let mut img: Vec<[u8; 3]> = Vec::new();
        let mut y: u32 = 0;
        while y < self.ny
            invariant
                y <= self.ny,
                forall|r: Ray| call_requires(color, (r,)),
                img@.len() == y * self@.nx,
                forall|px: int, py: int|
                    0 <= px < self@.nx && 0 <= py < y ==> self@.renders(
                        color,
                        px,
                        py,
                        #[trigger] img@[self@.pixel_index(px, py)],
                    ),
            decreases self.ny - y,
        {
            let mut x: u32 = 0;
            while x < self.nx
                invariant
                    x <= self.nx,
                    y < self.ny,
                    forall|r: Ray| call_requires(color, (r,)),
                    img@.len() == y * self@.nx + x,
                    forall|px: int, py: int|
                        0 <= px < self@.nx && 0 <= py < self@.ny && (py < y || (py == y && px < x))
                            ==> self@.renders(
                            color,
                            px,
                            py,
                            #[trigger] img@[self@.pixel_index(px, py)],
                        ),
                decreases self.nx - x,
            {
                let bytes = self.render_pixel(&color, x, y);
                let ghost before = img@;
                img.push(bytes);
                proof {
                    assert forall|px: int, py: int|
                        0 <= px < self@.nx && 0 <= py < self@.ny && (py < y || (py == y && px < x
                            + 1)) implies self@.renders(
                        color,
                        px,
                        py,
                        #[trigger] img@[self@.pixel_index(px, py)],
                    ) by {
                        lemma_pixel_index(self@.nx, px, py, x as int, y as int);
                        if py != y || px != x {
                            assert(img@[self@.pixel_index(px, py)] == before[self@.pixel_index(
                                px,
                                py,
                            )]);
                        }
                    }
                }
                x = x + 1;
            }
            proof {
                assert((y + 1) * self@.nx == y * self@.nx + self@.nx) by (nonlinear_arith);
            }
            y = y + 1;
        }
        proof {
            assert(self@.ny * self@.nx == self@.nx * self@.ny) by (nonlinear_arith);
        }
        img
    }
}

/// A pixel that comes before `(x, y)` in row order has a smaller index.
proof fn lemma_pixel_index(nx: int, px: int, py: int, x: int, y: int)
    requires
        0 <= px < nx,
        0 <= py,
        0 <= x < nx,
        py < y || (py == y && px <= x),
    ensures
        0 <= py * nx + px <= y * nx + x,
        (py * nx + px == y * nx + x) <==> (py == y && px == x),
{
    assert(0 <= py * nx) by (nonlinear_arith)
        requires
            0 <= py,
            0 <= nx,
    ;
    if py < y {
        assert((py + 1) * nx <= y * nx) by (nonlinear_arith)
            requires
                py + 1 <= y,
                0 <= nx,
        ;
        assert((py + 1) * nx == py * nx + nx) by (nonlinear_arith);
    }
}

impl Default for Camera {
    /// A camera at the origin that looks down the negative z axis at an
    /// image plane of 4 by 2 units, for 1024 by 512 pixels and 500 samples.
    fn default() -> (cam: Camera)
        ensures
            cam@ == (CameraModel {
                lower_left_corner: Vec3Model { x: -2 * ONE_RAW, y: -ONE_RAW, z: -ONE_RAW },
                horizontal: Vec3Model { x: 4 * ONE_RAW, y: 0, z: 0 },
                vertical: Vec3Model { x: 0, y: 2 * ONE_RAW, z: 0 },
                origin: Vec3Model::zero(),
                nx: 1024,
                ny: 512,
                ns: 500,
            }),
    {
        let zero = Scalar::zero();
        Camera {
            lower_left_corner: Vec3::new(
                Scalar::from_int(-2),
                Scalar::from_int(-1),
                Scalar::from_int(-1),
            ),
            horizontal: Vec3::new(Scalar::from_int(4), zero, zero),
            vertical: Vec3::new(zero, Scalar::from_int(2), zero),
            origin: Vec3::new(zero, zero, zero),
            nx: 1024,
            ny: 512,
            ns: 500,
        }
    }
}

} // verus!
