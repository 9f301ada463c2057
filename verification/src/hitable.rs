//! Intersection records and the objects that a ray can hit.

use crate::material::{Material, MaterialModel};
use crate::ray::{Ray, RayModel};
use crate::scalar::Scalar;
use crate::vec3::{Vec3, Vec3Model};
use core::cmp::Ordering;
use vstd::prelude::*;
use vstd::std_specs::cmp::{PartialEqSpecImpl, PartialOrdSpecImpl};

verus! {

/// The model of a [`HitRecord`].
pub struct HitModel {
    pub t: int,
    pub p: Vec3Model,
    pub normal: Vec3Model,
    pub material: MaterialModel,
}

/// Where a ray meets a surface: the parameter `t` along the ray, the point
/// `p`, the surface normal there and the material of the surface.
#[derive(Clone, Copy, Debug)]
pub struct HitRecord {
    pub t: Scalar,
    pub p: Vec3,
    pub normal: Vec3,
    pub material: Material,
}

impl View for HitRecord {
    type V = HitModel;

    open spec fn view(&self) -> HitModel {
        HitModel { t: self.t@, p: self.p@, normal: self.normal@, material: self.material@ }
    }
}

impl HitRecord {
    pub fn new(t: Scalar, p: Vec3, normal: Vec3, material: Material) -> (hr: HitRecord)
        ensures
            hr@ == (HitModel { t: t@, p: p@, normal: normal@, material: material@ }),
    {
        HitRecord { t, p, normal, material }
    }
}

/// Hits are compared by their parameter alone: two hits of one ray at the
/// same parameter are the same hit.
impl PartialEq for HitRecord {
    fn eq(&self, other: &HitRecord) -> (r: bool) {
        self.t == other.t
    }
}

impl PartialEqSpecImpl for HitRecord {
    open spec fn obeys_eq_spec() -> bool {
        true
    }

    open spec fn eq_spec(&self, other: &HitRecord) -> bool {
        self.t == other.t
    }
}

impl Eq for HitRecord {

}

/// Hits are ordered by their parameter, the nearest first.
impl PartialOrd for HitRecord {
    fn partial_cmp(&self, other: &HitRecord) -> (r: Option<Ordering>) {
        if self.t < other.t {
            Some(Ordering::Less)
        } else if self.t > other.t {
            Some(Ordering::Greater)
        } else {
            Some(Ordering::Equal)
        }
    }
}

impl PartialOrdSpecImpl for HitRecord {
    open spec fn obeys_partial_cmp_spec() -> bool {
        true
    }

    open spec fn partial_cmp_spec(&self, other: &HitRecord) -> Option<Ordering> {
        if self.t@ < other.t@ {
            Some(Ordering::Less)
        } else if self.t@ > other.t@ {
            Some(Ordering::Greater)
        } else {
            Some(Ordering::Equal)
        }
    }
}

/// The model of an optional hit.
pub open spec fn hit_view(h: Option<HitRecord>) -> Option<HitModel> {
    match h {
        Some(hr) => Some(hr@),
        None => None,
    }
}

/// An object that a ray can hit.
pub trait Hit {
    /// What [`Hit::hit`] returns for a ray and the open range
    /// `(t_min, t_max)`, as a model.
    spec fn hit_model(&self, r: RayModel, t_min: int, t_max: int) -> Option<HitModel>;

    /// A hit lies strictly inside the range that was asked for.
    proof fn hit_model_in_range(&self, r: RayModel, t_min: int, t_max: int)
        ensures
            self.hit_model(r, t_min, t_max) matches Some(h) ==> t_min < h.t < t_max,
    ;

    /// The nearest intersection of `r` with the object whose parameter
    /// lies strictly between `t_min` and `t_max`, if there is one.
    fn hit(&self, r: &Ray, t_min: Scalar, t_max: Scalar) -> (res: Option<HitRecord>)
        ensures
            hit_view(res) == self.hit_model(r@, t_min@, t_max@),
    ;
}

/// The nearer of two optional hits; the first one where they are equally
/// near.
pub open spec fn nearer(a: Option<HitModel>, b: Option<HitModel>) -> Option<HitModel> {
    match (a, b) {
        (Some(x), Some(y)) => if y.t < x.t {
            b
        } else {
            a
        },
        (Some(_), None) => a,
        (None, _) => b,
    }
}

/// Whether the optional hit `g` is not nearer than the parameter `t`.
pub open spec fn no_nearer(g: Option<HitModel>, t: int) -> bool {
    g matches Some(h) ==> t <= h.t
}

/// The nearest hit among the objects of `objs`; the first one among
/// equally near hits.
pub open spec fn nearest_hit<S: Hit>(objs: Seq<S>, r: RayModel, t_min: int, t_max: int) -> Option<
    HitModel,
>
    decreases objs.len(),
{
    if objs.len() == 0 {
        None
    } else {
        nearer(
            nearest_hit(objs.drop_last(), r, t_min, t_max),
            objs.last().hit_model(r, t_min, t_max),
        )
    }
}

/// The nearest hit of a list of objects comes from one of them, and no
/// object of the list is hit nearer; the list is missed exactly when every
/// object is missed.
pub proof fn lemma_nearest_hit_is_minimal<S: Hit>(
    objs: Seq<S>,
    r: RayModel,
    t_min: int,
    t_max: int,
)
    ensures
        nearest_hit(objs, r, t_min, t_max) is None <==> forall|i: int|
            0 <= i < objs.len() ==> (#[trigger] objs[i]).hit_model(r, t_min, t_max) is None,
        nearest_hit(objs, r, t_min, t_max) matches Some(h) ==> {
            &&& t_min < h.t < t_max
            &&& exists|i: int|
                0 <= i < objs.len() && (#[trigger] objs[i]).hit_model(r, t_min, t_max) == Some(h)
            &&& forall|j: int|
                0 <= j < objs.len() ==> no_nearer(
                    (#[trigger] objs[j]).hit_model(r, t_min, t_max),
                    h.t,
                )
        },
    decreases objs.len(),
{
    if objs.len() > 0 {
        let init = objs.drop_last();
        let last = objs.last();
        lemma_nearest_hit_is_minimal(init, r, t_min, t_max);
        last.hit_model_in_range(r, t_min, t_max);
        let rest = nearest_hit(init, r, t_min, t_max);
        let cur = last.hit_model(r, t_min, t_max);
        match nearest_hit(objs, r, t_min, t_max) {
            Some(h) => {
                if rest == Some(h) {
                    let i = choose|i: int|
                        0 <= i < init.len() && (#[trigger] init[i]).hit_model(r, t_min, t_max)
                            == Some(h);
                    assert(objs[i].hit_model(r, t_min, t_max) == Some(h));
                } else {
                    assert(cur == Some(h));
                }
                assert forall|j: int| 0 <= j < objs.len() implies no_nearer(
                    (#[trigger] objs[j]).hit_model(r, t_min, t_max),
                    h.t,
                ) by {
                    if j < init.len() {
                        assert(init[j] == objs[j]);
                    }
                }
            },
            None => {
                assert forall|i: int| 0 <= i < objs.len() implies (#[trigger] objs[i]).hit_model(
                    r,
                    t_min,
                    t_max,
                ) is None by {
                    if i < init.len() {
                        assert(init[i] == objs[i]);
                    }
                }
            },
        }
    }
}

/// The order of the objects of a list does not matter to whether the list
/// is hit, nor to how near: two lists with the same objects are hit at the
/// same parameter.
pub proof fn lemma_order_is_irrelevant<S: Hit>(
    a: Seq<S>,
    b: Seq<S>,
    r: RayModel,
    t_min: int,
    t_max: int,
)
    requires
        forall|i: int| 0 <= i < a.len() ==> b.contains(#[trigger] a[i]),
        forall|i: int| 0 <= i < b.len() ==> a.contains(#[trigger] b[i]),
    ensures
        match (nearest_hit(a, r, t_min, t_max), nearest_hit(b, r, t_min, t_max)) {
            (Some(h), Some(g)) => h.t == g.t,
            (None, None) => true,
            _ => false,
        },
{
    lemma_nearest_hit_is_minimal(a, r, t_min, t_max);
    lemma_nearest_hit_is_minimal(b, r, t_min, t_max);
    if let Some(h) = nearest_hit(a, r, t_min, t_max) {
        let i = choose|i: int|
            0 <= i < a.len() && (#[trigger] a[i]).hit_model(r, t_min, t_max) == Some(h);
        assert(b.contains(a[i]));
        let j = choose|j: int| 0 <= j < b.len() && b[j] == a[i];
        assert(b[j].hit_model(r, t_min, t_max) == Some(h));
    }
    if let Some(g) = nearest_hit(b, r, t_min, t_max) {
        let i = choose|i: int|
            0 <= i < b.len() && (#[trigger] b[i]).hit_model(r, t_min, t_max) == Some(g);
        assert(a.contains(b[i]));
        let j = choose|j: int| 0 <= j < a.len() && a[j] == b[i];
        assert(a[j].hit_model(r, t_min, t_max) == Some(g));
    }
}

impl<S: Hit> Hit for &[S] {
    open spec fn hit_model(&self, r: RayModel, t_min: int, t_max: int) -> Option<HitModel> {
        nearest_hit(self@, r, t_min, t_max)
    }

    proof fn hit_model_in_range(&self, r: RayModel, t_min: int, t_max: int) {
        lemma_nearest_hit_is_minimal(self@, r, t_min, t_max);
    }

    /// Tests every object of the list and keeps the nearest hit.
    fn hit(&self, r: &Ray, t_min: Scalar, t_max: Scalar) -> (res: Option<HitRecord>) {
        let mut best: Option<HitRecord> = None;
        let mut i: usize = 0;
        while i < self.len()
            invariant
                i <= self.len(),
                hit_view(best) == nearest_hit(self@.take(i as int), r@, t_min@, t_max@),
            decreases self.len() - i,
        {
            assert(self@.take(i + 1).drop_last() == self@.take(i as int));
            let cur = self[i].hit(r, t_min, t_max);
            best =
            match (best, cur) {
                (Some(b), Some(c)) => if c < b {
                    Some(c)
                } else {
                    Some(b)
                },
                (Some(b), None) => Some(b),
                (None, c) => c,
            };
            i = i + 1;
        }
        assert(self@.take(i as int) == self@);
        best
    }
}

} // verus!
