//! Rays: half-lines given by an origin and a direction.

use crate::scalar::Scalar;
use crate::vec3::{Vec3, Vec3Model};
use vstd::prelude::*;

verus! {

/// The model of a [`Ray`].
pub struct RayModel {
    pub origin: Vec3Model,
    pub direction: Vec3Model,
}

impl RayModel {
    /// The point `origin + t * direction`.
    pub open spec fn point_at_parameter(self, t: int) -> Vec3Model {
        self.origin.add(self.direction.mul(t))
    }

    /// The dot product of the direction with `v`.
    pub open spec fn dot(self, v: Vec3Model) -> int {
        self.direction.dot(v)
    }
}

/// A ray. The direction need not have unit length.
#[derive(Clone, Copy, Debug)]
pub struct Ray {
    a: Vec3,
    b: Vec3,
}

impl View for Ray {
    type V = RayModel;

    closed spec fn view(&self) -> RayModel {
        RayModel { origin: self.a@, direction: self.b@ }
    }
}

impl Ray {
    pub fn new(origin: Vec3, direction: Vec3) -> (r: Ray)
        ensures
            r@ == (RayModel { origin: origin@, direction: direction@ }),
    {
        Ray { a: origin, b: direction }
    }

    pub fn origin(&self) -> (v: Vec3)
        ensures
            v@ == self@.origin,
    {
        self.a
    }

    pub fn direction(&self) -> (v: Vec3)
        ensures
            v@ == self@.direction,
    {
        self.b
    }

    /// The point `origin + t * direction`.
    pub fn point_at_parameter(&self, t: Scalar) -> (v: Vec3)
        ensures
            v@ == self@.point_at_parameter(t@),
    {
        self.a.add(self.b.mul(t))
    }

    /// The dot product of the direction with `v`.
    pub fn dot(&self, v: &Vec3) -> (d: Scalar)
        ensures
            d@ == self@.dot(v@),
    {
        self.direction().dot(v)
    }
}

} // verus!
