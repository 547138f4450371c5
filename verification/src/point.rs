//! Points in scene space.

use crate::scalar::Scalar;
use crate::scalar::ZERO;
use crate::scalar::decode;
use crate::vec3::Triple;
use crate::vec3::Vec3;
use vstd::prelude::*;

verus! {

/// A location in scene space.
#[derive(Clone, Copy, Debug)]
pub struct Point3 {
    pub x: Scalar,
    pub y: Scalar,
    pub z: Scalar,
}

impl View for Point3 {
    type V = Triple;

    open spec fn view(&self) -> Triple {
        Triple { x: self.x@, y: self.y@, z: self.z@ }
    }
}

/// The origin of scene space.
pub open spec fn origin() -> Triple {
    Triple { x: decode(ZERO), y: decode(ZERO), z: decode(ZERO) }
}

impl Point3 {
    /// The point with the given coordinates.
    pub fn new(x: Scalar, y: Scalar, z: Scalar) -> (r: Point3)
        ensures
            r == (Point3 { x, y, z }),
    {
        Point3 { x, y, z }
    }

    /// The point moved by `rhs`.
    pub fn add(self, rhs: Vec3) -> (r: Point3)
        ensures
            r@ == self@.plus(rhs@),
    {
        Point3 { x: self.x.add(rhs.x), y: self.y.add(rhs.y), z: self.z.add(rhs.z) }
    }

    /// The vector from the position `rhs` to the point.
    pub fn sub(self, rhs: Vec3) -> (r: Vec3)
        ensures
            r@ == self@.minus(rhs@),
    {
        Vec3 { x: self.x.sub(rhs.x), y: self.y.sub(rhs.y), z: self.z.sub(rhs.z) }
    }

    /// Each coordinate divided by `k`.
    pub fn div(self, k: Scalar) -> (r: Point3)
        ensures
            r@ == self@.over(k@),
    {
        Point3 { x: self.x.div(k), y: self.y.div(k), z: self.z.div(k) }
    }

}

impl From<Point3> for Vec3 {
    /// The point as a position vector.
    fn from(point: Point3) -> (r: Vec3) {
        Vec3 { x: point.x, y: point.y, z: point.z }
    }
}

impl vstd::std_specs::convert::FromSpecImpl<Point3> for Vec3 {
    open spec fn obeys_from_spec() -> bool {
        true
    }

    open spec fn from_spec(point: Point3) -> Vec3 {
        Vec3 { x: point.x, y: point.y, z: point.z }
    }
}

impl Default for Point3 {
    /// The origin.
    fn default() -> (r: Point3)
        ensures
            r@ == origin(),
    {
        Point3 {
            x: Scalar::from_bits(ZERO),
            y: Scalar::from_bits(ZERO),
            z: Scalar::from_bits(ZERO),
        }
    }
}

} // verus!
