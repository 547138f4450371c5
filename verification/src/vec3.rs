//! Vectors of three single-precision numbers.

use crate::ieee::format::Value;
use crate::scalar::ONE;
use crate::scalar::Scalar;
use crate::scalar::decode;
use crate::scalar::minus;
use crate::scalar::over;
use crate::scalar::plus;
use crate::scalar::sqrt_of;
use crate::scalar::times;
use vstd::prelude::*;

verus! {

/// Three numbers: what a vector or a point stands for.
pub struct Triple {
    pub x: Value,
    pub y: Value,
    pub z: Value,
}

impl Triple {
    /// The sum, component by component.
    pub open spec fn plus(self, rhs: Triple) -> Triple {
        Triple { x: plus(self.x, rhs.x), y: plus(self.y, rhs.y), z: plus(self.z, rhs.z) }
    }

    /// The difference, component by component.
    pub open spec fn minus(self, rhs: Triple) -> Triple {
        Triple { x: minus(self.x, rhs.x), y: minus(self.y, rhs.y), z: minus(self.z, rhs.z) }
    }

    /// Each component times `k`.
    pub open spec fn times(self, k: Value) -> Triple {
        Triple { x: times(self.x, k), y: times(self.y, k), z: times(self.z, k) }
    }

    /// `k` times each component.
    pub open spec fn scaled(self, k: Value) -> Triple {
        Triple { x: times(k, self.x), y: times(k, self.y), z: times(k, self.z) }
    }

    /// Each component divided by `k`.
    pub open spec fn over(self, k: Value) -> Triple {
        Triple { x: over(self.x, k), y: over(self.y, k), z: over(self.z, k) }
    }

    /// The products of the components, summed from `x` to `z`.
    pub open spec fn dot(self, rhs: Triple) -> Value {
        plus(plus(times(self.x, rhs.x), times(self.y, rhs.y)), times(self.z, rhs.z))
    }

    /// The vector dotted with itself.
    pub open spec fn length_squared(self) -> Value {
        self.dot(self)
    }

    /// The square root of the squared length.
    pub open spec fn length(self) -> Value {
        sqrt_of(self.length_squared())
    }

    /// The vector times the reciprocal of its length.
    pub open spec fn normalized(self) -> Triple {
        self.times(over(decode(ONE), self.length()))
    }
}

/// A direction or displacement.
#[derive(Clone, Copy, Debug)]
pub struct Vec3 {
    pub x: Scalar,
    pub y: Scalar,
    pub z: Scalar,
}

impl View for Vec3 {
    type V = Triple;

    open spec fn view(&self) -> Triple {
        Triple { x: self.x@, y: self.y@, z: self.z@ }
    }
}

impl Vec3 {
    /// The vector with the given components.
    pub fn new(x: Scalar, y: Scalar, z: Scalar) -> (r: Vec3)
        ensures
            r == (Vec3 { x, y, z }),
    {
        Vec3 { x, y, z }
    }

    /// The sum, component by component.
    pub fn add(self, rhs: Vec3) -> (r: Vec3)
        ensures
            r@ == self@.plus(rhs@),
    {
        Vec3 { x: self.x.add(rhs.x), y: self.y.add(rhs.y), z: self.z.add(rhs.z) }
    }

    /// The difference, component by component.
    pub fn sub(self, rhs: Vec3) -> (r: Vec3)
        ensures
            r@ == self@.minus(rhs@),
    {
        Vec3 { x: self.x.sub(rhs.x), y: self.y.sub(rhs.y), z: self.z.sub(rhs.z) }
    }

    /// `self * k`, component by component.
    pub fn mul(self, k: Scalar) -> (r: Vec3)
        ensures
            r@ == self@.times(k@),
    {
        Vec3 { x: self.x.mul(k), y: self.y.mul(k), z: self.z.mul(k) }
    }

    /// `k * self`, component by component.
    pub fn scale(self, k: Scalar) -> (r: Vec3)
        ensures
            r@ == self@.scaled(k@),
    {
        Vec3 { x: k.mul(self.x), y: k.mul(self.y), z: k.mul(self.z) }
    }

    /// Each component divided by `k`.
    pub fn div(self, k: Scalar) -> (r: Vec3)
        ensures
            r@ == self@.over(k@),
    {
        Vec3 { x: self.x.div(k), y: self.y.div(k), z: self.z.div(k) }
    }

    /// The products of the components, summed from `x` to `z`.
    pub fn dot(self, rhs: Vec3) -> (r: Scalar)
        ensures
            r@ == self@.dot(rhs@),
    {
        self.x.mul(rhs.x).add(self.y.mul(rhs.y)).add(self.z.mul(rhs.z))
    }

    /// The vector dotted with itself.
    pub fn length_squared(self) -> (r: Scalar)
        ensures
            r@ == self@.length_squared(),
    {
        self.dot(self)
    }

    /// The square root of the squared length.
    pub fn length(self) -> (r: Scalar)
        ensures
            r@ == self@.length(),
    {
        self.dot(self).sqrt()
    }

    /// The vector scaled towards unit length: each component times the
    /// reciprocal of the length. The length must not be zero for the result
    /// to be a direction.
    pub fn normalize(self) -> (r: Vec3)
        ensures
            r@ == self@.normalized(),
    {
        self.mul(Scalar::from_bits(ONE).div(self.length()))
    }
}

} // verus!
