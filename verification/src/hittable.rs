//! Things a ray can hit.

use crate::ieee::add::negation;
use crate::ieee::format::Value;
use crate::point::Point3;
use crate::ray::Ray;
use crate::ray::RayModel;
use crate::scalar::FOUR;
use crate::scalar::Scalar;
use crate::scalar::TWO;
use crate::scalar::ZERO;
use crate::scalar::decode;
use crate::scalar::less;
use crate::scalar::minus;
use crate::scalar::over;
use crate::scalar::plus;
use crate::scalar::sqrt_of;
use crate::scalar::times;
use crate::vec3::Triple;
use crate::vec3::Vec3;
use vstd::prelude::*;

verus! {

/// What a hit stands for: where the ray met the surface, the outward
/// normal there, and the ray's parameter.
pub struct HitModel {
    pub point: Triple,
    pub normal: Triple,
    pub t: Value,
}

/// A hit: the point, the outward normal of the surface there, and the
/// ray's parameter. It is made only when a ray meets a surface, and handed
/// to the caller.
pub struct HitRecord {
    pub point: Point3,
    pub normal: Vec3,
    pub t: Scalar,
}

impl View for HitRecord {
    type V = HitModel;

    open spec fn view(&self) -> HitModel {
        HitModel { point: self.point@, normal: self.normal@, t: self.t@ }
    }
}

impl HitRecord {
    /// A hit at `point`.
    pub fn new(point: Point3, normal: Vec3, t: Scalar) -> (r: HitRecord)
        ensures
            r == (HitRecord { point, normal, t }),
    {
        HitRecord { point, normal, t }
    }
}

/// What a hit or a miss stands for.
pub open spec fn outcome(r: Option<HitRecord>) -> Option<HitModel> {
    match r {
        Some(h) => Some(h@),
        None => None,
    }
}

/// `t_min < t < t_max`.
pub open spec fn within(t: Value, t_min: Value, t_max: Value) -> bool {
    less(t_min, t) && less(t, t_max)
}

/// What a ray can hit.
pub trait Hittable {
    /// Where a ray first meets the object, for parameters strictly between
    /// `t_min` and `t_max`.
    spec fn intersection(&self, ray: RayModel, t_min: Value, t_max: Value) -> Option<HitModel>;

    /// The nearest hit with `t_min < t < t_max`, if there is one.
    fn hit(&self, ray: &Ray, t_min: Scalar, t_max: Scalar) -> (r: Option<HitRecord>)
        ensures
            outcome(r) == self.intersection(ray@, t_min@, t_max@),
            r matches Some(h) ==> within(h.t@, t_min@, t_max@),
    ;
}

/// What a sphere stands for.
pub struct SphereModel {
    pub center: Triple,
    pub radius: Value,
}

impl SphereModel {
    /// The coefficient of `t^2` in the equation of the ray's meeting the
    /// sphere.
    pub open spec fn quadratic_a(self, ray: RayModel) -> Value {
        ray.direction.length_squared()
    }

    /// The coefficient of `t`.
    pub open spec fn quadratic_b(self, ray: RayModel) -> Value {
        times(decode(TWO), ray.origin.minus(self.center).dot(ray.direction))
    }

    /// The constant term.
    pub open spec fn quadratic_c(self, ray: RayModel) -> Value {
        minus(ray.origin.minus(self.center).length_squared(), times(self.radius, self.radius))
    }

    /// `b^2 - 4ac`: positive where the ray passes through the sphere.
    pub open spec fn discriminant(self, ray: RayModel) -> Value {
        let a = self.quadratic_a(ray);
        let b = self.quadratic_b(ray);
        let c = self.quadratic_c(ray);
        minus(times(b, b), times(times(decode(FOUR), a), c))
    }

    /// The lesser root, where the ray enters the sphere.
    pub open spec fn near_root(self, ray: RayModel) -> Value {
        let a = self.quadratic_a(ray);
        let b = self.quadratic_b(ray);
        over(minus(negation(b), sqrt_of(self.discriminant(ray))), times(decode(TWO), a))
    }

    /// The greater root, where the ray leaves the sphere.
    pub open spec fn far_root(self, ray: RayModel) -> Value {
        let a = self.quadratic_a(ray);
        let b = self.quadratic_b(ray);
        over(plus(negation(b), sqrt_of(self.discriminant(ray))), times(decode(TWO), a))
    }

    /// The root that counts: the near one if it lies beyond `t_min`, else
    /// the far one if that does. A ray that only touches the sphere misses
    /// it.
    pub open spec fn candidate(self, ray: RayModel, t_min: Value) -> Option<Value> {
        if less(decode(ZERO), self.discriminant(ray)) {
            if less(t_min, self.near_root(ray)) {
                Some(self.near_root(ray))
            } else if less(t_min, self.far_root(ray)) {
                Some(self.far_root(ray))
            } else {
                None
            }
        } else {
            None
        }
    }

    /// The hit at parameter `t`: the point there, and the normal that
    /// points from the center to it.
    pub open spec fn hit_at(self, ray: RayModel, t: Value) -> HitModel {
        let p = ray.at(t);
        HitModel { point: p, normal: p.minus(self.center).over(self.radius), t }
    }

    /// The hit at the root that counts, if that root also lies before
    /// `t_max`. The far root is not tried when the near one lies beyond
    /// `t_max`.
    pub open spec fn intersection(self, ray: RayModel, t_min: Value, t_max: Value) -> Option<
        HitModel,
    > {
        match self.candidate(ray, t_min) {
            Some(t) => if within(t, t_min, t_max) {
                Some(self.hit_at(ray, t))
            } else {
                None
            },
            None => None,
        }
    }
}

/// A sphere reports no hit outside the open interval it was asked for.
pub proof fn lemma_sphere_hit_within(s: SphereModel, ray: RayModel, t_min: Value, t_max: Value)
    ensures
        s.intersection(ray, t_min, t_max) matches Some(h) ==> within(h.t, t_min, t_max),
{
}

/// A hit stays the same hit under any upper bound beyond it, and
/// disappears under any other.
pub proof fn lemma_sphere_hit_bound(
    s: SphereModel,
    ray: RayModel,
    t_min: Value,
    t_max: Value,
    bound: Value,
)
    ensures
        s.intersection(ray, t_min, t_max) matches Some(h) ==> s.intersection(ray, t_min, bound)
            == if less(h.t, bound) {
            Some(h)
        } else {
            None
        },
{
}

/// A sphere. The center is a position; the radius is expected to be
/// positive, and is not checked.
pub struct Sphere {
    pub center: Vec3,
    pub radius: Scalar,
}

impl View for Sphere {
    type V = SphereModel;

    open spec fn view(&self) -> SphereModel {
        SphereModel { center: self.center@, radius: self.radius@ }
    }
}

impl Sphere {
    /// A sphere; the radius is expected to be positive.
    pub fn new(center: Vec3, radius: Scalar) -> (s: Sphere)
        ensures
            s == (Sphere { center, radius }),
    {
        Sphere { center, radius }
    }
}

impl Hittable for Sphere {
    open spec fn intersection(&self, ray: RayModel, t_min: Value, t_max: Value) -> Option<
        HitModel,
    > {
        self@.intersection(ray, t_min, t_max)
    }

    fn hit(&self, ray: &Ray, t_min: Scalar, t_max: Scalar) -> (r: Option<HitRecord>) {
        let two = Scalar::from_bits(TWO);
        let oc = ray.origin.sub(self.center);
        let a = ray.direction.length_squared();
        let b = two.mul(oc.dot(ray.direction));
        let c = oc.length_squared().sub(self.radius.mul(self.radius));
        let discriminant = b.mul(b).sub(Scalar::from_bits(FOUR).mul(a).mul(c));
        if discriminant.gt(Scalar::from_bits(ZERO)) {
            let sqrt = discriminant.sqrt();
            let r1 = b.neg().sub(sqrt).div(two.mul(a));
            let r2 = b.neg().add(sqrt).div(two.mul(a));
            let t = if r1.gt(t_min) {
                r1
            } else if r2.gt(t_min) {
                r2
            } else {
                return None;
            };
            if t.lt(t_max) && t.gt(t_min) {
                let p = ray.at(t);
                let normal = p.sub(self.center).div(self.radius);
                return Some(HitRecord::new(p, normal, t));
            }
        }
        None
    }
}

} // verus!
