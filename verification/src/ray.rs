//! Rays and what they see.

use crate::color::Color;
use crate::color::Rgba;
use crate::color::opaque;
use crate::hittable::Hittable;
use crate::ieee::format::Value;
use crate::point::Point3;
use crate::scalar::HALF;
use crate::scalar::INFINITY;
use crate::scalar::ONE;
use crate::scalar::Scalar;
use crate::scalar::decode;
use crate::scalar::minus;
use crate::scalar::plus;
use crate::scalar::times;
use crate::scene::Scene;
use crate::scene::SceneModel;
use crate::vec3::Triple;
use crate::vec3::Vec3;
use vstd::prelude::*;

verus! {

/// The encoding of 0.0001: hits nearer than this to a ray's origin are
/// not counted.
pub const NEAR: u32 = 0x38d1_b717;

/// The encoding of 0.7, the green of the sky.
pub const SKY_GREEN: u32 = 0x3f33_3333;

/// What a ray stands for: the points `origin + t * direction`.
pub struct RayModel {
    pub origin: Triple,
    pub direction: Triple,
}

/// The colour of the sky at the zenith.
pub open spec fn sky_blue() -> Rgba {
    opaque(decode(HALF), decode(SKY_GREEN), decode(ONE))
}

/// The colour that shows a normal: a component of -1 is taken to 0, and
/// one of 1 to 1.
pub open spec fn normal_color(normal: Triple) -> Rgba {
    Rgba::white().plus(Rgba::of(normal)).scaled(decode(HALF))
}

impl RayModel {
    /// The point at parameter `t`.
    pub open spec fn at(self, t: Value) -> Triple {
        self.origin.plus(self.direction.scaled(t))
    }

    /// How far up the sky the ray points, from 0 straight down to 1
    /// straight up.
    pub open spec fn elevation(self) -> Value {
        times(decode(HALF), plus(self.direction.normalized().y, decode(ONE)))
    }

    /// The sky behind everything: white below, blending into blue above.
    pub open spec fn background(self) -> Rgba {
        let t = self.elevation();
        Rgba::white().scaled(minus(decode(ONE), t)).plus(sky_blue().scaled(t))
    }

    /// What the ray sees of a scene: the normal of the nearest surface, or
    /// the sky.
    pub open spec fn color(self, scene: SceneModel) -> Rgba {
        match scene.intersection(self, decode(NEAR), decode(INFINITY)) {
            Some(h) => normal_color(h.normal),
            None => self.background(),
        }
    }
}

/// With nothing in the scene, every ray sees the sky.
pub proof fn lemma_empty_scene_shows_sky(ray: RayModel, scene: SceneModel)
    requires
        scene.objects.len() == 0,
    ensures
        ray.color(scene) == ray.background(),
{
}

/// A ray: the points `origin + t * direction`.
pub struct Ray {
    pub origin: Point3,
    pub direction: Vec3,
}

impl View for Ray {
    type V = RayModel;

    open spec fn view(&self) -> RayModel {
        RayModel { origin: self.origin@, direction: self.direction@ }
    }
}

impl Ray {
    /// A ray from `origin` along `direction`, which need not have unit
    /// length.
    pub fn new(origin: Point3, direction: Vec3) -> (r: Ray)
        ensures
            r == (Ray { origin, direction }),
    {
        Ray { origin, direction }
    }

    /// The point at parameter `t`.
    pub fn at(&self, t: Scalar) -> (p: Point3)
        ensures
            p@ == self@.at(t@),
    {
        self.origin.add(self.direction.scale(t))
    }

    /// What the ray sees of `world`: the normal of the nearest surface beyond
    /// 0.0001 along the ray, shown as a colour, or the sky.
    pub fn color(&self, world: &Scene) -> (c: Color)
        ensures
            c@ == self@.color(world@),
    {
        let half = Scalar::from_bits(HALF);
        let one = Scalar::from_bits(ONE);
        match world.hit(self, Scalar::from_bits(NEAR), Scalar::from_bits(INFINITY)) {
            Some(record) => Color::white().add(Color::from_vec3(record.normal)).scale(half),
            None => {
                let unit = self.direction.normalize();
                let t = half.mul(unit.y.add(one));
                let sky = Color::rgb(half, Scalar::from_bits(SKY_GREEN), one);
                Color::white().scale(one.sub(t)).add(sky.scale(t))
            },
        }
    }
}

} // verus!
