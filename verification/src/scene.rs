//! Scenes: the things to draw, and the size of the picture.

use crate::hittable::HitModel;
use crate::hittable::HitRecord;
use crate::hittable::Hittable;
use crate::hittable::Sphere;
use crate::hittable::SphereModel;
use crate::hittable::lemma_sphere_hit_bound;
use crate::hittable::lemma_sphere_hit_within;
use crate::hittable::outcome;
use crate::hittable::within;
use crate::ieee::format::Value;
use crate::ray::Ray;
use crate::ray::RayModel;
use crate::scalar::Scalar;
use crate::scalar::less;
use crate::vec3::Vec3;
use vstd::prelude::*;

verus! {

/// The upper bound left for the objects still to come: the parameter of
/// the hit found so far, or the caller's bound.
pub open spec fn bound_after(found: Option<HitModel>, t_max: Value) -> Value {
    match found {
        Some(h) => h.t,
        None => t_max,
    }
}

/// The hit that going through `objects` in order arrives at: each object
/// is asked for a hit strictly nearer than the one found so far.
pub open spec fn nearest(objects: Seq<SphereModel>, ray: RayModel, t_min: Value, t_max: Value)
    -> Option<HitModel>
    decreases objects.len(),
{
    if objects.len() == 0 {
        None
    } else {
        let found = nearest(objects.drop_last(), ray, t_min, t_max);
        match objects.last().intersection(ray, t_min, bound_after(found, t_max)) {
            Some(h) => Some(h),
            None => found,
        }
    }
}

/// What a scene stands for.
pub struct SceneModel {
    pub objects: Seq<SphereModel>,
    pub width: nat,
    pub height: nat,
}

impl SceneModel {
    /// The nearest hit of any object, for parameters strictly between `t_min`
    /// and `t_max`.
    pub open spec fn intersection(self, ray: RayModel, t_min: Value, t_max: Value) -> Option<
        HitModel,
    > {
        nearest(self.objects, ray, t_min, t_max)
    }
}

/// A scene reports no hit outside the open interval it was asked for.
pub proof fn lemma_nearest_within(
    objects: Seq<SphereModel>,
    ray: RayModel,
    t_min: Value,
    t_max: Value,
)
    ensures
        nearest(objects, ray, t_min, t_max) matches Some(h) ==> within(h.t, t_min, t_max),
    decreases objects.len(),
{
    if objects.len() > 0 {
        let found = nearest(objects.drop_last(), ray, t_min, t_max);
        lemma_nearest_within(objects.drop_last(), ray, t_min, t_max);
        lemma_sphere_hit_within(objects.last(), ray, t_min, bound_after(found, t_max));
    }
}

/// `h` is the hit of object `j`, strictly nearer than the hits of the
/// objects before it and no farther than any other.
pub open spec fn is_first_nearest(
    objects: Seq<SphereModel>,
    ray: RayModel,
    t_min: Value,
    t_max: Value,
    h: HitModel,
    j: int,
) -> bool {
    &&& 0 <= j < objects.len()
    &&& objects[j].intersection(ray, t_min, t_max) == Some(h)
    &&& forall|i: int|
        0 <= i < objects.len() ==> (#[trigger] objects[i].intersection(ray, t_min, t_max)
            matches Some(other) ==> !less(other.t, h.t) && (i < j ==> less(h.t, other.t)))
}

/// A scene's hit is the nearest of its objects' hits, and of several
/// equally near the one of the object that comes first; it misses only
/// if every object does.
pub proof fn lemma_nearest_is_nearest(
    objects: Seq<SphereModel>,
    ray: RayModel,
    t_min: Value,
    t_max: Value,
)
    ensures
        match nearest(objects, ray, t_min, t_max) {
            Some(h) => exists|j: int| is_first_nearest(objects, ray, t_min, t_max, h, j),
            None => forall|i: int|
                0 <= i < objects.len() ==> #[trigger] objects[i].intersection(ray, t_min, t_max)
                    is None,
        },
    decreases objects.len(),
{
    if objects.len() > 0 {
        let init = objects.drop_last();
        let last = objects.last();
        let n = init.len() as int;
        let found = nearest(init, ray, t_min, t_max);
        let bound = bound_after(found, t_max);
        lemma_nearest_is_nearest(init, ray, t_min, t_max);
        lemma_nearest_within(init, ray, t_min, t_max);
        lemma_sphere_hit_bound(last, ray, t_min, t_max, bound);
        lemma_sphere_hit_within(last, ray, t_min, t_max);
        lemma_sphere_hit_within(last, ray, t_min, bound);
        assert forall|i: int| 0 <= i < n implies #[trigger] objects[i] == init[i] by {}
        assert forall|i: int| 0 <= i < n implies (#[trigger] objects[i].intersection(
            ray,
            t_min,
            t_max,
        ) matches Some(other) ==> within(other.t, t_min, t_max)) by {
            lemma_sphere_hit_within(objects[i], ray, t_min, t_max);
        }
        match found {
            None => {
                match last.intersection(ray, t_min, t_max) {
                    Some(h) => {
                        assert(is_first_nearest(objects, ray, t_min, t_max, h, n));
                    },
                    None => {},
                }
            },
            Some(h0) => {
                let j0 = choose|j: int| is_first_nearest(init, ray, t_min, t_max, h0, j);
                match last.intersection(ray, t_min, bound) {
                    Some(h) => {
                        assert(last.intersection(ray, t_min, t_max) == Some(h));
                        assert(is_first_nearest(objects, ray, t_min, t_max, h, n));
                    },
                    None => {
                        assert(is_first_nearest(objects, ray, t_min, t_max, h0, j0));
                    },
                }
            },
        }
    }
}

/// The objects to draw, in the order they were added, and the width and
/// height of the picture in pixels.
pub struct Scene {
    pub objects: Vec<Sphere>,
    pub dimensions: (u32, u32),
}

impl View for Scene {
    type V = SceneModel;

    open spec fn view(&self) -> SceneModel {
        SceneModel {
            objects: self.objects@.map_values(|s: Sphere| s@),
            width: self.dimensions.0 as nat,
            height: self.dimensions.1 as nat,
        }
    }
}

impl Scene {
    /// An empty scene for a picture of the given width and height.
    pub fn new(dimensions: (u32, u32)) -> (s: Scene)
        ensures
            s@.objects.len() == 0,
            s.dimensions == dimensions,
    {
        Scene { objects: Vec::new(), dimensions }
    }

    /// Adds a sphere after those already there.
    pub fn add_sphere(&mut self, center: Vec3, radius: Scalar)
        ensures
            final(self)@.objects == old(self)@.objects.push(
                SphereModel { center: center@, radius: radius@ },
            ),
            final(self).dimensions == old(self).dimensions,
    {
        self.objects.push(Sphere::new(center, radius));
        assert(self@.objects =~= old(self)@.objects.push(
            SphereModel { center: center@, radius: radius@ },
        ));
    }
}

impl Hittable for Scene {
    open spec fn intersection(&self, ray: RayModel, t_min: Value, t_max: Value) -> Option<
        HitModel,
    > {
        self@.intersection(ray, t_min, t_max)
    }

    fn hit(&self, ray: &Ray, t_min: Scalar, t_max: Scalar) -> (r: Option<HitRecord>) {
        let mut closest_so_far = t_max;
        let mut hit_record: Option<HitRecord> = None;
        let mut i: usize = 0;
        let ghost models = self@.objects;
        assert(models.take(0) =~= Seq::<SphereModel>::empty());
        while i < self.objects.len()
            invariant
                i <= self.objects.len(),
                models == self@.objects,
                models.len() == self.objects.len(),
                outcome(hit_record) == nearest(models.take(i as int), ray@, t_min@, t_max@),
                closest_so_far@ == bound_after(outcome(hit_record), t_max@),
            decreases self.objects.len() - i,
        {
            proof {
                assert(models.take(i + 1).drop_last() =~= models.take(i as int));
                assert(models.take(i + 1).last() == self.objects[i as int]@);
            }
            match self.objects[i].hit(ray, t_min, closest_so_far) {
                Some(record) => {
                    closest_so_far = record.t;
                    hit_record = Some(record);
                },
                None => {},
            }
            i = i + 1;
        }
        proof {
            assert(models.take(i as int) =~= models);
            lemma_nearest_within(models, ray@, t_min@, t_max@);
        }
        hit_record
    }
}

} // verus!
