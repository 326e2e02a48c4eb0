//! The scene: every surface with its material.
pub mod camera;

use crate::fixed::{Fixed, SCALE};
use crate::geometry::accuracy::is_nearly_unit;
use crate::geometry::hit_accuracy::{
    is_within_reach, lemma_hit_normal_is_unit, lemma_hit_on_sphere, PARAMETER_MAX,
};
use crate::geometry::hittable::{HitResult, Hittable};
use crate::geometry::ray::Ray;
use crate::geometry::sphere::{lemma_sphere_hit, lemma_sphere_hit_narrowed};
use crate::geometry::vector3::Vector3;
use crate::geometry::Geometry;
use crate::material::MaterialKind;
use vstd::prelude::*;

verus! {

/// The surfaces that rays can hit, in the order in which they were added.
pub struct Scene {
    pub objects: Vec<Object>,
}

/// A surface and what it is made of.
#[derive(Clone, Copy, Debug, PartialEq, Eq, Structural)]
pub struct Object {
    pub geometry: Geometry,
    pub material: MaterialKind,
}

impl Scene {
    /// Puts one more surface into the scene, behind those that are there.
    pub fn add(&mut self, geometry: Geometry, material: MaterialKind)
        ensures
            final(self).objects@ == old(self).objects@.push(Object { geometry, material }),
    {
        self.objects.push(Object { geometry, material });
    }

    /// Whether no surface of the scene gives back more light than falls on
    /// it.
    pub open spec fn is_passive(&self) -> bool {
        forall|i: int|
            0 <= i < self.objects@.len() ==> (#[trigger] self.objects@[i]).material.is_passive()
    }

    /// Whether every sphere of the scene lies within reach of `ray` and has
    /// a radius of at least 1/4, or of at most -1/4 where it is turned
    /// inside out: whether what is proved of the accuracy of hits holds of
    /// every hit of the ray in this scene.
    pub open spec fn is_within_reach(&self, ray: &Ray) -> bool {
        forall|i: int|
            0 <= i < self.objects@.len() ==> match (#[trigger] self.objects@[i]).geometry {
                Geometry::Sphere(sphere) => is_within_reach(sphere, *ray) && (SCALE <= 4
                    * sphere.radius.raw || 4 * sphere.radius.raw <= -SCALE),
            }
    }

    /// The nearest hit among the first `n` objects, each asked for the whole
    /// interval `min_t ..= max_t`. Of two hits at the same parameter the one
    /// of the later object stands.
    pub open spec fn nearest(
        objects: Seq<Object>,
        ray: &Ray,
        min_t: Fixed,
        max_t: Fixed,
        n: int,
    ) -> Option<HitResult>
        decreases n,
    {
        if n <= 0 {
            None
        } else {
            let before = Self::nearest(objects, ray, min_t, max_t, n - 1);
            match (objects[n - 1].spec_hit(ray, min_t, max_t), before) {
                (Some(hit), Some(best)) => if hit.t.raw <= best.t.raw {
                    Some(hit)
                } else {
                    Some(best)
                },
                (Some(hit), None) => Some(hit),
                (None, _) => before,
            }
        }
    }
}

impl Hittable for Object {
    open spec fn spec_hit(&self, ray: &Ray, min_t: Fixed, max_t: Fixed) -> Option<HitResult> {
        match self.geometry.spec_hit(ray, min_t, max_t) {
            Some(hit) => Some(
                HitResult {
                    point: hit.point,
                    t: hit.t,
                    normal: hit.normal,
                    front_face: hit.front_face,
                    material: Some(&self.material),
                },
            ),
            None => None,
        }
    }

    fn hit(&self, ray: &Ray, min_t: Fixed, max_t: Fixed) -> (r: Option<HitResult>) {
        if let Some(mut hit_result) = self.geometry.hit(ray, min_t, max_t) {
            hit_result.material = Some(&self.material);
            Some(hit_result)
        } else {
            None
        }
    }
}

impl Hittable for Scene {
    open spec fn spec_hit(&self, ray: &Ray, min_t: Fixed, max_t: Fixed) -> Option<HitResult> {
        Scene::nearest(self.objects@, ray, min_t, max_t, self.objects@.len() as int)
    }

    /// The hit is that of an object of the scene, with the material of
    /// that object, and no object is hit nearer. There is no hit only
    /// where no object is hit. In a scene within reach of the ray, and for
    /// an interval within 128 of zero, the normal of the hit is a unit
    /// vector, between `1 - 4 / 2^32` and 1 long.
    fn hit(&self, ray: &Ray, min_t: Fixed, max_t: Fixed) -> (r: Option<HitResult>)
        ensures
            self.is_within_reach(ray) && -PARAMETER_MAX <= min_t.raw && max_t.raw <= PARAMETER_MAX
                ==> (r matches Some(hit) ==> SCALE - 4 <= hit.normal.len().raw <= SCALE
                && is_nearly_unit(hit.normal)),
            match r {
                Some(hit) => {
                    &&& exists|i: int|
                        0 <= i < self.objects@.len() && #[trigger] self.objects@[i].spec_hit(
                            ray,
                            min_t,
                            max_t,
                        ) == Some(hit)
                    &&& forall|j: int|
                        0 <= j < self.objects@.len() ==> (#[trigger] self.objects@[j].spec_hit(
                            ray,
                            min_t,
                            max_t,
                        ) matches Some(other) ==> hit.t.raw <= other.t.raw)
                },
                None => forall|j: int|
                    0 <= j < self.objects@.len() ==> #[trigger] self.objects@[j].spec_hit(
                        ray,
                        min_t,
                        max_t,
                    ) is None,
            },
    {
        proof {
            lemma_scene_hit_is_nearest(*self, *ray, min_t, max_t);
            if self.is_within_reach(ray) && -PARAMETER_MAX <= min_t.raw && max_t.raw
                <= PARAMETER_MAX {
                lemma_scene_hit_normal_is_unit(*self, *ray, min_t, max_t);
            }
        }
        let mut hit: Option<HitResult> = None;
        let mut i: usize = 0;
        while i < self.objects.len()
            invariant
                i <= self.objects.len(),
                hit == Scene::nearest(self.objects@, ray, min_t, max_t, i as int),
                hit matches Some(h) ==> min_t.raw <= h.t.raw <= max_t.raw,
                hit matches Some(h) ==> Vector3::dot(&ray.direction, &h.normal).raw <= 0,
            decreases self.objects.len() - i,
        {
            let best_t = if let Some(best_hit) = &hit {
                best_hit.t
            } else {
                max_t
            };
            proof {
                lemma_object_hit_narrowed(self.objects@[i as int], *ray, min_t, max_t, best_t);
            }
            if let Some(new_hit) = self.objects[i].hit(ray, min_t, best_t) {
                hit = Some(new_hit);
            }
            i = i + 1;
        }
        hit
    }
}

/// With a smaller upper bound an object gives the same hit where that still
/// lies under the bound, and none otherwise.
pub proof fn lemma_object_hit_narrowed(
    object: Object,
    ray: Ray,
    min_t: Fixed,
    max_t: Fixed,
    bound: Fixed,
)
    requires
        bound.raw <= max_t.raw,
    ensures
        object.spec_hit(&ray, min_t, bound) == match object.spec_hit(&ray, min_t, max_t) {
            Some(h) => if h.t.raw <= bound.raw {
                Some(h)
            } else {
                None
            },
            None => None,
        },
{
    match object.geometry {
        Geometry::Sphere(sphere) => {
            lemma_sphere_hit_narrowed(sphere, ray, min_t, max_t, bound);
        },
    }
}

/// The hit that a scene reports is the hit of one of its objects, and no
/// object is hit at a smaller parameter. A scene reports no hit only where
/// no object is hit.
pub proof fn lemma_scene_hit_is_nearest(scene: Scene, ray: Ray, min_t: Fixed, max_t: Fixed)
    ensures
        match scene.spec_hit(&ray, min_t, max_t) {
            Some(hit) => {
                &&& exists|i: int|
                    0 <= i < scene.objects@.len() && #[trigger] scene.objects@[i].spec_hit(
                        &ray,
                        min_t,
                        max_t,
                    ) == Some(hit)
                &&& forall|j: int|
                    0 <= j < scene.objects@.len() ==> (#[trigger] scene.objects@[j].spec_hit(
                        &ray,
                        min_t,
                        max_t,
                    ) matches Some(other) ==> hit.t.raw <= other.t.raw)
            },
            None => forall|j: int|
                0 <= j < scene.objects@.len() ==> #[trigger] scene.objects@[j].spec_hit(
                    &ray,
                    min_t,
                    max_t,
                ) is None,
        },
{
    lemma_nearest_of_prefix(scene.objects@, ray, min_t, max_t, scene.objects@.len() as int);
}

/// The same of the first `n` objects.
pub proof fn lemma_nearest_of_prefix(
    objects: Seq<Object>,
    ray: Ray,
    min_t: Fixed,
    max_t: Fixed,
    n: int,
)
    requires
        0 <= n <= objects.len(),
    ensures
        match Scene::nearest(objects, &ray, min_t, max_t, n) {
            Some(hit) => {
                &&& exists|i: int|
                    0 <= i < n && #[trigger] objects[i].spec_hit(&ray, min_t, max_t) == Some(hit)
                &&& forall|j: int|
                    0 <= j < n ==> (#[trigger] objects[j].spec_hit(
                        &ray,
                        min_t,
                        max_t,
                    ) matches Some(other) ==> hit.t.raw <= other.t.raw)
            },
            None => forall|j: int|
                0 <= j < n ==> #[trigger] objects[j].spec_hit(&ray, min_t, max_t) is None,
        },
    decreases n,
{
    if n > 0 {
        lemma_nearest_of_prefix(objects, ray, min_t, max_t, n - 1);
    }
}

/// In a scene within reach of a ray, the normal of the hit that the scene
/// reports at a parameter of at most 128 is a unit vector, its length
/// between `1 - 4 / 2^32` and 1.
pub proof fn lemma_scene_hit_normal_is_unit(scene: Scene, ray: Ray, min_t: Fixed, max_t: Fixed)
    requires
        scene.is_within_reach(&ray),
        -PARAMETER_MAX <= min_t.raw,
        max_t.raw <= PARAMETER_MAX,
    ensures
        scene.spec_hit(&ray, min_t, max_t) matches Some(hit) ==> SCALE - 4 <= hit.normal.len().raw
            <= SCALE && is_nearly_unit(hit.normal),
{
    lemma_scene_hit_is_nearest(scene, ray, min_t, max_t);
    if let Some(hit) = scene.spec_hit(&ray, min_t, max_t) {
        let i = choose|i: int|
            0 <= i < scene.objects@.len() && #[trigger] scene.objects@[i].spec_hit(
                &ray,
                min_t,
                max_t,
            ) == Some(hit);
        let object = scene.objects@[i];
        match object.geometry {
            Geometry::Sphere(sphere) => {
                lemma_sphere_hit(sphere, ray, min_t, max_t);
                lemma_hit_on_sphere(sphere, ray, min_t, max_t);
                lemma_hit_normal_is_unit(sphere, ray, min_t, max_t);
            },
        }
    }
}

} // verus!
