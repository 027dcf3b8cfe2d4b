//! A scene: an unordered collection of spheres probed by exhaustive scan.
use crate::fixed::in_range;
use crate::hittable::{hit_record, Hittable};
use crate::ray::Ray;
use crate::vec3::{dot_raw, is_unit_length};
use crate::sphere::{lemma_sphere_hit_narrow, lemma_sphere_hit_record, sphere_hit, Sphere};
use vstd::prelude::*;

verus! {

/// The spheres of a scene.
pub struct HittableList {
    pub objects: Vec<Sphere>,
}

/// The scan of `objs` in order, each sphere probed up to the closest parameter
/// found so far: the closest hit of all, the later sphere winning a tie.
pub open spec fn list_hit(objs: Seq<Sphere>, r: Ray, t_min: int, t_max: int) -> Option<hit_record>
    decreases objs.len(),
{
    if objs.len() == 0 {
        None
    } else {
        let before = list_hit(objs.drop_last(), r, t_min, t_max);
        let closest = match before {
            Some(h) => h.t as int,
            None => t_max,
        };
        match sphere_hit(objs.last(), r, t_min, closest) {
            Some(h) => Some(h),
            None => before,
        }
    }
}

/// The scan finds the closest hit: it reports a hit exactly when some sphere is
/// struck within the interval, that hit is one sphere's own, and no sphere is
/// struck at a smaller parameter.
pub proof fn lemma_closest_hit(objs: Seq<Sphere>, r: Ray, t_min: int, t_max: int)
    requires
        in_range(t_min),
        in_range(t_max),
    ensures
        list_hit(objs, r, t_min, t_max) is Some <==> exists|k: int|
            0 <= k < objs.len() && #[trigger] sphere_hit(objs[k], r, t_min, t_max) is Some,
        list_hit(objs, r, t_min, t_max) matches Some(h) ==> t_min <= h.t <= t_max && exists|k: int|
            0 <= k < objs.len() && #[trigger] sphere_hit(objs[k], r, t_min, t_max) == Some(h),
        forall|k: int|
            0 <= k < objs.len() && #[trigger] sphere_hit(objs[k], r, t_min, t_max) is Some ==> list_hit(
                objs,
                r,
                t_min,
                t_max,
            )->Some_0.t <= sphere_hit(objs[k], r, t_min, t_max)->Some_0.t,
    decreases objs.len(),
{
    if objs.len() > 0 {
        let pre = objs.drop_last();
        let last = objs.last();
        lemma_closest_hit(pre, r, t_min, t_max);
        let before = list_hit(pre, r, t_min, t_max);
        let closest = match before {
            Some(h) => h.t as int,
            None => t_max,
        };
        lemma_sphere_hit_narrow(last, r, t_min, closest, t_max);
        assert forall|k: int| 0 <= k < pre.len() implies #[trigger] objs[k] == pre[k] by {}
        assert(objs[objs.len() - 1] == last);
        let result = list_hit(objs, r, t_min, t_max);
        if result is Some {
            let h = result->Some_0;
            if sphere_hit(last, r, t_min, closest) is Some {
                assert(sphere_hit(objs[objs.len() - 1], r, t_min, t_max) == Some(h));
            } else {
                let k = choose|k: int|
                    0 <= k < pre.len() && #[trigger] sphere_hit(pre[k], r, t_min, t_max) == Some(h);
                assert(sphere_hit(objs[k], r, t_min, t_max) == Some(h));
            }
        }
        assert forall|k: int|
            0 <= k < objs.len() && #[trigger] sphere_hit(objs[k], r, t_min, t_max) is Some implies list_hit(
                objs,
                r,
                t_min,
                t_max,
            )->Some_0.t <= sphere_hit(objs[k], r, t_min, t_max)->Some_0.t by {
            if k < pre.len() {
                assert(sphere_hit(pre[k], r, t_min, t_max) is Some);
            }
        }
        if exists|k: int| 0 <= k < objs.len() && #[trigger] sphere_hit(objs[k], r, t_min, t_max) is Some {
            let k = choose|k: int|
                0 <= k < objs.len() && #[trigger] sphere_hit(objs[k], r, t_min, t_max) is Some;
            if k < pre.len() {
                assert(sphere_hit(pre[k], r, t_min, t_max) is Some);
            }
        }
    }
}

/// A hit on a well-formed scene is a well-formed record, made by a ray with a
/// nonzero direction.
pub proof fn lemma_list_hit_record(objs: Seq<Sphere>, r: Ray, t_min: int, t_max: int)
    requires
        forall|i: int| 0 <= i < objs.len() ==> #[trigger] objs[i].wf(),
        r.wf(),
        in_range(t_min),
        in_range(t_max),
        list_hit(objs, r, t_min, t_max) is Some,
    ensures
        list_hit(objs, r, t_min, t_max)->Some_0.wf(),
        is_unit_length(list_hit(objs, r, t_min, t_max)->Some_0.normal),
        dot_raw(r.dir, list_hit(objs, r, t_min, t_max)->Some_0.normal) <= 0,
        t_min <= list_hit(objs, r, t_min, t_max)->Some_0.t <= t_max,
        !r.dir.is_zero(),
{
    lemma_closest_hit(objs, r, t_min, t_max);
    let h = list_hit(objs, r, t_min, t_max)->Some_0;
    let k = choose|k: int| 0 <= k < objs.len() && #[trigger] sphere_hit(objs[k], r, t_min, t_max) == Some(h);
    lemma_sphere_hit_record(objs[k], r, t_min, t_max);
}

impl HittableList {
    pub open spec fn wf(self) -> bool {
        forall|i: int| 0 <= i < self.objects@.len() ==> #[trigger] self.objects@[i].wf()
    }

    /// An empty scene.
    pub fn new() -> (r: HittableList)
        ensures
            r.objects@ == Seq::<Sphere>::empty(),
            r.wf(),
    {
        HittableList { objects: Vec::new() }
    }

    /// Removes every sphere.
    pub fn clear(&mut self)
        ensures
            final(self).objects@ == Seq::<Sphere>::empty(),
            final(self).wf(),
    {
        self.objects.clear();
    }

    /// Adds a sphere to the scene.
    pub fn add(&mut self, object: Sphere)
        requires
            old(self).wf(),
            object.wf(),
        ensures
            final(self).objects@ == old(self).objects@.push(object),
            final(self).wf(),
    {
        self.objects.push(object);
    }
}

impl Hittable for HittableList {
    open spec fn well_formed(&self) -> bool {
        self.wf()
    }

    open spec fn hit_spec(&self, r: Ray, t_min: int, t_max: int) -> Option<hit_record> {
        list_hit(self.objects@, r, t_min, t_max)
    }

    fn hit(&self, r: &Ray, t_min: i64, t_max: i64, rec: &mut hit_record) -> (b: bool) {
        let mut temp_rec = *rec;
        let mut hit_anything = false;
        let mut closest_so_far = t_max;
        let mut i: usize = 0;
        while i < self.objects.len()
            invariant
                self.wf(),
                r.wf(),
                in_range(t_min as int),
                in_range(t_max as int),
                in_range(closest_so_far as int),
                0 <= i <= self.objects@.len(),
                hit_anything == list_hit(self.objects@.take(i as int), *r, t_min as int, t_max as int) is Some,
                hit_anything ==> temp_rec == list_hit(self.objects@.take(i as int), *r, t_min as int, t_max as int)->Some_0,
                hit_anything ==> closest_so_far == temp_rec.t,
                !hit_anything ==> closest_so_far == t_max,
                !hit_anything ==> temp_rec == *old(rec),
            decreases self.objects@.len() - i,
        {
            assert(self.objects@.take(i + 1).drop_last() == self.objects@.take(i as int));
            assert(self.objects@.take(i + 1).last() == self.objects@[i as int]);
            let object = &self.objects[i];
            proof {
                lemma_sphere_hit_narrow(
                    *object,
                    *r,
                    t_min as int,
                    closest_so_far as int,
                    closest_so_far as int,
                );
            }
            if object.hit(r, t_min, closest_so_far, &mut temp_rec) {
                hit_anything = true;
                closest_so_far = temp_rec.t;
            }
            i = i + 1;
        }
        assert(self.objects@.take(i as int) == self.objects@);
        if hit_anything {
            proof {
                lemma_list_hit_record(self.objects@, *r, t_min as int, t_max as int);
            }
        }
        *rec = temp_rec;
        hit_anything
    }
}

} // verus!
