//! Intersection records and the intersection contract that every surface meets.
use crate::fixed::in_range;
use crate::material::{Lambertian, Material};
use crate::ray::Ray;
use crate::vec3::{dot_raw, dot_wide, is_unit_length, vec_of, vneg, Point3, Vec3};
use vstd::prelude::*;

verus! {

/// Where a ray met a surface: the point, the normal turned against the ray, the
/// ray parameter, whether the ray came from outside, and the surface's material.
#[allow(non_camel_case_types)]
#[derive(Clone, Copy, Debug, PartialEq, Eq, Structural)]
pub struct hit_record {
    pub p: Point3,
    pub normal: Vec3,
    pub t: i64,
    pub front_face: bool,
    pub material: Material,
}

/// The normal that faces `dir`: `outward` when the ray comes from outside
/// (their dot product is negative), else its opposite.
pub open spec fn facing_normal(dir: Vec3, outward: Vec3) -> Vec3 {
    if dot_raw(dir, outward) < 0 {
        outward
    } else {
        vneg(outward)
    }
}

impl hit_record {
    pub open spec fn wf(self) -> bool {
        self.p.wf() && self.normal.wf() && in_range(self.t as int) && self.material.wf()
    }

    /// Orients the normal against the ray `r`, given the surface's outward normal.
    pub fn set_face_normal(&mut self, r: &Ray, outward_normal: Vec3)
        requires
            r.wf(),
            outward_normal.wf(),
        ensures
            final(self).front_face == (dot_raw(r.dir, outward_normal) < 0),
            final(self).normal == facing_normal(r.dir, outward_normal),
            dot_raw(r.dir, final(self).normal) <= 0,
            final(self).p == old(self).p,
            final(self).t == old(self).t,
            final(self).material == old(self).material,
    {
        self.front_face = dot_wide(&r.dir, &outward_normal) < 0;
        self.normal = if self.front_face {
            outward_normal
        } else {
            outward_normal.neg()
        };
        proof {
            let n = outward_normal;
            let m = vneg(n);
            assert(m.x == -n.x && m.y == -n.y && m.z == -n.z);
            assert(dot_raw(r.dir, m) == -dot_raw(r.dir, n)) by (nonlinear_arith)
                requires
                    m.x == -n.x,
                    m.y == -n.y,
                    m.z == -n.z,
            ;
        }
    }

    /// An empty record: zero point, normal and parameter, on a black diffuse surface.
    pub fn new() -> (r: hit_record)
        ensures
            r.p.is_zero(),
            r.normal.is_zero(),
            r.t == 0,
            !r.front_face,
            r.material == (Material::Lambertian(Lambertian { albedo: vec_of(0, 0, 0) })),
            r.wf(),
    {
        hit_record {
            p: Vec3::new(),
            normal: Vec3::new(),
            t: 0,
            front_face: false,
            material: Material::Lambertian(Lambertian::new()),
        }
    }
}

/// A surface that a ray may strike.
pub trait Hittable {
    /// The surface is well formed.
    spec fn well_formed(&self) -> bool;

    /// The record of the closest intersection of `r` with the surface whose
    /// parameter lies in `[t_min, t_max]`, if there is one.
    spec fn hit_spec(&self, r: Ray, t_min: int, t_max: int) -> Option<hit_record>;

    /// Whether `r` strikes the surface at a parameter in `[t_min, t_max]`;
    /// on success `rec` holds the closest such intersection, with a unit normal
    /// turned against the ray; else it is unchanged.
    fn hit(&self, r: &Ray, t_min: i64, t_max: i64, rec: &mut hit_record) -> (b: bool)
        requires
            self.well_formed(),
            r.wf(),
            in_range(t_min as int),
            in_range(t_max as int),
        ensures
            b == self.hit_spec(*r, t_min as int, t_max as int) is Some,
            b ==> *final(rec) == self.hit_spec(*r, t_min as int, t_max as int)->Some_0,
            b ==> is_unit_length(final(rec).normal),
            b ==> dot_raw(r.dir, final(rec).normal) <= 0,
            !b ==> *final(rec) == *old(rec),
    ;
}

} // verus!
