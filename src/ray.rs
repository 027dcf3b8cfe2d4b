//! Rays: an origin and a direction, not necessarily of unit length.
use crate::fixed::in_range;
use crate::vec3::{vadd, vscale, Point3, Vec3};
use vstd::prelude::*;

verus! {

/// The half-line `orig + t * dir`.
#[derive(Clone, Copy, Debug, PartialEq, Eq, Structural)]
pub struct Ray {
    pub orig: Point3,
    pub dir: Vec3,
}

impl Ray {
    pub open spec fn wf(self) -> bool {
        self.orig.wf() && self.dir.wf()
    }

    /// A ray from the origin with a zero direction.
    pub fn new() -> (r: Ray)
        ensures
            r.orig.is_zero(),
            r.dir.is_zero(),
            r.wf(),
    {
        Ray { orig: Vec3::new(), dir: Vec3::new() }
    }

    pub fn new_with_values(origin: Point3, direction: Vec3) -> (r: Ray)
        ensures
            r.orig == origin,
            r.dir == direction,
    {
        Ray { orig: origin, dir: direction }
    }

    pub fn origin(&self) -> (r: Point3)
        ensures
            r == self.orig,
    {
        self.orig
    }

    pub fn direction(&self) -> (r: Vec3)
        ensures
            r == self.dir,
    {
        self.dir
    }

    /// The point at parameter `t`.
    pub fn at(&self, t: i64) -> (r: Point3)
        requires
            self.wf(),
            in_range(t as int),
        ensures
            r == ray_at(*self, t as int),
            r.wf(),
    {
        self.orig.add(self.dir.scale(t))
    }
}

/// The point of `r` at parameter `t`.
pub open spec fn ray_at(r: Ray, t: int) -> Point3 {
    vadd(r.orig, vscale(r.dir, t))
}

} // verus!
