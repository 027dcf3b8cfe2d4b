//! Spheres, the one shape of a scene.
use crate::fixed::{
    floor_sqrt, in_range, isqrt, lemma_mul_bound, lemma_quot_bound, quot, quot_wide, saturate,
    saturate_wide, LIMIT, ONE,
};
use crate::hittable::{facing_normal, hit_record, Hittable};
use crate::material::Material;
use crate::ray::{ray_at, Ray};
use crate::vec3::{
    dot_raw, dot_wide, is_unit_length, lemma_unit_vector_length, vneg, vsub, vunit, Point3, Vec3,
};
use vstd::prelude::*;

verus! {

/// A sphere of positive radius with its material.
#[derive(Clone, Copy, Debug, PartialEq, Eq, Structural)]
pub struct Sphere {
    pub center: Point3,
    pub radius: i64,
    pub mat_ptr: Material,
}

/// The outward unit normal of sphere `s` at the point `p`: the offset from the
/// centre, normalised (in exact arithmetic the offset divided by the radius).
/// Should rounding put `p` on the centre itself, the normal is taken against
/// the ray's direction `dir`.
pub open spec fn outward_normal(s: Sphere, p: Point3, dir: Vec3) -> Vec3 {
    if vsub(p, s.center).is_zero() {
        vneg(vunit(dir))
    } else {
        vunit(vsub(p, s.center))
    }
}

/// The record of `r` meeting sphere `s` at parameter `t`.
pub open spec fn record_at(s: Sphere, r: Ray, t: int) -> hit_record {
    let p = ray_at(r, t);
    let outward = outward_normal(s, p, r.dir);
    hit_record {
        p,
        normal: facing_normal(r.dir, outward),
        t: t as i64,
        front_face: dot_raw(r.dir, outward) < 0,
        material: s.mat_ptr,
    }
}

/// `|D|^2`, the leading coefficient of the sphere's quadratic in `t`, rounded
/// toward zero to the fixed-point grid: it is zero for every direction shorter
/// than `10^-6` (squared raw length below `ONE`).
pub open spec fn coef_a(r: Ray) -> int {
    quot(dot_raw(r.dir, r.dir), ONE as int)
}

/// `(O - C) . D`, half the middle coefficient.
pub open spec fn coef_half_b(center: Point3, r: Ray) -> int {
    quot(dot_raw(vsub(r.orig, center), r.dir), ONE as int)
}

/// `|O - C|^2 - r^2`, the constant coefficient.
pub open spec fn coef_c(center: Point3, radius: int, r: Ray) -> int {
    let oc = vsub(r.orig, center);
    quot(dot_raw(oc, oc) - radius * radius, ONE as int)
}

/// The quarter discriminant `half_b^2 - a c`.
pub open spec fn discriminant(center: Point3, radius: int, r: Ray) -> int {
    coef_half_b(center, r) * coef_half_b(center, r) - coef_a(r) * coef_c(center, radius, r)
}

/// The smaller root `(-half_b - sqrt(disc)) / a`.
pub open spec fn near_root(center: Point3, radius: int, r: Ray) -> int {
    quot((-coef_half_b(center, r) - floor_sqrt(discriminant(center, radius, r))) * ONE, coef_a(r))
}

/// The larger root `(-half_b + sqrt(disc)) / a`.
pub open spec fn far_root(center: Point3, radius: int, r: Ray) -> int {
    quot((-coef_half_b(center, r) + floor_sqrt(discriminant(center, radius, r))) * ONE, coef_a(r))
}

/// Where `r` meets `s` within `[t_min, t_max]`: the nearer root if it lies
/// there, else the farther one if it does, else nowhere. The coefficients are
/// formed on the fixed-point grid, so a ray whose direction is shorter than
/// `10^-6` meets nothing (see [`coef_a`]), and neither does one whose line
/// misses the sphere. Longer directions need not be normalised.
#[verifier::opaque]
pub open spec fn sphere_hit(s: Sphere, r: Ray, t_min: int, t_max: int) -> Option<hit_record> {
    if coef_a(r) <= 0 || discriminant(s.center, s.radius as int, r) < 0 {
        None
    } else if t_min <= near_root(s.center, s.radius as int, r) <= t_max {
        Some(record_at(s, r, near_root(s.center, s.radius as int, r)))
    } else if t_min <= far_root(s.center, s.radius as int, r) <= t_max {
        Some(record_at(s, r, far_root(s.center, s.radius as int, r)))
    } else {
        None
    }
}

/// The nearer root never exceeds the farther one.
proof fn lemma_roots_ordered(s: Sphere, r: Ray)
    requires
        coef_a(r) > 0,
        discriminant(s.center, s.radius as int, r) >= 0,
    ensures
        near_root(s.center, s.radius as int, r) <= far_root(s.center, s.radius as int, r),
{
    let sq = floor_sqrt(discriminant(s.center, s.radius as int, r));
    crate::fixed::lemma_floor_sqrt_exists(discriminant(s.center, s.radius as int, r));
    let hb = coef_half_b(s.center, r);
    assert((-hb - sq) * ONE <= (-hb + sq) * ONE) by (nonlinear_arith)
        requires
            sq >= 0,
            ONE > 0,
    ;
    crate::fixed::lemma_quot_monotone((-hb - sq) * ONE, (-hb + sq) * ONE, coef_a(r));
}

/// The record at an in-range parameter is well formed, with the normal turned
/// against the ray.
proof fn lemma_record_at(s: Sphere, r: Ray, t: int)
    requires
        s.wf(),
        r.wf(),
        !r.dir.is_zero(),
        in_range(t),
    ensures
        record_at(s, r, t).wf(),
        dot_raw(r.dir, record_at(s, r, t).normal) <= 0,
        is_unit_length(record_at(s, r, t).normal),
{
    let p = ray_at(r, t);
    let d = vsub(p, s.center);
    lemma_unit_vector_length(r.dir);
    if !d.is_zero() {
        lemma_unit_vector_length(d);
    }
    let outward = outward_normal(s, p, r.dir);
    assert(is_unit_length(outward)) by {
        if d.is_zero() {
            crate::vec3::lemma_neg_length(vunit(r.dir));
        }
    }
    assert(outward.wf());
    let m = vneg(outward);
    assert(dot_raw(r.dir, m) == -dot_raw(r.dir, outward)) by (nonlinear_arith)
        requires
            m.x == -outward.x,
            m.y == -outward.y,
            m.z == -outward.z,
    ;
    crate::vec3::lemma_neg_length(outward);
}

/// What a hit on a sphere records: a parameter in the interval, the normal
/// turned against the ray, and the sphere's material; and only a ray with a
/// nonzero direction hits.
pub proof fn lemma_sphere_hit_record(s: Sphere, r: Ray, t_min: int, t_max: int)
    requires
        s.wf(),
        r.wf(),
        in_range(t_min),
        in_range(t_max),
        sphere_hit(s, r, t_min, t_max) is Some,
    ensures
        ({
            let h = sphere_hit(s, r, t_min, t_max)->Some_0;
            &&& h == record_at(s, r, h.t as int)
            &&& t_min <= h.t <= t_max
            &&& dot_raw(r.dir, h.normal) <= 0
            &&& h.material == s.mat_ptr
            &&& h.wf()
            &&& is_unit_length(h.normal)
            &&& !r.dir.is_zero()
        }),
{
    reveal(sphere_hit);
    let h = sphere_hit(s, r, t_min, t_max)->Some_0;
    if r.dir.is_zero() {
        assert(dot_raw(r.dir, r.dir) == 0);
    }
    lemma_record_at(s, r, h.t as int);
}

/// Narrowing the far end of the interval to `c` keeps a hit at or before `c`,
/// drops one beyond it, and adds none.
pub proof fn lemma_sphere_hit_narrow(s: Sphere, r: Ray, t_min: int, c: int, t_max: int)
    requires
        in_range(t_min),
        in_range(c),
        in_range(t_max),
        c <= t_max,
    ensures
        sphere_hit(s, r, t_min, c) matches Some(h) ==> t_min <= h.t <= c,
        sphere_hit(s, r, t_min, c) matches Some(h) ==> sphere_hit(s, r, t_min, t_max) == Some(h),
        sphere_hit(s, r, t_min, t_max) matches Some(g) ==> (if g.t <= c {
            sphere_hit(s, r, t_min, c) == Some(g)
        } else {
            sphere_hit(s, r, t_min, c) is None
        }),
{
    reveal(sphere_hit);
    if coef_a(r) > 0 && discriminant(s.center, s.radius as int, r) >= 0 {
        lemma_roots_ordered(s, r);
    }
}

/// A ray that leaves a point of a sphere's surface in a direction that does not
/// point inward (in particular, outward along the normal) meets the sphere
/// nowhere at a positive parameter.
pub proof fn lemma_leaving_surface_misses(s: Sphere, o: Point3, dir: Vec3, t_min: int, t_max: int)
    requires
        s.wf(),
        o.wf(),
        dir.wf(),
        dot_raw(vsub(o, s.center), vsub(o, s.center)) == s.radius * s.radius,
        dot_raw(vsub(o, s.center), dir) >= 0,
        t_min > 0,
    ensures
        sphere_hit(s, (Ray { orig: o, dir }), t_min, t_max) is None,
{
    reveal(sphere_hit);
    let r = Ray { orig: o, dir };
    let a = coef_a(r);
    let hb = coef_half_b(s.center, r);
    let one = ONE as int;
    assert(coef_c(s.center, s.radius as int, r) == 0);
    lemma_quot_bound(dot_raw(vsub(o, s.center), dir), one, dot_raw(vsub(o, s.center), dir));
    assert(hb >= 0);
    if a > 0 {
        let disc = discriminant(s.center, s.radius as int, r);
        assert(disc == hb * hb);
        assert(crate::fixed::is_floor_sqrt(hb * hb, hb)) by (nonlinear_arith)
            requires
                hb >= 0,
        ;
        crate::fixed::lemma_floor_sqrt_is(hb * hb, hb);
        assert((-hb - hb) * one <= 0) by (nonlinear_arith)
            requires
                hb >= 0,
                one > 0,
        ;
        lemma_quot_bound((-hb - hb) * one, a, -((-hb - hb) * one));
        assert(near_root(s.center, s.radius as int, r) <= 0);
        assert(far_root(s.center, s.radius as int, r) == 0);
    }
}

/// The nearer parameter at which `r` meets the sphere of centre `center` and
/// radius `radius`, or `-1` where it misses it or its direction vanishes.
pub fn hit_sphere(center: &Point3, radius: i64, r: &Ray) -> (t: i64)
    requires
        center.wf(),
        0 < radius <= LIMIT,
        r.wf(),
    ensures
        t == if coef_a(*r) <= 0 || discriminant(*center, radius as int, *r) < 0 {
            -ONE
        } else {
            saturate(near_root(*center, radius as int, *r))
        },
{
    let oc = r.orig.sub(*center);
    let dd = dot_wide(&r.dir, &r.dir);
    let ob = dot_wide(&oc, &r.dir);
    let oo = dot_wide(&oc, &oc);
    proof {
        lemma_mul_bound(radius as int, radius as int, LIMIT as int, LIMIT as int);
        lemma_quot_bound(dd as int, ONE as int, 3 * LIMIT * LIMIT);
        lemma_quot_bound(ob as int, ONE as int, 3 * LIMIT * LIMIT);
        lemma_quot_bound(oo - radius * radius, ONE as int, 4 * LIMIT * LIMIT);
    }
    let a = quot_wide(dd, ONE as i128);
    let half_b = quot_wide(ob, ONE as i128);
    let c = quot_wide(oo - radius as i128 * radius as i128, ONE as i128);
    proof {
        lemma_mul_bound(half_b as int, half_b as int, 6_750_000_000_000_000_000, 6_750_000_000_000_000_000);
        lemma_mul_bound(a as int, c as int, 6_750_000_000_000_000_000, 9_000_000_000_000_000_000);
    }
    let discriminant = half_b * half_b - a * c;
    if a <= 0 || discriminant < 0 {
        return -ONE;
    }
    let sqrtd = isqrt(discriminant as u128);
    assert(sqrtd <= 11_000_000_000_000_000_000) by (nonlinear_arith)
        requires
            sqrtd * sqrtd <= discriminant,
            discriminant <= 107_000_000_000_000_000_000_000_000_000_000_000_000int,
            sqrtd >= 0,
    ;
    saturate_wide(quot_wide((-half_b - sqrtd as i128) * ONE as i128, a))
}

impl Sphere {
    pub open spec fn wf(self) -> bool {
        self.center.wf() && 0 < self.radius <= LIMIT && self.mat_ptr.wf()
    }

    /// A sphere; one whose radius is not positive is refused.
    pub fn new_with_values(center: Point3, radius: i64, material: Material) -> (r: Option<Sphere>)
        ensures
            r is Some <==> 0 < radius <= LIMIT,
            r matches Some(s) ==> s.center == center && s.radius == radius && s.mat_ptr
                == material,
    {
        if 0 < radius && radius <= LIMIT {
            Some(Sphere { center, radius, mat_ptr: material })
        } else {
            None
        }
    }
}

impl Hittable for Sphere {
    open spec fn well_formed(&self) -> bool {
        self.wf()
    }

    open spec fn hit_spec(&self, r: Ray, t_min: int, t_max: int) -> Option<hit_record> {
        sphere_hit(*self, r, t_min, t_max)
    }

    fn hit(&self, r: &Ray, t_min: i64, t_max: i64, rec: &mut hit_record) -> (b: bool) {
        proof {
            reveal(sphere_hit);
        }
        let oc = r.orig.sub(self.center);
        let dd = dot_wide(&r.dir, &r.dir);
        let ob = dot_wide(&oc, &r.dir);
        let oo = dot_wide(&oc, &oc);
        proof {
            lemma_mul_bound(self.radius as int, self.radius as int, LIMIT as int, LIMIT as int);
            lemma_quot_bound(dd as int, ONE as int, 3 * LIMIT * LIMIT);
            lemma_quot_bound(ob as int, ONE as int, 3 * LIMIT * LIMIT);
            lemma_quot_bound(oo - self.radius * self.radius, ONE as int, 4 * LIMIT * LIMIT);
        }
        let a = quot_wide(dd, ONE as i128);
        let half_b = quot_wide(ob, ONE as i128);
        let c = quot_wide(oo - self.radius as i128 * self.radius as i128, ONE as i128);
        proof {
            lemma_mul_bound(half_b as int, half_b as int, 6_750_000_000_000_000_000, 6_750_000_000_000_000_000);
            lemma_mul_bound(a as int, c as int, 6_750_000_000_000_000_000, 9_000_000_000_000_000_000);
        }
        let discriminant = half_b * half_b - a * c;
        if a <= 0 || discriminant < 0 {
            return false;
        }
        let sqrtd = isqrt(discriminant as u128);
        assert(sqrtd <= 11_000_000_000_000_000_000) by (nonlinear_arith)
            requires
                sqrtd * sqrtd <= discriminant,
                discriminant <= 107_000_000_000_000_000_000_000_000_000_000_000_000int,
                sqrtd >= 0,
        ;
        let sqrtd = sqrtd as i128;

        // The nearest root that lies in the accepted range.
        let mut root = quot_wide((-half_b - sqrtd) * ONE as i128, a);
        if root < t_min as i128 || (t_max as i128) < root {
            root = quot_wide((-half_b + sqrtd) * ONE as i128, a);
            if root < t_min as i128 || (t_max as i128) < root {
                return false;
            }
        }
        let t = root as i64;
        rec.t = t;
        rec.p = r.at(t);
        if r.dir.is_zero_vector() {
            assert(dot_raw(r.dir, r.dir) == 0);
        }
        let offset = rec.p.sub(self.center);
        let outward_normal = if offset.is_zero_vector() {
            r.dir.unit_vector().neg()
        } else {
            offset.unit_vector()
        };
        rec.set_face_normal(r, outward_normal);
        proof {
            lemma_sphere_hit_record(*self, *r, t_min as int, t_max as int);
        }
        rec.material = self.mat_ptr;
        true
    }
}

} // verus!
