//! The camera: a thin lens that maps image-plane coordinates to world rays.
use crate::fixed::{fdiv, fixed_div, fixed_mul, fmul, in_range, quot, saturate, saturate_wide, ONE};
use crate::ray::Ray;
use crate::vec3::{
    in_unit_ball, lemma_unit_of_unit, random_in_unit_disk, vadd, vcross, vdiv, vec_of, vscale, vsub,
    vunit, Point3, Vec3,
};
use vstd::prelude::*;

verus! {

/// A camera with its orthonormal basis `u, v, w`, its viewport spanned by
/// `horizontal` and `vertical` from `lower_left_corner`, and its lens radius.
#[derive(Clone, Copy, Debug, PartialEq, Eq, Structural)]
pub struct Camera {
    pub origin: Point3,
    pub lower_left_corner: Point3,
    pub horizontal: Vec3,
    pub vertical: Vec3,
    pub u: Vec3,
    pub v: Vec3,
    pub w: Vec3,
    pub lens_radius: i64,
}

/// The camera at `lookfrom` facing `lookat`, with `vup` upward, `h` the tangent
/// of half the vertical field of view, focused at `focus_dist`; none where the
/// view direction vanishes or is parallel to `vup`.
pub open spec fn camera_spec(
    lookfrom: Point3,
    lookat: Point3,
    vup: Vec3,
    h: int,
    aspect_ratio: int,
    aperture: int,
    focus_dist: int,
) -> Option<Camera> {
    let viewport_height = saturate(2 * h);
    let viewport_width = fmul(aspect_ratio, viewport_height);
    let back = vsub(lookfrom, lookat);
    if back.is_zero() || vcross(vup, vunit(back)).is_zero() {
        None
    } else {
        let w = vunit(back);
        let u = vunit(vcross(vup, w));
        let v = vcross(w, u);
        let horizontal = vscale(vscale(u, viewport_width), focus_dist);
        let vertical = vscale(vscale(v, viewport_height), focus_dist);
        let lower_left_corner = vsub(
            vsub(vsub(lookfrom, vdiv(horizontal, 2 * ONE)), vdiv(vertical, 2 * ONE)),
            vscale(w, focus_dist),
        );
        Some(
            Camera {
                origin: lookfrom,
                lower_left_corner,
                horizontal,
                vertical,
                u,
                v,
                w,
                lens_radius: fdiv(aperture, 2 * ONE) as i64,
            },
        )
    }
}

/// The ray through image-plane coordinates `(s, t)` from the lens point `disk`
/// (a point of the unit disk, scaled by the lens radius).
pub open spec fn get_ray_spec(cam: Camera, s: int, t: int, disk: Vec3) -> Ray {
    let rd = vscale(disk, cam.lens_radius as int);
    let offset = vadd(vscale(cam.u, rd.x as int), vscale(cam.v, rd.y as int));
    Ray {
        orig: vadd(cam.origin, offset),
        dir: vsub(
            vsub(
                vadd(vadd(cam.lower_left_corner, vscale(cam.horizontal, s)), vscale(cam.vertical, t)),
                cam.origin,
            ),
            offset,
        ),
    }
}

impl Camera {
    pub open spec fn wf(self) -> bool {
        &&& self.origin.wf()
        &&& self.lower_left_corner.wf()
        &&& self.horizontal.wf()
        &&& self.vertical.wf()
        &&& self.u.wf()
        &&& self.v.wf()
        &&& self.w.wf()
        &&& in_range(self.lens_radius as int)
    }

    /// A camera at `lookfrom` facing `lookat`, with `vup` upward; `h` is the
    /// tangent of half the vertical field of view. It is refused where the
    /// view direction vanishes or is parallel to `vup`.
    pub fn new(
        lookfrom: Point3,
        lookat: Point3,
        vup: Point3,
        h: i64,
        aspect_ratio: i64,
        aperture: i64,
        focus_dist: i64,
    ) -> (r: Option<Camera>)
        requires
            lookfrom.wf(),
            lookat.wf(),
            vup.wf(),
            in_range(h as int),
            in_range(aspect_ratio as int),
            in_range(aperture as int),
            in_range(focus_dist as int),
        ensures
            r == camera_spec(
                lookfrom,
                lookat,
                vup,
                h as int,
                aspect_ratio as int,
                aperture as int,
                focus_dist as int,
            ),
            r matches Some(c) ==> c.wf(),
    {
        let viewport_height = saturate_wide(2 * h as i128);
        let viewport_width = fixed_mul(aspect_ratio, viewport_height);
        let back = lookfrom.sub(lookat);
        if back.is_zero_vector() {
            return None;
        }
        let w = back.unit_vector();
        let side = Vec3::cross(vup, w);
        if side.is_zero_vector() {
            return None;
        }
        let u = side.unit_vector();
        let v = Vec3::cross(w, u);
        let origin = lookfrom;
        let horizontal = u.scale(viewport_width).scale(focus_dist);
        let vertical = v.scale(viewport_height).scale(focus_dist);
        let lower_left_corner = origin.sub(horizontal.div(2 * ONE)).sub(vertical.div(2 * ONE)).sub(
            w.scale(focus_dist),
        );
        let lens_radius = fixed_div(aperture, 2 * ONE);
        Some(Camera { origin, lower_left_corner, horizontal, vertical, u, v, w, lens_radius })
    }

    /// The ray through `(s, t)` from the lens point `disk`.
    pub fn get_ray_with(&self, s: i64, t: i64, disk: Vec3) -> (r: Ray)
        requires
            self.wf(),
            in_range(s as int),
            in_range(t as int),
            disk.wf(),
        ensures
            r == get_ray_spec(*self, s as int, t as int, disk),
            r.wf(),
    {
        let rd = disk.scale(self.lens_radius);
        let offset = self.u.scale(rd.x).add(self.v.scale(rd.y));
        Ray::new_with_values(
            self.origin.add(offset),
            self.lower_left_corner.add(self.horizontal.scale(s)).add(self.vertical.scale(t)).sub(
                self.origin,
            ).sub(offset),
        )
    }

    /// The ray through image-plane coordinates `(s, t)`, from a random point
    /// of the lens.
    pub fn get_ray(&self, s: i64, t: i64) -> (r: Ray)
        requires
            self.wf(),
            in_range(s as int),
            in_range(t as int),
        ensures
            exists|disk: Vec3|
                disk.wf() && in_unit_ball(disk) && disk.z == 0 && r == #[trigger] get_ray_spec(
                    *self,
                    s as int,
                    t as int,
                    disk,
                ),
            r.wf(),
    {
        let disk = random_in_unit_disk();
        self.get_ray_with(s, t, disk)
    }
}

/// A pinhole camera at the origin looking down `-z` with `y` up sends its
/// centre ray straight down its axis: whatever the field of view and aspect
/// ratio, and for every lens draw, the ray through `(0.5, 0.5)` starts at the
/// origin with direction exactly `(0, 0, -focus_dist)`.
pub proof fn lemma_pinhole_centre_ray(h: int, aspect_ratio: int, focus_dist: int, disk: Vec3)
    requires
        in_range(h),
        in_range(aspect_ratio),
        in_range(focus_dist),
        disk.wf(),
    ensures
        camera_spec(
            vec_of(0, 0, 0),
            vec_of(0, 0, -ONE),
            vec_of(0, ONE as int, 0),
            h,
            aspect_ratio,
            0,
            focus_dist,
        ) is Some,
        get_ray_spec(
            camera_spec(
                vec_of(0, 0, 0),
                vec_of(0, 0, -ONE),
                vec_of(0, ONE as int, 0),
                h,
                aspect_ratio,
                0,
                focus_dist,
            )->Some_0,
            ONE / 2,
            ONE / 2,
            disk,
        ) == (Ray { orig: vec_of(0, 0, 0), dir: vec_of(0, 0, -focus_dist) }),
{
    let one = ONE as int;
    let origin = vec_of(0, 0, 0);
    let back = vsub(origin, vec_of(0, 0, -one));
    assert(back == vec_of(0, 0, one));
    lemma_unit_of_unit(back);
    let w = vunit(back);
    crate::fixed::lemma_quot_mul_exact(one, one);
    assert(one * one == one * one);
    assert(w.x == 0 && w.y == 0 && w.z == one);
    let up = vec_of(0, one, 0);
    assert(up.y * w.z - up.z * w.y == one * one);
    assert(up.z * w.x - up.x * w.z == 0);
    assert(up.x * w.y - up.y * w.x == 0) by (nonlinear_arith)
        requires
            up.x == 0,
            w.x == 0,
            w.y == 0,
    ;
    assert(quot(0, one) == 0);
    let side = vcross(up, w);
    assert(side == vec_of(one, 0, 0));
    lemma_unit_of_unit(side);
    let u = vunit(side);
    assert(u.x == one && u.y == 0 && u.z == 0);
    assert(w.y * u.z - w.z * u.y == 0);
    assert(w.z * u.x - w.x * u.z == one * one);
    assert(w.x * u.y - w.y * u.x == 0) by (nonlinear_arith)
        requires
            w.x == 0,
            w.y == 0,
            u.y == 0,
    ;
    let v = vcross(w, u);
    assert(v == vec_of(0, one, 0));
    let cam = camera_spec(origin, vec_of(0, 0, -one), vec_of(0, one, 0), h, aspect_ratio, 0, focus_dist)->Some_0;
    let vh = saturate(2 * h);
    let vw = fmul(aspect_ratio, vh);
    // Products with `ONE` and with zero are exact.
    assert forall|x: int| in_range(x) implies #[trigger] fmul(one, x) == x by {
        assert(one * x == x * one) by (nonlinear_arith);
        crate::fixed::lemma_quot_mul_exact(x, one);
    }
    assert forall|x: int| #[trigger] fmul(0, x) == 0 by {
        assert(0 * x == 0);
    }
    assert forall|x: int| #[trigger] fmul(x, 0) == 0 by {
        assert(x * 0 == 0);
    }
    let hx = fmul(fmul(one, vw), focus_dist);
    let vy = fmul(fmul(one, vh), focus_dist);
    assert(in_range(vw) && in_range(vh));
    assert(fmul(one, vw) == vw && fmul(one, vh) == vh);
    assert(cam.horizontal == vec_of(hx, 0, 0));
    assert(cam.vertical == vec_of(0, vy, 0));
    assert(cam.lens_radius == 0);
    // Halving by division and by multiplication round alike.
    lemma_quot_halves(hx);
    lemma_quot_halves(vy);
    let rd = vscale(disk, 0);
    assert(rd == vec_of(0, 0, 0));
    let offset = vadd(vscale(u, 0), vscale(v, 0));
    assert(offset == vec_of(0, 0, 0));
}

/// Halving in fixed point, by dividing by two or by multiplying by a half,
/// is `quot(x, 2)`.
proof fn lemma_quot_halves(x: int)
    ensures
        quot(x * ONE, 2 * ONE) == quot(x, 2),
        quot(x * (ONE / 2), ONE as int) == quot(x, 2),
{
    let one = ONE as int;
    crate::fixed::lemma_quot_cancel(x, 2, one);
    assert(x * one == x * one && 2 * one == 2 * one);
    assert(one == 2 * (one / 2));
    crate::fixed::lemma_quot_cancel(x, 2, one / 2);
    assert(x * (one / 2) == x * (one / 2) && 2 * (one / 2) == one);
}

} // verus!
