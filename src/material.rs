//! Materials: how light scatters where a ray meets a surface.
use crate::fixed::{
    fdiv, fixed_add, fixed_div, fixed_mul, fixed_sqrt, fixed_sub, fmul, fsqrt, in_range, quot, saturate,
    LIMIT, ONE,
};
use crate::hittable::hit_record;
use crate::ray::Ray;
use crate::vec3::{
    dot_raw, dot_wide, in_unit_ball, is_unit_draw, is_unit_length, random_in_unit_sphere, random_unit_vector,
    reflect, vadd, vdot, vec_of, vneg, vreflect, vscale, vunit, Color, Vec3,
};
use crate::rtweekend::random_double;
use vstd::prelude::*;

verus! {

/// A diffuse surface that scatters toward the normal's hemisphere.
#[derive(Clone, Copy, Debug, PartialEq, Eq, Structural)]
pub struct Lambertian {
    pub albedo: Color,
}

/// A mirror, blurred by `fuzz`.
#[derive(Clone, Copy, Debug, PartialEq, Eq, Structural)]
pub struct Metal {
    pub albedo: Color,
    pub fuzz: i64,
}

/// A clear refractive material such as glass, with refractive index `ir`.
#[derive(Clone, Copy, Debug, PartialEq, Eq, Structural)]
pub struct Dielectric {
    pub ir: i64,
}

/// One of the three materials.
#[derive(Clone, Copy, Debug, PartialEq, Eq, Structural)]
pub enum Material {
    Lambertian(Lambertian),
    Metal(Metal),
    Dielectric(Dielectric),
}

/// The diffuse direction: the normal plus a unit draw `u`, or the normal alone
/// where the sum is near zero.
pub open spec fn lambertian_direction(normal: Vec3, u: Vec3) -> Vec3 {
    if vadd(normal, u).is_near_zero() {
        normal
    } else {
        vadd(normal, u)
    }
}

/// The metal direction: the mirror image of the unit incoming direction, moved
/// by `fuzz` times a draw `p` from the unit ball.
pub open spec fn metal_direction(m: Metal, r_in: Ray, rec: hit_record, p: Vec3) -> Vec3 {
    vadd(vreflect(vunit(r_in.dir), rec.normal), vscale(p, m.fuzz as int))
}

/// `cos(theta)` between the reversed unit direction `uv` and the normal, capped at one.
pub open spec fn cos_theta(uv: Vec3, n: Vec3) -> int {
    let d = vdot(vneg(uv), n);
    if d < ONE { d } else { ONE as int }
}

/// The unit direction `uv` refracted through the surface with normal `n`, for
/// the ratio of refractive indices `e`: a part across the normal scaled by `e`,
/// plus a part along the normal that restores unit length.
pub open spec fn vrefract(uv: Vec3, n: Vec3, e: int) -> Vec3 {
    let perp = vscale(vadd(uv, vscale(n, cos_theta(uv, n))), e);
    let k = saturate(ONE - vdot(perp, perp));
    let abs_k = if k >= 0 { k } else { -k };
    vadd(perp, vscale(n, -fsqrt(abs_k)))
}

/// A diffuse bounce never turns into the surface: for a normal `n` of at least
/// unit length (and at most two, so that nothing saturates) and any unit draw
/// `u`, the scattered direction has a nonnegative dot product with `n`.
pub proof fn lemma_lambertian_faces_normal(n: Vec3, u: Vec3)
    requires
        n.wf(),
        ONE * ONE <= dot_raw(n, n) <= 4 * ONE * ONE,
        is_unit_draw(u),
    ensures
        dot_raw(lambertian_direction(n, u), n) >= 0,
{
    let p = choose|p: Vec3| p.wf() && in_unit_ball(p) && !p.is_zero() && u == vunit(p);
    crate::vec3::lemma_unit_vector_length(p);
    let nn = dot_raw(n, n);
    assert(-2 * ONE <= n.x <= 2 * ONE && -2 * ONE <= n.y <= 2 * ONE && -2 * ONE <= n.z <= 2 * ONE)
        by (nonlinear_arith)
        requires
            nn == n.x * n.x + n.y * n.y + n.z * n.z,
            nn <= 4 * ONE * ONE,
            ONE > 0,
    ;
    let d = vadd(n, u);
    assert(d.x == n.x + u.x && d.y == n.y + u.y && d.z == n.z + u.z);
    if !d.is_zero() {
        let un = dot_raw(u, n);
        let uu = dot_raw(u, u);
        assert(nn + 2 * un + uu >= 0) by (nonlinear_arith)
            requires
                nn == n.x * n.x + n.y * n.y + n.z * n.z,
                un == u.x * n.x + u.y * n.y + u.z * n.z,
                uu == u.x * u.x + u.y * u.y + u.z * u.z,
        {
            assert((n.x + u.x) * (n.x + u.x) + (n.y + u.y) * (n.y + u.y) + (n.z + u.z) * (n.z + u.z)
                >= 0) by (nonlinear_arith);
        }
        assert(dot_raw(d, n) == nn + un) by (nonlinear_arith)
            requires
                d.x == n.x + u.x,
                d.y == n.y + u.y,
                d.z == n.z + u.z,
                nn == n.x * n.x + n.y * n.y + n.z * n.z,
                un == u.x * n.x + u.y * n.y + u.z * n.z,
        ;
    } else {
        assert(nn >= 0);
    }
}

/// A metal with no fuzz is a perfect mirror: whatever the draw, the scattered
/// ray leaves the hit point along the mirror image of the unit incoming direction.
pub proof fn lemma_smooth_metal_mirrors(m: Metal, r_in: Ray, rec: hit_record, p: Vec3, x: int)
    requires
        m.fuzz == 0,
        p.wf(),
    ensures
        scatter_spec(Material::Metal(m), r_in, rec, p, x).2 == (Ray {
            orig: rec.p,
            dir: vreflect(vunit(r_in.dir), rec.normal),
        }),
{
    let z = vscale(p, 0);
    assert(p.x * 0 == 0 && p.y * 0 == 0 && p.z * 0 == 0);
    assert(z.x == 0 && z.y == 0 && z.z == 0);
    let refl = vreflect(vunit(r_in.dir), rec.normal);
    assert(vadd(refl, z) == refl);
}

/// With refractive index one, a dielectric never reflects totally, the ratio
/// across its surface is one either way, and Schlick's reflectance is
/// `(1 - cos)^5`: the draw `x` reflects only below it, and otherwise the ray
/// is refracted with ratio one.
pub proof fn lemma_index_one_decision(d: Dielectric, r_in: Ray, rec: hit_record, x: int)
    requires
        d.ir == ONE,
        rec.normal.wf(),
    ensures
        refraction_ratio(d, rec.front_face) == ONE,
        dielectric_reflects(d, r_in, rec, x) == (pow5(
            saturate(ONE - cos_theta(vunit(r_in.dir), rec.normal)),
        ) > x),
        !dielectric_reflects(d, r_in, rec, x) && !vrefract(vunit(r_in.dir), rec.normal, ONE as int).is_zero()
            ==> dielectric_direction(d, r_in, rec, x) == vunit(vrefract(vunit(r_in.dir), rec.normal, ONE as int)),
{
    let one = ONE as int;
    crate::fixed::lemma_quot_mul_exact(one, one);
    assert(one * one == one * one);
    assert(fdiv(one, one) == one);
    let uv = vunit(r_in.dir);
    let cos = cos_theta(uv, rec.normal);
    assert(in_range(cos));
    crate::fixed::lemma_fmul_square_nonneg(cos);
    let arg = saturate(one - fmul(cos, cos));
    assert(arg <= one);
    let sin = fsqrt(arg);
    if arg > 0 {
        crate::fixed::lemma_floor_sqrt_exists(arg * one);
        assert(sin <= one) by (nonlinear_arith)
            requires
                sin * sin <= arg * one,
                arg <= one,
                sin >= 0,
                one > 0,
        ;
    }
    assert(0 <= sin <= one);
    assert(one * sin == sin * one) by (nonlinear_arith);
    crate::fixed::lemma_quot_mul_exact(sin, one);
    assert(fmul(one, sin) == sin);
    // Reflectance with R0 = 0.
    assert((one - one) * one == 0);
    assert(quot(0, saturate(one + one)) == 0);
    let r0 = fdiv(one - one, saturate(one + one));
    assert(r0 == 0);
    assert(fmul(0, 0) == 0);
    let p5 = pow5(saturate(one - cos));
    assert(in_range(p5));
    assert(one * p5 == p5 * one) by (nonlinear_arith);
    crate::fixed::lemma_quot_mul_exact(p5, one);
    assert(fmul(one - 0, p5) == p5);
    assert(reflectance_spec(cos, one) == p5);
}

/// With refractive index one, a ray meeting a unit normal head-on goes straight
/// through: for every draw, the outgoing direction is the unit incoming one.
pub proof fn lemma_index_one_head_on(d: Dielectric, r_in: Ray, rec: hit_record, x: int)
    requires
        d.ir == ONE,
        rec.normal.wf(),
        dot_raw(rec.normal, rec.normal) == ONE * ONE,
        vunit(r_in.dir) == vneg(rec.normal),
        0 <= x,
    ensures
        dielectric_direction(d, r_in, rec, x) == vunit(r_in.dir),
{
    let one = ONE as int;
    let n = rec.normal;
    let uv = vunit(r_in.dir);
    lemma_index_one_decision(d, r_in, rec, x);
    assert(-one <= n.x <= one && -one <= n.y <= one && -one <= n.z <= one) by (nonlinear_arith)
        requires
            n.x * n.x + n.y * n.y + n.z * n.z == one * one,
            one > 0,
    ;
    let back = vneg(uv);
    assert(back == n);
    crate::fixed::lemma_quot_mul_exact(one, one);
    assert(vdot(back, n) == one);
    assert(cos_theta(uv, n) == one);
    assert(saturate(one - one) == 0);
    crate::fixed::lemma_quot_mul_exact(0, one);
    assert(0int * 0int == 0int * one);
    assert(fmul(0, 0) == 0);
    assert(pow5(0) == 0);
    // The refraction with ratio one.
    assert(n.x * one == n.x * one);
    crate::fixed::lemma_quot_mul_exact(n.x as int, one);
    crate::fixed::lemma_quot_mul_exact(n.y as int, one);
    crate::fixed::lemma_quot_mul_exact(n.z as int, one);
    let sn = vscale(n, one);
    assert(sn == n);
    let sum = vadd(uv, sn);
    assert(sum.x == 0 && sum.y == 0 && sum.z == 0);
    let perp = vscale(sum, one);
    assert(perp.x == 0 && perp.y == 0 && perp.z == 0);
    assert(dot_raw(perp, perp) == 0);
    assert(vdot(perp, perp) == 0);
    crate::fixed::lemma_floor_sqrt_is(one * one, one);
    assert(fsqrt(one) == one);
    assert(n.x * (-one) == (-n.x) * one && n.y * (-one) == (-n.y) * one && n.z * (-one) == (-n.z)
        * one) by (nonlinear_arith);
    crate::fixed::lemma_quot_mul_exact(-n.x, one);
    crate::fixed::lemma_quot_mul_exact(-n.y, one);
    crate::fixed::lemma_quot_mul_exact(-n.z, one);
    let par = vscale(n, -one);
    assert(par == vneg(n));
    assert(vadd(perp, par) == uv);
    assert(dot_raw(uv, uv) == dot_raw(n, n)) by (nonlinear_arith)
        requires
            uv.x == -n.x,
            uv.y == -n.y,
            uv.z == -n.z,
    ;
    crate::vec3::lemma_unit_of_unit(uv);
}

/// With refractive index one, a refracted ray goes straight on at any angle of
/// incidence, wherever no fixed-point step rounds: the unit direction `uv` and
/// the normal `n` have exactly unit length, `n` faces against `uv`, and the
/// cosine `c = -(uv . n)`, its products with the normal's components and its
/// square are whole in fixed point. The draw `x` must reach Schlick's
/// reflectance `(1 - c)^5`; below it the ray is reflected instead.
pub proof fn lemma_index_one_unbent(d: Dielectric, r_in: Ray, rec: hit_record, x: int)
    requires
        d.ir == ONE,
        rec.normal.wf(),
        dot_raw(rec.normal, rec.normal) == ONE * ONE,
        dot_raw(vunit(r_in.dir), vunit(r_in.dir)) == ONE * ONE,
        dot_raw(vunit(r_in.dir), rec.normal) <= 0,
        dot_raw(vunit(r_in.dir), rec.normal) % (ONE as int) == 0,
        ({
            let c = -dot_raw(vunit(r_in.dir), rec.normal) / (ONE as int);
            &&& (rec.normal.x * c) % (ONE as int) == 0
            &&& (rec.normal.y * c) % (ONE as int) == 0
            &&& (rec.normal.z * c) % (ONE as int) == 0
            &&& (c * c) % (ONE as int) == 0
            &&& x >= pow5(saturate(ONE - c))
        }),
    ensures
        dielectric_direction(d, r_in, rec, x) == vunit(r_in.dir),
{
    let one = ONE as int;
    let n = rec.normal;
    let uv = vunit(r_in.dir);
    let un = dot_raw(uv, n);
    // Both vectors are unit, so |uv . n| <= ONE * ONE and each component is within ONE.
    assert(-(one * one) <= un) by (nonlinear_arith)
        requires
            un == uv.x * n.x + uv.y * n.y + uv.z * n.z,
            uv.x * uv.x + uv.y * uv.y + uv.z * uv.z == one * one,
            n.x * n.x + n.y * n.y + n.z * n.z == one * one,
    {
        assert((uv.x + n.x) * (uv.x + n.x) + (uv.y + n.y) * (uv.y + n.y) + (uv.z + n.z) * (uv.z
            + n.z) >= 0) by (nonlinear_arith);
    }
    assert(-one <= n.x <= one && -one <= n.y <= one && -one <= n.z <= one) by (nonlinear_arith)
        requires
            n.x * n.x + n.y * n.y + n.z * n.z == one * one,
            one > 0,
    ;
    assert(-one <= uv.x <= one && -one <= uv.y <= one && -one <= uv.z <= one) by (nonlinear_arith)
        requires
            uv.x * uv.x + uv.y * uv.y + uv.z * uv.z == one * one,
            one > 0,
    ;
    // The cosine.
    vstd::arithmetic::div_mod::lemma_fundamental_div_mod(-un, one);
    let c = -un / one;
    assert(-un == c * one) by (nonlinear_arith)
        requires
            -un == one * c + 0,
    ;
    assert(0 <= c <= one) by (nonlinear_arith)
        requires
            -un == c * one,
            0 <= -un <= one * one,
            one > 0,
    ;
    let back = vneg(uv);
    assert(back.x == -uv.x && back.y == -uv.y && back.z == -uv.z);
    assert(dot_raw(back, n) == -un) by (nonlinear_arith)
        requires
            back.x == -uv.x,
            back.y == -uv.y,
            back.z == -uv.z,
            un == uv.x * n.x + uv.y * n.y + uv.z * n.z,
    ;
    crate::fixed::lemma_quot_mul_exact(c, one);
    assert(vdot(back, n) == c);
    assert(cos_theta(uv, n) == c);
    lemma_index_one_decision(d, r_in, rec, x);
    // m = n c, exactly.
    let (mx, my, mz) = (fmul(n.x as int, c), fmul(n.y as int, c), fmul(n.z as int, c));
    lemma_exact_product(n.x as int, c);
    lemma_exact_product(n.y as int, c);
    lemma_exact_product(n.z as int, c);
    let m = vscale(n, c);
    assert(m.x == mx && m.y == my && m.z == mz);
    let sum = vadd(uv, m);
    assert(sum.x == uv.x + mx && sum.y == uv.y + my && sum.z == uv.z + mz);
    crate::fixed::lemma_quot_mul_exact(sum.x as int, one);
    crate::fixed::lemma_quot_mul_exact(sum.y as int, one);
    crate::fixed::lemma_quot_mul_exact(sum.z as int, one);
    assert(sum.x * one == sum.x * one);
    let perp = vscale(sum, one);
    assert(perp == sum);
    // |perp|^2 = ONE^2 - c^2.
    assert(dot_raw(perp, perp) == one * one - c * c) by (nonlinear_arith)
        requires
            perp.x == uv.x + mx,
            perp.y == uv.y + my,
            perp.z == uv.z + mz,
            mx * one == n.x * c,
            my * one == n.y * c,
            mz * one == n.z * c,
            uv.x * uv.x + uv.y * uv.y + uv.z * uv.z == one * one,
            n.x * n.x + n.y * n.y + n.z * n.z == one * one,
            uv.x * n.x + uv.y * n.y + uv.z * n.z == -(c * one),
            one > 0,
    {
        let (ax, ay, az) = (uv.x * mx, uv.y * my, uv.z * mz);
        assert(ax * one == (uv.x * n.x) * c) by (nonlinear_arith)
            requires
                mx * one == n.x * c,
                ax == uv.x * mx,
        ;
        assert(ay * one == (uv.y * n.y) * c) by (nonlinear_arith)
            requires
                my * one == n.y * c,
                ay == uv.y * my,
        ;
        assert(az * one == (uv.z * n.z) * c) by (nonlinear_arith)
            requires
                mz * one == n.z * c,
                az == uv.z * mz,
        ;
        let (px, py, pz) = (uv.x * n.x, uv.y * n.y, uv.z * n.z);
        assert((ax + ay + az) * one == (px + py + pz) * c) by (nonlinear_arith)
            requires
                ax * one == px * c,
                ay * one == py * c,
                az * one == pz * c,
        ;
        assert(ax + ay + az == -(c * c)) by (nonlinear_arith)
            requires
                (ax + ay + az) * one == (px + py + pz) * c,
                px + py + pz == -(c * one),
                one > 0,
        ;
        let (bx, by, bz) = (mx * mx, my * my, mz * mz);
        assert(bx * (one * one) == (n.x * n.x) * (c * c)) by (nonlinear_arith)
            requires
                mx * one == n.x * c,
                bx == mx * mx,
        ;
        assert(by * (one * one) == (n.y * n.y) * (c * c)) by (nonlinear_arith)
            requires
                my * one == n.y * c,
                by == my * my,
        ;
        assert(bz * (one * one) == (n.z * n.z) * (c * c)) by (nonlinear_arith)
            requires
                mz * one == n.z * c,
                bz == mz * mz,
        ;
        let (sx, sy, sz) = (n.x * n.x, n.y * n.y, n.z * n.z);
        assert((bx + by + bz) * (one * one) == (sx + sy + sz) * (c * c)) by (nonlinear_arith)
            requires
                bx * (one * one) == sx * (c * c),
                by * (one * one) == sy * (c * c),
                bz * (one * one) == sz * (c * c),
        ;
        assert(bx + by + bz == c * c) by (nonlinear_arith)
            requires
                (bx + by + bz) * (one * one) == (sx + sy + sz) * (c * c),
                sx + sy + sz == one * one,
                one > 0,
        ;
        assert(dot_raw(perp, perp) == (uv.x * uv.x + uv.y * uv.y + uv.z * uv.z) + 2 * (uv.x * mx
            + uv.y * my + uv.z * mz) + (mx * mx + my * my + mz * mz)) by (nonlinear_arith)
            requires
                perp.x == uv.x + mx,
                perp.y == uv.y + my,
                perp.z == uv.z + mz,
        ;
    }
    // k = c^2 / ONE, exactly, and its root is c.
    vstd::arithmetic::div_mod::lemma_fundamental_div_mod(c * c, one);
    let q = (c * c) / one;
    assert(c * c == q * one) by (nonlinear_arith)
        requires
            c * c == one * q + 0,
    ;
    assert(one * one - c * c == (one - q) * one) by (nonlinear_arith)
        requires
            c * c == q * one,
    ;
    crate::fixed::lemma_quot_mul_exact(one - q, one);
    assert(0 <= q <= one) by (nonlinear_arith)
        requires
            c * c == q * one,
            0 <= c <= one,
            one > 0,
    ;
    assert(vdot(perp, perp) == one - q);
    let k = saturate(one - vdot(perp, perp));
    assert(k == q);
    if q > 0 {
        assert(q * one == c * c);
        assert(crate::fixed::is_floor_sqrt(c * c, c)) by (nonlinear_arith)
            requires
                c >= 0,
        ;
        crate::fixed::lemma_floor_sqrt_is(c * c, c);
        assert(fsqrt(k) == c);
    } else {
        assert(c * c == 0);
        assert(c == 0) by (nonlinear_arith)
            requires
                c * c == 0,
        ;
        assert(fsqrt(k) == c);
    }
    // The parallel part is -m.
    assert(n.x * (-c) == (-mx) * one && n.y * (-c) == (-my) * one && n.z * (-c) == (-mz) * one)
        by (nonlinear_arith)
        requires
            mx * one == n.x * c,
            my * one == n.y * c,
            mz * one == n.z * c,
    ;
    crate::fixed::lemma_quot_mul_exact(-mx, one);
    crate::fixed::lemma_quot_mul_exact(-my, one);
    crate::fixed::lemma_quot_mul_exact(-mz, one);
    let par = vscale(n, -fsqrt(k));
    assert(par.x == -mx && par.y == -my && par.z == -mz);
    assert(vadd(perp, par) == uv);
    crate::vec3::lemma_unit_of_unit(uv);
}

/// A product `a * c` of a component within one and a cosine within one that
/// is whole in fixed point is exact: `fmul(a, c) * ONE == a * c`.
proof fn lemma_exact_product(a: int, c: int)
    requires
        -ONE <= a <= ONE,
        -ONE <= c <= ONE,
        (a * c) % (ONE as int) == 0,
    ensures
        fmul(a, c) * ONE == a * c,
        -ONE <= fmul(a, c) <= ONE,
{
    let one = ONE as int;
    vstd::arithmetic::div_mod::lemma_fundamental_div_mod(a * c, one);
    let m = (a * c) / one;
    assert(a * c == m * one) by (nonlinear_arith)
        requires
            a * c == one * m + 0,
    ;
    crate::fixed::lemma_quot_mul_exact(m, one);
    assert(-one <= m <= one) by (nonlinear_arith)
        requires
            a * c == m * one,
            -one <= a <= one,
            -one <= c <= one,
            one > 0,
    {
        assert(-(one * one) <= a * c <= one * one) by (nonlinear_arith)
            requires
                -one <= a <= one,
                -one <= c <= one,
        ;
    }
}

/// `x^5` in fixed point, as `((x * x) * (x * x)) * x`.
pub open spec fn pow5(x: int) -> int {
    fmul(fmul(fmul(x, x), fmul(x, x)), x)
}

/// Schlick's reflectance `R0 + (1 - R0) (1 - cos)^5`, `R0 = ((1 - n) / (1 + n))^2`.
pub open spec fn reflectance_spec(cosine: int, ref_idx: int) -> int {
    let r0 = fdiv(ONE - ref_idx, saturate(ONE + ref_idx));
    let r0 = fmul(r0, r0);
    saturate(r0 + fmul(ONE - r0, pow5(saturate(ONE - cosine))))
}

/// The ratio of refractive indices across the surface: `1 / ir` entering, `ir` leaving.
pub open spec fn refraction_ratio(d: Dielectric, front_face: bool) -> int {
    if front_face {
        fdiv(ONE as int, d.ir as int)
    } else {
        d.ir as int
    }
}

/// Whether the dielectric reflects, given the uniform draw `x` in `[0, 1)`:
/// always under total internal reflection, else when the reflectance exceeds `x`.
pub open spec fn dielectric_reflects(d: Dielectric, r_in: Ray, rec: hit_record, x: int) -> bool {
    let uv = vunit(r_in.dir);
    let cos = cos_theta(uv, rec.normal);
    let sin = fsqrt(saturate(ONE - fmul(cos, cos)));
    fmul(refraction_ratio(d, rec.front_face), sin) > ONE || reflectance_spec(cos, d.ir as int) > x
}

/// The dielectric's outgoing direction for the uniform draw `x`: the reflected
/// or refracted unit direction, normalised again so that rounding leaves it a
/// unit vector (should it vanish, the incoming direction goes on).
pub open spec fn dielectric_direction(d: Dielectric, r_in: Ray, rec: hit_record, x: int) -> Vec3 {
    let uv = vunit(r_in.dir);
    let bent = if dielectric_reflects(d, r_in, rec, x) {
        vreflect(uv, rec.normal)
    } else {
        vrefract(uv, rec.normal, refraction_ratio(d, rec.front_face))
    };
    if bent.is_zero() {
        uv
    } else {
        vunit(bent)
    }
}

/// `x^5` in fixed point.
fn pow5_exec(x: i64) -> (r: i64)
    requires
        in_range(x as int),
    ensures
        r == pow5(x as int),
        in_range(r as int),
{
    let x2 = fixed_mul(x, x);
    fixed_mul(fixed_mul(x2, x2), x)
}

/// Schlick's approximation of the share of light a dielectric reflects at the
/// angle with cosine `cosine`, for the refractive index `ref_idx`.
pub fn reflectance(cosine: i64, ref_idx: i64) -> (r: i64)
    requires
        in_range(cosine as int),
        0 < ref_idx <= LIMIT,
    ensures
        r == reflectance_spec(cosine as int, ref_idx as int),
        in_range(r as int),
{
    let mut r0 = fixed_div(ONE - ref_idx, fixed_add(ONE, ref_idx));
    proof {
        crate::fixed::lemma_fmul_square_nonneg(r0 as int);
    }
    r0 = fixed_mul(r0, r0);
    fixed_add(r0, fixed_mul(ONE - r0, pow5_exec(fixed_sub(ONE, cosine))))
}

/// The unit direction `uv` refracted through the surface with normal `n`, for
/// the ratio of refractive indices `etai_over_etat`.
pub fn refract(uv: &Vec3, n: &Vec3, etai_over_etat: i64) -> (r: Vec3)
    requires
        uv.wf(),
        n.wf(),
        in_range(etai_over_etat as int),
    ensures
        r == vrefract(*uv, *n, etai_over_etat as int),
        r.wf(),
{
    let d = Vec3::dot(&uv.neg(), n);
    let cos_theta = if d < ONE { d } else { ONE };
    let r_out_perp = uv.add(n.scale(cos_theta)).scale(etai_over_etat);
    let k = fixed_sub(ONE, r_out_perp.length_squared());
    let abs_k = if k >= 0 { k } else { -k };
    let r_out_parallel = n.scale(-fixed_sqrt(abs_k));
    r_out_perp.add(r_out_parallel)
}

/// What a material does with a ray that struck it, given the draws `v` (a unit
/// vector for diffuse surfaces, a point of the unit ball for metal) and `x` (a
/// uniform value for dielectrics): whether it scatters, the attenuation, and
/// the scattered ray from the hit point.
pub open spec fn scatter_spec(m: Material, r_in: Ray, rec: hit_record, v: Vec3, x: int) -> (
    bool,
    Color,
    Ray,
) {
    match m {
        Material::Lambertian(l) => (
            true,
            l.albedo,
            Ray { orig: rec.p, dir: lambertian_direction(rec.normal, v) },
        ),
        Material::Metal(mm) => {
            let d = metal_direction(mm, r_in, rec, v);
            (dot_raw(d, rec.normal) > 0, mm.albedo, Ray { orig: rec.p, dir: d })
        },
        Material::Dielectric(d) => (
            true,
            vec_of(ONE as int, ONE as int, ONE as int),
            Ray { orig: rec.p, dir: dielectric_direction(d, r_in, rec, x) },
        ),
    }
}

/// Whether `v` and `x` are possible draws for the material `m`.
pub open spec fn is_draw(m: Material, v: Vec3, x: int) -> bool {
    v.wf() && match m {
        Material::Lambertian(_) => is_unit_draw(v),
        Material::Metal(_) => in_unit_ball(v),
        Material::Dielectric(_) => 0 <= x < ONE,
    }
}

impl Lambertian {
    /// A black diffuse surface.
    pub fn new() -> (r: Lambertian)
        ensures
            r.albedo.is_zero(),
            r.wf(),
    {
        Lambertian { albedo: Vec3::new() }
    }

    pub fn new_with_values(a: Color) -> (r: Lambertian)
        ensures
            r.albedo == a,
    {
        Lambertian { albedo: a }
    }

    pub open spec fn wf(self) -> bool {
        self.albedo.wf()
    }

    /// Scatters toward the normal plus the unit vector `u`; always scatters.
    pub fn scatter_with(
        &self,
        rec: &hit_record,
        u: Vec3,
        attenuation: &mut Color,
        scattered: &mut Ray,
    ) -> (b: bool)
        requires
            self.wf(),
            rec.wf(),
            u.wf(),
        ensures
            b,
            *final(attenuation) == self.albedo,
            *final(scattered) == (Ray { orig: rec.p, dir: lambertian_direction(rec.normal, u) }),
            final(scattered).wf(),
    {
        let mut scatter_direction = rec.normal.add(u);
        if scatter_direction.near_zero() {
            scatter_direction = rec.normal;
        }
        *scattered = Ray::new_with_values(rec.p, scatter_direction);
        *attenuation = self.albedo;
        true
    }

    /// Scatters toward the normal plus a random unit vector.
    pub fn scatter(
        &self,
        r_in: &Ray,
        rec: &hit_record,
        attenuation: &mut Color,
        scattered: &mut Ray,
    ) -> (b: bool)
        requires
            self.wf(),
            rec.wf(),
        ensures
            exists|u: Vec3|
                is_draw(Material::Lambertian(*self), u, 0) && (b, *final(attenuation), *final(scattered)) == #[trigger] scatter_spec(Material::Lambertian(*self), *r_in, *rec, u, 0),
            final(scattered).wf(),
    {
        let u = random_unit_vector();
        let b = self.scatter_with(rec, u, attenuation, scattered);
        assert(is_draw(Material::Lambertian(*self), u, 0));
        assert((b, *attenuation, *scattered) == scatter_spec(
            Material::Lambertian(*self),
            *r_in,
            *rec,
            u,
            0,
        ));
        b
    }
}

impl Metal {
    /// A black, perfectly smooth mirror.
    pub fn new() -> (r: Metal)
        ensures
            r.albedo.is_zero(),
            r.fuzz == 0,
            r.wf(),
    {
        Metal { albedo: Vec3::new(), fuzz: 0 }
    }

    /// A mirror with the fuzz `f` clamped to `[0, 1]`.
    pub fn new_with_values(a: Color, f: i64) -> (r: Metal)
        ensures
            r.albedo == a,
            r.fuzz == (if f < 0 { 0 } else if f < ONE { f } else { ONE }),
    {
        Metal { albedo: a, fuzz: if f < 0 { 0 } else if f < ONE { f } else { ONE } }
    }

    pub open spec fn wf(self) -> bool {
        self.albedo.wf() && 0 <= self.fuzz <= ONE
    }

    /// Reflects the incoming direction about the normal and moves it by `fuzz`
    /// times the point `p`; scatters only if the result leaves the surface.
    pub fn scatter_with(
        &self,
        r_in: &Ray,
        rec: &hit_record,
        p: Vec3,
        attenuation: &mut Color,
        scattered: &mut Ray,
    ) -> (b: bool)
        requires
            self.wf(),
            r_in.wf(),
            !r_in.dir.is_zero(),
            rec.wf(),
            p.wf(),
        ensures
            (b, *final(attenuation), *final(scattered)) == scatter_spec(
                Material::Metal(*self),
                *r_in,
                *rec,
                p,
                0,
            ),
            final(scattered).wf(),
    {
        let reflected = reflect(&r_in.dir.unit_vector(), &rec.normal);
        *scattered = Ray::new_with_values(rec.p, reflected.add(p.scale(self.fuzz)));
        *attenuation = self.albedo;
        dot_wide(&scattered.dir, &rec.normal) > 0
    }

    /// Reflects with a random blur from the unit ball.
    pub fn scatter(
        &self,
        r_in: &Ray,
        rec: &hit_record,
        attenuation: &mut Color,
        scattered: &mut Ray,
    ) -> (b: bool)
        requires
            self.wf(),
            r_in.wf(),
            !r_in.dir.is_zero(),
            rec.wf(),
        ensures
            exists|p: Vec3|
                is_draw(Material::Metal(*self), p, 0) && (b, *final(attenuation), *final(scattered)) == #[trigger] scatter_spec(Material::Metal(*self), *r_in, *rec, p, 0),
            final(scattered).wf(),
    {
        let p = random_in_unit_sphere();
        let b = self.scatter_with(r_in, rec, p, attenuation, scattered);
        assert(is_draw(Material::Metal(*self), p, 0));
        b
    }
}

impl Dielectric {
    /// Glass-like material with refractive index one: it does not bend light.
    pub fn new() -> (r: Dielectric)
        ensures
            r.ir == ONE,
            r.wf(),
    {
        Dielectric { ir: ONE }
    }

    /// A refractive material; a refractive index that is not positive is refused.
    pub fn new_with_values(index_of_refraction: i64) -> (r: Option<Dielectric>)
        ensures
            r is Some <==> 0 < index_of_refraction <= crate::fixed::LIMIT,
            r matches Some(d) ==> d.ir == index_of_refraction && d.wf(),
    {
        if 0 < index_of_refraction && index_of_refraction <= crate::fixed::LIMIT {
            Some(Dielectric { ir: index_of_refraction })
        } else {
            None
        }
    }

    pub open spec fn wf(self) -> bool {
        0 < self.ir && in_range(self.ir as int)
    }

    /// Reflects or refracts the unit incoming direction, as the uniform draw `x`
    /// decides; always scatters, without attenuation.
    pub fn scatter_with(
        &self,
        r_in: &Ray,
        rec: &hit_record,
        x: i64,
        attenuation: &mut Color,
        scattered: &mut Ray,
    ) -> (b: bool)
        requires
            self.wf(),
            r_in.wf(),
            !r_in.dir.is_zero(),
            rec.wf(),
        ensures
            (b, *final(attenuation), *final(scattered)) == scatter_spec(
                Material::Dielectric(*self),
                *r_in,
                *rec,
                vec_of(0, 0, 0),
                x as int,
            ),
            is_unit_length(final(scattered).dir),
            final(scattered).wf(),
    {
        *attenuation = Vec3 { x: ONE, y: ONE, z: ONE };
        let refraction_ratio = if rec.front_face {
            fixed_div(ONE, self.ir)
        } else {
            self.ir
        };
        let unit_direction = r_in.dir.unit_vector();
        let d = Vec3::dot(&unit_direction.neg(), &rec.normal);
        let cos_theta = if d < ONE { d } else { ONE };
        let sin_theta = fixed_sqrt(fixed_sub(ONE, fixed_mul(cos_theta, cos_theta)));
        let cannot_refract = fixed_mul(refraction_ratio, sin_theta) > ONE;
        let bent = if cannot_refract || reflectance(cos_theta, self.ir) > x {
            reflect(&unit_direction, &rec.normal)
        } else {
            refract(&unit_direction, &rec.normal, refraction_ratio)
        };
        let direction = if bent.is_zero_vector() {
            unit_direction
        } else {
            bent.unit_vector()
        };
        *scattered = Ray::new_with_values(rec.p, direction);
        true
    }

    /// Reflects or refracts at random, by Schlick's reflectance.
    pub fn scatter(
        &self,
        r_in: &Ray,
        rec: &hit_record,
        attenuation: &mut Color,
        scattered: &mut Ray,
    ) -> (b: bool)
        requires
            self.wf(),
            r_in.wf(),
            !r_in.dir.is_zero(),
            rec.wf(),
        ensures
            exists|x: int|
                is_draw(Material::Dielectric(*self), vec_of(0, 0, 0), x) && (b, *final(attenuation), *final(scattered)) == #[trigger] scatter_spec(
                    Material::Dielectric(*self),
                    *r_in,
                    *rec,
                    vec_of(0, 0, 0),
                    x,
                ),
            is_unit_length(final(scattered).dir),
            final(scattered).wf(),
    {
        let x = random_double();
        let b = self.scatter_with(r_in, rec, x, attenuation, scattered);
        assert(is_draw(Material::Dielectric(*self), vec_of(0, 0, 0), x as int));
        b
    }
}

impl Material {
    pub open spec fn wf(self) -> bool {
        match self {
            Material::Lambertian(m) => m.wf(),
            Material::Metal(m) => m.wf(),
            Material::Dielectric(m) => m.wf(),
        }
    }
}

impl Material {
    /// Scatters a ray that struck a surface of this material: whether it
    /// scatters, with `attenuation` and `scattered` set, for some possible draw.
    pub fn scatter(
        &self,
        r_in: &Ray,
        rec: &hit_record,
        attenuation: &mut Color,
        scattered: &mut Ray,
    ) -> (b: bool)
        requires
            self.wf(),
            r_in.wf(),
            !r_in.dir.is_zero(),
            rec.wf(),
        ensures
            exists|v: Vec3, x: int|
                is_draw(*self, v, x) && (b, *final(attenuation), *final(scattered))
                    == #[trigger] scatter_spec(*self, *r_in, *rec, v, x),
            final(scattered).wf(),
    {
        match self {
            Material::Lambertian(m) => m.scatter(r_in, rec, attenuation, scattered),
            Material::Metal(m) => m.scatter(r_in, rec, attenuation, scattered),
            Material::Dielectric(m) => m.scatter(r_in, rec, attenuation, scattered),
        }
    }
}

} // verus!
