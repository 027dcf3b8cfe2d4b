//! Three-component vectors of fixed-point scalars: points, directions and colours.
use crate::fixed::{
    fdiv, fixed_div, fixed_mul, floor_sqrt, fmul, in_range, isqrt, lemma_mul_in_range, quot, quot_wide,
    saturate, saturate_wide, is_floor_sqrt, lemma_div_bounds, LIMIT, ONE, ONE_SQUARED,
};
use crate::rtweekend::{random_double, random_double_range};
use vstd::prelude::*;

verus! {

/// The bound below which a component counts as near zero, `10^-8`.
pub const NEAR_ZERO: i64 = 10_000;

/// A vector of three raw fixed-point components.
#[derive(Clone, Copy, Debug, PartialEq, Eq, Structural)]
pub struct Vec3 {
    pub x: i64,
    pub y: i64,
    pub z: i64,
}

/// A position in space.
pub type Point3 = Vec3;

/// An RGB colour, one channel per component.
pub type Color = Vec3;

impl Vec3 {
    /// Every component lies in the representable range.
    pub open spec fn wf(self) -> bool {
        in_range(self.x as int) && in_range(self.y as int) && in_range(self.z as int)
    }

    /// All three components are zero.
    pub open spec fn is_zero(self) -> bool {
        self.x == 0 && self.y == 0 && self.z == 0
    }

    /// Every component is below `NEAR_ZERO` in magnitude.
    pub open spec fn is_near_zero(self) -> bool {
        &&& -NEAR_ZERO < self.x < NEAR_ZERO
        &&& -NEAR_ZERO < self.y < NEAR_ZERO
        &&& -NEAR_ZERO < self.z < NEAR_ZERO
    }
}

/// The vector with the given components.
pub open spec fn vec_of(x: int, y: int, z: int) -> Vec3 {
    Vec3 { x: x as i64, y: y as i64, z: z as i64 }
}

/// Exact dot product of the raw components (at scale `ONE * ONE`).
pub open spec fn dot_raw(u: Vec3, v: Vec3) -> int {
    u.x * v.x + u.y * v.y + u.z * v.z
}

/// Saturating sum.
pub open spec fn vadd(u: Vec3, v: Vec3) -> Vec3 {
    vec_of(saturate(u.x + v.x), saturate(u.y + v.y), saturate(u.z + v.z))
}

/// Saturating difference.
pub open spec fn vsub(u: Vec3, v: Vec3) -> Vec3 {
    vec_of(saturate(u.x - v.x), saturate(u.y - v.y), saturate(u.z - v.z))
}

/// Negation, exact within the symmetric range.
pub open spec fn vneg(u: Vec3) -> Vec3 {
    vec_of(-u.x, -u.y, -u.z)
}

/// Component-wise product.
pub open spec fn vmul(u: Vec3, v: Vec3) -> Vec3 {
    vec_of(fmul(u.x as int, v.x as int), fmul(u.y as int, v.y as int), fmul(u.z as int, v.z as int))
}

/// Product with a scalar.
pub open spec fn vscale(u: Vec3, t: int) -> Vec3 {
    vec_of(fmul(u.x as int, t), fmul(u.y as int, t), fmul(u.z as int, t))
}

/// Quotient by a scalar.
pub open spec fn vdiv(u: Vec3, t: int) -> Vec3 {
    vec_of(fdiv(u.x as int, t), fdiv(u.y as int, t), fdiv(u.z as int, t))
}

/// Fixed-point dot product.
pub open spec fn vdot(u: Vec3, v: Vec3) -> int {
    saturate(quot(dot_raw(u, v), ONE as int))
}

/// Fixed-point cross product.
pub open spec fn vcross(u: Vec3, v: Vec3) -> Vec3 {
    vec_of(
        saturate(quot(u.y * v.z - u.z * v.y, ONE as int)),
        saturate(quot(u.z * v.x - u.x * v.z, ONE as int)),
        saturate(quot(u.x * v.y - u.y * v.x, ONE as int)),
    )
}

/// Fixed-point length, rounded down.
pub open spec fn vlen(v: Vec3) -> int {
    saturate(floor_sqrt(dot_raw(v, v)))
}

/// The floor a squared length is lifted to before its root is taken, `2^82`:
/// the root is then at least `2^41`, above `2 * ONE`, so dividing by it loses
/// under one part in `2 * 10^12`.
pub const NORM_FLOOR: u128 = 0x4_0000_0000_0000_0000_0000;

/// The power of two `s` that normalisation scales a vector of squared raw
/// length `n` by: one where `n` already reaches `NORM_FLOOR`, else doubled
/// until `n * s * s` does.
pub open spec fn unit_scale(n: int) -> int
    decreases (if 0 < n < NORM_FLOOR { NORM_FLOOR - n } else { 0 }),
{
    if n <= 0 || n >= NORM_FLOOR {
        1
    } else {
        2 * unit_scale(4 * n)
    }
}

/// The length of a nonzero `v`, scaled by `unit_scale` and rounded up: the
/// divisor that normalises, so that no component of the result overshoots.
pub open spec fn unit_divisor(v: Vec3) -> int {
    let n = dot_raw(v, v);
    let s = unit_scale(n);
    floor_sqrt(n * s * s - 1) + 1
}

/// `v` divided by its length, each component rounded toward zero.
pub open spec fn vunit(v: Vec3) -> Vec3 {
    let m = unit_scale(dot_raw(v, v)) * ONE;
    vec_of(
        quot(v.x * m, unit_divisor(v)),
        quot(v.y * m, unit_divisor(v)),
        quot(v.z * m, unit_divisor(v)),
    )
}

/// Whether `v` has unit length within `10^-9`.
pub open spec fn is_unit_length(v: Vec3) -> bool {
    ONE - UNIT_TOLERANCE <= vlen(v) <= ONE + UNIT_TOLERANCE
}

/// The tolerance of a unit length, `10^-9`.
pub const UNIT_TOLERANCE: i64 = 1000;

/// `v` mirrored about the plane with normal `n`: `v - 2 (v . n) n`.
pub open spec fn vreflect(v: Vec3, n: Vec3) -> Vec3 {
    vsub(v, vscale(vscale(n, vdot(v, n)), 2 * ONE))
}

/// How many candidates a rejection sampler draws before it settles for a fixed
/// point of its region; with a fair source each candidate is accepted with
/// probability above one half, so the fallback is never reached in practice.
pub const REJECTION_TRIES: u32 = 1000;

/// A possible outcome of [`random_unit_vector`]: a nonzero point of the open
/// unit ball, normalised.
pub open spec fn is_unit_draw(u: Vec3) -> bool {
    exists|p: Vec3| p.wf() && in_unit_ball(p) && !p.is_zero() && u == vunit(p)
}

/// Whether `v` lies strictly inside the unit ball.
pub open spec fn in_unit_ball(v: Vec3) -> bool {
    dot_raw(v, v) < ONE * ONE
}

/// Exact dot product of the raw components.
pub fn dot_wide(u: &Vec3, v: &Vec3) -> (r: i128)
    requires
        u.wf(),
        v.wf(),
    ensures
        r == dot_raw(*u, *v),
        -3 * LIMIT * LIMIT <= r <= 3 * LIMIT * LIMIT,
{
    proof {
        lemma_mul_in_range(u.x as int, v.x as int);
        lemma_mul_in_range(u.y as int, v.y as int);
        lemma_mul_in_range(u.z as int, v.z as int);
    }
    u.x as i128 * v.x as i128 + u.y as i128 * v.y as i128 + u.z as i128 * v.z as i128
}

/// One component of a cross product: `(a * d - b * c) / ONE`.
fn cross_component(a: i64, b: i64, c: i64, d: i64) -> (r: i64)
    requires
        in_range(a as int),
        in_range(b as int),
        in_range(c as int),
        in_range(d as int),
    ensures
        r == saturate(quot(a * d - b * c, ONE as int)),
{
    proof {
        lemma_mul_in_range(a as int, d as int);
        lemma_mul_in_range(b as int, c as int);
    }
    saturate_wide(quot_wide(a as i128 * d as i128 - b as i128 * c as i128, ONE as i128))
}

/// A component of a normalised vector is at most `ONE` in magnitude: if
/// `|c| s <= l` then `|c s ONE / l| <= ONE`.
proof fn lemma_unit_component(c: int, s: int, l: int)
    requires
        s >= 1,
        l > 0,
        c * c * (s * s) <= l * l,
    ensures
        -ONE <= quot(c * (s * ONE), l) <= ONE,
{
    let a = if c >= 0 { c } else { -c };
    assert(a * a == c * c) by (nonlinear_arith)
        requires
            a == if c >= 0 { c } else { -c },
    ;
    assert(a * s <= l) by (nonlinear_arith)
        requires
            a * a * (s * s) <= l * l,
            a >= 0,
            s >= 1,
            l > 0,
    {
        if a * s > l {
            assert((a * s) * (a * s) > l * l) by (nonlinear_arith)
                requires
                    a * s > l,
                    l > 0,
            ;
        }
    }
    assert(c * (s * ONE) == if c >= 0 { a * (s * ONE) } else { -(a * (s * ONE)) }) by (nonlinear_arith)
        requires
            a == if c >= 0 { c } else { -c },
    ;
    assert(a * (s * ONE) >= 0) by (nonlinear_arith)
        requires
            a >= 0,
            s >= 1,
            ONE > 0,
    ;
    let q = (a * (s * ONE)) / l;
    lemma_div_bounds(a * (s * ONE), l);
    assert(q <= ONE) by (nonlinear_arith)
        requires
            l * q <= a * (s * ONE),
            a * s <= l,
            l > 0,
            ONE > 0,
    ;
}

/// A component scaled by `s` stays within the divisor: `|c s| <= l`, and
/// `(c s) ONE` is `c (s ONE)`.
proof fn lemma_scaled_component(c: int, s: int, l: int)
    requires
        (c * s) * (c * s) <= l * l,
        l > 0,
    ensures
        -l <= c * s <= l,
        (c * s) * ONE == c * (s * ONE),
{
    assert(-l <= c * s <= l) by (nonlinear_arith)
        requires
            (c * s) * (c * s) <= l * l,
            l > 0,
    {
        if c * s > l {
            assert((c * s) * (c * s) > l * l) by (nonlinear_arith)
                requires
                    c * s > l,
                    l > 0,
            ;
        }
        if c * s < -l {
            assert((c * s) * (c * s) > l * l) by (nonlinear_arith)
                requires
                    c * s < -l,
                    l > 0,
            ;
        }
    }
    assert((c * s) * ONE == c * (s * ONE)) by (nonlinear_arith);
}

/// What `unit_scale` achieves: for `n >= 1` it is a positive power of two
/// lifting `n` to at least `NORM_FLOOR`, and below `4 * NORM_FLOOR` when it
/// scales at all.
pub proof fn lemma_unit_scale(n: int)
    requires
        n >= 1,
    ensures
        unit_scale(n) >= 1,
        n * unit_scale(n) * unit_scale(n) >= NORM_FLOOR,
        n < NORM_FLOOR ==> n * unit_scale(n) * unit_scale(n) < 4 * NORM_FLOOR,
        n >= NORM_FLOOR ==> unit_scale(n) == 1,
    decreases (if n < NORM_FLOOR { NORM_FLOOR - n } else { 0 }),
{
    if n < NORM_FLOOR {
        lemma_unit_scale(4 * n);
        let t = unit_scale(4 * n);
        assert(n * (2 * t) * (2 * t) == 4 * n * t * t) by (nonlinear_arith);
        if 4 * n >= NORM_FLOOR {
            assert(t == 1);
        }
    }
}

/// One normalised component `q = quot(c * k, l)` brackets `c * k` between
/// `|q| * l` and `(|q| + 1) * l`, and so do their squares.
proof fn lemma_unit_component_squares(c: int, k: int, l: int)
    requires
        k > 0,
        l > 0,
    ensures
        ({
            let q = quot(c * k, l);
            let aq = if q >= 0 { q } else { -q };
            &&& q * q * (l * l) <= c * c * (k * k)
            &&& c * c * (k * k) < (aq + 1) * (aq + 1) * (l * l)
            &&& aq * aq == q * q
        }),
{
    let ac = if c >= 0 { c } else { -c };
    assert(ac * k >= 0) by (nonlinear_arith)
        requires
            ac >= 0,
            k > 0,
    ;
    assert(c * k == if c >= 0 { ac * k } else { -(ac * k) }) by (nonlinear_arith)
        requires
            ac == if c >= 0 { c } else { -c },
    ;
    let aq = (ac * k) / l;
    lemma_div_bounds(ac * k, l);
    let q = quot(c * k, l);
    assert(q == aq || q == -aq);
    assert(q * q == aq * aq) by (nonlinear_arith)
        requires
            q == aq || q == -aq,
    ;
    assert(c * c == ac * ac) by (nonlinear_arith)
        requires
            ac == c || ac == -c,
    ;
    assert(q * q * (l * l) <= c * c * (k * k)) by (nonlinear_arith)
        requires
            l * aq <= ac * k,
            aq >= 0,
            l > 0,
            q * q == aq * aq,
            c * c == ac * ac,
    {
        assert((l * aq) * (l * aq) <= (ac * k) * (ac * k)) by (nonlinear_arith)
            requires
                0 <= l * aq <= ac * k,
        ;
    }
    assert(c * c * (k * k) < (aq + 1) * (aq + 1) * (l * l)) by (nonlinear_arith)
        requires
            ac * k < l * aq + l,
            0 <= ac * k,
            l > 0,
            aq >= 0,
            c * c == ac * ac,
    {
        assert((ac * k) * (ac * k) < (l * (aq + 1)) * (l * (aq + 1))) by (nonlinear_arith)
            requires
                0 <= ac * k < l * (aq + 1),
        ;
    }
    assert(aq * aq == q * q) by (nonlinear_arith)
        requires
            q == aq || q == -aq,
    ;
}

/// Normalising gives unit length within `4 * 10^-12`: the squared length of
/// `vunit(v)` is at most `ONE * ONE` and above it less `7 * ONE + 3`, so its
/// rounded length lies in `[ONE - 4, ONE]`, well within `10^-9` of one.
pub proof fn lemma_unit_vector_length(v: Vec3)
    requires
        v.wf(),
        !v.is_zero(),
    ensures
        ONE * ONE - 7 * ONE - 3 < dot_raw(vunit(v), vunit(v)) <= ONE * ONE,
        ONE - 4 <= vlen(vunit(v)) <= ONE,
        -ONE <= vunit(v).x <= ONE,
        -ONE <= vunit(v).y <= ONE,
        -ONE <= vunit(v).z <= ONE,
{
    let n = dot_raw(v, v);
    let one = ONE as int;
    lemma_norm_nonneg(v);
    lemma_unit_scale(n);
    let sc = unit_scale(n);
    let k = sc * one;
    let ns = n * sc * sc;
    crate::fixed::lemma_floor_sqrt_exists(ns - 1);
    let f = floor_sqrt(ns - 1);
    let l = f + 1;
    assert(l == unit_divisor(v));
    assert(ns <= l * l && (l - 1) * (l - 1) < ns) by (nonlinear_arith)
        requires
            f * f <= ns - 1 < (f + 1) * (f + 1),
            l == f + 1,
    ;
    assert(l >= 2 * one) by (nonlinear_arith)
        requires
            ns <= l * l,
            ns >= NORM_FLOOR,
            NORM_FLOOR >= 4 * one * one,
            l >= 1,
            one > 0,
    ;
    let u = vunit(v);
    lemma_unit_component_squares(v.x as int, k, l);
    lemma_unit_component_squares(v.y as int, k, l);
    lemma_unit_component_squares(v.z as int, k, l);
    let (qx, qy, qz) = (quot(v.x * k, l), quot(v.y * k, l), quot(v.z * k, l));
    assert(v.x * v.x <= n && v.y * v.y <= n && v.z * v.z <= n) by (nonlinear_arith)
        requires
            n == v.x * v.x + v.y * v.y + v.z * v.z,
    ;
    assert(v.x * v.x * (sc * sc) <= l * l && v.y * v.y * (sc * sc) <= l * l && v.z * v.z * (sc
        * sc) <= l * l) by (nonlinear_arith)
        requires
            v.x * v.x <= n,
            v.y * v.y <= n,
            v.z * v.z <= n,
            n * sc * sc <= l * l,
            sc >= 1,
    ;
    lemma_unit_component(v.x as int, sc, l);
    lemma_unit_component(v.y as int, sc, l);
    lemma_unit_component(v.z as int, sc, l);
    assert(u.x == qx && u.y == qy && u.z == qz);
    let s = qx * qx + qy * qy + qz * qz;
    assert(s == dot_raw(u, u));
    assert(n * (k * k) == ns * (one * one)) by (nonlinear_arith)
        requires
            k == sc * one,
            ns == n * sc * sc,
    ;
    // Upper bound.
    assert(s * (l * l) <= n * (k * k)) by (nonlinear_arith)
        requires
            qx * qx * (l * l) <= v.x * v.x * (k * k),
            qy * qy * (l * l) <= v.y * v.y * (k * k),
            qz * qz * (l * l) <= v.z * v.z * (k * k),
            s == qx * qx + qy * qy + qz * qz,
            n == v.x * v.x + v.y * v.y + v.z * v.z,
    ;
    assert(s <= one * one) by (nonlinear_arith)
        requires
            s * (l * l) <= ns * (one * one),
            ns <= l * l,
            l > 0,
    {
        assert(ns * (one * one) <= (l * l) * (one * one)) by (nonlinear_arith)
            requires
                ns <= l * l,
        ;
    }
    // Lower bound.
    let ax = if qx >= 0 { qx } else { -qx };
    let ay = if qy >= 0 { qy } else { -qy };
    let az = if qz >= 0 { qz } else { -qz };
    let t = (ax + 1) * (ax + 1) + (ay + 1) * (ay + 1) + (az + 1) * (az + 1);
    assert(t * (l * l) > n * (k * k)) by (nonlinear_arith)
        requires
            v.x * v.x * (k * k) < (ax + 1) * (ax + 1) * (l * l),
            v.y * v.y * (k * k) < (ay + 1) * (ay + 1) * (l * l),
            v.z * v.z * (k * k) < (az + 1) * (az + 1) * (l * l),
            t == (ax + 1) * (ax + 1) + (ay + 1) * (ay + 1) + (az + 1) * (az + 1),
            n == v.x * v.x + v.y * v.y + v.z * v.z,
    ;
    assert(t > one * one - one) by (nonlinear_arith)
        requires
            t * (l * l) > ns * (one * one),
            (l - 1) * (l - 1) < ns,
            l >= 2 * one,
            one > 0,
    {
        assert(ns * (one * one) >= ((l - 1) * (l - 1)) * (one * one)) by (nonlinear_arith)
            requires
                (l - 1) * (l - 1) < ns,
        ;
        assert(((l - 1) * (l - 1)) * (one * one) >= (l * l) * (one * one - one)) by (nonlinear_arith)
            requires
                l >= 2 * one,
                one > 0,
        ;
        assert(t * (l * l) > (l * l) * (one * one - one));
    }
    assert(s > one * one - 7 * one - 3) by (nonlinear_arith)
        requires
            t > one * one - one,
            t == (ax + 1) * (ax + 1) + (ay + 1) * (ay + 1) + (az + 1) * (az + 1),
            s == ax * ax + ay * ay + az * az,
            0 <= ax <= one,
            0 <= ay <= one,
            0 <= az <= one,
    ;
    // Rounded length.
    crate::fixed::lemma_floor_sqrt_exists(s);
    let len = floor_sqrt(s);
    assert(one - 4 <= len <= one) by (nonlinear_arith)
        requires
            len * len <= s < (len + 1) * (len + 1),
            len >= 0,
            one * one - 7 * one - 3 < s <= one * one,
            one == 1_000_000_000_000,
    ;
}

/// One component of a reflection that rounds nowhere: `m = n_i * d / ONE` is
/// exact, and so are its double and the products with `-d`.
proof fn lemma_reflect_component(vi: int, ni: int, d: int)
    requires
        -LIMIT / 8 <= vi <= LIMIT / 8,
        -ONE <= ni <= ONE,
        -(3 * LIMIT / 8) <= d <= 3 * LIMIT / 8,
        (ni * d) % (ONE as int) == 0,
    ensures
        fmul(ni, d) * ONE == ni * d,
        -(3 * LIMIT / 8) <= fmul(ni, d) <= 3 * LIMIT / 8,
        fmul(fmul(ni, d), 2 * ONE) == 2 * fmul(ni, d),
        fmul(ni, -d) == -fmul(ni, d),
        fmul(-fmul(ni, d), 2 * ONE) == -2 * fmul(ni, d),
{
    let one = ONE as int;
    vstd::arithmetic::div_mod::lemma_fundamental_div_mod(ni * d, one);
    let m = (ni * d) / one;
    assert(ni * d == m * one) by (nonlinear_arith)
        requires
            ni * d == one * m + 0,
    ;
    crate::fixed::lemma_quot_mul_exact(m, one);
    assert(-(3 * LIMIT / 8) <= m <= 3 * LIMIT / 8) by (nonlinear_arith)
        requires
            ni * d == m * one,
            -one <= ni <= one,
            -(3 * LIMIT / 8) <= d <= 3 * LIMIT / 8,
            one > 0,
    {
        assert(-(one * (3 * LIMIT / 8)) <= ni * d <= one * (3 * LIMIT / 8)) by (nonlinear_arith)
            requires
                -one <= ni <= one,
                -(3 * LIMIT / 8) <= d <= 3 * LIMIT / 8,
        ;
    }
    assert(fmul(ni, d) == m);
    assert(m * 2 * one == (2 * m) * one && m * (2 * one) == (2 * m) * one) by (nonlinear_arith);
    crate::fixed::lemma_quot_mul_exact(2 * m, one);
    assert(ni * (-d) == (-m) * one) by (nonlinear_arith)
        requires
            ni * d == m * one,
    ;
    crate::fixed::lemma_quot_mul_exact(-m, one);
    assert((-m) * (2 * one) == (-2 * m) * one) by (nonlinear_arith);
    crate::fixed::lemma_quot_mul_exact(-2 * m, one);
}

/// Reflecting twice about the same unit normal gives back the vector, wherever
/// no step rounds: the normal has exactly unit length, the dot product `v . n`
/// and each product of a normal component with it are whole in fixed point,
/// and `v` is small enough (an eighth of the range) that nothing saturates.
pub proof fn lemma_reflect_twice(v: Vec3, n: Vec3)
    requires
        n.wf(),
        dot_raw(n, n) == ONE * ONE,
        -LIMIT / 8 <= v.x <= LIMIT / 8,
        -LIMIT / 8 <= v.y <= LIMIT / 8,
        -LIMIT / 8 <= v.z <= LIMIT / 8,
        dot_raw(v, n) % (ONE as int) == 0,
        (n.x * (dot_raw(v, n) / (ONE as int))) % (ONE as int) == 0,
        (n.y * (dot_raw(v, n) / (ONE as int))) % (ONE as int) == 0,
        (n.z * (dot_raw(v, n) / (ONE as int))) % (ONE as int) == 0,
    ensures
        vreflect(vreflect(v, n), n) == v,
{
    let one = ONE as int;
    let vn = dot_raw(v, n);
    assert(-one <= n.x <= one && -one <= n.y <= one && -one <= n.z <= one) by (nonlinear_arith)
        requires
            n.x * n.x + n.y * n.y + n.z * n.z == one * one,
            one > 0,
    ;
    vstd::arithmetic::div_mod::lemma_fundamental_div_mod(vn, one);
    let d = vn / one;
    assert(vn == d * one) by (nonlinear_arith)
        requires
            vn == one * d + 0,
    ;
    crate::fixed::lemma_quot_mul_exact(d, one);
    assert(-(3 * LIMIT / 8) <= d <= 3 * LIMIT / 8) by (nonlinear_arith)
        requires
            vn == d * one,
            vn == v.x * n.x + v.y * n.y + v.z * n.z,
            -LIMIT / 8 <= v.x <= LIMIT / 8,
            -LIMIT / 8 <= v.y <= LIMIT / 8,
            -LIMIT / 8 <= v.z <= LIMIT / 8,
            -one <= n.x <= one,
            -one <= n.y <= one,
            -one <= n.z <= one,
            one > 0,
    {
        assert(-(LIMIT / 8 * one) <= v.x * n.x <= LIMIT / 8 * one) by (nonlinear_arith)
            requires
                -LIMIT / 8 <= v.x <= LIMIT / 8,
                -one <= n.x <= one,
        ;
        assert(-(LIMIT / 8 * one) <= v.y * n.y <= LIMIT / 8 * one) by (nonlinear_arith)
            requires
                -LIMIT / 8 <= v.y <= LIMIT / 8,
                -one <= n.y <= one,
        ;
        assert(-(LIMIT / 8 * one) <= v.z * n.z <= LIMIT / 8 * one) by (nonlinear_arith)
            requires
                -LIMIT / 8 <= v.z <= LIMIT / 8,
                -one <= n.z <= one,
        ;
    }
    assert(vdot(v, n) == d);
    lemma_reflect_component(v.x as int, n.x as int, d);
    lemma_reflect_component(v.y as int, n.y as int, d);
    lemma_reflect_component(v.z as int, n.z as int, d);
    let (mx, my, mz) = (fmul(n.x as int, d), fmul(n.y as int, d), fmul(n.z as int, d));
    let r = vreflect(v, n);
    assert(r.x == v.x - 2 * mx && r.y == v.y - 2 * my && r.z == v.z - 2 * mz);
    let (px, py, pz) = (mx * n.x, my * n.y, mz * n.z);
    assert(px * one == n.x * n.x * d) by (nonlinear_arith)
        requires
            mx * one == n.x * d,
            px == mx * n.x,
    ;
    assert(py * one == n.y * n.y * d) by (nonlinear_arith)
        requires
            my * one == n.y * d,
            py == my * n.y,
    ;
    assert(pz * one == n.z * n.z * d) by (nonlinear_arith)
        requires
            mz * one == n.z * d,
            pz == mz * n.z,
    ;
    assert((px + py + pz) * one == (n.x * n.x + n.y * n.y + n.z * n.z) * d) by (nonlinear_arith)
        requires
            px * one == n.x * n.x * d,
            py * one == n.y * n.y * d,
            pz * one == n.z * n.z * d,
    ;
    assert(px + py + pz == d * one) by (nonlinear_arith)
        requires
            (px + py + pz) * one == (one * one) * d,
            one > 0,
    ;
    assert(r.x * n.x == v.x * n.x - 2 * px) by (nonlinear_arith)
        requires
            r.x == v.x - 2 * mx,
            px == mx * n.x,
    ;
    assert(r.y * n.y == v.y * n.y - 2 * py) by (nonlinear_arith)
        requires
            r.y == v.y - 2 * my,
            py == my * n.y,
    ;
    assert(r.z * n.z == v.z * n.z - 2 * pz) by (nonlinear_arith)
        requires
            r.z == v.z - 2 * mz,
            pz == mz * n.z,
    ;
    assert(dot_raw(r, n) == -d * one);
    crate::fixed::lemma_quot_mul_exact(-d, one);
    assert(-d * one == (-d) * one);
    assert(vdot(r, n) == -d);
}

/// Negation keeps the length.
pub proof fn lemma_neg_length(u: Vec3)
    requires
        u.wf(),
    ensures
        vlen(vneg(u)) == vlen(u),
        vneg(u).wf(),
{
    let m = vneg(u);
    assert(dot_raw(m, m) == dot_raw(u, u)) by (nonlinear_arith)
        requires
            m.x == -u.x,
            m.y == -u.y,
            m.z == -u.z,
    ;
}

/// Reflecting twice about the same unit normal gives back the vector within
/// rounding: for any `v` within an eighth of the range and any normal of exactly
/// unit length, each component comes back within `18 * 10^-12`.
pub proof fn lemma_reflect_twice_within(v: Vec3, n: Vec3)
    requires
        n.wf(),
        dot_raw(n, n) == ONE * ONE,
        -LIMIT / 8 <= v.x <= LIMIT / 8,
        -LIMIT / 8 <= v.y <= LIMIT / 8,
        -LIMIT / 8 <= v.z <= LIMIT / 8,
    ensures
        -18 <= vreflect(vreflect(v, n), n).x - v.x <= 18,
        -18 <= vreflect(vreflect(v, n), n).y - v.y <= 18,
        -18 <= vreflect(vreflect(v, n), n).z - v.z <= 18,
{
    let one = ONE as int;
    let lim = LIMIT as int;
    assert(-one <= n.x <= one && -one <= n.y <= one && -one <= n.z <= one) by (nonlinear_arith)
        requires
            n.x * n.x + n.y * n.y + n.z * n.z == one * one,
            one > 0,
    ;
    let vn = dot_raw(v, n);
    assert(-(3 * (lim / 8) * one) <= vn <= 3 * (lim / 8) * one) by (nonlinear_arith)
        requires
            vn == v.x * n.x + v.y * n.y + v.z * n.z,
            -(lim / 8) <= v.x <= lim / 8,
            -(lim / 8) <= v.y <= lim / 8,
            -(lim / 8) <= v.z <= lim / 8,
            -one <= n.x <= one,
            -one <= n.y <= one,
            -one <= n.z <= one,
    {
        assert(-(lim / 8 * one) <= v.x * n.x <= lim / 8 * one) by (nonlinear_arith)
            requires
                -(lim / 8) <= v.x <= lim / 8,
                -one <= n.x <= one,
        ;
        assert(-(lim / 8 * one) <= v.y * n.y <= lim / 8 * one) by (nonlinear_arith)
            requires
                -(lim / 8) <= v.y <= lim / 8,
                -one <= n.y <= one,
        ;
        assert(-(lim / 8 * one) <= v.z * n.z <= lim / 8 * one) by (nonlinear_arith)
            requires
                -(lim / 8) <= v.z <= lim / 8,
                -one <= n.z <= one,
        ;
    }
    let d = quot(vn, one);
    crate::fixed::lemma_quot_error(vn, one);
    crate::fixed::lemma_quot_bound(vn, one, 3 * (lim / 8) * one);
    assert(vdot(v, n) == d);
    // First reflection: m = n d / ONE, r = v - 2 m.
    let (mx, my, mz) = (quot(n.x * d, one), quot(n.y * d, one), quot(n.z * d, one));
    lemma_reflect_error_component(n.x as int, d);
    lemma_reflect_error_component(n.y as int, d);
    lemma_reflect_error_component(n.z as int, d);
    let r = vreflect(v, n);
    assert(r.x == v.x - 2 * mx && r.y == v.y - 2 * my && r.z == v.z - 2 * mz);
    // The second dot product is -d within seven.
    let rn = dot_raw(r, n);
    let (ex, ey, ez) = (n.x * d - one * mx, n.y * d - one * my, n.z * d - one * mz);
    let sm = mx * n.x + my * n.y + mz * n.z;
    let se = ex * n.x + ey * n.y + ez * n.z;
    assert(r.x * n.x == v.x * n.x - 2 * (mx * n.x)) by (nonlinear_arith)
        requires
            r.x == v.x - 2 * mx,
    ;
    assert(r.y * n.y == v.y * n.y - 2 * (my * n.y)) by (nonlinear_arith)
        requires
            r.y == v.y - 2 * my,
    ;
    assert(r.z * n.z == v.z * n.z - 2 * (mz * n.z)) by (nonlinear_arith)
        requires
            r.z == v.z - 2 * mz,
    ;
    assert(rn == vn - 2 * sm);
    assert(one * (mx * n.x) == d * (n.x * n.x) - ex * n.x) by (nonlinear_arith)
        requires
            ex == n.x * d - one * mx,
    ;
    assert(one * (my * n.y) == d * (n.y * n.y) - ey * n.y) by (nonlinear_arith)
        requires
            ey == n.y * d - one * my,
    ;
    assert(one * (mz * n.z) == d * (n.z * n.z) - ez * n.z) by (nonlinear_arith)
        requires
            ez == n.z * d - one * mz,
    ;
    assert(one * sm == d * (n.x * n.x + n.y * n.y + n.z * n.z) - se) by (nonlinear_arith)
        requires
            one * (mx * n.x) == d * (n.x * n.x) - ex * n.x,
            one * (my * n.y) == d * (n.y * n.y) - ey * n.y,
            one * (mz * n.z) == d * (n.z * n.z) - ez * n.z,
            sm == mx * n.x + my * n.y + mz * n.z,
            se == ex * n.x + ey * n.y + ez * n.z,
    ;
    assert(one * rn == -(d * (one * one)) + one * (vn - one * d) + 2 * se) by (nonlinear_arith)
        requires
            rn == vn - 2 * sm,
            one * sm == d * (one * one) - se,
    ;
    assert(-3 * one * one < ex * n.x + ey * n.y + ez * n.z < 3 * one * one) by (nonlinear_arith)
        requires
            -one < ex < one,
            -one < ey < one,
            -one < ez < one,
            -one <= n.x <= one,
            -one <= n.y <= one,
            -one <= n.z <= one,
            one > 0,
    {
        assert(-(one * one) <= ex * n.x <= one * one) by (nonlinear_arith)
            requires
                -one < ex < one,
                -one <= n.x <= one,
        ;
        assert(-(one * one) <= ey * n.y <= one * one) by (nonlinear_arith)
            requires
                -one < ey < one,
                -one <= n.y <= one,
        ;
        assert(-(one * one) <= ez * n.z <= one * one) by (nonlinear_arith)
            requires
                -one < ez < one,
                -one <= n.z <= one,
        ;
        assert(ex * n.x < one * one) by (nonlinear_arith)
            requires
                -one < ex < one,
                -one <= n.x <= one,
                one > 0,
        {
            if n.x >= 0 {
                assert(ex * n.x <= (one - 1) * n.x) by (nonlinear_arith)
                    requires
                        ex <= one - 1,
                        n.x >= 0,
                ;
                assert((one - 1) * n.x < one * one) by (nonlinear_arith)
                    requires
                        n.x <= one,
                        one > 0,
                        n.x >= 0,
                ;
            } else {
                assert(ex * n.x <= (-one + 1) * n.x) by (nonlinear_arith)
                    requires
                        ex >= -one + 1,
                        n.x < 0,
                ;
                assert((-one + 1) * n.x < one * one) by (nonlinear_arith)
                    requires
                        -one <= n.x,
                        one > 0,
                        n.x < 0,
                ;
            }
        }
    }
    assert(-8 * one < rn + d * one < 8 * one) by (nonlinear_arith)
        requires
            one * rn == -(d * (one * one)) + one * (vn - one * d) + 2 * (ex * n.x + ey * n.y + ez * n.z),
            -one < vn - one * d < one,
            -3 * one * one < ex * n.x + ey * n.y + ez * n.z < 3 * one * one,
            one > 0,
    ;
    let d2 = quot(rn, one);
    crate::fixed::lemma_quot_error(rn, one);
    assert(-8 <= d2 + d <= 8) by (nonlinear_arith)
        requires
            -one < rn - one * d2 < one,
            -8 * one < rn + d * one < 8 * one,
            one > 0,
    ;
    assert(vdot(r, n) == d2);
    // Second reflection: m2 = n d2 / ONE, and m + m2 is small.
    lemma_reflect_error_component(n.x as int, d2);
    lemma_reflect_error_component(n.y as int, d2);
    lemma_reflect_error_component(n.z as int, d2);
    let (px, py, pz) = (quot(n.x * d2, one), quot(n.y * d2, one), quot(n.z * d2, one));
    lemma_sum_small(n.x as int, d, d2, mx, px);
    lemma_sum_small(n.y as int, d, d2, my, py);
    lemma_sum_small(n.z as int, d, d2, mz, pz);
    let f = vreflect(r, n);
    assert(f.x == r.x - 2 * px && f.y == r.y - 2 * py && f.z == r.z - 2 * pz);
}

/// One component of a reflection's correction: `m = quot(n_i d, ONE)` is within
/// the range, `fmul(n_i, d) == m`, doubling it is exact, and it misses `n_i d /
/// ONE` by less than one.
proof fn lemma_reflect_error_component(ni: int, d: int)
    requires
        -ONE <= ni <= ONE,
        -(3 * (LIMIT / 8) + 8) <= d <= 3 * (LIMIT / 8) + 8,
    ensures
        fmul(ni, d) == quot(ni * d, ONE as int),
        -(3 * (LIMIT / 8) + 8) <= quot(ni * d, ONE as int) <= 3 * (LIMIT / 8) + 8,
        fmul(quot(ni * d, ONE as int), 2 * ONE) == 2 * quot(ni * d, ONE as int),
        -(ONE as int) < ni * d - ONE * quot(ni * d, ONE as int) < ONE,
{
    let one = ONE as int;
    let b = 3 * (LIMIT / 8) + 8;
    assert(-(b * one) <= ni * d <= b * one) by (nonlinear_arith)
        requires
            -one <= ni <= one,
            -b <= d <= b,
    ;
    crate::fixed::lemma_quot_bound(ni * d, one, b * one);
    vstd::arithmetic::div_mod::lemma_div_multiples_vanish(b, one);
    assert(b * one == one * b) by (nonlinear_arith);
    crate::fixed::lemma_quot_error(ni * d, one);
    let m = quot(ni * d, one);
    assert(m * (2 * one) == (2 * m) * one) by (nonlinear_arith);
    crate::fixed::lemma_quot_mul_exact(2 * m, one);
}

/// The two corrections of a double reflection nearly cancel: with `d2` within
/// eight of `-d`, `|m + m2| <= 9`.
proof fn lemma_sum_small(ni: int, d: int, d2: int, m: int, m2: int)
    requires
        -ONE <= ni <= ONE,
        -8 <= d2 + d <= 8,
        -(ONE as int) < ni * d - ONE * m < ONE,
        -(ONE as int) < ni * d2 - ONE * m2 < ONE,
    ensures
        -9 <= m + m2 <= 9,
{
    let one = ONE as int;
    assert(-8 * one <= ni * (d + d2) <= 8 * one) by (nonlinear_arith)
        requires
            -one <= ni <= one,
            -8 <= d2 + d <= 8,
    ;
    assert(-10 * one < one * (m + m2) < 10 * one) by (nonlinear_arith)
        requires
            -8 * one <= ni * (d + d2) <= 8 * one,
            -one < ni * d - one * m < one,
            -one < ni * d2 - one * m2 < one,
    ;
    assert(-10 < m + m2 < 10) by (nonlinear_arith)
        requires
            -10 * one < one * (m + m2) < 10 * one,
            one > 0,
    ;
}

/// Normalising a vector of exactly unit length gives it back.
pub proof fn lemma_unit_of_unit(v: Vec3)
    requires
        dot_raw(v, v) == ONE * ONE,
    ensures
        vunit(v) == v,
{
    let one = ONE as int;
    reveal_with_fuel(unit_scale, 3);
    assert(unit_scale(one * one) == 4);
    assert(dot_raw(v, v) * 4 * 4 - 1 == 16 * one * one - 1);
    assert(is_floor_sqrt(16 * one * one - 1, 4 * one - 1)) by (nonlinear_arith)
        requires
            one == 1_000_000_000_000,
    ;
    crate::fixed::lemma_floor_sqrt_is(16 * one * one - 1, 4 * one - 1);
    assert(unit_divisor(v) == 4 * one);
    assert(4 * one == 4 * one);
    crate::fixed::lemma_quot_mul_exact(v.x as int, 4 * one);
    crate::fixed::lemma_quot_mul_exact(v.y as int, 4 * one);
    crate::fixed::lemma_quot_mul_exact(v.z as int, 4 * one);
}

/// Exact `dot_raw(v, v)` is nonnegative, and positive for a nonzero `v`.
proof fn lemma_norm_nonneg(v: Vec3)
    ensures
        dot_raw(v, v) >= 0,
        !v.is_zero() ==> dot_raw(v, v) >= 1,
{
    assert(dot_raw(v, v) >= 0 && (!v.is_zero() ==> dot_raw(v, v) >= 1)) by (nonlinear_arith)
        requires
            dot_raw(v, v) == v.x * v.x + v.y * v.y + v.z * v.z,
            v.is_zero() == (v.x == 0 && v.y == 0 && v.z == 0),
    ;
}

impl Vec3 {
    /// The zero vector.
    pub fn new() -> (r: Vec3)
        ensures
            r.is_zero(),
            r.wf(),
    {
        Vec3 { x: 0, y: 0, z: 0 }
    }

    /// The vector with the given raw components, each brought into range.
    pub fn new_with_values(e0: i64, e1: i64, e2: i64) -> (r: Vec3)
        ensures
            r == vec_of(saturate(e0 as int), saturate(e1 as int), saturate(e2 as int)),
            r.wf(),
    {
        Vec3 { x: saturate_wide(e0 as i128), y: saturate_wide(e1 as i128), z: saturate_wide(e2 as i128) }
    }

    pub fn x(&self) -> (r: i64)
        ensures
            r == self.x,
    {
        self.x
    }

    pub fn y(&self) -> (r: i64)
        ensures
            r == self.y,
    {
        self.y
    }

    pub fn z(&self) -> (r: i64)
        ensures
            r == self.z,
    {
        self.z
    }

    /// The component at `i`: `x`, `y` or `z`.
    pub fn index(&self, i: usize) -> (r: i64)
        requires
            i < 3,
        ensures
            r == (if i == 0 { self.x } else if i == 1 { self.y } else { self.z }),
    {
        if i == 0 {
            self.x
        } else if i == 1 {
            self.y
        } else {
            self.z
        }
    }

    /// Saturating sum.
    pub fn add(self, other: Vec3) -> (r: Vec3)
        requires
            self.wf(),
            other.wf(),
        ensures
            r == vadd(self, other),
            r.wf(),
    {
        Vec3 {
            x: saturate_wide(self.x as i128 + other.x as i128),
            y: saturate_wide(self.y as i128 + other.y as i128),
            z: saturate_wide(self.z as i128 + other.z as i128),
        }
    }

    /// Saturating difference.
    pub fn sub(self, other: Vec3) -> (r: Vec3)
        requires
            self.wf(),
            other.wf(),
        ensures
            r == vsub(self, other),
            r.wf(),
    {
        Vec3 {
            x: saturate_wide(self.x as i128 - other.x as i128),
            y: saturate_wide(self.y as i128 - other.y as i128),
            z: saturate_wide(self.z as i128 - other.z as i128),
        }
    }

    /// The opposite vector.
    pub fn neg(self) -> (r: Vec3)
        requires
            self.wf(),
        ensures
            r == vneg(self),
            r.wf(),
    {
        Vec3 { x: -self.x, y: -self.y, z: -self.z }
    }

    /// Component-wise product.
    pub fn mul(self, other: Vec3) -> (r: Vec3)
        requires
            self.wf(),
            other.wf(),
        ensures
            r == vmul(self, other),
            r.wf(),
    {
        Vec3 { x: fixed_mul(self.x, other.x), y: fixed_mul(self.y, other.y), z: fixed_mul(self.z, other.z) }
    }

    /// Product with the scalar `t`.
    pub fn scale(self, t: i64) -> (r: Vec3)
        requires
            self.wf(),
            in_range(t as int),
        ensures
            r == vscale(self, t as int),
            r.wf(),
    {
        Vec3 { x: fixed_mul(self.x, t), y: fixed_mul(self.y, t), z: fixed_mul(self.z, t) }
    }

    /// Quotient by the nonzero scalar `t`.
    pub fn div(self, t: i64) -> (r: Vec3)
        requires
            self.wf(),
            in_range(t as int),
            t != 0,
        ensures
            r == vdiv(self, t as int),
            r.wf(),
    {
        Vec3 { x: fixed_div(self.x, t), y: fixed_div(self.y, t), z: fixed_div(self.z, t) }
    }

    /// Fixed-point length squared.
    pub fn length_squared(&self) -> (r: i64)
        requires
            self.wf(),
        ensures
            r == vdot(*self, *self),
            in_range(r as int),
    {
        Vec3::dot(self, self)
    }

    /// Fixed-point length, rounded down.
    pub fn length(&self) -> (r: i64)
        requires
            self.wf(),
        ensures
            r == vlen(*self),
            in_range(r as int),
    {
        let n = dot_wide(self, self);
        proof {
            lemma_norm_nonneg(*self);
        }
        let r = isqrt(n as u128);
        assert(r <= LIMIT * 2) by (nonlinear_arith)
            requires
                r * r <= n,
                n <= 3 * LIMIT * LIMIT,
                LIMIT > 0,
        ;
        saturate_wide(r as i128)
    }

    /// Fixed-point dot product.
    pub fn dot(u: &Vec3, v: &Vec3) -> (r: i64)
        requires
            u.wf(),
            v.wf(),
        ensures
            r == vdot(*u, *v),
            in_range(r as int),
    {
        saturate_wide(quot_wide(dot_wide(u, v), ONE as i128))
    }

    /// Fixed-point dot product with `self` on the left.
    pub fn dot_self(&self, v: Vec3) -> (r: i64)
        requires
            self.wf(),
            v.wf(),
        ensures
            r == vdot(*self, v),
            in_range(r as int),
    {
        Vec3::dot(self, &v)
    }

    /// Fixed-point cross product.
    pub fn cross(u: Vec3, v: Vec3) -> (r: Vec3)
        requires
            u.wf(),
            v.wf(),
        ensures
            r == vcross(u, v),
            r.wf(),
    {
        Vec3 {
            x: cross_component(u.y, u.z, v.y, v.z),
            y: cross_component(u.z, u.x, v.z, v.x),
            z: cross_component(u.x, u.y, v.x, v.y),
        }
    }

    /// `self` divided by its length: a unit vector within `10^-9` (see
    /// [`lemma_unit_vector_length`] for the exact bounds), whose components are
    /// at most `ONE` in magnitude. The zero vector has no direction, so it is
    /// left out.
    pub fn unit_vector(&self) -> (r: Vec3)
        requires
            self.wf(),
            !self.is_zero(),
        ensures
            r == vunit(*self),
            is_unit_length(r),
            dot_raw(r, r) <= ONE * ONE,
            -ONE <= r.x <= ONE,
            -ONE <= r.y <= ONE,
            -ONE <= r.z <= ONE,
            r.wf(),
    {
        let n = dot_wide(self, self);
        let ghost nn = dot_raw(*self, *self);
        proof {
            lemma_norm_nonneg(*self);
            lemma_unit_scale(nn);
            lemma_unit_vector_length(*self);
        }
        let mut scaled: u128 = n as u128;
        let mut s: u128 = 1;
        while scaled < NORM_FLOOR
            invariant
                nn == n,
                1 <= nn <= 3 * LIMIT * LIMIT,
                1 <= s <= 0x400_0000_0000,
                scaled == nn * s * s,
                s * unit_scale(scaled as int) == unit_scale(nn),
                s > 1 ==> scaled < 4 * NORM_FLOOR,
            decreases 0x400_0000_0000 - s,
        {
            let ghost (s0, sc0) = (s, scaled);
            proof {
                assert(scaled >= 1 && s * s <= scaled) by (nonlinear_arith)
                    requires
                        scaled == nn * s * s,
                        nn >= 1,
                        s >= 1,
                ;
                assert(s < 0x200_0000_0000) by (nonlinear_arith)
                    requires
                        s * s <= scaled,
                        scaled < NORM_FLOOR,
                        s >= 1,
                ;
            }
            scaled = scaled * 4;
            s = s * 2;
            proof {
                assert(unit_scale(sc0 as int) == 2 * unit_scale(4 * sc0));
                assert(scaled as int == 4 * sc0);
                let us = unit_scale(4 * sc0);
                assert(unit_scale(scaled as int) == us);
                assert(s * us == s0 * (2 * us)) by (nonlinear_arith)
                    requires
                        s == 2 * s0,
                ;
                assert(nn * s * s == 4 * (nn * s0 * s0)) by (nonlinear_arith)
                    requires
                        s == 2 * s0,
                ;
            }
        }
        proof {
            assert(unit_scale(scaled as int) == 1);
            assert(s == unit_scale(nn));
            if s == 1 {
                assert(scaled == nn);
            }
            assert(4 * NORM_FLOOR <= 3 * LIMIT * LIMIT);
        }
        let f = isqrt(scaled - 1);
        proof {
            assert(f + 1 <= 2 * LIMIT && scaled <= (f + 1) * (f + 1)) by (nonlinear_arith)
                requires
                    f * f <= scaled - 1 < (f + 1) * (f + 1),
                    scaled <= 3 * LIMIT * LIMIT,
                    f >= 0,
                    LIMIT > 0,
            ;
        }
        let l = f + 1;
        proof {
            assert(self.x * self.x * (s * s) <= l * l && self.y * self.y * (s * s) <= l * l
                && self.z * self.z * (s * s) <= l * l) by (nonlinear_arith)
                requires
                    nn == self.x * self.x + self.y * self.y + self.z * self.z,
                    scaled == nn * s * s,
                    scaled <= l * l,
            ;
            assert(self.x * self.x * (s * s) == (self.x * s) * (self.x * s)
                && self.y * self.y * (s * s) == (self.y * s) * (self.y * s)
                && self.z * self.z * (s * s) == (self.z * s) * (self.z * s)) by (nonlinear_arith);
            lemma_scaled_component(self.x as int, s as int, l as int);
            lemma_scaled_component(self.y as int, s as int, l as int);
            lemma_scaled_component(self.z as int, s as int, l as int);
        }
        let xs = self.x as i128 * s as i128;
        let ys = self.y as i128 * s as i128;
        let zs = self.z as i128 * s as i128;
        assert(-l <= xs <= l && -l <= ys <= l && -l <= zs <= l);
        assert(l <= 2 * LIMIT);
        assert(-2 * LIMIT * ONE <= xs * ONE <= 2 * LIMIT * ONE && -2 * LIMIT * ONE <= ys * ONE <= 2
            * LIMIT * ONE && -2 * LIMIT * ONE <= zs * ONE <= 2 * LIMIT * ONE) by (nonlinear_arith)
            requires
                -l <= xs <= l,
                -l <= ys <= l,
                -l <= zs <= l,
                l <= 2 * LIMIT,
                ONE > 0,
        ;
        let r = Vec3 {
            x: quot_wide(xs * ONE as i128, l as i128) as i64,
            y: quot_wide(ys * ONE as i128, l as i128) as i64,
            z: quot_wide(zs * ONE as i128, l as i128) as i64,
        };
        r
    }

    /// Whether every component is below `10^-8` in magnitude.
    pub fn near_zero(&self) -> (r: bool)
        ensures
            r == self.is_near_zero(),
    {
        -NEAR_ZERO < self.x && self.x < NEAR_ZERO && -NEAR_ZERO < self.y && self.y < NEAR_ZERO
            && -NEAR_ZERO < self.z && self.z < NEAR_ZERO
    }

    /// Whether all three components are zero.
    pub fn is_zero_vector(&self) -> (r: bool)
        ensures
            r == self.is_zero(),
    {
        self.x == 0 && self.y == 0 && self.z == 0
    }
}

/// `v` mirrored about the plane with normal `n`.
pub fn reflect(v: &Vec3, n: &Vec3) -> (r: Vec3)
    requires
        v.wf(),
        n.wf(),
    ensures
        r == vreflect(*v, *n),
        r.wf(),
{
    v.sub(n.scale(Vec3::dot(v, n)).scale(2 * ONE))
}

/// A vector whose components are uniform in `[0, 1)`.
pub fn random() -> (r: Vec3)
    ensures
        0 <= r.x < ONE,
        0 <= r.y < ONE,
        0 <= r.z < ONE,
        r.wf(),
{
    Vec3 { x: random_double(), y: random_double(), z: random_double() }
}

/// A vector whose components are uniform in `[min, max)`.
pub fn random_minmax(min: i64, max: i64) -> (r: Vec3)
    requires
        in_range(min as int),
        in_range(max as int),
        min < max,
    ensures
        min <= r.x < max,
        min <= r.y < max,
        min <= r.z < max,
        r.wf(),
{
    Vec3 {
        x: random_double_range(min, max),
        y: random_double_range(min, max),
        z: random_double_range(min, max),
    }
}

/// A point of the open unit ball, by rejection from the cube `[-1, 1)^3`.
pub fn random_in_unit_sphere() -> (r: Vec3)
    ensures
        in_unit_ball(r),
        r.wf(),
{
    let mut tries: u32 = 0;
    while tries < REJECTION_TRIES
        decreases REJECTION_TRIES - tries,
    {
        let p = random_minmax(-ONE, ONE);
        if dot_wide(&p, &p) < ONE_SQUARED {
            return p;
        }
        tries = tries + 1;
    }
    Vec3::new()
}

/// A unit vector: a nonzero point of the open unit ball, normalised.
pub fn random_unit_vector() -> (r: Vec3)
    ensures
        is_unit_draw(r),
        r.wf(),
{
    let mut tries: u32 = 0;
    while tries < REJECTION_TRIES
        decreases REJECTION_TRIES - tries,
    {
        let p = random_in_unit_sphere();
        if !p.is_zero_vector() {
            return p.unit_vector();
        }
        tries = tries + 1;
    }
    let p = Vec3 { x: 1, y: 0, z: 0 };
    p.unit_vector()
}

/// A point of the open unit ball on the side of the plane that `normal` faces:
/// a draw `p` from the ball, or `-p` where `p` is not strictly on that side.
pub fn random_in_hemisphere(normal: &Vec3) -> (r: Vec3)
    requires
        normal.wf(),
    ensures
        exists|p: Vec3|
            p.wf() && in_unit_ball(p) && r == (if dot_raw(p, *normal) > 0 {
                p
            } else {
                vneg(p)
            }),
        in_unit_ball(r),
        dot_raw(r, *normal) >= 0,
        r.wf(),
{
    let in_unit_sphere = random_in_unit_sphere();
    if dot_wide(&in_unit_sphere, normal) > 0 {
        in_unit_sphere
    } else {
        let ghost m = vneg(in_unit_sphere);
        assert(m.x == -in_unit_sphere.x && m.y == -in_unit_sphere.y && m.z == -in_unit_sphere.z);
        assert(dot_raw(m, *normal) == -dot_raw(in_unit_sphere, *normal)) by (nonlinear_arith)
            requires
                m.x == -in_unit_sphere.x,
                m.y == -in_unit_sphere.y,
                m.z == -in_unit_sphere.z,
        ;
        assert(dot_raw(m, m) == dot_raw(in_unit_sphere, in_unit_sphere)) by (nonlinear_arith)
            requires
                m.x == -in_unit_sphere.x,
                m.y == -in_unit_sphere.y,
                m.z == -in_unit_sphere.z,
        ;
        in_unit_sphere.neg()
    }
}

/// A point of the open unit disk in the plane `z = 0`, by rejection from the
/// square `[-1, 1)^2`.
pub fn random_in_unit_disk() -> (r: Vec3)
    ensures
        in_unit_ball(r),
        r.z == 0,
        r.wf(),
{
    let mut tries: u32 = 0;
    while tries < REJECTION_TRIES
        decreases REJECTION_TRIES - tries,
    {
        let p = Vec3 { x: random_double_range(-ONE, ONE), y: random_double_range(-ONE, ONE), z: 0 };
        if dot_wide(&p, &p) < ONE_SQUARED {
            return p;
        }
        tries = tries + 1;
    }
    Vec3::new()
}

} // verus!
