//! Fixed-point scalars.
//!
//! A scalar is an `i64` holding a real number times [`ONE`], that is in units of
//! `10^-12`. Every value in use lies within `[-LIMIT, LIMIT]` (1500 units);
//! results beyond that range saturate to its ends, which play the part of the
//! infinities. Exact products of two scalars are formed in `i128`.
use vstd::prelude::*;

verus! {

/// The raw value of `1.0`.
pub const ONE: i64 = 1_000_000_000_000;

/// The largest magnitude a scalar holds (1500 units); it also stands for infinity.
/// It is chosen so that the quarter discriminant of a sphere's quadratic fits in
/// an `i128`.
pub const LIMIT: i64 = 1_500_000_000_000_000;

/// `ONE * ONE`, the scale of an exact product of two raw values.
pub const ONE_SQUARED: i128 = 1_000_000_000_000_000_000_000_000;

/// Whether a raw value lies in the representable range.
pub open spec fn in_range(x: int) -> bool {
    -LIMIT <= x <= LIMIT
}

/// `x` brought into the representable range.
pub open spec fn saturate(x: int) -> int {
    if x > LIMIT {
        LIMIT as int
    } else if x < -LIMIT {
        -LIMIT
    } else {
        x
    }
}

/// Division rounding toward zero.
pub open spec fn quot(a: int, b: int) -> int {
    let q = if a >= 0 { a } else { -a } / if b >= 0 { b } else { -b };
    if (a < 0) != (b < 0) { -q } else { q }
}

/// Fixed-point product.
pub open spec fn fmul(a: int, b: int) -> int {
    saturate(quot(a * b, ONE as int))
}

/// Fixed-point quotient.
pub open spec fn fdiv(a: int, b: int) -> int {
    saturate(quot(a * ONE, b))
}

/// A product of two representable values stays within `LIMIT * LIMIT`.
pub proof fn lemma_mul_in_range(a: int, b: int)
    requires
        in_range(a),
        in_range(b),
    ensures
        -(LIMIT * LIMIT) <= a * b <= LIMIT * LIMIT,
{
    assert(-(LIMIT * LIMIT) <= a * b <= LIMIT * LIMIT) by (nonlinear_arith)
        requires
            -LIMIT <= a <= LIMIT,
            -LIMIT <= b <= LIMIT,
    ;
}

/// The quotient of a nonnegative `x` by a positive `d` lies between the bounds it
/// leaves a remainder in.
pub proof fn lemma_div_bounds(x: int, d: int)
    requires
        0 <= x,
        0 < d,
    ensures
        0 <= x / d,
        d * (x / d) <= x < d * (x / d) + d,
{
    vstd::arithmetic::div_mod::lemma_fundamental_div_mod(x, d);
    vstd::arithmetic::div_mod::lemma_div_pos_is_pos(x, d);
}

/// A product of two bounded values is bounded by the product of the bounds.
pub proof fn lemma_mul_bound(a: int, b: int, m: int, n: int)
    requires
        -m <= a <= m,
        -n <= b <= n,
    ensures
        -(m * n) <= a * b <= m * n,
{
    assert(-(m * n) <= a * b <= m * n) by (nonlinear_arith)
        requires
            -m <= a <= m,
            -n <= b <= n,
    ;
}

/// A fixed-point square is not negative.
pub proof fn lemma_fmul_square_nonneg(x: int)
    requires
        in_range(x),
    ensures
        fmul(x, x) >= 0,
{
    assert(x * x >= 0) by (nonlinear_arith);
    lemma_mul_in_range(x, x);
    lemma_quot_bound(x * x, ONE as int, LIMIT * LIMIT);
}

/// A quotient rounded toward zero keeps the bound of its dividend, divided.
pub proof fn lemma_quot_bound(x: int, b: int, m: int)
    requires
        b > 0,
        -m <= x <= m,
    ensures
        -(m / b) <= quot(x, b) <= m / b,
        0 <= x ==> 0 <= quot(x, b),
        x <= 0 ==> quot(x, b) <= 0,
{
    let ax = if x >= 0 { x } else { -x };
    vstd::arithmetic::div_mod::lemma_div_is_ordered(ax, m, b);
    vstd::arithmetic::div_mod::lemma_div_pos_is_pos(ax, b);
}

/// Division by a positive number, rounded toward zero, keeps the order.
pub proof fn lemma_quot_monotone(x: int, y: int, b: int)
    requires
        x <= y,
        b > 0,
    ensures
        quot(x, b) <= quot(y, b),
{
    if x >= 0 {
        vstd::arithmetic::div_mod::lemma_div_is_ordered(x, y, b);
    } else if y <= 0 {
        vstd::arithmetic::div_mod::lemma_div_is_ordered(-y, -x, b);
    } else {
        vstd::arithmetic::div_mod::lemma_div_pos_is_pos(-x, b);
        vstd::arithmetic::div_mod::lemma_div_pos_is_pos(y, b);
    }
}

/// Dividing a multiple `q * b` by `b` gives back `q`.
pub proof fn lemma_quot_mul_exact(q: int, b: int)
    requires
        b > 0,
    ensures
        quot(q * b, b) == q,
{
    if q >= 0 {
        assert(q * b >= 0) by (nonlinear_arith)
            requires
                q >= 0,
                b > 0,
        ;
        assert(q * b == b * q) by (nonlinear_arith);
        vstd::arithmetic::div_mod::lemma_div_multiples_vanish(q, b);
    } else {
        assert(q * b < 0 && -(q * b) == b * (-q)) by (nonlinear_arith)
            requires
                q < 0,
                b > 0,
        ;
        vstd::arithmetic::div_mod::lemma_div_multiples_vanish(-q, b);
    }
}

/// A common positive factor cancels in a quotient: `quot(a * k, b * k) == quot(a, b)`.
pub proof fn lemma_quot_cancel(a: int, b: int, k: int)
    requires
        b > 0,
        k > 0,
    ensures
        quot(a * k, b * k) == quot(a, b),
{
    let aa = if a >= 0 { a } else { -a };
    assert((if a * k >= 0 { a * k } else { -(a * k) }) == k * aa && (a * k < 0) == (a < 0) && b * k > 0
        && b * k == k * b) by (nonlinear_arith)
        requires
            k > 0,
            b > 0,
            aa == if a >= 0 { a } else { -a },
    ;
    vstd::arithmetic::div_mod::lemma_div_multiples_vanish_quotient(k, aa, b);
}

/// Rounding toward zero loses less than the divisor: `|x - b quot(x, b)| < b`.
pub proof fn lemma_quot_error(x: int, b: int)
    requires
        b > 0,
    ensures
        -b < x - b * quot(x, b) < b,
{
    let ax = if x >= 0 { x } else { -x };
    lemma_div_bounds(ax, b);
    assert(b * (-(ax / b)) == -(b * (ax / b))) by (nonlinear_arith);
}

/// Exact `i128` division rounding toward zero.
pub fn quot_wide(a: i128, b: i128) -> (q: i128)
    requires
        b != 0,
        a > i128::MIN,
        b > i128::MIN,
    ensures
        q == quot(a as int, b as int),
{
    let ua: i128 = if a >= 0 { a } else { -a };
    let ub: i128 = if b >= 0 { b } else { -b };
    let uq: i128 = ua / ub;
    if (a < 0) != (b < 0) {
        -uq
    } else {
        uq
    }
}

/// Brings an exact `i128` value into the representable range.
pub fn saturate_wide(x: i128) -> (r: i64)
    ensures
        r == saturate(x as int),
        in_range(r as int),
{
    if x > LIMIT as i128 {
        LIMIT
    } else if x < -(LIMIT as i128) {
        -LIMIT
    } else {
        x as i64
    }
}

/// Saturating sum of two scalars.
pub fn fixed_add(a: i64, b: i64) -> (r: i64)
    requires
        in_range(a as int),
        in_range(b as int),
    ensures
        r == saturate(a + b),
        in_range(r as int),
{
    saturate_wide(a as i128 + b as i128)
}

/// Saturating difference of two scalars.
pub fn fixed_sub(a: i64, b: i64) -> (r: i64)
    requires
        in_range(a as int),
        in_range(b as int),
    ensures
        r == saturate(a - b),
        in_range(r as int),
{
    saturate_wide(a as i128 - b as i128)
}

/// Fixed-point product of two scalars.
pub fn fixed_mul(a: i64, b: i64) -> (r: i64)
    requires
        in_range(a as int),
        in_range(b as int),
    ensures
        r == fmul(a as int, b as int),
        in_range(r as int),
{
    proof {
        lemma_mul_in_range(a as int, b as int);
    }
    saturate_wide(quot_wide(a as i128 * b as i128, ONE as i128))
}

/// Fixed-point quotient of two scalars; the divisor is not zero.
pub fn fixed_div(a: i64, b: i64) -> (r: i64)
    requires
        in_range(a as int),
        in_range(b as int),
        b != 0,
    ensures
        r == fdiv(a as int, b as int),
        in_range(r as int),
{
    saturate_wide(quot_wide(a as i128 * ONE as i128, b as i128))
}

/// Whether `r` is the square root of `n` rounded down.
pub open spec fn is_floor_sqrt(n: int, r: int) -> bool {
    0 <= r && r * r <= n < (r + 1) * (r + 1)
}

/// The square root of a nonnegative `n`, rounded down.
pub open spec fn floor_sqrt(n: int) -> int {
    choose|r: int| is_floor_sqrt(n, r)
}

/// A rounded-down square root is unique.
pub proof fn lemma_floor_sqrt_unique(n: int, a: int, b: int)
    requires
        is_floor_sqrt(n, a),
        is_floor_sqrt(n, b),
    ensures
        a == b,
{
    if a < b {
        assert((a + 1) * (a + 1) <= b * b) by (nonlinear_arith)
            requires
                0 <= a,
                a + 1 <= b,
        ;
    } else if b < a {
        assert((b + 1) * (b + 1) <= a * a) by (nonlinear_arith)
            requires
                0 <= b,
                b + 1 <= a,
        ;
    }
}

/// Every nonnegative `n` has a rounded-down square root.
pub proof fn lemma_floor_sqrt_exists(n: int)
    requires
        n >= 0,
    ensures
        is_floor_sqrt(n, floor_sqrt(n)),
    decreases n,
{
    if n == 0 {
        assert(is_floor_sqrt(0, 0));
    } else {
        lemma_floor_sqrt_exists(n - 1);
        let r = floor_sqrt(n - 1);
        if (r + 1) * (r + 1) <= n {
            assert(is_floor_sqrt(n, r + 1)) by (nonlinear_arith)
                requires
                    is_floor_sqrt(n - 1, r),
                    (r + 1) * (r + 1) <= n,
            ;
        } else {
            assert(is_floor_sqrt(n, r));
        }
    }
}

/// `floor_sqrt` is the rounded-down root wherever one is known.
pub proof fn lemma_floor_sqrt_is(n: int, r: int)
    requires
        is_floor_sqrt(n, r),
    ensures
        floor_sqrt(n) == r,
{
    lemma_floor_sqrt_unique(n, floor_sqrt(n), r);
}

/// Integer square root, rounded down, by bisection.
pub fn isqrt(n: u128) -> (r: u128)
    ensures
        is_floor_sqrt(n as int, r as int),
        r == floor_sqrt(n as int),
{
    let mut lo: u128 = 0;
    let mut hi: u128 = 0x1_0000_0000_0000_0000;
    assert(n < hi * hi);
    while hi - lo > 1
        invariant
            lo < hi <= 0x1_0000_0000_0000_0000,
            lo * lo <= n < hi * hi,
        decreases hi - lo,
    {
        let mid: u128 = lo + (hi - lo) / 2;
        assert(mid * mid < 0x1_0000_0000_0000_0000_0000_0000_0000_0000) by (nonlinear_arith)
            requires
                mid < 0x1_0000_0000_0000_0000,
        ;
        if mid * mid <= n {
            lo = mid;
        } else {
            hi = mid;
        }
    }
    proof {
        lemma_floor_sqrt_is(n as int, lo as int);
    }
    lo
}

/// Fixed-point square root: the raw value of the root rounded down, and zero
/// where `x` is not positive.
pub open spec fn fsqrt(x: int) -> int {
    if x <= 0 {
        0
    } else {
        floor_sqrt(x * ONE)
    }
}

/// Fixed-point square root; a negative argument gives zero.
pub fn fixed_sqrt(x: i64) -> (r: i64)
    requires
        in_range(x as int),
    ensures
        r == fsqrt(x as int),
        0 <= r <= LIMIT,
{
    if x <= 0 {
        0
    } else {
        let r = isqrt(x as u128 * ONE as u128);
        assert(r <= LIMIT) by (nonlinear_arith)
            requires
                r * r <= x * ONE,
                x <= LIMIT,
                ONE == 1_000_000_000_000,
                LIMIT == 1_500_000_000_000_000,
        ;
        r as i64
    }
}

} // verus!
