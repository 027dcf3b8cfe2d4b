//! Constants, angle conversion, clamping and the uniform random source.
use crate::fixed::{in_range, quot, LIMIT, ONE};
use vstd::prelude::*;

verus! {

/// The scalar that stands for positive infinity.
pub const INFINITY: i64 = LIMIT;

/// The raw value of pi.
pub const PI: i64 = 3_141_592_653_590;

/// Degrees to radians: `degrees * pi / 180`.
pub fn degrees_to_radians(degrees: i64) -> (r: i64)
    requires
        in_range(degrees as int),
    ensures
        r == quot(degrees * PI, 180 * ONE),
        in_range(r as int),
{
    assert(-5_000_000_000_000_000_000_000_000_000int <= degrees * PI <= 5_000_000_000_000_000_000_000_000_000int)
        by (nonlinear_arith)
        requires
            in_range(degrees as int),
    ;
    let d = degrees as i128 * PI as i128;
    let ad: i128 = if d >= 0 { d } else { -d };
    let q: i128 = ad / (180 * ONE as i128);
    if d < 0 {
        -(q as i64)
    } else {
        q as i64
    }
}

/// Relies on `rand::Rng::gen_range` on `rand::thread_rng()`: a value in `[lo, hi)`;
/// it panics on an empty range, which `requires` leaves out.
#[verifier::external_body]
fn uniform_between(lo: i64, hi: i64) -> (r: i64)
    requires
        lo < hi,
    ensures
        lo <= r < hi,
{
    rand::Rng::gen_range(&mut rand::thread_rng(), lo..hi)
}

/// A uniform scalar in `[0, 1)`.
pub fn random_double() -> (r: i64)
    ensures
        0 <= r < ONE,
{
    uniform_between(0, ONE)
}

/// A uniform scalar in `[min, max)`.
pub fn random_double_range(min: i64, max: i64) -> (r: i64)
    requires
        min < max,
    ensures
        min <= r < max,
{
    uniform_between(min, max)
}

/// `x` clamped to `[min, max]`: `min` below it, `max` above it, else `x`.
pub fn clamp(x: i64, min: i64, max: i64) -> (r: i64)
    ensures
        r == (if x < min { min } else if x > max { max } else { x }),
{
    if x < min {
        return min;
    }
    if x > max {
        return max;
    }
    x
}

} // verus!
