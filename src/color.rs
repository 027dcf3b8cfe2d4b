//! Turning an accumulated pixel colour into 8-bit channels.
use crate::fixed::{fixed_sqrt, fsqrt, in_range, quot, quot_wide, ONE};
use crate::rtweekend::clamp;
use crate::vec3::Color;
use vstd::prelude::*;

verus! {

/// The largest channel value before quantisation, `0.999`.
pub const CHANNEL_MAX: i64 = 999_000_000_000;

/// One channel: the sum `c` of `samples` samples averaged, gamma-corrected by
/// a square root, clamped to `[0, 0.999]` and scaled to `0..=255`.
pub open spec fn channel_byte(c: int, samples: int) -> int {
    let g = fsqrt(quot(c, samples));
    let clamped = if g < 0 { 0 } else if g > CHANNEL_MAX { CHANNEL_MAX as int } else { g };
    quot(256 * clamped, ONE as int)
}

fn channel(c: i64, samples: i64) -> (r: i64)
    requires
        in_range(c as int),
        samples >= 1,
    ensures
        r == channel_byte(c as int, samples as int),
        0 <= r <= 255,
{
    proof {
        crate::fixed::lemma_quot_bound(c as int, samples as int, crate::fixed::LIMIT as int);
        vstd::arithmetic::div_mod::lemma_div_is_ordered_by_denominator(
            crate::fixed::LIMIT as int,
            1,
            samples as int,
        );
    }
    let average = quot_wide(c as i128, samples as i128) as i64;
    let clamped = clamp(fixed_sqrt(average), 0, CHANNEL_MAX);
    proof {
        crate::fixed::lemma_quot_bound(256 * clamped, ONE as int, 256 * CHANNEL_MAX);
    }
    (256 * clamped) / ONE
}

/// The 8-bit red, green and blue of the sum `pixel_color` of
/// `samples_per_pixel` samples.
pub fn color_to_bytes(pixel_color: Color, samples_per_pixel: i64) -> (r: (i64, i64, i64))
    requires
        pixel_color.wf(),
        samples_per_pixel >= 1,
    ensures
        r.0 == channel_byte(pixel_color.x as int, samples_per_pixel as int),
        r.1 == channel_byte(pixel_color.y as int, samples_per_pixel as int),
        r.2 == channel_byte(pixel_color.z as int, samples_per_pixel as int),
        0 <= r.0 <= 255,
        0 <= r.1 <= 255,
        0 <= r.2 <= 255,
{
    (
        channel(pixel_color.x, samples_per_pixel),
        channel(pixel_color.y, samples_per_pixel),
        channel(pixel_color.z, samples_per_pixel),
    )
}

} // verus!
