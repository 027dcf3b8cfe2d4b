//! The path tracer: the colour seen along a ray and the Monte-Carlo estimate
//! of a pixel.
use crate::camera::{get_ray_spec, Camera};
use crate::fixed::{fixed_mul, fmul, quot, quot_wide, ONE};
use crate::hittable::{hit_record, Hittable};
use crate::hittable_list::{lemma_list_hit_record, list_hit, HittableList};
use crate::material::{is_draw, scatter_spec};
use crate::ray::Ray;
use crate::rtweekend::{random_double, INFINITY};
use crate::sphere::Sphere;
use crate::vec3::{in_unit_ball, vadd, vec_of, vmul, vscale, vunit, Color, Vec3};
use vstd::prelude::*;

verus! {

/// The smallest ray parameter at which a hit counts, `0.001`: it keeps a
/// scattered ray from striking the surface it leaves.
pub const T_MIN: i64 = 1_000_000_000;

/// Half of `ONE`.
pub const HALF: i64 = 500_000_000_000;

/// White.
pub open spec fn white() -> Color {
    vec_of(ONE as int, ONE as int, ONE as int)
}

/// Black.
pub open spec fn black() -> Color {
    vec_of(0, 0, 0)
}

/// The background seen along `dir`: white blended into sky blue
/// `(0.5, 0.7, 1.0)` by `t = 0.5 (y + 1)`, `y` the upward part of the unit
/// direction; a zero direction counts as level.
pub open spec fn sky(dir: Vec3) -> Color {
    let y = if dir.is_zero() { 0 } else { vunit(dir).y as int };
    let t = fmul(HALF as int, y + ONE);
    vadd(vscale(white(), ONE - t), vscale(vec_of(HALF as int, 700_000_000_000, ONE as int), t))
}

/// Whether `c` is a colour that tracing `r` through `world` can give, with
/// `depth` bounces left and the product `thr` of the attenuations so far: black
/// when the bounces run out or the light is absorbed, the background times
/// `thr` when the ray escapes, else the trace of the scattered ray for some
/// possible draw.
#[verifier::opaque]
pub open spec fn traced(world: Seq<Sphere>, r: Ray, depth: nat, thr: Color, c: Color) -> bool
    decreases depth,
{
    if depth == 0 {
        c == black()
    } else {
        match list_hit(world, r, T_MIN as int, INFINITY as int) {
            None => c == vmul(thr, sky(r.dir)),
            Some(rec) => exists|v: Vec3, x: int|
                is_draw(rec.material, v, x) && if #[trigger] scatter_spec(
                    rec.material,
                    r,
                    rec,
                    v,
                    x,
                ).0 {
                    traced(
                        world,
                        scatter_spec(rec.material, r, rec, v, x).2,
                        (depth - 1) as nat,
                        vmul(thr, scatter_spec(rec.material, r, rec, v, x).1),
                        c,
                    )
                } else {
                    c == black()
                },
        }
    }
}

/// The background colour along `dir`.
pub fn background(dir: &Vec3) -> (c: Color)
    requires
        dir.wf(),
    ensures
        c == sky(*dir),
        c.wf(),
{
    let y = if dir.is_zero_vector() {
        0
    } else {
        dir.unit_vector().y
    };
    let t = fixed_mul(HALF, y + ONE);
    let white = Vec3 { x: ONE, y: ONE, z: ONE };
    white.scale(ONE - t).add(Vec3 { x: HALF, y: 700_000_000_000, z: ONE }.scale(t))
}

/// `white` is the identity of the component-wise product.
proof fn lemma_white_times(c: Color)
    requires
        c.wf(),
    ensures
        vmul(white(), c) == c,
{
    assert(ONE * c.x == c.x * ONE);
    assert(ONE * c.y == c.y * ONE);
    assert(ONE * c.z == c.z * ONE);
    vstd::arithmetic::div_mod::lemma_div_multiples_vanish(c.x as int, ONE as int);
    vstd::arithmetic::div_mod::lemma_div_multiples_vanish(-c.x as int, ONE as int);
    vstd::arithmetic::div_mod::lemma_div_multiples_vanish(c.y as int, ONE as int);
    vstd::arithmetic::div_mod::lemma_div_multiples_vanish(-c.y as int, ONE as int);
    vstd::arithmetic::div_mod::lemma_div_multiples_vanish(c.z as int, ONE as int);
    vstd::arithmetic::div_mod::lemma_div_multiples_vanish(-c.z as int, ONE as int);
}

/// One bounce of a trace: a colour of the scattered ray's trace is one of the
/// incoming ray's, and absorption gives black.
proof fn lemma_trace_bounce(
    world: Seq<Sphere>,
    r: Ray,
    rec: hit_record,
    v: Vec3,
    x: int,
    depth: nat,
    thr: Color,
    ok: bool,
    att: Color,
    sc: Ray,
)
    requires
        depth > 0,
        list_hit(world, r, T_MIN as int, INFINITY as int) == Some(rec),
        is_draw(rec.material, v, x),
        (ok, att, sc) == scatter_spec(rec.material, r, rec, v, x),
    ensures
        ok ==> forall|c: Color|
            #[trigger] traced(world, sc, (depth - 1) as nat, vmul(thr, att), c) ==> traced(
                world,
                r,
                depth,
                thr,
                c,
            ),
        !ok ==> traced(world, r, depth, thr, black()),
{
    reveal(traced);
    assert forall|c: Color|
        (if ok {
            traced(world, sc, (depth - 1) as nat, vmul(thr, att), c)
        } else {
            c == black()
        }) implies traced(world, r, depth, thr, c) by {
        let out = scatter_spec(rec.material, r, rec, v, x);
        assert(out.0 == ok && out.1 == att && out.2 == sc);
        assert(is_draw(rec.material, v, x) && if out.0 {
            traced(world, out.2, (depth - 1) as nat, vmul(thr, out.1), c)
        } else {
            c == black()
        });
    }
}

/// A ray that strikes nothing sees the background, times the attenuation so far.
proof fn lemma_trace_miss(world: Seq<Sphere>, r: Ray, depth: nat, thr: Color)
    requires
        depth > 0,
        list_hit(world, r, T_MIN as int, INFINITY as int) is None,
    ensures
        traced(world, r, depth, thr, vmul(thr, sky(r.dir))),
{
    reveal(traced);
}

/// With no bounces left, the trace is black.
proof fn lemma_trace_exhausted(world: Seq<Sphere>, r: Ray, thr: Color)
    ensures
        traced(world, r, 0, thr, black()),
{
    reveal(traced);
}

/// The colour seen along `r` in `world` with at most `depth` bounces: a colour
/// that [`traced`] allows. With no bounces left it is black; a ray that
/// strikes nothing sees the background.
#[verifier::rlimit(40)]
pub fn ray_color(r: &Ray, world: &HittableList, depth: usize) -> (c: Color)
    requires
        r.wf(),
        world.wf(),
    ensures
        traced(world.objects@, *r, depth as nat, white(), c),
        depth == 0 ==> c == black(),
        depth > 0 && list_hit(world.objects@, *r, T_MIN as int, INFINITY as int) is None ==> c
            == sky(r.dir),
        c.wf(),
{
    let ghost objs = world.objects@;
    let mut ray = *r;
    let mut throughput = Vec3 { x: ONE, y: ONE, z: ONE };
    let mut remaining = depth;
    while remaining > 0
        invariant
            world.wf(),
            objs == world.objects@,
            ray.wf(),
            throughput.wf(),
            remaining <= depth,
            forall|c: Color|
                #[trigger] traced(objs, ray, remaining as nat, throughput, c) ==> traced(
                    objs,
                    *r,
                    depth as nat,
                    white(),
                    c,
                ),
            remaining == depth ==> ray == *r && throughput == white(),
            remaining < depth ==> list_hit(objs, *r, T_MIN as int, INFINITY as int) is Some,
        decreases remaining,
    {
        let mut rec = hit_record::new();
        if world.hit(&ray, T_MIN, INFINITY, &mut rec) {
            proof {
                lemma_list_hit_record(objs, ray, T_MIN as int, INFINITY as int);
            }
            let mut attenuation = Vec3::new();
            let mut scattered = Ray::new();
            let ok = rec.material.scatter(&ray, &rec, &mut attenuation, &mut scattered);
            let ghost (v, x) = choose|v: Vec3, x: int|
                is_draw(rec.material, v, x) && (ok, attenuation, scattered)
                    == #[trigger] scatter_spec(rec.material, ray, rec, v, x);
            proof {
                lemma_trace_bounce(objs, ray, rec, v, x, remaining as nat, throughput, ok, attenuation, scattered);
                lemma_attenuation_wf(rec.material, ray, rec, v, x);
            }
            if !ok {
                return Vec3::new();
            }
            let ghost (old_ray, old_thr, old_rem) = (ray, throughput, remaining);
            throughput = throughput.mul(attenuation);
            ray = scattered;
            remaining = remaining - 1;
            assert forall|c: Color|
                #[trigger] traced(objs, ray, remaining as nat, throughput, c) implies traced(
                    objs,
                    *r,
                    depth as nat,
                    white(),
                    c,
                ) by {
                assert(((old_rem as nat) - 1) as nat == remaining as nat);
                assert(traced(objs, scattered, ((old_rem as nat) - 1) as nat, vmul(old_thr, attenuation), c));
                assert(traced(objs, old_ray, old_rem as nat, old_thr, c));
            }
        } else {
            proof {
                lemma_trace_miss(objs, ray, remaining as nat, throughput);
                if remaining == depth {
                    lemma_white_times(sky(ray.dir));
                }
            }
            return throughput.mul(background(&ray.dir));
        }
    }
    proof {
        lemma_trace_exhausted(objs, ray, throughput);
    }
    Vec3::new()
}

/// The attenuation of a possible scatter is well formed.
proof fn lemma_attenuation_wf(m: crate::material::Material, r: Ray, rec: hit_record, v: Vec3, x: int)
    requires
        m.wf(),
    ensures
        scatter_spec(m, r, rec, v, x).1.wf(),
{
}

/// The image-plane coordinate of pixel `i` of `n`, jittered by `d` in `[0, 1)`:
/// `(i + d) / (n - 1)`.
pub open spec fn jittered(i: int, d: int, n: int) -> int {
    quot(i * ONE + d, n - 1)
}

/// Whether `c` is a colour that one sample of pixel `(i, j)` of a
/// `width` by `height` image can give: the trace of the camera ray through the
/// jittered pixel coordinates from some point of the lens.
pub open spec fn is_pixel_sample(
    cam: Camera,
    world: Seq<Sphere>,
    i: int,
    j: int,
    width: int,
    height: int,
    depth: nat,
    c: Color,
) -> bool {
    exists|du: int, dv: int, disk: Vec3|
        0 <= du < ONE && 0 <= dv < ONE && disk.wf() && in_unit_ball(disk) && disk.z == 0
            && traced(
            world,
            #[trigger] get_ray_spec(cam, jittered(i, du, width), jittered(j, dv, height), disk),
            depth,
            white(),
            c,
        )
}

/// The saturating sum of a sequence of colours.
pub open spec fn sum_colors(cs: Seq<Color>) -> Color
    decreases cs.len(),
{
    if cs.len() == 0 {
        black()
    } else {
        vadd(sum_colors(cs.drop_last()), cs.last())
    }
}

/// A jittered pixel coordinate lies in `[0, 2]`.
proof fn lemma_jitter_bound(i: int, d: int, n: int)
    requires
        0 <= i < n,
        2 <= n,
        0 <= d < ONE,
    ensures
        0 <= jittered(i, d, n) <= 2 * ONE,
{
    let x = i * ONE + d;
    assert(0 <= x <= 2 * ONE * (n - 1)) by (nonlinear_arith)
        requires
            x == i * ONE + d,
            0 <= i <= n - 1,
            n >= 2,
            0 <= d < ONE,
    ;
    crate::fixed::lemma_div_bounds(x, n - 1);
    assert(x / (n - 1) <= 2 * ONE) by (nonlinear_arith)
        requires
            (n - 1) * (x / (n - 1)) <= x,
            x <= 2 * ONE * (n - 1),
            n >= 2,
    ;
}

/// Largest image side the pixel coordinates are computed for.
pub const MAX_IMAGE_SIDE: u64 = 1_000_000;

/// The sum of `samples_per_pixel` samples of pixel `(i, j)`, counted from the
/// bottom-left, of a `image_width` by `image_height` image, each traced with at
/// most `max_depth` bounces: the Monte-Carlo estimate of the pixel, before
/// averaging.
#[verifier::rlimit(40)]
pub fn pixel_color(
    cam: &Camera,
    world: &HittableList,
    i: u64,
    j: u64,
    image_width: u64,
    image_height: u64,
    samples_per_pixel: u64,
    max_depth: usize,
) -> (c: Color)
    requires
        cam.wf(),
        world.wf(),
        2 <= image_width <= MAX_IMAGE_SIDE,
        2 <= image_height <= MAX_IMAGE_SIDE,
        i < image_width,
        j < image_height,
    ensures
        exists|cs: Seq<Color>|
            cs.len() == samples_per_pixel && (forall|k: int|
                0 <= k < cs.len() ==> #[trigger] is_pixel_sample(
                    *cam,
                    world.objects@,
                    i as int,
                    j as int,
                    image_width as int,
                    image_height as int,
                    max_depth as nat,
                    cs[k],
                )) && c == sum_colors(cs),
        c.wf(),
{
    let mut pixel = Vec3::new();
    let ghost mut cs: Seq<Color> = Seq::empty();
    let mut s: u64 = 0;
    while s < samples_per_pixel
        invariant
            cam.wf(),
            world.wf(),
            2 <= image_width <= MAX_IMAGE_SIDE,
            2 <= image_height <= MAX_IMAGE_SIDE,
            i < image_width,
            j < image_height,
            s <= samples_per_pixel,
            cs.len() == s,
            forall|k: int|
                0 <= k < cs.len() ==> #[trigger] is_pixel_sample(
                    *cam,
                    world.objects@,
                    i as int,
                    j as int,
                    image_width as int,
                    image_height as int,
                    max_depth as nat,
                    cs[k],
                ),
            pixel == sum_colors(cs),
            pixel.wf(),
        decreases samples_per_pixel - s,
    {
        let du = random_double();
        let dv = random_double();
        proof {
            lemma_jitter_bound(i as int, du as int, image_width as int);
            lemma_jitter_bound(j as int, dv as int, image_height as int);
        }
        let u = quot_wide(i as i128 * ONE as i128 + du as i128, image_width as i128 - 1) as i64;
        let v = quot_wide(j as i128 * ONE as i128 + dv as i128, image_height as i128 - 1) as i64;
        let r = cam.get_ray(u, v);
        let c = ray_color(&r, world, max_depth);
        proof {
            let disk = choose|disk: Vec3|
                disk.wf() && in_unit_ball(disk) && disk.z == 0 && r == #[trigger] get_ray_spec(
                    *cam,
                    u as int,
                    v as int,
                    disk,
                );
            assert(is_pixel_sample(
                *cam,
                world.objects@,
                i as int,
                j as int,
                image_width as int,
                image_height as int,
                max_depth as nat,
                c,
            )) by {
                assert(get_ray_spec(
                    *cam,
                    jittered(i as int, du as int, image_width as int),
                    jittered(j as int, dv as int, image_height as int),
                    disk,
                ) == r);
            }
            let cs2 = cs.push(c);
            assert(cs2.drop_last() == cs);
            cs = cs2;
        }
        pixel = pixel.add(c);
        s = s + 1;
    }
    pixel
}

} // verus!
