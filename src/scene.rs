//! The demonstration scene: a ground sphere, a grid of small random spheres and
//! three large ones.
use crate::fixed::{fixed_mul, fmul, ONE};
use crate::hittable_list::HittableList;
use crate::material::{Dielectric, Lambertian, Material, Metal};
use crate::rtweekend::{random_double, random_double_range};
use crate::sphere::Sphere;
use crate::vec3::{random, random_minmax, vec_of, vlen, vsub, Vec3};
use vstd::prelude::*;

verus! {

/// The ground: a grey diffuse sphere of radius 1000 centred at `(0, -1000, 0)`.
pub open spec fn ground_sphere() -> Sphere {
    Sphere {
        center: vec_of(0, -1_000_000_000_000_000, 0),
        radius: 1_000_000_000_000_000,
        mat_ptr: Material::Lambertian(Lambertian { albedo: vec_of(500_000_000_000, 500_000_000_000, 500_000_000_000) }),
    }
}

/// The three large spheres of radius 1 at `x = 0, -4, 4`: glass, brown diffuse
/// and smooth metal.
pub open spec fn large_spheres() -> Seq<Sphere> {
    seq![
        Sphere {
            center: vec_of(0, ONE as int, 0),
            radius: ONE,
            mat_ptr: Material::Dielectric(Dielectric { ir: 1_500_000_000_000 }),
        },
        Sphere {
            center: vec_of(-4 * ONE, ONE as int, 0),
            radius: ONE,
            mat_ptr: Material::Lambertian(Lambertian { albedo: vec_of(400_000_000_000, 200_000_000_000, 100_000_000_000) }),
        },
        Sphere {
            center: vec_of(4 * ONE, ONE as int, 0),
            radius: ONE,
            mat_ptr: Material::Metal(Metal { albedo: vec_of(700_000_000_000, 600_000_000_000, 500_000_000_000), fuzz: 0 }),
        },
    ]
}

/// The point the small spheres keep clear of, `(4, 0.2, 0)`.
pub open spec fn clearing() -> Vec3 {
    vec_of(4 * ONE, 200_000_000_000, 0)
}

/// A small sphere of the grid: radius `0.2`, resting at height `0.2`, farther
/// than `0.9` from the clearing, of a grid material.
pub open spec fn is_small_sphere(s: Sphere) -> bool {
    &&& s.wf()
    &&& s.radius == 200_000_000_000
    &&& s.center.y == 200_000_000_000
    &&& vlen(vsub(s.center, clearing())) > 900_000_000_000
    &&& is_grid_material(s.mat_ptr)
}

/// A material of the grid: diffuse with albedo in `[0, 1)^3`, metal with
/// albedo in `[0.5, 1)^3` and fuzz in `[0, 0.5)`, or glass of index `1.5`.
pub open spec fn is_grid_material(m: Material) -> bool {
    match m {
        Material::Lambertian(l) => {
            &&& 0 <= l.albedo.x < ONE
            &&& 0 <= l.albedo.y < ONE
            &&& 0 <= l.albedo.z < ONE
        },
        Material::Metal(mm) => {
            &&& ONE / 2 <= mm.albedo.x < ONE
            &&& ONE / 2 <= mm.albedo.y < ONE
            &&& ONE / 2 <= mm.albedo.z < ONE
            &&& 0 <= mm.fuzz < ONE / 2
        },
        Material::Dielectric(d) => d.ir == 1_500_000_000_000,
    }
}

/// The fixed-point product of two values in `[0, 1)` lies in `[0, 1)`.
proof fn lemma_product_below_one(a: int, b: int)
    requires
        0 <= a < ONE,
        0 <= b < ONE,
    ensures
        0 <= fmul(a, b) < ONE,
{
    let one = ONE as int;
    assert(0 <= a * b < one * one) by (nonlinear_arith)
        requires
            0 <= a < one,
            0 <= b < one,
    ;
    crate::fixed::lemma_div_bounds(a * b, one);
    assert((a * b) / one < one) by (nonlinear_arith)
        requires
            one * ((a * b) / one) <= a * b,
            a * b < one * one,
            one > 0,
    ;
}

/// The small sphere at grid cell `(a, b)`, if the draws place it clear of the
/// large metal sphere.
fn grid_sphere(a: i64, b: i64) -> (r: Option<Sphere>)
    requires
        -11 <= a < 11,
        -11 <= b < 11,
    ensures
        r matches Some(s) ==> is_small_sphere(s),
{
    let choose_mat = random_double();
    let center = Vec3 {
        x: a * ONE + fixed_mul(900_000_000_000, random_double()),
        y: 200_000_000_000,
        z: b * ONE + fixed_mul(900_000_000_000, random_double()),
    };
    let clearing = Vec3 { x: 4 * ONE, y: 200_000_000_000, z: 0 };
    if center.sub(clearing).length() > 900_000_000_000 {
        let sphere_material = if choose_mat < 800_000_000_000 {
            // diffuse
            let (p, q) = (random(), random());
            proof {
                lemma_product_below_one(p.x as int, q.x as int);
                lemma_product_below_one(p.y as int, q.y as int);
                lemma_product_below_one(p.z as int, q.z as int);
            }
            let albedo = p.mul(q);
            Material::Lambertian(Lambertian::new_with_values(albedo))
        } else if choose_mat < 950_000_000_000 {
            // metal
            let albedo = random_minmax(ONE / 2, ONE);
            let fuzz = random_double_range(0, ONE / 2);
            Material::Metal(Metal::new_with_values(albedo, fuzz))
        } else {
            // glass
            Material::Dielectric(Dielectric { ir: 1_500_000_000_000 })
        };
        Some(Sphere { center, radius: 200_000_000_000, mat_ptr: sphere_material })
    } else {
        None
    }
}

/// The demonstration scene: the ground sphere first, then the small spheres of
/// a 22 by 22 grid that keep clear of the metal sphere, then the three large
/// spheres.
pub fn random_scene() -> (world: HittableList)
    ensures
        world.wf(),
        4 <= world.objects@.len() <= 4 + 22 * 22,
        world.objects@[0] == ground_sphere(),
        world.objects@.subrange(world.objects@.len() - 3, world.objects@.len() as int)
            == large_spheres(),
        forall|k: int|
            1 <= k < world.objects@.len() - 3 ==> is_small_sphere(#[trigger] world.objects@[k]),
{
    let mut world = HittableList::new();
    let ground_material = Material::Lambertian(
        Lambertian::new_with_values(Vec3 { x: 500_000_000_000, y: 500_000_000_000, z: 500_000_000_000 }),
    );
    world.add(
        Sphere { center: Vec3 { x: 0, y: -1_000_000_000_000_000, z: 0 }, radius: 1_000_000_000_000_000, mat_ptr: ground_material },
    );
    let mut a: i64 = -11;
    while a < 11
        invariant
            -11 <= a <= 11,
            world.wf(),
            1 <= world.objects@.len() <= 1 + 22 * (a + 11),
            world.objects@[0] == ground_sphere(),
            forall|k: int| 1 <= k < world.objects@.len() ==> is_small_sphere(#[trigger] world.objects@[k]),
        decreases 11 - a,
    {
        let mut b: i64 = -11;
        while b < 11
            invariant
                -11 <= a < 11,
                -11 <= b <= 11,
                world.wf(),
                1 <= world.objects@.len() <= 1 + 22 * (a + 11) + (b + 11),
                world.objects@[0] == ground_sphere(),
                forall|k: int|
                    1 <= k < world.objects@.len() ==> is_small_sphere(#[trigger] world.objects@[k]),
            decreases 11 - b,
        {
            if let Some(s) = grid_sphere(a, b) {
                world.add(s);
            }
            b = b + 1;
        }
        a = a + 1;
    }
    let material1 = Material::Dielectric(Dielectric { ir: 1_500_000_000_000 });
    world.add(Sphere { center: Vec3 { x: 0, y: ONE, z: 0 }, radius: ONE, mat_ptr: material1 });
    let material2 = Material::Lambertian(
        Lambertian::new_with_values(Vec3 { x: 400_000_000_000, y: 200_000_000_000, z: 100_000_000_000 }),
    );
    world.add(Sphere { center: Vec3 { x: -4 * ONE, y: ONE, z: 0 }, radius: ONE, mat_ptr: material2 });
    let material3 = Material::Metal(
        Metal::new_with_values(Vec3 { x: 700_000_000_000, y: 600_000_000_000, z: 500_000_000_000 }, 0),
    );
    world.add(Sphere { center: Vec3 { x: 4 * ONE, y: ONE, z: 0 }, radius: ONE, mat_ptr: material3 });
    assert(world.objects@.subrange(world.objects@.len() - 3, world.objects@.len() as int)
        =~= large_spheres());
    world
}

} // verus!
