//! Tests of the fixed-point scalars, vectors, intersection and scattering.

use rays::fixed::Fx;
use rays::material::{Material, MaterialKind};
use rays::scene::{hit, Ray, HitRecord, Sphere};
use rays::sampling::random_in_unit_sphere;
use rays::vec3::Vec3;

const S: i64 = 65536;

fn fxn(raw: i64) -> Fx {
    Fx::new(raw)
}

fn v(x: i64, y: i64, z: i64) -> Vec3 {
    Vec3::new(fxn(x), fxn(y), fxn(z))
}

fn lambertian(ax: i64, ay: i64, az: i64) -> Material {
    Material { kind: MaterialKind::Lambertian, albedo: v(ax, ay, az), fuzz: fxn(0) }
}

fn metal(ax: i64, ay: i64, az: i64, fuzz: i64) -> Material {
    Material { kind: MaterialKind::Metal, albedo: v(ax, ay, az), fuzz: fxn(fuzz) }
}

#[test]
fn fixed_exact_products_and_roots() {
    assert_eq!(Fx::from_int(2).mul(Fx::from_int(3)).raw, 6 * S);
    assert_eq!(Fx::from_int(4).sqrt().raw, 2 * S);
    // products round toward negative infinity
    assert_eq!(fxn(-1).mul(fxn(1)).raw, -1);
    assert_eq!(fxn(1).mul(fxn(1)).raw, 0);
    // division by a positive scalar rounds toward negative infinity
    assert_eq!(fxn(-S).div(Fx::from_int(2)).raw, -S / 2);
    // saturation instead of wrap-around
    assert_eq!(Fx::new(i64::MAX).add(Fx::new(1)).raw, i64::MAX);
    assert_eq!(Fx::new(i64::MIN).sub(Fx::new(1)).raw, i64::MIN);
}

#[test]
fn vector_arithmetic() {
    let a = v(S, 2 * S, 3 * S);
    let b = v(4 * S, 5 * S, 6 * S);
    assert_eq!(a.add(b), v(5 * S, 7 * S, 9 * S));
    assert_eq!(b.sub(a), v(3 * S, 3 * S, 3 * S));
    assert_eq!(a.dot(b).raw, 32 * S);
    assert_eq!(a.cmul(b), v(4 * S, 10 * S, 18 * S));
    assert_eq!(v(0, 3 * S, 4 * S).length().raw, 5 * S);
    assert_eq!(v(0, 0, 2 * S).unit(), v(0, 0, S));
}

/// A ray aimed straight at a sphere's center from outside hits it at a
/// positive parameter, and the normal is anti-parallel to the direction.
#[test]
fn head_on_hit_is_positive_with_antiparallel_normal() {
    let sphere = Sphere { center: v(0, 0, -2 * S), radius: fxn(S), mat: lambertian(S, S, S) };
    let ray = Ray { a: v(0, 0, 0), b: v(0, 0, -S) };
    let rec = sphere.hit(&ray, fxn(65), fxn(i64::MAX)).expect("head-on ray must hit");
    assert!(rec.t.raw > 0);
    assert_eq!(rec.t.raw, S);
    assert_eq!(rec.p, v(0, 0, -S));
    assert_eq!(rec.normal, v(0, 0, S));
    // anti-parallel: the normal is the negated unit direction
    assert_eq!(rec.normal, ray.b.unit().neg());
    assert!(rec.normal.dot(ray.b).raw < 0);
}

/// A ray whose perpendicular offset exceeds the radius misses entirely.
#[test]
fn offset_ray_misses() {
    let sphere = Sphere { center: v(0, 0, -2 * S), radius: fxn(S), mat: lambertian(S, S, S) };
    let ray = Ray { a: v(0, 2 * S, 0), b: v(0, 0, -S) };
    assert!(sphere.hit(&ray, fxn(65), fxn(i64::MAX)).is_none());
}

/// Over two overlapping spheres the nearer surface wins, in either order.
#[test]
fn closest_hit_prefers_nearer_sphere_in_any_order() {
    let near = Sphere { center: v(0, 0, -2 * S), radius: fxn(S), mat: lambertian(S, 0, 0) };
    let far = Sphere { center: v(0, 0, -4 * S), radius: fxn(S), mat: lambertian(0, S, 0) };
    let ray = Ray { a: v(0, 0, 0), b: v(0, 0, -S) };
    let tmin = fxn(65);
    let tmax = fxn(i64::MAX);
    assert_eq!(near.hit(&ray, tmin, tmax).unwrap().t.raw, S);
    assert_eq!(far.hit(&ray, tmin, tmax).unwrap().t.raw, 3 * S);
    let ab = hit(&ray, tmin, tmax, &vec![near, far]).expect("must hit");
    let ba = hit(&ray, tmin, tmax, &vec![far, near]).expect("must hit");
    assert_eq!(ab.t.raw, S);
    assert_eq!(ba.t.raw, S);
    assert_eq!(ab, ba);
    assert_eq!(ab.mat.albedo, v(S, 0, 0));
}

/// Diffuse scattering always survives and attenuates by exactly the albedo.
#[test]
fn diffuse_scatter_survives_with_albedo_attenuation() {
    let mat = lambertian(52428, 19660, 19660);
    let rec = HitRecord { t: fxn(S), p: v(0, 0, 0), normal: v(0, 0, S), mat };
    let ray = Ray { a: v(0, 0, S), b: v(0, 0, -S) };
    for _ in 0..32 {
        let (survived, attenuation, scattered) = mat.scatter(&ray, &rec);
        assert!(survived);
        assert_eq!(attenuation, v(52428, 19660, 19660));
        assert_eq!(scattered.a, rec.p);
        // the target is the normal displaced by a point inside the unit sphere
        let sample = scattered.b.sub(rec.normal);
        assert!(sample.squared_length().raw < S);
    }
}

/// Reflective scattering with zero fuzz on a dead-on hit is the exact mirror
/// reflection, whatever the drawn sample would have been.
#[test]
fn zero_fuzz_metal_reflects_exactly() {
    let mat = metal(52428, 39321, 13107, 0);
    let sphere = Sphere { center: v(0, 0, -2 * S), radius: fxn(S), mat };
    let ray = Ray { a: v(0, 0, 0), b: v(0, 0, -S) };
    let rec = sphere.hit(&ray, fxn(65), fxn(i64::MAX)).expect("must hit");
    let sample = v(12345, -9999, 20000);
    let (survived, attenuation, scattered) = mat.scatter_with(&ray, &rec, sample);
    assert!(survived);
    assert_eq!(attenuation, v(52428, 39321, 13107));
    assert_eq!(scattered.a, v(0, 0, -S));
    assert_eq!(scattered.b, v(0, 0, S));
    // and through the sampling entry point as well: fuzz 0 ignores the sample
    let (survived2, _, scattered2) = mat.scatter(&ray, &rec);
    assert!(survived2);
    assert_eq!(scattered2.b, v(0, 0, S));
}

/// Grazing/invalid reflections are absorbed: a reflection that ends up inside
/// the surface reports no scatter.
#[test]
fn metal_absorbs_when_reflection_points_inward() {
    let mat = metal(S, S, S, 0);
    // a hit record whose normal points along the incoming ray: the mirrored
    // direction then points into the surface
    let rec = HitRecord { t: fxn(S), p: v(0, 0, 0), normal: v(0, 0, -S), mat };
    let ray = Ray { a: v(0, 0, S), b: v(0, 0, -S) };
    let (survived, _, _) = mat.scatter_with(&ray, &rec, v(0, 0, 0));
    assert!(!survived);
}

#[test]
fn unit_sphere_samples_are_strictly_inside() {
    for _ in 0..64 {
        let p = random_in_unit_sphere();
        assert!(p.squared_length().raw < S);
    }
}
