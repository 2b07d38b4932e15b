//! Surface materials: diffuse (Lambertian) and reflective metal with a fuzz
//! roughness parameter.

use vstd::prelude::*;
use crate::fixed::{Fx, fx_add, fx_sub, fx_mul, SCALE};
use crate::vec3::{Vec3, v3, s_add, s_sub, s_scale, s_dot, s_unit};
use crate::scene::{Ray, HitRecord};
use crate::sampling::random_in_unit_sphere;

verus! {

/// The closed set of surface behaviors.
#[derive(Clone, Copy, PartialEq, Eq, Structural, Debug)]
pub enum MaterialKind {
    Lambertian,
    Metal,
}

/// A surface material: its kind, its per-channel albedo, and (for metal) the
/// roughness of the reflection.
#[derive(Clone, Copy, PartialEq, Eq, Structural, Debug)]
pub struct Material {
    pub kind: MaterialKind,
    pub albedo: Vec3,
    pub fuzz: Fx,
}

impl Material {
    /// Albedo channels and fuzz lie in `[0, 1]`.
    pub open spec fn wf(self) -> bool {
        &&& 0 <= self.albedo.x@ <= SCALE as int
        &&& 0 <= self.albedo.y@ <= SCALE as int
        &&& 0 <= self.albedo.z@ <= SCALE as int
        &&& 0 <= self.fuzz@ <= SCALE as int
    }
}

/// Mirror reflection of `v` about the normal `n`: `v - 2 (v . n) n`.
pub open spec fn s_reflect(v: Vec3, n: Vec3) -> Vec3 {
    s_sub(v, s_scale(fx_mul(2 * SCALE as int, s_dot(v, n)), n))
}

/// What scattering returns: whether the ray survives, the attenuation, and
/// the outgoing ray.
///
/// Diffuse surfaces aim at the hit point displaced by the normal plus the
/// unit-sphere sample and always survive.  Metal surfaces mirror the
/// normalized incoming direction about the normal, perturb it by
/// `fuzz * sample`, and survive only while the outgoing direction still
/// points away from the surface.  Attenuation is always the albedo.
pub open spec fn s_scatter(m: Material, r: Ray, rec: HitRecord, sample: Vec3) -> (bool, Vec3, Ray) {
    match m.kind {
        MaterialKind::Lambertian => {
            let target = s_add(s_add(rec.p, rec.normal), sample);
            (true, m.albedo, Ray { a: rec.p, b: s_sub(target, rec.p) })
        },
        MaterialKind::Metal => {
            let reflected = s_reflect(s_unit(r.b), rec.normal);
            let dir = s_add(reflected, s_scale(m.fuzz@, sample));
            (s_dot(dir, rec.normal) > 0, m.albedo, Ray { a: rec.p, b: dir })
        },
    }
}

/// Mirror reflection of `v` about the normal `n`.
pub fn reflect(v: &Vec3, n: &Vec3) -> (r: Vec3)
    ensures
        r == s_reflect(*v, *n),
{
    let d = v.dot(*n);
    let two = Fx::new(2 * SCALE);
    v.sub(n.scale(two.mul(d)))
}

impl Material {
    /// Scattering with the unit-sphere sample given by the caller; exact for
    /// every sample value.
    pub fn scatter_with(&self, r: &Ray, rec: &HitRecord, sample: Vec3) -> (out: (bool, Vec3, Ray))
        ensures
            out == s_scatter(*self, *r, *rec, sample),
            self.kind is Lambertian ==> out.0 == true,
            out.1 == self.albedo,
            out.2.a == rec.p,
            self.kind is Metal && self.fuzz@ == 0 ==> out.2.b == s_reflect(s_unit(r.b), rec.normal),
    {
        match self.kind {
            MaterialKind::Lambertian => {
                let target = rec.p.add(rec.normal).add(sample);
                (true, self.albedo, Ray { a: rec.p, b: target.sub(rec.p) })
            },
            MaterialKind::Metal => {
                let norm = r.b.unit();
                let reflected = reflect(&norm, &rec.normal);
                let dir = reflected.add(sample.scale(self.fuzz));
                let survives = dir.dot(rec.normal).raw > 0;
                (survives, self.albedo, Ray { a: rec.p, b: dir })
            },
        }
    }

    /// Scattering with a freshly drawn unit-sphere sample.
    pub fn scatter(&self, r: &Ray, rec: &HitRecord) -> (out: (bool, Vec3, Ray))
        ensures
            exists|sample: Vec3|
                s_dot(sample, sample) < SCALE as int && out == s_scatter(*self, *r, *rec, sample),
            self.kind is Lambertian ==> out.0 == true,
            out.1 == self.albedo,
            out.2.a == rec.p,
    {
        let sample = random_in_unit_sphere();
        let out = self.scatter_with(r, rec, sample);
        proof {
            assert(s_dot(sample, sample) < SCALE as int && out == s_scatter(*self, *r, *rec,
                sample));
        }
        out
    }
}

} // verus!
