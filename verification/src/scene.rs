//! Rays, spheres, hit records, and closest-hit resolution over a scene.

use vstd::prelude::*;
use vstd::arithmetic::div_mod::lemma_div_is_ordered;
use crate::fixed::{Fx, fx, fx_add, fx_sub, fx_neg, fx_mul, fx_div, fx_sqrt, SCALE};
use crate::vec3::{Vec3, s_add, s_sub, s_scale, s_div, s_dot};
use crate::material::Material;

verus! {

/// A half-line: origin `a` plus parameter times direction `b` (the direction
/// need not be unit length).
#[derive(Clone, Copy, PartialEq, Eq, Structural, Debug)]
pub struct Ray {
    pub a: Vec3,
    pub b: Vec3,
}

/// The result of a successful ray-sphere intersection.
#[derive(Clone, Copy, PartialEq, Eq, Structural, Debug)]
pub struct HitRecord {
    pub t: Fx,
    pub p: Vec3,
    pub normal: Vec3,
    pub mat: Material,
}

/// A sphere with its surface material.
#[derive(Clone, Copy, PartialEq, Eq, Structural, Debug)]
pub struct Sphere {
    pub center: Vec3,
    pub radius: Fx,
    pub mat: Material,
}

/// The point on the ray at parameter `t` (a raw scalar value).
pub open spec fn s_at(r: Ray, t: int) -> Vec3 {
    s_add(r.a, s_scale(t, r.b))
}

/// Origin minus sphere center.
pub open spec fn s_oc(s: Sphere, r: Ray) -> Vec3 {
    s_sub(r.a, s.center)
}

/// Quadratic coefficient `a = D . D`.
pub open spec fn s_qa(r: Ray) -> int {
    s_dot(r.b, r.b)
}

/// Quadratic half-coefficient `b = (O - C) . D`.
pub open spec fn s_qb(s: Sphere, r: Ray) -> int {
    s_dot(s_oc(s, r), r.b)
}

/// Quadratic coefficient `c = (O - C) . (O - C) - radius^2`.
pub open spec fn s_qc(s: Sphere, r: Ray) -> int {
    fx_sub(s_dot(s_oc(s, r), s_oc(s, r)), fx_mul(s.radius@, s.radius@))
}

/// Discriminant `b^2 - a c` of the half-angle quadratic.
pub open spec fn s_disc(s: Sphere, r: Ray) -> int {
    fx_sub(fx_mul(s_qb(s, r), s_qb(s, r)), fx_mul(s_qa(r), s_qc(s, r)))
}

/// The smaller root `(-b - sqrt(disc)) / a`.
pub open spec fn s_root0(s: Sphere, r: Ray) -> int
    recommends
        s_qa(r) > 0,
{
    fx_div(fx_sub(fx_neg(s_qb(s, r)), fx_sqrt(s_disc(s, r))), s_qa(r))
}

/// The larger root `(-b + sqrt(disc)) / a`.
pub open spec fn s_root1(s: Sphere, r: Ray) -> int
    recommends
        s_qa(r) > 0,
{
    fx_div(fx_add(fx_neg(s_qb(s, r)), fx_sqrt(s_disc(s, r))), s_qa(r))
}

/// The hit parameter a sphere reports for a ray over the open interval
/// `(tmin, tmax)`: the smaller root if it lies strictly inside, else the
/// larger root if it does, else no hit.  Degenerate rays (quadratic
/// coefficient `a` not positive, from a zero or underflowed direction) and
/// non-positive discriminants report no hit.
pub open spec fn hit_time(s: Sphere, r: Ray, tmin: int, tmax: int) -> Option<int> {
    if s_qa(r) > 0 && s_disc(s, r) > 0 {
        if tmin < s_root0(s, r) && s_root0(s, r) < tmax {
            Some(s_root0(s, r))
        } else if tmin < s_root1(s, r) && s_root1(s, r) < tmax {
            Some(s_root1(s, r))
        } else {
            None
        }
    } else {
        None
    }
}

/// The outward unit normal at the hit point: `(P - C) / radius`.
pub open spec fn hit_normal(s: Sphere, r: Ray, t: int) -> Vec3
    recommends
        s.radius@ > 0,
{
    s_div(s_sub(s_at(r, t), s.center), s.radius@)
}

/// The hit record a sphere populates for hit parameter `t`.
pub open spec fn mk_hit(s: Sphere, r: Ray, t: int) -> HitRecord {
    HitRecord { t: fx(t), p: s_at(r, t), normal: hit_normal(s, r, t), mat: s.mat }
}

impl Ray {
    /// The ray's origin.
    pub fn origin(&self) -> (r: Vec3)
        ensures
            r == self.a,
    {
        self.a
    }

    /// The ray's direction.
    pub fn direction(&self) -> (r: Vec3)
        ensures
            r == self.b,
    {
        self.b
    }

    /// The point at parametric distance `t`.
    pub fn point_at_parameter(&self, t: Fx) -> (p: Vec3)
        ensures
            p == s_at(*self, t@),
    {
        self.a.add(self.b.scale(t))
    }
}

impl Sphere {
    /// A positive radius and a well-formed material.
    pub open spec fn wf(self) -> bool {
        &&& self.radius@ > 0
        &&& self.mat.wf()
    }

    /// The intersection test: the hit record for the qualifying root nearest
    /// the origin, or no hit.
    pub fn hit(&self, r: &Ray, t_min: Fx, t_max: Fx) -> (res: Option<HitRecord>)
        requires
            self.wf(),
        ensures
            res is Some <==> hit_time(*self, *r, t_min@, t_max@) is Some,
            res matches Some(rec) ==> hit_time(*self, *r, t_min@, t_max@) == Some(rec.t@)
                && rec == mk_hit(*self, *r, rec.t@),
    {
        let oc = r.a.sub(self.center);
        let a = r.b.dot(r.b);
        let b = oc.dot(r.b);
        let c = oc.dot(oc).sub(self.radius.mul(self.radius));
        let disc = b.mul(b).sub(a.mul(c));
        if a.raw > 0 && disc.raw > 0 {
            let sq = disc.sqrt();
            let t0 = b.neg().sub(sq).div(a);
            if t0.raw < t_max.raw && t0.raw > t_min.raw {
                let p = r.point_at_parameter(t0);
                let normal = p.sub(self.center).div_s(self.radius);
                return Some(HitRecord { t: t0, p, normal, mat: self.mat });
            }
            let t1 = b.neg().add(sq).div(a);
            if t1.raw < t_max.raw && t1.raw > t_min.raw {
                let p = r.point_at_parameter(t1);
                let normal = p.sub(self.center).div_s(self.radius);
                return Some(HitRecord { t: t1, p, normal, mat: self.mat });
            }
            None
        } else {
            None
        }
    }
}

/// Every sphere of the scene is well formed.
pub open spec fn wf_world(w: Seq<Sphere>) -> bool {
    forall|i: int| 0 <= i < w.len() ==> #[trigger] w[i].wf()
}

/// Shrinking the upper bound of the search interval keeps exactly the hits
/// that lie below the new bound, and reports the same hit parameter.
pub proof fn lemma_hit_time_shrink(s: Sphere, r: Ray, tmin: int, c: int, tmax: int)
    requires
        c <= tmax,
    ensures
        hit_time(s, r, tmin, c) matches Some(t) ==> hit_time(s, r, tmin, tmax) == Some(t) && t
            < c,
        hit_time(s, r, tmin, tmax) matches Some(t) ==> {
            &&& (t < c ==> hit_time(s, r, tmin, c) == Some(t))
            &&& (t >= c ==> hit_time(s, r, tmin, c) is None)
        },
        hit_time(s, r, tmin, tmax) is None ==> hit_time(s, r, tmin, c) is None,
{
    if s_qa(r) > 0 && s_disc(s, r) > 0 {
        let a = s_qa(r);
        let sq = fx_sqrt(s_disc(s, r));
        let n0 = fx_sub(fx_neg(s_qb(s, r)), sq);
        let n1 = fx_add(fx_neg(s_qb(s, r)), sq);
        assert(sq >= 0);
        assert(n0 <= n1);
        lemma_div_is_ordered(n0 * (SCALE as int), n1 * (SCALE as int), a);
        assert(s_root0(s, r) <= s_root1(s, r));
    }
}

/// A reported hit parameter always lies strictly inside the query interval:
/// over `(0, tmax)` every hit is at a strictly positive parameter.
pub proof fn lemma_hit_time_in_interval(s: Sphere, r: Ray, tmin: int, tmax: int)
    ensures
        hit_time(s, r, tmin, tmax) matches Some(t) ==> tmin < t < tmax,
{
}

/// Closest hit exactly as the scan computes it: each sphere is tested
/// against the interval shrunk to the nearest hit parameter seen before it,
/// left to right, so a later sphere replaces the record only with a strictly
/// nearer hit.
pub open spec fn s_closest_hit(world: Seq<Sphere>, r: Ray, tmin: int, tmax: int) -> Option<
    HitRecord,
>
    decreases world.len(),
{
    if world.len() == 0 {
        None
    } else {
        let prev = s_closest_hit(world.drop_last(), r, tmin, tmax);
        let bound = match prev {
            Some(rec) => rec.t@,
            None => tmax,
        };
        match hit_time(world.last(), r, tmin, bound) {
            Some(t) => Some(mk_hit(world.last(), r, t)),
            None => prev,
        }
    }
}

/// Closest-hit resolution: what `hit` promises of its result.
///
/// No hit is reported exactly when no sphere reports one over the full
/// interval; otherwise the result is the record some sphere populates for its
/// reported hit parameter, and no sphere reports a strictly nearer one.
pub open spec fn closest_hit_post(
    world: Seq<Sphere>,
    r: Ray,
    tmin: int,
    tmax: int,
    res: Option<HitRecord>,
) -> bool {
    &&& (res is None <==> (forall|i: int|
        0 <= i < world.len() ==> #[trigger] hit_time(world[i], r, tmin, tmax) is None))
    &&& (res matches Some(rec) ==> {
        &&& exists|i: int|
            0 <= i < world.len() && #[trigger] hit_time(world[i], r, tmin, tmax) == Some(
                rec.t@,
            ) && rec == mk_hit(world[i], r, rec.t@)
        &&& forall|j: int|
            0 <= j < world.len() ==> (#[trigger] hit_time(world[j], r, tmin, tmax) matches Some(
                tj,
            ) ==> rec.t@ <= tj)
    })
}

/// Closest hit over the scene in `(t_min, t_max)`: a linear scan that shrinks
/// the effective upper bound to the nearest hit parameter seen so far.
pub fn hit(r: &Ray, t_min: Fx, t_max: Fx, world: &Vec<Sphere>) -> (res: Option<HitRecord>)
    requires
        wf_world(world@),
    ensures
        res == s_closest_hit(world@, *r, t_min@, t_max@),
        closest_hit_post(world@, *r, t_min@, t_max@, res),
{
    let mut best: Option<HitRecord> = None;
    let mut closest: Fx = t_max;
    let mut i: usize = 0;
    while i < world.len()
        invariant
            i <= world@.len(),
            wf_world(world@),
            best == s_closest_hit(world@.take(i as int), *r, t_min@, t_max@),
            closest@ <= t_max@,
            best is None ==> closest == t_max,
            best is None ==> (forall|k: int|
                0 <= k < i ==> #[trigger] hit_time(world@[k], *r, t_min@, t_max@) is None),
            best matches Some(rec) ==> {
                &&& rec.t == closest
                &&& exists|k: int|
                    0 <= k < i && #[trigger] hit_time(world@[k], *r, t_min@, t_max@) == Some(
                        rec.t@,
                    ) && rec == mk_hit(world@[k], *r, rec.t@)
                &&& forall|k: int|
                    0 <= k < i ==> (#[trigger] hit_time(world@[k], *r, t_min@, t_max@) matches Some(
                        tk,
                    ) ==> rec.t@ <= tk)
            },
        decreases world@.len() - i,
    {
        let s = world[i];
        let ghost prev = closest@;
        let res_i = s.hit(r, t_min, closest);
        proof {
            lemma_hit_time_shrink(world@[i as int], *r, t_min@, prev, t_max@);
            assert(world@.take(i as int + 1).drop_last() =~= world@.take(i as int));
            assert(world@.take(i as int + 1).last() == world@[i as int]);
        }
        match res_i {
            Some(rec2) => {
                closest = rec2.t;
                best = Some(rec2);
            },
            None => {},
        }
        i = i + 1;
    }
    proof {
        assert(world@.take(world@.len() as int) =~= world@);
    }
    best
}

/// For a two-sphere scene in which both spheres report a hit, a result that
/// meets `closest_hit_post` is a hit at one of the two reported parameters,
/// and at neither sphere's expense: it is at most both.
proof fn lemma_pair_min(w: Seq<Sphere>, r: Ray, tmin: int, tmax: int, res: Option<HitRecord>)
    requires
        w.len() == 2,
        hit_time(w[0], r, tmin, tmax) is Some,
        hit_time(w[1], r, tmin, tmax) is Some,
        closest_hit_post(w, r, tmin, tmax, res),
    ensures
        res is Some,
        res matches Some(rec) ==> {
            &&& (hit_time(w[0], r, tmin, tmax) == Some(rec.t@) || hit_time(w[1], r, tmin, tmax)
                == Some(rec.t@))
            &&& (hit_time(w[0], r, tmin, tmax) matches Some(t0) ==> rec.t@ <= t0)
            &&& (hit_time(w[1], r, tmin, tmax) matches Some(t1) ==> rec.t@ <= t1)
        },
{
    if res is None {
        assert(hit_time(w[0], r, tmin, tmax) is None);
    }
    let rec = res.unwrap();
    let i = choose|i: int|
        0 <= i < w.len() && #[trigger] hit_time(w[i], r, tmin, tmax) == Some(rec.t@) && rec
            == mk_hit(w[i], r, rec.t@);
    assert(i == 0 || i == 1);
}

/// Over two spheres that both report a hit, closest-hit resolution returns
/// the nearer hit parameter, in either collection order: the farther surface
/// is never reported.
#[verifier::rlimit(50)]
pub proof fn lemma_two_spheres_nearer_wins(
    s0: Sphere,
    s1: Sphere,
    r: Ray,
    tmin: int,
    tmax: int,
    ta: int,
    tb: int,
    res: Option<HitRecord>,
)
    requires
        hit_time(s0, r, tmin, tmax) == Some(ta),
        hit_time(s1, r, tmin, tmax) == Some(tb),
        ta <= tb,
        closest_hit_post(seq![s0, s1], r, tmin, tmax, res) || closest_hit_post(
            seq![s1, s0],
            r,
            tmin,
            tmax,
            res,
        ),
    ensures
        res matches Some(rec) ==> rec.t@ == ta,
        res is Some,
{
    if closest_hit_post(seq![s0, s1], r, tmin, tmax, res) {
        let w = seq![s0, s1];
        assert(w[0] == s0 && w[1] == s1);
        lemma_pair_min(w, r, tmin, tmax, res);
    } else {
        let w = seq![s1, s0];
        assert(w[0] == s1 && w[1] == s0);
        lemma_pair_min(w, r, tmin, tmax, res);
    }
}

} // verus!
