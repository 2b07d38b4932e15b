//! The path tracer: recursive radiance resolution with a bounded depth.

use vstd::prelude::*;
use vstd::arithmetic::div_mod::{lemma_fundamental_div_mod, lemma_fundamental_div_mod_converse,
    lemma_mod_bound, lemma_div_is_ordered, lemma_div_multiples_vanish};
use crate::fixed::{Fx, fx_add, fx_sub, fx_mul, fx_clamp01, SCALE, lemma_fx_mul_unit};
use crate::vec3::{Vec3, v3, s_add, s_scale, s_cmul, s_dot, s_unit};
use crate::material::s_scatter;
use crate::scene::{Ray, Sphere, hit, hit_time, mk_hit, s_closest_hit, wf_world};

verus! {

/// Raw value of one half: the background interpolation weight at the horizon.
pub const HALF: i64 = 32768;

/// Raw value of the sky gradient's green channel (the nearest representable
/// value to seven tenths).
pub const SKY_GREEN: i64 = 45875;

/// Raw value of the lower interval bound for secondary rays, the nearest
/// representable value to one thousandth (avoids shadow acne).
pub const T_MIN: i64 = 65;

/// The recursion depth at which a ray's energy budget is exhausted.
pub const MAX_DEPTH: u32 = 50;

/// Every channel lies in `[0, 1]`.
pub open spec fn in_unit_range(a: Vec3) -> bool {
    &&& 0 <= a.x@ <= SCALE as int
    &&& 0 <= a.y@ <= SCALE as int
    &&& 0 <= a.z@ <= SCALE as int
}

/// The background gradient: a vertical blend from white toward sky blue by
/// the normalized direction's vertical component mapped from `[-1, 1]` to
/// `[0, 1]` (clipped against rounding at the ends).
pub open spec fn s_background(r: Ray) -> Vec3 {
    let t = fx_clamp01(fx_mul(HALF as int, fx_add(s_unit(r.b).y@, SCALE as int)));
    s_add(
        s_scale(fx_sub(SCALE as int, t), v3(SCALE as int, SCALE as int, SCALE as int)),
        s_scale(t, v3(HALF as int, SKY_GREEN as int, SCALE as int)),
    )
}

/// A blend of white with a channel of at least one half never falls below
/// one half.
proof fn lemma_mix_lower(t: int, c: int)
    requires
        0 <= t <= SCALE as int,
        HALF as int <= c <= SCALE as int,
    ensures
        fx_add(fx_mul(fx_sub(SCALE as int, t), SCALE as int), fx_mul(t, c)) >= HALF as int,
{
    let s = SCALE as int;
    let a = s - t;
    // the white term is exact: (a * s) / s == a
    lemma_div_multiples_vanish(a, s);
    assert(a * s == s * a) by (nonlinear_arith);
    // the sky term is at least (t * HALF) / s, which is exactly t / 2
    assert(t * (HALF as int) <= t * c) by (nonlinear_arith)
        requires
            0 <= t,
            HALF as int <= c,
    ;
    lemma_div_is_ordered(t * (HALF as int), t * c, s);
    lemma_fundamental_div_mod(t, 2);
    lemma_mod_bound(t, 2);
    let q = t / 2;
    let rr = t % 2;
    assert(t * (HALF as int) == s * q + (HALF as int) * rr) by (nonlinear_arith)
        requires
            t == 2 * q + rr,
            s == 2 * (HALF as int),
    ;
    lemma_fundamental_div_mod_converse(t * (HALF as int), s, q, (HALF as int) * rr);
    lemma_fx_mul_unit(t, c);
}

/// Each channel of the background gradient lies in `[1/2, 1]`: a blend of
/// white with the sky color never falls below the sky's darkest channel.
pub proof fn lemma_background_range(r: Ray)
    ensures
        HALF as int <= s_background(r).x@ <= SCALE as int,
        HALF as int <= s_background(r).y@ <= SCALE as int,
        HALF as int <= s_background(r).z@ <= SCALE as int,
{
    let t = fx_clamp01(fx_mul(HALF as int, fx_add(s_unit(r.b).y@, SCALE as int)));
    lemma_mix_range(t, SCALE as int, HALF as int);
    lemma_mix_range(t, SCALE as int, SKY_GREEN as int);
    lemma_mix_range(t, SCALE as int, SCALE as int);
    lemma_mix_lower(t, HALF as int);
    lemma_mix_lower(t, SKY_GREEN as int);
    lemma_mix_lower(t, SCALE as int);
}

/// A blend of two `[0, 1]` channels by a `[0, 1]` weight stays in `[0, 1]`.
proof fn lemma_mix_range(t: int, w: int, s: int)
    requires
        0 <= t <= SCALE as int,
        0 <= w <= SCALE as int,
        0 <= s <= SCALE as int,
    ensures
        0 <= fx_add(fx_mul(fx_sub(SCALE as int, t), w), fx_mul(t, s)) <= SCALE as int,
{
    lemma_fx_mul_unit(fx_sub(SCALE as int, t), w);
    lemma_fx_mul_unit(t, s);
}

/// The background gradient for a ray that escapes the scene.
fn background(r: &Ray) -> (c: Vec3)
    ensures
        c == s_background(*r),
        in_unit_range(c),
{
    let u = r.b.unit();
    let t = Fx::new(HALF).mul(u.y.add(Fx::new(SCALE))).clamp01();
    let white = Vec3::new(Fx::new(SCALE), Fx::new(SCALE), Fx::new(SCALE));
    let sky = Vec3::new(Fx::new(HALF), Fx::new(SKY_GREEN), Fx::new(SCALE));
    let c = white.scale(Fx::new(SCALE).sub(t)).add(sky.scale(t));
    proof {
        lemma_mix_range(t@, SCALE as int, HALF as int);
        lemma_mix_range(t@, SCALE as int, SKY_GREEN as int);
        lemma_mix_range(t@, SCALE as int, SCALE as int);
    }
    c
}

/// The radiance equation over given random draws, resolving exactly like
/// `color` and reading one unit-sphere sample per bounce from `samples`: on
/// the nearest hit, the scatter outcome either attenuates the recursive
/// radiance of the outgoing ray, or absorbs the ray (black); a ray past the
/// depth budget is black; a ray that hits nothing is the background gradient.
pub open spec fn s_resolve(world: Seq<Sphere>, r: Ray, depth: int, samples: Seq<Vec3>) -> Vec3
    decreases MAX_DEPTH - depth,
{
    match s_closest_hit(world, r, T_MIN as int, i64::MAX as int) {
        Some(rec) => {
            if samples.len() > 0 {
                let out = s_scatter(rec.mat, r, rec, samples[0]);
                if depth < MAX_DEPTH && out.0 {
                    s_cmul(out.1, s_resolve(world, out.2, depth + 1, samples.drop_first()))
                } else {
                    v3(0, 0, 0)
                }
            } else {
                v3(0, 0, 0)
            }
        },
        None => s_background(r),
    }
}

/// The radiance arriving along a ray, resolved by bouncing it through the
/// scene until absorption, escape to the background, or depth exhaustion
/// (never more than `MAX_DEPTH` bounces; exhausted and absorbed rays are
/// black).  The result is `s_resolve` for some sequence of unit-sphere draws,
/// one per bounce; channels always lie in `[0, 1]`; a ray that no sphere hits
/// over `(T_MIN, +max)` resolves to exactly the background gradient; and at
/// an exhausted depth budget any hit resolves to black.
pub fn color(r: &Ray, world: &Vec<Sphere>, depth: u32) -> (c: Vec3)
    requires
        wf_world(world@),
        depth <= MAX_DEPTH,
    ensures
        in_unit_range(c),
        exists|samples: Seq<Vec3>|
            (forall|k: int|
                0 <= k < samples.len() ==> s_dot(#[trigger] samples[k], samples[k]) < SCALE
                    as int) && c == #[trigger] s_resolve(world@, *r, depth as int, samples),
        (forall|i: int|
            0 <= i < world@.len() ==> #[trigger] hit_time(
                world@[i],
                *r,
                T_MIN as int,
                i64::MAX as int,
            ) is None) ==> c == s_background(*r),
        depth == MAX_DEPTH && s_closest_hit(world@, *r, T_MIN as int, i64::MAX as int)
            is Some ==> c == v3(0, 0, 0),
    decreases MAX_DEPTH - depth,
{
    let t_min = Fx::new(T_MIN);
    let t_max = Fx::new(i64::MAX);
    let res = hit(r, t_min, t_max, world);
    match res {
        Some(rec) => {
            proof {
                let i = choose|i: int|
                    0 <= i < world@.len() && #[trigger] hit_time(
                        world@[i],
                        *r,
                        t_min@,
                        t_max@,
                    ) == Some(rec.t@) && rec == mk_hit(world@[i], *r, rec.t@);
                assert(world@[i].wf());
            }
            let out = rec.mat.scatter(r, &rec);
            let ghost smp = choose|smp: Vec3|
                s_dot(smp, smp) < SCALE as int && out == s_scatter(rec.mat, *r, rec, smp);
            let (survived, att, scattered) = out;
            if depth < MAX_DEPTH && survived {
                let col = color(&scattered, world, depth + 1);
                proof {
                    lemma_fx_mul_unit(att.x@, col.x@);
                    lemma_fx_mul_unit(att.y@, col.y@);
                    lemma_fx_mul_unit(att.z@, col.z@);
                    let srec = choose|srec: Seq<Vec3>|
                        (forall|k: int|
                            0 <= k < srec.len() ==> s_dot(#[trigger] srec[k], srec[k]) < SCALE
                                as int) && col == #[trigger] s_resolve(
                            world@,
                            scattered,
                            depth as int + 1,
                            srec,
                        );
                    let wit = seq![smp] + srec;
                    assert(wit.drop_first() =~= srec);
                    assert(wit[0] == smp);
                    assert forall|k: int| 0 <= k < wit.len() implies s_dot(
                        #[trigger] wit[k],
                        wit[k],
                    ) < SCALE as int by {
                        if k > 0 {
                            assert(wit[k] == srec[k - 1]);
                        }
                    }
                    assert(s_cmul(att, col) == s_resolve(world@, *r, depth as int, wit));
                }
                att.cmul(col)
            } else {
                proof {
                    let wit = seq![smp];
                    assert(wit[0] == smp);
                    assert(v3(0, 0, 0) == s_resolve(world@, *r, depth as int, wit));
                }
                Vec3::zero()
            }
        },
        None => {
            proof {
                let wit = Seq::<Vec3>::empty();
                assert(s_background(*r) == s_resolve(world@, *r, depth as int, wit));
            }
            background(r)
        },
    }
}

} // verus!
