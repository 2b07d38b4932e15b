//! The image driver: multi-sample pixel accumulation, gamma correction,
//! quantization, and the render entry point over the built-in scene.

use vstd::prelude::*;
use vstd::arithmetic::div_mod::{lemma_div_is_ordered, lemma_div_multiples_vanish,
    lemma_div_pos_is_pos, lemma_fundamental_div_mod_converse};
use crate::fixed::{Fx, fx, fx_add, fx_mul, fx_div, fx_sqrt, clip, SCALE, lemma_fx_sqrt_range};
use crate::vec3::{Vec3, v3, s_add, s_dot};
use crate::camera::{Camera, s_cam_dir};
use crate::material::{Material, MaterialKind};
use crate::scene::{Ray, Sphere, wf_world};
use crate::tracer::{color, in_unit_range, s_resolve};
use crate::sampling::random_unit;
use crate::image::{Rgb, format_image, image_bytes, parse_image, lemma_parse_image_bytes};

verus! {

/// Raw value of the quantization factor: the nearest representable value to
/// `255.99`, which biases rounding so a channel of exactly one maps to 255.
pub const QUANT: i64 = 16776437;

/// Largest image side length the fixed-point image-plane math is used with.
pub const MAX_SIDE: u32 = 4096;

/// Largest per-pixel sample count the accumulator is used with.
pub const MAX_SAMPLES: u32 = 65536;

/// Gamma correction and quantization of a `[0, 1]` channel: the integer part
/// of `255.99` times the square root of the channel.
pub open spec fn s_quantize(c: int) -> int {
    (QUANT as int * fx_sqrt(c)) / 0x1_0000_0000
}

/// Gamma-corrects a `[0, 1]` channel (gamma 2: square root) and quantizes it
/// to a byte; a channel of exactly one maps to 255.
fn quantize(c: Fx) -> (q: u8)
    requires
        0 <= c@ <= SCALE as int,
    ensures
        q as int == s_quantize(c@),
{
    let g = c.sqrt();
    proof {
        lemma_fx_sqrt_range(c@);
    }
    let prod: u64 = (QUANT as u64) * (g.raw as u64);
    let q64: u64 = prod / 0x1_0000_0000;
    proof {
        lemma_div_pos_is_pos(prod as int, 0x1_0000_0000);
        lemma_div_is_ordered(prod as int, QUANT as int * 65536, 0x1_0000_0000);
        assert(QUANT as int * (g@) <= QUANT as int * 65536) by (nonlinear_arith)
            requires
                0 <= g@ <= 65536,
        ;
    }
    q64 as u8
}

/// The raw channel sum divided by the sample count: the per-pixel average,
/// again in `[0, 1]` when the sum is at most the count.
fn avg_channel(a: Fx, n: u32) -> (r: Fx)
    requires
        n >= 1,
        0 <= a@ <= (n as int) * (SCALE as int),
    ensures
        r@ == a@ / n as int,
        0 <= r@ <= SCALE as int,
{
    let q: u64 = (a.raw as u64) / (n as u64);
    proof {
        lemma_div_pos_is_pos(a@, n as int);
        lemma_div_is_ordered(a@, (n as int) * (SCALE as int), n as int);
        lemma_div_multiples_vanish(SCALE as int, n as int);
    }
    Fx { raw: q as i64 }
}

/// The finished pixel: each channel is the quantized gamma-corrected mean of
/// the accumulated channel over `n` samples.
pub open spec fn s_finish(col: Vec3, n: int) -> Rgb
    recommends
        n >= 1,
{
    Rgb {
        r: s_quantize(col.x@ / n) as u8,
        g: s_quantize(col.y@ / n) as u8,
        b: s_quantize(col.z@ / n) as u8,
    }
}

/// Averages the accumulated color, gamma-corrects and quantizes each channel.
fn finish_pixel(col: Vec3, samples: u32) -> (p: Rgb)
    requires
        samples >= 1,
        0 <= col.x@ <= (samples as int) * (SCALE as int),
        0 <= col.y@ <= (samples as int) * (SCALE as int),
        0 <= col.z@ <= (samples as int) * (SCALE as int),
    ensures
        p == s_finish(col, samples as int),
        p.r as int == s_quantize(col.x@ / samples as int),
        p.g as int == s_quantize(col.y@ / samples as int),
        p.b as int == s_quantize(col.z@ / samples as int),
{
    let r = quantize(avg_channel(col.x, samples));
    let g = quantize(avg_channel(col.y, samples));
    let b = quantize(avg_channel(col.z, samples));
    Rgb { r, g, b }
}

/// The camera ray for a sample of pixel column `i` of row `j` (rows counted
/// from the top of the image) with jitters `ur, vr` (raw values in `[0, 1)`):
/// the ray through `u = (i + ur) / width`, `v = (height - 1 - j + vr) /
/// height`, so the top row carries the largest image-plane `v`.
pub open spec fn s_sample_ray(
    cam: Camera,
    width: int,
    height: int,
    i: int,
    j: int,
    ur: int,
    vr: int,
) -> Ray {
    let u = fx_div(fx_add(clip(i * (SCALE as int)), ur), clip(width * (SCALE as int)));
    let v = fx_div(
        fx_add(clip((height - 1 - j) * (SCALE as int)), vr),
        clip(height * (SCALE as int)),
    );
    Ray { a: cam.origin, b: s_cam_dir(cam, u, v) }
}

/// A color one sample of pixel `(i, j)` can resolve to: the radiance of a
/// camera ray jittered uniformly within that pixel's own footprint, for some
/// such draws.
pub open spec fn sample_color_ok(
    world: Seq<Sphere>,
    cam: Camera,
    width: int,
    height: int,
    i: int,
    j: int,
    c: Vec3,
) -> bool {
    exists|ur: int, vr: int, samples: Seq<Vec3>|
        {
            &&& 0 <= ur < SCALE as int
            &&& 0 <= vr < SCALE as int
            &&& (forall|k: int|
                0 <= k < samples.len() ==> s_dot(#[trigger] samples[k], samples[k]) < SCALE
                    as int)
            &&& c == #[trigger] s_resolve(
                world,
                s_sample_ray(cam, width, height, i, j, ur, vr),
                0,
                samples,
            )
        }
}

/// Component-wise sum of the sample colors, accumulated left to right.
pub open spec fn s_sum(cols: Seq<Vec3>) -> Vec3
    decreases cols.len(),
{
    if cols.len() == 0 {
        v3(0, 0, 0)
    } else {
        s_add(s_sum(cols.drop_last()), cols.last())
    }
}

/// What a rendered pixel is: the quantized gamma-corrected mean over
/// `samples` sample colors, each the resolved radiance of a camera ray
/// jittered within pixel `(i, j)`'s own footprint.
pub open spec fn pixel_ok(
    world: Seq<Sphere>,
    cam: Camera,
    width: int,
    height: int,
    samples: int,
    i: int,
    j: int,
    p: Rgb,
) -> bool {
    exists|cols: Seq<Vec3>|
        {
            &&& cols.len() == samples
            &&& (forall|k: int|
                0 <= k < cols.len() ==> in_unit_range(#[trigger] cols[k]) && sample_color_ok(
                    world,
                    cam,
                    width,
                    height,
                    i,
                    j,
                    cols[k],
                ))
            &&& p == s_finish(#[trigger] s_sum(cols), samples)
        }
}

/// Renders one pixel per image position, top row first, left to right within
/// each row: pixel `(i, j)` at index `j * width + i` is the finished mean of
/// `samples` resolved colors of camera rays jittered within that pixel's own
/// footprint.  Exactly `width * height` pixels come back; which of the
/// admissible values each takes depends on the randomness of the sampling.
#[verifier::loop_isolation(false)]
pub fn render_pixels(width: u32, height: u32, samples: u32, world: &Vec<Sphere>, cam: &Camera)
    -> (px: Vec<Rgb>)
    requires
        wf_world(world@),
        1 <= width <= MAX_SIDE,
        1 <= height <= MAX_SIDE,
        1 <= samples <= MAX_SAMPLES,
    ensures
        px@.len() == (width as int) * (height as int),
        forall|j: int, i: int|
            0 <= j < height && 0 <= i < width ==> pixel_ok(
                world@,
                *cam,
                width as int,
                height as int,
                samples as int,
                i,
                j,
                #[trigger] px@[j * (width as int) + i],
            ),
{
    let ghost w = width as int;
    let ghost h = height as int;
    let ghost ns = samples as int;
    let mut px: Vec<Rgb> = Vec::new();
    let wfx = Fx::from_int(width as i64);
    let hfx = Fx::from_int(height as i64);
    let mut j: u32 = 0;
    while j < height
        invariant
            j <= height,
            px@.len() == (j as int) * w,
            forall|m: int|
                0 <= m < px@.len() ==> pixel_ok(world@, *cam, w, h, ns, m % w, m / w,
                    #[trigger] px@[m]),
        decreases height - j,
    {
        let rj = (height - 1) - j;
        let mut i: u32 = 0;
        while i < width
            invariant
                i <= width,
                j < height,
                px@.len() == (j as int) * w + i as int,
                forall|m: int|
                    0 <= m < px@.len() ==> pixel_ok(world@, *cam, w, h, ns, m % w, m / w,
                        #[trigger] px@[m]),
            decreases width - i,
        {
            let mut col = Vec3::zero();
            let ghost mut cols = Seq::<Vec3>::empty();
            let mut k: u32 = 0;
            while k < samples
                invariant
                    k <= samples,
                    i < width,
                    j < height,
                    cols.len() == k as int,
                    col == s_sum(cols),
                    forall|t: int|
                        0 <= t < cols.len() ==> in_unit_range(#[trigger] cols[t])
                            && sample_color_ok(world@, *cam, w, h, i as int, j as int, cols[t]),
                    0 <= col.x@ <= (k as int) * (SCALE as int),
                    0 <= col.y@ <= (k as int) * (SCALE as int),
                    0 <= col.z@ <= (k as int) * (SCALE as int),
                decreases samples - k,
            {
                let ur = random_unit();
                let vr = random_unit();
                let u = Fx::from_int(i as i64).add(ur).div(wfx);
                let v = Fx::from_int(rj as i64).add(vr).div(hfx);
                let r = cam.get_ray(u, v);
                let c = color(&r, world, 0);
                proof {
                    assert(r == s_sample_ray(*cam, w, h, i as int, j as int, ur@, vr@));
                    let smps = choose|smps: Seq<Vec3>|
                        (forall|k2: int|
                            0 <= k2 < smps.len() ==> s_dot(#[trigger] smps[k2], smps[k2])
                                < SCALE as int) && c == #[trigger] s_resolve(world@, r, 0, smps);
                    assert(c == s_resolve(
                        world@,
                        s_sample_ray(*cam, w, h, i as int, j as int, ur@, vr@),
                        0,
                        smps,
                    ));
                    assert(sample_color_ok(world@, *cam, w, h, i as int, j as int, c));
                }
                col = col.add(c);
                proof {
                    assert(cols.push(c).drop_last() =~= cols);
                    assert(cols.push(c).last() == c);
                    assert((k as int + 1) * (SCALE as int) == (k as int) * (SCALE as int)
                        + SCALE as int) by (nonlinear_arith);
                    cols = cols.push(c);
                }
                k = k + 1;
            }
            let p = finish_pixel(col, samples);
            proof {
                assert(p == s_finish(s_sum(cols), ns));
                assert(pixel_ok(world@, *cam, w, h, ns, i as int, j as int, p));
                let m0 = px@.len() as int;
                lemma_fundamental_div_mod_converse(m0, w, j as int, i as int);
            }
            px.push(p);
            i = i + 1;
        }
        proof {
            assert((j as int + 1) * w == (j as int) * w + w) by (nonlinear_arith);
        }
        j = j + 1;
    }
    proof {
        assert(h * w == w * h) by (nonlinear_arith);
        assert forall|j2: int, i2: int| 0 <= j2 < height && 0 <= i2 < width implies pixel_ok(
            world@,
            *cam,
            w,
            h,
            ns,
            i2,
            j2,
            #[trigger] px@[j2 * w + i2],
        ) by {
            let m = j2 * w + i2;
            assert(0 <= m && m < h * w) by (nonlinear_arith)
                requires
                    0 <= j2 < h,
                    0 <= i2 < w,
                    1 <= w,
                    1 <= h,
                    m == j2 * w + i2,
            ;
            lemma_fundamental_div_mod_converse(m, w, j2, i2);
            assert(pixel_ok(world@, *cam, w, h, ns, m % w, m / w, px@[m]));
        }
    }
    px
}

/// The built-in scene's first sphere: the small central diffuse sphere.
pub open spec fn s_sphere0() -> Sphere {
    Sphere {
        center: v3(0, 0, -65536),
        radius: fx(32768),
        mat: Material { kind: MaterialKind::Lambertian, albedo: v3(52428, 19660, 19660), fuzz: fx(0) },
    }
}

/// The built-in scene's second sphere: the large diffuse ground sphere.
pub open spec fn s_sphere1() -> Sphere {
    Sphere {
        center: v3(0, -6586368, -65536),
        radius: fx(6553600),
        mat: Material { kind: MaterialKind::Lambertian, albedo: v3(52428, 52428, 0), fuzz: fx(0) },
    }
}

/// The built-in scene's third sphere: a gold-toned metal sphere.
pub open spec fn s_sphere2() -> Sphere {
    Sphere {
        center: v3(65536, 0, -65536),
        radius: fx(32768),
        mat: Material { kind: MaterialKind::Metal, albedo: v3(52428, 39321, 13107), fuzz: fx(19660) },
    }
}

/// The built-in scene's fourth sphere: a silver-toned metal sphere.
pub open spec fn s_sphere3() -> Sphere {
    Sphere {
        center: v3(-65536, 0, -65536),
        radius: fx(32768),
        mat: Material { kind: MaterialKind::Metal, albedo: v3(52428, 52428, 52428), fuzz: fx(6553) },
    }
}

/// The built-in scene: four spheres, all well formed.
pub fn default_world() -> (world: Vec<Sphere>)
    ensures
        world@ == seq![s_sphere0(), s_sphere1(), s_sphere2(), s_sphere3()],
        wf_world(world@),
        world@.len() == 4,
{
    let mut world: Vec<Sphere> = Vec::new();
    world.push(Sphere {
        center: Vec3::new(Fx::new(0), Fx::new(0), Fx::new(-65536)),
        radius: Fx::new(32768),
        mat: Material {
            kind: MaterialKind::Lambertian,
            albedo: Vec3::new(Fx::new(52428), Fx::new(19660), Fx::new(19660)),
            fuzz: Fx::new(0),
        },
    });
    world.push(Sphere {
        center: Vec3::new(Fx::new(0), Fx::new(-6586368), Fx::new(-65536)),
        radius: Fx::new(6553600),
        mat: Material {
            kind: MaterialKind::Lambertian,
            albedo: Vec3::new(Fx::new(52428), Fx::new(52428), Fx::new(0)),
            fuzz: Fx::new(0),
        },
    });
    world.push(Sphere {
        center: Vec3::new(Fx::new(65536), Fx::new(0), Fx::new(-65536)),
        radius: Fx::new(32768),
        mat: Material {
            kind: MaterialKind::Metal,
            albedo: Vec3::new(Fx::new(52428), Fx::new(39321), Fx::new(13107)),
            fuzz: Fx::new(19660),
        },
    });
    world.push(Sphere {
        center: Vec3::new(Fx::new(-65536), Fx::new(0), Fx::new(-65536)),
        radius: Fx::new(32768),
        mat: Material {
            kind: MaterialKind::Metal,
            albedo: Vec3::new(Fx::new(52428), Fx::new(52428), Fx::new(52428)),
            fuzz: Fx::new(6553),
        },
    });
    proof {
        assert(world@ =~= seq![s_sphere0(), s_sphere1(), s_sphere2(), s_sphere3()]);
        assert forall|i: int| 0 <= i < world@.len() implies #[trigger] world@[i].wf() by {
            if i == 0 {
                assert(world@[0] == s_sphere0());
            } else if i == 1 {
                assert(world@[1] == s_sphere1());
            } else if i == 2 {
                assert(world@[2] == s_sphere2());
            } else {
                assert(world@[3] == s_sphere3());
            }
        }
    }
    world
}

/// The built-in camera for the given image size: a pinhole at `(0, 0, 1)`
/// spanning a four-unit-wide plane whose height follows the aspect ratio.
pub open spec fn s_default_camera(width: int, height: int) -> Camera {
    Camera {
        lower_left_corner: v3(-131072, -65536, -65536),
        horizontal: v3(262144, 0, 0),
        vertical: v3(
            0,
            fx_mul(262144, fx_div(height * (SCALE as int), width * (SCALE as int))),
            0,
        ),
        origin: v3(0, 0, 65536),
    }
}

/// Builds the built-in camera.
pub fn default_camera(width: u32, height: u32) -> (cam: Camera)
    requires
        1 <= width <= MAX_SIDE,
        1 <= height <= MAX_SIDE,
    ensures
        cam == s_default_camera(width as int, height as int),
{
    let wfx = Fx::from_int(width as i64);
    let hfx = Fx::from_int(height as i64);
    let four = Fx::from_int(4);
    Camera {
        lower_left_corner: Vec3::new(Fx::new(-131072), Fx::new(-65536), Fx::new(-65536)),
        horizontal: Vec3::new(Fx::new(262144), Fx::new(0), Fx::new(0)),
        vertical: Vec3::new(Fx::new(0), four.mul(hfx.div(wfx)), Fx::new(0)),
        origin: Vec3::new(Fx::new(0), Fx::new(0), Fx::new(65536)),
    }
}

/// Renders the built-in scene at the given size and sample count and returns
/// the plain-text image bytes: the three header lines followed by one line
/// per pixel, `width * height` of them, top row first and left to right
/// within each row, each pixel a finished mean of `samples` jittered camera
/// rays through its own footprint.  Re-parsing the text recovers the
/// requested width, height and pixel count exactly.
pub fn raytrace(width: u32, height: u32, samples: u32) -> (out: Vec<u8>)
    requires
        1 <= width <= MAX_SIDE,
        1 <= height <= MAX_SIDE,
        1 <= samples <= MAX_SAMPLES,
    ensures
        exists|px: Seq<Rgb>|
            {
                &&& px.len() == (width as int) * (height as int)
                &&& (forall|j: int, i: int|
                    0 <= j < height && 0 <= i < width ==> pixel_ok(
                        seq![s_sphere0(), s_sphere1(), s_sphere2(), s_sphere3()],
                        s_default_camera(width as int, height as int),
                        width as int,
                        height as int,
                        samples as int,
                        i,
                        j,
                        #[trigger] px[j * (width as int) + i],
                    ))
                &&& out@ == #[trigger] image_bytes(width as nat, height as nat, px)
            },
        parse_image(out@) == Some(
            (width as nat, height as nat, ((width as int) * (height as int)) as nat),
        ),
{
    let world = default_world();
    let cam = default_camera(width, height);
    let px = render_pixels(width, height, samples, &world, &cam);
    let out = format_image(width, height, &px);
    proof {
        assert(px@.len() == (width as int) * (height as int) && out@ == image_bytes(
            width as nat,
            height as nat,
            px@,
        ));
        assert(forall|j: int, i: int|
            0 <= j < height && 0 <= i < width ==> pixel_ok(
                seq![s_sphere0(), s_sphere1(), s_sphere2(), s_sphere3()],
                s_default_camera(width as int, height as int),
                width as int,
                height as int,
                samples as int,
                i,
                j,
                #[trigger] px@[j * (width as int) + i],
            ));
        lemma_parse_image_bytes(width as nat, height as nat, px@);
    }
    out
}

} // verus!
