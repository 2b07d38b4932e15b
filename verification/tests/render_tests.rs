//! Tests of the path tracer, the image driver and the text format.

use rays::fixed::Fx;
use rays::material::{Material, MaterialKind};
use rays::render::{default_camera, default_world, raytrace, render_pixels};
use rays::image::{format_image, read_image, Rgb};
use rays::camera::Camera;
use rays::scene::{Ray, Sphere};
use rays::tracer::color;
use rays::vec3::Vec3;

const S: i64 = 65536;

fn fxn(raw: i64) -> Fx {
    Fx::new(raw)
}

fn v(x: i64, y: i64, z: i64) -> Vec3 {
    Vec3::new(fxn(x), fxn(y), fxn(z))
}

/// Splits image text into lines and checks the header; returns width, height
/// and the pixel lines.
fn parse_text(bytes: &[u8]) -> (u32, u32, Vec<String>) {
    let text = String::from_utf8(bytes.to_vec()).expect("image text must be ASCII");
    let mut lines: Vec<String> = text.split('\n').map(|s| s.to_string()).collect();
    assert_eq!(lines.pop().as_deref(), Some(""), "text must end with a newline");
    assert_eq!(lines[0], "P3");
    assert_eq!(lines[2], "255");
    let dims: Vec<&str> = lines[1].trim_end().split(' ').collect();
    assert_eq!(dims.len(), 2);
    let w: u32 = dims[0].parse().unwrap();
    let h: u32 = dims[1].parse().unwrap();
    (w, h, lines[3..].to_vec())
}

/// An escaping horizontal ray resolves to the documented gradient at blend
/// factor one half; straight up it is exactly the sky color; straight down it
/// is pure white.
#[test]
fn background_gradient_matches_formula() {
    let world: Vec<Sphere> = Vec::new();
    let horizontal = Ray { a: v(0, 0, 0), b: v(S, 0, 0) };
    assert_eq!(color(&horizontal, &world, 0), v(49152, 55705, S));
    let up = Ray { a: v(0, 0, 0), b: v(0, S, 0) };
    assert_eq!(color(&up, &world, 0), v(32768, 45875, S));
    let down = Ray { a: v(0, 0, 0), b: v(0, -S, 0) };
    assert_eq!(color(&down, &world, 0), v(S, S, S));
}

/// A ray trapped between two facing mirrors terminates at the depth bound and
/// comes back black.
#[test]
fn trapped_mirror_ray_terminates_black() {
    let mirror = Material { kind: MaterialKind::Metal, albedo: v(S, S, S), fuzz: fxn(0) };
    let wall_a = Sphere { center: v(0, 0, -102 * S), radius: fxn(100 * S), mat: mirror };
    let wall_b = Sphere { center: v(0, 0, 102 * S), radius: fxn(100 * S), mat: mirror };
    let world = vec![wall_a, wall_b];
    let ray = Ray { a: v(0, 0, 0), b: v(0, 0, -S) };
    assert_eq!(color(&ray, &world, 0), v(0, 0, 0));
}

/// A single-bounce absorption: a black diffuse floor absorbs all energy.
#[test]
fn black_diffuse_floor_gives_black() {
    let floor = Sphere {
        center: v(0, -100 * S, 0),
        radius: fxn(100 * S - 32768),
        mat: Material { kind: MaterialKind::Lambertian, albedo: v(0, 0, 0), fuzz: fxn(0) },
    };
    let world = vec![floor];
    let ray = Ray { a: v(0, S, 0), b: v(0, -S, 0) };
    assert_eq!(color(&ray, &world, 0), v(0, 0, 0));
}

#[test]
fn format_emits_exact_text() {
    let px = vec![Rgb { r: 0, g: 128, b: 255 }];
    let out = format_image(123, 45, &px);
    assert_eq!(out, b"P3\n123 45 \n255\n0 128 255\n".to_vec());
}

/// End to end over a single large ground sphere: the render terminates, the
/// header carries the dimensions, there are exactly `width * height` pixel
/// lines, and every channel lies in `[0, 255]`.
#[test]
fn ground_sphere_render_has_full_pixel_grid() {
    let ground = Sphere {
        center: v(0, -6586368, -S),
        radius: fxn(6553600),
        mat: Material { kind: MaterialKind::Lambertian, albedo: v(32768, 32768, 32768), fuzz: fxn(0) },
    };
    let world = vec![ground];
    let cam = default_camera(160, 120);
    let px = render_pixels(160, 120, 1, &world, &cam);
    assert_eq!(px.len(), 160 * 120);
    let out = format_image(160, 120, &px);
    let (w, h, lines) = parse_text(&out);
    assert_eq!((w, h), (160, 120));
    assert_eq!(lines.len(), 160 * 120);
    for line in &lines {
        let parts: Vec<&str> = line.split(' ').collect();
        assert_eq!(parts.len(), 3);
        for part in parts {
            let channel: u32 = part.parse().unwrap();
            assert!(channel <= 255);
        }
    }
}

/// Re-parsing the emitted text recovers the requested width, height and pixel
/// count exactly.
#[test]
fn reparsed_render_matches_requested_dimensions() {
    let out = raytrace(20, 10, 1);
    assert_eq!(read_image(&out), Some((20, 10, 20 * 10)));
    let (w, h, lines) = parse_text(&out);
    assert_eq!((w, h), (20, 10));
    assert_eq!(lines.len(), 20 * 10);
}

#[test]
fn reader_rejects_malformed_text() {
    assert_eq!(read_image(&b"P4\n2 2 \n255\n".to_vec()), None);
    assert_eq!(read_image(&b"P3\n2 2 \n255\n0 0\n".to_vec()), None);
    assert_eq!(read_image(&b"P3\n2 2 \n255\n0 0 0".to_vec()), None);
    assert_eq!(read_image(&b"P3\n1 1 \n255\n1 2 3\n".to_vec()), Some((1, 1, 1)));
}

/// A degenerate image plane makes every camera ray point straight up, so the
/// render is deterministic: each pixel is the gamma-corrected, quantized sky
/// color.
#[test]
fn straight_up_render_quantizes_sky_exactly() {
    let world: Vec<Sphere> = Vec::new();
    let cam = Camera {
        lower_left_corner: v(0, S, 0),
        horizontal: v(0, 0, 0),
        vertical: v(0, 0, 0),
        origin: v(0, 0, 0),
    };
    let px = render_pixels(2, 2, 3, &world, &cam);
    assert_eq!(px.len(), 4);
    for p in &px {
        // sky is (0.5, 0.7, 1.0): floor(255.99 * sqrt(channel)) per channel
        assert_eq!((p.r, p.g, p.b), (181, 214, 255));
    }
}

#[test]
fn built_in_scene_has_four_spheres() {
    let world = default_world();
    assert_eq!(world.len(), 4);
    for s in &world {
        assert!(s.radius.raw > 0);
    }
}
