//! The pinhole camera: maps normalized image-plane coordinates to world rays.

use vstd::prelude::*;
use crate::fixed::Fx;
use crate::vec3::{Vec3, s_add, s_sub, s_scale};
use crate::scene::Ray;

verus! {

/// A pinhole camera fixed at construction from the viewport geometry.
#[derive(Clone, Copy, PartialEq, Eq, Structural, Debug)]
pub struct Camera {
    pub lower_left_corner: Vec3,
    pub horizontal: Vec3,
    pub vertical: Vec3,
    pub origin: Vec3,
}

/// The direction of the ray through image-plane point `(u, v)`:
/// `lower_left_corner + u * horizontal + v * vertical - origin`.
pub open spec fn s_cam_dir(c: Camera, u: int, v: int) -> Vec3 {
    s_sub(
        s_add(s_add(c.lower_left_corner, s_scale(u, c.horizontal)), s_scale(v, c.vertical)),
        c.origin,
    )
}

impl Camera {
    /// The ray from the eye point through image-plane point `(u, v)`, with
    /// `u, v` in `[0, 1]` spanning the full image plane.
    pub fn get_ray(&self, u: Fx, v: Fx) -> (r: Ray)
        ensures
            r.a == self.origin,
            r.b == s_cam_dir(*self, u@, v@),
    {
        Ray {
            a: self.origin,
            b: self.lower_left_corner.add(self.horizontal.scale(u)).add(
                self.vertical.scale(v),
            ).sub(self.origin),
        }
    }
}

} // verus!
