//! 3-component vectors over fixed-point scalars.
//!
//! Each operation is specified exactly, component by component, over the
//! fixed-point raw values.

use vstd::prelude::*;
use crate::fixed::{Fx, fx, fx_add, fx_sub, fx_neg, fx_mul, fx_div, fx_sqrt};

verus! {

/// An immutable 3-component vector of fixed-point scalars.
#[derive(Clone, Copy, PartialEq, Eq, Structural, Debug)]
pub struct Vec3 {
    pub x: Fx,
    pub y: Fx,
    pub z: Fx,
}

/// The vector with the given (already in-range) raw component values.
pub open spec fn v3(x: int, y: int, z: int) -> Vec3 {
    Vec3 { x: fx(x), y: fx(y), z: fx(z) }
}

/// Component-wise sum.
pub open spec fn s_add(a: Vec3, b: Vec3) -> Vec3 {
    v3(fx_add(a.x@, b.x@), fx_add(a.y@, b.y@), fx_add(a.z@, b.z@))
}

/// Component-wise difference.
pub open spec fn s_sub(a: Vec3, b: Vec3) -> Vec3 {
    v3(fx_sub(a.x@, b.x@), fx_sub(a.y@, b.y@), fx_sub(a.z@, b.z@))
}

/// Component-wise negation.
pub open spec fn s_neg(a: Vec3) -> Vec3 {
    v3(fx_neg(a.x@), fx_neg(a.y@), fx_neg(a.z@))
}

/// The vector scaled by the scalar with raw value `t`.
pub open spec fn s_scale(t: int, a: Vec3) -> Vec3 {
    v3(fx_mul(t, a.x@), fx_mul(t, a.y@), fx_mul(t, a.z@))
}

/// Component-wise (element-wise) product.
pub open spec fn s_cmul(a: Vec3, b: Vec3) -> Vec3 {
    v3(fx_mul(a.x@, b.x@), fx_mul(a.y@, b.y@), fx_mul(a.z@, b.z@))
}

/// The vector divided by the scalar with positive raw value `t`.
pub open spec fn s_div(a: Vec3, t: int) -> Vec3
    recommends
        t > 0,
{
    v3(fx_div(a.x@, t), fx_div(a.y@, t), fx_div(a.z@, t))
}

/// Raw value of the dot product, summed left to right.
pub open spec fn s_dot(a: Vec3, b: Vec3) -> int {
    fx_add(fx_add(fx_mul(a.x@, b.x@), fx_mul(a.y@, b.y@)), fx_mul(a.z@, b.z@))
}

/// Raw value of the length: the square root of the dot product with itself.
pub open spec fn s_len(a: Vec3) -> int {
    fx_sqrt(s_dot(a, a))
}

/// The vector normalized to unit length; the zero vector when the computed
/// length is zero (degenerate input).
pub open spec fn s_unit(a: Vec3) -> Vec3 {
    if s_len(a) <= 0 {
        v3(0, 0, 0)
    } else {
        s_div(a, s_len(a))
    }
}

impl Vec3 {
    /// The vector with the given components.
    pub fn new(x: Fx, y: Fx, z: Fx) -> (r: Vec3)
        ensures
            r == (Vec3 { x, y, z }),
    {
        Vec3 { x, y, z }
    }

    /// The zero vector.
    pub fn zero() -> (r: Vec3)
        ensures
            r == v3(0, 0, 0),
    {
        Vec3 { x: Fx { raw: 0 }, y: Fx { raw: 0 }, z: Fx { raw: 0 } }
    }

    /// Component-wise sum.
    pub fn add(self, b: Vec3) -> (r: Vec3)
        ensures
            r == s_add(self, b),
    {
        Vec3 { x: self.x.add(b.x), y: self.y.add(b.y), z: self.z.add(b.z) }
    }

    /// Component-wise difference.
    pub fn sub(self, b: Vec3) -> (r: Vec3)
        ensures
            r == s_sub(self, b),
    {
        Vec3 { x: self.x.sub(b.x), y: self.y.sub(b.y), z: self.z.sub(b.z) }
    }

    /// Component-wise negation.
    pub fn neg(self) -> (r: Vec3)
        ensures
            r == s_neg(self),
    {
        Vec3 { x: self.x.neg(), y: self.y.neg(), z: self.z.neg() }
    }

    /// This vector scaled by `t`.
    pub fn scale(self, t: Fx) -> (r: Vec3)
        ensures
            r == s_scale(t@, self),
    {
        Vec3 { x: t.mul(self.x), y: t.mul(self.y), z: t.mul(self.z) }
    }

    /// Component-wise (element-wise) product.
    pub fn cmul(self, b: Vec3) -> (r: Vec3)
        ensures
            r == s_cmul(self, b),
    {
        Vec3 { x: self.x.mul(b.x), y: self.y.mul(b.y), z: self.z.mul(b.z) }
    }

    /// This vector divided by the positive scalar `t`.
    pub fn div_s(self, t: Fx) -> (r: Vec3)
        requires
            t@ > 0,
        ensures
            r == s_div(self, t@),
    {
        Vec3 { x: self.x.div(t), y: self.y.div(t), z: self.z.div(t) }
    }

    /// Dot product.
    pub fn dot(self, b: Vec3) -> (r: Fx)
        ensures
            r@ == s_dot(self, b),
    {
        self.x.mul(b.x).add(self.y.mul(b.y)).add(self.z.mul(b.z))
    }

    /// Squared length.
    pub fn squared_length(self) -> (r: Fx)
        ensures
            r@ == s_dot(self, self),
    {
        self.dot(self)
    }

    /// Length.
    pub fn length(self) -> (r: Fx)
        ensures
            r@ == s_len(self),
    {
        self.dot(self).sqrt()
    }

    /// Normalization; the zero vector on degenerate input.
    pub fn unit(self) -> (r: Vec3)
        ensures
            r == s_unit(self),
    {
        let l = self.length();
        if l.raw <= 0 {
            Vec3::zero()
        } else {
            self.div_s(l)
        }
    }
}

} // verus!
