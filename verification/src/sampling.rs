//! The randomness source: uniform fixed-point samples and points inside the
//! unit sphere.

use vstd::prelude::*;
use crate::fixed::{Fx, SCALE};
use crate::vec3::{Vec3, s_dot};

verus! {

/// Relies on `rand::random`: a uniformly distributed machine word.  Nothing
/// can be promised of the value; every caller must hold for all outcomes.
#[verifier::external_body]
fn random_bits() -> u64 {
    rand::random::<u64>()
}

/// A scalar drawn from `[-1, 1)`: seventeen random bits shifted down by one,
/// as in drawing from `[0, 1)` per axis and mapping through `2 u - 1`.
fn random_signed_unit() -> (r: Fx)
    ensures
        -(SCALE as int) <= r@ < SCALE as int,
{
    let bits: u64 = random_bits();
    let low: u64 = bits & 0x1ffff;
    proof {
        assert(bits & 0x1ffff < 0x20000) by (bit_vector);
    }
    Fx::new(low as i64 - SCALE)
}

/// A scalar drawn from `[0, 1)`: sixteen random bits as a raw value.
pub fn random_unit() -> (r: Fx)
    ensures
        0 <= r@ < SCALE as int,
{
    let bits: u64 = random_bits();
    let low: u64 = bits & 0xffff;
    proof {
        assert(bits & 0xffff < 0x10000) by (bit_vector);
    }
    Fx::new(low as i64)
}

/// A vector whose computed squared length is strictly below one: rejection
/// sampling over the cube `[-1, 1)^3`, with a bounded number of attempts and
/// the zero vector (inside every unit sphere) as the fallback.
pub fn random_in_unit_sphere() -> (p: Vec3)
    ensures
        s_dot(p, p) < SCALE as int,
{
    let mut tries: u8 = 0;
    while tries < 64
        decreases 64 - tries,
    {
        let p = Vec3::new(random_signed_unit(), random_signed_unit(), random_signed_unit());
        let sq = p.squared_length();
        if sq.raw < SCALE {
            return p;
        }
        tries = tries + 1;
    }
    let z = Vec3::zero();
    proof {
        assert(0int * 0int == 0) by (nonlinear_arith);
        assert(s_dot(z, z) == 0);
    }
    z
}

} // verus!
