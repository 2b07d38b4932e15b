//! Fixed-point scalars.
//!
//! A `Fx` holds a quantity scaled by `SCALE = 65536` in a signed 64-bit raw
//! value, so the representable range is roughly `[-1.4e14, 1.4e14]` with a
//! resolution of `1/65536`.  Every operation clips its mathematical result
//! into the raw range (saturating arithmetic), and products and quotients
//! round toward negative infinity.  The spec functions below state each
//! operation exactly over the raw values, viewed as `int`.

use vstd::prelude::*;
use vstd::arithmetic::div_mod::{
    lemma_fundamental_div_mod,
    lemma_fundamental_div_mod_converse,
    lemma_mod_bound,
    lemma_div_pos_is_pos,
    lemma_div_is_ordered,
    lemma_div_multiples_vanish,
};

verus! {

/// The fixed-point scale: raw value `65536` stands for the quantity one.
pub const SCALE: i64 = 65536;

/// Clips a mathematical integer into the signed 64-bit range.
pub open spec fn clip(v: int) -> int {
    if v > i64::MAX as int {
        i64::MAX as int
    } else if v < i64::MIN as int {
        i64::MIN as int
    } else {
        v
    }
}

/// A fixed-point scalar; the quantity it stands for is `raw / 65536`.
#[derive(Clone, Copy, PartialEq, Eq, Structural, Debug)]
pub struct Fx {
    pub raw: i64,
}

impl View for Fx {
    type V = int;

    open spec fn view(&self) -> int {
        self.raw as int
    }
}

/// The fixed-point scalar with the given (already in-range) raw value.
pub open spec fn fx(raw: int) -> Fx {
    Fx { raw: raw as i64 }
}

/// Raw value of the sum, clipped.
pub open spec fn fx_add(a: int, b: int) -> int {
    clip(a + b)
}

/// Raw value of the difference, clipped.
pub open spec fn fx_sub(a: int, b: int) -> int {
    clip(a - b)
}

/// Raw value of the negation, clipped.
pub open spec fn fx_neg(a: int) -> int {
    clip(-a)
}

/// Raw value of the product: scaled back down, rounded toward negative
/// infinity, clipped.
pub open spec fn fx_mul(a: int, b: int) -> int {
    clip((a * b) / (SCALE as int))
}

/// Raw value of the quotient for a positive divisor: scaled up, rounded
/// toward negative infinity, clipped.
pub open spec fn fx_div(a: int, b: int) -> int
    recommends
        b > 0,
{
    clip((a * (SCALE as int)) / b)
}

/// The integer square root: the largest `r` with `r * r <= x`.
pub open spec fn spec_isqrt(x: nat) -> nat
    decreases x,
{
    if x == 0 {
        0
    } else {
        let r = spec_isqrt((x - 1) as nat);
        if (r + 1) * (r + 1) <= x {
            r + 1
        } else {
            r
        }
    }
}

/// Raw value of the square root of a non-negative scalar: the integer square
/// root of the raw value scaled up (so the result is again a raw value).
/// Non-positive inputs give zero.
pub open spec fn fx_sqrt(a: int) -> int {
    if a <= 0 {
        0
    } else {
        spec_isqrt((a * (SCALE as int)) as nat) as int
    }
}

/// Clips a raw value into `[0, 1]`.
pub open spec fn fx_clamp01(x: int) -> int {
    if x < 0 {
        0
    } else if x > SCALE as int {
        SCALE as int
    } else {
        x
    }
}

/// A product of a non-negative scalar with a scalar in `[0, 1]` is
/// non-negative and does not grow past the first factor.
pub proof fn lemma_fx_mul_unit(a: int, b: int)
    requires
        0 <= a <= i64::MAX,
        0 <= b <= SCALE as int,
    ensures
        0 <= fx_mul(a, b) <= a,
{
    let s = SCALE as int;
    assert(0 <= a * b <= a * s) by (nonlinear_arith)
        requires
            0 <= a,
            0 <= b <= s,
    ;
    lemma_div_pos_is_pos(a * b, s);
    lemma_div_is_ordered(a * b, a * s, s);
    lemma_div_multiples_vanish(a, s);
    assert(a * s == s * a) by (nonlinear_arith);
}

/// The square root of a scalar in `[0, 1]` lies in `[0, 1]`.
pub proof fn lemma_fx_sqrt_range(a: int)
    requires
        a <= SCALE as int,
    ensures
        0 <= fx_sqrt(a) <= SCALE as int,
{
    if a > 0 {
        let x = (a * (SCALE as int)) as nat;
        lemma_isqrt_bounds(x);
        let s = spec_isqrt(x);
        if s > SCALE as int {
            assert(s * s > 0x1_0000_0000) by (nonlinear_arith)
                requires
                    s >= 65537,
            ;
        }
    }
}

proof fn lemma_isqrt_bounds(x: nat)
    ensures
        spec_isqrt(x) * spec_isqrt(x) <= x,
        x < (spec_isqrt(x) + 1) * (spec_isqrt(x) + 1),
    decreases x,
{
    let s = spec_isqrt(x);
    if x == 0 {
        assert(s * s <= x && x < (s + 1) * (s + 1)) by (nonlinear_arith)
            requires
                s == 0,
                x == 0nat,
        ;
    } else {
        lemma_isqrt_bounds((x - 1) as nat);
        let r = spec_isqrt((x - 1) as nat);
        if (r + 1) * (r + 1) <= x {
            assert(s * s <= x && x < (s + 1) * (s + 1)) by (nonlinear_arith)
                requires
                    s == r + 1,
                    (r + 1) * (r + 1) <= x,
                    x - 1 < (r + 1) * (r + 1),
            ;
        } else {
            assert(s * s <= x && x < (s + 1) * (s + 1)) by (nonlinear_arith)
                requires
                    s == r,
                    r * r <= x - 1,
                    x >= 1,
                    !((r + 1) * (r + 1) <= x),
            ;
        }
    }
}

/// The integer square root is the only `r` with `r * r <= x < (r+1) * (r+1)`.
proof fn lemma_isqrt_unique(x: nat, r: nat)
    requires
        r * r <= x,
        x < (r + 1) * (r + 1),
    ensures
        r == spec_isqrt(x),
{
    lemma_isqrt_bounds(x);
    let s = spec_isqrt(x);
    if r < s {
        assert((r + 1) * (r + 1) <= s * s) by (nonlinear_arith)
            requires
                r + 1 <= s,
        ;
    }
    if s < r {
        assert((s + 1) * (s + 1) <= r * r) by (nonlinear_arith)
            requires
                s + 1 <= r,
        ;
    }
}

/// Bounds on a product of two signed 64-bit values.
proof fn lemma_mul_i64_bounds(a: int, b: int)
    requires
        i64::MIN <= a <= i64::MAX,
        i64::MIN <= b <= i64::MAX,
    ensures
        -0x4000_0000_0000_0000_0000_0000_0000_0000 <= a * b,
        a * b <= 0x4000_0000_0000_0000_0000_0000_0000_0000,
{
    assert(-0x4000_0000_0000_0000_0000_0000_0000_0000 <= a * b
        <= 0x4000_0000_0000_0000_0000_0000_0000_0000) by (nonlinear_arith)
        requires
            i64::MIN <= a <= i64::MAX,
            i64::MIN <= b <= i64::MAX,
    ;
}

/// Division by a positive divisor, rounding toward negative infinity
/// (which is what `/` means on `int`).
fn floor_div_i128(n: i128, d: i128) -> (q: i128)
    requires
        d > 0,
        n > i128::MIN,
    ensures
        q == n as int / d as int,
{
    if n >= 0 {
        n / d
    } else {
        let mu: u128 = (-n) as u128;
        let du: u128 = d as u128;
        let q0: u128 = mu / du;
        let r0: u128 = mu % du;
        proof {
            lemma_fundamental_div_mod(mu as int, du as int);
            lemma_mod_bound(mu as int, du as int);
            assert(q0 as int <= mu as int) by (nonlinear_arith)
                requires
                    mu as int == du as int * (q0 as int) + (r0 as int),
                    r0 as int >= 0,
                    du as int >= 1,
                    q0 as int >= 0,
            ;
            if r0 == 0 {
                assert(n as int == (-(q0 as int)) * (d as int) + 0) by (nonlinear_arith)
                    requires
                        mu as int == du as int * (q0 as int) + (r0 as int),
                        r0 as int == 0,
                        n as int == -(mu as int),
                        du as int == d as int,
                ;
                lemma_fundamental_div_mod_converse(n as int, d as int, -(q0 as int), 0);
            } else {
                assert(n as int == (-(q0 as int) - 1) * (d as int) + (d as int - r0 as int))
                    by (nonlinear_arith)
                    requires
                        mu as int == du as int * (q0 as int) + (r0 as int),
                        n as int == -(mu as int),
                        du as int == d as int,
                ;
                lemma_fundamental_div_mod_converse(
                    n as int,
                    d as int,
                    -(q0 as int) - 1,
                    d as int - r0 as int,
                );
            }
        }
        let qi: i128 = q0 as i128;
        if r0 == 0 {
            -qi
        } else {
            -qi - 1
        }
    }
}

/// Clips a 128-bit value into the 64-bit raw range.
fn clip_i128(v: i128) -> (r: i64)
    ensures
        r as int == clip(v as int),
{
    if v > i64::MAX as i128 {
        i64::MAX
    } else if v < i64::MIN as i128 {
        i64::MIN
    } else {
        v as i64
    }
}

impl Fx {
    /// The scalar with the given raw value.
    pub fn new(raw: i64) -> (r: Fx)
        ensures
            r@ == raw as int,
    {
        Fx { raw }
    }

    /// The scalar standing for the integer `i`, clipped into range.
    pub fn from_int(i: i64) -> (r: Fx)
        ensures
            r@ == clip(i * (SCALE as int)),
    {
        proof {
            lemma_mul_i64_bounds(i as int, SCALE as int);
        }
        let p: i128 = (i as i128) * (SCALE as i128);
        Fx { raw: clip_i128(p) }
    }

    /// Saturating addition.
    pub fn add(self, b: Fx) -> (r: Fx)
        ensures
            r@ == fx_add(self@, b@),
    {
        let s: i128 = (self.raw as i128) + (b.raw as i128);
        Fx { raw: clip_i128(s) }
    }

    /// Saturating subtraction.
    pub fn sub(self, b: Fx) -> (r: Fx)
        ensures
            r@ == fx_sub(self@, b@),
    {
        let s: i128 = (self.raw as i128) - (b.raw as i128);
        Fx { raw: clip_i128(s) }
    }

    /// Saturating negation.
    pub fn neg(self) -> (r: Fx)
        ensures
            r@ == fx_neg(self@),
    {
        let s: i128 = -(self.raw as i128);
        Fx { raw: clip_i128(s) }
    }

    /// Saturating product, rounded toward negative infinity.
    pub fn mul(self, b: Fx) -> (r: Fx)
        ensures
            r@ == fx_mul(self@, b@),
    {
        proof {
            lemma_mul_i64_bounds(self@, b@);
        }
        let p: i128 = (self.raw as i128) * (b.raw as i128);
        let q: i128 = floor_div_i128(p, SCALE as i128);
        Fx { raw: clip_i128(q) }
    }

    /// Saturating quotient by a positive divisor, rounded toward negative
    /// infinity.
    pub fn div(self, b: Fx) -> (r: Fx)
        requires
            b@ > 0,
        ensures
            r@ == fx_div(self@, b@),
    {
        proof {
            lemma_mul_i64_bounds(self@, SCALE as int);
        }
        let n: i128 = (self.raw as i128) * (SCALE as i128);
        let q: i128 = floor_div_i128(n, b.raw as i128);
        Fx { raw: clip_i128(q) }
    }

    /// This scalar clipped into `[0, 1]`.
    pub fn clamp01(self) -> (r: Fx)
        ensures
            r@ == fx_clamp01(self@),
    {
        if self.raw < 0 {
            Fx { raw: 0 }
        } else if self.raw > SCALE {
            Fx { raw: SCALE }
        } else {
            self
        }
    }

    /// Square root of a non-negative scalar (zero on non-positive input),
    /// rounded toward zero.
    pub fn sqrt(self) -> (r: Fx)
        ensures
            r@ == fx_sqrt(self@),
    {
        if self.raw <= 0 {
            Fx { raw: 0 }
        } else {
            proof {
                assert((self.raw as int) * (SCALE as int) < 0x1_0000_0000_0000_0000_0000)
                    by (nonlinear_arith)
                    requires
                        0 < self.raw as int <= i64::MAX,
                ;
            }
            let x: u128 = (self.raw as u128) * (SCALE as u128);
            let r: u128 = isqrt_u128(x);
            proof {
                lemma_isqrt_unique(x as nat, r as nat);
                assert((r as int) < 0x100_0000_0000) by (nonlinear_arith)
                    requires
                        (r as int) * (r as int) <= x as int,
                        (x as int) < 0x1_0000_0000_0000_0000_0000,
                ;
            }
            Fx { raw: r as i64 }
        }
    }
}

/// Binary search for the integer square root of a 128-bit value below `2^80`.
fn isqrt_u128(x: u128) -> (r: u128)
    requires
        x < 0x1_0000_0000_0000_0000_0000,
    ensures
        r * r <= x,
        x < (r + 1) * (r + 1),
{
    let mut lo: u128 = 0;
    let mut hi: u128 = 0x200_0000_0000;
    proof {
        assert((0x200_0000_0000 as int) * (0x200_0000_0000 as int) > x as int);
    }
    while lo + 1 < hi
        invariant
            lo < hi,
            lo * lo <= x,
            x < hi * hi,
            hi <= 0x200_0000_0000,
        decreases hi - lo,
    {
        let mid: u128 = lo + (hi - lo) / 2;
        proof {
            assert((mid as int) * (mid as int) <= 0x4_0000_0000_0000_0000_0000_0000)
                by (nonlinear_arith)
                requires
                    0 <= mid as int <= 0x200_0000_0000,
            ;
        }
        if mid * mid <= x {
            lo = mid;
        } else {
            hi = mid;
        }
    }
    lo
}

} // verus!
