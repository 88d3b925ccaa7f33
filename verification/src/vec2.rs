//! Two-dimensional vectors of fixed-point numbers.
use crate::fixed::clamp;
use crate::fixed::Fixed;
use crate::fixed::isqrt;
use crate::fixed::isqrt_wide;
use vstd::prelude::*;

verus! {

/// Raw length below which a vector is too short to give a direction.
pub const NORMALIZE_MIN: i64 = 0x1_0000;

/// The absolute value of a raw number, widened so that it always fits.
pub fn magnitude(v: i64) -> (r: u128)
    ensures
        r == if v < 0 { -v } else { v as int },
        r <= 0x8000_0000_0000_0000,
{
    if v < 0 {
        (-(v as i128)) as u128
    } else {
        v as u128
    }
}

/// A vector, or a point of the plane.
#[derive(Clone, Copy, Debug, PartialEq, Eq, Structural)]
pub struct Vec2 {
    pub x: Fixed,
    pub y: Fixed,
}

impl Vec2 {
    pub open spec fn spec_add(self, rhs: Vec2) -> Vec2 {
        Vec2 { x: self.x.spec_add(rhs.x), y: self.y.spec_add(rhs.y) }
    }

    pub open spec fn spec_sub(self, rhs: Vec2) -> Vec2 {
        Vec2 { x: self.x.spec_sub(rhs.x), y: self.y.spec_sub(rhs.y) }
    }

    pub open spec fn spec_neg(self) -> Vec2 {
        Vec2 { x: self.x.spec_neg(), y: self.y.spec_neg() }
    }

    pub open spec fn spec_scale(self, k: Fixed) -> Vec2 {
        Vec2 { x: self.x.spec_mul(k), y: self.y.spec_mul(k) }
    }

    pub open spec fn spec_mul(self, rhs: Vec2) -> Vec2 {
        Vec2 { x: self.x.spec_mul(rhs.x), y: self.y.spec_mul(rhs.y) }
    }

    pub open spec fn spec_div(self, k: Fixed) -> Vec2
        recommends
            k.raw != 0,
    {
        Vec2 { x: self.x.spec_div(k), y: self.y.spec_div(k) }
    }

    pub open spec fn spec_half(self) -> Vec2 {
        Vec2 { x: self.x.spec_half(), y: self.y.spec_half() }
    }

    pub open spec fn spec_dot(self, rhs: Vec2) -> Fixed {
        self.x.spec_mul(rhs.x).spec_add(self.y.spec_mul(rhs.y))
    }

    /// The squared Euclidean length, in squared raw units.
    pub open spec fn norm_squared(self) -> nat {
        (self.x.raw * self.x.raw + self.y.raw * self.y.raw) as nat
    }

    pub open spec fn spec_length(self) -> Fixed {
        Fixed::of(isqrt(self.norm_squared()) as int)
    }

    pub open spec fn spec_normalize(self) -> Vec2 {
        let len = self.spec_length();
        if len.raw < NORMALIZE_MIN {
            Vec2 { x: Fixed { raw: 0 }, y: Fixed { raw: 0 } }
        } else {
            self.spec_div(len)
        }
    }

    /// The vector with the given components.
    pub fn new(x: Fixed, y: Fixed) -> (r: Vec2)
        ensures
            r == (Vec2 { x, y }),
    {
        Vec2 { x, y }
    }

    /// The zero vector.
    pub fn zero() -> (r: Vec2)
        ensures
            r.x.raw == 0,
            r.y.raw == 0,
    {
        Vec2 { x: Fixed::zero(), y: Fixed::zero() }
    }

    /// Componentwise sum.
    pub fn add(self, rhs: Vec2) -> (r: Vec2)
        ensures
            r == self.spec_add(rhs),
    {
        Vec2 { x: self.x.add(rhs.x), y: self.y.add(rhs.y) }
    }

    /// Componentwise difference.
    pub fn sub(self, rhs: Vec2) -> (r: Vec2)
        ensures
            r == self.spec_sub(rhs),
    {
        Vec2 { x: self.x.sub(rhs.x), y: self.y.sub(rhs.y) }
    }

    /// The opposite vector.
    pub fn neg(self) -> (r: Vec2)
        ensures
            r == self.spec_neg(),
    {
        Vec2 { x: self.x.neg(), y: self.y.neg() }
    }

    /// The vector stretched by the factor `k`.
    pub fn scale(self, k: Fixed) -> (r: Vec2)
        ensures
            r == self.spec_scale(k),
    {
        Vec2 { x: self.x.mul(k), y: self.y.mul(k) }
    }

    /// Componentwise product.
    pub fn mul(self, rhs: Vec2) -> (r: Vec2)
        ensures
            r == self.spec_mul(rhs),
    {
        Vec2 { x: self.x.mul(rhs.x), y: self.y.mul(rhs.y) }
    }

    /// The vector shrunk by the divisor `k`.
    pub fn div(self, k: Fixed) -> (r: Vec2)
        requires
            k.raw != 0,
        ensures
            r == self.spec_div(k),
    {
        Vec2 { x: self.x.div(k), y: self.y.div(k) }
    }

    /// Half of the vector.
    pub fn half(self) -> (r: Vec2)
        ensures
            r == self.spec_half(),
    {
        Vec2 { x: self.x.half(), y: self.y.half() }
    }

    /// Dot product.
    pub fn dot(self, rhs: Vec2) -> (r: Fixed)
        ensures
            r == self.spec_dot(rhs),
    {
        self.x.mul(rhs.x).add(self.y.mul(rhs.y))
    }

    /// Euclidean length: the square root of the exact sum of squares,
    /// rounded down to a raw unit and saturated.
    pub fn length(self) -> (r: Fixed)
        ensures
            r == self.spec_length(),
            r.raw >= 0,
    {
        let ax: u128 = magnitude(self.x.raw);
        let ay: u128 = magnitude(self.y.raw);
        assert(ax * ax == self.x.raw * self.x.raw && ax * ax
            <= 0x4000_0000_0000_0000_0000_0000_0000_0000) by (nonlinear_arith)
            requires
                ax == self.x.raw || ax == -self.x.raw,
                0 <= ax <= 0x8000_0000_0000_0000,
        ;
        assert(ay * ay == self.y.raw * self.y.raw && ay * ay
            <= 0x4000_0000_0000_0000_0000_0000_0000_0000) by (nonlinear_arith)
            requires
                ay == self.y.raw || ay == -self.y.raw,
                0 <= ay <= 0x8000_0000_0000_0000,
        ;
        let root: u64 = isqrt_wide(ax * ax + ay * ay);
        Fixed { raw: clamp(root as i128) }
    }

    /// The vector of length one in the same direction, or the zero vector
    /// when this one is shorter than `NORMALIZE_MIN` raw units.
    pub fn normalize(self) -> (r: Vec2)
        ensures
            r == self.spec_normalize(),
    {
        let len = self.length();
        if len.raw < NORMALIZE_MIN {
            Vec2::zero()
        } else {
            self.div(len)
        }
    }
}

} // verus!
