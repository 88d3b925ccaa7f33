//! Signed fixed-point numbers with 32 fractional bits and saturating
//! arithmetic.
use vstd::arithmetic::div_mod::lemma_fundamental_div_mod;
use vstd::arithmetic::div_mod::lemma_fundamental_div_mod_converse;
use vstd::prelude::*;

verus! {

/// Number of raw units in one whole unit.
pub const SCALE: i64 = 0x1_0000_0000;

/// The value nearest to `v` that an `i64` can hold.
pub open spec fn saturate(v: int) -> int {
    if v < i64::MIN {
        i64::MIN as int
    } else if v > i64::MAX {
        i64::MAX as int
    } else {
        v
    }
}

/// The absolute value of an integer.
pub open spec fn abs(x: int) -> int {
    if x < 0 {
        -x
    } else {
        x
    }
}

/// The quotient of `n` by `d`, rounded toward negative infinity.
pub open spec fn floor_div(n: int, d: int) -> int
    recommends
        d != 0,
{
    if d > 0 {
        n / d
    } else {
        (-n) / (-d)
    }
}

/// Whether `r` is the largest natural number whose square does not exceed
/// `n`.
pub open spec fn is_isqrt(n: nat, r: nat) -> bool {
    r * r <= n && n < (r + 1) * (r + 1)
}

/// The largest natural number whose square does not exceed `n`.
pub open spec fn isqrt(n: nat) -> nat {
    choose|r: nat| is_isqrt(n, r)
}

/// `floor_div(n, d)` is the one integer `q` with `q * d <= n < (q + 1) * d`
/// for a positive divisor.
pub proof fn lemma_floor_div_bounds(n: int, d: int)
    requires
        d > 0,
    ensures
        floor_div(n, d) * d <= n < (floor_div(n, d) + 1) * d,
{
    lemma_fundamental_div_mod(n, d);
    assert(0 <= n % d < d);
    assert(d * (n / d) == (n / d) * d) by (nonlinear_arith);
    assert((n / d + 1) * d == (n / d) * d + d) by (nonlinear_arith);
}

/// Any integer `q` with `q * d <= n < (q + 1) * d` is `floor_div(n, d)`.
pub proof fn lemma_floor_div_unique(n: int, d: int, q: int)
    requires
        d > 0,
        q * d <= n < (q + 1) * d,
    ensures
        q == floor_div(n, d),
{
    assert((q + 1) * d == q * d + d) by (nonlinear_arith);
    lemma_fundamental_div_mod_converse(n, d, q, n - q * d);
}

/// A square root exists for every natural number.
pub proof fn lemma_isqrt_exists(n: nat) -> (r: nat)
    ensures
        r * r <= n < (r + 1) * (r + 1),
    decreases n,
{
    if n == 0 {
        assert(0nat * 0nat <= n < (0nat + 1) * (0nat + 1)) by (nonlinear_arith)
            requires
                n == 0,
        ;
        0
    } else {
        let p = lemma_isqrt_exists((n - 1) as nat);
        let q = p + 1;
        if q * q <= n {
            assert(q * q < (q + 1) * (q + 1)) by (nonlinear_arith)
                requires
                    0 <= q,
            ;
            q
        } else {
            p
        }
    }
}

/// `isqrt(n)` brackets `n` between two consecutive squares.
pub proof fn lemma_isqrt_bounds(n: nat)
    ensures
        isqrt(n) * isqrt(n) <= n < (isqrt(n) + 1) * (isqrt(n) + 1),
{
    let r = lemma_isqrt_exists(n);
    assert(is_isqrt(n, r));
}

/// Any natural number that brackets `n` between consecutive squares is
/// `isqrt(n)`.
pub proof fn lemma_isqrt_unique(n: nat, r: nat)
    requires
        r * r <= n < (r + 1) * (r + 1),
    ensures
        r == isqrt(n),
{
    lemma_isqrt_bounds(n);
    let s = isqrt(n);
    if r < s {
        assert((r + 1) * (r + 1) <= s * s) by (nonlinear_arith)
            requires
                0 <= r,
                r + 1 <= s,
        ;
    } else if s < r {
        assert((s + 1) * (s + 1) <= r * r) by (nonlinear_arith)
            requires
                0 <= s,
                s + 1 <= r,
        ;
    }
}

/// The square root of a square is the absolute value.
pub proof fn lemma_isqrt_square(x: int)
    ensures
        isqrt((x * x) as nat) == if x < 0 {
            -x
        } else {
            x
        },
{
    let r: int = if x < 0 {
        -x
    } else {
        x
    };
    assert(r * r == x * x && x * x >= 0 && x * x < (r + 1) * (r + 1)) by (nonlinear_arith)
        requires
            r == x || r == -x,
            r >= 0,
    ;
    lemma_isqrt_unique((x * x) as nat, r as nat);
}

/// The square root is monotone.
pub proof fn lemma_isqrt_monotone(a: nat, b: nat)
    requires
        a <= b,
    ensures
        isqrt(a) <= isqrt(b),
{
    lemma_isqrt_bounds(a);
    lemma_isqrt_bounds(b);
    let r = isqrt(a);
    let s = isqrt(b);
    if s < r {
        assert((s + 1) * (s + 1) <= r * r) by (nonlinear_arith)
            requires
                0 <= s,
                s + 1 <= r,
        ;
    }
}

/// Narrows a wide intermediate result to the representable range.
pub fn clamp(v: i128) -> (r: i64)
    ensures
        r as int == saturate(v as int),
{
    if v < -0x8000_0000_0000_0000i128 {
        i64::MIN
    } else if v > 0x7fff_ffff_ffff_ffffi128 {
        i64::MAX
    } else {
        v as i64
    }
}

/// Division rounded toward negative infinity on wide integers.
pub fn floor_div_wide(n: i128, d: i128) -> (q: i128)
    requires
        d != 0,
        -0x1_0000_0000_0000_0000_0000_0000_0000 <= n <= 0x1_0000_0000_0000_0000_0000_0000_0000,
        -0x1_0000_0000_0000_0000 <= d <= 0x1_0000_0000_0000_0000,
    ensures
        q as int == floor_div(n as int, d as int),
{
    let m: i128 = if d > 0 { n } else { -n };
    let e: i128 = if d > 0 { d } else { -d };
    if m >= 0 {
        m / e
    } else {
        let up: i128 = (-m + e - 1) / e;
        proof {
            let t: int = -m + e - 1;
            lemma_floor_div_bounds(t, e as int);
            assert(up as int == floor_div(t, e as int));
            assert((-up) * e == -(up * e)) by (nonlinear_arith);
            assert((-up + 1) * e == -(up * e) + e) by (nonlinear_arith);
            assert((up + 1) * e == up * e + e) by (nonlinear_arith);
            lemma_floor_div_unique(m as int, e as int, -up);
        }
        -up
    }
}

/// The raw value `v` taken `SCALE` times, which always fits.
pub fn scaled(v: i64) -> (r: i128)
    ensures
        r == v * SCALE,
        -0x8000_0000_0000_0000_0000_0000 <= r <= 0x8000_0000_0000_0000_0000_0000,
{
    (v as i128) * 0x1_0000_0000i128
}

/// The integer square root of a wide unsigned integer.
pub fn isqrt_wide(n: u128) -> (r: u64)
    ensures
        r as nat == isqrt(n as nat),
{
    let mut lo: u128 = 0;
    let mut hi: u128 = 0x1_0000_0000_0000_0000;
    proof {
        assert(n < 0x1_0000_0000_0000_0000int * 0x1_0000_0000_0000_0000int);
    }
    while hi - lo > 1
        invariant
            lo < hi <= 0x1_0000_0000_0000_0000,
            lo * lo <= n,
            n < hi * hi,
        decreases hi - lo,
    {
        let mid: u128 = lo + (hi - lo) / 2;
        assert(mid * mid <= 0xffff_ffff_ffff_ffff * 0xffff_ffff_ffff_ffff) by (nonlinear_arith)
            requires
                0 <= mid <= 0xffff_ffff_ffff_ffff,
        ;
        if mid * mid <= n {
            lo = mid;
        } else {
            hi = mid;
        }
    }
    proof {
        assert(hi == lo + 1);
        lemma_isqrt_unique(n as nat, lo as nat);
    }
    lo as u64
}

/// A fixed-point number: `raw` counts units of `1 / SCALE`.
#[derive(Clone, Copy, Debug, PartialEq, Eq, Structural)]
pub struct Fixed {
    pub raw: i64,
}

impl Fixed {
    /// The number with the given raw value, saturated.
    pub open spec fn of(v: int) -> Fixed {
        Fixed { raw: saturate(v) as i64 }
    }

    pub open spec fn spec_add(self, rhs: Fixed) -> Fixed {
        Fixed::of(self.raw + rhs.raw)
    }

    pub open spec fn spec_sub(self, rhs: Fixed) -> Fixed {
        Fixed::of(self.raw - rhs.raw)
    }

    pub open spec fn spec_neg(self) -> Fixed {
        Fixed::of(-self.raw)
    }

    pub open spec fn spec_mul(self, rhs: Fixed) -> Fixed {
        Fixed::of((self.raw * rhs.raw) / (SCALE as int))
    }

    pub open spec fn spec_div(self, rhs: Fixed) -> Fixed
        recommends
            rhs.raw != 0,
    {
        Fixed::of(floor_div(self.raw * SCALE, rhs.raw as int))
    }

    pub open spec fn spec_half(self) -> Fixed {
        Fixed::of(self.raw as int / 2)
    }

    pub open spec fn spec_div_count(self, n: usize) -> Fixed
        recommends
            n != 0,
    {
        Fixed::of(self.raw as int / n as int)
    }

    pub open spec fn spec_from_int(n: i32) -> Fixed {
        Fixed::of(n * SCALE)
    }

    pub open spec fn spec_from_ratio(num: i64, den: i64) -> Fixed
        recommends
            den != 0,
    {
        Fixed::of(floor_div(num * SCALE, den as int))
    }

    /// Zero.
    pub fn zero() -> (r: Fixed)
        ensures
            r.raw == 0,
    {
        Fixed { raw: 0 }
    }

    /// One whole unit.
    pub fn one() -> (r: Fixed)
        ensures
            r.raw == SCALE,
    {
        Fixed { raw: SCALE }
    }

    /// The whole number `n`, which every `i32` is without loss.
    pub fn from_int(n: i32) -> (r: Fixed)
        ensures
            r == Fixed::spec_from_int(n),
            r.raw == n * SCALE,
    {
        let wide: i64 = n as i64;
        Fixed { raw: wide * SCALE }
    }

    /// The fraction `num / den`, rounded down to the next representable
    /// value and saturated.
    pub fn from_ratio(num: i64, den: i64) -> (r: Fixed)
        requires
            den != 0,
        ensures
            r == Fixed::spec_from_ratio(num, den),
    {
        Fixed { raw: clamp(floor_div_wide(scaled(num), den as i128)) }
    }

    /// Saturating sum.
    pub fn add(self, rhs: Fixed) -> (r: Fixed)
        ensures
            r == self.spec_add(rhs),
    {
        Fixed { raw: clamp(self.raw as i128 + rhs.raw as i128) }
    }

    /// Saturating difference.
    pub fn sub(self, rhs: Fixed) -> (r: Fixed)
        ensures
            r == self.spec_sub(rhs),
    {
        Fixed { raw: clamp(self.raw as i128 - rhs.raw as i128) }
    }

    /// Saturating negation.
    pub fn neg(self) -> (r: Fixed)
        ensures
            r == self.spec_neg(),
    {
        Fixed { raw: clamp(-(self.raw as i128)) }
    }

    /// Product, rounded down and saturated.
    pub fn mul(self, rhs: Fixed) -> (r: Fixed)
        ensures
            r == self.spec_mul(rhs),
    {
        let a: i128 = self.raw as i128;
        let b: i128 = rhs.raw as i128;
        assert(-0x4000_0000_0000_0000_0000_0000_0000_0000 <= a * b
            <= 0x4000_0000_0000_0000_0000_0000_0000_0000) by (nonlinear_arith)
            requires
                -0x8000_0000_0000_0000 <= a <= 0x7fff_ffff_ffff_ffff,
                -0x8000_0000_0000_0000 <= b <= 0x7fff_ffff_ffff_ffff,
        ;
        let p: i128 = a * b;
        let q: i128 = p >> 32;
        assert(p >> 32 == p / 0x1_0000_0000) by (bit_vector);
        Fixed { raw: clamp(q) }
    }

    /// Quotient, rounded down and saturated.
    pub fn div(self, rhs: Fixed) -> (r: Fixed)
        requires
            rhs.raw != 0,
        ensures
            r == self.spec_div(rhs),
    {
        Fixed { raw: clamp(floor_div_wide(scaled(self.raw), rhs.raw as i128)) }
    }

    /// Half of the number, rounded down.
    pub fn half(self) -> (r: Fixed)
        ensures
            r == self.spec_half(),
    {
        Fixed { raw: clamp(floor_div_wide(self.raw as i128, 2)) }
    }

    /// The number divided into `n` equal parts, rounded down.
    pub fn div_count(self, n: usize) -> (r: Fixed)
        requires
            n != 0,
        ensures
            r == self.spec_div_count(n),
    {
        Fixed { raw: clamp(floor_div_wide(self.raw as i128, n as i128)) }
    }
}

} // verus!
