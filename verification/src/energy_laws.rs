//! How well an elastic contact keeps the kinetic energy of a pair.
use crate::contact_laws::lemma_contact_geometry;
use crate::contact_laws::lemma_square_grows;
use crate::contact_laws::lemma_sum_below;
use crate::fixed::abs;
use crate::fixed::Fixed;
use crate::fixed::lemma_floor_div_bounds;
use crate::fixed::SCALE;
use crate::particle::Particle;
use crate::stepper::collided;
use crate::stepper::CONTACT_MIN;
use crate::stepper::distance;
use crate::stepper::exchange;
use crate::stepper::in_contact;
use crate::stepper::normal;
use crate::stepper::Physics;
use crate::vec2::Vec2;
use vstd::prelude::*;

verus! {

/// The most by which the squared length of a computed normal exceeds that
/// of a unit vector, in units of `SCALE`.
pub const NORMAL_EXCESS: i64 = 204;

/// A rounded quotient times its divisor stays within one divisor of the
/// dividend, whatever their signs.
pub proof fn lemma_component_bounds(x: int, d: int, n: int)
    requires
        d > 0,
        n * d <= x * SCALE,
        x * SCALE < (n + 1) * d,
    ensures
        abs(x) * SCALE - d <= d * abs(n) <= abs(x) * SCALE + d,
{
    assert((n + 1) * d == n * d + d) by (nonlinear_arith);
    assert(d * abs(n) == abs(n * d)) by (nonlinear_arith)
        requires
            d > 0,
    ;
    assert(abs(x) * SCALE == abs(x * SCALE));
}

/// The normal of a contact is a unit vector, up to rounding: its squared
/// length differs from `SCALE * SCALE` by at most `NORMAL_EXCESS` times
/// `SCALE`.
pub proof fn lemma_normal_is_unit(dx: int, dy: int, d: int, nx: int, ny: int)
    requires
        d >= CONTACT_MIN,
        d * d <= dx * dx + dy * dy,
        dx * dx + dy * dy < (d + 1) * (d + 1),
        nx * d <= dx * SCALE,
        dx * SCALE < (nx + 1) * d,
        ny * d <= dy * SCALE,
        dy * SCALE < (ny + 1) * d,
    ensures
        -4 * SCALE <= nx * nx + ny * ny - SCALE * SCALE <= NORMAL_EXCESS * SCALE,
{
    let big = SCALE as int;
    let x = abs(dx);
    let y = abs(dy);
    let p = abs(nx);
    let q = abs(ny);
    lemma_component_bounds(dx, d, nx);
    lemma_component_bounds(dy, d, ny);
    let a = d * p;
    let b = d * q;
    let xs = x * big;
    let ys = y * big;
    assert(x * x == dx * dx && y * y == dy * dy && p * p == nx * nx && q * q == ny * ny)
        by (nonlinear_arith)
        requires
            x == dx || x == -dx,
            y == dy || y == -dy,
            p == nx || p == -nx,
            q == ny || q == -ny,
    ;
    lemma_sum_below(x, y, d);
    let n2 = nx * nx + ny * ny;
    let dd = d * d;
    assert(a * a + b * b == dd * n2) by (nonlinear_arith)
        requires
            a == d * p,
            b == d * q,
            dd == d * d,
            n2 == p * p + q * q,
    ;
    let xx = x * x;
    let yy = y * y;
    let ss = big * big;
    assert(xs * xs + ys * ys == ss * (xx + yy)) by (nonlinear_arith)
        requires
            xs == x * big,
            ys == y * big,
            ss == big * big,
            xx == x * x,
            yy == y * y,
    ;
    assert((d + 1) * (d + 1) == dd + 2 * d + 1) by (nonlinear_arith)
        requires
            dd == d * d,
    ;
    assert(ss * dd <= ss * (xx + yy) <= ss * (dd + 2 * d)) by (nonlinear_arith)
        requires
            dd <= xx + yy <= dd + 2 * d,
            ss >= 0,
    ;
    assert(0 <= a && 0 <= b && 0 <= xs && 0 <= ys) by (nonlinear_arith)
        requires
            a == d * p,
            b == d * q,
            xs == x * big,
            ys == y * big,
            d > 0,
            p >= 0,
            q >= 0,
            x >= 0,
            y >= 0,
            big > 0,
    ;
    // Upper bound.
    lemma_square_grows(a, xs + d);
    lemma_square_grows(b, ys + d);
    assert((xs + d) * (xs + d) + (ys + d) * (ys + d) == xs * xs + ys * ys + 2 * (d * (xs + ys)) + 2
        * dd) by (nonlinear_arith)
        requires
            dd == d * d,
    ;
    let sum = xs + ys;
    assert(2 * sum <= big * (3 * d + 2));
    assert(2 * (d * sum) <= d * (big * (3 * d + 2))) by (nonlinear_arith)
        requires
            2 * sum <= big * (3 * d + 2),
            d > 0,
    ;
    let excess = n2 - ss;
    assert(dd * excess == dd * n2 - ss * dd) by (nonlinear_arith)
        requires
            excess == n2 - ss,
    ;
    assert(dd * excess <= ss * (2 * d) + d * (big * (3 * d + 2)) + 2 * dd) by (nonlinear_arith)
        requires
            dd * excess == dd * n2 - ss * dd,
            dd * n2 <= ss * (dd + 2 * d) + d * (big * (3 * d + 2)) + 2 * dd,
    ;
    if excess > NORMAL_EXCESS * big {
        assert(dd * excess >= dd * (NORMAL_EXCESS * big + 1)) by (nonlinear_arith)
            requires
                excess >= NORMAL_EXCESS * big + 1,
                dd >= 0,
        ;
        assert(dd * (NORMAL_EXCESS * big + 1) == d * (d * (NORMAL_EXCESS * big + 1)))
            by (nonlinear_arith)
            requires
                dd == d * d,
        ;
        assert(ss * (2 * d) + d * (big * (3 * d + 2)) + 2 * dd == d * (2 * ss + big * (3 * d + 2) + 2
            * d)) by (nonlinear_arith)
            requires
                dd == d * d,
        ;
        let left = d * (NORMAL_EXCESS * big + 1);
        let right = 2 * ss + big * (3 * d + 2) + 2 * d;
        assert(left > right);
        assert(d * left > d * right) by (nonlinear_arith)
            requires
                left > right,
                d > 0,
        ;
        assert(false);
    }
    // Lower bound.
    assert(a * a >= xs * xs - 2 * (d * xs)) by (nonlinear_arith)
        requires
            a >= xs - d,
            a >= 0,
            xs >= 0,
            d > 0,
    ;
    assert(b * b >= ys * ys - 2 * (d * ys)) by (nonlinear_arith)
        requires
            b >= ys - d,
            b >= 0,
            ys >= 0,
            d > 0,
    ;
    assert(d * xs + d * ys == d * sum) by (nonlinear_arith)
        requires
            sum == xs + ys,
    ;
    assert(dd * excess >= -(d * (big * (3 * d + 2))));
    if excess < -4 * big {
        assert(dd * excess <= dd * (-4 * big - 1)) by (nonlinear_arith)
            requires
                excess <= -4 * big - 1,
                dd >= 0,
        ;
        assert(dd * (-4 * big - 1) == -(d * (d * (4 * big + 1)))) by (nonlinear_arith)
            requires
                dd == d * d,
        ;
        let left = d * (4 * big + 1);
        let right = big * (3 * d + 2);
        assert(left > right);
        assert(d * left > d * right) by (nonlinear_arith)
            requires
                left > right,
                d > 0,
        ;
        assert(false);
    }
}

/// The size of a product is at most the product of bounds on the sizes of
/// its factors.
pub proof fn lemma_product_bound(a: int, b: int, top_a: int, top_b: int)
    requires
        abs(a) <= top_a,
        abs(b) <= top_b,
    ensures
        abs(a * b) <= top_a * top_b,
{
    let x = abs(a);
    let y = abs(b);
    assert(abs(a * b) == x * y) by (nonlinear_arith)
        requires
            x == abs(a),
            y == abs(b),
    ;
    assert(x * y <= top_a * top_b) by (nonlinear_arith)
        requires
            0 <= x <= top_a,
            0 <= y <= top_b,
    ;
}

/// A product with a factor of size at most `SCALE`, divided by `SCALE` and
/// rounded down, is no larger in size than the other factor.
pub proof fn lemma_scaled_down(n: int, r: int, q: int)
    requires
        -SCALE <= n <= SCALE,
        SCALE * q <= n * r,
        n * r < SCALE * q + SCALE,
    ensures
        abs(q) <= abs(r),
{
    lemma_product_bound(n, r, SCALE as int, abs(r));
    assert(abs(n * r) <= SCALE * abs(r));
}

/// What an exchange of twice `v` between the velocities `a` and `b` along
/// one axis does to the sum of their squares.
pub proof fn lemma_exchange_along_axis(a: int, b: int, v: int)
    ensures
        (a + 2 * v) * (a + 2 * v) + (b - 2 * v) * (b - 2 * v) - a * a - b * b == 8 * (v * v) - 4 * (v
            * (b - a)),
{
    assert((a + 2 * v) * (a + 2 * v) + (b - 2 * v) * (b - 2 * v) - a * a - b * b == 8 * (v * v) - 4
        * (v * (b - a))) by (nonlinear_arith);
}

/// The part of the change of energy that one axis contributes, written
/// out in the rounding errors. With `scaled = SCALE * v`, where `v` is the
/// product `n * s / SCALE` rounded down and `lost` what the rounding took,
/// the square of `scaled` and its product with `r` are as follows.
pub proof fn lemma_axis_terms(n: int, s: int, r: int, lost: int, scaled: int)
    requires
        scaled == n * s - lost,
    ensures
        scaled * scaled == (n * n) * (s * s) - 2 * (s * (n * lost)) + lost * lost,
        scaled * r == s * (n * r) - lost * r,
{
    let m = n * s;
    assert(scaled * scaled == m * m - 2 * (m * lost) + lost * lost) by (nonlinear_arith)
        requires
            scaled == m - lost,
    ;
    assert(m * m == (n * n) * (s * s)) by (nonlinear_arith)
        requires
            m == n * s,
    ;
    assert(m * lost == s * (n * lost)) by (nonlinear_arith)
        requires
            m == n * s,
    ;
    assert(scaled * r == m * r - lost * r) by (nonlinear_arith)
        requires
            scaled == m - lost,
    ;
    assert(m * r == s * (n * r)) by (nonlinear_arith)
        requires
            m == n * s,
    ;
}

/// From a relative speed of `2^21` raw units on, the rounding of an
/// elastic contact costs less than one part in ten thousand of the energy.
pub proof fn lemma_rounding_is_small(reach: int, m: int)
    requires
        reach >= 0x20_0000,
        0 <= 2 * m <= reach + 2,
    ensures
        40000 * (1632 * (m * m) + 64 * (SCALE * m) + 16 * SCALE) <= SCALE * (reach * reach),
{
    let big = SCALE as int;
    let rr = reach * reach;
    let mm = m * m;
    assert(4 * mm <= rr + 4 * reach + 4) by (nonlinear_arith)
        requires
            0 <= 2 * m <= reach + 2,
            mm == m * m,
            rr == reach * reach,
    ;
    assert(rr >= 0x20_0000 * reach) by (nonlinear_arith)
        requires
            reach >= 0x20_0000,
            rr == reach * reach,
    ;
    assert(big * m == SCALE * m);
    assert(big * rr == SCALE * (reach * reach));
}

/// The algebra of an elastic contact without friction. The velocities
/// `a` and `b` exchange twice the normal part `vn` of half their
/// difference, where every division by `SCALE` rounds down; if the normal
/// `(nx, ny)` is a unit vector up to rounding and the relative speed is at
/// least `2^21` raw units, the sum of the squared speeds changes by at
/// most one part in ten thousand.
pub proof fn lemma_energy_algebra(
    avx: int,
    avy: int,
    bvx: int,
    bvy: int,
    nx: int,
    ny: int,
    rx: int,
    ry: int,
    s1: int,
    s2: int,
    vnx: int,
    vny: int,
)
    requires
        -SCALE <= nx <= SCALE,
        -SCALE <= ny <= SCALE,
        -4 * SCALE <= nx * nx + ny * ny - SCALE * SCALE <= NORMAL_EXCESS * SCALE,
        2 * rx <= bvx - avx <= 2 * rx + 1,
        2 * ry <= bvy - avy <= 2 * ry + 1,
        SCALE * s1 <= nx * rx,
        nx * rx < SCALE * s1 + SCALE,
        SCALE * s2 <= ny * ry,
        ny * ry < SCALE * s2 + SCALE,
        SCALE * vnx <= nx * (s1 + s2),
        nx * (s1 + s2) < SCALE * vnx + SCALE,
        SCALE * vny <= ny * (s1 + s2),
        ny * (s1 + s2) < SCALE * vny + SCALE,
        (bvx - avx) * (bvx - avx) + (bvy - avy) * (bvy - avy) >= 0x400_0000_0000,
    ensures
        10000 * abs(
            (avx + 2 * vnx) * (avx + 2 * vnx) + (avy + 2 * vny) * (avy + 2 * vny) + (bvx - 2 * vnx)
                * (bvx - 2 * vnx) + (bvy - 2 * vny) * (bvy - 2 * vny) - (avx * avx + avy * avy + bvx
                * bvx + bvy * bvy),
        ) <= avx * avx + avy * avy + bvx * bvx + bvy * bvy,
{
    let big = SCALE as int;
    let s = s1 + s2;
    let wx = bvx - avx;
    let wy = bvy - avy;
    let m = abs(rx) + abs(ry);
    let energy = avx * avx + avy * avy + bvx * bvx + bvy * bvy;
    let change = (avx + 2 * vnx) * (avx + 2 * vnx) + (avy + 2 * vny) * (avy + 2 * vny) + (bvx - 2
        * vnx) * (bvx - 2 * vnx) + (bvy - 2 * vny) * (bvy - 2 * vny) - energy;
    // Sizes.
    lemma_scaled_down(nx, rx, s1);
    lemma_scaled_down(ny, ry, s2);
    assert(abs(s) <= m);
    lemma_scaled_down(nx, s, vnx);
    lemma_scaled_down(ny, s, vny);
    // What the roundings took.
    let lost_x = nx * s - big * vnx;
    let lost_y = ny * s - big * vny;
    let theta = (nx * rx - big * s1) + (ny * ry - big * s2);
    let dot = nx * rx + ny * ry;
    assert(dot == big * s + theta);
    let scaled_x = big * vnx;
    let scaled_y = big * vny;
    lemma_axis_terms(nx, s, rx, lost_x, scaled_x);
    lemma_axis_terms(ny, s, ry, lost_y, scaled_y);
    let ss = s * s;
    let n2 = nx * nx + ny * ny;
    let t1 = ss * (n2 - big * big);
    let t2 = big * (s * theta);
    let t3 = 2 * (s * (nx * lost_x + ny * lost_y));
    let t4 = lost_x * lost_x + lost_y * lost_y;
    let t5 = big * (lost_x * rx + lost_y * ry);
    let t = scaled_x * scaled_x + scaled_y * scaled_y - big * (scaled_x * rx + scaled_y * ry);
    assert(t == t1 - t2 - t3 + t4 + t5) by {
        assert((nx * nx) * ss + (ny * ny) * ss == n2 * ss) by (nonlinear_arith)
            requires
                n2 == nx * nx + ny * ny,
        ;
        assert(s * (nx * lost_x) + s * (ny * lost_y) == s * (nx * lost_x + ny * lost_y))
            by (nonlinear_arith);
        assert(s * (nx * rx) + s * (ny * ry) == s * dot) by (nonlinear_arith)
            requires
                dot == nx * rx + ny * ry,
        ;
        assert(s * dot == big * ss + s * theta) by (nonlinear_arith)
            requires
                dot == big * s + theta,
                ss == s * s,
        ;
        assert(big * (s * dot - (lost_x * rx + lost_y * ry)) == big * (big * ss) + t2 - t5)
            by (nonlinear_arith)
            requires
                s * dot == big * ss + s * theta,
                t2 == big * (s * theta),
                t5 == big * (lost_x * rx + lost_y * ry),
        ;
        assert(t1 == n2 * ss - big * (big * ss)) by (nonlinear_arith)
            requires
                t1 == ss * (n2 - big * big),
        ;
    }
    // Bounds on the five terms.
    let bound = NORMAL_EXCESS * big * (m * m) + 7 * (big * big) * m + 2 * (big * big);
    assert(abs(t) <= bound) by {
        let a = abs(s);
        assert(ss == a * a && 0 <= ss) by (nonlinear_arith)
            requires
                ss == s * s,
                a == abs(s),
        ;
        lemma_square_grows(a, m);
        lemma_product_bound(ss, n2 - big * big, m * m, NORMAL_EXCESS * big);
        assert((m * m) * (NORMAL_EXCESS * big) == NORMAL_EXCESS * big * (m * m)) by (nonlinear_arith);
        lemma_product_bound(s, theta, m, 2 * big);
        lemma_product_bound(big, s * theta, big, m * (2 * big));
        assert(big * (m * (2 * big)) == 2 * (big * big) * m) by (nonlinear_arith);
        lemma_product_bound(nx, lost_x, big, big);
        lemma_product_bound(ny, lost_y, big, big);
        lemma_product_bound(s, nx * lost_x + ny * lost_y, m, 2 * (big * big));
        assert(2 * (m * (2 * (big * big))) == 4 * (big * big) * m) by (nonlinear_arith);
        assert(abs(t3) == 2 * abs(s * (nx * lost_x + ny * lost_y)));
        lemma_square_grows(lost_x, big);
        lemma_square_grows(lost_y, big);
        lemma_product_bound(lost_x, rx, big, abs(rx));
        lemma_product_bound(lost_y, ry, big, abs(ry));
        lemma_product_bound(big, lost_x * rx + lost_y * ry, big, big * abs(rx) + big * abs(ry));
        assert(big * (big * abs(rx) + big * abs(ry)) == (big * big) * m) by (nonlinear_arith)
            requires
                m == abs(rx) + abs(ry),
        ;
        assert(abs(t1) <= NORMAL_EXCESS * big * (m * m));
        assert(abs(t2) <= 2 * (big * big) * m);
        assert(abs(t3) <= 4 * (big * big) * m);
        assert(0 <= t4 <= 2 * (big * big));
        assert(abs(t5) <= (big * big) * m);
    }
    // The change of energy in these terms.
    let half_x = wx - 2 * rx;
    let half_y = wy - 2 * ry;
    let odd = vnx * half_x + vny * half_y;
    assert(abs(odd) <= 2 * m) by {
        lemma_product_bound(vnx, half_x, m, 1);
        lemma_product_bound(vny, half_y, m, 1);
    }
    lemma_exchange_along_axis(avx, bvx, vnx);
    lemma_exchange_along_axis(avy, bvy, vny);
    let along = vnx * rx + vny * ry;
    let square = vnx * vnx + vny * vny;
    assert(change == 8 * (square - along) - 4 * odd) by (nonlinear_arith)
        requires
            change == 8 * (vnx * vnx) - 4 * (vnx * wx) + 8 * (vny * vny) - 4 * (vny * wy),
            wx == 2 * rx + half_x,
            wy == 2 * ry + half_y,
            odd == vnx * half_x + vny * half_y,
            along == vnx * rx + vny * ry,
            square == vnx * vnx + vny * vny,
    ;
    let bb = big * big;
    assert(t == bb * (square - along)) by {
        assert(scaled_x * scaled_x == bb * (vnx * vnx)) by (nonlinear_arith)
            requires
                scaled_x == big * vnx,
                bb == big * big,
        ;
        assert(scaled_y * scaled_y == bb * (vny * vny)) by (nonlinear_arith)
            requires
                scaled_y == big * vny,
                bb == big * big,
        ;
        assert(scaled_x * rx == big * (vnx * rx)) by (nonlinear_arith)
            requires
                scaled_x == big * vnx,
        ;
        assert(scaled_y * ry == big * (vny * ry)) by (nonlinear_arith)
            requires
                scaled_y == big * vny,
        ;
        assert(big * (big * (vnx * rx) + big * (vny * ry)) == bb * along) by (nonlinear_arith)
            requires
                along == vnx * rx + vny * ry,
                bb == big * big,
        ;
        assert(bb * (vnx * vnx) + bb * (vny * vny) - bb * along == bb * (square - along))
            by (nonlinear_arith)
            requires
                square == vnx * vnx + vny * vny,
        ;
    }
    assert(bb * change == 8 * t - 4 * (bb * odd)) by (nonlinear_arith)
        requires
            change == 8 * (square - along) - 4 * odd,
            t == bb * (square - along),
    ;
    lemma_product_bound(bb, odd, bb, 2 * m);
    assert(abs(bb * change) <= 8 * bound + 4 * (bb * (2 * m)));
    assert(abs(bb * change) == bb * abs(change)) by (nonlinear_arith)
        requires
            bb > 0,
    ;
    let small = 1632 * (m * m) + 64 * (big * m) + 16 * big;
    assert(8 * bound + 4 * (bb * (2 * m)) == big * small) by (nonlinear_arith)
        requires
            bound == NORMAL_EXCESS * big * (m * m) + 7 * bb * m + 2 * bb,
            bb == big * big,
            small == 1632 * (m * m) + 64 * (big * m) + 16 * big,
            NORMAL_EXCESS == 204,
    ;
    assert(big * abs(change) <= small) by (nonlinear_arith)
        requires
            bb * abs(change) <= big * small,
            bb == big * big,
            big > 0,
    ;
    // The energy is at least a quarter of the squared reach of the
    // relative velocity.
    let reach = abs(wx) + abs(wy);
    let w2 = wx * wx + wy * wy;
    assert(w2 <= reach * reach && reach * reach <= 2 * w2) by (nonlinear_arith)
        requires
            reach == abs(wx) + abs(wy),
            w2 == wx * wx + wy * wy,
    ;
    assert(2 * (avx * avx + bvx * bvx) >= (bvx - avx) * (bvx - avx)) by (nonlinear_arith);
    assert(2 * (avy * avy + bvy * bvy) >= (bvy - avy) * (bvy - avy)) by (nonlinear_arith);
    assert(2 * energy >= w2);
    if reach < 0x20_0000 {
        lemma_square_grows(reach, 0x20_0000 - 1);
        assert(false);
    }
    assert(2 * m <= reach + 2);
    lemma_rounding_is_small(reach, m);
    assert(40000 * small <= big * (reach * reach));
    assert(big * (reach * reach) <= big * (4 * energy)) by (nonlinear_arith)
        requires
            reach * reach <= 4 * energy,
            big > 0,
    ;
    assert(10000 * abs(change) <= energy) by (nonlinear_arith)
        requires
            big * abs(change) <= small,
            40000 * small <= big * (4 * energy),
            big > 0,
    ;
}

/// The largest speed along an axis, in raw units, up to which the
/// resolution of a contact is certain to compute without saturation.
pub const SPEED_LIMIT: i64 = 0x0800_0000_0000_0000;

/// The square of the smallest relative speed, in raw units, from which on
/// rounding is certain to cost less than one part in ten thousand.
pub const RELATIVE_SPEED_SQUARED_FLOOR: i64 = 0x400_0000_0000;

/// Twice the kinetic energy of a pair of particles of unit mass, in
/// squared raw units.
pub open spec fn energy(a: Particle, b: Particle) -> int {
    a.vel.x.raw * a.vel.x.raw + a.vel.y.raw * a.vel.y.raw + b.vel.x.raw * b.vel.x.raw + b.vel.y.raw
        * b.vel.y.raw
}

/// Whether no speed along an axis exceeds `SPEED_LIMIT`.
pub open spec fn speeds_bounded(a: Particle, b: Particle) -> bool {
    &&& -SPEED_LIMIT <= a.vel.x.raw <= SPEED_LIMIT
    &&& -SPEED_LIMIT <= a.vel.y.raw <= SPEED_LIMIT
    &&& -SPEED_LIMIT <= b.vel.x.raw <= SPEED_LIMIT
    &&& -SPEED_LIMIT <= b.vel.y.raw <= SPEED_LIMIT
}

/// Whether the two particles move relative to each other fast enough for
/// rounding not to matter.
pub open spec fn fast_enough(a: Particle, b: Particle) -> bool {
    (b.vel.x.raw - a.vel.x.raw) * (b.vel.x.raw - a.vel.x.raw) + (b.vel.y.raw - a.vel.y.raw) * (
    b.vel.y.raw - a.vel.y.raw) >= RELATIVE_SPEED_SQUARED_FLOOR
}

/// Whether a contact is elastic and within the bounds in which rounding
/// does not matter: the discs are in contact, nothing is lost to the
/// contact or to friction, no speed exceeds `SPEED_LIMIT`, and the relative
/// speed is large enough.
pub open spec fn elastic(a: Particle, b: Particle, physics: Physics) -> bool {
    &&& in_contact(a, b)
    &&& physics.elasticity.raw == SCALE
    &&& physics.friction.raw == 0
    &&& speeds_bounded(a, b)
    &&& fast_enough(a, b)
}

/// Whether the kinetic energy of `a2` and `b2` is that of `a` and `b` up
/// to one part in ten thousand.
pub open spec fn energy_kept(a: Particle, b: Particle, a2: Particle, b2: Particle) -> bool {
    10000 * abs(energy(a2, b2) - energy(a, b)) <= energy(a, b)
}

/// A component of the normal is the component of the distance divided by
/// the distance, rounded down, and lies between minus one and one.
pub proof fn lemma_normal_component(dx: Fixed, dist: Fixed)
    requires
        dist.raw > 0,
        -dist.raw <= dx.raw <= dist.raw,
    ensures
        -SCALE <= dx.spec_div(dist).raw <= SCALE,
        dx.spec_div(dist).raw * dist.raw <= dx.raw * SCALE,
        dx.raw * SCALE < (dx.spec_div(dist).raw + 1) * dist.raw,
{
    let x = dx.raw as int;
    let d = dist.raw as int;
    let big = SCALE as int;
    let q = (x * big) / d;
    lemma_floor_div_bounds(x * big, d);
    assert(-big <= q <= big) by (nonlinear_arith)
        requires
            q * d <= x * big,
            x * big < (q + 1) * d,
            -d <= x <= d,
            d > 0,
            big == 0x1_0000_0000,
    ;
}

/// A number times one is the number.
pub proof fn lemma_mul_one(x: Fixed)
    ensures
        x.spec_mul(Fixed { raw: SCALE }) == x,
{
    assert((x.raw * SCALE) / (SCALE as int) == x.raw);
}

/// A product with a factor of size at most `SCALE` does not saturate, and
/// is the exact product divided by `SCALE`, rounded down.
pub proof fn lemma_mul_exact(n: Fixed, r: Fixed)
    requires
        -SCALE <= n.raw <= SCALE,
        r.raw > i64::MIN,
    ensures
        SCALE * n.spec_mul(r).raw <= n.raw * r.raw < SCALE * n.spec_mul(r).raw + SCALE,
        abs(n.spec_mul(r).raw as int) <= abs(r.raw as int),
{
    let q = (n.raw * r.raw) / (SCALE as int);
    lemma_scaled_down(n.raw as int, r.raw as int, q);
}

/// The part of `rel` along the normal `n`, in integers.
pub proof fn lemma_normal_part(n: Vec2, rel: Vec2)
    requires
        -SCALE <= n.x.raw <= SCALE,
        -SCALE <= n.y.raw <= SCALE,
        -2 * SPEED_LIMIT <= rel.x.raw <= 2 * SPEED_LIMIT,
        -2 * SPEED_LIMIT <= rel.y.raw <= 2 * SPEED_LIMIT,
    ensures
        ({
            let s1 = n.x.spec_mul(rel.x).raw;
            let s2 = n.y.spec_mul(rel.y).raw;
            let vn = n.spec_scale(n.spec_dot(rel));
            &&& SCALE * s1 <= n.x.raw * rel.x.raw < SCALE * s1 + SCALE
            &&& SCALE * s2 <= n.y.raw * rel.y.raw < SCALE * s2 + SCALE
            &&& SCALE * vn.x.raw <= n.x.raw * (s1 + s2) < SCALE * vn.x.raw + SCALE
            &&& SCALE * vn.y.raw <= n.y.raw * (s1 + s2) < SCALE * vn.y.raw + SCALE
            &&& -4 * SPEED_LIMIT <= vn.x.raw <= 4 * SPEED_LIMIT
            &&& -4 * SPEED_LIMIT <= vn.y.raw <= 4 * SPEED_LIMIT
        }),
{
    lemma_mul_exact(n.x, rel.x);
    lemma_mul_exact(n.y, rel.y);
    let dot = n.spec_dot(rel);
    assert(dot.raw == n.x.spec_mul(rel.x).raw + n.y.spec_mul(rel.y).raw);
    lemma_mul_exact(n.x, dot);
    lemma_mul_exact(n.y, dot);
}

/// The exchange of an elastic contact without friction is twice the part
/// of `rel` along the normal.
pub proof fn lemma_elastic_exchange(n: Vec2, rel: Vec2, physics: Physics)
    requires
        physics.elasticity.raw == SCALE,
        physics.friction.raw == 0,
        -2 * SPEED_LIMIT <= rel.x.raw <= 2 * SPEED_LIMIT,
        -2 * SPEED_LIMIT <= rel.y.raw <= 2 * SPEED_LIMIT,
        -4 * SPEED_LIMIT <= n.spec_scale(n.spec_dot(rel)).x.raw <= 4 * SPEED_LIMIT,
        -4 * SPEED_LIMIT <= n.spec_scale(n.spec_dot(rel)).y.raw <= 4 * SPEED_LIMIT,
    ensures
        exchange(n, rel, physics).x.raw == 2 * n.spec_scale(n.spec_dot(rel)).x.raw,
        exchange(n, rel, physics).y.raw == 2 * n.spec_scale(n.spec_dot(rel)).y.raw,
{
    let vn = n.spec_scale(n.spec_dot(rel));
    let vt = rel.spec_sub(vn);
    lemma_mul_one(vn.x);
    lemma_mul_one(vn.y);
    lemma_mul_one(vt.x);
    lemma_mul_one(vt.y);
    assert(physics.elasticity == (Fixed { raw: SCALE }));
    assert((Fixed { raw: SCALE }).spec_sub(physics.friction) == (Fixed { raw: SCALE }));
    assert(exchange(n, rel, physics) == rel.spec_add(vn).spec_sub(vt));
}

/// Energy in an elastic contact: when nothing is lost to the contact or to
/// friction, no speed along an axis exceeds `SPEED_LIMIT`, and the two
/// particles move relative to each other by at least `2^21` raw units a
/// second, resolving their contact changes their kinetic energy by at most
/// one part in ten thousand.
pub proof fn lemma_elastic_energy(a: Particle, b: Particle, physics: Physics)
    requires
        elastic(a, b, physics),
    ensures
        energy_kept(a, b, collided(a, b, physics).0, collided(a, b, physics).1),
{
    let delta = b.pos.spec_sub(a.pos);
    let dist = distance(a, b);
    let n = normal(a, b);
    lemma_contact_geometry(a, b);
    lemma_normal_component(delta.x, dist);
    lemma_normal_component(delta.y, dist);
    lemma_normal_is_unit(
        delta.x.raw as int,
        delta.y.raw as int,
        dist.raw as int,
        n.x.raw as int,
        n.y.raw as int,
    );
    let rel = b.vel.spec_sub(a.vel).spec_half();
    let vn = n.spec_scale(n.spec_dot(rel));
    assert(2 * rel.x.raw <= b.vel.x.raw - a.vel.x.raw <= 2 * rel.x.raw + 1);
    assert(2 * rel.y.raw <= b.vel.y.raw - a.vel.y.raw <= 2 * rel.y.raw + 1);
    lemma_normal_part(n, rel);
    lemma_elastic_exchange(n, rel, physics);
    let after = collided(a, b, physics);
    assert(after.0.vel.x.raw == a.vel.x.raw + 2 * vn.x.raw && after.0.vel.y.raw == a.vel.y.raw + 2
        * vn.y.raw && after.1.vel.x.raw == b.vel.x.raw - 2 * vn.x.raw && after.1.vel.y.raw
        == b.vel.y.raw - 2 * vn.y.raw) by {
        reveal(collided);
    }
    lemma_energy_algebra(
        a.vel.x.raw as int,
        a.vel.y.raw as int,
        b.vel.x.raw as int,
        b.vel.y.raw as int,
        n.x.raw as int,
        n.y.raw as int,
        rel.x.raw as int,
        rel.y.raw as int,
        n.x.spec_mul(rel.x).raw as int,
        n.y.spec_mul(rel.y).raw as int,
        vn.x.raw as int,
        vn.y.raw as int,
    );
}

} // verus!
