//! How far apart the resolution of a contact leaves two discs.
use crate::fixed::abs;
use crate::fixed::Fixed;
use crate::fixed::isqrt;
use crate::fixed::lemma_floor_div_bounds;
use crate::fixed::lemma_isqrt_bounds;
use crate::fixed::lemma_isqrt_monotone;
use crate::fixed::lemma_isqrt_square;
use crate::fixed::SCALE;
use crate::particle::Particle;
use crate::stepper::collided;
use crate::stepper::CONTACT_MIN;
use crate::stepper::distance;
use crate::stepper::in_contact;
use crate::stepper::normal;
use crate::stepper::overlap;
use crate::stepper::Physics;
use crate::stepper::push;
use vstd::prelude::*;

verus! {

/// Squares grow with what is squared, from zero on.
pub proof fn lemma_square_grows(p: int, q: int)
    requires
        0 <= p <= q,
    ensures
        p * p <= q * q,
{
    assert(p * p <= q * q) by (nonlinear_arith)
        requires
            0 <= p <= q,
    ;
}

/// The sum of two numbers whose squares add up to less than `(d + 1)^2`
/// stays below one and a half times `d + 1`.
pub proof fn lemma_sum_below(x: int, y: int, d: int)
    requires
        x >= 0,
        y >= 0,
        d >= 0,
        x * x + y * y < (d + 1) * (d + 1),
    ensures
        2 * (x + y) <= 3 * d + 2,
{
    let t = x + y;
    let e = d + 1;
    assert(t * t <= 2 * (x * x + y * y)) by (nonlinear_arith)
        requires
            t == x + y,
    ;
    if 2 * t >= 3 * e {
        assert(4 * (t * t) >= 9 * (e * e)) by (nonlinear_arith)
            requires
                2 * t >= 3 * e,
                e >= 0,
        ;
        assert(false);
    }
}

/// The geometry behind the resolution of a contact. Take a vector
/// `(x, y)` of length between `d` and `d + 1`, and stretch each component
/// by the factor `r / d`, up to an error of `c`. The result is at least
/// `r - 2 c` long.
pub proof fn lemma_stretched(x: int, y: int, u: int, v: int, d: int, r: int, c: int)
    requires
        x >= 0,
        y >= 0,
        u >= 0,
        v >= 0,
        c >= 0,
        d >= 4,
        r >= 4 * c,
        d * d <= x * x + y * y,
        x * x + y * y < (d + 1) * (d + 1),
        d * u >= x * r - d * c,
        d * v >= y * r - d * c,
    ensures
        u * u + v * v >= (r - 2 * c) * (r - 2 * c),
{
    let a = x * r - d * c;
    let b = y * r - d * c;
    let g = d * (r - 2 * c);
    let du = d * u;
    let dv = d * v;
    assert(g >= 0) by (nonlinear_arith)
        requires
            g == d * (r - 2 * c),
            d >= 4,
            r >= 4 * c,
            c >= 0,
    ;
    assert(du >= 0 && dv >= 0) by (nonlinear_arith)
        requires
            du == d * u,
            dv == d * v,
            d >= 4,
            u >= 0,
            v >= 0,
    ;
    if a >= 0 && b >= 0 {
        lemma_sum_below(x, y, d);
        lemma_square_grows(a, du);
        lemma_square_grows(b, dv);
        let xr = x * r;
        let yr = y * r;
        let dr = d * r;
        let dc = d * c;
        let m = 2 * dr - xr - yr - dc;
        assert(g == dr - 2 * dc) by (nonlinear_arith)
            requires
                g == d * (r - 2 * c),
                dr == d * r,
                dc == d * c,
        ;
        assert(2 * m >= 0) by (nonlinear_arith)
            requires
                m == 2 * dr - xr - yr - dc,
                xr == x * r,
                yr == y * r,
                dr == d * r,
                dc == d * c,
                2 * (x + y) <= 3 * d + 2,
                r >= 4 * c,
                c >= 0,
                d >= 4,
        ;
        assert(dc >= 0) by (nonlinear_arith)
            requires
                dc == d * c,
                d >= 4,
                c >= 0,
        ;
        assert(xr * xr + yr * yr >= dr * dr) by {
            let rr = r * r;
            let xx = x * x;
            let yy = y * y;
            let dd = d * d;
            assert(xr * xr == rr * xx) by (nonlinear_arith)
                requires
                    xr == x * r,
                    rr == r * r,
                    xx == x * x,
            ;
            assert(yr * yr == rr * yy) by (nonlinear_arith)
                requires
                    yr == y * r,
                    rr == r * r,
                    yy == y * y,
            ;
            assert(dr * dr == rr * dd) by (nonlinear_arith)
                requires
                    dr == d * r,
                    rr == r * r,
                    dd == d * d,
            ;
            assert(rr * xx + rr * yy >= rr * dd) by (nonlinear_arith)
                requires
                    xx + yy >= dd,
                    rr == r * r,
            ;
        }
        assert(a * a + b * b - g * g == xr * xr + yr * yr - dr * dr + 2 * (dc * m)) by (nonlinear_arith)
            requires
                a == xr - dc,
                b == yr - dc,
                g == dr - 2 * dc,
                m == 2 * dr - xr - yr - dc,
        ;
        assert(dc * m >= 0) by (nonlinear_arith)
            requires
                m >= 0,
                dc >= 0,
        ;
        assert(du * du + dv * dv >= g * g);
    } else if a < 0 {
        lemma_heavy_side(y, x, d, r, c);
        assert(b >= g) by (nonlinear_arith)
            requires
                b == y * r - d * c,
                g == d * (r - 2 * c),
                y * r >= d * (r - c),
        ;
        lemma_square_grows(g, dv);
        assert(du * du >= 0) by (nonlinear_arith);
        assert(du * du + dv * dv >= g * g);
    } else {
        lemma_heavy_side(x, y, d, r, c);
        assert(a >= g) by (nonlinear_arith)
            requires
                a == x * r - d * c,
                g == d * (r - 2 * c),
                x * r >= d * (r - c),
        ;
        lemma_square_grows(g, du);
        assert(dv * dv >= 0) by (nonlinear_arith);
        assert(du * du + dv * dv >= g * g);
    }
    let p = u * u + v * v;
    let q = (r - 2 * c) * (r - 2 * c);
    assert(du * du + dv * dv == d * d * p) by (nonlinear_arith)
        requires
            du == d * u,
            dv == d * v,
            p == u * u + v * v,
    ;
    assert(g * g == d * d * q) by (nonlinear_arith)
        requires
            g == d * (r - 2 * c),
            q == (r - 2 * c) * (r - 2 * c),
    ;
    assert(p >= q) by (nonlinear_arith)
        requires
            d * d * p >= d * d * q,
            d >= 4,
    ;
}

/// When one component of a vector of length at least `d` is short, the
/// other carries almost the whole length.
pub proof fn lemma_heavy_side(long: int, short: int, d: int, r: int, c: int)
    requires
        long >= 0,
        short >= 0,
        c >= 0,
        d >= 4,
        r >= 4 * c,
        d * d <= short * short + long * long,
        short * r < d * c,
    ensures
        long * r >= d * (r - c),
{
    let lr = long * r;
    let sr = short * r;
    let k = d * (r - c);
    let dc = d * c;
    assert(k >= 0 && dc >= 0 && sr >= 0 && lr >= 0) by (nonlinear_arith)
        requires
            k == d * (r - c),
            dc == d * c,
            sr == short * r,
            lr == long * r,
            d >= 4,
            r >= 4 * c,
            c >= 0,
            long >= 0,
            short >= 0,
    ;
    if lr < k {
        lemma_square_grows(lr, k - 1);
        lemma_square_grows(sr, dc);
        assert(lr * lr + sr * sr == r * r * (short * short + long * long)) by (nonlinear_arith)
            requires
                lr == long * r,
                sr == short * r,
        ;
        assert(r * r * (short * short + long * long) >= r * r * (d * d)) by (nonlinear_arith)
            requires
                d * d <= short * short + long * long,
        ;
        assert(k * k + dc * dc <= r * r * (d * d)) by (nonlinear_arith)
            requires
                k == d * (r - c),
                dc == d * c,
                r >= 4 * c,
                c >= 0,
                d >= 4,
        ;
        assert((k - 1) * (k - 1) < k * k || k == 0) by (nonlinear_arith)
            requires
                k >= 0,
        ;
        assert(false);
    }
}

/// The geometry of a contact: the distance is the square root of the
/// exact sum of squares, rounded down, it is at least `CONTACT_MIN`, no
/// component of the vector between the centres is longer, and the normal
/// is that vector divided by the distance.
pub proof fn lemma_contact_geometry(a: Particle, b: Particle)
    requires
        in_contact(a, b),
    ensures
        distance(a, b).raw >= CONTACT_MIN,
        overlap(a, b).raw > 0,
        distance(a, b).raw * distance(a, b).raw <= b.pos.spec_sub(a.pos).x.raw * b.pos.spec_sub(
            a.pos,
        ).x.raw + b.pos.spec_sub(a.pos).y.raw * b.pos.spec_sub(a.pos).y.raw,
        b.pos.spec_sub(a.pos).x.raw * b.pos.spec_sub(a.pos).x.raw + b.pos.spec_sub(a.pos).y.raw
            * b.pos.spec_sub(a.pos).y.raw < (distance(a, b).raw + 1) * (distance(a, b).raw + 1),
        -distance(a, b).raw <= b.pos.spec_sub(a.pos).x.raw <= distance(a, b).raw,
        -distance(a, b).raw <= b.pos.spec_sub(a.pos).y.raw <= distance(a, b).raw,
        normal(a, b) == b.pos.spec_sub(a.pos).spec_div(distance(a, b)),
{
    let delta = b.pos.spec_sub(a.pos);
    let dx = delta.x.raw as int;
    let dy = delta.y.raw as int;
    let n2 = delta.norm_squared();
    assert(dx * dx >= 0 && dy * dy >= 0) by (nonlinear_arith);
    assert(distance(a, b).raw == isqrt(n2));
    lemma_isqrt_bounds(n2);
    lemma_isqrt_monotone((dx * dx) as nat, n2);
    lemma_isqrt_monotone((dy * dy) as nat, n2);
    lemma_isqrt_square(dx);
    lemma_isqrt_square(dy);
}

/// The push along one axis: the component of the normal, times the
/// overlap, halved.
pub open spec fn axis_push(dx: Fixed, dist: Fixed, reach: Fixed) -> Fixed {
    dx.spec_div(dist).spec_mul(reach).spec_half()
}

/// The rounding error of the push along one axis, in raw units.
pub open spec fn axis_error(reach: Fixed) -> int {
    reach.raw as int / (SCALE as int) + 3
}

/// The push along one axis has the sign of the distance along that axis,
/// and moves the two centres to the distance that the radii ask for, up
/// to the rounding error.
pub proof fn lemma_axis_push(dx: Fixed, dist: Fixed, reach: Fixed)
    requires
        dist.raw > 0,
        reach.raw > 0,
        -dist.raw <= dx.raw <= dist.raw,
    ensures
        dx.raw >= 0 ==> axis_push(dx, dist, reach).raw >= 0 && dist.raw * (dx.raw + 2 * axis_push(
            dx,
            dist,
            reach,
        ).raw) >= dx.raw * (dist.raw + reach.raw) - dist.raw * axis_error(reach),
        dx.raw <= 0 ==> axis_push(dx, dist, reach).raw <= 0 && dist.raw * (dx.raw + 2 * axis_push(
            dx,
            dist,
            reach,
        ).raw) <= dx.raw * (dist.raw + reach.raw),
{
    let x = dx.raw as int;
    let d = dist.raw as int;
    let o = reach.raw as int;
    let big = SCALE as int;
    let q = (x * big) / d;
    lemma_floor_div_bounds(x * big, d);
    assert(q * d <= x * big < (q + 1) * d);
    assert(-big <= q <= big) by (nonlinear_arith)
        requires
            q * d <= x * big,
            x * big < (q + 1) * d,
            -d <= x <= d,
            d > 0,
            big == 0x1_0000_0000,
    ;
    assert(dx.spec_div(dist).raw == q);
    let w = (q * o) / big;
    assert(-o <= q * o / big <= o) by {
        assert(-(big * o) <= q * o <= big * o) by (nonlinear_arith)
            requires
                -big <= q <= big,
                o > 0,
        ;
    }
    assert(dx.spec_div(dist).spec_mul(reach).raw == w);
    let z = w / 2;
    assert(axis_push(dx, dist, reach).raw == z);
    let c = axis_error(reach);
    let oc = o / big;
    assert(big * oc <= o < big * oc + big);
    if x >= 0 {
        assert(q >= 0) by (nonlinear_arith)
            requires
                x * big < (q + 1) * d,
                x >= 0,
                d > 0,
                big > 0,
        ;
        assert(q * o >= 0) by (nonlinear_arith)
            requires
                q >= 0,
                o > 0,
        ;
        assert(w >= 0 && z >= 0);
        let lhs = d * (x + 2 * z);
        // 2 z >= w - 1, S w >= q o - S + 1, q d >= x S - d + 1
        assert(big * lhs >= big * x * (d + o) - d * (o + 2 * big)) by {
            let dw = d * w;
            assert(lhs >= d * x + dw - d) by (nonlinear_arith)
                requires
                    lhs == d * (x + 2 * z),
                    dw == d * w,
                    2 * z >= w - 1,
                    d > 0,
            ;
            let qo = q * o;
            assert(big * w >= qo - big + 1);
            assert(big * dw >= d * qo - d * big) by (nonlinear_arith)
                requires
                    dw == d * w,
                    big * w >= qo - big + 1,
                    d > 0,
            ;
            let qd = q * d;
            assert(d * qo == o * qd) by (nonlinear_arith)
                requires
                    qo == q * o,
                    qd == q * d,
            ;
            assert((q + 1) * d == qd + d) by (nonlinear_arith)
                requires
                    qd == q * d,
            ;
            assert(o * qd >= o * (x * big) - o * d) by (nonlinear_arith)
                requires
                    qd >= x * big - d + 1,
                    o > 0,
            ;
            assert(big * (d * x + dw - d) == big * (d * x) + big * dw - big * d) by (nonlinear_arith);
            assert(big * lhs >= big * (d * x + dw - d)) by (nonlinear_arith)
                requires
                    lhs >= d * x + dw - d,
                    big > 0,
            ;
            assert(big * x * (d + o) == big * (d * x) + o * (x * big)) by (nonlinear_arith);
            assert(d * (o + 2 * big) == o * d + 2 * (big * d)) by (nonlinear_arith);
        }
        assert(big * (d * c) >= d * (o + 2 * big)) by (nonlinear_arith)
            requires
                c == oc + 3,
                o < big * oc + big,
                d > 0,
                big > 0,
        ;
        let rhs = x * (d + o) - d * c;
        assert(big * lhs >= big * rhs) by (nonlinear_arith)
            requires
                big * lhs >= big * x * (d + o) - d * (o + 2 * big),
                big * (d * c) >= d * (o + 2 * big),
                rhs == x * (d + o) - d * c,
        ;
        assert(lhs >= rhs) by (nonlinear_arith)
            requires
                big * lhs >= big * rhs,
                big > 0,
        ;
    }
    if x <= 0 {
        assert(q <= 0) by (nonlinear_arith)
            requires
                q * d <= x * big,
                x <= 0,
                d > 0,
                big > 0,
        ;
        assert(q * o <= 0) by (nonlinear_arith)
            requires
                q <= 0,
                o > 0,
        ;
        assert(w <= 0 && z <= 0);
        let lhs = d * (x + 2 * z);
        let rhs = x * (d + o);
        assert(big * lhs <= big * rhs) by {
            let dw = d * w;
            assert(lhs <= d * x + dw) by (nonlinear_arith)
                requires
                    lhs == d * (x + 2 * z),
                    dw == d * w,
                    2 * z <= w,
                    d > 0,
            ;
            let qo = q * o;
            assert(big * w <= qo);
            assert(big * dw <= d * qo) by (nonlinear_arith)
                requires
                    dw == d * w,
                    big * w <= qo,
                    d > 0,
            ;
            let qd = q * d;
            assert(d * qo == o * qd) by (nonlinear_arith)
                requires
                    qo == q * o,
                    qd == q * d,
            ;
            assert(o * qd <= o * (x * big)) by (nonlinear_arith)
                requires
                    qd <= x * big,
                    o > 0,
            ;
            assert(big * lhs <= big * (d * x + dw)) by (nonlinear_arith)
                requires
                    lhs <= d * x + dw,
                    big > 0,
            ;
            assert(big * (d * x + dw) == big * (d * x) + big * dw) by (nonlinear_arith);
            assert(big * rhs == big * (d * x) + o * (x * big)) by (nonlinear_arith)
                requires
                    rhs == x * (d + o),
            ;
        }
        assert(lhs <= rhs) by (nonlinear_arith)
            requires
                big * lhs <= big * rhs,
                big > 0,
        ;
    }
}

/// The sum of the two radii, in raw units.
pub open spec fn radii(a: Particle, b: Particle) -> int {
    a.radius.raw + b.radius.raw
}

/// By how much the resolution of a contact may leave the centres short of
/// the sum of the radii, in raw units: twice the rounding error of the
/// push along one axis.
pub open spec fn slack(a: Particle, b: Particle) -> int {
    2 * axis_error(overlap(a, b))
}

/// Whether the resolution of the contact of `a` and `b` computes with
/// exact positions: the distance along each axis, the sum of the radii,
/// and the pushed positions are all numbers that can be held.
pub open spec fn resolves_exactly(a: Particle, b: Particle) -> bool {
    &&& i64::MIN <= b.pos.x.raw - a.pos.x.raw <= i64::MAX
    &&& i64::MIN <= b.pos.y.raw - a.pos.y.raw <= i64::MAX
    &&& radii(a, b) <= i64::MAX
    &&& i64::MIN <= a.pos.x.raw - push(a, b).x.raw <= i64::MAX
    &&& i64::MIN <= a.pos.y.raw - push(a, b).y.raw <= i64::MAX
    &&& i64::MIN <= b.pos.x.raw + push(a, b).x.raw <= i64::MAX
    &&& i64::MIN <= b.pos.y.raw + push(a, b).y.raw <= i64::MAX
}

/// Whether the centres of `a2` and `b2` are as far apart as the sum of
/// the radii of `a` and `b`, up to the slack of their contact.
pub open spec fn touching(a: Particle, b: Particle, a2: Particle, b2: Particle) -> bool {
    &&& radii(a, b) - slack(a, b) >= 0
    &&& (b2.pos.x.raw - a2.pos.x.raw) * (b2.pos.x.raw - a2.pos.x.raw) + (b2.pos.y.raw
        - a2.pos.y.raw) * (b2.pos.y.raw - a2.pos.y.raw) >= (radii(a, b) - slack(a, b)) * (radii(a, b)
        - slack(a, b))
}

/// Non-overlap of a resolved pair: once the contact of two discs is
/// resolved, their centres are as far apart as the sum of their radii, up
/// to the slack of a few raw units that rounding costs.
pub proof fn lemma_collided_touching(a: Particle, b: Particle, physics: Physics)
    requires
        in_contact(a, b),
        resolves_exactly(a, b),
    ensures
        touching(a, b, collided(a, b, physics).0, collided(a, b, physics).1),
{
    let delta = b.pos.spec_sub(a.pos);
    let dist = distance(a, b);
    let reach = overlap(a, b);
    let dx = delta.x.raw as int;
    let dy = delta.y.raw as int;
    let d = dist.raw as int;
    let o = reach.raw as int;
    let r = radii(a, b);
    let c = axis_error(reach);
    lemma_contact_geometry(a, b);
    assert(r == d + o);
    assert(push(a, b).x == axis_push(delta.x, dist, reach));
    assert(push(a, b).y == axis_push(delta.y, dist, reach));
    lemma_axis_push(delta.x, dist, reach);
    lemma_axis_push(delta.y, dist, reach);
    reveal(collided);
    let px = push(a, b).x.raw as int;
    let py = push(a, b).y.raw as int;
    let after = collided(a, b, physics);
    let dx2 = after.1.pos.x.raw - after.0.pos.x.raw;
    let dy2 = after.1.pos.y.raw - after.0.pos.y.raw;
    assert(dx2 == dx + 2 * px);
    assert(dy2 == dy + 2 * py);
    let x = abs(dx);
    let y = abs(dy);
    let u = abs(dx2);
    let v = abs(dy2);
    assert(c >= 3 && 4 * c <= o + 12);
    assert(d * c >= 0) by (nonlinear_arith)
        requires
            d > 0,
            c >= 0,
    ;
    assert(d * u >= x * r - d * c) by {
        if dx >= 0 {
            assert(u == dx2 && x == dx);
        } else {
            assert(u == -dx2 && x == -dx);
            assert(d * (-dx2) == -(d * dx2) && (-dx) * r == -(dx * r)) by (nonlinear_arith);
        }
    }
    assert(d * v >= y * r - d * c) by {
        if dy >= 0 {
            assert(v == dy2 && y == dy);
        } else {
            assert(v == -dy2 && y == -dy);
            assert(d * (-dy2) == -(d * dy2) && (-dy) * r == -(dy * r)) by (nonlinear_arith);
        }
    }
    assert(x * x == dx * dx && y * y == dy * dy && u * u == dx2 * dx2 && v * v == dy2 * dy2)
        by (nonlinear_arith)
        requires
            x == dx || x == -dx,
            y == dy || y == -dy,
            u == dx2 || u == -dx2,
            v == dy2 || v == -dy2,
    ;
    lemma_stretched(x, y, u, v, d, r, c);
}

} // verus!
