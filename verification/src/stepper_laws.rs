//! What holds of every step that the stepper takes.
use crate::fixed::Fixed;
use crate::fixed::lemma_floor_div_unique;
use crate::fixed::lemma_isqrt_square;
use crate::fixed::SCALE;
use crate::particle::Particle;
use crate::state::friction_valid;
use crate::stepper::after_left_wall;
use crate::stepper::after_pairs;
use crate::stepper::after_right_wall;
use crate::stepper::after_turn;
use crate::stepper::after_turns;
use crate::stepper::collided;
use crate::stepper::distance;
use crate::stepper::impulse;
use crate::stepper::in_contact;
use crate::stepper::integrated;
use crate::stepper::lemma_after_pairs_shapes;
use crate::stepper::lemma_after_turns_shapes;
use crate::stepper::moved;
use crate::stepper::normal;
use crate::stepper::overlap;
use crate::stepper::Physics;
use crate::stepper::sub_stepped;
use crate::stepper::walled;
use crate::vec2::NORMALIZE_MIN;
use crate::vec2::Vec2;
use vstd::prelude::*;

verus! {

/// Whether the playfield is wide and high enough for the disc.
pub open spec fn fits(p: Particle, world: Vec2) -> bool {
    &&& 2 * p.radius.raw <= world.x.raw
    &&& 2 * p.radius.raw <= world.y.raw
}

/// Whether the whole disc lies inside the playfield.
pub open spec fn contained(p: Particle, world: Vec2) -> bool {
    &&& p.radius.raw <= p.pos.x.raw <= world.x.raw - p.radius.raw
    &&& p.radius.raw <= p.pos.y.raw <= world.y.raw - p.radius.raw
}

/// The population at the moment when particle `i` has moved in its turn
/// and is about to meet the later particles.
pub open spec fn at_turn(ps: Seq<Particle>, i: int, world: Vec2, physics: Physics, h: Fixed) -> Seq<
    Particle,
> {
    let s = after_turns(ps, i, world, physics, h);
    s.update(i, moved(s[i], world, physics, h))
}

/// Whether particle `i` touches no later particle in its turn, so that no
/// contact moves it after the walls have held it.
pub open spec fn undisturbed(ps: Seq<Particle>, i: int, world: Vec2, physics: Physics, h: Fixed) -> bool {
    forall|j: int|
        i < j < ps.len() ==> !in_contact(
            at_turn(ps, i, world, physics, h)[i],
            #[trigger] at_turn(ps, i, world, physics, h)[j],
        )
}

/// Whether a sub-step that took the population `before` to `after` left
/// inside the playfield every well-formed disc that the playfield is large
/// enough for and that touched no later particle in its turn.
pub open spec fn undisturbed_inside(
    before: Seq<Particle>,
    after: Seq<Particle>,
    world: Vec2,
    physics: Physics,
    h: Fixed,
) -> bool {
    forall|i: int|
        0 <= i < before.len() && before[i].wf() && fits(before[i], world) && undisturbed(
            before,
            i,
            world,
            physics,
            h,
        ) ==> contained(#[trigger] after[i], world)
}

/// Whether the two velocities after a contact add up to what they added up
/// to before.
pub open spec fn momentum_kept(a: Particle, b: Particle, a2: Particle, b2: Particle) -> bool {
    &&& a2.vel.x.raw + b2.vel.x.raw == a.vel.x.raw + b.vel.x.raw
    &&& a2.vel.y.raw + b2.vel.y.raw == a.vel.y.raw + b.vel.y.raw
}

/// Whether, along each axis, the second centre is at least as far from the
/// first after a contact, on the same side, as it was before.
pub open spec fn never_closer(a: Particle, b: Particle, a2: Particle, b2: Particle) -> bool {
    &&& b.pos.x.raw >= a.pos.x.raw ==> b2.pos.x.raw - a2.pos.x.raw >= b.pos.x.raw - a.pos.x.raw
    &&& b.pos.x.raw <= a.pos.x.raw ==> b2.pos.x.raw - a2.pos.x.raw <= b.pos.x.raw - a.pos.x.raw
    &&& b.pos.y.raw >= a.pos.y.raw ==> b2.pos.y.raw - a2.pos.y.raw >= b.pos.y.raw - a.pos.y.raw
    &&& b.pos.y.raw <= a.pos.y.raw ==> b2.pos.y.raw - a2.pos.y.raw <= b.pos.y.raw - a.pos.y.raw
}

/// The wall contact leaves a disc inside a playfield that is large enough
/// for it.
pub proof fn lemma_walled_contained(p: Particle, world: Vec2, physics: Physics)
    requires
        p.wf(),
        fits(p, world),
    ensures
        contained(walled(p, world, physics), world),
        walled(p, world, physics).radius == p.radius,
{
}

/// Pairs without contact leave the population as it is.
pub proof fn lemma_pairs_without_contact(m: Seq<Particle>, i: int, j: int, physics: Physics)
    requires
        0 <= i < j <= m.len(),
        forall|k: int| i < k < j ==> !in_contact(m[i], #[trigger] m[k]),
    ensures
        after_pairs(m, i, j, physics) == m,
    decreases j - i,
{
    reveal(collided);
    if j > i + 1 {
        lemma_pairs_without_contact(m, i, j - 1, physics);
        assert(!in_contact(m[i], m[j - 1]));
        assert(m.update(i, m[i]).update(j - 1, m[j - 1]) =~= m);
    }
}

/// The pairs of particle `k` leave every earlier particle as it is.
pub proof fn lemma_pairs_keep_earlier(m: Seq<Particle>, k: int, j: int, physics: Physics, i: int)
    requires
        0 <= i < k,
        i < m.len(),
    ensures
        after_pairs(m, k, j, physics)[i] == m[i],
    decreases j - k,
{
    if j > k + 1 {
        lemma_pairs_keep_earlier(m, k, j - 1, physics, i);
        lemma_after_pairs_shapes(m, k, j - 1, physics);
    }
}

/// Once particle `i` has had its turn, the turns of the later particles
/// leave it as it is.
pub proof fn lemma_turns_keep_earlier(
    ps: Seq<Particle>,
    k: int,
    world: Vec2,
    physics: Physics,
    h: Fixed,
    i: int,
)
    requires
        0 <= i < k,
        i < ps.len(),
    ensures
        after_turns(ps, k, world, physics, h)[i] == after_turns(ps, i + 1, world, physics, h)[i],
    decreases k,
{
    if k > i + 1 {
        lemma_turns_keep_earlier(ps, k - 1, world, physics, h, i);
        let s = after_turns(ps, k - 1, world, physics, h);
        lemma_after_turns_shapes(ps, k - 1, world, physics, h);
        if k - 1 < s.len() {
            lemma_pairs_keep_earlier(
                s.update(k - 1, moved(s[k - 1], world, physics, h)),
                k - 1,
                s.len() as int,
                physics,
                i,
            );
        }
    }
}

/// Containment after a sub-step: a disc that the playfield is large enough
/// for, and that touches no later particle in its turn, lies inside the
/// playfield when the sub-step ends.
pub proof fn lemma_sub_step_contained(
    ps: Seq<Particle>,
    world: Vec2,
    physics: Physics,
    h: Fixed,
    i: int,
)
    requires
        0 <= i < ps.len(),
        ps[i].wf(),
        fits(ps[i], world),
        undisturbed(ps, i, world, physics, h),
    ensures
        contained(sub_stepped(ps, world, physics, h)[i], world),
        sub_stepped(ps, world, physics, h)[i] == at_turn(ps, i, world, physics, h)[i],
{
    reveal(moved);
    let s = after_turns(ps, i, world, physics, h);
    lemma_after_turns_shapes(ps, i, world, physics, h);
    let m = at_turn(ps, i, world, physics, h);
    assert(s[i].radius == ps[i].radius);
    lemma_walled_contained(integrated(s[i], physics.gravity, h), world, physics);
    assert forall|k: int| i < k < m.len() implies !in_contact(m[i], #[trigger] m[k]) by {
    }
    lemma_pairs_without_contact(m, i, m.len() as int, physics);
    assert(after_turns(ps, i + 1, world, physics, h) == after_turn(s, i, world, physics, h));
    lemma_turns_keep_earlier(ps, ps.len() as int, world, physics, h, i);
}

/// Containment after a sub-step, for the whole population at once.
pub proof fn lemma_sub_step_undisturbed_inside(
    ps: Seq<Particle>,
    world: Vec2,
    physics: Physics,
    h: Fixed,
)
    ensures
        undisturbed_inside(ps, sub_stepped(ps, world, physics, h), world, physics, h),
{
    let after = sub_stepped(ps, world, physics, h);
    assert forall|i: int|
        0 <= i < ps.len() && ps[i].wf() && fits(ps[i], world) && undisturbed(
            ps,
            i,
            world,
            physics,
            h,
        ) implies contained(#[trigger] after[i], world) by {
        lemma_sub_step_contained(ps, world, physics, h, i);
    }
}

/// The last particle of a population meets no later one, so a sub-step
/// always leaves it inside a playfield that is large enough for it.
pub proof fn lemma_sub_step_last_contained(ps: Seq<Particle>, world: Vec2, physics: Physics, h: Fixed)
    requires
        ps.len() > 0,
        ps.last().wf(),
        fits(ps.last(), world),
    ensures
        contained(sub_stepped(ps, world, physics, h).last(), world),
{
    lemma_after_turns_shapes(ps, ps.len() as int, world, physics, h);
    lemma_sub_step_contained(ps, world, physics, h, ps.len() - 1);
}

/// Whether resolving the pair changes the two velocities by opposite
/// amounts: the sums that give them stay within what a number can hold.
pub open spec fn exchange_exact(a: Particle, b: Particle, physics: Physics) -> bool {
    let g = impulse(a, b, physics);
    in_contact(a, b) ==> {
        &&& i64::MIN <= a.vel.x.raw + g.x.raw <= i64::MAX
        &&& i64::MIN <= a.vel.y.raw + g.y.raw <= i64::MAX
        &&& i64::MIN <= b.vel.x.raw - g.x.raw <= i64::MAX
        &&& i64::MIN <= b.vel.y.raw - g.y.raw <= i64::MAX
    }
}

/// Conservation of momentum: resolving a pair leaves the sum of the two
/// velocities as it was, whenever no velocity saturates.
pub proof fn lemma_collided_momentum(a: Particle, b: Particle, physics: Physics)
    requires
        exchange_exact(a, b, physics),
    ensures
        momentum_kept(a, b, collided(a, b, physics).0, collided(a, b, physics).1),
{
    reveal(collided);
}

/// The sign of a quotient by a positive divisor is that of the dividend.
pub proof fn lemma_div_sign(x: Fixed, d: Fixed)
    requires
        d.raw > 0,
    ensures
        x.raw >= 0 ==> x.spec_div(d).raw >= 0,
        x.raw <= 0 ==> x.spec_div(d).raw <= 0,
{
    let n = x.raw * SCALE;
    let q = n / (d.raw as int);
    assert((n >= 0 ==> q >= 0) && (n <= 0 ==> q <= 0)) by (nonlinear_arith)
        requires
            d.raw > 0,
            q == n / (d.raw as int),
    ;
}

/// The sign of a product with a factor that is not negative is that of the
/// other factor.
pub proof fn lemma_mul_sign(x: Fixed, k: Fixed)
    requires
        k.raw >= 0,
    ensures
        x.raw >= 0 ==> x.spec_mul(k).raw >= 0,
        x.raw <= 0 ==> x.spec_mul(k).raw <= 0,
{
    let n = x.raw * k.raw;
    assert((x.raw >= 0 ==> n >= 0) && (x.raw <= 0 ==> n <= 0)) by (nonlinear_arith)
        requires
            k.raw >= 0,
            n == x.raw * k.raw,
    ;
}

/// Resolving a pair never brings the two centres closer: along each axis
/// the second centre ends at least as far from the first, on the same
/// side, as it began.
pub proof fn lemma_collided_separates(a: Particle, b: Particle, physics: Physics)
    ensures
        never_closer(a, b, collided(a, b, physics).0, collided(a, b, physics).1),
{
    reveal(collided);
    if in_contact(a, b) {
        let delta = b.pos.spec_sub(a.pos);
        let dist = delta.spec_length();
        let reach = overlap(a, b);
        assert(dist.raw >= NORMALIZE_MIN);
        let n = delta.spec_normalize();
        assert(n == delta.spec_div(dist));
        lemma_div_sign(delta.x, dist);
        lemma_div_sign(delta.y, dist);
        lemma_mul_sign(n.x, reach);
        lemma_mul_sign(n.y, reach);
    }
}

/// A particle that lies on the floor and does not rise once gravity has
/// acted stays on the floor through its own motion in a sub-step.
pub proof fn lemma_rest_is_kept(p: Particle, world: Vec2, physics: Physics, h: Fixed)
    requires
        p.wf(),
        fits(p, world),
        friction_valid(physics.friction),
        h.raw >= 0,
        p.pos.y.raw == world.y.raw - p.radius.raw,
        integrated(p, physics.gravity, h).vel.y.raw >= 0,
    ensures
        moved(p, world, physics, h).pos.y.raw == world.y.raw - p.radius.raw,
{
    reveal(moved);
    let q = integrated(p, physics.gravity, h);
    lemma_mul_sign(q.vel.y, h);
    assert(q.pos.y.raw >= p.pos.y.raw);
}

/// A product with a factor between zero and one lies between zero and the
/// other factor.
pub proof fn lemma_mul_shrinks(x: Fixed, k: Fixed)
    requires
        0 <= k.raw <= SCALE,
        x.raw >= 0,
    ensures
        0 <= x.spec_mul(k).raw <= x.raw,
{
    let n = x.raw * k.raw;
    assert(0 <= n <= x.raw * SCALE) by (nonlinear_arith)
        requires
            0 <= k.raw <= SCALE,
            x.raw >= 0,
            n == x.raw * k.raw,
    ;
}

/// A product with the opposite of a factor between zero and one lies
/// between the opposite of the other factor and zero.
pub proof fn lemma_mul_reverses(x: Fixed, e: Fixed)
    requires
        0 <= e.raw <= SCALE,
        x.raw >= 0,
    ensures
        -x.raw <= x.spec_mul(e.spec_neg()).raw <= 0,
{
    let k = e.spec_neg();
    let n = x.raw * k.raw;
    assert(-(x.raw * SCALE) <= n <= 0) by (nonlinear_arith)
        requires
            -SCALE <= k.raw <= 0,
            x.raw >= 0,
            n == x.raw * k.raw,
    ;
}

/// A particle that lies on the floor, does not rise, and does not rise
/// once gravity has acted either, keeps a vertical speed of at most what
/// gravity adds in one sub-step: the shorter the sub-steps, the slower a
/// resting particle trembles.
pub proof fn lemma_rest_is_slow(p: Particle, world: Vec2, physics: Physics, h: Fixed)
    requires
        p.wf(),
        fits(p, world),
        friction_valid(physics.friction),
        0 <= physics.elasticity.raw <= SCALE,
        h.raw >= 0,
        p.pos.y.raw == world.y.raw - p.radius.raw,
        p.vel.y.raw <= 0,
        integrated(p, physics.gravity, h).vel.y.raw >= 0,
    ensures
        moved(p, world, physics, h).pos.y.raw == world.y.raw - p.radius.raw,
        -physics.gravity.y.spec_mul(h).raw <= moved(p, world, physics, h).vel.y.raw
            <= physics.gravity.y.spec_mul(h).raw,
{
    reveal(moved);
    lemma_rest_is_kept(p, world, physics, h);
    let q = integrated(p, physics.gravity, h);
    let one = Fixed { raw: SCALE };
    let q1 = after_right_wall(q, world.x, physics);
    lemma_mul_shrinks(q.vel.y, one.spec_sub(physics.friction));
    assert(0 <= q1.vel.y.raw <= q.vel.y.raw);
    let q2 = after_left_wall(q1, physics);
    lemma_mul_shrinks(q1.vel.y, one.spec_sub(physics.friction));
    assert(0 <= q2.vel.y.raw <= q.vel.y.raw);
    lemma_mul_reverses(q2.vel.y, physics.elasticity);
}

/// Head-on elastic contact: when two particles in contact lie on one
/// horizontal line, nothing is lost to the contact or to friction, and
/// their horizontal velocities differ by an even number of raw units that
/// a number can hold, the contact exchanges the horizontal velocities and
/// leaves the vertical ones. The kinetic energy of the pair is then
/// exactly what it was.
pub proof fn lemma_head_on_exchange(a: Particle, b: Particle, physics: Physics)
    requires
        in_contact(a, b),
        a.pos.y == b.pos.y,
        physics.elasticity.raw == SCALE,
        physics.friction.raw == 0,
        i64::MIN <= b.vel.x.raw - a.vel.x.raw <= i64::MAX,
        (b.vel.x.raw - a.vel.x.raw) % 2 == 0,
    ensures
        collided(a, b, physics).0.vel == (Vec2 { x: b.vel.x, y: a.vel.y }),
        collided(a, b, physics).1.vel == (Vec2 { x: a.vel.x, y: b.vel.y }),
{
    reveal(collided);
    let delta = b.pos.spec_sub(a.pos);
    let dist = distance(a, b);
    let dx = delta.x.raw as int;
    assert(delta.y.raw == 0);
    assert(delta.norm_squared() == (dx * dx) as nat) by (nonlinear_arith)
        requires
            delta.norm_squared() == (delta.x.raw * delta.x.raw + delta.y.raw * delta.y.raw) as nat,
            delta.y.raw == 0,
            dx == delta.x.raw,
    ;
    lemma_isqrt_square(dx);
    assert(dist.raw < i64::MAX);
    assert(dist.raw == if dx < 0 {
        -dx
    } else {
        dx
    });
    let n = normal(a, b);
    assert(n == delta.spec_div(dist));
    let d = dist.raw as int;
    if dx > 0 {
        assert(SCALE * d <= dx * SCALE < (SCALE + 1) * d) by (nonlinear_arith)
            requires
                dx == d,
                d > 0,
        ;
        lemma_floor_div_unique(dx * SCALE, d, SCALE as int);
        assert(n.x.raw == SCALE);
    } else {
        assert((-SCALE) * d <= dx * SCALE < (-SCALE + 1) * d) by (nonlinear_arith)
            requires
                dx == -d,
                d > 0,
        ;
        lemma_floor_div_unique(dx * SCALE, d, -SCALE);
        assert(n.x.raw == -SCALE);
    }
    assert(0 * SCALE / d == 0) by (nonlinear_arith)
        requires
            d > 0,
    ;
    assert(n.y.raw == 0);
    let rel = b.vel.spec_sub(a.vel).spec_half();
    let rx = rel.x.raw as int;
    assert(2 * rx == b.vel.x.raw - a.vel.x.raw);
    let s = n.spec_dot(rel);
    assert(n.x.spec_mul(rel.x).raw == if dx > 0 {
        rx
    } else {
        -rx
    }) by {
        assert((SCALE * rx) / (SCALE as int) == rx);
        assert(((-SCALE) * rx) / (SCALE as int) == -rx);
        assert(n.x.raw * rel.x.raw == if dx > 0 {
            SCALE * rx
        } else {
            (-SCALE) * rx
        }) by (nonlinear_arith)
            requires
                n.x.raw == (if dx > 0 {
                    SCALE as int
                } else {
                    -SCALE
                }),
                rel.x.raw == rx,
        ;
    }
    assert(n.y.spec_mul(rel.y).raw == 0) by {
        assert(n.y.raw * rel.y.raw == 0) by (nonlinear_arith)
            requires
                n.y.raw == 0,
        ;
    }
    assert(s.raw == if dx > 0 {
        rx
    } else {
        -rx
    });
    let vn = n.spec_scale(s);
    assert(vn.x.raw == rx) by {
        assert((SCALE * rx) / (SCALE as int) == rx);
        assert(n.x.raw * s.raw == SCALE * rx) by (nonlinear_arith)
            requires
                (n.x.raw == SCALE && s.raw == rx) || (n.x.raw == -SCALE && s.raw == -rx),
        ;
    }
    assert(vn.y.raw == 0) by {
        assert(n.y.raw * s.raw == 0) by (nonlinear_arith)
            requires
                n.y.raw == 0,
        ;
    }
    let vt = rel.spec_sub(vn);
    assert(vt.x.raw == 0 && vt.y == rel.y);
    let kept = vn.spec_scale(physics.elasticity);
    assert(kept == vn) by {
        assert((vn.x.raw * SCALE) / (SCALE as int) == vn.x.raw);
        assert((vn.y.raw * SCALE) / (SCALE as int) == vn.y.raw);
    }
    let one_less = (Fixed { raw: SCALE }).spec_sub(physics.friction);
    assert(one_less.raw == SCALE);
    let slid = vt.spec_scale(one_less);
    assert(slid == vt) by {
        assert((vt.x.raw * SCALE) / (SCALE as int) == vt.x.raw);
        assert((vt.y.raw * SCALE) / (SCALE as int) == vt.y.raw);
    }
    let g = impulse(a, b, physics);
    assert(g == rel.spec_add(kept).spec_sub(slid));
    assert(g.x.raw == 2 * rx);
    assert(g.y.raw == 0);
}

} // verus!
