//! The fixed-timestep stepper: gravity, wall contact and pair collisions.
use crate::contact_laws::lemma_collided_touching;
use crate::contact_laws::resolves_exactly;
use crate::contact_laws::touching;
use crate::energy_laws::elastic;
use crate::energy_laws::energy_kept;
use crate::energy_laws::lemma_elastic_energy;
use crate::fixed::Fixed;
use crate::fixed::SCALE;
use crate::particle::Particle;
use crate::stepper_laws::contained;
use crate::stepper_laws::exchange_exact;
use crate::stepper_laws::fits;
use crate::stepper_laws::lemma_collided_momentum;
use crate::stepper_laws::lemma_collided_separates;
use crate::stepper_laws::lemma_sub_step_undisturbed_inside;
use crate::stepper_laws::lemma_walled_contained;
use crate::stepper_laws::momentum_kept;
use crate::stepper_laws::never_closer;
use crate::stepper_laws::undisturbed_inside;
use crate::vec2::Vec2;
use vstd::prelude::*;

verus! {

/// Raw distance (0.01 pixel) below which two centres count as coincident
/// and are left alone.
pub const CONTACT_MIN: i64 = 42_949_673;

/// The constants of motion: gravity in pixels per second squared, the
/// fraction of tangential speed that a contact removes, and the fraction of
/// normal speed that a contact keeps.
#[derive(Clone, Copy, Debug, PartialEq, Eq, Structural)]
pub struct Physics {
    pub gravity: Vec2,
    pub friction: Fixed,
    pub elasticity: Fixed,
}

/// The velocity component into a surface after it is reflected:
/// reversed and scaled by the elasticity.
pub open spec fn rebounded(into: Fixed, physics: Physics) -> Fixed {
    into.spec_mul(physics.elasticity.spec_neg())
}

/// The velocity component along a surface after a contact: scaled by one
/// minus the friction.
pub open spec fn damped(along: Fixed, physics: Physics) -> Fixed {
    along.spec_mul((Fixed { raw: SCALE }).spec_sub(physics.friction))
}

/// One step of semi-implicit Euler integration: the velocity gains
/// `gravity * h`, then the position gains the new velocity times `h`.
pub open spec fn integrated(p: Particle, gravity: Vec2, h: Fixed) -> Particle {
    let vel = p.vel.spec_add(gravity.spec_scale(h));
    Particle { pos: p.pos.spec_add(vel.spec_scale(h)), vel: vel, radius: p.radius, color: p.color }
}

/// Whether the disc reaches beyond the right wall at `x = width`.
pub open spec fn crosses_right(p: Particle, width: Fixed) -> bool {
    p.pos.x.raw + p.radius.raw > width.raw
}

/// Whether the disc reaches beyond the left wall at `x = 0`.
pub open spec fn crosses_left(p: Particle) -> bool {
    p.pos.x.raw - p.radius.raw < 0
}

/// Whether the disc reaches beyond the bottom wall at `y = height`.
pub open spec fn crosses_bottom(p: Particle, height: Fixed) -> bool {
    p.pos.y.raw + p.radius.raw > height.raw
}

/// Whether the disc reaches beyond the top wall at `y = 0`.
pub open spec fn crosses_top(p: Particle) -> bool {
    p.pos.y.raw - p.radius.raw < 0
}

/// The particle with its horizontal velocity reflected and its vertical
/// velocity damped, as a contact with a vertical wall leaves it.
pub open spec fn bounced_x(p: Particle, physics: Physics) -> Particle {
    Particle {
        pos: p.pos,
        vel: Vec2 { x: rebounded(p.vel.x, physics), y: damped(p.vel.y, physics) },
        radius: p.radius,
        color: p.color,
    }
}

/// The particle with its vertical velocity reflected and its horizontal
/// velocity damped, as a contact with a horizontal wall leaves it.
pub open spec fn bounced_y(p: Particle, physics: Physics) -> Particle {
    Particle {
        pos: p.pos,
        vel: Vec2 { x: damped(p.vel.x, physics), y: rebounded(p.vel.y, physics) },
        radius: p.radius,
        color: p.color,
    }
}

/// The particle moved to the horizontal position `x`.
pub open spec fn placed_x(p: Particle, x: Fixed) -> Particle {
    Particle { pos: Vec2 { x: x, y: p.pos.y }, vel: p.vel, radius: p.radius, color: p.color }
}

/// The particle moved to the vertical position `y`.
pub open spec fn placed_y(p: Particle, y: Fixed) -> Particle {
    Particle { pos: Vec2 { x: p.pos.x, y: y }, vel: p.vel, radius: p.radius, color: p.color }
}

/// Contact with the right wall: a disc that crosses it is set flush inside,
/// and bounces only if it was moving into the wall.
pub open spec fn after_right_wall(p: Particle, width: Fixed, physics: Physics) -> Particle {
    if crosses_right(p, width) {
        let q = placed_x(p, width.spec_sub(p.radius));
        if p.vel.x.raw > 0 {
            bounced_x(q, physics)
        } else {
            q
        }
    } else {
        p
    }
}

/// Contact with the left wall.
pub open spec fn after_left_wall(p: Particle, physics: Physics) -> Particle {
    if crosses_left(p) {
        let q = placed_x(p, p.radius);
        if p.vel.x.raw < 0 {
            bounced_x(q, physics)
        } else {
            q
        }
    } else {
        p
    }
}

/// Contact with the bottom wall.
pub open spec fn after_bottom_wall(p: Particle, height: Fixed, physics: Physics) -> Particle {
    if crosses_bottom(p, height) {
        let q = placed_y(p, height.spec_sub(p.radius));
        if p.vel.y.raw > 0 {
            bounced_y(q, physics)
        } else {
            q
        }
    } else {
        p
    }
}

/// Contact with the top wall.
pub open spec fn after_top_wall(p: Particle, physics: Physics) -> Particle {
    if crosses_top(p) {
        let q = placed_y(p, p.radius);
        if p.vel.y.raw < 0 {
            bounced_y(q, physics)
        } else {
            q
        }
    } else {
        p
    }
}

/// The four wall checks in their fixed order: right, left, bottom, top.
/// `world` holds the width and the height of the playfield.
pub open spec fn walled(p: Particle, world: Vec2, physics: Physics) -> Particle {
    after_top_wall(
        after_bottom_wall(
            after_left_wall(after_right_wall(p, world.x, physics), physics),
            world.y,
            physics,
        ),
        physics,
    )
}

/// The distance between the centres of `a` and `b`.
pub open spec fn distance(a: Particle, b: Particle) -> Fixed {
    b.pos.spec_sub(a.pos).spec_length()
}

/// By how much the two discs reach into each other; zero or negative when
/// they do not touch.
pub open spec fn overlap(a: Particle, b: Particle) -> Fixed {
    a.radius.spec_add(b.radius).spec_sub(distance(a, b))
}

/// Whether the pair is resolved: the discs overlap and their centres are
/// not coincident.
pub open spec fn in_contact(a: Particle, b: Particle) -> bool {
    overlap(a, b).raw > 0 && distance(a, b).raw >= CONTACT_MIN
}

/// The unit vector from the centre of `a` toward the centre of `b`.
pub open spec fn normal(a: Particle, b: Particle) -> Vec2 {
    b.pos.spec_sub(a.pos).spec_normalize()
}

/// The displacement that moves `b` out of `a`, and whose opposite moves `a`
/// out of `b`: half the overlap along the normal.
pub open spec fn push(a: Particle, b: Particle) -> Vec2 {
    normal(a, b).spec_scale(overlap(a, b)).spec_half()
}

/// The velocity that a contact along the unit vector `n` passes on, where
/// `rel` is half the velocity of the second particle relative to the
/// first. With `vn` the part of `rel` along `n` and `vt` the rest, it is
/// `rel + e * vn - (1 - f) * vt`.
pub open spec fn exchange(n: Vec2, rel: Vec2, physics: Physics) -> Vec2 {
    let vn = n.spec_scale(n.spec_dot(rel));
    let vt = rel.spec_sub(vn);
    rel.spec_add(vn.spec_scale(physics.elasticity)).spec_sub(
        vt.spec_scale((Fixed { raw: SCALE }).spec_sub(physics.friction)),
    )
}

/// The velocity that a contact gives to `a` and takes from `b`.
pub open spec fn impulse(a: Particle, b: Particle, physics: Physics) -> Vec2 {
    exchange(normal(a, b), b.vel.spec_sub(a.vel).spec_half(), physics)
}

/// The two particles after their contact, if any, is resolved.
#[verifier::opaque]
pub open spec fn collided(a: Particle, b: Particle, physics: Physics) -> (Particle, Particle) {
    if in_contact(a, b) {
        (
            Particle {
                pos: a.pos.spec_sub(push(a, b)),
                vel: a.vel.spec_add(impulse(a, b, physics)),
                radius: a.radius,
                color: a.color,
            },
            Particle {
                pos: b.pos.spec_add(push(a, b)),
                vel: b.vel.spec_sub(impulse(a, b, physics)),
                radius: b.radius,
                color: b.color,
            },
        )
    } else {
        (a, b)
    }
}

/// The population after the pair `(i, j)` is resolved in place. Indices
/// that name no pair leave it unchanged.
pub open spec fn pair_resolved(ps: Seq<Particle>, i: int, j: int, physics: Physics) -> Seq<
    Particle,
> {
    if 0 <= i < j < ps.len() {
        let c = collided(ps[i], ps[j], physics);
        ps.update(i, c.0).update(j, c.1)
    } else {
        ps
    }
}

/// The population after the pairs `(i, i + 1)`, ..., `(i, j - 1)` are
/// resolved in that order.
pub open spec fn after_pairs(ps: Seq<Particle>, i: int, j: int, physics: Physics) -> Seq<Particle>
    decreases j - i,
{
    if j <= i + 1 {
        ps
    } else {
        pair_resolved(after_pairs(ps, i, j - 1, physics), i, j - 1, physics)
    }
}

/// The particle after its own motion in a sub-step: integrated, then held
/// inside the walls.
#[verifier::opaque]
pub open spec fn moved(p: Particle, world: Vec2, physics: Physics, h: Fixed) -> Particle {
    walled(integrated(p, physics.gravity, h), world, physics)
}

/// The population after particle `i` takes its turn: it is integrated and
/// held inside the walls, then resolved against every later particle. An
/// index that names no particle leaves the population unchanged.
pub open spec fn after_turn(ps: Seq<Particle>, i: int, world: Vec2, physics: Physics, h: Fixed) -> Seq<
    Particle,
> {
    if 0 <= i < ps.len() {
        after_pairs(ps.update(i, moved(ps[i], world, physics, h)), i, ps.len() as int, physics)
    } else {
        ps
    }
}

/// The population after the particles `0`, ..., `k - 1` have taken their
/// turns in ascending order.
pub open spec fn after_turns(ps: Seq<Particle>, k: int, world: Vec2, physics: Physics, h: Fixed) -> Seq<
    Particle,
>
    decreases k,
{
    if k <= 0 {
        ps
    } else {
        after_turn(after_turns(ps, k - 1, world, physics, h), k - 1, world, physics, h)
    }
}

/// The population after one sub-step of duration `h`.
pub open spec fn sub_stepped(ps: Seq<Particle>, world: Vec2, physics: Physics, h: Fixed) -> Seq<
    Particle,
> {
    after_turns(ps, ps.len() as int, world, physics, h)
}

/// The population after `n` sub-steps of duration `h` each.
pub open spec fn after_sub_steps(
    ps: Seq<Particle>,
    n: nat,
    world: Vec2,
    physics: Physics,
    h: Fixed,
) -> Seq<Particle>
    decreases n,
{
    if n == 0 {
        ps
    } else {
        sub_stepped(after_sub_steps(ps, (n - 1) as nat, world, physics, h), world, physics, h)
    }
}

/// Whether two populations hold as many particles, with the same radii and
/// colours in the same places.
pub open spec fn same_shapes(a: Seq<Particle>, b: Seq<Particle>) -> bool {
    &&& a.len() == b.len()
    &&& forall|i: int|
        0 <= i < a.len() ==> (#[trigger] a[i]).radius == b[i].radius && a[i].color == b[i].color
}

/// Resolving pairs changes neither the number of particles nor their radii
/// and colours.
pub proof fn lemma_after_pairs_shapes(ps: Seq<Particle>, i: int, j: int, physics: Physics)
    ensures
        same_shapes(after_pairs(ps, i, j, physics), ps),
    decreases j - i,
{
    reveal(collided);
    if j > i + 1 {
        lemma_after_pairs_shapes(ps, i, j - 1, physics);
    }
}

/// Turns change neither the number of particles nor their radii and
/// colours.
pub proof fn lemma_after_turns_shapes(
    ps: Seq<Particle>,
    k: int,
    world: Vec2,
    physics: Physics,
    h: Fixed,
)
    ensures
        same_shapes(after_turns(ps, k, world, physics, h), ps),
    decreases k,
{
    reveal(moved);
    if k > 0 {
        lemma_after_turns_shapes(ps, k - 1, world, physics, h);
        let prev = after_turns(ps, k - 1, world, physics, h);
        if k - 1 < prev.len() {
            lemma_after_pairs_shapes(
                prev.update(k - 1, moved(prev[k - 1], world, physics, h)),
                k - 1,
                prev.len() as int,
                physics,
            );
        }
    }
}

/// Sub-steps change neither the number of particles nor their radii and
/// colours.
pub proof fn lemma_after_sub_steps_shapes(
    ps: Seq<Particle>,
    n: nat,
    world: Vec2,
    physics: Physics,
    h: Fixed,
)
    ensures
        same_shapes(after_sub_steps(ps, n, world, physics, h), ps),
    decreases n,
{
    if n > 0 {
        lemma_after_sub_steps_shapes(ps, (n - 1) as nat, world, physics, h);
        let prev = after_sub_steps(ps, (n - 1) as nat, world, physics, h);
        lemma_after_turns_shapes(prev, prev.len() as int, world, physics, h);
    }
}

/// Advances one particle by gravity over the duration `h`.
pub fn integrate(p: Particle, gravity: Vec2, h: Fixed) -> (r: Particle)
    ensures
        r == integrated(p, gravity, h),
{
    let vel = p.vel.add(gravity.scale(h));
    Particle { pos: p.pos.add(vel.scale(h)), vel: vel, radius: p.radius, color: p.color }
}

/// Reflects the velocity component `into` a surface.
pub fn rebound(into: Fixed, physics: &Physics) -> (r: Fixed)
    ensures
        r == rebounded(into, *physics),
{
    into.mul(physics.elasticity.neg())
}

/// Damps the velocity component `along` a surface.
pub fn damp(along: Fixed, physics: &Physics) -> (r: Fixed)
    ensures
        r == damped(along, *physics),
{
    along.mul(Fixed::one().sub(physics.friction))
}

/// Holds one particle inside the playfield `(0, 0)`-`(world.x, world.y)`:
/// where the disc crosses a wall its centre is set flush inside, and where
/// it was also moving into that wall its velocity is reflected there. A
/// disc that the playfield is large enough for ends inside it.
pub fn resolve_walls(p: Particle, world: Vec2, physics: &Physics) -> (r: Particle)
    ensures
        r == walled(p, world, *physics),
        p.wf() && fits(p, world) ==> contained(r, world),
{
    proof {
        if p.wf() && fits(p, world) {
            lemma_walled_contained(p, world, *physics);
        }
    }
    let mut q = p;
    if q.pos.x.raw as i128 + q.radius.raw as i128 > world.x.raw as i128 {
        q.pos.x = world.x.sub(q.radius);
        if q.vel.x.raw > 0 {
            q.vel = Vec2 { x: rebound(q.vel.x, physics), y: damp(q.vel.y, physics) };
        }
    }
    assert(q == after_right_wall(p, world.x, *physics));
    let ghost q1 = q;
    if (q.pos.x.raw as i128) - (q.radius.raw as i128) < 0 {
        q.pos.x = q.radius;
        if q.vel.x.raw < 0 {
            q.vel = Vec2 { x: rebound(q.vel.x, physics), y: damp(q.vel.y, physics) };
        }
    }
    assert(q == after_left_wall(q1, *physics));
    let ghost q2 = q;
    if q.pos.y.raw as i128 + q.radius.raw as i128 > world.y.raw as i128 {
        q.pos.y = world.y.sub(q.radius);
        if q.vel.y.raw > 0 {
            q.vel = Vec2 { x: damp(q.vel.x, physics), y: rebound(q.vel.y, physics) };
        }
    }
    assert(q == after_bottom_wall(q2, world.y, *physics));
    let ghost q3 = q;
    if (q.pos.y.raw as i128) - (q.radius.raw as i128) < 0 {
        q.pos.y = q.radius;
        if q.vel.y.raw < 0 {
            q.vel = Vec2 { x: damp(q.vel.x, physics), y: rebound(q.vel.y, physics) };
        }
    }
    assert(q == after_top_wall(q3, *physics));
    q
}

/// Resolves the contact of two particles, if there is one: each is pushed
/// half the overlap away from the other along the line of centres, and the
/// impulse is added to the first and taken from the second. The centres
/// never end closer than they were; where the positions do not saturate
/// they end as far apart as the radii ask, up to rounding; where the
/// velocities do not saturate their sum is kept; and an elastic contact
/// keeps the kinetic energy up to one part in ten thousand.
pub fn resolve_pair(a: Particle, b: Particle, physics: &Physics) -> (r: (Particle, Particle))
    ensures
        r == collided(a, b, *physics),
        never_closer(a, b, r.0, r.1),
        in_contact(a, b) && resolves_exactly(a, b) ==> touching(a, b, r.0, r.1),
        exchange_exact(a, b, *physics) ==> momentum_kept(a, b, r.0, r.1),
        elastic(a, b, *physics) ==> energy_kept(a, b, r.0, r.1),
{
    proof {
        lemma_collided_separates(a, b, *physics);
        if in_contact(a, b) && resolves_exactly(a, b) {
            lemma_collided_touching(a, b, *physics);
        }
        if exchange_exact(a, b, *physics) {
            lemma_collided_momentum(a, b, *physics);
        }
        if elastic(a, b, *physics) {
            lemma_elastic_energy(a, b, *physics);
        }
        reveal(collided);
    }
    let delta = b.pos.sub(a.pos);
    let dist = delta.length();
    let reach = a.radius.add(b.radius).sub(dist);
    if reach.raw <= 0 || dist.raw < CONTACT_MIN {
        return (a, b);
    }
    let n = delta.normalize();
    let rel = b.vel.sub(a.vel).half();
    let shift = n.scale(reach).half();
    let vn = n.scale(n.dot(rel));
    let vt = rel.sub(vn);
    let gain = rel.add(vn.scale(physics.elasticity)).sub(
        vt.scale(Fixed::one().sub(physics.friction)),
    );
    (
        Particle { pos: a.pos.sub(shift), vel: a.vel.add(gain), radius: a.radius, color: a.color },
        Particle { pos: b.pos.add(shift), vel: b.vel.sub(gain), radius: b.radius, color: b.color },
    )
}

/// Resolves the pair `(i, j)` of the population in place.
pub fn resolve_pair_at(particles: &mut Vec<Particle>, i: usize, j: usize, physics: &Physics)
    requires
        i < j < old(particles).len(),
    ensures
        final(particles)@ == pair_resolved(old(particles)@, i as int, j as int, *physics),
{
    let pair = resolve_pair(particles[i], particles[j], physics);
    particles.set(i, pair.0);
    particles.set(j, pair.1);
}

/// Lets particle `i` take its turn in a sub-step of duration `h`: it is
/// integrated, held inside the walls, and resolved against each later
/// particle in ascending order.
pub fn take_turn(particles: &mut Vec<Particle>, i: usize, world: Vec2, physics: &Physics, h: Fixed)
    requires
        i < old(particles).len(),
    ensures
        final(particles)@ == after_turn(old(particles)@, i as int, world, *physics, h),
{
    proof {
        reveal(moved);
    }
    let n = particles.len();
    let stepped = resolve_walls(integrate(particles[i], physics.gravity, h), world, physics);
    particles.set(i, stepped);
    let ghost start = particles@;
    let mut j: usize = i + 1;
    while j < n
        invariant
            i < j <= n,
            particles.len() == n,
            start.len() == n,
            particles@ == after_pairs(start, i as int, j as int, *physics),
        decreases n - j,
    {
        resolve_pair_at(particles, i, j, physics);
        j += 1;
    }
}

/// Advances the whole population by one sub-step of duration `h`. The
/// particles take their turns in ascending order, every update being made
/// in place. Every disc that the playfield is large enough for, and that
/// touches no later particle in its turn, ends inside the playfield.
pub fn sub_step(particles: &mut Vec<Particle>, world: Vec2, physics: &Physics, h: Fixed)
    ensures
        final(particles)@ == sub_stepped(old(particles)@, world, *physics, h),
        undisturbed_inside(old(particles)@, final(particles)@, world, *physics, h),
{
    proof {
        lemma_sub_step_undisturbed_inside(old(particles)@, world, *physics, h);
    }
    let n = particles.len();
    let mut i: usize = 0;
    while i < n
        invariant
            i <= n,
            particles.len() == n,
            old(particles).len() == n,
            particles@ == after_turns(old(particles)@, i as int, world, *physics, h),
        decreases n - i,
    {
        proof {
            lemma_after_turns_shapes(old(particles)@, i as int + 1, world, *physics, h);
        }
        take_turn(particles, i, world, physics, h);
        i += 1;
    }
}

/// Advances the whole population by `n` sub-steps of duration `h` each.
pub fn sub_steps(particles: &mut Vec<Particle>, n: usize, world: Vec2, physics: &Physics, h: Fixed)
    ensures
        final(particles)@ == after_sub_steps(old(particles)@, n as nat, world, *physics, h),
{
    let mut k: usize = 0;
    while k < n
        invariant
            k <= n,
            particles@ == after_sub_steps(old(particles)@, k as nat, world, *physics, h),
        decreases n - k,
    {
        sub_step(particles, world, physics, h);
        k += 1;
    }
}

} // verus!
