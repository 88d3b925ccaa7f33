//! Dragging particles with the pointer.
use crate::fixed::Fixed;
use crate::particle::Particle;
use crate::vec2::Vec2;
use vstd::prelude::*;

verus! {

/// What the host reports of the pointer: its position in pixels, its
/// movement since the last frame as a fraction of the viewport, and whether
/// its primary button is held.
#[derive(Clone, Copy, Debug, PartialEq, Eq, Structural)]
pub struct Pointer {
    pub pos: Vec2,
    pub delta: Vec2,
    pub down: bool,
}

/// Whether the pointer lies on the particle: its distance from the centre
/// is less than the radius.
pub open spec fn grabs(pointer: Pointer, p: Particle) -> bool {
    pointer.pos.spec_sub(p.pos).spec_length().raw < p.radius.raw
}

/// The velocity that a dragged particle takes: the pointer's movement,
/// reversed, brought to pixels by the size of the viewport, divided by the
/// duration of the frame, and halved.
pub open spec fn drag_velocity(pointer: Pointer, world: Vec2, dt: Fixed) -> Vec2
    recommends
        dt.raw != 0,
{
    pointer.delta.spec_neg().spec_mul(world).spec_div(dt).spec_half()
}

/// The particle after the drag: moved under the pointer if the button is
/// held and the pointer lies on it, unchanged otherwise.
pub open spec fn dragged(p: Particle, pointer: Pointer, world: Vec2, dt: Fixed) -> Particle {
    if pointer.down && grabs(pointer, p) {
        Particle {
            pos: pointer.pos,
            vel: drag_velocity(pointer, world, dt),
            radius: p.radius,
            color: p.color,
        }
    } else {
        p
    }
}

/// The population after the drag; every particle under the pointer is
/// taken along.
pub open spec fn dragged_all(ps: Seq<Particle>, pointer: Pointer, world: Vec2, dt: Fixed) -> Seq<
    Particle,
> {
    Seq::new(ps.len(), |i: int| dragged(ps[i], pointer, world, dt))
}

/// Applies the pointer to the population for a frame of duration `dt` in a
/// viewport of size `world`.
pub fn drag(particles: &mut Vec<Particle>, pointer: &Pointer, world: Vec2, dt: Fixed)
    requires
        dt.raw != 0,
    ensures
        final(particles)@ == dragged_all(old(particles)@, *pointer, world, dt),
{
    let n = particles.len();
    let mut i: usize = 0;
    while i < n
        invariant
            i <= n,
            dt.raw != 0,
            particles.len() == n,
            old(particles).len() == n,
            forall|k: int| 0 <= k < i ==> particles[k] == dragged(old(particles)[k], *pointer, world, dt),
            forall|k: int| i <= k < n ==> particles[k] == old(particles)[k],
        decreases n - i,
    {
        let p = particles[i];
        if pointer.down && pointer.pos.sub(p.pos).length().raw < p.radius.raw {
            let vel = pointer.delta.neg().mul(world).div(dt).half();
            particles.set(i, Particle { pos: pointer.pos, vel: vel, radius: p.radius, color: p.color });
        }
        i += 1;
    }
    assert(particles@ =~= dragged_all(old(particles)@, *pointer, world, dt));
}

} // verus!
