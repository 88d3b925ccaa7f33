//! What holds of every frame that a state is advanced by.
use crate::control::planned_iterations;
use crate::control::TARGET_RATE;
use crate::fixed::Fixed;
use crate::grid::neighbors;
use crate::grid::strictly_inside;
use crate::grid_laws::close;
use crate::grid_laws::lemma_built_covers;
use crate::grid_laws::lemma_built_lists_once;
use crate::grid_laws::lemma_neighbors_sound;
use crate::grid_laws::listings;
use crate::grid_laws::occurrences;
use crate::input::dragged_all;
use crate::particle::Particle;
use crate::state::Frame;
use crate::state::lemma_updated_wf;
use crate::state::max_radius;
use crate::state::origin;
use crate::state::State;
use crate::state::StateView;
use crate::stepper::after_sub_steps;
use crate::stepper::lemma_after_sub_steps_shapes;
use crate::stepper_laws::contained;
use crate::stepper_laws::fits;
use crate::stepper_laws::lemma_sub_step_contained;
use crate::stepper_laws::undisturbed;
use crate::vec2::Vec2;
use vstd::prelude::*;

verus! {

/// The number of sub-steps that a frame runs.
pub open spec fn iterations(s: StateView, frame: Frame) -> usize {
    planned_iterations(s.last_iter_count, s.effective_dt(frame), TARGET_RATE)
}

/// The duration of each sub-step of a frame.
pub open spec fn step_duration(s: StateView, frame: Frame) -> Fixed {
    s.effective_dt(frame).spec_div_count(iterations(s, frame))
}

/// The population as the last sub-step of a frame finds it.
pub open spec fn before_last_step(s: StateView, frame: Frame) -> Seq<Particle> {
    after_sub_steps(
        dragged_all(s.particles, frame.pointer, frame.world, s.effective_dt(frame)),
        (iterations(s, frame) - 1) as nat,
        frame.world,
        s.physics,
        step_duration(s, frame),
    )
}

/// Whether no contact moves particle `i` in the last sub-step of a frame
/// after the walls have held it.
pub open spec fn settled(s: StateView, frame: Frame, i: int) -> bool {
    undisturbed(before_last_step(s, frame), i, frame.world, s.physics, step_duration(s, frame))
}

/// Whether the population `after` a frame holds inside the playfield every
/// disc that the playfield is large enough for and that no contact moved
/// after the walls held it in the last sub-step.
pub open spec fn settled_inside(s: StateView, frame: Frame, after: Seq<Particle>) -> bool {
    forall|i: int|
        0 <= i < s.particles.len() && fits(s.particles[i], frame.world) && settled(s, frame, i)
            ==> contained(#[trigger] after[i], frame.world)
}

/// Containment: after a frame, every disc that the playfield is large
/// enough for, and that no contact moved after the walls held it in the
/// last sub-step, lies inside the playfield.
pub proof fn lemma_update_contained(s: StateView, frame: Frame, i: int)
    requires
        s.wf(),
        0 <= i < s.particles.len(),
        fits(s.particles[i], frame.world),
        settled(s, frame, i),
    ensures
        contained(s.updated(frame).particles[i], frame.world),
{
    let dt = s.effective_dt(frame);
    let grabbed = dragged_all(s.particles, frame.pointer, frame.world, dt);
    let n = iterations(s, frame);
    let h = step_duration(s, frame);
    let prev = before_last_step(s, frame);
    lemma_after_sub_steps_shapes(grabbed, (n - 1) as nat, frame.world, s.physics, h);
    assert(prev[i].radius == grabbed[i].radius);
    assert(s.particles[i].wf());
    lemma_sub_step_contained(prev, frame.world, s.physics, h, i);
}

/// Containment, for the whole population at once.
pub proof fn lemma_update_settled_inside(s: StateView, frame: Frame)
    requires
        s.wf(),
    ensures
        settled_inside(s, frame, s.updated(frame).particles),
{
    let after = s.updated(frame).particles;
    assert forall|i: int|
        0 <= i < s.particles.len() && fits(s.particles[i], frame.world) && settled(
            s,
            frame,
            i,
        ) implies contained(#[trigger] after[i], frame.world) by {
        lemma_update_contained(s, frame, i);
    }
}

/// Containment of the last particle: no contact moves it after the walls
/// have held it, so every frame leaves it inside a playfield that is large
/// enough for it. A population of one particle is always contained.
pub proof fn lemma_update_last_contained(s: StateView, frame: Frame)
    requires
        s.wf(),
        s.particles.len() > 0,
        fits(s.particles.last(), frame.world),
    ensures
        contained(s.updated(frame).particles[s.particles.len() - 1], frame.world),
{
    let dt = s.effective_dt(frame);
    let grabbed = dragged_all(s.particles, frame.pointer, frame.world, dt);
    let n = iterations(s, frame);
    let h = step_duration(s, frame);
    lemma_after_sub_steps_shapes(grabbed, (n - 1) as nat, frame.world, s.physics, h);
    lemma_update_contained(s, frame, s.particles.len() - 1);
}

/// Covering: after a frame, the leaves of the index list a particle
/// exactly once if its centre lies strictly inside the playfield, and
/// never otherwise.
pub proof fn lemma_update_lists_once(s: StateView, frame: Frame, i: usize)
    requires
        s.wf(),
        s.particles.len() <= usize::MAX,
    ensures
        listings(s.updated(frame).grid.leaves(), i) == if i < s.particles.len() && strictly_inside(
            s.updated(frame).particles[i as int].pos,
            origin(),
            frame.world,
        ) {
            1nat
        } else {
            0nat
        },
{
    lemma_updated_wf(s, frame);
    lemma_built_lists_once(origin(), frame.world, s.updated(frame).particles, i);
}

/// Covering of contained particles: after a frame, every particle whose
/// disc lies inside the playfield is found in exactly one leaf of the
/// index, once.
pub proof fn lemma_update_covers(s: StateView, frame: Frame, i: usize) -> (k: int)
    requires
        s.wf(),
        s.particles.len() <= usize::MAX,
        i < s.particles.len(),
        contained(s.updated(frame).particles[i as int], frame.world),
    ensures
        0 <= k < s.updated(frame).grid.leaves().len(),
        occurrences(s.updated(frame).grid.leaves()[k].particles(), i) == 1,
        forall|j: int|
            0 <= j < s.updated(frame).grid.leaves().len() && j != k ==> !(#[trigger] s.updated(
                frame,
            ).grid.leaves()[j]).particles().contains(i),
{
    lemma_updated_wf(s, frame);
    let ps = s.updated(frame).particles;
    assert(ps[i as int].wf());
    lemma_built_covers(origin(), frame.world, ps, i)
}

/// Soundness of the neighbour query: after a frame, take the leaf that
/// lists a particle `p` and the leaf that lists a particle `q` whose
/// centre is at most the largest radius away from that of `p`. Either they
/// are the same leaf, or `get_neighbors` of the first returns the second.
pub proof fn lemma_update_neighbors_sound(
    s: StateView,
    frame: Frame,
    a: int,
    b: int,
    p: usize,
    q: usize,
)
    requires
        s.wf(),
        s.particles.len() <= usize::MAX,
        0 <= a < s.updated(frame).grid.leaves().len(),
        0 <= b < s.updated(frame).grid.leaves().len(),
        s.updated(frame).grid.leaves()[a].particles().contains(p),
        s.updated(frame).grid.leaves()[b].particles().contains(q),
        close(
            s.updated(frame).particles[p as int].pos,
            s.updated(frame).particles[q as int].pos,
            max_radius(s.updated(frame).particles),
        ),
    ensures
        a == b || neighbors(
            s.updated(frame).grid,
            s.updated(frame).grid.leaves()[a].pos1(),
            s.updated(frame).grid.leaves()[a].pos2(),
            max_radius(s.updated(frame).particles),
        ).contains(s.updated(frame).grid.leaves()[b]),
{
    lemma_updated_wf(s, frame);
    let after = s.updated(frame);
    lemma_neighbors_sound(
        origin(),
        frame.world,
        after.particles,
        max_radius(after.particles),
        a,
        b,
        p,
        q,
    );
}

/// Determinism: two states with the same model, advanced by the same
/// frames, end with the same model and draw the same commands.
pub proof fn lemma_runs_agree(
    first: State,
    second: State,
    frames: Seq<Frame>,
    again: Seq<Frame>,
    show_grid: bool,
)
    requires
        first@ == second@,
        frames.len() == again.len(),
        forall|k: int| 0 <= k < frames.len() ==> frames[k] == again[k],
    ensures
        first@.after_frames(frames) == second@.after_frames(again),
        first@.after_frames(frames).drawn(show_grid) == second@.after_frames(again).drawn(
            show_grid,
        ),
{
    assert(frames =~= again);
}

} // verus!
