//! The simulation state and the frame that advances it.
use crate::control::plan_iterations;
use crate::control::planned_iterations;
use crate::control::TARGET_RATE;
use crate::fixed::Fixed;
use crate::fixed::SCALE;
use crate::grid::built;
use crate::grid::GridCell;
use crate::grid::neighbors;
use crate::grid::Tree;
use crate::grid::views;
use crate::grid_laws::covers;
use crate::grid_laws::lemma_built_covers_all;
use crate::input::drag;
use crate::input::dragged_all;
use crate::input::Pointer;
use crate::particle::Particle;
use crate::render::circles;
use crate::render::DrawCommand;
use crate::render::outlines;
use crate::state_laws::lemma_update_settled_inside;
use crate::state_laws::settled_inside;
use crate::stepper::after_sub_steps;
use crate::stepper::lemma_after_sub_steps_shapes;
use crate::stepper::Physics;
use crate::stepper::sub_steps;
use crate::vec2::Vec2;
use vstd::prelude::*;

verus! {

/// What the host hands over for one frame: the size of the viewport in
/// pixels, the pointer, and the duration of the frame in seconds.
#[derive(Clone, Copy, Debug, PartialEq, Eq, Structural)]
pub struct Frame {
    pub world: Vec2,
    pub pointer: Pointer,
    pub dt: Fixed,
}

/// Why a state could not be made.
#[derive(Clone, Copy, Debug, PartialEq, Eq, Structural)]
pub enum ConfigError {
    /// The friction is not between zero and one.
    FrictionOutOfRange,
    /// The particle at `index` is the first whose radius is not positive.
    NonPositiveRadius { index: usize },
}

/// The upper left corner of every playfield.
pub open spec fn origin() -> Vec2 {
    Vec2 { x: Fixed { raw: 0 }, y: Fixed { raw: 0 } }
}

/// Whether a friction coefficient lies between zero and one.
pub open spec fn friction_valid(friction: Fixed) -> bool {
    0 <= friction.raw <= SCALE
}

/// The duration that stands for the frame before the first one: one step
/// at the target rate.
pub open spec fn nominal_step() -> Fixed {
    Fixed::spec_from_ratio(1, TARGET_RATE as i64)
}

/// The constants of a state that was given none: no gravity, no friction,
/// and four fifths of the normal speed kept in a contact.
pub open spec fn default_physics() -> Physics {
    Physics {
        gravity: Vec2 { x: Fixed { raw: 0 }, y: Fixed { raw: 0 } },
        friction: Fixed { raw: 0 },
        elasticity: Fixed::spec_from_ratio(4, 5),
    }
}

/// The largest radius in a population, zero for an empty one.
pub open spec fn max_radius(ps: Seq<Particle>) -> Fixed
    decreases ps.len(),
{
    if ps.len() == 0 {
        Fixed { raw: 0 }
    } else {
        let rest = max_radius(ps.drop_last());
        if ps.last().radius.raw > rest.raw {
            ps.last().radius
        } else {
            rest
        }
    }
}

/// The mathematical model of a state.
pub struct StateView {
    pub particles: Seq<Particle>,
    pub grid: Tree,
    pub physics: Physics,
    pub last_iter_count: usize,
    pub last_dt: Fixed,
}

impl StateView {
    /// A state is well formed when its friction lies between zero and one,
    /// every radius is positive, and the remembered frame duration is
    /// positive.
    pub open spec fn wf(self) -> bool {
        &&& friction_valid(self.physics.friction)
        &&& forall|i: int| 0 <= i < self.particles.len() ==> (#[trigger] self.particles[i]).wf()
        &&& self.last_dt.raw > 0
    }

    /// The state before the first frame: no sub-step count yet, and an
    /// index that is one empty cell.
    pub open spec fn initial(particles: Seq<Particle>, physics: Physics) -> StateView {
        StateView {
            particles: particles,
            grid: Tree::spec_default(),
            physics: physics,
            last_iter_count: 0,
            last_dt: nominal_step(),
        }
    }

    /// The duration that a frame is run with: its own if that is positive,
    /// and that of the frame before otherwise.
    pub open spec fn effective_dt(self, frame: Frame) -> Fixed {
        if frame.dt.raw > 0 {
            frame.dt
        } else {
            self.last_dt
        }
    }

    /// The state after one frame: the pointer drags, the number of
    /// sub-steps is chosen from that of the frame before, the sub-steps
    /// run, and the index is rebuilt over the viewport.
    pub open spec fn updated(self, frame: Frame) -> StateView {
        let dt = self.effective_dt(frame);
        let n = planned_iterations(self.last_iter_count, dt, TARGET_RATE);
        let ps = after_sub_steps(
            dragged_all(self.particles, frame.pointer, frame.world, dt),
            n as nat,
            frame.world,
            self.physics,
            dt.spec_div_count(n),
        );
        StateView {
            particles: ps,
            grid: built(origin(), frame.world, ps),
            physics: self.physics,
            last_iter_count: n,
            last_dt: dt,
        }
    }

    /// The state after a sequence of frames.
    pub open spec fn after_frames(self, frames: Seq<Frame>) -> StateView
        decreases frames.len(),
    {
        if frames.len() == 0 {
            self
        } else {
            self.after_frames(frames.drop_last()).updated(frames.last())
        }
    }

    /// What `draw` emits for the state.
    pub open spec fn drawn(self, show_grid: bool) -> Seq<DrawCommand> {
        if show_grid {
            circles(self.particles) + outlines(self.grid)
        } else {
            circles(self.particles)
        }
    }
}

/// A frame keeps a state well formed.
pub proof fn lemma_updated_wf(s: StateView, frame: Frame)
    requires
        s.wf(),
    ensures
        s.updated(frame).wf(),
        s.updated(frame).particles.len() == s.particles.len(),
{
    let dt = s.effective_dt(frame);
    let n = planned_iterations(s.last_iter_count, dt, TARGET_RATE);
    let grabbed = dragged_all(s.particles, frame.pointer, frame.world, dt);
    lemma_after_sub_steps_shapes(grabbed, n as nat, frame.world, s.physics, dt.spec_div_count(n));
    let ps = s.updated(frame).particles;
    assert forall|i: int| 0 <= i < ps.len() implies (#[trigger] ps[i]).wf() by {
        assert(ps[i].radius == grabbed[i].radius);
        assert(s.particles[i].wf());
    }
}

/// The simulation: the particles, the index over them, the constants of
/// motion, and what is remembered of the frame before.
#[derive(Debug)]
pub struct State {
    particles: Vec<Particle>,
    grid: GridCell,
    physics: Physics,
    last_iter_count: usize,
    last_dt: Fixed,
}

impl Default for State {
    /// The state without particles or gravity, with no friction and the
    /// default elasticity.
    fn default() -> (state: State)
        ensures
            state.wf(),
            state@ == StateView::initial(Seq::empty(), default_physics()),
    {
        State {
            particles: Vec::new(),
            grid: GridCell::default(),
            physics: Physics {
                gravity: Vec2::zero(),
                friction: Fixed::zero(),
                elasticity: Fixed::from_ratio(4, 5),
            },
            last_iter_count: 0,
            last_dt: Fixed::from_ratio(1, TARGET_RATE as i64),
        }
    }
}

impl View for State {
    type V = StateView;

    closed spec fn view(&self) -> StateView {
        StateView {
            particles: self.particles@,
            grid: self.grid@,
            physics: self.physics,
            last_iter_count: self.last_iter_count,
            last_dt: self.last_dt,
        }
    }
}

impl State {
    /// Whether the state is well formed.
    pub open spec fn wf(&self) -> bool {
        self@.wf()
    }

    /// Makes a state from its particles and constants. The friction must
    /// lie between zero and one and every radius must be positive.
    pub fn new(particles: Vec<Particle>, gravity: Vec2, friction: Fixed, elasticity: Fixed) -> (r:
        Result<State, ConfigError>)
        ensures
            match r {
                Ok(state) => {
                    &&& friction_valid(friction)
                    &&& forall|i: int| 0 <= i < particles.len() ==> (#[trigger] particles[i]).wf()
                    &&& state.wf()
                    &&& state@ == StateView::initial(
                        particles@,
                        Physics { gravity: gravity, friction: friction, elasticity: elasticity },
                    )
                },
                Err(ConfigError::FrictionOutOfRange) => !friction_valid(friction),
                Err(ConfigError::NonPositiveRadius { index }) => {
                    &&& friction_valid(friction)
                    &&& index < particles.len()
                    &&& !particles[index as int].wf()
                    &&& forall|i: int| 0 <= i < index ==> (#[trigger] particles[i]).wf()
                },
            },
    {
        if friction.raw < 0 || friction.raw > SCALE {
            return Err(ConfigError::FrictionOutOfRange);
        }
        let mut i: usize = 0;
        while i < particles.len()
            invariant
                i <= particles.len(),
                friction_valid(friction),
                forall|k: int| 0 <= k < i ==> (#[trigger] particles[k]).wf(),
            decreases particles.len() - i,
        {
            if particles[i].radius.raw <= 0 {
                return Err(ConfigError::NonPositiveRadius { index: i });
            }
            i += 1;
        }
        Ok(
            State {
                particles: particles,
                grid: GridCell::default(),
                physics: Physics { gravity: gravity, friction: friction, elasticity: elasticity },
                last_iter_count: 0,
                last_dt: Fixed::from_ratio(1, TARGET_RATE as i64),
            },
        )
    }

    /// The particles, in their fixed order.
    pub fn particles(&self) -> (ps: &Vec<Particle>)
        ensures
            ps@ == self@.particles,
    {
        &self.particles
    }

    /// The index as the last frame left it.
    pub fn grid(&self) -> (cell: &GridCell)
        ensures
            cell@ == self@.grid,
    {
        &self.grid
    }

    /// The constants of motion.
    pub fn physics(&self) -> (physics: Physics)
        ensures
            physics == self@.physics,
    {
        self.physics
    }

    /// The number of sub-steps that the last frame ran, zero before the
    /// first frame.
    pub fn last_iter_count(&self) -> (n: usize)
        ensures
            n == self@.last_iter_count,
    {
        self.last_iter_count
    }

    /// Advances the simulation by one frame. Afterwards every disc that
    /// the playfield is large enough for, and that no contact moved after
    /// the walls held it in the last sub-step, lies inside the playfield,
    /// and the index lists each particle whose centre lies strictly inside
    /// the playfield exactly once.
    pub fn update(&mut self, frame: &Frame)
        requires
            old(self).wf(),
        ensures
            final(self)@ == old(self)@.updated(*frame),
            final(self).wf(),
            settled_inside(old(self)@, *frame, final(self)@.particles),
            covers(final(self)@.grid, final(self)@.particles, origin(), frame.world),
    {
        proof {
            lemma_updated_wf(self@, *frame);
            lemma_update_settled_inside(self@, *frame);
            assert(self@.particles.len() == self.particles.len());
            lemma_built_covers_all(origin(), frame.world, self@.updated(*frame).particles);
        }
        let dt = if frame.dt.raw > 0 {
            frame.dt
        } else {
            self.last_dt
        };
        let physics = self.physics;
        drag(&mut self.particles, &frame.pointer, frame.world, dt);
        let n = plan_iterations(self.last_iter_count, dt, TARGET_RATE);
        self.last_iter_count = n;
        self.last_dt = dt;
        sub_steps(&mut self.particles, n, frame.world, &physics, dt.div_count(n));
        self.grid = GridCell::new(Vec2::zero(), frame.world, &self.particles);
    }

    /// Advances the simulation by the given frames, in their order.
    pub fn run(&mut self, frames: &Vec<Frame>)
        requires
            old(self).wf(),
        ensures
            final(self)@ == old(self)@.after_frames(frames@),
            final(self).wf(),
    {
        let mut k: usize = 0;
        proof {
            assert(frames@.take(0) =~= Seq::<Frame>::empty());
        }
        while k < frames.len()
            invariant
                k <= frames.len(),
                self.wf(),
                self@ == old(self)@.after_frames(frames@.take(k as int)),
            decreases frames.len() - k,
        {
            proof {
                let next = frames@.take(k as int + 1);
                assert(next.drop_last() =~= frames@.take(k as int));
                assert(next.last() == frames@[k as int]);
            }
            self.update(&frames[k]);
            k += 1;
        }
        proof {
            assert(frames@.take(frames.len() as int) =~= frames@);
        }
    }

    /// The largest radius among the particles.
    pub fn largest_radius(&self) -> (r: Fixed)
        ensures
            r == max_radius(self@.particles),
    {
        let mut best = Fixed::zero();
        let mut i: usize = 0;
        proof {
            assert(self.particles@.take(0) =~= Seq::<Particle>::empty());
        }
        while i < self.particles.len()
            invariant
                i <= self.particles.len(),
                best == max_radius(self.particles@.take(i as int)),
            decreases self.particles.len() - i,
        {
            proof {
                let next = self.particles@.take(i as int + 1);
                assert(next.drop_last() =~= self.particles@.take(i as int));
                assert(next.last() == self.particles@[i as int]);
            }
            if self.particles[i].radius.raw > best.raw {
                best = self.particles[i].radius;
            }
            i += 1;
        }
        proof {
            assert(self.particles@.take(self.particles.len() as int) =~= self.particles@);
        }
        best
    }

    /// The leaves of the index that may hold a particle touching one of
    /// `cell`: every leaf with other corners that meets the rectangle of
    /// `cell` grown by the largest radius.
    pub fn get_neighbors<'a>(&'a self, cell: &GridCell) -> (found: Vec<&'a GridCell>)
        ensures
            views(found@) == neighbors(
                self@.grid,
                cell@.pos1(),
                cell@.pos2(),
                max_radius(self@.particles),
            ),
    {
        let margin = self.largest_radius();
        self.grid.neighbors(cell, margin)
    }

    /// The commands that show the state: one disc for each particle, in
    /// their order, and then, if `show_grid` is set, one outline for each
    /// leaf of the index.
    pub fn draw(&self, show_grid: bool) -> (commands: Vec<DrawCommand>)
        ensures
            commands@ == self@.drawn(show_grid),
    {
        let mut commands: Vec<DrawCommand> = Vec::new();
        let mut i: usize = 0;
        while i < self.particles.len()
            invariant
                i <= self.particles.len(),
                commands@ == circles(self.particles@.take(i as int)),
            decreases self.particles.len() - i,
        {
            commands.push(self.particles[i].draw());
            i += 1;
            assert(commands@ =~= circles(self.particles@.take(i as int)));
        }
        assert(self.particles@.take(self.particles.len() as int) =~= self.particles@);
        if show_grid {
            let mut cells = self.grid.draw();
            commands.append(&mut cells);
        }
        commands
    }
}

} // verus!
