use particle_sim::control::plan_iterations;
use particle_sim::fixed::Fixed;
use particle_sim::grid::get_leaf_cells;
use particle_sim::grid::GridCell;
use particle_sim::input::Pointer;
use particle_sim::particle::reference_layout;
use particle_sim::particle::Particle;
use particle_sim::particle::Rgba;
use particle_sim::state::Frame;
use particle_sim::state::State;
use particle_sim::stepper::resolve_pair;
use particle_sim::stepper::sub_step;
use particle_sim::stepper::Physics;
use particle_sim::vec2::Vec2;

fn fx(v: f64) -> Fixed {
    Fixed { raw: (v * 4294967296.0).round() as i64 }
}

fn as_f64(v: Fixed) -> f64 {
    v.raw as f64 / 4294967296.0
}

fn point(x: f64, y: f64) -> Vec2 {
    Vec2 { x: fx(x), y: fx(y) }
}

fn ball(x: f64, y: f64, vx: f64, vy: f64) -> Particle {
    Particle { pos: point(x, y), vel: point(vx, vy), radius: fx(10.0), color: Rgba::white() }
}

fn idle_frame(dt: Fixed) -> Frame {
    Frame {
        world: point(800.0, 800.0),
        pointer: Pointer { pos: point(0.0, 0.0), delta: point(0.0, 0.0), down: false },
        dt,
    }
}

#[test]
fn single_drop_stays_above_the_floor() {
    let mut state =
        State::new(vec![ball(400.0, 100.0, 0.0, 0.0)], point(0.0, 400.0), fx(0.0), fx(1.0)).unwrap();
    let dt = Fixed::from_ratio(1, 60);
    for _ in 0..60 {
        state.update(&idle_frame(dt));
        assert_eq!(state.last_iter_count(), 1);
    }
    let p = state.particles()[0];
    assert!(as_f64(p.pos.y) <= 790.0);
    // Semi-implicit Euler from rest: y = 100 + g * h^2 * (1 + 2 + ... + 60).
    let expected = 100.0 + 400.0 * 1830.0 / 3600.0;
    assert!((as_f64(p.pos.y) - expected).abs() < 1e-3);
    assert!((as_f64(p.vel.y) - 400.0).abs() < 1e-3);
    assert_eq!(p.pos.x, fx(400.0));
}

#[test]
fn single_drop_bounces_and_stays_inside() {
    let mut state =
        State::new(vec![ball(400.0, 100.0, 0.0, 0.0)], point(0.0, 400.0), fx(0.0), fx(1.0)).unwrap();
    let dt = Fixed::from_ratio(1, 60);
    let mut rose = false;
    for _ in 0..240 {
        state.update(&idle_frame(dt));
        let p = state.particles()[0];
        assert!(p.pos.y.raw <= fx(790.0).raw);
        assert!(p.pos.y.raw >= fx(10.0).raw);
        if p.vel.y.raw < 0 {
            rose = true;
        }
    }
    assert!(rose);
}

#[test]
fn elastic_head_on_swaps_velocities() {
    let physics = Physics { gravity: point(0.0, 0.0), friction: fx(0.0), elasticity: fx(1.0) };
    let mut ps = vec![ball(390.0, 400.0, 100.0, 0.0), ball(410.0, 400.0, -100.0, 0.0)];
    sub_step(&mut ps, point(800.0, 800.0), &physics, Fixed::from_ratio(1, 60));
    assert!((as_f64(ps[0].vel.x) + 100.0).abs() < 1e-6);
    assert!((as_f64(ps[1].vel.x) - 100.0).abs() < 1e-6);
    assert_eq!(ps[0].vel, point(-100.0, 0.0));
    assert_eq!(ps[1].vel, point(100.0, 0.0));
}

#[test]
fn friction_halves_tangential_speed() {
    let physics = Physics { gravity: point(0.0, 0.0), friction: fx(0.5), elasticity: fx(1.0) };
    let (a, b) = resolve_pair(ball(390.5, 400.0, 0.0, 100.0), ball(409.5, 400.0, 0.0, -100.0), &physics);
    assert_eq!(a.vel, point(0.0, 50.0));
    assert_eq!(b.vel, point(0.0, -50.0));
    assert_eq!(a.pos, point(390.0, 400.0));
    assert_eq!(b.pos, point(410.0, 400.0));
}

#[test]
fn discs_that_only_touch_are_left_alone() {
    let physics = Physics { gravity: point(0.0, 0.0), friction: fx(0.5), elasticity: fx(1.0) };
    let a = ball(390.0, 400.0, 0.0, 100.0);
    let b = ball(410.0, 400.0, 0.0, -100.0);
    assert_eq!(resolve_pair(a, b, &physics), (a, b));
}

#[test]
fn coincident_particles_are_skipped() {
    let physics = Physics { gravity: point(0.0, 0.0), friction: fx(0.0), elasticity: fx(0.8) };
    let mut ps = vec![ball(400.0, 400.0, 0.0, 0.0), ball(400.0, 400.0, 0.0, 0.0)];
    sub_step(&mut ps, point(800.0, 800.0), &physics, Fixed::from_ratio(1, 60));
    assert_eq!(ps[0], ball(400.0, 400.0, 0.0, 0.0));
    assert_eq!(ps[1], ball(400.0, 400.0, 0.0, 0.0));
}

#[test]
fn adaptive_count_halves_when_the_frame_doubles() {
    assert_eq!(plan_iterations(4, Fixed::from_ratio(2, 60), 60), 2);
    assert_eq!(plan_iterations(4, Fixed::from_ratio(1, 60), 60), 4);
    assert_eq!(plan_iterations(4, Fixed::from_ratio(1, 120), 60), 8);
    assert_eq!(plan_iterations(0, Fixed::from_ratio(1, 60), 60), 1);
    assert_eq!(plan_iterations(1, Fixed::from_ratio(1, 10), 60), 1);
}

#[test]
fn grid_build_lists_every_particle_once() {
    let ps = reference_layout(500);
    for i in 0..500 {
        assert_eq!(ps[i], ball(100.0 + (i % 100) as f64, 100.0 + (i / 100) as f64, 0.0, 0.0));
    }
    let grid = GridCell::new(point(0.0, 0.0), point(800.0, 800.0), &ps);
    assert_eq!(grid.pos1(), point(0.0, 0.0));
    assert_eq!(grid.pos2(), point(800.0, 800.0));
    let mut seen = vec![0usize; 500];
    for leaf in get_leaf_cells(&grid) {
        match leaf {
            GridCell::Leaf { pos1, pos2, particles } => {
                assert!(particles.len() <= 6);
                for &i in particles {
                    seen[i] += 1;
                    let p = ps[i].pos;
                    assert!(pos1.x.raw < p.x.raw && p.x.raw <= pos2.x.raw);
                    assert!(pos1.y.raw < p.y.raw && p.y.raw <= pos2.y.raw);
                }
            }
            GridCell::Split { .. } => panic!("a divided cell among the leaves"),
        }
    }
    assert!(seen.iter().all(|&n| n == 1));
}
