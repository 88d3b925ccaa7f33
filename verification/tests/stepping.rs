use particle_sim::fixed::Fixed;
use particle_sim::particle::Particle;
use particle_sim::particle::Rgba;
use particle_sim::stepper::damp;
use particle_sim::stepper::integrate;
use particle_sim::stepper::rebound;
use particle_sim::stepper::resolve_pair;
use particle_sim::stepper::resolve_pair_at;
use particle_sim::stepper::resolve_walls;
use particle_sim::stepper::sub_step;
use particle_sim::stepper::sub_steps;
use particle_sim::stepper::take_turn;
use particle_sim::stepper::Physics;
use particle_sim::stepper::CONTACT_MIN;
use particle_sim::vec2::Vec2;

fn q(num: i64, den: i64) -> Fixed {
    Fixed::from_ratio(num, den)
}

fn v(x: i64, y: i64) -> Vec2 {
    Vec2 { x: q(x, 1), y: q(y, 1) }
}

fn disc(pos: Vec2, vel: Vec2, radius: i64) -> Particle {
    Particle { pos, vel, radius: q(radius, 1), color: Rgba::white() }
}

fn still(gravity: Vec2, friction: Fixed, elasticity: Fixed) -> Physics {
    Physics { gravity, friction, elasticity }
}

fn world() -> Vec2 {
    v(800, 600)
}

#[test]
fn default_particle_is_white_and_at_rest() {
    let p = Particle::default();
    assert_eq!(p.pos, v(0, 0));
    assert_eq!(p.vel, v(0, 0));
    assert_eq!(p.radius, q(10, 1));
    assert_eq!(p.color, Rgba { r: 255, g: 255, b: 255, a: 255 });
}

#[test]
fn integration_updates_velocity_before_position() {
    let p = disc(v(0, 0), v(1, 2), 1);
    let r = integrate(p, v(0, 10), q(1, 2));
    assert_eq!(r.vel, v(1, 7));
    assert_eq!(r.pos, Vec2 { x: q(1, 2), y: q(7, 2) });
    assert_eq!(r.radius, p.radius);
    assert_eq!(r.color, p.color);
}

#[test]
fn integration_with_suggested_gravity() {
    let r = integrate(disc(v(100, 100), v(0, 0), 10), v(10, 400), q(1, 4));
    assert_eq!(r.vel, Vec2 { x: q(5, 2), y: q(100, 1) });
    assert_eq!(r.pos, Vec2 { x: q(805, 8), y: q(125, 1) });
}

#[test]
fn rebound_and_damping_factors() {
    let physics = still(v(0, 0), q(1, 4), q(1, 2));
    assert_eq!(rebound(q(8, 1), &physics), q(-4, 1));
    assert_eq!(rebound(q(-8, 1), &physics), q(4, 1));
    assert_eq!(damp(q(8, 1), &physics), q(6, 1));
    assert_eq!(damp(q(-8, 1), &physics), q(-6, 1));
}

#[test]
fn right_wall_reflects_a_particle_moving_into_it() {
    let physics = still(v(0, 0), q(1, 4), q(1, 2));
    let r = resolve_walls(disc(v(795, 300), v(8, 4), 10), world(), &physics);
    assert_eq!(r.pos, v(790, 300));
    assert_eq!(r.vel, v(-4, 3));
}

#[test]
fn right_wall_only_snaps_a_particle_moving_away() {
    let physics = still(v(0, 0), q(1, 4), q(1, 2));
    let r = resolve_walls(disc(v(795, 300), v(-8, 4), 10), world(), &physics);
    assert_eq!(r.pos, v(790, 300));
    assert_eq!(r.vel, v(-8, 4));
    let resting = resolve_walls(disc(v(795, 300), v(0, 4), 10), world(), &physics);
    assert_eq!(resting.pos, v(790, 300));
    assert_eq!(resting.vel, v(0, 4));
}

#[test]
fn left_wall_contact() {
    let physics = still(v(0, 0), q(1, 4), q(1, 2));
    let r = resolve_walls(disc(v(5, 300), v(-8, 4), 10), world(), &physics);
    assert_eq!(r.pos, v(10, 300));
    assert_eq!(r.vel, v(4, 3));
    let away = resolve_walls(disc(v(5, 300), v(8, 4), 10), world(), &physics);
    assert_eq!(away.pos, v(10, 300));
    assert_eq!(away.vel, v(8, 4));
}

#[test]
fn bottom_wall_contact() {
    let physics = still(v(0, 0), q(1, 4), q(1, 2));
    let r = resolve_walls(disc(v(400, 595), v(4, 8), 10), world(), &physics);
    assert_eq!(r.pos, v(400, 590));
    assert_eq!(r.vel, v(3, -4));
    let away = resolve_walls(disc(v(400, 595), v(4, -8), 10), world(), &physics);
    assert_eq!(away.pos, v(400, 590));
    assert_eq!(away.vel, v(4, -8));
}

#[test]
fn top_wall_contact() {
    let physics = still(v(0, 0), q(1, 4), q(1, 2));
    let r = resolve_walls(disc(v(400, 5), v(4, -8), 10), world(), &physics);
    assert_eq!(r.pos, v(400, 10));
    assert_eq!(r.vel, v(3, 4));
    let away = resolve_walls(disc(v(400, 5), v(4, 8), 10), world(), &physics);
    assert_eq!(away.pos, v(400, 10));
    assert_eq!(away.vel, v(4, 8));
}

#[test]
fn a_disc_flush_with_a_wall_is_not_in_contact() {
    let physics = still(v(0, 0), q(1, 4), q(1, 2));
    for p in [
        disc(v(790, 300), v(8, 8), 10),
        disc(v(10, 300), v(-8, 8), 10),
        disc(v(400, 590), v(8, 8), 10),
        disc(v(400, 10), v(8, -8), 10),
    ] {
        assert_eq!(resolve_walls(p, world(), &physics), p);
    }
}

#[test]
fn corner_contact_applies_both_walls_in_order() {
    let physics = still(v(0, 0), q(1, 4), q(1, 2));
    let r = resolve_walls(disc(v(795, 595), v(8, 16), 10), world(), &physics);
    assert_eq!(r.pos, v(790, 590));
    // Right wall: (8, 16) -> (-4, 12). Bottom wall: (-4, 12) -> (-3, -6).
    assert_eq!(r.vel, v(-3, -6));
}

#[test]
fn walls_keep_a_disc_inside() {
    let physics = still(v(0, 0), q(0, 1), q(4, 5));
    for (x, y) in [(-500, -500), (5000, 5000), (-7, 300), (400, 9000), (400, 300)] {
        let r = resolve_walls(disc(v(x, y), v(3, -3), 10), world(), &physics);
        assert!(q(10, 1).raw <= r.pos.x.raw && r.pos.x.raw <= q(790, 1).raw);
        assert!(q(10, 1).raw <= r.pos.y.raw && r.pos.y.raw <= q(590, 1).raw);
    }
}

#[test]
fn a_world_too_small_cannot_contain_the_disc() {
    let physics = still(v(0, 0), q(0, 1), q(1, 1));
    let r = resolve_walls(disc(v(5, 5), v(0, 0), 10), v(15, 15), &physics);
    // The left and top walls are checked last and win.
    assert_eq!(r.pos, v(10, 10));
}

#[test]
fn contact_pushes_apart_and_exchanges_velocity() {
    let physics = still(v(0, 0), q(0, 1), q(1, 2));
    let (a, b) = resolve_pair(disc(v(0, 0), v(10, 0), 10), disc(v(15, 0), v(-10, 0), 10), &physics);
    assert_eq!(a.pos, Vec2 { x: q(-5, 2), y: q(0, 1) });
    assert_eq!(b.pos, Vec2 { x: q(35, 2), y: q(0, 1) });
    // rel = -10, vn = -10, vt = 0: the impulse is -10 + 0.5 * -10 = -15.
    assert_eq!(a.vel, v(-5, 0));
    assert_eq!(b.vel, v(5, 0));
}

#[test]
fn contact_along_the_vertical_axis() {
    let physics = still(v(0, 0), q(1, 2), q(1, 1));
    let (a, b) = resolve_pair(disc(v(0, 20), v(4, -6), 10), disc(v(0, 2), v(0, 6), 10), &physics);
    assert_eq!(a.pos, v(0, 21));
    assert_eq!(b.pos, v(0, 1));
    // rel = (-2, 6), vn = (0, 6), vt = (-2, 0): the impulse is
    // (-2, 6) + (0, 6) - 0.5 * (-2, 0) = (-1, 12).
    assert_eq!(a.vel, v(3, 6));
    assert_eq!(b.vel, v(1, -6));
}

#[test]
fn separated_discs_are_left_alone() {
    let physics = still(v(0, 0), q(0, 1), q(1, 1));
    let a = disc(v(0, 0), v(10, 0), 10);
    let b = disc(v(21, 0), v(-10, 0), 10);
    assert_eq!(resolve_pair(a, b, &physics), (a, b));
}

#[test]
fn nearly_coincident_centres_are_left_alone() {
    let physics = still(v(0, 0), q(0, 1), q(1, 1));
    let a = disc(v(400, 400), v(1, 0), 10);
    let mut b = disc(v(400, 400), v(-1, 0), 10);
    assert_eq!(resolve_pair(a, b, &physics), (a, b));
    b.pos.x.raw += CONTACT_MIN - 1;
    assert_eq!(resolve_pair(a, b, &physics), (a, b));
    b.pos.x.raw += 1;
    let (a2, b2) = resolve_pair(a, b, &physics);
    assert_eq!(a2.vel, v(-1, 0));
    assert_eq!(b2.vel, v(1, 0));
    assert!(a2.pos.x.raw < a.pos.x.raw);
    assert!(b2.pos.x.raw > b.pos.x.raw);
}

#[test]
fn oblique_contact_conserves_momentum_and_separates() {
    let physics = still(v(0, 0), q(1, 10), q(4, 5));
    let a = disc(v(100, 100), v(30, -20), 10);
    let b = disc(v(109, 112), v(-50, 70), 10);
    let (a2, b2) = resolve_pair(a, b, &physics);
    assert_ne!(a2, a);
    assert_eq!(a2.vel.x.raw + b2.vel.x.raw, a.vel.x.raw + b.vel.x.raw);
    assert_eq!(a2.vel.y.raw + b2.vel.y.raw, a.vel.y.raw + b.vel.y.raw);
    assert!(b2.pos.x.raw - a2.pos.x.raw >= b.pos.x.raw - a.pos.x.raw);
    assert!(b2.pos.y.raw - a2.pos.y.raw >= b.pos.y.raw - a.pos.y.raw);
    // The centres were 15 apart and end 20 apart, up to a slack of
    // 2 * (5 + 3) raw units for an overlap of 5 and one more for the root.
    let gap = Vec2::length(b2.pos.sub(a2.pos));
    assert!(gap.raw >= q(20, 1).raw - 17);
    assert!(gap.raw <= q(20, 1).raw);
}

#[test]
fn elastic_contact_keeps_kinetic_energy() {
    let physics = still(v(0, 0), q(0, 1), q(1, 1));
    let a = disc(v(100, 100), v(30, -20), 10);
    let b = disc(v(109, 112), v(-50, 70), 10);
    let (a2, b2) = resolve_pair(a, b, &physics);
    let energy = |p: &Particle| {
        let x = p.vel.x.raw as f64 / 4294967296.0;
        let y = p.vel.y.raw as f64 / 4294967296.0;
        x * x + y * y
    };
    let before = energy(&a) + energy(&b);
    let after = energy(&a2) + energy(&b2);
    assert!(((after - before) / before).abs() < 1e-4);
}

#[test]
fn pair_in_place_matches_pair_by_value() {
    let physics = still(v(0, 0), q(0, 1), q(1, 2));
    let a = disc(v(0, 0), v(10, 0), 10);
    let b = disc(v(15, 0), v(-10, 0), 10);
    let c = disc(v(500, 500), v(1, 1), 10);
    let mut ps = vec![a, c, b];
    resolve_pair_at(&mut ps, 0, 2, &physics);
    let (a2, b2) = resolve_pair(a, b, &physics);
    assert_eq!(ps, vec![a2, c, b2]);
}

#[test]
fn a_turn_moves_one_particle_and_resolves_its_later_pairs() {
    let physics = still(v(0, 8), q(0, 1), q(1, 1));
    let h = q(1, 2);
    let a = disc(v(100, 100), v(0, 0), 10);
    let b = disc(v(100, 115), v(0, 0), 10);
    let c = disc(v(300, 300), v(0, 0), 10);
    let mut ps = vec![a, b, c];
    take_turn(&mut ps, 0, world(), &physics, h);
    let moved = resolve_walls(integrate(a, physics.gravity, h), world(), &physics);
    assert_eq!(moved.vel, v(0, 4));
    assert_eq!(moved.pos, v(100, 102));
    let (a2, b2) = resolve_pair(moved, b, &physics);
    assert_eq!(ps, vec![a2, b2, c]);
    assert_ne!(b2, b);
}

#[test]
fn a_sub_step_gives_every_particle_its_turn_in_order() {
    let physics = still(v(0, 8), q(1, 4), q(1, 2));
    let h = q(1, 2);
    let start = vec![
        disc(v(100, 100), v(3, 0), 10),
        disc(v(110, 112), v(-3, 0), 10),
        disc(v(95, 120), v(0, -9), 10),
        disc(v(795, 595), v(40, 40), 10),
    ];
    let mut by_turns = start.clone();
    for i in 0..by_turns.len() {
        take_turn(&mut by_turns, i, world(), &physics, h);
    }
    let mut at_once = start.clone();
    sub_step(&mut at_once, world(), &physics, h);
    assert_eq!(at_once, by_turns);
    assert_ne!(at_once, start);
}

#[test]
fn sub_steps_repeat_the_sub_step() {
    let physics = still(v(0, 8), q(1, 4), q(1, 2));
    let h = q(1, 8);
    let start = vec![
        disc(v(100, 100), v(3, 0), 10),
        disc(v(110, 112), v(-3, 0), 10),
        disc(v(95, 120), v(0, -9), 10),
    ];
    let mut one_by_one = start.clone();
    for _ in 0..5 {
        sub_step(&mut one_by_one, world(), &physics, h);
    }
    let mut together = start.clone();
    sub_steps(&mut together, 5, world(), &physics, h);
    assert_eq!(together, one_by_one);
    let mut none = start.clone();
    sub_steps(&mut none, 0, world(), &physics, h);
    assert_eq!(none, start);
}

#[test]
fn an_empty_population_steps_to_itself() {
    let physics = still(v(0, 8), q(1, 4), q(1, 2));
    let mut ps: Vec<Particle> = Vec::new();
    sub_step(&mut ps, world(), &physics, q(1, 60));
    assert!(ps.is_empty());
}

#[test]
fn the_last_particle_ends_each_sub_step_inside() {
    let physics = still(v(10, 400), q(1, 10), q(4, 5));
    let mut ps = vec![
        disc(v(780, 580), v(300, 300), 10),
        disc(v(785, 585), v(200, 500), 10),
        disc(v(788, 588), v(900, 100), 10),
    ];
    for _ in 0..50 {
        sub_step(&mut ps, world(), &physics, q(1, 60));
        let last = ps[2];
        assert!(q(10, 1).raw <= last.pos.x.raw && last.pos.x.raw <= q(790, 1).raw);
        assert!(q(10, 1).raw <= last.pos.y.raw && last.pos.y.raw <= q(590, 1).raw);
    }
}

#[test]
fn a_contact_can_push_an_earlier_particle_through_a_wall() {
    let physics = still(v(0, 0), q(0, 1), q(1, 1));
    let mut ps = vec![disc(v(10, 300), v(0, 0), 10), disc(v(25, 300), v(0, 0), 10)];
    sub_step(&mut ps, world(), &physics, q(1, 60));
    assert_eq!(ps[0].pos, Vec2 { x: q(15, 2), y: q(300, 1) });
    assert_eq!(ps[1].pos, Vec2 { x: q(55, 2), y: q(300, 1) });
}

#[test]
fn a_particle_at_rest_on_the_floor_stays_there() {
    let physics = still(v(0, 400), q(0, 1), q(4, 5));
    let h = q(1, 60);
    let mut ps = vec![disc(v(400, 590), v(0, 0), 10)];
    let gain = q(400, 1).mul(h);
    for _ in 0..600 {
        sub_step(&mut ps, world(), &physics, h);
        assert_eq!(ps[0].pos, v(400, 590));
        assert!(ps[0].vel.y.raw.abs() <= gain.raw);
    }
    // The speed settles near e * g * h / (1 + e), not at zero.
    let settled = ps[0].vel.y.raw as f64 / 4294967296.0;
    assert!((settled + 0.8 * 400.0 / 60.0 / 1.8).abs() < 1e-3);
}

#[test]
fn rounding_dominates_at_speeds_of_a_few_raw_units() {
    let physics = still(v(0, 0), q(0, 1), q(1, 1));
    let mut a = disc(v(0, 0), v(0, 0), 10);
    a.vel.x.raw = 3;
    let b = disc(v(9, 12), v(0, 0), 10);
    let (a2, b2) = resolve_pair(a, b, &physics);
    // Half the relative velocity rounds from -1.5 down to -2, and its part
    // along the normal (0.6, 0.8) from (-1.2, -1.6) down to (-2, -2).
    assert_eq!((a2.vel.x.raw, a2.vel.y.raw), (-1, -4));
    assert_eq!((b2.vel.x.raw, b2.vel.y.raw), (4, 4));
    assert_eq!(a2.vel.x.raw + b2.vel.x.raw, 3);
    assert_eq!(a2.vel.y.raw + b2.vel.y.raw, 0);
}
