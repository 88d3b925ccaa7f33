use particle_sim::fixed::Fixed;
use particle_sim::grid::can_split;
use particle_sim::grid::contains;
use particle_sim::grid::get_leaf_cells;
use particle_sim::grid::middle;
use particle_sim::grid::quadrant;
use particle_sim::grid::quadrant_of;
use particle_sim::grid::subdivide;
use particle_sim::grid::GridCell;
use particle_sim::grid::LEAF_CAPACITY;
use particle_sim::particle::Particle;
use particle_sim::particle::Rgba;
use particle_sim::render::DrawCommand;
use particle_sim::vec2::Vec2;

fn w(n: i64) -> Fixed {
    Fixed::from_ratio(n, 1)
}

fn at(x: i64, y: i64) -> Vec2 {
    Vec2 { x: w(x), y: w(y) }
}

fn dot(x: i64, y: i64) -> Particle {
    Particle { pos: at(x, y), vel: at(0, 0), radius: w(1), color: Rgba::white() }
}

fn corners(cell: &GridCell) -> (Vec2, Vec2) {
    (cell.pos1(), cell.pos2())
}

fn listed(cell: &GridCell) -> Vec<usize> {
    match cell {
        GridCell::Leaf { particles, .. } => particles.clone(),
        GridCell::Split { .. } => panic!("not a leaf"),
    }
}

#[test]
fn containment_excludes_the_boundary() {
    assert!(contains(at(5, 5), at(0, 0), at(10, 10)));
    assert!(!contains(at(0, 5), at(0, 0), at(10, 10)));
    assert!(!contains(at(10, 5), at(0, 0), at(10, 10)));
    assert!(!contains(at(5, 0), at(0, 0), at(10, 10)));
    assert!(!contains(at(5, 10), at(0, 0), at(10, 10)));
    assert!(!contains(at(11, 5), at(0, 0), at(10, 10)));
    assert!(!contains(at(5, 5), at(10, 10), at(0, 0)));
}

#[test]
fn quadrants_share_one_midpoint() {
    let (upper, lower) = (at(0, 0), at(800, 600));
    assert_eq!(quadrant(upper, lower, 1), (at(0, 0), at(400, 300)));
    assert_eq!(quadrant(upper, lower, 2), (at(400, 0), at(800, 300)));
    assert_eq!(quadrant(upper, lower, 3), (at(0, 300), at(400, 600)));
    assert_eq!(quadrant(upper, lower, 4), (at(400, 300), at(800, 600)));
    assert_eq!(quadrant(upper, lower, 0), quadrant(upper, lower, 1));
    assert_eq!(quadrant(upper, lower, 9), quadrant(upper, lower, 1));
}

#[test]
fn odd_spans_divide_without_a_gap() {
    let lo = Fixed { raw: 10 };
    let hi = Fixed { raw: 15 };
    assert_eq!(middle(lo, hi).raw, 12);
    assert_eq!(middle(Fixed { raw: -15 }, Fixed { raw: -10 }).raw, -13);
    assert_eq!(middle(Fixed { raw: i64::MIN }, Fixed { raw: i64::MAX }).raw, -1);
    let upper = Vec2 { x: lo, y: lo };
    let lower = Vec2 { x: hi, y: hi };
    assert_eq!(quadrant(upper, lower, 1).1, quadrant(upper, lower, 4).0);
}

#[test]
fn a_point_on_a_dividing_line_goes_to_the_lower_quadrant() {
    let mid = at(400, 300);
    assert_eq!(quadrant_of(at(100, 100), mid), 1);
    assert_eq!(quadrant_of(at(500, 100), mid), 2);
    assert_eq!(quadrant_of(at(100, 500), mid), 3);
    assert_eq!(quadrant_of(at(500, 500), mid), 4);
    assert_eq!(quadrant_of(at(400, 300), mid), 1);
    assert_eq!(quadrant_of(at(400, 301), mid), 3);
    assert_eq!(quadrant_of(at(401, 300), mid), 2);
    assert_eq!(quadrant_of(at(400, 100), mid), 1);
    assert_eq!(quadrant_of(at(100, 300), mid), 1);
}

#[test]
fn small_rectangles_cannot_be_divided() {
    let unit = |x: i64, y: i64| Vec2 { x: Fixed { raw: x }, y: Fixed { raw: y } };
    assert!(can_split(unit(0, 0), unit(2, 2)));
    assert!(!can_split(unit(0, 0), unit(1, 2)));
    assert!(!can_split(unit(0, 0), unit(2, 1)));
    assert!(!can_split(unit(0, 0), unit(0, 0)));
    assert!(!can_split(unit(5, 5), unit(0, 0)));
    assert!(can_split(unit(i64::MIN, i64::MIN), unit(i64::MAX, i64::MAX)));
}

#[test]
fn few_particles_stay_in_one_leaf() {
    let ps: Vec<Particle> = (0..6).map(|i| dot(10 + i, 20)).collect();
    let grid = GridCell::new(at(0, 0), at(100, 100), &ps);
    match &grid {
        GridCell::Leaf { pos1, pos2, particles } => {
            assert_eq!((*pos1, *pos2), (at(0, 0), at(100, 100)));
            assert_eq!(particles, &vec![0, 1, 2, 3, 4, 5]);
        }
        GridCell::Split { .. } => panic!("divided too early"),
    }
    assert_eq!(get_leaf_cells(&grid).len(), 1);
}

#[test]
fn the_seventh_particle_divides_the_cell() {
    let ps = vec![
        dot(10, 10),
        dot(60, 10),
        dot(10, 60),
        dot(60, 60),
        dot(20, 20),
        dot(70, 20),
        dot(50, 50),
    ];
    let grid = GridCell::new(at(0, 0), at(100, 100), &ps);
    assert!(matches!(grid, GridCell::Split { .. }));
    assert_eq!(corners(&grid), (at(0, 0), at(100, 100)));
    let leaves = get_leaf_cells(&grid);
    assert_eq!(leaves.len(), 4);
    assert_eq!(corners(leaves[0]), (at(0, 0), at(50, 50)));
    assert_eq!(corners(leaves[1]), (at(50, 0), at(100, 50)));
    assert_eq!(corners(leaves[2]), (at(0, 50), at(50, 100)));
    assert_eq!(corners(leaves[3]), (at(50, 50), at(100, 100)));
    // The particle on the midpoint falls to the upper left quadrant.
    assert_eq!(listed(leaves[0]), vec![0, 4, 6]);
    assert_eq!(listed(leaves[1]), vec![1, 5]);
    assert_eq!(listed(leaves[2]), vec![2]);
    assert_eq!(listed(leaves[3]), vec![3]);
}

#[test]
fn particles_outside_or_on_the_edge_are_not_indexed() {
    let ps = vec![dot(50, 50), dot(0, 50), dot(100, 50), dot(50, 0), dot(50, 100), dot(-5, 300)];
    let grid = GridCell::new(at(0, 0), at(100, 100), &ps);
    assert_eq!(listed(&grid), vec![0]);
}

#[test]
fn an_empty_rectangle_indexes_nothing() {
    let ps: Vec<Particle> = (0..20).map(|_| dot(0, 0)).collect();
    let grid = GridCell::new(at(0, 0), at(0, 0), &ps);
    assert_eq!(corners(&grid), (at(0, 0), at(0, 0)));
    assert_eq!(listed(&grid), Vec::<usize>::new());
    let backwards = GridCell::new(at(10, 10), at(-10, -10), &ps);
    assert_eq!(listed(&backwards), Vec::<usize>::new());
}

#[test]
fn coincident_particles_end_in_a_leaf_too_small_to_divide() {
    let ps: Vec<Particle> = (0..9).map(|_| dot(30, 30)).collect();
    let grid = GridCell::new(at(0, 0), at(64, 64), &ps);
    let leaves = get_leaf_cells(&grid);
    let mut total = 0;
    for leaf in &leaves {
        let members = listed(leaf);
        total += members.len();
        if members.len() > LEAF_CAPACITY {
            assert_eq!(members, vec![0, 1, 2, 3, 4, 5, 6, 7, 8]);
            let (upper, lower) = corners(leaf);
            assert!(!can_split(upper, lower));
            assert!(upper.x.raw < at(30, 30).x.raw && at(30, 30).x.raw <= lower.x.raw);
            assert!(upper.y.raw < at(30, 30).y.raw && at(30, 30).y.raw <= lower.y.raw);
        }
    }
    assert_eq!(total, 9);
}

#[test]
fn subdividing_a_given_list_keeps_its_order() {
    let ps = vec![dot(10, 10), dot(20, 20), dot(30, 30)];
    let leaf = subdivide(at(0, 0), at(100, 100), &ps, vec![2, 0, 1]);
    assert_eq!(listed(&leaf), vec![2, 0, 1]);
}

#[test]
fn leaves_tile_the_indexed_rectangle() {
    let ps: Vec<Particle> = (0..200).map(|i| dot(3 + (i * 37) % 95, 2 + (i * 53) % 97)).collect();
    let grid = GridCell::new(at(0, 0), at(100, 100), &ps);
    let leaves = get_leaf_cells(&grid);
    let mut area: i128 = 0;
    let mut seen = vec![0; ps.len()];
    for leaf in &leaves {
        let (upper, lower) = corners(leaf);
        assert!(upper.x.raw < lower.x.raw && upper.y.raw < lower.y.raw);
        area += (lower.x.raw - upper.x.raw) as i128 * (lower.y.raw - upper.y.raw) as i128;
        let members = listed(leaf);
        assert!(members.len() <= LEAF_CAPACITY || !can_split(upper, lower));
        for i in members {
            seen[i] += 1;
        }
    }
    assert_eq!(area, (w(100).raw as i128) * (w(100).raw as i128));
    assert!(seen.iter().all(|&n| n == 1));
    for a in 0..leaves.len() {
        for b in 0..a {
            assert_ne!(corners(leaves[a]), corners(leaves[b]));
        }
    }
}

#[test]
fn neighbours_are_the_other_leaves_within_the_margin() {
    let ps = vec![
        dot(10, 10),
        dot(60, 10),
        dot(10, 60),
        dot(60, 60),
        dot(20, 20),
        dot(70, 20),
        dot(40, 40),
    ];
    let grid = GridCell::new(at(0, 0), at(100, 100), &ps);
    let leaves = get_leaf_cells(&grid);
    let found = grid.neighbors(leaves[0], w(0));
    let found_corners: Vec<(Vec2, Vec2)> = found.iter().map(|c| corners(c)).collect();
    // With closed intervals all three other quadrants touch the first.
    assert_eq!(
        found_corners,
        vec![corners(leaves[1]), corners(leaves[2]), corners(leaves[3])]
    );
    let far = GridCell::Leaf { pos1: at(200, 200), pos2: at(300, 300), particles: Vec::new() };
    assert_eq!(grid.neighbors(&far, w(0)).len(), 0);
    assert_eq!(grid.neighbors(&far, w(99)).len(), 0);
    let reached = grid.neighbors(&far, w(100));
    assert_eq!(reached.len(), 1);
    assert_eq!(corners(reached[0]), corners(leaves[3]));
    assert_eq!(grid.neighbors(&far, w(149)).len(), 1);
    // At 150 the grown rectangle touches the corner that all four share.
    assert_eq!(grid.neighbors(&far, w(150)).len(), 4);
}

#[test]
fn neighbours_hold_every_particle_within_the_margin() {
    let ps: Vec<Particle> = (0..300).map(|i| dot(3 + (i * 37) % 95, 2 + (i * 53) % 97)).collect();
    let grid = GridCell::new(at(0, 0), at(100, 100), &ps);
    let leaves = get_leaf_cells(&grid);
    let margin = w(4);
    for home in &leaves {
        let near = grid.neighbors(home, margin);
        for &p in &listed(home) {
            for q in 0..ps.len() {
                let dx = (ps[q].pos.x.raw - ps[p].pos.x.raw) as i128;
                let dy = (ps[q].pos.y.raw - ps[p].pos.y.raw) as i128;
                if dx * dx + dy * dy <= (margin.raw as i128) * (margin.raw as i128) {
                    let here = listed(home).contains(&q);
                    let next = near.iter().any(|c| listed(c).contains(&q));
                    assert!(here || next);
                }
            }
        }
    }
}

#[test]
fn outlines_give_corner_width_and_height() {
    let ps = vec![
        dot(10, 10),
        dot(60, 10),
        dot(10, 60),
        dot(60, 60),
        dot(20, 20),
        dot(70, 20),
        dot(40, 40),
    ];
    let grid = GridCell::new(at(20, 10), at(120, 70), &ps);
    let single = GridCell::Leaf { pos1: at(20, 10), pos2: at(120, 70), particles: Vec::new() };
    assert_eq!(
        single.draw(),
        vec![DrawCommand::StrokeRect {
            x: w(20),
            y: w(10),
            width: w(100),
            height: w(60),
            color: Rgba::white()
        }]
    );
    let commands = grid.draw();
    let leaves = get_leaf_cells(&grid);
    assert_eq!(commands.len(), leaves.len());
    for (command, leaf) in commands.iter().zip(leaves.iter()) {
        let (upper, lower) = corners(leaf);
        assert_eq!(
            *command,
            DrawCommand::StrokeRect {
                x: upper.x,
                y: upper.y,
                width: lower.x.sub(upper.x),
                height: lower.y.sub(upper.y),
                color: Rgba::white()
            }
        );
    }
}
