//! The spatial index: a rectangle divided again and again into four
//! quadrants until no cell holds more than a few particles.
use crate::fixed::clamp;
use crate::fixed::Fixed;
use crate::fixed::floor_div_wide;
use crate::grid_laws::covers;
use crate::grid_laws::lemma_built_covers_all;
use crate::particle::Particle;
use crate::vec2::Vec2;
use vstd::prelude::*;

verus! {

/// The largest number of particles that a cell holds without being divided.
pub const LEAF_CAPACITY: usize = 6;

/// Whether the point lies inside the rectangle and not on its boundary.
pub open spec fn strictly_inside(p: Vec2, pos1: Vec2, pos2: Vec2) -> bool {
    &&& pos1.x.raw < p.x.raw < pos2.x.raw
    &&& pos1.y.raw < p.y.raw < pos2.y.raw
}

/// Whether the rectangle can be divided: each side is at least two raw
/// units long, so that its midpoint lies strictly between its corners.
pub open spec fn splittable(pos1: Vec2, pos2: Vec2) -> bool {
    &&& pos2.x.raw - pos1.x.raw >= 2
    &&& pos2.y.raw - pos1.y.raw >= 2
}

/// The point halfway between two coordinates, rounded down.
pub open spec fn halfway(lo: Fixed, hi: Fixed) -> Fixed {
    Fixed::of(lo.raw + (hi.raw - lo.raw) / 2)
}

/// The point at which a rectangle is divided.
pub open spec fn midpoint(pos1: Vec2, pos2: Vec2) -> Vec2 {
    Vec2 { x: halfway(pos1.x, pos2.x), y: halfway(pos1.y, pos2.y) }
}

/// The corners of one quadrant of a rectangle: 1 is the upper left one,
/// 2 the upper right, 3 the lower left, 4 the lower right. Any other
/// number counts as 1.
pub open spec fn spec_quadrant(pos1: Vec2, pos2: Vec2, part: int) -> (Vec2, Vec2) {
    let mid = midpoint(pos1, pos2);
    let right = part == 2 || part == 4;
    let lower = part == 3 || part == 4;
    (
        Vec2 { x: if right { mid.x } else { pos1.x }, y: if lower { mid.y } else { pos1.y } },
        Vec2 { x: if right { pos2.x } else { mid.x }, y: if lower { pos2.y } else { mid.y } },
    )
}

/// The number of the quadrant that takes a point when a rectangle is
/// divided at `mid`. A point on a dividing line goes to the quadrant with
/// the lower number.
pub open spec fn spec_quadrant_of(p: Vec2, mid: Vec2) -> int {
    (if p.x.raw <= mid.x.raw { 1int } else { 2int }) + (if p.y.raw <= mid.y.raw { 0int } else { 2int })
}

/// The test that picks the indices of the particles of one quadrant.
pub open spec fn in_quadrant(ps: Seq<Particle>, mid: Vec2, part: int) -> spec_fn(usize) -> bool {
    |i: usize| spec_quadrant_of(ps[i as int].pos, mid) == part
}

/// The test that picks the indices of the particles whose centre lies
/// strictly inside a rectangle.
pub open spec fn in_rectangle(ps: Seq<Particle>, pos1: Vec2, pos2: Vec2) -> spec_fn(usize) -> bool {
    |i: usize| strictly_inside(ps[i as int].pos, pos1, pos2)
}

/// The indices `0`, ..., `n - 1` in ascending order.
pub open spec fn indices(n: nat) -> Seq<usize> {
    Seq::new(n, |i: int| i as usize)
}

/// The mathematical model of a cell and all that lies below it.
pub enum Tree {
    /// A cell that is not divided, with the indices of its particles.
    Leaf { pos1: Vec2, pos2: Vec2, particles: Seq<usize> },
    /// A divided cell with its four quadrants.
    Split {
        pos1: Vec2,
        pos2: Vec2,
        upper_left: Box<Tree>,
        upper_right: Box<Tree>,
        lower_left: Box<Tree>,
        lower_right: Box<Tree>,
    },
}

impl Tree {
    /// The model of the cell that `default` returns.
    pub open spec fn spec_default() -> Tree {
        Tree::Leaf {
            pos1: Vec2 { x: Fixed { raw: 0 }, y: Fixed { raw: 0 } },
            pos2: Vec2 { x: Fixed { raw: 0 }, y: Fixed { raw: 0 } },
            particles: Seq::empty(),
        }
    }

    /// The upper left corner of the cell.
    pub open spec fn pos1(self) -> Vec2 {
        match self {
            Tree::Leaf { pos1, .. } => pos1,
            Tree::Split { pos1, .. } => pos1,
        }
    }

    /// The lower right corner of the cell.
    pub open spec fn pos2(self) -> Vec2 {
        match self {
            Tree::Leaf { pos2, .. } => pos2,
            Tree::Split { pos2, .. } => pos2,
        }
    }

    /// The indices that the cell itself lists: those of a leaf, none for a
    /// divided cell.
    pub open spec fn particles(self) -> Seq<usize> {
        match self {
            Tree::Leaf { particles, .. } => particles,
            Tree::Split { .. } => Seq::empty(),
        }
    }

    /// The leaves in depth-first order: upper left, upper right, lower
    /// left, lower right.
    pub open spec fn leaves(self) -> Seq<Tree>
        decreases self,
    {
        match self {
            Tree::Leaf { .. } => seq![self],
            Tree::Split { upper_left, upper_right, lower_left, lower_right, .. } => {
                upper_left.leaves() + upper_right.leaves() + lower_left.leaves()
                    + lower_right.leaves()
            },
        }
    }
}

/// The tree over the rectangle `pos1`-`pos2` that holds the particles
/// listed in `members`: a leaf if they are at most `LEAF_CAPACITY` or the
/// rectangle cannot be divided, and otherwise four subtrees over the four
/// quadrants, each with the members that fall to it, in their order.
pub open spec fn subdivided(pos1: Vec2, pos2: Vec2, ps: Seq<Particle>, members: Seq<usize>) -> Tree
    decreases pos2.x.raw - pos1.x.raw,
{
    if members.len() > LEAF_CAPACITY && splittable(pos1, pos2) {
        let mid = midpoint(pos1, pos2);
        Tree::Split {
            pos1: pos1,
            pos2: pos2,
            upper_left: Box::new(
                subdivided(
                    spec_quadrant(pos1, pos2, 1).0,
                    spec_quadrant(pos1, pos2, 1).1,
                    ps,
                    members.filter(in_quadrant(ps, mid, 1)),
                ),
            ),
            upper_right: Box::new(
                subdivided(
                    spec_quadrant(pos1, pos2, 2).0,
                    spec_quadrant(pos1, pos2, 2).1,
                    ps,
                    members.filter(in_quadrant(ps, mid, 2)),
                ),
            ),
            lower_left: Box::new(
                subdivided(
                    spec_quadrant(pos1, pos2, 3).0,
                    spec_quadrant(pos1, pos2, 3).1,
                    ps,
                    members.filter(in_quadrant(ps, mid, 3)),
                ),
            ),
            lower_right: Box::new(
                subdivided(
                    spec_quadrant(pos1, pos2, 4).0,
                    spec_quadrant(pos1, pos2, 4).1,
                    ps,
                    members.filter(in_quadrant(ps, mid, 4)),
                ),
            ),
        }
    } else {
        Tree::Leaf { pos1: pos1, pos2: pos2, particles: members }
    }
}

/// The tree that indexes a population over the rectangle `pos1`-`pos2`: it
/// holds the particles whose centre lies strictly inside the rectangle.
pub open spec fn built(pos1: Vec2, pos2: Vec2, ps: Seq<Particle>) -> Tree {
    subdivided(pos1, pos2, ps, indices(ps.len()).filter(in_rectangle(ps, pos1, pos2)))
}

/// Whether the rectangle `pos1`-`pos2`, grown by `margin` on every side,
/// meets the rectangle `c1`-`c2`; touching counts.
pub open spec fn reaches(pos1: Vec2, pos2: Vec2, margin: Fixed, c1: Vec2, c2: Vec2) -> bool {
    &&& c1.x.raw <= pos2.x.raw + margin.raw
    &&& c2.x.raw >= pos1.x.raw - margin.raw
    &&& c1.y.raw <= pos2.y.raw + margin.raw
    &&& c2.y.raw >= pos1.y.raw - margin.raw
}

/// The test that picks the neighbours of the cell `pos1`-`pos2`: every
/// cell with other corners that the grown rectangle meets.
pub open spec fn near_cell(pos1: Vec2, pos2: Vec2, margin: Fixed) -> spec_fn(Tree) -> bool {
    |c: Tree| !(c.pos1() == pos1 && c.pos2() == pos2) && reaches(pos1, pos2, margin, c.pos1(), c.pos2())
}

/// The leaves of `tree` that are neighbours of the cell `pos1`-`pos2`, in
/// depth-first order.
pub open spec fn neighbors(tree: Tree, pos1: Vec2, pos2: Vec2, margin: Fixed) -> Seq<Tree> {
    tree.leaves().filter(near_cell(pos1, pos2, margin))
}

/// The models of a list of cells.
pub open spec fn views(cells: Seq<&GridCell>) -> Seq<Tree> {
    cells.map_values(|c: &GridCell| c@)
}

/// A cell of the index: a leaf with the indices of its particles, or a
/// divided cell with its four quadrants.
#[derive(Debug)]
pub enum GridCell {
    Leaf { pos1: Vec2, pos2: Vec2, particles: Vec<usize> },
    Split {
        pos1: Vec2,
        pos2: Vec2,
        upper_left: Box<GridCell>,
        upper_right: Box<GridCell>,
        lower_left: Box<GridCell>,
        lower_right: Box<GridCell>,
    },
}

impl GridCell {
    /// The mathematical model of the cell and all that lies below it.
    pub open spec fn model(&self) -> Tree
        decreases self,
    {
        match self {
            GridCell::Leaf { pos1, pos2, particles } => Tree::Leaf {
                pos1: *pos1,
                pos2: *pos2,
                particles: particles@,
            },
            GridCell::Split { pos1, pos2, upper_left, upper_right, lower_left, lower_right } => Tree::Split {
                pos1: *pos1,
                pos2: *pos2,
                upper_left: Box::new(upper_left.model()),
                upper_right: Box::new(upper_right.model()),
                lower_left: Box::new(lower_left.model()),
                lower_right: Box::new(lower_right.model()),
            },
        }
    }
}

impl Default for GridCell {
    /// A leaf without particles over the empty rectangle at the origin.
    fn default() -> (cell: GridCell)
        ensures
            cell@ == Tree::spec_default(),
    {
        GridCell::Leaf { pos1: Vec2::zero(), pos2: Vec2::zero(), particles: Vec::new() }
    }
}

impl View for GridCell {
    type V = Tree;

    open spec fn view(&self) -> Tree {
        self.model()
    }
}

/// Tells whether a point lies strictly inside a rectangle.
pub fn contains(p: Vec2, pos1: Vec2, pos2: Vec2) -> (r: bool)
    ensures
        r == strictly_inside(p, pos1, pos2),
{
    pos1.x.raw < p.x.raw && p.x.raw < pos2.x.raw && pos1.y.raw < p.y.raw && p.y.raw < pos2.y.raw
}

/// Tells whether a rectangle can be divided.
pub fn can_split(pos1: Vec2, pos2: Vec2) -> (r: bool)
    ensures
        r == splittable(pos1, pos2),
{
    pos2.x.raw as i128 - pos1.x.raw as i128 >= 2 && pos2.y.raw as i128 - pos1.y.raw as i128 >= 2
}

/// The coordinate halfway between two others, rounded down.
pub fn middle(lo: Fixed, hi: Fixed) -> (r: Fixed)
    ensures
        r == halfway(lo, hi),
{
    let span: i128 = hi.raw as i128 - lo.raw as i128;
    Fixed { raw: clamp(lo.raw as i128 + floor_div_wide(span, 2)) }
}

/// The corners of the quadrant `part` of the rectangle `pos1`-`pos2`.
pub fn quadrant(pos1: Vec2, pos2: Vec2, part: usize) -> (r: (Vec2, Vec2))
    ensures
        r == spec_quadrant(pos1, pos2, part as int),
{
    let mut upper = pos1;
    let mut lower = pos2;
    if part == 2 || part == 4 {
        upper.x = middle(pos1.x, pos2.x);
    } else {
        lower.x = middle(pos1.x, pos2.x);
    }
    if part == 3 || part == 4 {
        upper.y = middle(pos1.y, pos2.y);
    } else {
        lower.y = middle(pos1.y, pos2.y);
    }
    (upper, lower)
}

/// The number of the quadrant that takes the point `p` when a rectangle is
/// divided at `mid`.
pub fn quadrant_of(p: Vec2, mid: Vec2) -> (part: usize)
    ensures
        part as int == spec_quadrant_of(p, mid),
        1 <= part <= 4,
{
    let column: usize = if p.x.raw <= mid.x.raw { 1 } else { 2 };
    let row: usize = if p.y.raw <= mid.y.raw { 0 } else { 2 };
    column + row
}

/// Builds the tree over the rectangle `pos1`-`pos2` for the particles
/// listed in `members`.
pub fn subdivide(pos1: Vec2, pos2: Vec2, particles: &Vec<Particle>, members: Vec<usize>) -> (cell:
    GridCell)
    requires
        forall|k: int| 0 <= k < members.len() ==> members[k] < particles.len(),
    ensures
        cell@ == subdivided(pos1, pos2, particles@, members@),
    decreases pos2.x.raw - pos1.x.raw,
{
    if members.len() > LEAF_CAPACITY && can_split(pos1, pos2) {
        let mid = Vec2 { x: middle(pos1.x, pos2.x), y: middle(pos1.y, pos2.y) };
        let mut first: Vec<usize> = Vec::new();
        let mut second: Vec<usize> = Vec::new();
        let mut third: Vec<usize> = Vec::new();
        let mut fourth: Vec<usize> = Vec::new();
        let mut k: usize = 0;
        proof {
            reveal(Seq::filter);
            assert(members@.take(0) =~= Seq::<usize>::empty());
        }
        while k < members.len()
            invariant
                k <= members.len(),
                mid == midpoint(pos1, pos2),
                forall|m: int| 0 <= m < members.len() ==> members[m] < particles.len(),
                first@ == members@.take(k as int).filter(in_quadrant(particles@, mid, 1)),
                second@ == members@.take(k as int).filter(in_quadrant(particles@, mid, 2)),
                third@ == members@.take(k as int).filter(in_quadrant(particles@, mid, 3)),
                fourth@ == members@.take(k as int).filter(in_quadrant(particles@, mid, 4)),
                forall|m: int| 0 <= m < first.len() ==> first[m] < particles.len(),
                forall|m: int| 0 <= m < second.len() ==> second[m] < particles.len(),
                forall|m: int| 0 <= m < third.len() ==> third[m] < particles.len(),
                forall|m: int| 0 <= m < fourth.len() ==> fourth[m] < particles.len(),
            decreases members.len() - k,
        {
            let index = members[k];
            let part = quadrant_of(particles[index].pos, mid);
            proof {
                let seen = members@.take(k as int);
                assert(members@.take(k as int + 1) =~= seen.push(index));
                seen.lemma_filter_push(index, in_quadrant(particles@, mid, 1));
                seen.lemma_filter_push(index, in_quadrant(particles@, mid, 2));
                seen.lemma_filter_push(index, in_quadrant(particles@, mid, 3));
                seen.lemma_filter_push(index, in_quadrant(particles@, mid, 4));
            }
            if part == 1 {
                first.push(index);
            } else if part == 2 {
                second.push(index);
            } else if part == 3 {
                third.push(index);
            } else {
                fourth.push(index);
            }
            k += 1;
        }
        proof {
            assert(members@.take(members.len() as int) =~= members@);
        }
        let r1 = quadrant(pos1, pos2, 1);
        let r2 = quadrant(pos1, pos2, 2);
        let r3 = quadrant(pos1, pos2, 3);
        let r4 = quadrant(pos1, pos2, 4);
        GridCell::Split {
            pos1: pos1,
            pos2: pos2,
            upper_left: Box::new(subdivide(r1.0, r1.1, particles, first)),
            upper_right: Box::new(subdivide(r2.0, r2.1, particles, second)),
            lower_left: Box::new(subdivide(r3.0, r3.1, particles, third)),
            lower_right: Box::new(subdivide(r4.0, r4.1, particles, fourth)),
        }
    } else {
        GridCell::Leaf { pos1: pos1, pos2: pos2, particles: members }
    }
}

/// Collects the leaves below a cell in depth-first order.
pub fn get_leaf_cells<'a>(cell: &'a GridCell) -> (cells: Vec<&'a GridCell>)
    ensures
        views(cells@) == cell@.leaves(),
    decreases cell,
{
    let mut cells: Vec<&GridCell> = Vec::new();
    match cell {
        GridCell::Split { upper_left, upper_right, lower_left, lower_right, .. } => {
            let mut a = get_leaf_cells(upper_left);
            let mut b = get_leaf_cells(upper_right);
            let mut c = get_leaf_cells(lower_left);
            let mut d = get_leaf_cells(lower_right);
            let ghost sa = a@;
            let ghost sb = b@;
            let ghost sc = c@;
            let ghost sd = d@;
            cells.append(&mut a);
            cells.append(&mut b);
            cells.append(&mut c);
            cells.append(&mut d);
            proof {
                assert(cells@ =~= sa + sb + sc + sd);
                assert(views(cells@) =~= views(sa) + views(sb) + views(sc) + views(sd));
            }
        },
        GridCell::Leaf { .. } => {
            cells.push(cell);
            proof {
                assert(views(cells@) =~= seq![cell@]);
            }
        },
    }
    cells
}

impl GridCell {
    /// Builds the index of a population over the rectangle `pos1`-`pos2`.
    /// A particle is taken in if its centre lies strictly inside the
    /// rectangle, and is then listed in exactly one leaf, once.
    pub fn new(pos1: Vec2, pos2: Vec2, particles: &Vec<Particle>) -> (cell: GridCell)
        ensures
            cell@ == built(pos1, pos2, particles@),
            covers(cell@, particles@, pos1, pos2),
    {
        proof {
            assert(particles@.len() == particles.len());
            lemma_built_covers_all(pos1, pos2, particles@);
        }
        let mut members: Vec<usize> = Vec::new();
        let mut i: usize = 0;
        proof {
            reveal(Seq::filter);
            assert(indices(0) =~= Seq::<usize>::empty());
        }
        while i < particles.len()
            invariant
                i <= particles.len(),
                members@ == indices(i as nat).filter(in_rectangle(particles@, pos1, pos2)),
                forall|k: int| 0 <= k < members.len() ==> members[k] < particles.len(),
            decreases particles.len() - i,
        {
            proof {
                assert(indices((i + 1) as nat) =~= indices(i as nat).push(i));
                indices(i as nat).lemma_filter_push(i, in_rectangle(particles@, pos1, pos2));
            }
            if contains(particles[i].pos, pos1, pos2) {
                members.push(i);
            }
            i += 1;
        }
        subdivide(pos1, pos2, particles, members)
    }

    /// The upper left corner of the cell.
    pub fn pos1(&self) -> (p: Vec2)
        ensures
            p == self@.pos1(),
    {
        match self {
            GridCell::Leaf { pos1, .. } => *pos1,
            GridCell::Split { pos1, .. } => *pos1,
        }
    }

    /// The lower right corner of the cell.
    pub fn pos2(&self) -> (p: Vec2)
        ensures
            p == self@.pos2(),
    {
        match self {
            GridCell::Leaf { pos2, .. } => *pos2,
            GridCell::Split { pos2, .. } => *pos2,
        }
    }

    /// The leaves of this tree that are neighbours of `cell`: every leaf
    /// with other corners that meets the rectangle of `cell` grown by
    /// `margin` on every side.
    pub fn neighbors<'a>(&'a self, cell: &GridCell, margin: Fixed) -> (found: Vec<&'a GridCell>)
        ensures
            views(found@) == neighbors(self@, cell@.pos1(), cell@.pos2(), margin),
    {
        let leaves = get_leaf_cells(self);
        let upper = cell.pos1();
        let lower = cell.pos2();
        let mut found: Vec<&GridCell> = Vec::new();
        let mut k: usize = 0;
        proof {
            reveal(Seq::filter);
            assert(views(leaves@).take(0) =~= Seq::<Tree>::empty());
            assert(views(found@) =~= Seq::<Tree>::empty());
        }
        while k < leaves.len()
            invariant
                k <= leaves.len(),
                upper == cell@.pos1(),
                lower == cell@.pos2(),
                views(found@) == views(leaves@).take(k as int).filter(near_cell(upper, lower, margin)),
            decreases leaves.len() - k,
        {
            let leaf = leaves[k];
            let from = leaf.pos1();
            let to = leaf.pos2();
            proof {
                let seen = views(leaves@).take(k as int);
                assert(views(leaves@).take(k as int + 1) =~= seen.push(leaf@));
                seen.lemma_filter_push(leaf@, near_cell(upper, lower, margin));
                assert(views(found@.push(leaf)) =~= views(found@).push(leaf@));
            }
            if !(from == upper && to == lower) && from.x.raw as i128 <= lower.x.raw as i128 + margin.raw as i128
                && to.x.raw as i128 >= upper.x.raw as i128 - margin.raw as i128 && from.y.raw as i128
                <= lower.y.raw as i128 + margin.raw as i128 && to.y.raw as i128 >= upper.y.raw as i128
                - margin.raw as i128 {
                found.push(leaf);
            }
            k += 1;
        }
        proof {
            assert(views(leaves@).take(leaves.len() as int) =~= views(leaves@));
        }
        found
    }
}

} // verus!
