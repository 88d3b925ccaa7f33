//! What holds of every index that `GridCell::new` builds.
use crate::fixed::Fixed;
use crate::grid::built;
use crate::grid::in_quadrant;
use crate::grid::in_rectangle;
use crate::grid::indices;
use crate::grid::LEAF_CAPACITY;
use crate::grid::midpoint;
use crate::grid::near_cell;
use crate::grid::neighbors;
use crate::grid::reaches;
use crate::grid::spec_quadrant;
use crate::grid::splittable;
use crate::grid::strictly_inside;
use crate::grid::subdivided;
use crate::grid::Tree;
use crate::particle::Particle;
use crate::vec2::Vec2;
use vstd::prelude::*;

verus! {

/// How often the index `i` occurs in a list of indices.
pub open spec fn occurrences(s: Seq<usize>, i: usize) -> nat
    decreases s.len(),
{
    if s.len() == 0 {
        0
    } else {
        occurrences(s.drop_last(), i) + if s.last() == i {
            1nat
        } else {
            0nat
        }
    }
}

/// How often the index `i` is listed in a sequence of cells, all their
/// lists taken together.
pub open spec fn listings(cells: Seq<Tree>, i: usize) -> nat
    decreases cells.len(),
{
    if cells.len() == 0 {
        0
    } else {
        listings(cells.drop_last(), i) + occurrences(cells.last().particles(), i)
    }
}

/// An index occurs in a list at least once exactly if the list contains it.
pub proof fn lemma_occurrences_contains(s: Seq<usize>, i: usize)
    ensures
        occurrences(s, i) > 0 <==> s.contains(i),
    decreases s.len(),
{
    if s.len() > 0 {
        lemma_occurrences_contains(s.drop_last(), i);
        if s.drop_last().contains(i) {
            let k = choose|k: int| 0 <= k < s.drop_last().len() && s.drop_last()[k] == i;
            assert(s[k] == i);
        }
        if s.contains(i) && s.last() != i {
            let k = choose|k: int| 0 <= k < s.len() && s[k] == i;
            assert(s.drop_last()[k] == i);
        }
        if s.last() == i {
            assert(s[s.len() - 1] == i);
        }
    }
}

/// Filtering a list keeps every occurrence of an index that passes the
/// test and none of one that fails it.
pub proof fn lemma_filter_occurrences(s: Seq<usize>, pred: spec_fn(usize) -> bool, i: usize)
    ensures
        occurrences(s.filter(pred), i) == if pred(i) {
            occurrences(s, i)
        } else {
            0
        },
    decreases s.len(),
{
    reveal(Seq::filter);
    if s.len() > 0 {
        lemma_filter_occurrences(s.drop_last(), pred, i);
        let rest = s.drop_last().filter(pred);
        if pred(s.last()) {
            assert(rest.push(s.last()).drop_last() =~= rest);
        }
    }
}

/// Each index below `n` occurs once among the first `n` indices, and no
/// other index occurs there.
pub proof fn lemma_indices_occurrences(n: nat, i: usize)
    requires
        n <= usize::MAX,
    ensures
        occurrences(indices(n), i) == if i < n {
            1nat
        } else {
            0nat
        },
    decreases n,
{
    if n > 0 {
        lemma_indices_occurrences((n - 1) as nat, i);
        assert(indices(n).drop_last() =~= indices((n - 1) as nat));
        assert(indices(n).last() == (n - 1) as usize);
    }
}

/// The listings of two sequences of cells add up.
pub proof fn lemma_listings_concat(a: Seq<Tree>, b: Seq<Tree>, i: usize)
    ensures
        listings(a + b, i) == listings(a, i) + listings(b, i),
    decreases b.len(),
{
    if b.len() == 0 {
        assert(a + b =~= a);
    } else {
        lemma_listings_concat(a, b.drop_last(), i);
        assert((a + b).drop_last() =~= a + b.drop_last());
        assert((a + b).last() == b.last());
    }
}

/// The leaves of a tree list each member as often as the list it was built
/// from.
pub proof fn lemma_subdivided_listings(
    pos1: Vec2,
    pos2: Vec2,
    ps: Seq<Particle>,
    members: Seq<usize>,
    i: usize,
)
    ensures
        listings(subdivided(pos1, pos2, ps, members).leaves(), i) == occurrences(members, i),
    decreases pos2.x.raw - pos1.x.raw,
{
    let tree = subdivided(pos1, pos2, ps, members);
    if members.len() > LEAF_CAPACITY && splittable(pos1, pos2) {
        let mid = midpoint(pos1, pos2);
        let q1 = spec_quadrant(pos1, pos2, 1);
        let q2 = spec_quadrant(pos1, pos2, 2);
        let q3 = spec_quadrant(pos1, pos2, 3);
        let q4 = spec_quadrant(pos1, pos2, 4);
        let m1 = members.filter(in_quadrant(ps, mid, 1));
        let m2 = members.filter(in_quadrant(ps, mid, 2));
        let m3 = members.filter(in_quadrant(ps, mid, 3));
        let m4 = members.filter(in_quadrant(ps, mid, 4));
        let l1 = subdivided(q1.0, q1.1, ps, m1).leaves();
        let l2 = subdivided(q2.0, q2.1, ps, m2).leaves();
        let l3 = subdivided(q3.0, q3.1, ps, m3).leaves();
        let l4 = subdivided(q4.0, q4.1, ps, m4).leaves();
        lemma_subdivided_listings(q1.0, q1.1, ps, m1, i);
        lemma_subdivided_listings(q2.0, q2.1, ps, m2, i);
        lemma_subdivided_listings(q3.0, q3.1, ps, m3, i);
        lemma_subdivided_listings(q4.0, q4.1, ps, m4, i);
        lemma_filter_occurrences(members, in_quadrant(ps, mid, 1), i);
        lemma_filter_occurrences(members, in_quadrant(ps, mid, 2), i);
        lemma_filter_occurrences(members, in_quadrant(ps, mid, 3), i);
        lemma_filter_occurrences(members, in_quadrant(ps, mid, 4), i);
        assert(tree.leaves() == l1 + l2 + l3 + l4);
        lemma_listings_concat(l1, l2, i);
        lemma_listings_concat(l1 + l2, l3, i);
        lemma_listings_concat(l1 + l2 + l3, l4, i);
    } else {
        assert(tree.leaves() =~= seq![tree]);
        assert(seq![tree].drop_last() =~= Seq::<Tree>::empty());
        assert(seq![tree].last() == tree);
        assert(listings(seq![tree].drop_last(), i) == 0);
    }
}

/// Covering: the leaves of a built index list a particle exactly once if
/// its centre lies strictly inside the indexed rectangle, and never
/// otherwise.
pub proof fn lemma_built_lists_once(pos1: Vec2, pos2: Vec2, ps: Seq<Particle>, i: usize)
    requires
        ps.len() <= usize::MAX,
    ensures
        listings(built(pos1, pos2, ps).leaves(), i) == if i < ps.len() && strictly_inside(
            ps[i as int].pos,
            pos1,
            pos2,
        ) {
            1nat
        } else {
            0nat
        },
{
    let inside = in_rectangle(ps, pos1, pos2);
    lemma_subdivided_listings(pos1, pos2, ps, indices(ps.len()).filter(inside), i);
    lemma_filter_occurrences(indices(ps.len()), inside, i);
    lemma_indices_occurrences(ps.len(), i);
}

/// Whether the leaves of `tree` list each particle whose centre lies
/// strictly inside the rectangle `pos1`-`pos2` exactly once, and list
/// nothing else.
pub open spec fn covers(tree: Tree, ps: Seq<Particle>, pos1: Vec2, pos2: Vec2) -> bool {
    forall|i: usize|
        #[trigger] listings(tree.leaves(), i) == if i < ps.len() && strictly_inside(
            ps[i as int].pos,
            pos1,
            pos2,
        ) {
            1nat
        } else {
            0nat
        }
}

/// Covering, for all particles at once.
pub proof fn lemma_built_covers_all(pos1: Vec2, pos2: Vec2, ps: Seq<Particle>)
    requires
        ps.len() <= usize::MAX,
    ensures
        covers(built(pos1, pos2, ps), ps, pos1, pos2),
{
    let tree = built(pos1, pos2, ps);
    assert forall|i: usize|
        #[trigger] listings(tree.leaves(), i) == if i < ps.len() && strictly_inside(
            ps[i as int].pos,
            pos1,
            pos2,
        ) {
            1nat
        } else {
            0nat
        } by {
        lemma_built_lists_once(pos1, pos2, ps, i);
    }
}

/// A cell lists an index at most as often as the whole sequence does.
pub proof fn lemma_listings_one(cells: Seq<Tree>, i: usize, k: int)
    requires
        0 <= k < cells.len(),
    ensures
        occurrences(cells[k].particles(), i) <= listings(cells, i),
    decreases cells.len(),
{
    if k < cells.len() - 1 {
        lemma_listings_one(cells.drop_last(), i, k);
    }
}

/// Two different cells together list an index at most as often as the
/// whole sequence does.
pub proof fn lemma_listings_two(cells: Seq<Tree>, i: usize, k1: int, k2: int)
    requires
        0 <= k1 < k2 < cells.len(),
    ensures
        occurrences(cells[k1].particles(), i) + occurrences(cells[k2].particles(), i) <= listings(
            cells,
            i,
        ),
    decreases cells.len(),
{
    if k2 < cells.len() - 1 {
        lemma_listings_two(cells.drop_last(), i, k1, k2);
    } else {
        lemma_listings_one(cells.drop_last(), i, k1);
    }
}

/// An index that is listed at all is listed by some cell.
pub proof fn lemma_listings_some(cells: Seq<Tree>, i: usize) -> (k: int)
    requires
        listings(cells, i) > 0,
    ensures
        0 <= k < cells.len(),
        occurrences(cells[k].particles(), i) > 0,
    decreases cells.len(),
{
    if occurrences(cells.last().particles(), i) > 0 {
        cells.len() - 1
    } else {
        lemma_listings_some(cells.drop_last(), i)
    }
}

/// Covering, leaf by leaf: a particle whose centre lies strictly inside
/// the indexed rectangle is found in one leaf of the built index, once,
/// and in no other leaf.
pub proof fn lemma_built_covers(pos1: Vec2, pos2: Vec2, ps: Seq<Particle>, i: usize) -> (k: int)
    requires
        ps.len() <= usize::MAX,
        i < ps.len(),
        strictly_inside(ps[i as int].pos, pos1, pos2),
    ensures
        0 <= k < built(pos1, pos2, ps).leaves().len(),
        occurrences(built(pos1, pos2, ps).leaves()[k].particles(), i) == 1,
        forall|j: int|
            0 <= j < built(pos1, pos2, ps).leaves().len() && j != k ==> !(#[trigger] built(
                pos1,
                pos2,
                ps,
            ).leaves()[j]).particles().contains(i),
{
    let leaves = built(pos1, pos2, ps).leaves();
    lemma_built_lists_once(pos1, pos2, ps, i);
    let k = lemma_listings_some(leaves, i);
    lemma_listings_one(leaves, i, k);
    assert forall|j: int| 0 <= j < leaves.len() && j != k implies !(#[trigger] leaves[j]).particles().contains(
        i,
    ) by {
        if j < k {
            lemma_listings_two(leaves, i, j, k);
        } else {
            lemma_listings_two(leaves, i, k, j);
        }
        lemma_occurrences_contains(leaves[j].particles(), i);
    }
    k
}

/// Whether the point lies in the rectangle, its upper and left sides left
/// out and its lower and right sides counted in. This is how a leaf holds
/// the centres of its particles: one on a dividing line belongs to the
/// quadrant with the lower number.
pub open spec fn holds(p: Vec2, pos1: Vec2, pos2: Vec2) -> bool {
    &&& pos1.x.raw < p.x.raw <= pos2.x.raw
    &&& pos1.y.raw < p.y.raw <= pos2.y.raw
}

/// Whether the rectangle has a positive width and a positive height.
pub open spec fn proper(pos1: Vec2, pos2: Vec2) -> bool {
    &&& pos1.x.raw < pos2.x.raw
    &&& pos1.y.raw < pos2.y.raw
}

/// Whether the cell lies inside the rectangle `pos1`-`pos2`.
pub open spec fn within(cell: Tree, pos1: Vec2, pos2: Vec2) -> bool {
    &&& pos1.x.raw <= cell.pos1().x.raw
    &&& cell.pos2().x.raw <= pos2.x.raw
    &&& pos1.y.raw <= cell.pos1().y.raw
    &&& cell.pos2().y.raw <= pos2.y.raw
}

/// Whether two cells have the same corners.
pub open spec fn same_rect(c: Tree, d: Tree) -> bool {
    c.pos1() == d.pos1() && c.pos2() == d.pos2()
}

/// Whether every listed index names a particle whose centre the rectangle
/// holds.
pub open spec fn members_held(members: Seq<usize>, ps: Seq<Particle>, pos1: Vec2, pos2: Vec2) -> bool {
    forall|m: int|
        0 <= m < members.len() ==> (#[trigger] members[m]) < ps.len() && holds(
            ps[members[m] as int].pos,
            pos1,
            pos2,
        )
}

/// What holds of each leaf of a built index: it is not divided, it holds
/// the centre of every particle that it lists, and it lists more than
/// `LEAF_CAPACITY` of them only if it is too small to be divided.
pub open spec fn leaf_sound(leaf: Tree, ps: Seq<Particle>) -> bool {
    &&& leaf is Leaf
    &&& members_held(leaf.particles(), ps, leaf.pos1(), leaf.pos2())
    &&& leaf.particles().len() <= LEAF_CAPACITY || !splittable(leaf.pos1(), leaf.pos2())
}

/// Whether every cell of the sequence passes the test.
pub open spec fn all_cells(cells: Seq<Tree>, test: spec_fn(Tree) -> bool) -> bool {
    forall|k: int| 0 <= k < cells.len() ==> test(#[trigger] cells[k])
}

/// Whether no two cells of the sequence have the same corners.
pub open spec fn all_distinct(cells: Seq<Tree>) -> bool {
    forall|a: int, b: int|
        0 <= a < b < cells.len() ==> !same_rect(#[trigger] cells[a], #[trigger] cells[b])
}

/// Whether no cell of the first sequence has the corners of one of the
/// second.
pub open spec fn all_differ(first: Seq<Tree>, second: Seq<Tree>) -> bool {
    forall|a: int, b: int|
        0 <= a < first.len() && 0 <= b < second.len() ==> !same_rect(
            #[trigger] first[a],
            #[trigger] second[b],
        )
}

/// The test for a cell with a positive width and height inside a
/// rectangle.
pub open spec fn fits_in(pos1: Vec2, pos2: Vec2) -> spec_fn(Tree) -> bool {
    |c: Tree| within(c, pos1, pos2) && proper(c.pos1(), c.pos2())
}

/// The test for a leaf that is sound for a population.
pub open spec fn sound_for(ps: Seq<Particle>) -> spec_fn(Tree) -> bool {
    |c: Tree| leaf_sound(c, ps)
}

/// What every cell of two sequences passes, every cell of both passes.
pub proof fn lemma_all_cells_concat(a: Seq<Tree>, b: Seq<Tree>, test: spec_fn(Tree) -> bool)
    requires
        all_cells(a, test),
        all_cells(b, test),
    ensures
        all_cells(a + b, test),
{
    assert forall|k: int| 0 <= k < (a + b).len() implies test(#[trigger] (a + b)[k]) by {
        if k < a.len() {
            assert((a + b)[k] == a[k]);
        } else {
            assert((a + b)[k] == b[k - a.len()]);
        }
    }
}

/// Two sequences without repeated corners, and none in common, give one
/// without repeated corners.
pub proof fn lemma_all_distinct_concat(a: Seq<Tree>, b: Seq<Tree>)
    requires
        all_distinct(a),
        all_distinct(b),
        all_differ(a, b),
    ensures
        all_distinct(a + b),
{
    let s = a + b;
    assert forall|x: int, y: int| 0 <= x < y < s.len() implies !same_rect(
        #[trigger] s[x],
        #[trigger] s[y],
    ) by {
        if y < a.len() {
            assert(s[x] == a[x] && s[y] == a[y]);
        } else if x < a.len() {
            assert(s[x] == a[x] && s[y] == b[y - a.len()]);
        } else {
            assert(s[x] == b[x - a.len()] && s[y] == b[y - a.len()]);
        }
    }
}

/// What differs from a third sequence in each of two, differs in both.
pub proof fn lemma_all_differ_concat(a: Seq<Tree>, b: Seq<Tree>, c: Seq<Tree>)
    requires
        all_differ(a, c),
        all_differ(b, c),
    ensures
        all_differ(a + b, c),
{
    let s = a + b;
    assert forall|x: int, y: int| 0 <= x < s.len() && 0 <= y < c.len() implies !same_rect(
        #[trigger] s[x],
        #[trigger] c[y],
    ) by {
        if x < a.len() {
            assert(s[x] == a[x]);
        } else {
            assert(s[x] == b[x - a.len()]);
        }
    }
}

/// Cells inside two rectangles that share at most a side have different
/// corners.
pub proof fn lemma_apart_differ(a: Seq<Tree>, a1: Vec2, a2: Vec2, b: Seq<Tree>, b1: Vec2, b2: Vec2)
    requires
        all_cells(a, fits_in(a1, a2)),
        all_cells(b, fits_in(b1, b2)),
        a2.x.raw <= b1.x.raw || a2.y.raw <= b1.y.raw || b2.x.raw <= a1.x.raw || b2.y.raw
            <= a1.y.raw,
    ensures
        all_differ(a, b),
{
    assert forall|x: int, y: int| 0 <= x < a.len() && 0 <= y < b.len() implies !same_rect(
        #[trigger] a[x],
        #[trigger] b[y],
    ) by {
        assert(fits_in(a1, a2)(a[x]));
        assert(fits_in(b1, b2)(b[y]));
    }
}

/// A cell inside a rectangle lies inside every rectangle around that one.
pub proof fn lemma_fits_in_wider(cells: Seq<Tree>, c1: Vec2, c2: Vec2, pos1: Vec2, pos2: Vec2)
    requires
        all_cells(cells, fits_in(c1, c2)),
        pos1.x.raw <= c1.x.raw,
        c2.x.raw <= pos2.x.raw,
        pos1.y.raw <= c1.y.raw,
        c2.y.raw <= pos2.y.raw,
    ensures
        all_cells(cells, fits_in(pos1, pos2)),
{
    assert forall|k: int| 0 <= k < cells.len() implies fits_in(pos1, pos2)(#[trigger] cells[k]) by {
        assert(fits_in(c1, c2)(cells[k]));
    }
}

/// The leaves of a tree over a rectangle with a positive width and height
/// have a positive width and height, lie inside that rectangle, and no two
/// of them have the same corners.
pub proof fn lemma_subdivided_geometry(pos1: Vec2, pos2: Vec2, ps: Seq<Particle>, members: Seq<usize>)
    requires
        proper(pos1, pos2),
    ensures
        all_cells(subdivided(pos1, pos2, ps, members).leaves(), fits_in(pos1, pos2)),
        all_distinct(subdivided(pos1, pos2, ps, members).leaves()),
    decreases pos2.x.raw - pos1.x.raw,
{
    let tree = subdivided(pos1, pos2, ps, members);
    if members.len() > LEAF_CAPACITY && splittable(pos1, pos2) {
        let mid = midpoint(pos1, pos2);
        let q1 = spec_quadrant(pos1, pos2, 1);
        let q2 = spec_quadrant(pos1, pos2, 2);
        let q3 = spec_quadrant(pos1, pos2, 3);
        let q4 = spec_quadrant(pos1, pos2, 4);
        let l1 = subdivided(q1.0, q1.1, ps, members.filter(in_quadrant(ps, mid, 1))).leaves();
        let l2 = subdivided(q2.0, q2.1, ps, members.filter(in_quadrant(ps, mid, 2))).leaves();
        let l3 = subdivided(q3.0, q3.1, ps, members.filter(in_quadrant(ps, mid, 3))).leaves();
        let l4 = subdivided(q4.0, q4.1, ps, members.filter(in_quadrant(ps, mid, 4))).leaves();
        assert(pos1.x.raw < mid.x.raw < pos2.x.raw);
        assert(pos1.y.raw < mid.y.raw < pos2.y.raw);
        lemma_subdivided_geometry(q1.0, q1.1, ps, members.filter(in_quadrant(ps, mid, 1)));
        lemma_subdivided_geometry(q2.0, q2.1, ps, members.filter(in_quadrant(ps, mid, 2)));
        lemma_subdivided_geometry(q3.0, q3.1, ps, members.filter(in_quadrant(ps, mid, 3)));
        lemma_subdivided_geometry(q4.0, q4.1, ps, members.filter(in_quadrant(ps, mid, 4)));
        assert(tree.leaves() == l1 + l2 + l3 + l4);
        lemma_apart_differ(l1, q1.0, q1.1, l2, q2.0, q2.1);
        lemma_apart_differ(l1, q1.0, q1.1, l3, q3.0, q3.1);
        lemma_apart_differ(l1, q1.0, q1.1, l4, q4.0, q4.1);
        lemma_apart_differ(l2, q2.0, q2.1, l3, q3.0, q3.1);
        lemma_apart_differ(l2, q2.0, q2.1, l4, q4.0, q4.1);
        lemma_apart_differ(l3, q3.0, q3.1, l4, q4.0, q4.1);
        lemma_all_distinct_concat(l1, l2);
        lemma_all_differ_concat(l1, l2, l3);
        lemma_all_distinct_concat(l1 + l2, l3);
        lemma_all_differ_concat(l1, l2, l4);
        lemma_all_differ_concat(l1 + l2, l3, l4);
        lemma_all_distinct_concat(l1 + l2 + l3, l4);
        lemma_fits_in_wider(l1, q1.0, q1.1, pos1, pos2);
        lemma_fits_in_wider(l2, q2.0, q2.1, pos1, pos2);
        lemma_fits_in_wider(l3, q3.0, q3.1, pos1, pos2);
        lemma_fits_in_wider(l4, q4.0, q4.1, pos1, pos2);
        lemma_all_cells_concat(l1, l2, fits_in(pos1, pos2));
        lemma_all_cells_concat(l1 + l2, l3, fits_in(pos1, pos2));
        lemma_all_cells_concat(l1 + l2 + l3, l4, fits_in(pos1, pos2));
    } else {
        assert(tree.leaves() =~= seq![tree]);
    }
}

/// The members that fall to a quadrant are held by it.
pub proof fn lemma_quadrant_members(
    pos1: Vec2,
    pos2: Vec2,
    ps: Seq<Particle>,
    members: Seq<usize>,
    part: int,
)
    requires
        members_held(members, ps, pos1, pos2),
        1 <= part <= 4,
    ensures
        members_held(
            members.filter(in_quadrant(ps, midpoint(pos1, pos2), part)),
            ps,
            spec_quadrant(pos1, pos2, part).0,
            spec_quadrant(pos1, pos2, part).1,
        ),
{
    let test = in_quadrant(ps, midpoint(pos1, pos2), part);
    let chosen = members.filter(test);
    assert forall|m: int| 0 <= m < chosen.len() implies (#[trigger] chosen[m]) < ps.len() && holds(
        ps[chosen[m] as int].pos,
        spec_quadrant(pos1, pos2, part).0,
        spec_quadrant(pos1, pos2, part).1,
    ) by {
        members.lemma_filter_pred(test, m);
        assert(chosen.contains(chosen[m]));
        members.lemma_filter_contains_rev(test, chosen[m]);
        let j = choose|j: int| 0 <= j < members.len() && members[j] == chosen[m];
        assert(members[j] < ps.len());
    }
}

/// Every leaf of a tree is sound if the rectangle holds the members that
/// the tree was built from.
pub proof fn lemma_subdivided_sound(pos1: Vec2, pos2: Vec2, ps: Seq<Particle>, members: Seq<usize>)
    requires
        members_held(members, ps, pos1, pos2),
    ensures
        all_cells(subdivided(pos1, pos2, ps, members).leaves(), sound_for(ps)),
    decreases pos2.x.raw - pos1.x.raw,
{
    let tree = subdivided(pos1, pos2, ps, members);
    if members.len() > LEAF_CAPACITY && splittable(pos1, pos2) {
        let mid = midpoint(pos1, pos2);
        let q1 = spec_quadrant(pos1, pos2, 1);
        let q2 = spec_quadrant(pos1, pos2, 2);
        let q3 = spec_quadrant(pos1, pos2, 3);
        let q4 = spec_quadrant(pos1, pos2, 4);
        let m1 = members.filter(in_quadrant(ps, mid, 1));
        let m2 = members.filter(in_quadrant(ps, mid, 2));
        let m3 = members.filter(in_quadrant(ps, mid, 3));
        let m4 = members.filter(in_quadrant(ps, mid, 4));
        let l1 = subdivided(q1.0, q1.1, ps, m1).leaves();
        let l2 = subdivided(q2.0, q2.1, ps, m2).leaves();
        let l3 = subdivided(q3.0, q3.1, ps, m3).leaves();
        let l4 = subdivided(q4.0, q4.1, ps, m4).leaves();
        lemma_quadrant_members(pos1, pos2, ps, members, 1);
        lemma_quadrant_members(pos1, pos2, ps, members, 2);
        lemma_quadrant_members(pos1, pos2, ps, members, 3);
        lemma_quadrant_members(pos1, pos2, ps, members, 4);
        lemma_subdivided_sound(q1.0, q1.1, ps, m1);
        lemma_subdivided_sound(q2.0, q2.1, ps, m2);
        lemma_subdivided_sound(q3.0, q3.1, ps, m3);
        lemma_subdivided_sound(q4.0, q4.1, ps, m4);
        assert(tree.leaves() == l1 + l2 + l3 + l4);
        lemma_all_cells_concat(l1, l2, sound_for(ps));
        lemma_all_cells_concat(l1 + l2, l3, sound_for(ps));
        lemma_all_cells_concat(l1 + l2 + l3, l4, sound_for(ps));
    } else {
        assert(tree.leaves() =~= seq![tree]);
        assert(leaf_sound(tree, ps));
    }
}

/// The rectangle of a built index holds every member that the index
/// starts from.
pub proof fn lemma_built_members(pos1: Vec2, pos2: Vec2, ps: Seq<Particle>)
    requires
        ps.len() <= usize::MAX,
    ensures
        members_held(indices(ps.len()).filter(in_rectangle(ps, pos1, pos2)), ps, pos1, pos2),
{
    let test = in_rectangle(ps, pos1, pos2);
    let all = indices(ps.len());
    let chosen = all.filter(test);
    assert forall|m: int| 0 <= m < chosen.len() implies (#[trigger] chosen[m]) < ps.len() && holds(
        ps[chosen[m] as int].pos,
        pos1,
        pos2,
    ) by {
        all.lemma_filter_pred(test, m);
        assert(chosen.contains(chosen[m]));
        all.lemma_filter_contains_rev(test, chosen[m]);
        let j = choose|j: int| 0 <= j < all.len() && all[j] == chosen[m];
        assert(all[j] == j as usize);
    }
}

/// The build contract, leaf by leaf: every leaf of a built index is not
/// divided, holds the centre of each particle that it lists, and lists
/// more than `LEAF_CAPACITY` particles only if it is too small to be
/// divided.
pub proof fn lemma_built_leaves_sound(pos1: Vec2, pos2: Vec2, ps: Seq<Particle>, k: int)
    requires
        ps.len() <= usize::MAX,
        0 <= k < built(pos1, pos2, ps).leaves().len(),
    ensures
        leaf_sound(built(pos1, pos2, ps).leaves()[k], ps),
{
    lemma_built_members(pos1, pos2, ps);
    lemma_subdivided_sound(pos1, pos2, ps, indices(ps.len()).filter(in_rectangle(ps, pos1, pos2)));
    assert(sound_for(ps)(built(pos1, pos2, ps).leaves()[k]));
}

/// Whether the points `p` and `q` are at most `margin` apart.
pub open spec fn close(p: Vec2, q: Vec2, margin: Fixed) -> bool {
    &&& margin.raw >= 0
    &&& (q.x.raw - p.x.raw) * (q.x.raw - p.x.raw) + (q.y.raw - p.y.raw) * (q.y.raw - p.y.raw)
        <= margin.raw * margin.raw
}

/// Points at most `margin` apart are at most `margin` apart along each
/// axis.
pub proof fn lemma_close_by_axis(p: Vec2, q: Vec2, margin: Fixed)
    requires
        close(p, q, margin),
    ensures
        -margin.raw <= q.x.raw - p.x.raw <= margin.raw,
        -margin.raw <= q.y.raw - p.y.raw <= margin.raw,
{
    let dx = q.x.raw - p.x.raw;
    let dy = q.y.raw - p.y.raw;
    let m = margin.raw as int;
    assert(-m <= dx <= m && -m <= dy <= m) by (nonlinear_arith)
        requires
            m >= 0,
            dx * dx + dy * dy <= m * m,
    ;
}

/// Soundness of the neighbour query: in a built index, take the leaf that
/// lists a particle `p` and the leaf that lists a particle `q` at most
/// `margin` away from `p`. Either they are the same leaf, or the second is
/// among the neighbours of the first.
pub proof fn lemma_neighbors_sound(
    pos1: Vec2,
    pos2: Vec2,
    ps: Seq<Particle>,
    margin: Fixed,
    a: int,
    b: int,
    p: usize,
    q: usize,
)
    requires
        ps.len() <= usize::MAX,
        0 <= a < built(pos1, pos2, ps).leaves().len(),
        0 <= b < built(pos1, pos2, ps).leaves().len(),
        built(pos1, pos2, ps).leaves()[a].particles().contains(p),
        built(pos1, pos2, ps).leaves()[b].particles().contains(q),
        close(ps[p as int].pos, ps[q as int].pos, margin),
    ensures
        a == b || neighbors(
            built(pos1, pos2, ps),
            built(pos1, pos2, ps).leaves()[a].pos1(),
            built(pos1, pos2, ps).leaves()[a].pos2(),
            margin,
        ).contains(built(pos1, pos2, ps).leaves()[b]),
{
    let tree = built(pos1, pos2, ps);
    let leaves = tree.leaves();
    let home = leaves[a];
    let other = leaves[b];
    lemma_built_leaves_sound(pos1, pos2, ps, a);
    lemma_built_leaves_sound(pos1, pos2, ps, b);
    let mp = choose|m: int| 0 <= m < home.particles().len() && home.particles()[m] == p;
    let mq = choose|m: int| 0 <= m < other.particles().len() && other.particles()[m] == q;
    assert(holds(ps[home.particles()[mp] as int].pos, home.pos1(), home.pos2()));
    assert(holds(ps[other.particles()[mq] as int].pos, other.pos1(), other.pos2()));
    lemma_close_by_axis(ps[p as int].pos, ps[q as int].pos, margin);
    assert(reaches(home.pos1(), home.pos2(), margin, other.pos1(), other.pos2()));
    if a != b {
        lemma_built_members(pos1, pos2, ps);
        let members = indices(ps.len()).filter(in_rectangle(ps, pos1, pos2));
        assert(members.len() > 0) by {
            lemma_built_lists_once(pos1, pos2, ps, p);
            lemma_occurrences_contains(home.particles(), p);
            lemma_listings_one(leaves, p, a);
            lemma_subdivided_listings(pos1, pos2, ps, members, p);
        }
        assert(holds(ps[members[0] as int].pos, pos1, pos2));
        lemma_subdivided_geometry(pos1, pos2, ps, members);
        if a < b {
            assert(!same_rect(leaves[a], leaves[b]));
        } else {
            assert(!same_rect(leaves[b], leaves[a]));
        }
        assert(near_cell(home.pos1(), home.pos2(), margin)(other));
        leaves.lemma_filter_contains(near_cell(home.pos1(), home.pos2(), margin), b);
    }
}

} // verus!
