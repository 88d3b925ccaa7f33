//! Drawing commands for the host to carry out.
use crate::fixed::Fixed;
use crate::grid::get_leaf_cells;
use crate::grid::GridCell;
use crate::grid::Tree;
use crate::grid::views;
use crate::particle::Particle;
use crate::particle::Rgba;
use vstd::prelude::*;

verus! {

/// One primitive for the host to draw.
#[derive(Clone, Debug, PartialEq, Eq)]
pub enum DrawCommand {
    /// A filled disc around `(x, y)`.
    FillCircle { x: Fixed, y: Fixed, radius: Fixed, color: Rgba },
    /// The outline of the rectangle with the corner `(x, y)`.
    StrokeRect { x: Fixed, y: Fixed, width: Fixed, height: Fixed, color: Rgba },
    /// A line of text that starts at `(x, y)`.
    Text { x: Fixed, y: Fixed, size: Fixed, color: Rgba, text: String },
}

/// The disc that shows a particle.
pub open spec fn circle_of(p: Particle) -> DrawCommand {
    DrawCommand::FillCircle { x: p.pos.x, y: p.pos.y, radius: p.radius, color: p.color }
}

/// The white outline that shows a cell: its upper left corner, its width
/// and its height.
pub open spec fn outline_of(cell: Tree) -> DrawCommand {
    DrawCommand::StrokeRect {
        x: cell.pos1().x,
        y: cell.pos1().y,
        width: cell.pos2().x.spec_sub(cell.pos1().x),
        height: cell.pos2().y.spec_sub(cell.pos1().y),
        color: Rgba::spec_white(),
    }
}

/// The discs of a population, in its order.
pub open spec fn circles(ps: Seq<Particle>) -> Seq<DrawCommand> {
    ps.map_values(|p: Particle| circle_of(p))
}

/// The outlines of the leaves of a tree, in depth-first order.
pub open spec fn outlines(tree: Tree) -> Seq<DrawCommand> {
    tree.leaves().map_values(|c: Tree| outline_of(c))
}

impl Particle {
    /// The command that draws the particle.
    pub fn draw(&self) -> (command: DrawCommand)
        ensures
            command == circle_of(*self),
    {
        DrawCommand::FillCircle { x: self.pos.x, y: self.pos.y, radius: self.radius, color: self.color }
    }
}

impl GridCell {
    /// The commands that draw the leaves below this cell.
    pub fn draw(&self) -> (commands: Vec<DrawCommand>)
        ensures
            commands@ == outlines(self@),
    {
        let leaves = get_leaf_cells(self);
        let mut commands: Vec<DrawCommand> = Vec::new();
        let mut k: usize = 0;
        while k < leaves.len()
            invariant
                k <= leaves.len(),
                commands@ == views(leaves@).take(k as int).map_values(|c: Tree| outline_of(c)),
            decreases leaves.len() - k,
        {
            let leaf = leaves[k];
            let corner = leaf.pos1();
            let opposite = leaf.pos2();
            commands.push(
                DrawCommand::StrokeRect {
                    x: corner.x,
                    y: corner.y,
                    width: opposite.x.sub(corner.x),
                    height: opposite.y.sub(corner.y),
                    color: Rgba::white(),
                },
            );
            k += 1;
            assert(commands@ =~= views(leaves@).take(k as int).map_values(|c: Tree| outline_of(c)));
        }
        assert(views(leaves@).take(leaves.len() as int) =~= views(leaves@));
        commands
    }
}

} // verus!
