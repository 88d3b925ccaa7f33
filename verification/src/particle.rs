//! The bodies of the simulation.
use crate::fixed::clamp;
use crate::fixed::Fixed;
use crate::fixed::SCALE;
use crate::fixed::scaled;
use crate::vec2::Vec2;
use vstd::prelude::*;

verus! {

/// An opaque colour: red, green, blue and alpha, each from 0 to 255.
#[derive(Clone, Copy, Debug, PartialEq, Eq, Structural)]
pub struct Rgba {
    pub r: u8,
    pub g: u8,
    pub b: u8,
    pub a: u8,
}

impl Rgba {
    /// Opaque white.
    pub open spec fn spec_white() -> Rgba {
        Rgba { r: 255, g: 255, b: 255, a: 255 }
    }

    /// Opaque white.
    pub fn white() -> (c: Rgba)
        ensures
            c == Rgba::spec_white(),
    {
        Rgba { r: 255, g: 255, b: 255, a: 255 }
    }
}

/// Radius of a particle that was given none, in whole pixels.
pub const DEFAULT_RADIUS: i32 = 10;

/// A circular body: its centre in pixels, its velocity in pixels per second,
/// its radius and its colour.
#[derive(Clone, Copy, Debug, PartialEq, Eq, Structural)]
pub struct Particle {
    pub pos: Vec2,
    pub vel: Vec2,
    pub radius: Fixed,
    pub color: Rgba,
}

impl Particle {
    /// A particle is well formed when its radius is positive.
    pub open spec fn wf(self) -> bool {
        self.radius.raw > 0
    }

    /// The particle that `default` returns: at rest at the origin, white,
    /// with the default radius.
    pub open spec fn spec_default() -> Particle {
        Particle {
            pos: Vec2 { x: Fixed { raw: 0 }, y: Fixed { raw: 0 } },
            vel: Vec2 { x: Fixed { raw: 0 }, y: Fixed { raw: 0 } },
            radius: Fixed { raw: (DEFAULT_RADIUS * SCALE) as i64 },
            color: Rgba::spec_white(),
        }
    }
}

impl Default for Particle {
    fn default() -> (r: Particle)
        ensures
            r == Particle::spec_default(),
            r.wf(),
    {
        Particle {
            pos: Vec2::zero(),
            vel: Vec2::zero(),
            radius: Fixed::from_int(DEFAULT_RADIUS),
            color: Rgba::white(),
        }
    }
}

/// The left and upper margin of the reference layout, in whole pixels.
pub const LAYOUT_MARGIN: usize = 100;

/// The number of particles in one row of the reference layout.
pub const LAYOUT_ROW: usize = 100;

/// Particle `i` of the reference layout: at rest, white, with the default
/// radius, one pixel right of its predecessor in rows of `LAYOUT_ROW`, each
/// row one pixel below the last.
pub open spec fn layout_particle(i: usize) -> Particle {
    Particle {
        pos: Vec2 {
            x: Fixed::of((LAYOUT_MARGIN + i % LAYOUT_ROW) * SCALE),
            y: Fixed::of((LAYOUT_MARGIN + i / LAYOUT_ROW) * SCALE),
        },
        vel: Vec2 { x: Fixed { raw: 0 }, y: Fixed { raw: 0 } },
        radius: Fixed { raw: (DEFAULT_RADIUS * SCALE) as i64 },
        color: Rgba::spec_white(),
    }
}

/// The first `count` particles of the reference layout.
pub fn reference_layout(count: usize) -> (ps: Vec<Particle>)
    ensures
        ps@ == Seq::new(count as nat, |i: int| layout_particle(i as usize)),
{
    let mut ps: Vec<Particle> = Vec::new();
    let mut i: usize = 0;
    while i < count
        invariant
            i <= count,
            ps@ == Seq::new(i as nat, |k: int| layout_particle(k as usize)),
        decreases count - i,
    {
        let column: i64 = (LAYOUT_MARGIN + i % LAYOUT_ROW) as i64;
        let row: i64 = (LAYOUT_MARGIN as u64 + (i / LAYOUT_ROW) as u64) as i64;
        ps.push(
            Particle {
                pos: Vec2 {
                    x: Fixed { raw: clamp(scaled(column)) },
                    y: Fixed { raw: clamp(scaled(row)) },
                },
                vel: Vec2::zero(),
                radius: Fixed::from_int(DEFAULT_RADIUS),
                color: Rgba::white(),
            },
        );
        i += 1;
        assert(ps@ =~= Seq::new(i as nat, |k: int| layout_particle(k as usize)));
    }
    ps
}

} // verus!
