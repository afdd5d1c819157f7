//! The four quadrants around an origin and their local coordinates.
use vstd::prelude::*;

verus! {

/// A grid position `(x, y)`.
pub type Pos = (isize, isize);

/// The direction a quadrant faces from the origin.
#[derive(Clone, Copy, Debug, PartialEq, Eq, Structural)]
pub enum Cardinal {
    North,
    East,
    South,
    West,
}

/// The cardinal a quadrant index stands for, in the fixed order
/// north, east, south, west.
pub open spec fn cardinal_of(index: int) -> Cardinal {
    if index == 0 {
        Cardinal::North
    } else if index == 1 {
        Cardinal::East
    } else if index == 2 {
        Cardinal::South
    } else {
        Cardinal::West
    }
}

impl Cardinal {
    pub fn from_index(index: usize) -> (r: Cardinal)
        requires
            index < 4,
        ensures
            r == cardinal_of(index as int),
    {
        match index {
            0 => Cardinal::North,
            1 => Cardinal::East,
            2 => Cardinal::South,
            _ => Cardinal::West,
        }
    }
}

/// One quadrant around an origin.
#[derive(Clone, Copy, Debug, PartialEq, Eq, Structural)]
pub struct Quadrant {
    pub cardinal: Cardinal,
    pub ox: isize,
    pub oy: isize,
}

/// The absolute position of the quadrant-local tile `(depth, col)`.
pub open spec fn transform_spec(q: Quadrant, depth: int, col: int) -> (int, int) {
    match q.cardinal {
        Cardinal::North => (q.ox + col, q.oy - depth),
        Cardinal::South => (q.ox + col, q.oy + depth),
        Cardinal::East => (q.ox + depth, q.oy + col),
        Cardinal::West => (q.ox - depth, q.oy + col),
    }
}

pub open spec fn fits_isize(x: int) -> bool {
    isize::MIN <= x <= isize::MAX
}

/// Every tile within `reach` of the origin, in depth and in column, has a
/// position that fits in `isize`.
pub open spec fn origin_fits(ox: int, oy: int, reach: int) -> bool {
    &&& fits_isize(ox - reach)
    &&& fits_isize(ox + reach)
    &&& fits_isize(oy - reach)
    &&& fits_isize(oy + reach)
}

impl Quadrant {
    pub fn new(cardinal: Cardinal, origin: Pos) -> (r: Quadrant)
        ensures
            r == (Quadrant { cardinal, ox: origin.0, oy: origin.1 }),
    {
        Quadrant { cardinal, ox: origin.0, oy: origin.1 }
    }

    pub fn transform(&self, tile: Pos) -> (r: Pos)
        requires
            fits_isize(transform_spec(*self, tile.0 as int, tile.1 as int).0),
            fits_isize(transform_spec(*self, tile.0 as int, tile.1 as int).1),
        ensures
            (r.0 as int, r.1 as int) == transform_spec(*self, tile.0 as int, tile.1 as int),
    {
        let (depth, col) = tile;
        match self.cardinal {
            Cardinal::North => (self.ox + col, self.oy - depth),
            Cardinal::South => (self.ox + col, self.oy + depth),
            Cardinal::East => (self.ox + depth, self.oy + col),
            Cardinal::West => (self.ox - depth, self.oy + col),
        }
    }
}

} // verus!
