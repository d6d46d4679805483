//! Wrap topology: which neighbor, if any, a coordinate has in a direction.

use vstd::prelude::*;
use crate::grid::Size;

verus! {

/// Direction towards smaller x.
pub const DIR_LEFT: u32 = 0;
/// Direction towards larger x.
pub const DIR_RIGHT: u32 = 1;
/// Direction towards smaller y.
pub const DIR_UP: u32 = 2;
/// Direction towards larger y.
pub const DIR_DOWN: u32 = 3;

/// Number of cardinal directions.
pub const NUM_DIRS: u32 = 4;

/// Topology policy for the output grid: which edges wrap around.
#[derive(Clone, Copy, PartialEq, Eq, Structural, Debug)]
pub enum Wrap {
    /// Edges have no neighbor in the out-of-bounds direction.
    NoWrap,
    /// Toroidal on the x axis only.
    WrapX,
    /// Toroidal on the y axis only.
    WrapY,
    /// Toroidal on both axes.
    WrapXY,
}

impl Wrap {
    pub open spec fn wraps_x(self) -> bool {
        self is WrapX || self is WrapXY
    }

    pub open spec fn wraps_y(self) -> bool {
        self is WrapY || self is WrapXY
    }

    /// Whether (x, y) has a neighbor in direction `d` under this policy.
    pub open spec fn spec_has_neighbor(self, size: Size, x: int, y: int, d: int) -> bool {
        if d == DIR_LEFT as int {
            x > 0 || self.wraps_x()
        } else if d == DIR_RIGHT as int {
            x < size.width as int - 1 || self.wraps_x()
        } else if d == DIR_UP as int {
            y > 0 || self.wraps_y()
        } else {
            y < size.height as int - 1 || self.wraps_y()
        }
    }

    /// x coordinate of that neighbor (meaningful only when it exists).
    pub open spec fn spec_neighbor_x(self, size: Size, x: int, y: int, d: int) -> int {
        if d == DIR_LEFT as int {
            if x > 0 { x - 1 } else { size.width as int - 1 }
        } else if d == DIR_RIGHT as int {
            if x < size.width as int - 1 { x + 1 } else { 0 }
        } else {
            x
        }
    }

    /// y coordinate of that neighbor (meaningful only when it exists).
    pub open spec fn spec_neighbor_y(self, size: Size, x: int, y: int, d: int) -> int {
        if d == DIR_UP as int {
            if y > 0 { y - 1 } else { size.height as int - 1 }
        } else if d == DIR_DOWN as int {
            if y < size.height as int - 1 { y + 1 } else { 0 }
        } else {
            y
        }
    }

    /// Neighbor of (x, y) in direction `d`, or `None` at a non-wrapping edge.
    pub fn neighbor(self, size: Size, x: u32, y: u32, d: u32) -> (r: Option<(u32, u32)>)
        requires
            d < NUM_DIRS,
            size.width >= 1,
            size.height >= 1,
            x < size.width,
            y < size.height,
        ensures
            r is Some <==> self.spec_has_neighbor(size, x as int, y as int, d as int),
            r matches Some(c) ==> ({
                &&& c.0 as int == self.spec_neighbor_x(size, x as int, y as int, d as int)
                &&& c.1 as int == self.spec_neighbor_y(size, x as int, y as int, d as int)
                &&& c.0 < size.width
                &&& c.1 < size.height
            }),
    {
        let wx = match self {
            Wrap::WrapX => true,
            Wrap::WrapXY => true,
            _ => false,
        };
        let wy = match self {
            Wrap::WrapY => true,
            Wrap::WrapXY => true,
            _ => false,
        };
        if d == DIR_LEFT {
            if x > 0 {
                Some((x - 1, y))
            } else if wx {
                Some((size.width - 1, y))
            } else {
                None
            }
        } else if d == DIR_RIGHT {
            if x < size.width - 1 {
                Some((x + 1, y))
            } else if wx {
                Some((0, y))
            } else {
                None
            }
        } else if d == DIR_UP {
            if y > 0 {
                Some((x, y - 1))
            } else if wy {
                Some((x, size.height - 1))
            } else {
                None
            }
        } else {
            if y < size.height - 1 {
                Some((x, y + 1))
            } else if wy {
                Some((x, 0))
            } else {
                None
            }
        }
    }
}

} // verus!
