//! The eight symmetries of a square window, used to multiply training data
//! during pattern extraction.

use vstd::prelude::*;

verus! {

/// One of the eight symmetries of a square: the identity, three rotations,
/// and the mirror image of each.
#[derive(Clone, Copy, PartialEq, Eq, Structural, Debug)]
pub enum Orientation {
    Original,
    Clockwise90,
    Clockwise180,
    Clockwise270,
    Flipped,
    FlippedClockwise90,
    FlippedClockwise180,
    FlippedClockwise270,
}

impl Orientation {
    /// x component of the source offset that fills window offset (dx, dy)
    /// of an edge-`n` window under this symmetry.
    pub open spec fn spec_src_x(self, n: int, dx: int, dy: int) -> int {
        match self {
            Orientation::Original => dx,
            Orientation::Clockwise90 => n - 1 - dy,
            Orientation::Clockwise180 => n - 1 - dx,
            Orientation::Clockwise270 => dy,
            Orientation::Flipped => n - 1 - dx,
            Orientation::FlippedClockwise90 => dy,
            Orientation::FlippedClockwise180 => dx,
            Orientation::FlippedClockwise270 => n - 1 - dy,
        }
    }

    /// y component of the source offset that fills window offset (dx, dy)
    /// of an edge-`n` window under this symmetry.
    pub open spec fn spec_src_y(self, n: int, dx: int, dy: int) -> int {
        match self {
            Orientation::Original => dy,
            Orientation::Clockwise90 => dx,
            Orientation::Clockwise180 => n - 1 - dy,
            Orientation::Clockwise270 => n - 1 - dx,
            Orientation::Flipped => dy,
            Orientation::FlippedClockwise90 => dx,
            Orientation::FlippedClockwise180 => n - 1 - dy,
            Orientation::FlippedClockwise270 => n - 1 - dx,
        }
    }

    /// Source offset for window offset (dx, dy) of an edge-`n` window.
    pub fn src_offset(self, n: u32, dx: u32, dy: u32) -> (r: (u32, u32))
        requires
            n >= 1,
            dx < n,
            dy < n,
        ensures
            r.0 as int == self.spec_src_x(n as int, dx as int, dy as int),
            r.1 as int == self.spec_src_y(n as int, dx as int, dy as int),
            r.0 < n,
            r.1 < n,
    {
        match self {
            Orientation::Original => (dx, dy),
            Orientation::Clockwise90 => (n - 1 - dy, dx),
            Orientation::Clockwise180 => (n - 1 - dx, n - 1 - dy),
            Orientation::Clockwise270 => (dy, n - 1 - dx),
            Orientation::Flipped => (n - 1 - dx, dy),
            Orientation::FlippedClockwise90 => (dy, dx),
            Orientation::FlippedClockwise180 => (dx, n - 1 - dy),
            Orientation::FlippedClockwise270 => (n - 1 - dy, n - 1 - dx),
        }
    }
}

/// All eight symmetries, the identity first.
pub fn all_orientations() -> (r: Vec<Orientation>)
    ensures
        r@.len() == 8,
        r@[0] == Orientation::Original,
        r@[1] == Orientation::Clockwise90,
        r@[2] == Orientation::Clockwise180,
        r@[3] == Orientation::Clockwise270,
        r@[4] == Orientation::Flipped,
        r@[5] == Orientation::FlippedClockwise90,
        r@[6] == Orientation::FlippedClockwise180,
        r@[7] == Orientation::FlippedClockwise270,
{
    let mut v: Vec<Orientation> = Vec::new();
    v.push(Orientation::Original);
    v.push(Orientation::Clockwise90);
    v.push(Orientation::Clockwise180);
    v.push(Orientation::Clockwise270);
    v.push(Orientation::Flipped);
    v.push(Orientation::FlippedClockwise90);
    v.push(Orientation::FlippedClockwise180);
    v.push(Orientation::FlippedClockwise270);
    v
}

} // verus!
