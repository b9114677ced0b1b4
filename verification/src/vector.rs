//! Points and vectors of the plane.

use vstd::prelude::*;

verus! {

/// Where an entity is: fixed-point coordinates in the caller's unit.
#[derive(Clone, Copy, Debug, PartialEq, Eq, Structural)]
pub struct Position {
    pub x: i32,
    pub y: i32,
}

/// A force, or the displacement it causes, in the unit of the coordinates.
///
/// The components are wide enough to hold the sum of the forces that any
/// number of participants can exert on one of them.
#[derive(Clone, Copy, Debug, PartialEq, Eq, Structural)]
pub struct Force {
    pub x: i128,
    pub y: i128,
}

/// A vector with unbounded components: what a `Force` stands for.
pub struct Vector {
    pub x: int,
    pub y: int,
}

impl Vector {
    /// The vector of length zero.
    pub open spec fn zero() -> Vector {
        Vector { x: 0, y: 0 }
    }

    /// Component-wise sum.
    pub open spec fn plus(self, other: Vector) -> Vector {
        Vector { x: self.x + other.x, y: self.y + other.y }
    }

    /// The vector of the same length that points the other way.
    pub open spec fn negated(self) -> Vector {
        Vector { x: -self.x, y: -self.y }
    }
}

impl View for Force {
    type V = Vector;

    open spec fn view(&self) -> Vector {
        Vector { x: self.x as int, y: self.y as int }
    }
}

/// The coordinate nearest to `v` that an `i32` can hold.
pub open spec fn saturate(v: int) -> i32 {
    if v < i32::MIN {
        i32::MIN
    } else if v > i32::MAX {
        i32::MAX
    } else {
        v as i32
    }
}

/// Where `p` ends up when it is moved by `f`; a coordinate that would leave
/// the range of `i32` stops at the end of that range.
pub open spec fn displaced(p: Position, f: Vector) -> Position {
    Position { x: saturate(p.x + f.x), y: saturate(p.y + f.y) }
}

impl Position {
    /// Moves the position by `f`, stopping at the ends of the coordinate range.
    pub fn displace(self, f: Force) -> (moved: Position)
        ensures
            moved == displaced(self, f@),
    {
        Position { x: shift(self.x, f.x), y: shift(self.y, f.y) }
    }
}

/// Adds `by` to the coordinate `c` and brings the sum back into range.
fn shift(c: i32, by: i128) -> (r: i32)
    ensures
        r == saturate(c + by),
{
    if by > i32::MAX as i128 - c as i128 {
        i32::MAX
    } else if by < i32::MIN as i128 - c as i128 {
        i32::MIN
    } else {
        (c as i128 + by) as i32
    }
}

} // verus!
