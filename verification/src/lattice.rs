use vstd::prelude::*;

verus! {

/// A point on the discrete 3D lattice.
#[derive(Clone, Copy, PartialEq, Eq, Structural, Debug)]
pub struct Point {
    pub x: i32,
    pub y: i32,
    pub z: i32,
}

impl Point {
    pub fn new(x: i32, y: i32, z: i32) -> (p: Point)
        ensures
            p == (Point { x, y, z }),
    {
        Point { x, y, z }
    }
}

/// One of the six face normals of an axis-aligned box.
#[derive(Clone, Copy, PartialEq, Eq, Structural, Debug)]
pub enum Direction {
    PosX,
    NegX,
    PosY,
    NegY,
    PosZ,
    NegZ,
}

impl Direction {
    /// Whether this direction points along the negative side of its axis.
    pub fn is_negative(&self) -> (r: bool)
        ensures
            r == self.spec_is_negative(),
    {
        match self {
            Direction::NegX | Direction::NegY | Direction::NegZ => true,
            _ => false,
        }
    }

    pub open spec fn spec_is_negative(self) -> bool {
        self == Direction::NegX || self == Direction::NegY || self == Direction::NegZ
    }

    /// The direction pointing the opposite way.
    pub fn negate(&self) -> (r: Direction)
        ensures
            r == self.spec_negate(),
    {
        match self {
            Direction::PosX => Direction::NegX,
            Direction::NegX => Direction::PosX,
            Direction::PosY => Direction::NegY,
            Direction::NegY => Direction::PosY,
            Direction::PosZ => Direction::NegZ,
            Direction::NegZ => Direction::PosZ,
        }
    }

    pub open spec fn spec_negate(self) -> Direction {
        match self {
            Direction::PosX => Direction::NegX,
            Direction::NegX => Direction::PosX,
            Direction::PosY => Direction::NegY,
            Direction::NegY => Direction::PosY,
            Direction::PosZ => Direction::NegZ,
            Direction::NegZ => Direction::PosZ,
        }
    }
}

} // verus!
