use vstd::prelude::*;

verus! {

/// The walls standing around one maze cell, one flag per side.
///
/// `north` faces the row above (smaller row index), `south` the row below,
/// `west` the column to the left and `east` the column to the right.
#[derive(Clone, Copy, Debug, PartialEq, Eq, Structural)]
pub struct Wall {
    pub north: bool,
    pub east: bool,
    pub south: bool,
    pub west: bool,
}

impl Wall {
    /// A cell closed on all four sides.
    pub open spec fn spec_all() -> Wall {
        Wall { north: true, east: true, south: true, west: true }
    }

    /// A cell open on all four sides.
    pub open spec fn spec_empty() -> Wall {
        Wall { north: false, east: false, south: false, west: false }
    }

    /// The single wall on the north side.
    pub open spec fn spec_north() -> Wall {
        Wall { north: true, east: false, south: false, west: false }
    }

    /// The single wall on the east side.
    pub open spec fn spec_east() -> Wall {
        Wall { north: false, east: true, south: false, west: false }
    }

    /// The single wall on the south side.
    pub open spec fn spec_south() -> Wall {
        Wall { north: false, east: false, south: true, west: false }
    }

    /// The single wall on the west side.
    pub open spec fn spec_west() -> Wall {
        Wall { north: false, east: false, south: false, west: true }
    }

    /// A cell closed on all four sides.
    pub fn all() -> (w: Wall)
        ensures
            w == Wall::spec_all(),
    {
        Wall { north: true, east: true, south: true, west: true }
    }

    /// A cell open on all four sides.
    pub fn empty() -> (w: Wall)
        ensures
            w == Wall::spec_empty(),
    {
        Wall { north: false, east: false, south: false, west: false }
    }

    /// The single wall on the north side.
    pub fn north() -> (w: Wall)
        ensures
            w == Wall::spec_north(),
    {
        Wall { north: true, east: false, south: false, west: false }
    }

    /// The single wall on the east side.
    pub fn east() -> (w: Wall)
        ensures
            w == Wall::spec_east(),
    {
        Wall { north: false, east: true, south: false, west: false }
    }

    /// The single wall on the south side.
    pub fn south() -> (w: Wall)
        ensures
            w == Wall::spec_south(),
    {
        Wall { north: false, east: false, south: true, west: false }
    }

    /// The single wall on the west side.
    pub fn west() -> (w: Wall)
        ensures
            w == Wall::spec_west(),
    {
        Wall { north: false, east: false, south: false, west: true }
    }

    /// The walls of `self` without those of `other` (`self & !other`).
    pub open spec fn spec_without(self, other: Wall) -> Wall {
        Wall {
            north: self.north && !other.north,
            east: self.east && !other.east,
            south: self.south && !other.south,
            west: self.west && !other.west,
        }
    }

    /// Whether every wall of `other` also stands in `self`.
    pub open spec fn spec_contains(self, other: Wall) -> bool {
        &&& other.north ==> self.north
        &&& other.east ==> self.east
        &&& other.south ==> self.south
        &&& other.west ==> self.west
    }

    /// Knocks down the walls of `other`, keeping the rest of `self`.
    pub fn without(self, other: Wall) -> (w: Wall)
        ensures
            w == self.spec_without(other),
    {
        Wall {
            north: self.north && !other.north,
            east: self.east && !other.east,
            south: self.south && !other.south,
            west: self.west && !other.west,
        }
    }

    /// Whether every wall of `other` also stands in `self`.
    pub fn contains(&self, other: Wall) -> (b: bool)
        ensures
            b == self.spec_contains(other),
    {
        (!other.north || self.north) && (!other.east || self.east) && (!other.south || self.south)
            && (!other.west || self.west)
    }

    /// The flag layout of the walls: north 1, east 2, south 4, west 8.
    pub open spec fn spec_bits(self) -> u8 {
        ((if self.north { 1u8 } else { 0u8 }) + (if self.east { 2u8 } else { 0u8 }) + (if self.south {
            4u8
        } else {
            0u8
        }) + (if self.west { 8u8 } else { 0u8 })) as u8
    }

    /// The walls as a bit set: north 1, east 2, south 4, west 8.
    pub fn bits(&self) -> (b: u8)
        ensures
            b == self.spec_bits(),
            b < 16,
    {
        let mut b: u8 = 0;
        if self.north {
            b = b + 1;
        }
        if self.east {
            b = b + 2;
        }
        if self.south {
            b = b + 4;
        }
        if self.west {
            b = b + 8;
        }
        b
    }
}

} // verus!
