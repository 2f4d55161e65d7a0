use vstd::prelude::*;

verus! {

/// Largest magnitude a coordinate of an indexed or queried point may have.
pub const COORD_LIMIT: i64 = 1_099_511_627_776;

/// A position on the integer lattice, with the identifier of the input point
/// it stands for (absent on derived positions such as cell centres).
#[derive(Clone, Copy, Debug)]
pub struct Point {
    pub x: i64,
    pub y: i64,
    pub z: i64,
    pub id: Option<usize>,
}

impl Point {
    /// Every coordinate lies within `COORD_LIMIT` of the origin.
    pub open spec fn in_range(self) -> bool {
        &&& -COORD_LIMIT <= self.x <= COORD_LIMIT
        &&& -COORD_LIMIT <= self.y <= COORD_LIMIT
        &&& -COORD_LIMIT <= self.z <= COORD_LIMIT
    }

    /// Both points carry an identifier and the two identifiers agree.
    pub open spec fn same_id(self, other: Point) -> bool {
        self.id is Some && other.id is Some && self.id->0 == other.id->0
    }

    /// A copy of `p`, identifier included.
    pub fn new_from_point(p: &Self) -> (r: Self)
        ensures
            r == *p,
    {
        Self { x: p.x, y: p.y, z: p.z, id: p.id }
    }

    /// Whether every coordinate lies within `COORD_LIMIT` of the origin.
    pub fn is_in_range(&self) -> (b: bool)
        ensures
            b == self.in_range(),
    {
        -COORD_LIMIT <= self.x && self.x <= COORD_LIMIT && -COORD_LIMIT <= self.y && self.y
            <= COORD_LIMIT && -COORD_LIMIT <= self.z && self.z <= COORD_LIMIT
    }

    /// Whether both points carry an identifier and the two agree.
    pub fn has_same_id(&self, other: &Point) -> (b: bool)
        ensures
            b == self.same_id(*other),
    {
        match (self.id, other.id) {
            (Some(a), Some(b)) => a == b,
            _ => false,
        }
    }
}

impl Default for Point {
    fn default() -> (r: Point)
        ensures
            r.x == 0 && r.y == 0 && r.z == 0 && r.id is None,
    {
        Point { x: 0, y: 0, z: 0, id: None }
    }
}

} // verus!
