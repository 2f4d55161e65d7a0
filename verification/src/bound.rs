use vstd::prelude::*;
use crate::point::Point;

verus! {

/// An axis-aligned box given by its lowest and highest corner.
#[derive(Clone, Copy, Debug)]
pub struct Bound {
    pub min: Point,
    pub max: Point,
}

impl Bound {
    /// The box reaches `r` from `p` along every axis, and its corners carry
    /// no identifier.
    pub open spec fn is_box(self, p: Point, r: int) -> bool {
        &&& self.min.x == p.x - r
        &&& self.min.y == p.y - r
        &&& self.min.z == p.z - r
        &&& self.max.x == p.x + r
        &&& self.max.y == p.y + r
        &&& self.max.z == p.z + r
        &&& self.min.id is None
        &&& self.max.id is None
    }

    /// The point lies in the box, faces included.
    pub open spec fn holds(self, p: Point) -> bool {
        &&& self.min.x <= p.x <= self.max.x
        &&& self.min.y <= p.y <= self.max.y
        &&& self.min.z <= p.z <= self.max.z
    }

    /// The lowest corner is nowhere above the highest.
    pub open spec fn ordered(self) -> bool {
        self.min.x <= self.max.x && self.min.y <= self.max.y && self.min.z <= self.max.z
    }

    /// The box that reaches `r` from `p` along every axis.
    pub fn new(p: &Point, r: i64) -> (b: Self)
        requires
            0 <= r,
            i64::MIN <= p.x - r && p.x + r <= i64::MAX,
            i64::MIN <= p.y - r && p.y + r <= i64::MAX,
            i64::MIN <= p.z - r && p.z + r <= i64::MAX,
        ensures
            b.is_box(*p, r as int),
            b.ordered(),
            b.holds(*p),
    {
        Self {
            min: Point { x: p.x - r, y: p.y - r, z: p.z - r, id: None },
            max: Point { x: p.x + r, y: p.y + r, z: p.z + r, id: None },
        }
    }
}

impl Default for Bound {
    fn default() -> (b: Bound)
        ensures
            b.is_box(Point { x: 0, y: 0, z: 0, id: None }, 0),
    {
        Bound { min: Point { x: 0, y: 0, z: 0, id: None }, max: Point { x: 0, y: 0, z: 0, id: None } }
    }
}

} // verus!
