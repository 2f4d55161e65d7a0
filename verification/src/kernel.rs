use vstd::prelude::*;
use crate::point::Point;
use crate::bound::Bound;

verus! {

/// Largest radius a query may have: a box of that half-extent around any
/// point in range still has corners that fit a coordinate.
pub const RADIUS_LIMIT: i64 = 9_223_370_937_343_148_031;

/// The shape of a query region.
#[derive(Clone, Copy, Debug, PartialEq, Eq, Structural)]
pub enum KernelT {
    Circle,
    Sphere,
    Square,
    Cube,
}

impl KernelT {
    /// The shape ignores the third axis.
    pub open spec fn planar(self) -> bool {
        self is Circle || self is Square
    }

    /// The shape is measured by distance rather than by intervals.
    pub open spec fn round(self) -> bool {
        self is Circle || self is Sphere
    }

    pub fn is_planar(&self) -> (b: bool)
        ensures
            b == self.planar(),
    {
        match self {
            KernelT::Circle => true,
            KernelT::Square => true,
            _ => false,
        }
    }
}

/// `h` is the half-extent of the largest lattice square inscribed in a
/// circle of radius `r`: the greatest `h` with `2 h^2 <= r^2`.
pub open spec fn is_inscribed(r: int, h: int) -> bool {
    0 <= h && 2 * (h * h) <= r * r && r * r < 2 * ((h + 1) * (h + 1))
}

/// The inscribed half-extent for radius `r`.
pub open spec fn inscribed_half_extent(r: int) -> int {
    choose|h: int| is_inscribed(r, h)
}

/// Half-extent of the inner box of a kernel of the given shape and radius.
pub open spec fn inner_half_extent(kt: KernelT, r: int) -> int {
    if kt.round() {
        inscribed_half_extent(r)
    } else {
        r
    }
}

/// The box that reaches `h` from `p` along every axis.
pub open spec fn box_of(p: Point, h: int) -> Bound {
    Bound {
        min: Point { x: (p.x - h) as i64, y: (p.y - h) as i64, z: (p.z - h) as i64, id: None },
        max: Point { x: (p.x + h) as i64, y: (p.y + h) as i64, z: (p.z + h) as i64, id: None },
    }
}

/// The kernel of the given shape and radius around `p`.
pub open spec fn kernel_of(p: Point, r: i64, kt: KernelT) -> Kernel {
    Kernel {
        shape: kt,
        radius: r,
        center: p,
        inner: box_of(p, inner_half_extent(kt, r as int)),
        outer: box_of(p, r as int),
    }
}

/// At most one half-extent is inscribed for a given radius.
pub proof fn lemma_inscribed_unique(r: int, h1: int, h2: int)
    requires
        is_inscribed(r, h1),
        is_inscribed(r, h2),
    ensures
        h1 == h2,
{
    if h1 < h2 {
        assert((h1 + 1) * (h1 + 1) <= h2 * h2) by (nonlinear_arith)
            requires
                0 <= h1 + 1 <= h2,
        ;
    } else if h2 < h1 {
        assert((h2 + 1) * (h2 + 1) <= h1 * h1) by (nonlinear_arith)
            requires
                0 <= h2 + 1 <= h1,
        ;
    }
}

/// The inscribed half-extent for radius `r`, found by bisection.
pub fn inscribed(r: i64) -> (h: i64)
    requires
        0 <= r,
    ensures
        is_inscribed(r as int, h as int),
        h == inscribed_half_extent(r as int),
        0 <= h <= r,
{
    proof {
        lemma_square_fits(r as int, 0x7fff_ffff_ffff_ffff);
    }
    let r2: u128 = (r as u128) * (r as u128);
    let mut lo: u64 = 0;
    let mut hi: u64 = r as u64 + 1;
    assert((r as int) * (r as int) < 2 * ((r + 1) * (r + 1))) by (nonlinear_arith)
        requires
            0 <= r,
    ;
    while hi - lo > 1
        invariant
            0 <= r,
            r2 == (r as int) * (r as int),
            lo < hi <= r + 1,
            2 * (lo * lo) <= r * r,
            r * r < 2 * (hi * hi),
        decreases hi - lo,
    {
        let mid: u64 = lo + (hi - lo) / 2;
        assert(0 <= (mid as int) * (mid as int) <= 0x7fff_ffff_ffff_ffff * 0x7fff_ffff_ffff_ffff)
            by (nonlinear_arith)
            requires
                0 <= mid <= 0x7fff_ffff_ffff_ffff,
        ;
        let m: u128 = (mid as u128) * (mid as u128);
        let m2: u128 = 2 * m;
        if m2 <= r2 {
            lo = mid;
        } else {
            hi = mid;
        }
    }
    proof {
        assert(is_inscribed(r as int, lo as int));
        lemma_inscribed_unique(r as int, lo as int, inscribed_half_extent(r as int));
    }
    lo as i64
}

/// Builds kernels.
pub struct KernelFactory;

/// A query region: its centre, its radius, the box known to lie inside it and
/// the box known to enclose it.
#[derive(Clone, Copy, Debug)]
pub struct Kernel {
    pub shape: KernelT,
    pub radius: i64,
    pub center: Point,
    pub inner: Bound,
    pub outer: Bound,
}

impl KernelFactory {
    /// The kernel of shape `kt` and radius `r` around `p`, whose identifier
    /// it keeps. Round shapes get the inscribed box as inner box, the others
    /// their own box.
    pub fn new(p: &Point, r: i64, kt: &KernelT) -> (k: Kernel)
        requires
            p.in_range(),
            0 <= r <= RADIUS_LIMIT,
        ensures
            k.wf(),
            k == kernel_of(*p, r, *kt),
    {
        let h: i64 = match kt {
            KernelT::Circle => inscribed(r),
            KernelT::Sphere => inscribed(r),
            KernelT::Square => r,
            KernelT::Cube => r,
        };
        Kernel {
            shape: *kt,
            radius: r,
            center: Point { x: p.x, y: p.y, z: p.z, id: p.id },
            inner: Bound::new(p, h),
            outer: Bound::new(p, r),
        }
    }
}

impl Kernel {
    /// The two boxes are the ones the shape and the radius prescribe around
    /// the centre.
    pub open spec fn wf(self) -> bool {
        &&& self.center.in_range()
        &&& 0 <= self.radius <= RADIUS_LIMIT
        &&& self.outer.is_box(self.center, self.radius as int)
        &&& self.inner.is_box(self.center, inner_half_extent(self.shape, self.radius as int))
    }

    /// Membership in the exact region, its boundary left out.
    pub open spec fn spec_is_inside(self, p: Point) -> bool {
        let dx = p.x - self.center.x;
        let dy = p.y - self.center.y;
        let dz = p.z - self.center.z;
        match self.shape {
            KernelT::Circle => dx * dx + dy * dy < self.radius * self.radius,
            KernelT::Sphere => dx * dx + dy * dy + dz * dz < self.radius * self.radius,
            KernelT::Square => self.inner.min.x < p.x < self.inner.max.x && self.inner.min.y < p.y
                < self.inner.max.y,
            KernelT::Cube => self.inner.min.x < p.x < self.inner.max.x && self.inner.min.y < p.y
                < self.inner.max.y && self.inner.min.z < p.z < self.inner.max.z,
        }
    }

    /// The box lies strictly within the inner box on every axis the shape
    /// regards.
    pub open spec fn spec_contains(self, b: Bound) -> bool {
        &&& b.min.x > self.inner.min.x && b.min.y > self.inner.min.y
        &&& b.max.x < self.inner.max.x && b.max.y < self.inner.max.y
        &&& self.shape.planar() || (b.min.z > self.inner.min.z && b.max.z < self.inner.max.z)
    }

    /// No axis the shape regards separates the box from the outer box.
    pub open spec fn spec_box_overlap(self, b: Bound) -> bool {
        &&& !(b.max.x < self.outer.min.x || b.max.y < self.outer.min.y)
        &&& !(b.min.x > self.outer.max.x || b.min.y > self.outer.max.y)
        &&& self.shape.planar() || !(b.max.z < self.outer.min.z || b.min.z > self.outer.max.z)
    }

    /// Whether the point lies in the region, boundary excluded.
    pub fn is_inside(&self, p: &Point) -> (b: bool)
        requires
            self.wf(),
            p.in_range(),
        ensures
            b == self.spec_is_inside(*p),
    {
        match self.shape {
            KernelT::Circle => {
                let dx: i128 = p.x as i128 - self.center.x as i128;
                let dy: i128 = p.y as i128 - self.center.y as i128;
                let r: i128 = self.radius as i128;
                proof {
                    lemma_square_fits(dx as int, 0x200_0000_0000);
                    lemma_square_fits(dy as int, 0x200_0000_0000);
                    lemma_square_fits(r as int, 0x7fff_ffff_ffff_ffff);
                }
                dx * dx + dy * dy < r * r
            },
            KernelT::Sphere => {
                let dx: i128 = p.x as i128 - self.center.x as i128;
                let dy: i128 = p.y as i128 - self.center.y as i128;
                let dz: i128 = p.z as i128 - self.center.z as i128;
                let r: i128 = self.radius as i128;
                proof {
                    lemma_square_fits(dx as int, 0x200_0000_0000);
                    lemma_square_fits(dy as int, 0x200_0000_0000);
                    lemma_square_fits(dz as int, 0x200_0000_0000);
                    lemma_square_fits(r as int, 0x7fff_ffff_ffff_ffff);
                }
                dx * dx + dy * dy + dz * dz < r * r
            },
            KernelT::Square => p.x > self.inner.min.x && p.y > self.inner.min.y && p.x
                < self.inner.max.x && p.y < self.inner.max.y,
            KernelT::Cube => p.x > self.inner.min.x && p.y > self.inner.min.y && p.z
                > self.inner.min.z && p.x < self.inner.max.x && p.y < self.inner.max.y && p.z
                < self.inner.max.z,
        }
    }

    /// Whether the box lies strictly within the inner box.
    pub fn contains(&self, b: &Bound) -> (r: bool)
        ensures
            r == self.spec_contains(*b),
    {
        let flat: bool = b.min.x > self.inner.min.x && b.min.y > self.inner.min.y && b.max.x
            < self.inner.max.x && b.max.y < self.inner.max.y;
        if self.shape.is_planar() {
            flat
        } else {
            flat && b.min.z > self.inner.min.z && b.max.z < self.inner.max.z
        }
    }

    /// Whether the box meets the outer box.
    pub fn box_overlap(&self, b: &Bound) -> (r: bool)
        ensures
            r == self.spec_box_overlap(*b),
    {
        if b.max.x < self.outer.min.x || b.max.y < self.outer.min.y {
            return false;
        }
        if b.min.x > self.outer.max.x || b.min.y > self.outer.max.y {
            return false;
        }
        if self.shape.is_planar() {
            return true;
        }
        !(b.max.z < self.outer.min.z || b.min.z > self.outer.max.z)
    }

    /// The query centre, identifier included.
    pub fn get_center(&self) -> (c: Point)
        ensures
            c == self.center,
    {
        Point::new_from_point(&self.center)
    }
}

/// What a query region answers during a search.
pub trait AbstractKernel {
    /// The region that the answers are about.
    spec fn region(&self) -> Kernel;

    fn is_inside(&self, p: &Point) -> (b: bool)
        requires
            self.region().wf(),
            p.in_range(),
        ensures
            b == self.region().spec_is_inside(*p),
    ;

    fn contains(&self, b: &Bound) -> (r: bool)
        ensures
            r == self.region().spec_contains(*b),
    ;

    fn box_overlap(&self, b: &Bound) -> (r: bool)
        ensures
            r == self.region().spec_box_overlap(*b),
    ;

    fn get_center(&self) -> (c: Point)
        ensures
            c == self.region().center,
    ;
}

impl AbstractKernel for Kernel {
    open spec fn region(&self) -> Kernel {
        *self
    }

    fn is_inside(&self, p: &Point) -> (b: bool) {
        Kernel::is_inside(self, p)
    }

    fn contains(&self, b: &Bound) -> (r: bool) {
        Kernel::contains(self, b)
    }

    fn box_overlap(&self, b: &Bound) -> (r: bool) {
        Kernel::box_overlap(self, b)
    }

    fn get_center(&self) -> (c: Point) {
        Kernel::get_center(self)
    }
}

/// A square of a number within `m` of zero lies within `m * m`.
pub proof fn lemma_square_fits(d: int, m: int)
    requires
        -m <= d <= m,
    ensures
        0 <= d * d <= m * m,
{
    assert(0 <= d * d <= m * m) by (nonlinear_arith)
        requires
            -m <= d <= m,
    ;
}

} // verus!
