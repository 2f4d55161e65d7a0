use vstd::prelude::*;
use crate::point::Point;
use crate::bound::Bound;
use crate::kernel::{Kernel, KernelT, kernel_of, is_inscribed, inscribed_half_extent, inner_half_extent, RADIUS_LIMIT};
use crate::octree::{Octant, Octree, joined, span_of, found_in, collect, keep, at};

verus! {

/// The stretches of the leaves under the first `c` child slots, in order.
pub open spec fn leaves_in(kids: Seq<Option<Box<Octant>>>, succ: Seq<usize>, c: nat) -> Seq<int>
    decreases kids, c,
{
    if c == 0 || c > kids.len() {
        Seq::empty()
    } else {
        leaves_in(kids, succ, (c - 1) as nat) + (match kids[c - 1] {
            Some(ch) => ch.leaves(succ),
            None => Seq::empty(),
        })
    }
}

impl Octant {
    /// The stretches of the leaves under this cell, one after the other.
    pub open spec fn leaves(self, succ: Seq<usize>) -> Seq<int>
        decreases self,
    {
        if self.n_octants == 0 {
            self.span(succ)
        } else {
            leaves_in(self.octants@, succ, 8)
        }
    }

    /// The cell reached by stepping down through the child slots in `path`.
    pub open spec fn descend(self, path: Seq<int>) -> Option<Octant>
        decreases path.len(),
    {
        if path.len() == 0 {
            Some(self)
        } else if 0 <= path[0] < self.octants@.len() {
            match self.octants@[path[0]] {
                Some(ch) => ch.descend(path.subrange(1, path.len() as int)),
                None => None,
            }
        } else {
            None
        }
    }

    /// The leaves under a sound cell hold, between them, exactly the cell's
    /// stretch of the successor list.
    pub proof fn lemma_leaves_are_span(self, pts: Seq<&Point>, succ: Seq<usize>, bucket: usize, depth: int)
        requires
            self.wf(pts, succ, bucket, depth),
        ensures
            self.leaves(succ) == self.span(succ),
        decreases self,
    {
        if self.n_octants > 0 {
            let kids = self.octants@;
            assert forall|c: int| 0 <= c < 8 implies match #[trigger] kids[c] {
                Some(ch) => ch.leaves(succ) == ch.span(succ),
                None => true,
            } by {
                match kids[c] {
                    Some(ch) => {
                        ch.lemma_leaves_are_span(pts, succ, bucket, depth + 1);
                    },
                    None => {},
                }
            }
            lemma_leaves_joined(kids, succ, 8);
        }
    }

    /// Every cell reached from a sound cell is sound at its own depth.
    pub proof fn lemma_every_cell_sound(self, pts: Seq<&Point>, succ: Seq<usize>, bucket: usize, depth: int, path: Seq<int>)
        requires
            self.wf(pts, succ, bucket, depth),
            self.descend(path) is Some,
        ensures
            self.descend(path)->0.wf(pts, succ, bucket, depth + path.len()),
        decreases path.len(),
    {
        if path.len() > 0 {
            let ch = self.octants@[path[0]]->0;
            ch.lemma_every_cell_sound(pts, succ, bucket, depth + 1, path.subrange(1, path.len() as int));
        }
    }

    /// What a search of a sound cell finds lies in the cell's stretch and
    /// does not carry the identifier of the kernel's centre.
    pub proof fn lemma_found_in_span(self, pts: Seq<&Point>, succ: Seq<usize>, bucket: usize, depth: int, k: Kernel, j: int)
        requires
            self.wf(pts, succ, bucket, depth),
            self.found(pts, succ, k).contains(j),
        ensures
            self.span(succ).contains(j),
            !k.center.same_id(*pts[j]),
        decreases self,
    {
        if k.spec_contains(self.bound) {
            lemma_collect(self.span(succ), pts, k, true);
        } else if self.n_octants == 0 {
            lemma_collect(self.span(succ), pts, k, false);
        } else {
            let kids = self.octants@;
            let c = lemma_found_in_has(kids, pts, succ, k, 8, j);
            let ch = kids[c]->0;
            ch.lemma_found_in_span(pts, succ, bucket, depth + 1, k, j);
            lemma_joined_takes(kids, succ, 8, c, j);
        }
    }

    /// A kernel that dominates another finds in a sound cell whatever the
    /// other finds there.
    pub proof fn lemma_found_subset(self, pts: Seq<&Point>, succ: Seq<usize>, bucket: usize, depth: int, k1: Kernel, k2: Kernel, j: int)
        requires
            self.wf(pts, succ, bucket, depth),
            dominated(k1, k2),
            self.found(pts, succ, k1).contains(j),
        ensures
            self.found(pts, succ, k2).contains(j),
        decreases self,
    {
        let span = self.span(succ);
        if k2.spec_contains(self.bound) {
            self.lemma_found_in_span(pts, succ, bucket, depth, k1, j);
            lemma_collect(span, pts, k2, true);
        } else if self.n_octants == 0 {
            assert(!k1.spec_contains(self.bound));
            lemma_collect(span, pts, k1, false);
            lemma_collect(span, pts, k2, false);
            assert(k1.spec_is_inside(*pts[j]));
        } else {
            assert(!k1.spec_contains(self.bound));
            let kids = self.octants@;
            let c = lemma_found_in_has(kids, pts, succ, k1, 8, j);
            let ch = kids[c]->0;
            ch.lemma_found_subset(pts, succ, bucket, depth + 1, k1, k2, j);
            assert(k1.spec_box_overlap(ch.bound));
            lemma_found_in_takes(kids, pts, succ, k2, 8, c, j);
        }
    }
}

pub proof fn lemma_leaves_joined(kids: Seq<Option<Box<Octant>>>, succ: Seq<usize>, c: nat)
    requires
        c <= kids.len(),
        forall|i: int| 0 <= i < c ==> match #[trigger] kids[i] {
            Some(ch) => ch.leaves(succ) == ch.span(succ),
            None => true,
        },
    ensures
        leaves_in(kids, succ, c) == joined(kids, succ, c),
    decreases c,
{
    if c > 0 {
        lemma_leaves_joined(kids, succ, (c - 1) as nat);
        let last = kids[c - 1];
        assert(match last {
            Some(ch) => ch.leaves(succ) == ch.span(succ),
            None => true,
        });
    }
}

/// What the stretch of one child slot holds, the joined stretch holds.
pub proof fn lemma_joined_takes(kids: Seq<Option<Box<Octant>>>, succ: Seq<usize>, c: nat, i: int, j: int)
    requires
        0 <= i < c <= kids.len(),
        span_of(kids[i], succ).contains(j),
    ensures
        joined(kids, succ, c).contains(j),
    decreases c,
{
    let head = joined(kids, succ, (c - 1) as nat);
    let tail = span_of(kids[c - 1], succ);
    if i < c - 1 {
        lemma_joined_takes(kids, succ, (c - 1) as nat, i, j);
        let q = choose|q: int| 0 <= q < head.len() && head[q] == j;
        assert((head + tail)[q] == j);
    } else {
        let q = choose|q: int| 0 <= q < tail.len() && tail[q] == j;
        assert((head + tail)[head.len() + q] == j);
    }
}

/// What is found under the first `c` child slots was found in one of them,
/// a child that overlaps the kernel's outer box.
pub proof fn lemma_found_in_has(kids: Seq<Option<Box<Octant>>>, pts: Seq<&Point>, succ: Seq<usize>, k: Kernel, c: nat, j: int) -> (i: int)
    requires
        c <= kids.len(),
        found_in(kids, pts, succ, k, c).contains(j),
    ensures
        0 <= i < c,
        kids[i] is Some,
        k.spec_box_overlap(kids[i]->0.bound),
        kids[i]->0.found(pts, succ, k).contains(j),
    decreases c,
{
    let all = found_in(kids, pts, succ, k, c);
    if c == 0 {
        assert(all.len() == 0);
        0
    } else {
        let head = found_in(kids, pts, succ, k, (c - 1) as nat);
        let tail: Seq<int> = match kids[c - 1] {
            Some(ch) => if k.spec_box_overlap(ch.bound) {
                ch.found(pts, succ, k)
            } else {
                Seq::empty()
            },
            None => Seq::empty(),
        };
        assert(all == head + tail);
        let q = choose|q: int| 0 <= q < all.len() && all[q] == j;
        if q < head.len() {
            assert(head[q] == j);
            lemma_found_in_has(kids, pts, succ, k, (c - 1) as nat, j)
        } else {
            assert(tail[q - head.len()] == j);
            c - 1
        }
    }
}

/// What an overlapping child yields is among what is found under the slots.
pub proof fn lemma_found_in_takes(kids: Seq<Option<Box<Octant>>>, pts: Seq<&Point>, succ: Seq<usize>, k: Kernel, c: nat, i: int, j: int)
    requires
        0 <= i < c <= kids.len(),
        kids[i] is Some,
        k.spec_box_overlap(kids[i]->0.bound),
        kids[i]->0.found(pts, succ, k).contains(j),
    ensures
        found_in(kids, pts, succ, k, c).contains(j),
    decreases c,
{
    let head = found_in(kids, pts, succ, k, (c - 1) as nat);
    let tail: Seq<int> = match kids[c - 1] {
        Some(ch) => if k.spec_box_overlap(ch.bound) {
            ch.found(pts, succ, k)
        } else {
            Seq::empty()
        },
        None => Seq::empty(),
    };
    assert(found_in(kids, pts, succ, k, c) == head + tail);
    if i < c - 1 {
        lemma_found_in_takes(kids, pts, succ, k, (c - 1) as nat, i, j);
        let q = choose|q: int| 0 <= q < head.len() && head[q] == j;
        assert((head + tail)[q] == j);
    } else {
        let q = choose|q: int| 0 <= q < tail.len() && tail[q] == j;
        assert((head + tail)[head.len() + q] == j);
    }
}

/// What `collect` keeps: exactly the indices whose points pass the kernel.
pub proof fn lemma_collect(span: Seq<int>, pts: Seq<&Point>, k: Kernel, whole: bool)
    ensures
        forall|j: int| #[trigger] collect(span, pts, k, whole).contains(j) <==> (span.contains(j) && keep(k, whole, *pts[j])),
    decreases span.len(),
{
    let p = collect(span, pts, k, whole);
    if span.len() > 0 {
        let d = span.drop_last();
        let rest = collect(d, pts, k, whole);
        lemma_collect(d, pts, k, whole);
        assert forall|j: int| #[trigger] p.contains(j) <==> (span.contains(j) && keep(k, whole, *pts[j])) by {
            if p.contains(j) {
                let q = choose|q: int| 0 <= q < p.len() && p[q] == j;
                if q < rest.len() {
                    assert(rest[q] == j);
                    assert(rest.contains(j));
                    let m = choose|m: int| 0 <= m < d.len() && d[m] == j;
                    assert(span[m] == j);
                } else {
                    assert(span[span.len() - 1] == j);
                }
            }
            if span.contains(j) && keep(k, whole, *pts[j]) {
                let m = choose|m: int| 0 <= m < span.len() && span[m] == j;
                if m < d.len() {
                    assert(d[m] == j);
                    assert(d.contains(j));
                    assert(rest.contains(j));
                    let q = choose|q: int| 0 <= q < rest.len() && rest[q] == j;
                    assert(p[q] == j);
                } else {
                    assert(p[p.len() - 1] == j);
                }
            }
        }
    }
}

/// The second kernel excludes the same query point as the first and
/// accepts every box and every point that the first accepts.
pub open spec fn dominated(k1: Kernel, k2: Kernel) -> bool {
    &&& k1.center == k2.center
    &&& forall|b: Bound| #[trigger] k1.spec_contains(b) ==> k2.spec_contains(b)
    &&& forall|b: Bound| #[trigger] k1.spec_box_overlap(b) ==> k2.spec_box_overlap(b)
    &&& forall|p: Point| #[trigger] k1.spec_is_inside(p) ==> k2.spec_is_inside(p)
}

proof fn lemma_scan(r: int, lo: int, hi: int)
    requires
        0 <= lo < hi,
        2 * (lo * lo) <= r * r,
        r * r < 2 * (hi * hi),
    ensures
        exists|h: int| is_inscribed(r, h),
    decreases hi - lo,
{
    if 2 * ((lo + 1) * (lo + 1)) <= r * r {
        lemma_scan(r, lo + 1, hi);
    } else {
        assert(is_inscribed(r, lo));
    }
}

/// Every radius has its inscribed half-extent, which does not exceed it.
pub proof fn lemma_inscribed_exists(r: int)
    requires
        0 <= r,
    ensures
        is_inscribed(r, inscribed_half_extent(r)),
        0 <= inscribed_half_extent(r) <= r,
{
    assert(r * r < 2 * ((r + 1) * (r + 1))) by (nonlinear_arith)
        requires
            0 <= r,
    ;
    assert(2 * (0 * 0) <= r * r) by (nonlinear_arith);
    lemma_scan(r, 0, r + 1);
    let h = inscribed_half_extent(r);
    if h > r {
        assert(h * h > r * r) by (nonlinear_arith)
            requires
                h > r,
                r >= 0,
        ;
    }
}

/// The inscribed half-extent does not shrink as the radius grows.
pub proof fn lemma_inscribed_grows(r1: int, r2: int)
    requires
        0 <= r1 <= r2,
    ensures
        inscribed_half_extent(r1) <= inscribed_half_extent(r2),
{
    lemma_inscribed_exists(r1);
    lemma_inscribed_exists(r2);
    let h1 = inscribed_half_extent(r1);
    let h2 = inscribed_half_extent(r2);
    if h1 > h2 {
        assert((h2 + 1) * (h2 + 1) <= h1 * h1) by (nonlinear_arith)
            requires
                0 <= h2 + 1 <= h1,
        ;
        assert(r1 * r1 <= r2 * r2) by (nonlinear_arith)
            requires
                0 <= r1 <= r2,
        ;
    }
}

/// Around one centre and for one shape, the kernel of the larger radius
/// dominates the kernel of the smaller.
pub proof fn lemma_radius_dominates(p: Point, r1: i64, r2: i64, kt: KernelT)
    requires
        p.in_range(),
        0 <= r1 <= r2 <= RADIUS_LIMIT,
    ensures
        dominated(kernel_of(p, r1, kt), kernel_of(p, r2, kt)),
{
    let k1 = kernel_of(p, r1, kt);
    let k2 = kernel_of(p, r2, kt);
    lemma_inscribed_exists(r1 as int);
    lemma_inscribed_exists(r2 as int);
    lemma_inscribed_grows(r1 as int, r2 as int);
    assert(inner_half_extent(kt, r1 as int) <= inner_half_extent(kt, r2 as int));
    assert((r1 as int) * (r1 as int) <= (r2 as int) * (r2 as int)) by (nonlinear_arith)
        requires
            0 <= r1 <= r2,
    ;
    assert forall|pt: Point| #[trigger] k1.spec_is_inside(pt) implies k2.spec_is_inside(pt) by {}
}

/// Around one centre and for one radius, the square dominates the circle
/// and the cube dominates the sphere.
pub proof fn lemma_box_dominates_round(p: Point, r: i64, round: KernelT, boxed: KernelT)
    requires
        p.in_range(),
        0 <= r <= RADIUS_LIMIT,
        (round == KernelT::Circle && boxed == KernelT::Square) || (round == KernelT::Sphere && boxed == KernelT::Cube),
    ensures
        dominated(kernel_of(p, r, round), kernel_of(p, r, boxed)),
{
    let k1 = kernel_of(p, r, round);
    let k2 = kernel_of(p, r, boxed);
    lemma_inscribed_exists(r as int);
    assert forall|pt: Point| #[trigger] k1.spec_is_inside(pt) implies k2.spec_is_inside(pt) by {
        let dx = pt.x - p.x;
        let dy = pt.y - p.y;
        let dz = pt.z - p.z;
        let rr = r as int;
        assert(dx * dx >= 0 && dy * dy >= 0 && dz * dz >= 0) by (nonlinear_arith);
        assert(dx * dx < rr * rr ==> -rr < dx < rr) by (nonlinear_arith)
            requires
                rr >= 0,
        ;
        assert(dy * dy < rr * rr ==> -rr < dy < rr) by (nonlinear_arith)
            requires
                rr >= 0,
        ;
        assert(dz * dz < rr * rr ==> -rr < dz < rr) by (nonlinear_arith)
            requires
                rr >= 0,
        ;
    }
}

/// A tree holds every point in exactly one leaf: the leaves' stretches,
/// taken together, list each index of the point set once and nothing else.
pub proof fn lemma_leaves_cover(tree: Octree)
    requires
        tree.wf(),
        tree.points@.len() > 0,
    ensures
        tree.root.leaves(tree.successors@).len() == tree.points@.len(),
        tree.root.leaves(tree.successors@).no_duplicates(),
        forall|j: int| 0 <= j < tree.points@.len() ==> #[trigger] tree.root.leaves(tree.successors@).contains(j),
        forall|q: int| 0 <= q < tree.points@.len() ==> 0 <= #[trigger] tree.root.leaves(tree.successors@)[q] < tree.points@.len(),
{
    tree.root.lemma_leaves_are_span(tree.points@, tree.successors@, tree.bucket_size, 0);
    crate::chain::lemma_chain_links(tree.successors@, tree.root.start_idx as int, tree.root.size as nat);
}

/// Every cell of a tree bounds each point of its stretch, faces included.
pub proof fn lemma_cells_bound_points(tree: Octree, path: Seq<int>, q: int)
    requires
        tree.wf(),
        tree.points@.len() > 0,
        tree.root.descend(path) is Some,
        0 <= q < tree.root.descend(path)->0.size,
    ensures
        ({
            let cell = tree.root.descend(path)->0;
            let i = cell.span(tree.successors@)[q];
            0 <= i < tree.points@.len() && cell.bound.holds(*tree.points@[i])
        }),
{
    let cell = tree.root.descend(path)->0;
    tree.root.lemma_every_cell_sound(tree.points@, tree.successors@, tree.bucket_size, 0, path);
    crate::chain::lemma_chain_links(tree.successors@, cell.start_idx as int, cell.size as nat);
}

/// A search never yields a point that carries the identifier of the query
/// point.
pub proof fn lemma_query_point_excluded(tree: Octree, p: Point, r: i64, kt: KernelT, j: int)
    requires
        tree.wf(),
        tree.neighbor_indices(p, r, kt).contains(j),
    ensures
        0 <= j < tree.points@.len(),
        !p.same_id(*tree.points@[j]),
{
    tree.root.lemma_found_in_span(tree.points@, tree.successors@, tree.bucket_size, 0, kernel_of(p, r, kt), j);
    crate::chain::lemma_chain_links(tree.successors@, tree.root.start_idx as int, tree.root.size as nat);
    let span = tree.root.span(tree.successors@);
    let q = choose|q: int| 0 <= q < span.len() && span[q] == j;
    assert(0 <= span[q] < tree.points@.len());
}

/// With the centre and the shape fixed, whatever a radius finds every
/// larger radius finds too.
pub proof fn lemma_wider_radius_finds_more(tree: Octree, p: Point, r1: i64, r2: i64, kt: KernelT, j: int)
    requires
        tree.wf(),
        p.in_range(),
        0 <= r1 <= r2 <= RADIUS_LIMIT,
        tree.neighbor_indices(p, r1, kt).contains(j),
    ensures
        tree.neighbor_indices(p, r2, kt).contains(j),
{
    lemma_radius_dominates(p, r1, r2, kt);
    tree.root.lemma_found_subset(tree.points@, tree.successors@, tree.bucket_size, 0, kernel_of(p, r1, kt), kernel_of(p, r2, kt), j);
}

/// With the centre and the radius fixed, the square finds whatever the
/// circle finds, and the cube whatever the sphere finds.
pub proof fn lemma_box_finds_what_round_finds(tree: Octree, p: Point, r: i64, round: KernelT, boxed: KernelT, j: int)
    requires
        tree.wf(),
        p.in_range(),
        0 <= r <= RADIUS_LIMIT,
        (round == KernelT::Circle && boxed == KernelT::Square) || (round == KernelT::Sphere && boxed == KernelT::Cube),
        tree.neighbor_indices(p, r, round).contains(j),
    ensures
        tree.neighbor_indices(p, r, boxed).contains(j),
{
    lemma_box_dominates_round(p, r, round, boxed);
    tree.root.lemma_found_subset(tree.points@, tree.successors@, tree.bucket_size, 0, kernel_of(p, r, round), kernel_of(p, r, boxed), j);
}

/// Two searches of one tree with the same arguments yield the same points
/// in the same order.
pub proof fn lemma_search_repeatable(tree: Octree, p: Point, r: i64, kt: KernelT, first: Seq<&Point>, second: Seq<&Point>)
    requires
        first == at(tree.points@, tree.neighbor_indices(p, r, kt)),
        second == at(tree.points@, tree.neighbor_indices(p, r, kt)),
    ensures
        first == second,
{
}


/// What the joined stretch holds, the stretch of one child slot holds.
pub proof fn lemma_joined_has(kids: Seq<Option<Box<Octant>>>, succ: Seq<usize>, c: nat, j: int) -> (i: int)
    requires
        c <= kids.len(),
        joined(kids, succ, c).contains(j),
    ensures
        0 <= i < c,
        kids[i] is Some,
        kids[i]->0.span(succ).contains(j),
    decreases c,
{
    let all = joined(kids, succ, c);
    if c == 0 {
        assert(all.len() == 0);
        0
    } else {
        let head = joined(kids, succ, (c - 1) as nat);
        let tail = span_of(kids[c - 1], succ);
        assert(all == head + tail);
        let q = choose|q: int| 0 <= q < all.len() && all[q] == j;
        if q < head.len() {
            assert(head[q] == j);
            lemma_joined_has(kids, succ, (c - 1) as nat, j)
        } else {
            assert(tail[q - head.len()] == j);
            c - 1
        }
    }
}

/// For a circle, a square or a cube, a box that the kernel contains holds
/// only points inside the region.
pub proof fn lemma_contained_box_is_inside(k: Kernel, b: Bound, p: Point)
    requires
        k.wf(),
        !(k.shape is Sphere),
        k.spec_contains(b),
        b.holds(p),
    ensures
        k.spec_is_inside(p),
{
    if k.shape is Circle {
        let r = k.radius as int;
        lemma_inscribed_exists(r);
        let h = inscribed_half_extent(r);
        let dx = p.x - k.center.x;
        let dy = p.y - k.center.y;
        assert(-h < dx < h && -h < dy < h);
        assert(dx * dx < h * h) by (nonlinear_arith)
            requires
                -h < dx < h,
        ;
        assert(dy * dy < h * h) by (nonlinear_arith)
            requires
                -h < dy < h,
        ;
    }
}

/// A box that holds a point inside the region overlaps the kernel's outer
/// box, so a search does not pass it by.
pub proof fn lemma_inside_point_overlaps(k: Kernel, b: Bound, p: Point)
    requires
        k.wf(),
        k.spec_is_inside(p),
        b.holds(p),
    ensures
        k.spec_box_overlap(b),
{
    let r = k.radius as int;
    let dx = p.x - k.center.x;
    let dy = p.y - k.center.y;
    let dz = p.z - k.center.z;
    if k.shape.round() {
        assert(dx * dx >= 0 && dy * dy >= 0 && dz * dz >= 0) by (nonlinear_arith);
        assert(dx * dx < r * r ==> -r < dx < r) by (nonlinear_arith)
            requires
                r >= 0,
        ;
        assert(dy * dy < r * r ==> -r < dy < r) by (nonlinear_arith)
            requires
                r >= 0,
        ;
        assert(dz * dz < r * r ==> -r < dz < r) by (nonlinear_arith)
            requires
                r >= 0,
        ;
    }
}

impl Octant {
    /// For a circle, a square or a cube, a search of a sound cell finds
    /// exactly the points of its stretch that lie inside the region and do
    /// not carry the identifier of the centre.
    pub proof fn lemma_found_exact(self, pts: Seq<&Point>, succ: Seq<usize>, bucket: usize, depth: int, k: Kernel, j: int)
        requires
            self.wf(pts, succ, bucket, depth),
            k.wf(),
            !(k.shape is Sphere),
        ensures
            self.found(pts, succ, k).contains(j) <==> (self.span(succ).contains(j) && k.spec_is_inside(*pts[j])
                && !k.center.same_id(*pts[j])),
        decreases self,
    {
        let span = self.span(succ);
        if k.spec_contains(self.bound) {
            lemma_collect(span, pts, k, true);
            if span.contains(j) {
                let q = choose|q: int| 0 <= q < span.len() && span[q] == j;
                assert(self.bound.holds(*pts[span[q]]));
                lemma_contained_box_is_inside(k, self.bound, *pts[j]);
            }
        } else if self.n_octants == 0 {
            lemma_collect(span, pts, k, false);
        } else {
            let kids = self.octants@;
            if self.found(pts, succ, k).contains(j) {
                let c = lemma_found_in_has(kids, pts, succ, k, 8, j);
                let ch = kids[c]->0;
                ch.lemma_found_exact(pts, succ, bucket, depth + 1, k, j);
                lemma_joined_takes(kids, succ, 8, c, j);
            }
            if span.contains(j) && k.spec_is_inside(*pts[j]) && !k.center.same_id(*pts[j]) {
                let c = lemma_joined_has(kids, succ, 8, j);
                let ch = kids[c]->0;
                let cs = ch.span(succ);
                assert(ch.wf(pts, succ, bucket, depth + 1));
                let q = choose|q: int| 0 <= q < cs.len() && cs[q] == j;
                assert(ch.bound.holds(*pts[cs[q]]));
                lemma_inside_point_overlaps(k, ch.bound, *pts[j]);
                ch.lemma_found_exact(pts, succ, bucket, depth + 1, k, j);
                lemma_found_in_takes(kids, pts, succ, k, 8, c, j);
            }
        }
    }
}

/// For a circle, a square or a cube, a search yields exactly the indexed
/// points that lie inside the region and do not carry the identifier of the
/// query point.
pub proof fn lemma_search_exact(tree: Octree, p: Point, r: i64, kt: KernelT, j: int)
    requires
        tree.wf(),
        p.in_range(),
        0 <= r <= RADIUS_LIMIT,
        !(kt is Sphere),
    ensures
        tree.neighbor_indices(p, r, kt).contains(j) <==> (0 <= j < tree.points@.len() && kernel_of(p, r, kt).spec_is_inside(
            *tree.points@[j],
        ) && !p.same_id(*tree.points@[j])),
{
    let k = kernel_of(p, r, kt);
    if tree.points@.len() > 0 {
        lemma_inscribed_exists(r as int);
        assert(k.wf());
        tree.root.lemma_found_exact(tree.points@, tree.successors@, tree.bucket_size, 0, k, j);
        crate::chain::lemma_chain_links(tree.successors@, tree.root.start_idx as int, tree.root.size as nat);
        let span = tree.root.span(tree.successors@);
        if span.contains(j) {
            let q = choose|q: int| 0 <= q < span.len() && span[q] == j;
            assert(0 <= span[q] < tree.points@.len());
        }
    }
}


/// For a circle, a square or a cube, two trees over the same points find the
/// same points, whatever their leaf thresholds: a tree that is one single
/// leaf answers as a deep one does.
pub proof fn lemma_search_ignores_threshold(a: Octree, b: Octree, p: Point, r: i64, kt: KernelT, j: int)
    requires
        a.wf(),
        b.wf(),
        a.points@ == b.points@,
        p.in_range(),
        0 <= r <= RADIUS_LIMIT,
        !(kt is Sphere),
    ensures
        a.neighbor_indices(p, r, kt).contains(j) <==> b.neighbor_indices(p, r, kt).contains(j),
{
    lemma_search_exact(a, p, r, kt, j);
    lemma_search_exact(b, p, r, kt, j);
}


impl Octant {
    /// Whatever the shape, a search of a sound cell misses no point of its
    /// stretch that lies inside the region and does not carry the identifier
    /// of the centre.
    pub proof fn lemma_found_complete(self, pts: Seq<&Point>, succ: Seq<usize>, bucket: usize, depth: int, k: Kernel, j: int)
        requires
            self.wf(pts, succ, bucket, depth),
            k.wf(),
            self.span(succ).contains(j),
            k.spec_is_inside(*pts[j]),
            !k.center.same_id(*pts[j]),
        ensures
            self.found(pts, succ, k).contains(j),
        decreases self,
    {
        let span = self.span(succ);
        if k.spec_contains(self.bound) {
            lemma_collect(span, pts, k, true);
        } else if self.n_octants == 0 {
            lemma_collect(span, pts, k, false);
        } else {
            let kids = self.octants@;
            let c = lemma_joined_has(kids, succ, 8, j);
            let ch = kids[c]->0;
            let cs = ch.span(succ);
            assert(ch.wf(pts, succ, bucket, depth + 1));
            let q = choose|q: int| 0 <= q < cs.len() && cs[q] == j;
            assert(ch.bound.holds(*pts[cs[q]]));
            lemma_inside_point_overlaps(k, ch.bound, *pts[j]);
            ch.lemma_found_complete(pts, succ, bucket, depth + 1, k, j);
            lemma_found_in_takes(kids, pts, succ, k, 8, c, j);
        }
    }
}

/// Whatever the shape, a search yields every indexed point that lies
/// inside the region and does not carry the identifier of the query point.
pub proof fn lemma_search_complete(tree: Octree, p: Point, r: i64, kt: KernelT, j: int)
    requires
        tree.wf(),
        p.in_range(),
        0 <= r <= RADIUS_LIMIT,
        0 <= j < tree.points@.len(),
        kernel_of(p, r, kt).spec_is_inside(*tree.points@[j]),
        !p.same_id(*tree.points@[j]),
    ensures
        tree.neighbor_indices(p, r, kt).contains(j),
{
    let k = kernel_of(p, r, kt);
    lemma_inscribed_exists(r as int);
    assert(k.wf());
    tree.root.lemma_found_complete(tree.points@, tree.successors@, tree.bucket_size, 0, k, j);
}

/// What a sphere search yields lies inside the cube of the same centre and
/// radius: the inner box of a sphere kernel reaches past the sphere at its
/// corners, but not past that cube.
pub proof fn lemma_sphere_search_within_cube(tree: Octree, p: Point, r: i64, j: int)
    requires
        tree.wf(),
        p.in_range(),
        0 <= r <= RADIUS_LIMIT,
        tree.neighbor_indices(p, r, KernelT::Sphere).contains(j),
    ensures
        0 <= j < tree.points@.len(),
        kernel_of(p, r, KernelT::Cube).spec_is_inside(*tree.points@[j]),
        !p.same_id(*tree.points@[j]),
{
    lemma_box_finds_what_round_finds(tree, p, r, KernelT::Sphere, KernelT::Cube, j);
    lemma_search_exact(tree, p, r, KernelT::Cube, j);
}

} // verus!
