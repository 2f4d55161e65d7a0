use vstd::prelude::*;
use crate::point::{Point, COORD_LIMIT};
use crate::bound::Bound;
use crate::kernel::{Kernel, KernelT, KernelFactory, kernel_of, RADIUS_LIMIT};
use crate::laws::{lemma_query_point_excluded, lemma_search_complete, lemma_search_exact};
use crate::chain::{chain, links, lemma_chain_links, lemma_chain_is, code, pick, lemma_pick};

verus! {

/// Depth below the root at which a cell is no longer split, however many
/// points it holds.
pub const MAX_DEPTH: usize = 64;

/// Largest half-extent of a cell; a cell's centre at depth `d` lies within
/// `(d + 1)` times this of the origin.
pub const CELL_LIMIT: i64 = 2_199_023_255_552;

/// One cell of the tree: a cube, the points in it as a stretch of the
/// successor list, and up to eight child cells.
pub struct Octant {
    pub octants: Vec<Option<Box<Octant>>>,
    pub start_idx: usize,
    pub end_idx: usize,
    pub size: usize,
    pub bound: Bound,
    pub center: Point,
    pub radius: i64,
    pub n_octants: usize,
}

/// Half of `r`, rounded up.
pub open spec fn half_up(r: int) -> int {
    (r + 1) / 2
}

/// The cell's radius and centre are within what its depth allows.
pub open spec fn cell_ok(center: Point, radius: int, depth: int) -> bool {
    &&& 0 <= depth <= MAX_DEPTH
    &&& 0 <= radius <= CELL_LIMIT
    &&& -CELL_LIMIT * (depth + 1) <= center.x <= CELL_LIMIT * (depth + 1)
    &&& -CELL_LIMIT * (depth + 1) <= center.y <= CELL_LIMIT * (depth + 1)
    &&& -CELL_LIMIT * (depth + 1) <= center.z <= CELL_LIMIT * (depth + 1)
}

/// `cc` is the centre of child `i` of a cell at `c` with radius `r`: moved by
/// half the radius, rounded up, towards the side that the child's number names.
pub open spec fn is_child_center(cc: Point, c: Point, r: int, i: int) -> bool {
    &&& cc.x == c.x + (if i % 2 == 1 { half_up(r) } else { -half_up(r) })
    &&& cc.y == c.y + (if (i / 2) % 2 == 1 { half_up(r) } else { -half_up(r) })
    &&& cc.z == c.z + (if i / 4 == 1 { half_up(r) } else { -half_up(r) })
    &&& cc.id is None
}

/// Centre of child `i` of a cell at `c` with radius `r`.
pub open spec fn child_center(c: Point, r: int, i: int) -> Point {
    Point {
        x: (c.x + (if i % 2 == 1 { half_up(r) } else { -half_up(r) })) as i64,
        y: (c.y + (if (i / 2) % 2 == 1 { half_up(r) } else { -half_up(r) })) as i64,
        z: (c.z + (if i / 4 == 1 { half_up(r) } else { -half_up(r) })) as i64,
        id: None,
    }
}

/// The order in which the cell built for the indices `s` lists them: as
/// they come where the cell is a leaf, and otherwise child by child, the
/// share of each child in the order that the child lists it.
pub open spec fn arranged(s: Seq<int>, pts: Seq<&Point>, bucket: usize, center: Point, radius: int, depth: nat) -> Seq<int>
    decreases MAX_DEPTH - depth, 9nat,
{
    if s.len() <= bucket || depth >= MAX_DEPTH {
        s
    } else {
        arranged_upto(s, pts, bucket, center, radius, depth, 8)
    }
}

/// The part of `arranged` that the first `c` children contribute.
pub open spec fn arranged_upto(s: Seq<int>, pts: Seq<&Point>, bucket: usize, center: Point, radius: int, depth: nat, c: nat) -> Seq<int>
    decreases MAX_DEPTH - depth, c,
{
    if c == 0 || depth >= MAX_DEPTH {
        Seq::empty()
    } else {
        arranged_upto(s, pts, bucket, center, radius, depth, (c - 1) as nat) + arranged(
            pick(s, pts, center, c - 1),
            pts,
            bucket,
            child_center(center, radius, c - 1),
            half_up(radius),
            depth + 1,
        )
    }
}

/// The indices below `n` in rising order.
pub open spec fn input_order(n: nat) -> Seq<int> {
    Seq::new(n, |i: int| i)
}

/// The stretch of the successor list that a child slot stands for.
pub open spec fn span_of(kid: Option<Box<Octant>>, succ: Seq<usize>) -> Seq<int> {
    match kid {
        Some(ch) => ch.span(succ),
        None => Seq::empty(),
    }
}

/// The stretches of the first `c` child slots, one after the other.
pub open spec fn joined(kids: Seq<Option<Box<Octant>>>, succ: Seq<usize>, c: nat) -> Seq<int>
    decreases c,
{
    if c == 0 {
        Seq::empty()
    } else {
        joined(kids, succ, (c - 1) as nat) + span_of(kids[c - 1], succ)
    }
}

/// How many of the first `c` child slots are taken.
pub open spec fn count_some(kids: Seq<Option<Box<Octant>>>, c: nat) -> nat
    decreases c,
{
    if c == 0 {
        0
    } else {
        count_some(kids, (c - 1) as nat) + (if kids[c - 1] is Some { 1nat } else { 0nat })
    }
}

/// The stretch of child slot `c` sits in the joined stretch right after the
/// stretches of the slots before it.
pub proof fn lemma_joined_part(kids: Seq<Option<Box<Octant>>>, succ: Seq<usize>, c: nat, n: nat)
    requires
        c < n <= kids.len(),
    ensures
        joined(kids, succ, c).len() + span_of(kids[c as int], succ).len() <= joined(kids, succ, n).len(),
        forall|k: int| 0 <= k < span_of(kids[c as int], succ).len() ==>
            joined(kids, succ, n)[joined(kids, succ, c).len() + k] == #[trigger] span_of(kids[c as int], succ)[k],
    decreases n,
{
    if n > c + 1 {
        lemma_joined_part(kids, succ, c, (n - 1) as nat);
    }
}

/// Slots that stand for the same stretches join to the same stretch and
/// count the same.
pub proof fn lemma_joined_same(
    kids: Seq<Option<Box<Octant>>>,
    succ: Seq<usize>,
    kids2: Seq<Option<Box<Octant>>>,
    succ2: Seq<usize>,
    n: nat,
)
    requires
        n <= kids.len(),
        n <= kids2.len(),
        forall|c: int| 0 <= c < n ==> span_of(#[trigger] kids2[c], succ2) == span_of(kids[c], succ),
        forall|c: int| 0 <= c < n ==> (#[trigger] kids2[c] is Some <==> kids[c] is Some),
    ensures
        joined(kids2, succ2, n) == joined(kids, succ, n),
        count_some(kids2, n) == count_some(kids, n),
    decreases n,
{
    if n > 0 {
        lemma_joined_same(kids, succ, kids2, succ2, (n - 1) as nat);
        assert(span_of(kids2[n - 1], succ2) == span_of(kids[n - 1], succ));
    }
}

impl Octant {
    /// The indices of the cell's points, in list order.
    pub open spec fn span(self, succ: Seq<usize>) -> Seq<int> {
        chain(succ, self.start_idx as int, self.size as nat)
    }

    /// The cell and all cells below it are sound with respect to the points
    /// `pts`, the successor list `succ` and the leaf threshold `bucket`, the
    /// cell standing `depth` levels below the root.
    pub open spec fn wf(self, pts: Seq<&Point>, succ: Seq<usize>, bucket: usize, depth: int) -> bool
        decreases self,
    {
        let span = self.span(succ);
        &&& self.octants@.len() == 8
        &&& self.size >= 1
        &&& pts.len() == succ.len()
        &&& forall|k: int| 0 <= k < span.len() ==> 0 <= #[trigger] span[k] < pts.len()
        &&& span.no_duplicates()
        &&& span[self.size - 1] == self.end_idx
        &&& cell_ok(self.center, self.radius as int, depth)
        &&& self.bound.is_box(self.center, self.radius as int)
        &&& forall|k: int| 0 <= k < span.len() ==> self.bound.holds(*pts[#[trigger] span[k]])
        &&& self.n_octants == count_some(self.octants@, 8)
        &&& (self.n_octants == 0 <==> (self.size <= bucket || depth >= MAX_DEPTH))
        &&& forall|c: int| 0 <= c < 8 ==> match #[trigger] self.octants@[c] {
            Some(ch) => {
                &&& self.n_octants > 0
                &&& ch.wf(pts, succ, bucket, depth + 1)
                &&& ch.radius == half_up(self.radius as int)
                &&& is_child_center(ch.center, self.center, self.radius as int, c)
                &&& forall|x: int| #[trigger] ch.span(succ).contains(x) ==> code(*pts[x], self.center) == c
            },
            None => true,
        }
        &&& self.n_octants > 0 ==> span == joined(self.octants@, succ, 8)
    }

    /// Soundness of a cell rests on the successors of its points only, the
    /// last point of its stretch left out.
    pub proof fn lemma_wf_frame(self, pts: Seq<&Point>, succ: Seq<usize>, succ2: Seq<usize>, bucket: usize, depth: int)
        requires
            self.wf(pts, succ, bucket, depth),
            succ2.len() == succ.len(),
            forall|k: int| 0 <= k && k + 1 < self.size ==> succ2[#[trigger] self.span(succ)[k]] == succ[self.span(succ)[k]],
        ensures
            self.wf(pts, succ2, bucket, depth),
            self.span(succ2) == self.span(succ),
        decreases self,
    {
        let span = self.span(succ);
        lemma_chain_links(succ, self.start_idx as int, self.size as nat);
        assert(links(succ2, span)) by {
            assert forall|k: int| 0 <= k && k + 1 < span.len() implies succ2[#[trigger] span[k]] == span[k + 1] by {
                assert(succ[span[k]] == span[k + 1]);
            }
        }
        lemma_chain_is(succ2, self.start_idx as int, span);
        assert(self.span(succ2) == span);
        if self.n_octants > 0 {
            let kids = self.octants@;
            assert forall|c: int| 0 <= c < 8 implies span_of(#[trigger] kids[c], succ2) == span_of(kids[c], succ)
                && match kids[c] {
                    Some(ch) => ch.wf(pts, succ2, bucket, depth + 1),
                    None => true,
                } by {
                match kids[c] {
                    Some(ch) => {
                        lemma_joined_part(kids, succ, c as nat, 8);
                        let off = joined(kids, succ, c as nat).len();
                        let sp = ch.span(succ);
                        assert(sp == span_of(kids[c], succ));
                        assert(ch.wf(pts, succ, bucket, depth + 1));
                        lemma_chain_links(succ, ch.start_idx as int, ch.size as nat);
                        assert forall|k: int| 0 <= k && k + 1 < ch.size implies succ2[#[trigger] sp[k]] == succ[sp[k]] by {
                            assert(span[off + k] == span_of(kids[c], succ)[k]);
                            assert(off + k + 1 < self.size);
                        }
                        ch.lemma_wf_frame(pts, succ, succ2, bucket, depth + 1);
                    },
                    None => {},
                }
            }
            lemma_joined_same(kids, succ, kids, succ2, 8);
        }
    }

    /// Number of the child cell that takes `p`.
    pub fn octant_idx(&self, p: &Point) -> (m: usize)
        ensures
            m == code(*p, self.center),
            m < 8,
    {
        let mut child: usize = 0;
        if p.x > self.center.x {
            child = child + 1;
        }
        if p.y > self.center.y {
            child = child + 2;
        }
        if p.z > self.center.z {
            child = child + 4;
        }
        child
    }

    /// The cell has no child.
    pub fn is_leaf(&self) -> (b: bool)
        ensures
            b == (self.n_octants == 0),
    {
        self.n_octants == 0
    }

    /// Eight empty child slots.
    pub fn empty_children() -> (kids: Vec<Option<Box<Octant>>>)
        ensures
            kids@.len() == 8,
            forall|c: int| 0 <= c < 8 ==> #[trigger] kids@[c] is None,
    {
        let mut kids: Vec<Option<Box<Octant>>> = Vec::with_capacity(8);
        let mut c: usize = 0;
        while c < 8
            invariant
                c <= 8,
                kids@.len() == c,
                forall|j: int| 0 <= j < c ==> #[trigger] kids@[j] is None,
            decreases 8 - c,
        {
            kids.push(None);
            c = c + 1;
        }
        kids
    }
}

impl Default for Octant {
    fn default() -> (o: Octant)
        ensures
            o.size == 0,
            o.n_octants == 0,
            o.start_idx == 0,
            o.end_idx == 0,
            o.radius == 0,
            o.octants@.len() == 8,
            forall|c: int| 0 <= c < 8 ==> #[trigger] o.octants@[c] is None,
    {
        Octant {
            octants: Octant::empty_children(),
            start_idx: 0,
            end_idx: 0,
            size: 0,
            center: Point::default(),
            bound: Bound::default(),
            radius: 0,
            n_octants: 0,
        }
    }
}


/// The point lies in the cube of half-extent `r` around `c`, faces included.
pub open spec fn in_cell(p: Point, c: Point, r: int) -> bool {
    &&& c.x - r <= p.x <= c.x + r
    &&& c.y - r <= p.y <= c.y + r
    &&& c.z - r <= p.z <= c.z + r
}

/// `b` is a linked stretch of `size` indices from `start` to `end`.
pub open spec fn bucket_ok(succ: Seq<usize>, b: Seq<int>, start: usize, end: usize, size: usize) -> bool {
    &&& b.len() == size
    &&& links(succ, b)
    &&& size > 0 ==> b[0] == start && b[size - 1] == end
}

/// With every slot empty nothing is counted and nothing is joined.
pub proof fn lemma_no_children(kids: Seq<Option<Box<Octant>>>, succ: Seq<usize>, n: nat)
    requires
        n <= kids.len(),
        forall|c: int| 0 <= c < n ==> #[trigger] kids[c] is None,
    ensures
        count_some(kids, n) == 0,
        joined(kids, succ, n).len() == 0,
    decreases n,
{
    if n > 0 {
        lemma_no_children(kids, succ, (n - 1) as nat);
    }
}

/// The index over a point set: the points, the successor list threaded
/// through them, the tree of cells and the leaf threshold.
pub struct Octree<'a> {
    pub root: Box<Octant>,
    pub points: Vec<&'a Point>,
    pub successors: Vec<usize>,
    pub bucket_size: usize,
}

impl<'a> Octree<'a> {
    #[verifier::rlimit(80)]
    /// Builds the cell for the `size` points listed from `start_idx` to
    /// `end_idx`, splitting it while it holds more than `bucket_size` points
    /// and stands above `MAX_DEPTH`. Only successors of the listed points
    /// change, and the cell's stretch holds the same points as before.
    pub fn create_octant(
        points: &Vec<&'a Point>,
        successors: &mut Vec<usize>,
        bucket_size: usize,
        center: Point,
        radius: i64,
        start_idx: usize,
        end_idx: usize,
        size: usize,
        depth: usize,
    ) -> (oct: Box<Octant>)
        requires
            old(successors)@.len() == points@.len(),
            size >= 1,
            cell_ok(center, radius as int, depth as int),
            ({
                let s = chain(old(successors)@, start_idx as int, size as nat);
                &&& forall|k: int| 0 <= k < s.len() ==> 0 <= #[trigger] s[k] < points@.len()
                &&& s.no_duplicates()
                &&& s[size - 1] == end_idx
                &&& forall|k: int| 0 <= k < s.len() ==> in_cell(*points@[#[trigger] s[k]], center, radius as int)
            }),
        ensures
            final(successors)@.len() == old(successors)@.len(),
            oct.wf(points@, final(successors)@, bucket_size, depth as int),
            oct.size == size,
            oct.center == center,
            oct.radius == radius,
            forall|j: int| 0 <= j < points@.len() && !chain(old(successors)@, start_idx as int, size as nat).contains(j)
                ==> #[trigger] final(successors)@[j] == old(successors)@[j],
            forall|j: int| chain(old(successors)@, start_idx as int, size as nat).contains(j)
                <==> #[trigger] oct.span(final(successors)@).contains(j),
            oct.span(final(successors)@) == arranged(
                chain(old(successors)@, start_idx as int, size as nat),
                points@,
                bucket_size,
                center,
                radius as int,
                depth as nat,
            ),
        decreases MAX_DEPTH - depth,
    {
        let ghost succ0 = successors@;
        let ghost pts = points@;
        let ghost s = chain(succ0, start_idx as int, size as nat);
        proof {
            lemma_chain_links(succ0, start_idx as int, size as nat);
        }
        let mut octant = Octant {
            octants: Octant::empty_children(),
            center: Point::new_from_point(&center),
            radius: radius,
            start_idx: start_idx,
            end_idx: end_idx,
            bound: Bound::new(&center, radius),
            size: size,
            n_octants: 0,
        };
        if size <= bucket_size || depth >= MAX_DEPTH {
            proof {
                lemma_no_children(octant.octants@, successors@, 8);
            }
            return Box::new(octant);
        }
        let mut idx: usize = start_idx;
        let mut child_start: [usize; 8] = [0; 8];
        let mut child_end: [usize; 8] = [0; 8];
        let mut child_sizes: [usize; 8] = [0; 8];
        let mut i: usize = 0;
        proof {
            assert(s.take(0) =~= Seq::<int>::empty());
        }
        while i < size
            invariant
                0 <= i <= size,
                size == s.len(),
                pts == points@,
                successors@.len() == pts.len(),
                octant.center == center,
                forall|k: int| 0 <= k < s.len() ==> 0 <= #[trigger] s[k] < pts.len(),
                s.no_duplicates(),
                links(succ0, s),
                s[0] == start_idx,
                i < size ==> idx == s[i as int],
                forall|k: int| i <= k < size ==> successors@[#[trigger] s[k]] == succ0[s[k]],
                forall|j: int| 0 <= j < pts.len() && !s.contains(j) ==> #[trigger] successors@[j] == succ0[j],
                forall|c: int| 0 <= c < 8 ==> bucket_ok(
                    successors@,
                    #[trigger] pick(s.take(i as int), pts, center, c),
                    child_start@[c],
                    child_end@[c],
                    child_sizes@[c],
                ),
            decreases size - i,
        {
            let p: &Point = points[idx];
            let m: usize = octant.octant_idx(p);
            let ghost t0 = s.take(i as int);
            let ghost t1 = s.take(i + 1);
            let ghost succ1 = successors@;
            let ghost e = child_end@[m as int] as int;
            let ghost bm = pick(t0, pts, center, m as int);
            let ghost sz0 = child_sizes@[m as int];
            proof {
                assert(t1.drop_last() =~= t0);
                assert(t1.last() == s[i as int]);
                assert(t0.no_duplicates());
                assert forall|c: int| 0 <= c < 8 implies pick(t1, pts, center, c) == (if c == m {
                    pick(t0, pts, center, c).push(idx as int)
                } else {
                    pick(t0, pts, center, c)
                }) by {}
                lemma_pick(t0, pts, center, m as int);
                assert(bucket_ok(successors@, bm, child_start@[m as int], child_end@[m as int], child_sizes@[m as int]));
                if bm.len() > 0 {
                    assert(bm.contains(bm[bm.len() - 1]));
                    assert(t0.contains(e));
                    let j = choose|j: int| 0 <= j < t0.len() && t0[j] == e;
                    assert(s[j] == e);
                    assert(s.contains(e));
                }
            }
            if child_sizes[m] == 0 {
                child_start[m] = idx;
            } else {
                successors[child_end[m]] = idx;
            }
            child_sizes[m] = child_sizes[m] + 1;
            child_end[m] = idx;
            proof {
                assert(successors@[idx as int] == succ0[idx as int]);
                if i + 1 < size {
                    assert(succ0[s[i as int]] == s[i + 1]);
                }
                assert forall|c: int| 0 <= c < 8 implies bucket_ok(
                    successors@,
                    #[trigger] pick(t1, pts, center, c),
                    child_start@[c],
                    child_end@[c],
                    child_sizes@[c],
                ) by {
                    let b0 = pick(t0, pts, center, c);
                    lemma_pick(t0, pts, center, c);
                    assert(bucket_ok(succ1, b0, child_start@[c], child_end@[c], child_sizes@[c]) || c == m);
                    if c == m {
                        let b1 = bm.push(idx as int);
                        assert(sz0 == bm.len());
                        assert(sz0 > 0 ==> e == bm[bm.len() - 1] && successors@ == succ1.update(e, idx));
                        assert forall|k: int| 0 <= k && k + 1 < b1.len() implies successors@[#[trigger] b1[k]] == b1[k + 1] by {
                            if k + 1 < bm.len() {
                                assert(b1[k] == bm[k]);
                                assert(b1[k + 1] == bm[k + 1]);
                                assert(bm[k] != e);
                                assert(succ1[bm[k]] == bm[k + 1]);
                                assert(bm.contains(bm[k]));
                                assert(t0.contains(bm[k]));
                                let q = choose|q: int| 0 <= q < t0.len() && t0[q] == bm[k];
                                assert(s[q] == bm[k]);
                                assert(successors@[bm[k]] == succ1[bm[k]]);
                            } else {
                                assert(k == bm.len() - 1);
                                assert(b1[k] == e);
                                assert(b1[k + 1] == idx);
                                assert(successors@[e] == idx);
                            }
                        }
                    } else {
                        assert forall|k: int| 0 <= k && k + 1 < b0.len() implies successors@[#[trigger] b0[k]] == b0[k + 1] by {
                            assert(b0.contains(b0[k]));
                            assert(succ1[b0[k]] == b0[k + 1]);
                        }
                    }
                }
            }
            idx = successors[idx];
            i = i + 1;
        }
        proof {
            assert(s.take(size as int) =~= s);
        }
        let nr: i64 = (radius + 1) / 2;
        let mut kids: Vec<Option<Box<Octant>>> = Octant::empty_children();
        let mut last_idx: usize = 0;
        let mut n: usize = 0;
        let mut o_start: usize = start_idx;
        let mut o_end: usize = end_idx;
        let ghost mut acc: Seq<int> = Seq::empty();
        let mut c: usize = 0;
        proof {
            assert forall|j: int| 0 <= j < 8 implies (#[trigger] pick(s, pts, center, j)).no_duplicates() by {
                lemma_pick(s, pts, center, j);
            }
        }
        while c < 8
            invariant
                c <= 8,
                kids@.len() == 8,
                pts == points@,
                successors@.len() == pts.len(),
                size == s.len(),
                cell_ok(center, radius as int, depth as int),
                depth < MAX_DEPTH,
                nr == half_up(radius as int),
                forall|k: int| 0 <= k < s.len() ==> 0 <= #[trigger] s[k] < pts.len(),
                forall|k: int| 0 <= k < s.len() ==> in_cell(*pts[#[trigger] s[k]], center, radius as int),
                s.no_duplicates(),
                forall|j: int| 0 <= j < 8 ==> (#[trigger] pick(s, pts, center, j)).no_duplicates(),
                forall|j: int| c <= j < 8 ==> #[trigger] kids@[j] is None,
                forall|j: int| c <= j < 8 ==> bucket_ok(
                    successors@,
                    #[trigger] pick(s, pts, center, j),
                    child_start@[j],
                    child_end@[j],
                    child_sizes@[j],
                ),
                forall|j: int| 0 <= j < c ==> match #[trigger] kids@[j] {
                    Some(ch) => {
                        &&& ch.wf(pts, successors@, bucket_size, depth + 1)
                        &&& ch.radius == nr
                        &&& is_child_center(ch.center, center, radius as int, j)
                        &&& forall|x: int| #[trigger] ch.span(successors@).contains(x) <==> pick(s, pts, center, j).contains(x)
                    },
                    None => true,
                },
                acc == joined(kids@, successors@, c as nat),
                acc == arranged_upto(s, pts, bucket_size, center, radius as int, depth as nat, c as nat),
                n == count_some(kids@, c as nat),
                n <= c,
                acc.no_duplicates(),
                forall|x: int| #[trigger] acc.contains(x) <==> (s.contains(x) && code(*pts[x], center) < c),
                n == 0 ==> acc.len() == 0,
                n > 0 ==> {
                    &&& links(successors@, acc)
                    &&& acc.len() > 0
                    &&& acc[0] == o_start
                    &&& acc[acc.len() - 1] == o_end
                    &&& last_idx < c
                    &&& kids@[last_idx as int] is Some
                    &&& kids@[last_idx as int]->0.end_idx == o_end
                },
                forall|j: int| 0 <= j < pts.len() && !s.contains(j) ==> #[trigger] successors@[j] == succ0[j],
            decreases 8 - c,
        {
            let ghost b = pick(s, pts, center, c as int);
            let ghost succ1 = successors@;
            let ghost kids1 = kids@;
            proof {
                lemma_pick(s, pts, center, c as int);
                assert(bucket_ok(succ1, b, child_start@[c as int], child_end@[c as int], child_sizes@[c as int]));
            }
            if child_sizes[c] == 0 {
                proof {
                    assert(b.len() == 0);
                    assert(span_of(kids1[c as int], succ1) =~= Seq::<int>::empty());
                    assert(joined(kids1, succ1, (c + 1) as nat) =~= acc);
                    assert(arranged(b, pts, bucket_size, child_center(center, radius as int, c as int), half_up(radius as int), (depth + 1) as nat) == b);
                    assert(arranged_upto(s, pts, bucket_size, center, radius as int, depth as nat, (c + 1) as nat) =~= acc);
                    assert forall|x: int| #[trigger] acc.contains(x) <==> (s.contains(x) && code(*pts[x], center) < c + 1) by {
                        if s.contains(x) && code(*pts[x], center) == c {
                            assert(b.contains(x));
                        }
                    }
                }
            } else {
                let new_center = Point {
                    x: if c % 2 == 1 { center.x + nr } else { center.x - nr },
                    y: if (c / 2) % 2 == 1 { center.y + nr } else { center.y - nr },
                    z: if c / 4 == 1 { center.z + nr } else { center.z - nr },
                    id: None,
                };
                proof {
                    lemma_chain_is(succ1, child_start@[c as int] as int, b);
                    assert forall|k: int| 0 <= k < b.len() implies 0 <= #[trigger] b[k] < pts.len()
                        && in_cell(*pts[b[k]], new_center, nr as int) by {
                        assert(b.contains(b[k]));
                        assert(s.contains(b[k]));
                        let q = choose|q: int| 0 <= q < s.len() && s[q] == b[k];
                        assert(in_cell(*pts[s[q]], center, radius as int));
                    }
                }
                let child = Self::create_octant(
                    points,
                    successors,
                    bucket_size,
                    new_center,
                    nr,
                    child_start[c],
                    child_end[c],
                    child_sizes[c],
                    depth + 1,
                );
                let ghost succ2 = successors@;
                let ghost sp = child.span(succ2);
                proof {
                    lemma_chain_links(succ2, child.start_idx as int, child.size as nat);
                    assert(sp.len() == child.size);
                    assert(new_center == child_center(center, radius as int, c as int));
                    assert(arranged_upto(s, pts, bucket_size, center, radius as int, depth as nat, (c + 1) as nat) == acc + sp);
                }
                if n == 0 {
                    o_start = child.start_idx;
                } else {
                    proof {
                        assert(acc.contains(acc[acc.len() - 1]));
                        assert(s.contains(o_end as int));
                        let q = choose|q: int| 0 <= q < s.len() && s[q] == o_end;
                        assert(0 <= s[q] < pts.len());
                    }
                    successors[o_end] = child.start_idx;
                }
                let ghost succ3 = successors@;
                let ghost old_end = o_end as int;
                let ghost had = n > 0;
                let ghost prev = last_idx as int;
                proof {
                    if had {
                        assert(acc.contains(old_end));
                        assert(code(*pts[old_end], center) < c);
                        assert(!b.contains(old_end));
                    }
                    // what differs between the lists before and after this step
                    assert forall|x: int| 0 <= x < pts.len() && !b.contains(x) && !(had && x == old_end) implies #[trigger] succ3[x] == succ1[x] by {
                        assert(succ2[x] == succ1[x]);
                    }
                    assert forall|x: int| 0 <= x < pts.len() && !s.contains(x) implies #[trigger] succ3[x] == succ0[x] by {
                        assert(!b.contains(x));
                        if had {
                            assert(s.contains(old_end));
                        }
                    }
                    // the cells built before
                    assert forall|j: int| 0 <= j < c implies match #[trigger] kids1[j] {
                        Some(ch) => {
                            &&& ch.wf(pts, succ3, bucket_size, depth + 1)
                            &&& ch.span(succ3) == ch.span(succ1)
                        },
                        None => true,
                    } by {
                        match kids1[j] {
                            Some(ch) => {
                                let cs = ch.span(succ1);
                                lemma_chain_links(succ1, ch.start_idx as int, ch.size as nat);
                                assert forall|k: int| 0 <= k && k + 1 < ch.size implies succ3[#[trigger] cs[k]] == succ1[cs[k]] by {
                                    assert(cs.contains(cs[k]));
                                    assert(pick(s, pts, center, j).contains(cs[k]));
                                    lemma_pick(s, pts, center, j);
                                    assert(code(*pts[cs[k]], center) == j);
                                    if had {
                                        if j == prev {
                                            assert(cs[ch.size - 1] == old_end);
                                        } else {
                                            let pc = kids1[prev]->0;
                                            let ps = pc.span(succ1);
                                            lemma_chain_links(succ1, pc.start_idx as int, pc.size as nat);
                                            assert(ps[pc.size - 1] == old_end);
                                            assert(ps.contains(old_end));
                                            assert(pick(s, pts, center, prev).contains(old_end));
                                            lemma_pick(s, pts, center, prev);
                                        }
                                    }
                                }
                                ch.lemma_wf_frame(pts, succ1, succ3, bucket_size, depth + 1);
                            },
                            None => {},
                        }
                    }
                    // the cell just built
                    assert forall|k: int| 0 <= k && k + 1 < child.size implies succ3[#[trigger] sp[k]] == succ2[sp[k]] by {
                        assert(sp.contains(sp[k]));
                        assert(b.contains(sp[k]));
                    }
                    child.lemma_wf_frame(pts, succ2, succ3, bucket_size, depth + 1);
                    // the buckets still to come
                    assert forall|j: int| c < j < 8 implies bucket_ok(
                        succ3,
                        #[trigger] pick(s, pts, center, j),
                        child_start@[j],
                        child_end@[j],
                        child_sizes@[j],
                    ) by {
                        let bj = pick(s, pts, center, j);
                        lemma_pick(s, pts, center, j);
                        assert(bucket_ok(succ1, bj, child_start@[j], child_end@[j], child_sizes@[j]));
                        assert forall|k: int| 0 <= k && k + 1 < bj.len() implies succ3[#[trigger] bj[k]] == bj[k + 1] by {
                            assert(bj.contains(bj[k]));
                            assert(succ1[bj[k]] == bj[k + 1]);
                        }
                    }
                    // the joined stretch
                    let acc2 = acc + sp;
                    assert forall|k: int| 0 <= k && k + 1 < acc2.len() implies succ3[#[trigger] acc2[k]] == acc2[k + 1] by {
                        if k + 1 < acc.len() {
                            assert(acc2[k] == acc[k] && acc2[k + 1] == acc[k + 1]);
                            assert(acc.contains(acc[k]));
                            assert(succ1[acc[k]] == acc[k + 1]);
                        } else if k + 1 == acc.len() {
                            assert(acc2[k] == old_end);
                            assert(acc2[k + 1] == sp[0]);
                        } else {
                            assert(acc2[k] == sp[k - acc.len()]);
                            assert(acc2[k + 1] == sp[k - acc.len() + 1]);
                            assert(sp.contains(sp[k - acc.len()]));
                            assert(succ2[sp[k - acc.len()]] == sp[k - acc.len() + 1]);
                        }
                    }
                    assert forall|a: int, d: int| 0 <= a < acc.len() && 0 <= d < sp.len() implies acc[a] != sp[d] by {
                        assert(acc.contains(acc[a]));
                        assert(sp.contains(sp[d]));
                        assert(b.contains(sp[d]));
                    }
                    vstd::seq_lib::lemma_no_dup_in_concat(acc, sp);
                    assert forall|x: int| #[trigger] acc2.contains(x) <==> (s.contains(x) && code(*pts[x], center) < c + 1) by {
                        if acc2.contains(x) {
                            let k = choose|k: int| 0 <= k < acc2.len() && acc2[k] == x;
                            if k < acc.len() {
                                assert(acc.contains(acc[k]));
                            } else {
                                assert(sp.contains(sp[k - acc.len()]));
                                assert(b.contains(x));
                            }
                        }
                        if s.contains(x) && code(*pts[x], center) < c + 1 {
                            if code(*pts[x], center) < c {
                                assert(acc.contains(x));
                                let k = choose|k: int| 0 <= k < acc.len() && acc[k] == x;
                                assert(acc2[k] == x);
                            } else {
                                assert(b.contains(x));
                                assert(sp.contains(x));
                                let k = choose|k: int| 0 <= k < sp.len() && sp[k] == x;
                                assert(acc2[acc.len() + k] == x);
                            }
                        }
                    }
                    assert(sp[child.size - 1] == child.end_idx);
                    assert(acc2[acc2.len() - 1] == child.end_idx);
                    assert(acc2[0] == (if had { o_start as int } else { child.start_idx as int }));
                    acc = acc2;
                }
                last_idx = c;
                o_end = child.end_idx;
                n = n + 1;
                kids[c] = Some(child);
                proof {
                    let kids2 = kids@;
                    assert forall|j: int| 0 <= j < c implies span_of(#[trigger] kids2[j], succ3) == span_of(kids1[j], succ1) by {
                        assert(kids2[j] == kids1[j]);
                    }
                    lemma_joined_same(kids1, succ1, kids2, succ3, c as nat);
                    assert(span_of(kids2[c as int], succ3) == sp);
                }
            }
            c = c + 1;
        }
        proof {
            // the joined stretch has as many elements as the list that came in
            assert(acc.to_set() =~= s.to_set());
            acc.unique_seq_to_set();
            s.unique_seq_to_set();
            assert(acc.len() == size);
            lemma_chain_is(successors@, o_start as int, acc);
        }
        proof {
            assert forall|j: int| 0 <= j < 8 implies match #[trigger] kids@[j] {
                Some(ch) => forall|x: int| #[trigger] ch.span(successors@).contains(x) ==> code(*pts[x], center) == j,
                None => true,
            } by {
                lemma_pick(s, pts, center, j);
            }
        }
        octant.octants = kids;
        octant.start_idx = o_start;
        octant.end_idx = o_end;
        octant.n_octants = n;
        proof {
            assert(octant.span(successors@) == acc);
            assert forall|k: int| 0 <= k < acc.len() implies 0 <= #[trigger] acc[k] < pts.len()
                && octant.bound.holds(*pts[acc[k]]) by {
                assert(acc.contains(acc[k]));
                let q = choose|q: int| 0 <= q < s.len() && s[q] == acc[k];
                assert(in_cell(*pts[s[q]], center, radius as int));
            }
        }
        Box::new(octant)
    }
}


/// Coordinate of `p` along axis 0, 1 or 2.
pub open spec fn coord(p: Point, axis: int) -> int {
    if axis == 0 {
        p.x as int
    } else if axis == 1 {
        p.y as int
    } else {
        p.z as int
    }
}

/// Least coordinate of the points along an axis; `COORD_LIMIT` for none.
pub open spec fn lowest(pts: Seq<&Point>, axis: int) -> int
    decreases pts.len(),
{
    if pts.len() == 0 {
        COORD_LIMIT as int
    } else {
        let rest = lowest(pts.drop_last(), axis);
        if coord(*pts.last(), axis) < rest {
            coord(*pts.last(), axis)
        } else {
            rest
        }
    }
}

/// Greatest coordinate of the points along an axis; `-COORD_LIMIT` for none.
pub open spec fn highest(pts: Seq<&Point>, axis: int) -> int
    decreases pts.len(),
{
    if pts.len() == 0 {
        -COORD_LIMIT as int
    } else {
        let rest = highest(pts.drop_last(), axis);
        if coord(*pts.last(), axis) > rest {
            coord(*pts.last(), axis)
        } else {
            rest
        }
    }
}

/// Every point has its coordinates within `COORD_LIMIT` of the origin.
pub open spec fn all_in_range(pts: Seq<&Point>) -> bool {
    forall|i: int| 0 <= i < pts.len() ==> (#[trigger] pts[i]).in_range()
}

/// The extremes bound every point, and lie in range for points in range.
pub proof fn lemma_extremes(pts: Seq<&Point>, axis: int)
    requires
        all_in_range(pts),
        0 <= axis < 3,
    ensures
        forall|i: int| 0 <= i < pts.len() ==> lowest(pts, axis) <= coord(*#[trigger] pts[i], axis) <= highest(pts, axis),
        -COORD_LIMIT <= lowest(pts, axis) <= COORD_LIMIT,
        -COORD_LIMIT <= highest(pts, axis) <= COORD_LIMIT,
        pts.len() > 0 ==> lowest(pts, axis) <= highest(pts, axis),
    decreases pts.len(),
{
    if pts.len() > 0 {
        let d = pts.drop_last();
        assert(all_in_range(d)) by {
            assert forall|i: int| 0 <= i < d.len() implies (#[trigger] d[i]).in_range() by {
                assert(d[i] == pts[i]);
            }
        }
        lemma_extremes(d, axis);
        assert(pts.last() == pts[pts.len() - 1]);
        assert(pts[pts.len() - 1].in_range());
        assert forall|i: int| 0 <= i < pts.len() implies lowest(pts, axis) <= coord(*#[trigger] pts[i], axis) <= highest(pts, axis) by {
            if i < d.len() {
                assert(d[i] == pts[i]);
            }
        }
    }
}

/// The larger of two numbers.
pub open spec fn larger(a: int, b: int) -> int {
    if a >= b {
        a
    } else {
        b
    }
}

/// `center` and `radius` describe the smallest cube around the points that
/// is centred midway between their extremes, halves rounded up: the radius
/// is the largest of the three half-extents.
pub open spec fn is_mbb(pts: Seq<&Point>, center: Point, radius: int) -> bool {
    &&& center.x == lowest(pts, 0) + half_up(highest(pts, 0) - lowest(pts, 0))
    &&& center.y == lowest(pts, 1) + half_up(highest(pts, 1) - lowest(pts, 1))
    &&& center.z == lowest(pts, 2) + half_up(highest(pts, 2) - lowest(pts, 2))
    &&& center.id is None
    &&& radius == larger(
        half_up(highest(pts, 0) - lowest(pts, 0)),
        larger(half_up(highest(pts, 1) - lowest(pts, 1)), half_up(highest(pts, 2) - lowest(pts, 2))),
    )
}

/// The point passes the kernel: it is not the query point itself and, unless
/// its whole cell is known to lie in the region, it is inside the region.
pub open spec fn keep(k: Kernel, whole: bool, p: Point) -> bool {
    !k.center.same_id(p) && (whole || k.spec_is_inside(p))
}

/// The indices of `span`, in order, whose points pass the kernel.
pub open spec fn collect(span: Seq<int>, pts: Seq<&Point>, k: Kernel, whole: bool) -> Seq<int>
    decreases span.len(),
{
    if span.len() == 0 {
        Seq::empty()
    } else {
        let rest = collect(span.drop_last(), pts, k, whole);
        if keep(k, whole, *pts[span.last()]) {
            rest.push(span.last())
        } else {
            rest
        }
    }
}

/// The points at the given indices.
pub open spec fn at<'b>(pts: Seq<&'b Point>, idx: Seq<int>) -> Seq<&'b Point> {
    Seq::new(idx.len(), |i: int| pts[idx[i]])
}

/// What a search of the first `c` child slots finds: each child that
/// overlaps the kernel's outer box is searched, in slot order.
pub open spec fn found_in(kids: Seq<Option<Box<Octant>>>, pts: Seq<&Point>, succ: Seq<usize>, k: Kernel, c: nat) -> Seq<int>
    decreases kids, c,
{
    if c == 0 || c > kids.len() {
        Seq::empty()
    } else {
        found_in(kids, pts, succ, k, (c - 1) as nat) + (match kids[c - 1] {
            Some(ch) => if k.spec_box_overlap(ch.bound) {
                ch.found(pts, succ, k)
            } else {
                Seq::empty()
            },
            None => Seq::empty(),
        })
    }
}

impl Octant {
    /// What a search of this cell finds, as indices in visiting order: all
    /// of its points but the query point where the kernel contains the cell,
    /// those inside the region where the cell is a leaf, and otherwise what
    /// the overlapping children yield.
    pub open spec fn found(self, pts: Seq<&Point>, succ: Seq<usize>, k: Kernel) -> Seq<int>
        decreases self,
    {
        if k.spec_contains(self.bound) {
            collect(self.span(succ), pts, k, true)
        } else if self.n_octants == 0 {
            collect(self.span(succ), pts, k, false)
        } else {
            found_in(self.octants@, pts, succ, k, 8)
        }
    }
}

impl<'a> Octree<'a> {
    /// The tree indexes its points: the root cell is sound, and its stretch
    /// of the successor list holds every point exactly once. With no points
    /// the root is an empty leaf.
    pub open spec fn wf(self) -> bool {
        &&& self.successors@.len() == self.points@.len()
        &&& all_in_range(self.points@)
        &&& if self.points@.len() == 0 {
            self.root.size == 0 && self.root.n_octants == 0
        } else {
            &&& self.root.wf(self.points@, self.successors@, self.bucket_size, 0)
            &&& self.root.size == self.points@.len()
            &&& forall|j: int| 0 <= j < self.points@.len() ==> #[trigger] self.root.span(self.successors@).contains(j)
        }
    }

    /// The indices of the neighbours of `p`, in visiting order.
    pub open spec fn neighbor_indices(self, p: Point, r: i64, kt: KernelT) -> Seq<int> {
        if self.points@.len() == 0 {
            Seq::empty()
        } else {
            self.root.found(self.points@, self.successors@, kernel_of(p, r, kt))
        }
    }

    /// Indexes the points: threads them in input order, roots the tree in
    /// their bounding cube and splits cells that hold more than
    /// `bucket_size` points. No points give an empty leaf as root.
    pub fn new(points: &'a Vec<Point>, bucket_size: usize) -> (oct: Self)
        requires
            forall|i: int| 0 <= i < points@.len() ==> (#[trigger] points@[i]).in_range(),
        ensures
            oct.wf(),
            oct.bucket_size == bucket_size,
            oct.points@.len() == points@.len(),
            forall|i: int| 0 <= i < points@.len() ==> *#[trigger] oct.points@[i] == points@[i],
            points@.len() > 0 ==> is_mbb(oct.points@, oct.root.center, oct.root.radius as int),
            points@.len() > 0 ==> (oct.root.n_octants == 0 <==> points@.len() <= bucket_size),
            points@.len() > 0 ==> oct.root.span(oct.successors@) == arranged(
                input_order(points@.len()),
                oct.points@,
                bucket_size,
                oct.root.center,
                oct.root.radius as int,
                0,
            ),
    {
        let mut oct = Self {
            root: Box::new(Octant::default()),
            successors: Vec::with_capacity(points.len()),
            points: Vec::with_capacity(points.len()),
            bucket_size: bucket_size,
        };
        oct.insert_points(points);
        proof {
            assert forall|i: int| 0 <= i < points@.len() implies *#[trigger] oct.points@[i] == points@[i] by {
                assert(*oct.points@[0 + i] == points@[i]);
            }
        }
        if points.len() == 0 {
            return oct;
        }
        let (center, radius) = oct.mbb();
        oct.build(center, radius);
        oct
    }

    /// Builds the tree over the points held, all in the cube given.
    pub fn build(&mut self, center: Point, radius: i64)
        requires
            old(self).points@.len() >= 1,
            old(self).successors@.len() == old(self).points@.len(),
            forall|i: int| 0 <= i < old(self).points@.len() ==> #[trigger] old(self).successors@[i] == i + 1,
            all_in_range(old(self).points@),
            cell_ok(center, radius as int, 0),
            forall|i: int| 0 <= i < old(self).points@.len() ==> in_cell(*#[trigger] old(self).points@[i], center, radius as int),
        ensures
            final(self).wf(),
            final(self).points@ == old(self).points@,
            final(self).bucket_size == old(self).bucket_size,
            final(self).root.center == center,
            final(self).root.radius == radius,
            final(self).root.span(final(self).successors@) == arranged(
                input_order(old(self).points@.len()),
                old(self).points@,
                old(self).bucket_size,
                center,
                radius as int,
                0,
            ),
    {
        let n: usize = self.points.len();
        let ghost ids = input_order(n as nat);
        proof {
            assert(links(self.successors@, ids));
            lemma_chain_is(self.successors@, 0, ids);
        }
        let root = Self::create_octant(&self.points, &mut self.successors, self.bucket_size, center, radius, 0, n - 1, n, 0);
        proof {
            assert forall|j: int| 0 <= j < n implies #[trigger] root.span(self.successors@).contains(j) by {
                assert(ids[j] == j);
                assert(ids.contains(j));
            }
        }
        self.root = root;
    }

    /// Appends the points and threads the successor list through them in
    /// their order: each index is followed by the next one.
    pub fn insert_points(&mut self, points: &'a Vec<Point>)
        ensures
            final(self).points@.len() == old(self).points@.len() + points@.len(),
            forall|i: int| 0 <= i < old(self).points@.len() ==> #[trigger] final(self).points@[i] == old(self).points@[i],
            forall|i: int| 0 <= i < points@.len() ==> *final(self).points@[old(self).points@.len() + i] == #[trigger] points@[i],
            final(self).successors@.len() == points@.len(),
            forall|i: int| 0 <= i < points@.len() ==> #[trigger] final(self).successors@[i] == i + 1,
            final(self).bucket_size == old(self).bucket_size,
            final(self).root == old(self).root,
    {
        self.successors.resize(points.len(), 0usize);
        let ghost before = self.points@;
        let mut index: usize = 0;
        while index < points.len()
            invariant
                index <= points@.len(),
                self.successors@.len() == points@.len(),
                self.points@.len() == before.len() + index,
                forall|i: int| 0 <= i < before.len() ==> #[trigger] self.points@[i] == before[i],
                forall|i: int| 0 <= i < index ==> *self.points@[before.len() + i] == #[trigger] points@[i],
                forall|i: int| 0 <= i < index ==> #[trigger] self.successors@[i] == i + 1,
                self.bucket_size == old(self).bucket_size,
                self.root == old(self).root,
            decreases points@.len() - index,
        {
            self.insert_point(&points[index]);
            self.successors[index] = index + 1;
            index = index + 1;
        }
    }

    /// Appends one point; the successor list is left alone.
    pub fn insert_point(&mut self, p: &'a Point)
        ensures
            final(self).points@ == old(self).points@.push(p),
            final(self).successors == old(self).successors,
            final(self).bucket_size == old(self).bucket_size,
            final(self).root == old(self).root,
    {
        self.points.push(p);
    }

    /// Centre and per-axis half-extents, rounded up, of the box between two
    /// corners.
    pub fn compute_center(&self, min: &Point, max: &Point) -> (r: (Point, Point))
        requires
            min.in_range(),
            max.in_range(),
            min.x <= max.x && min.y <= max.y && min.z <= max.z,
        ensures
            r.1.x == half_up(max.x - min.x) && r.1.y == half_up(max.y - min.y) && r.1.z == half_up(max.z - min.z),
            r.0.x == min.x + r.1.x && r.0.y == min.y + r.1.y && r.0.z == min.z + r.1.z,
            r.0.id is None && r.1.id is None,
    {
        let radii = Point {
            x: (max.x - min.x + 1) / 2,
            y: (max.y - min.y + 1) / 2,
            z: (max.z - min.z + 1) / 2,
            id: None,
        };
        let center = Point { x: min.x + radii.x, y: min.y + radii.y, z: min.z + radii.z, id: None };
        (center, radii)
    }

    /// The smallest cube the tree is rooted in: centred midway between the
    /// extremes of the points, with the largest of the three half-extents.
    pub fn mbb(&self) -> (r: (Point, i64))
        requires
            self.points@.len() >= 1,
            all_in_range(self.points@),
        ensures
            is_mbb(self.points@, r.0, r.1 as int),
            cell_ok(r.0, r.1 as int, 0),
            forall|i: int| 0 <= i < self.points@.len() ==> in_cell(*#[trigger] self.points@[i], r.0, r.1 as int),
    {
        let ghost pts = self.points@;
        let mut min = Point { x: COORD_LIMIT, y: COORD_LIMIT, z: COORD_LIMIT, id: None };
        let mut max = Point { x: -COORD_LIMIT, y: -COORD_LIMIT, z: -COORD_LIMIT, id: None };
        let mut i: usize = 0;
        proof {
            assert(pts.take(0) =~= Seq::<&Point>::empty());
        }
        while i < self.points.len()
            invariant
                i <= pts.len(),
                pts == self.points@,
                min.x == lowest(pts.take(i as int), 0) && min.y == lowest(pts.take(i as int), 1) && min.z == lowest(pts.take(i as int), 2),
                max.x == highest(pts.take(i as int), 0) && max.y == highest(pts.take(i as int), 1) && max.z == highest(pts.take(i as int), 2),
                min.id is None && max.id is None,
            decreases pts.len() - i,
        {
            let p: &Point = self.points[i];
            proof {
                assert(pts.take(i + 1).drop_last() =~= pts.take(i as int));
                assert(pts.take(i + 1).last() == pts[i as int]);
            }
            if p.x < min.x {
                min.x = p.x;
            }
            if p.y < min.y {
                min.y = p.y;
            }
            if p.z < min.z {
                min.z = p.z;
            }
            if p.x > max.x {
                max.x = p.x;
            }
            if p.y > max.y {
                max.y = p.y;
            }
            if p.z > max.z {
                max.z = p.z;
            }
            i = i + 1;
        }
        proof {
            assert(pts.take(pts.len() as int) =~= pts);
            lemma_extremes(pts, 0);
            lemma_extremes(pts, 1);
            lemma_extremes(pts, 2);
        }
        let (center, radii) = self.compute_center(&min, &max);
        let mut radius: i64 = radii.z;
        if radii.y >= radius {
            radius = radii.y;
        }
        if radii.x >= radius {
            radius = radii.x;
        }
        (center, radius)
    }

    /// Appends to `pts_inside` what a search of the cell finds.
    fn neighbors<'b>(&'b self, oct: &Octant, k: &Kernel, pts_inside: &mut Vec<&'b Point>, depth: Ghost<int>)
        requires
            oct.wf(self.points@, self.successors@, self.bucket_size, depth@),
            all_in_range(self.points@),
            k.wf(),
        ensures
            final(pts_inside)@ == old(pts_inside)@ + at(self.points@, oct.found(self.points@, self.successors@, *k)),
        decreases MAX_DEPTH - depth@,
    {
        let ghost pts = self.points@;
        let ghost succ = self.successors@;
        let ghost span = oct.span(succ);
        let ghost out0 = pts_inside@;
        proof {
            lemma_chain_links(succ, oct.start_idx as int, oct.size as nat);
        }
        let whole: bool = k.contains(&oct.bound);
        if whole || oct.is_leaf() {
            let mut current: usize = oct.start_idx;
            let mut i: usize = 0;
            proof {
                assert(span.take(0) =~= Seq::<int>::empty());
                assert(pts_inside@ =~= out0 + at(pts, collect(span.take(0), pts, *k, whole)));
            }
            while i < oct.size
                invariant
                    i <= oct.size,
                    span.len() == oct.size,
                    pts == self.points@,
                    succ == self.successors@,
                    succ.len() == pts.len(),
                    all_in_range(pts),
                    k.wf(),
                    links(succ, span),
                    forall|q: int| 0 <= q < span.len() ==> 0 <= #[trigger] span[q] < pts.len(),
                    i < oct.size ==> current == span[i as int],
                    pts_inside@ == out0 + at(pts, collect(span.take(i as int), pts, *k, whole)),
                decreases oct.size - i,
            {
                let p: &'b Point = self.points[current];
                proof {
                    assert(span.take(i + 1).drop_last() =~= span.take(i as int));
                    assert(span.take(i + 1).last() == span[i as int]);
                }
                if !k.get_center().has_same_id(p) && (whole || k.is_inside(p)) {
                    pts_inside.push(p);
                    proof {
                        assert(pts_inside@ =~= out0 + at(pts, collect(span.take(i + 1), pts, *k, whole)));
                    }
                }
                proof {
                    if i + 1 < oct.size {
                        assert(succ[span[i as int]] == span[i + 1]);
                    }
                }
                current = self.successors[current];
                i = i + 1;
            }
            proof {
                assert(span.take(oct.size as int) =~= span);
            }
            return ;
        }
        let mut c: usize = 0;
        while c < 8
            invariant
                c <= 8,
                oct.wf(self.points@, self.successors@, self.bucket_size, depth@),
                oct.n_octants > 0,
                all_in_range(self.points@),
                k.wf(),
                pts == self.points@,
                succ == self.successors@,
                pts_inside@ == out0 + at(pts, found_in(oct.octants@, pts, succ, *k, c as nat)),
            decreases 8 - c,
        {
            let ghost before = found_in(oct.octants@, pts, succ, *k, c as nat);
            match &oct.octants[c] {
                Some(child) => {
                    if k.box_overlap(&child.bound) {
                        self.neighbors(child, k, pts_inside, Ghost(depth@ + 1));
                        proof {
                            assert(pts_inside@ =~= out0 + at(pts, before + child.found(pts, succ, *k)));
                        }
                    } else {
                        proof {
                            assert(before + Seq::<int>::empty() =~= before);
                        }
                    }
                },
                None => {
                    proof {
                        assert(before + Seq::<int>::empty() =~= before);
                    }
                },
            }
            c = c + 1;
        }
    }

    /// The points of the index that lie in the region of the given shape and
    /// radius around `p`, in visiting order; a point that carries the
    /// identifier of `p` is never among them.
    pub fn search_neighbors(&self, p: &Point, r: i64, kt: &KernelT) -> (res: Vec<&Point>)
        requires
            self.wf(),
            p.in_range(),
            0 <= r <= RADIUS_LIMIT,
        ensures
            res@ == at(self.points@, self.neighbor_indices(*p, r, *kt)),
            forall|i: int| 0 <= i < res@.len() ==> !p.same_id(*#[trigger] res@[i]),
            !(kt is Sphere) ==> forall|j: int| #[trigger] self.neighbor_indices(*p, r, *kt).contains(j) <==> (0 <= j
                < self.points@.len() && kernel_of(*p, r, *kt).spec_is_inside(*self.points@[j]) && !p.same_id(
                *self.points@[j],
            )),
            forall|j: int| 0 <= j < self.points@.len() && kernel_of(*p, r, *kt).spec_is_inside(*self.points@[j])
                && !p.same_id(*self.points@[j]) ==> #[trigger] self.neighbor_indices(*p, r, *kt).contains(j),
    {
        let mut pts_inside = Vec::<&Point>::new();
        proof {
            assert forall|j: int| 0 <= j < self.points@.len() && kernel_of(*p, r, *kt).spec_is_inside(*self.points@[j])
                && !p.same_id(*self.points@[j]) implies #[trigger] self.neighbor_indices(*p, r, *kt).contains(j) by {
                lemma_search_complete(*self, *p, r, *kt, j);
            }
            if !(kt is Sphere) {
                assert forall|j: int| #[trigger] self.neighbor_indices(*p, r, *kt).contains(j) <==> (0 <= j
                    < self.points@.len() && kernel_of(*p, r, *kt).spec_is_inside(*self.points@[j]) && !p.same_id(
                    *self.points@[j],
                )) by {
                    lemma_search_exact(*self, *p, r, *kt, j);
                }
            }
        }
        if self.points.len() == 0 {
            proof {
                assert(pts_inside@ =~= at(self.points@, self.neighbor_indices(*p, r, *kt)));
            }
            return pts_inside;
        }
        let kernel = KernelFactory::new(p, r, kt);
        self.neighbors(&self.root, &kernel, &mut pts_inside, Ghost(0));
        proof {
            let idx = self.neighbor_indices(*p, r, *kt);
            assert(pts_inside@ =~= at(self.points@, idx));
            assert forall|i: int| 0 <= i < pts_inside@.len() implies !p.same_id(*#[trigger] pts_inside@[i]) by {
                assert(idx.contains(idx[i]));
                lemma_query_point_excluded(*self, *p, r, *kt, idx[i]);
            }
        }
        pts_inside
    }
}

impl<'a> Default for Octree<'a> {
    fn default() -> (t: Self)
        ensures
            t.wf(),
            t.points@.len() == 0,
            t.bucket_size == 25,
    {
        Self { points: Vec::new(), successors: Vec::new(), root: Box::new(Octant::default()), bucket_size: 25 }
    }
}

} // verus!
