use vstd::prelude::*;
use crate::point::Point;

verus! {

/// The first `n` indices met when following `succ` from `start`.
pub open spec fn chain(succ: Seq<usize>, start: int, n: nat) -> Seq<int>
    decreases n,
{
    if n == 0 {
        Seq::empty()
    } else {
        seq![start] + chain(succ, succ[start] as int, (n - 1) as nat)
    }
}

/// Each element of `s` but the last is followed, in `succ`, by the next
/// element of `s`.
pub open spec fn links(succ: Seq<usize>, s: Seq<int>) -> bool {
    forall|k: int| 0 <= k && k + 1 < s.len() ==> succ[#[trigger] s[k]] == s[k + 1]
}

/// A chain has the length asked for, begins at its start and is linked.
pub proof fn lemma_chain_links(succ: Seq<usize>, start: int, n: nat)
    ensures
        chain(succ, start, n).len() == n,
        n > 0 ==> chain(succ, start, n)[0] == start,
        links(succ, chain(succ, start, n)),
    decreases n,
{
    if n > 0 {
        let rest = chain(succ, succ[start] as int, (n - 1) as nat);
        lemma_chain_links(succ, succ[start] as int, (n - 1) as nat);
        let s = chain(succ, start, n);
        assert(s == seq![start] + rest);
        assert forall|k: int| 0 <= k && k + 1 < s.len() implies succ[#[trigger] s[k]] == s[k
            + 1] by {
            if k > 0 {
                assert(s[k] == rest[k - 1]);
                assert(s[k + 1] == rest[k]);
            } else {
                assert(s[1] == rest[0]);
            }
        }
    }
}

/// A linked sequence is the chain from its first element.
pub proof fn lemma_chain_is(succ: Seq<usize>, start: int, s: Seq<int>)
    requires
        links(succ, s),
        s.len() > 0 ==> s[0] == start,
    ensures
        chain(succ, start, s.len()) == s,
    decreases s.len(),
{
    if s.len() > 0 {
        let rest = s.subrange(1, s.len() as int);
        assert forall|k: int| 0 <= k && k + 1 < rest.len() implies succ[#[trigger] rest[k]]
            == rest[k + 1] by {
            assert(rest[k] == s[k + 1]);
            assert(rest[k + 1] == s[k + 2]);
        }
        if rest.len() > 0 {
            assert(rest[0] == s[1]);
            assert(succ[s[0]] == s[1]);
        }
        lemma_chain_is(succ, succ[start] as int, rest);
        assert(chain(succ, start, s.len()) =~= s);
    } else {
        assert(chain(succ, start, 0) =~= s);
    }
}

/// Number of the child cell of a cell centred at `c` that takes `p`: one
/// for a higher x, two for a higher y, four for a higher z, added up.
pub open spec fn code(p: Point, c: Point) -> int {
    (if p.x > c.x { 1int } else { 0 }) + (if p.y > c.y { 2int } else { 0 }) + (if p.z > c.z { 4int } else { 0 })
}

/// The elements of `s`, in order, whose points have child number `c`.
pub open spec fn pick(s: Seq<int>, pts: Seq<&Point>, center: Point, c: int) -> Seq<int>
    decreases s.len(),
{
    if s.len() == 0 {
        Seq::empty()
    } else {
        let rest = pick(s.drop_last(), pts, center, c);
        if code(*pts[s.last()], center) == c {
            rest.push(s.last())
        } else {
            rest
        }
    }
}

/// What `pick` keeps: exactly the elements with the child number, none
/// twice if none was there twice.
pub proof fn lemma_pick(s: Seq<int>, pts: Seq<&Point>, center: Point, c: int)
    ensures
        pick(s, pts, center, c).len() <= s.len(),
        forall|j: int| #[trigger] pick(s, pts, center, c).contains(j) <==> (s.contains(j) && code(*pts[j], center) == c),
        s.no_duplicates() ==> pick(s, pts, center, c).no_duplicates(),
    decreases s.len(),
{
    let p = pick(s, pts, center, c);
    if s.len() > 0 {
        let d = s.drop_last();
        let rest = pick(d, pts, center, c);
        lemma_pick(d, pts, center, c);
        assert forall|j: int| #[trigger] p.contains(j) <==> (s.contains(j) && code(*pts[j], center) == c) by {
            if p.contains(j) {
                let k = choose|k: int| 0 <= k < p.len() && p[k] == j;
                if k < rest.len() {
                    assert(rest[k] == j);
                    assert(rest.contains(j));
                    let m = choose|m: int| 0 <= m < d.len() && d[m] == j;
                    assert(s[m] == j);
                } else {
                    assert(j == s.last());
                    assert(s[s.len() - 1] == j);
                }
            }
            if s.contains(j) && code(*pts[j], center) == c {
                let m = choose|m: int| 0 <= m < s.len() && s[m] == j;
                if m < d.len() {
                    assert(d[m] == j);
                    assert(d.contains(j));
                    assert(rest.contains(j));
                    let k = choose|k: int| 0 <= k < rest.len() && rest[k] == j;
                    assert(p[k] == j);
                } else {
                    assert(p[p.len() - 1] == j);
                }
            }
        }
        if s.no_duplicates() {
            assert(d.no_duplicates());
            if code(*pts[s.last()], center) == c {
                assert forall|a: int, b: int| 0 <= a < p.len() && 0 <= b < p.len() && a != b implies p[a] != p[b] by {
                    if a < rest.len() && b < rest.len() {
                    } else {
                        let o = if a < rest.len() { a } else { b };
                        assert(rest.contains(rest[o]));
                        let m = choose|m: int| 0 <= m < d.len() && d[m] == rest[o];
                        assert(s[m] == rest[o]);
                    }
                }
            }
        }
    }
}

} // verus!
