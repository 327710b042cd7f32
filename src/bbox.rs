use vstd::prelude::*;
use crate::point::{Point, coord, DIM};

verus! {

/// The closed interval `[low, high]` that a box spans on one dimension.
#[derive(Clone, Copy, Debug, PartialEq, Eq, Structural)]
pub struct Bounding {
    pub low: i32,
    pub high: i32,
}

/// A box holds one `Bounding` per dimension.
pub open spec fn in_box(p: Point, b: Seq<Bounding>) -> bool {
    &&& b[0].low <= p.x <= b[0].high
    &&& b[1].low <= p.y <= b[1].high
    &&& b[2].low <= p.z <= b[2].high
}

/// The boxes `a` and `b` overlap on every dimension.
pub open spec fn boxes_meet(a: Seq<Bounding>, b: Seq<Bounding>) -> bool {
    forall|d: int| 0 <= d < DIM ==> a[d].low <= b[d].high && b[d].low <= a[d].high
}

/// Every point at a permutation slot of `[lo, hi)` lies in `b`.
pub open spec fn box_holds(b: Seq<Bounding>, pts: Seq<Point>, perm: Seq<usize>, lo: int, hi: int) -> bool {
    &&& b.len() == DIM
    &&& 0 <= lo <= hi <= perm.len()
    &&& forall|i: int| lo <= i < hi ==> (perm[i] as int) < pts.len()
    &&& forall|i: int| lo <= i < hi ==> #[trigger] in_box(pts[perm[i] as int], b)
}

/// `b` is no larger than needed: each of its faces is reached by a point of `[lo, hi)`.
pub open spec fn box_tight(b: Seq<Bounding>, pts: Seq<Point>, perm: Seq<usize>, lo: int, hi: int) -> bool {
    &&& reached(pts, perm, lo, hi, 0, b[0].low as int)
    &&& reached(pts, perm, lo, hi, 0, b[0].high as int)
    &&& reached(pts, perm, lo, hi, 1, b[1].low as int)
    &&& reached(pts, perm, lo, hi, 1, b[1].high as int)
    &&& reached(pts, perm, lo, hi, 2, b[2].low as int)
    &&& reached(pts, perm, lo, hi, 2, b[2].high as int)
}

/// Some point at a slot of `[lo, hi)` has coordinate `v` on dimension `d`.
pub open spec fn reached(pts: Seq<Point>, perm: Seq<usize>, lo: int, hi: int, d: int, v: int) -> bool {
    exists|i: int| lo <= i < hi && coord(pts[perm[i] as int], d) == v
}

/// Extent of box `b` on dimension `d`.
pub open spec fn span(b: Seq<Bounding>, d: int) -> int {
    b[d].high - b[d].low
}

/// `d` is the dimension of largest span in `b`, the lowest one on ties.
pub open spec fn widest(b: Seq<Bounding>, d: int) -> bool {
    &&& 0 <= d < DIM
    &&& forall|e: int| 0 <= e < DIM ==> span(b, e) <= span(b, d)
    &&& forall|e: int| 0 <= e < d ==> span(b, e) < span(b, d)
}

/// The middle of `[low, high]`, rounded up.
pub open spec fn cut_value(low: int, high: int) -> int {
    low + (high - low + 1) / 2
}

/// Tightest box around the points at slots `lo..hi` of `vind`.
pub fn compute_bounding_box_for_range(pts: &Vec<Point>, vind: &Vec<usize>, lo: usize, hi: usize) -> (r: Vec<Bounding>)
    requires
        lo < hi <= vind@.len(),
        forall|i: int| lo <= i < hi ==> (vind@[i] as int) < pts@.len(),
    ensures
        box_holds(r@, pts@, vind@, lo as int, hi as int),
        box_tight(r@, pts@, vind@, lo as int, hi as int),
{
    let first = pts[vind[lo]];
    let mut bx = Bounding { low: first.x, high: first.x };
    let mut by = Bounding { low: first.y, high: first.y };
    let mut bz = Bounding { low: first.z, high: first.z };
    let ghost mut w: Seq<int> = seq![lo as int, lo as int, lo as int, lo as int, lo as int, lo as int];
    let mut k: usize = lo + 1;
    while k < hi
        invariant
            lo < k <= hi <= vind@.len(),
            forall|i: int| lo <= i < hi ==> (vind@[i] as int) < pts@.len(),
            forall|i: int| lo <= i < k ==> in_box(pts@[vind@[i] as int], seq![bx, by, bz]),
            w.len() == 6,
            forall|j: int| 0 <= j < 6 ==> lo <= #[trigger] w[j] < k,
            coord(pts@[vind@[w[0]] as int], 0) == bx.low,
            coord(pts@[vind@[w[1]] as int], 0) == bx.high,
            coord(pts@[vind@[w[2]] as int], 1) == by.low,
            coord(pts@[vind@[w[3]] as int], 1) == by.high,
            coord(pts@[vind@[w[4]] as int], 2) == bz.low,
            coord(pts@[vind@[w[5]] as int], 2) == bz.high,
        decreases hi - k,
    {
        let p = pts[vind[k]];
        if p.x < bx.low {
            bx.low = p.x;
            proof { w = w.update(0, k as int); }
        }
        if p.x > bx.high {
            bx.high = p.x;
            proof { w = w.update(1, k as int); }
        }
        if p.y < by.low {
            by.low = p.y;
            proof { w = w.update(2, k as int); }
        }
        if p.y > by.high {
            by.high = p.y;
            proof { w = w.update(3, k as int); }
        }
        if p.z < bz.low {
            bz.low = p.z;
            proof { w = w.update(4, k as int); }
        }
        if p.z > bz.high {
            bz.high = p.z;
            proof { w = w.update(5, k as int); }
        }
        k = k + 1;
    }
    let r = vec![bx, by, bz];
    assert(r@ =~= seq![bx, by, bz]);
    assert(lo <= w[0] < hi && lo <= w[1] < hi && lo <= w[2] < hi);
    assert(lo <= w[3] < hi && lo <= w[4] < hi && lo <= w[5] < hi);
    r
}

/// Whether `a` and `b` overlap on every dimension.
pub fn boxes_intersect(a: &Vec<Bounding>, b: &Vec<Bounding>) -> (r: bool)
    requires
        a@.len() == DIM,
        b@.len() == DIM,
    ensures
        r == boxes_meet(a@, b@),
{
    let mut d: usize = 0;
    while d < DIM
        invariant
            d <= DIM,
            a@.len() == DIM,
            b@.len() == DIM,
            forall|e: int| 0 <= e < d ==> a@[e].low <= b@[e].high && b@[e].low <= a@[e].high,
        decreases DIM - d,
    {
        if a[d].low > b[d].high || b[d].low > a[d].high {
            return false;
        }
        d = d + 1;
    }
    true
}

/// Whether `p` lies in the box `b`, bounds included.
pub fn contains_point(b: &Vec<Bounding>, p: &Point) -> (r: bool)
    requires
        b@.len() == DIM,
    ensures
        r == in_box(*p, b@),
{
    b[0].low <= p.x && p.x <= b[0].high && b[1].low <= p.y && p.y <= b[1].high && b[2].low <= p.z
        && p.z <= b[2].high
}

} // verus!
