use vstd::prelude::*;
use crate::point::{Point, coord, sq_dist, sq_diff, squared_distance, DIM};
use crate::bbox::{Bounding, in_box, box_holds};
use crate::tree::{TreeNode, wf_node, node_lo, node_hi, node_box, lemma_wf_range};
use crate::kdtree::{KdTree, KdTreeError};

verus! {

/// Squared distance from `t` to the point at permutation slot `s`.
pub open spec fn slot_dist(pts: Seq<Point>, perm: Seq<usize>, t: Point, s: int) -> int {
    sq_dist(pts[perm[s] as int], t)
}

/// Order of candidates: by distance, then by permutation slot.
pub open spec fn precedes(d1: int, s1: int, d2: int, s2: int) -> bool {
    d1 < d2 || (d1 == d2 && s1 < s2)
}

/// Each candidate `(distance, slot)` carries the true distance of its slot,
/// and the candidates are strictly ascending.
pub open spec fn cands_valid(c: Seq<(u128, usize)>, pts: Seq<Point>, perm: Seq<usize>, t: Point) -> bool {
    &&& forall|i: int|
        0 <= i < c.len() ==> (c[i].1 as int) < perm.len() && (perm[c[i].1 as int] as int) < pts.len()
            && c[i].0 as int == slot_dist(pts, perm, t, c[i].1 as int)
    &&& forall|i: int, j: int|
        0 <= i < j < c.len() ==> precedes(c[i].0 as int, c[i].1 as int, c[j].0 as int, c[j].1 as int)
}

/// Slot `s` is among the candidates.
pub open spec fn holds_slot(c: Seq<(u128, usize)>, s: int) -> bool {
    exists|i: int| 0 <= i < c.len() && c[i].1 == s
}

/// `c` lists, in order, the `k` first slots of `dset` by distance to `t`
/// (all of them when `dset` has fewer): every slot of `dset` left out comes
/// after the last candidate.
pub open spec fn best_of(c: Seq<(u128, usize)>, dset: Set<int>, k: int, pts: Seq<Point>, perm: Seq<usize>, t: Point) -> bool {
    &&& cands_valid(c, pts, perm, t)
    &&& c.len() <= k
    &&& forall|i: int| 0 <= i < c.len() ==> dset.contains(c[i].1 as int)
    &&& forall|s: int|
        dset.contains(s) && !holds_slot(c, s) ==> c.len() == k && k >= 1 && precedes(
            c[k - 1].0 as int,
            c[k - 1].1 as int,
            slot_dist(pts, perm, t, s),
            s,
        )
}

/// The slots `[lo, hi)`.
pub open spec fn slots(lo: int, hi: int) -> Set<int> {
    Set::new(|s: int| lo <= s < hi)
}

/// Distance from `x` to the interval `[low, high]`.
pub open spec fn gap(low: int, high: int, x: int) -> int {
    if x < low {
        low - x
    } else if x > high {
        x - high
    } else {
        0
    }
}

/// Squared distance from `t` to the box `b`.
pub open spec fn box_lb(b: Seq<Bounding>, t: Point) -> int {
    gap(b[0].low as int, b[0].high as int, t.x as int) * gap(b[0].low as int, b[0].high as int, t.x as int)
        + gap(b[1].low as int, b[1].high as int, t.y as int) * gap(b[1].low as int, b[1].high as int, t.y as int)
        + gap(b[2].low as int, b[2].high as int, t.z as int) * gap(b[2].low as int, b[2].high as int, t.z as int)
}

proof fn lemma_gap_le(low: int, high: int, c: int, x: int)
    requires
        low <= c <= high,
    ensures
        gap(low, high, x) * gap(low, high, x) <= (c - x) * (c - x),
{
    let g = gap(low, high, x);
    assert(0 <= g && (g <= c - x || g <= x - c));
    if g <= c - x {
        assert(g * g <= (c - x) * (c - x)) by (nonlinear_arith)
            requires
                0 <= g <= c - x,
        ;
    } else {
        assert(g * g <= (c - x) * (c - x)) by (nonlinear_arith)
            requires
                0 <= g <= x - c,
        ;
    }
}

/// No point of a box is nearer to `t` than `box_lb`.
pub proof fn lemma_box_lb(b: Seq<Bounding>, p: Point, t: Point)
    requires
        in_box(p, b),
    ensures
        box_lb(b, t) <= sq_dist(p, t),
{
    lemma_gap_le(b[0].low as int, b[0].high as int, p.x as int, t.x as int);
    lemma_gap_le(b[1].low as int, b[1].high as int, p.y as int, t.y as int);
    lemma_gap_le(b[2].low as int, b[2].high as int, p.z as int, t.z as int);
}

/// Squared distance from `t` to the box `b`; zero when `t` lies in it.
pub fn box_lower_bound(b: &Vec<Bounding>, t: &Point) -> (r: u128)
    requires
        b@.len() == DIM,
    ensures
        r as int == box_lb(b@, *t),
{
    let gx = if t.x < b[0].low { sq_diff(b[0].low, t.x) } else if t.x > b[0].high { sq_diff(t.x, b[0].high) } else { 0 };
    let gy = if t.y < b[1].low { sq_diff(b[1].low, t.y) } else if t.y > b[1].high { sq_diff(t.y, b[1].high) } else { 0 };
    let gz = if t.z < b[2].low { sq_diff(b[2].low, t.z) } else if t.z > b[2].high { sq_diff(t.z, b[2].high) } else { 0 };
    assert(gx <= 0x1_0000_0000_0000_0000 && gy <= 0x1_0000_0000_0000_0000 && gz <= 0x1_0000_0000_0000_0000) by (nonlinear_arith)
        requires
            gx as int == gap(b@[0].low as int, b@[0].high as int, t.x as int) * gap(b@[0].low as int, b@[0].high as int, t.x as int),
            gy as int == gap(b@[1].low as int, b@[1].high as int, t.y as int) * gap(b@[1].low as int, b@[1].high as int, t.y as int),
            gz as int == gap(b@[2].low as int, b@[2].high as int, t.z as int) * gap(b@[2].low as int, b@[2].high as int, t.z as int),
            0 <= gap(b@[0].low as int, b@[0].high as int, t.x as int) <= 0x1_0000_0000,
            0 <= gap(b@[1].low as int, b@[1].high as int, t.y as int) <= 0x1_0000_0000,
            0 <= gap(b@[2].low as int, b@[2].high as int, t.z as int) <= 0x1_0000_0000,
    ;
    gx + gy + gz
}


/// Offers slot `s`, at distance `d`, to the candidates, keeping the `k` best.
fn insert_candidate(
    c: &mut Vec<(u128, usize)>,
    k: usize,
    d: u128,
    s: usize,
    Ghost(dset): Ghost<Set<int>>,
    Ghost(pts): Ghost<Seq<Point>>,
    Ghost(perm): Ghost<Seq<usize>>,
    Ghost(t): Ghost<Point>,
)
    requires
        k >= 1,
        best_of(old(c)@, dset, k as int, pts, perm, t),
        !dset.contains(s as int),
        (s as int) < perm.len(),
        (perm[s as int] as int) < pts.len(),
        d as int == slot_dist(pts, perm, t, s as int),
    ensures
        best_of(final(c)@, dset.insert(s as int), k as int, pts, perm, t),
{
    let ghost c0 = c@;
    assert(!holds_slot(c0, s as int));
    let mut pos: usize = 0;
    while pos < c.len() && (c[pos].0 < d || (c[pos].0 == d && c[pos].1 < s))
        invariant
            c@ == c0,
            pos <= c@.len(),
            forall|j: int| 0 <= j < pos ==> precedes(c0[j].0 as int, c0[j].1 as int, d as int, s as int),
        decreases c@.len() - pos,
    {
        pos = pos + 1;
    }
    if pos >= k {
        // every candidate comes before `s`, and there are `k` of them
        assert(c0.len() == k);
        assert(precedes(c0[k - 1].0 as int, c0[k - 1].1 as int, d as int, s as int));
        return;
    }
    assert forall|j: int| pos <= j < c0.len() implies precedes(d as int, s as int, c0[j].0 as int, c0[j].1 as int) by {
        assert(c0[j].1 != s);
        if j > pos {
            assert(precedes(c0[pos as int].0 as int, c0[pos as int].1 as int, c0[j].0 as int, c0[j].1 as int));
        }
    }
    c.insert(pos, (d, s));
    let ghost c1 = c@;
    assert(c1 == c0.insert(pos as int, (d, s)));
    assert(cands_valid(c1, pts, perm, t)) by {
        assert forall|i: int, j: int| 0 <= i < j < c1.len() implies precedes(
            c1[i].0 as int,
            c1[i].1 as int,
            c1[j].0 as int,
            c1[j].1 as int,
        ) by {
            if j < pos {
            } else if j == pos {
            } else if i < pos {
                assert(precedes(c0[i].0 as int, c0[i].1 as int, d as int, s as int));
            } else if i == pos {
            } else {
                assert(c1[i] == c0[i - 1] && c1[j] == c0[j - 1]);
            }
        }
    }
    assert forall|x: int| holds_slot(c0, x) implies holds_slot(c1, x) by {
        if holds_slot(c0, x) {
            let i = choose|i: int| 0 <= i < c0.len() && c0[i].1 == x;
            if i < pos {
                assert(c1[i].1 == x);
            } else {
                assert(c1[i + 1].1 == x);
            }
        }
    }
    assert(c1[pos as int].1 == s);
    if c.len() > k {
        let popped = c.pop();
        let ghost c2 = c@;
        assert(c2 =~= c1.subrange(0, k as int));
        assert(popped == Some(c1[k as int]));
        assert forall|x: int| holds_slot(c1, x) && !holds_slot(c2, x) implies x == c1[k as int].1 by {
            let i = choose|i: int| 0 <= i < c1.len() && c1[i].1 == x;
            if i < k {
                assert(c2[i].1 == x);
            }
        }
        assert(precedes(c2[k - 1].0 as int, c2[k - 1].1 as int, c1[k as int].0 as int, c1[k as int].1 as int));
        assert(c0.len() == k);
        assert(!precedes(c0[k - 1].0 as int, c0[k - 1].1 as int, c2[k - 1].0 as int, c2[k - 1].1 as int)) by {
            if k - 1 < pos {
                assert(c2[k - 1] == c0[k - 1]);
            } else {
                if k - 1 == pos {
                } else {
                    assert(c2[k - 1] == c0[k - 2]);
                    assert(precedes(c0[k - 2].0 as int, c0[k - 2].1 as int, c0[k - 1].0 as int, c0[k - 1].1 as int));
                }
            }
        }
        assert forall|i: int| 0 <= i < c2.len() implies dset.insert(s as int).contains(#[trigger] c2[i].1 as int) by {
            if i < pos {
                assert(c2[i] == c0[i]);
            } else if i > pos {
                assert(c2[i] == c0[i - 1]);
            }
        }
    } else {
        assert forall|i: int| 0 <= i < c1.len() implies dset.insert(s as int).contains(#[trigger] c1[i].1 as int) by {
            if i < pos {
                assert(c1[i] == c0[i]);
            } else if i > pos {
                assert(c1[i] == c0[i - 1]);
            }
        }
    }
}


/// `c` is the answer to a `k`-nearest query for `t`: the `k` first slots of
/// the whole permutation by distance, then by slot.
pub open spec fn is_nearest(c: Seq<(u128, usize)>, k: int, pts: Seq<Point>, perm: Seq<usize>, t: Point) -> bool {
    best_of(c, slots(0, perm.len() as int), k, pts, perm, t)
}

impl KdTree {
    /// The `k` slots nearest to `target` with their squared distances,
    /// nearest first; ties go to the lower slot.
    pub fn k_nearest_slots(&self, target: &Point, k: usize) -> (r: Result<Vec<(u128, usize)>, KdTreeError>)
        requires
            self.is_built(),
        ensures
            k == 0 <==> r == Err::<Vec<(u128, usize)>, KdTreeError>(KdTreeError::InvalidK),
            k >= 1 ==> r is Ok,
            r is Ok ==> is_nearest(r.unwrap()@, k as int, self.points(), self.perm(), *target),
    {
        if k == 0 {
            return Err(KdTreeError::InvalidK);
        }
        let mut c: Vec<(u128, usize)> = Vec::new();
        match &self.root_node {
            Some(root) => {
                self.knn_search(root, target, k, &mut c, Ghost(Set::empty()));
                assert(Set::<int>::empty().union(slots(node_lo(**root), node_hi(**root))) =~= slots(
                    0,
                    self.perm().len() as int,
                ));
            },
            None => {},
        }
        Ok(c)
    }

    /// The `k_neighbor` points nearest to `target` with their squared
    /// distances, nearest first; ties go to the point earlier in the
    /// permutation.
    pub fn query_k_nearest_neighor(&self, target: &Point, k_neighbor: u32) -> (r: Result<Vec<(Point, u128)>, KdTreeError>)
        requires
            self.is_built(),
        ensures
            k_neighbor == 0 <==> r == Err::<Vec<(Point, u128)>, KdTreeError>(KdTreeError::InvalidK),
            k_neighbor >= 1 ==> r is Ok,
            r is Ok ==> exists|c: Seq<(u128, usize)>|
                {
                    &&& is_nearest(c, k_neighbor as int, self.points(), self.perm(), *target)
                    &&& #[trigger] r.unwrap()@.len() == c.len()
                    &&& forall|i: int|
                        0 <= i < c.len() ==> r.unwrap()@[i] == (self.points()[self.perm()[c[i].1 as int] as int], c[i].0)
                },
    {
        let c = match self.k_nearest_slots(target, k_neighbor as usize) {
            Ok(c) => c,
            Err(e) => {
                return Err(e);
            },
        };
        let mut out: Vec<(Point, u128)> = Vec::new();
        let mut i: usize = 0;
        while i < c.len()
            invariant
                i <= c@.len(),
                cands_valid(c@, self.points(), self.perm(), *target),
                self.inv(),
                out@.len() == i,
                forall|j: int| 0 <= j < i ==> out@[j] == (self.points()[self.perm()[c@[j].1 as int] as int], c@[j].0),
            decreases c@.len() - i,
        {
            let (d, s) = c[i];
            out.push((self.dataset[self.vind[s]], d));
            i = i + 1;
        }
        Ok(out)
    }

    /// Adds the slots of `node` to the decided ones, offering each slot that
    /// may still enter the candidates.
    fn knn_search(
        &self,
        node: &TreeNode,
        t: &Point,
        k: usize,
        c: &mut Vec<(u128, usize)>,
        Ghost(dset): Ghost<Set<int>>,
    )
        requires
            self.inv(),
            wf_node(*node, self.points(), self.perm(), self.leaf_max()),
            k >= 1,
            best_of(old(c)@, dset, k as int, self.points(), self.perm(), *t),
            forall|s: int| node_lo(*node) <= s < node_hi(*node) ==> !dset.contains(s),
        ensures
            best_of(final(c)@, dset.union(slots(node_lo(*node), node_hi(*node))), k as int, self.points(), self.perm(), *t),
        decreases node, 0int,
    {
        let ghost pts = self.points();
        let ghost perm = self.perm();
        proof {
            lemma_wf_range(*node, pts, perm, self.leaf_max());
        }
        match node {
            TreeNode::Leaf { left_offset, right_offset, .. } => {
                let lo = *left_offset;
                let hi = *right_offset;
                let mut i: usize = lo;
                assert(dset.union(slots(lo as int, lo as int)) =~= dset);
                while i < hi
                    invariant
                        lo <= i <= hi <= perm.len(),
                        pts == self.points(),
                        perm == self.perm(),
                        self.inv(),
                        k >= 1,
                        forall|s: int| lo <= s < hi ==> !dset.contains(s),
                        best_of(c@, dset.union(slots(lo as int, i as int)), k as int, pts, perm, *t),
                    decreases hi - i,
                {
                    let p = self.dataset[self.vind[i]];
                    let d = squared_distance(&p, t);
                    insert_candidate(c, k, d, i, Ghost(dset.union(slots(lo as int, i as int))), Ghost(pts), Ghost(perm), Ghost(*t));
                    assert(dset.union(slots(lo as int, i as int)).insert(i as int) =~= dset.union(slots(lo as int, i + 1)));
                    i = i + 1;
                }
            },
            TreeNode::NonLeaf { left_child, right_child, .. } => {
                let ghost lo = node_lo(**left_child);
                let ghost mid = node_hi(**left_child);
                let ghost hi = node_hi(**right_child);
                proof {
                    lemma_wf_range(**left_child, pts, perm, self.leaf_max());
                    lemma_wf_range(**right_child, pts, perm, self.leaf_max());
                }
                let lbl = box_lower_bound(left_child.bounding_box(), t);
                let lbr = box_lower_bound(right_child.bounding_box(), t);
                if lbr < lbl {
                    self.visit_child(right_child, t, k, c, Ghost(dset));
                    self.visit_child(left_child, t, k, c, Ghost(dset.union(slots(mid, hi))));
                    assert(dset.union(slots(mid, hi)).union(slots(lo, mid)) =~= dset.union(slots(lo, hi)));
                } else {
                    self.visit_child(left_child, t, k, c, Ghost(dset));
                    self.visit_child(right_child, t, k, c, Ghost(dset.union(slots(lo, mid))));
                    assert(dset.union(slots(lo, mid)).union(slots(mid, hi)) =~= dset.union(slots(lo, hi)));
                }
            },
            TreeNode::Empty => {},
        }
    }

    /// Searches `child` unless its box lies farther than the last of `k`
    /// candidates.
    fn visit_child(
        &self,
        child: &TreeNode,
        t: &Point,
        k: usize,
        c: &mut Vec<(u128, usize)>,
        Ghost(dset): Ghost<Set<int>>,
    )
        requires
            self.inv(),
            wf_node(*child, self.points(), self.perm(), self.leaf_max()),
            k >= 1,
            best_of(old(c)@, dset, k as int, self.points(), self.perm(), *t),
            forall|s: int| node_lo(*child) <= s < node_hi(*child) ==> !dset.contains(s),
        ensures
            best_of(final(c)@, dset.union(slots(node_lo(*child), node_hi(*child))), k as int, self.points(), self.perm(), *t),
        decreases child, 1int,
    {
        let ghost pts = self.points();
        let ghost perm = self.perm();
        proof {
            lemma_wf_range(*child, pts, perm, self.leaf_max());
        }
        let b = child.bounding_box();
        let lb = box_lower_bound(b, t);
        if c.len() < k || lb <= c[c.len() - 1].0 {
            self.knn_search(child, t, k, c, Ghost(dset));
        } else {
            proof {
                let lo = node_lo(*child);
                let hi = node_hi(*child);
                let c0 = c@;
                assert forall|s: int| dset.union(slots(lo, hi)).contains(s) && !holds_slot(c0, s) implies c0.len() == k
                    && k >= 1 && precedes(c0[k - 1].0 as int, c0[k - 1].1 as int, slot_dist(pts, perm, *t, s), s) by {
                    if !dset.contains(s) {
                        assert(slots(lo, hi).contains(s));
                        assert(in_box(pts[perm[s] as int], b@));
                        lemma_box_lb(b@, pts[perm[s] as int], *t);
                    }
                }
                assert forall|i: int| 0 <= i < c0.len() implies dset.union(slots(lo, hi)).contains(c0[i].1 as int) by {
                    assert(dset.contains(c0[i].1 as int));
                }
            }
        }
    }
}

} // verus!
