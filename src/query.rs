use vstd::prelude::*;
use crate::point::{Point, DIM};
use crate::bbox::{Bounding, in_box, boxes_meet, box_holds, boxes_intersect, contains_point};
use crate::tree::{TreeNode, wf_node, node_lo, node_hi, node_box, lemma_wf_range};
use crate::kdtree::KdTree;

verus! {

/// The points at slots `lo..hi` of `perm` that lie in `q`, in slot order.
pub open spec fn range_seq(pts: Seq<Point>, perm: Seq<usize>, lo: int, hi: int, q: Seq<Bounding>) -> Seq<Point>
    decreases hi - lo,
{
    if hi <= lo {
        Seq::empty()
    } else {
        let p = pts[perm[hi - 1] as int];
        range_seq(pts, perm, lo, hi - 1, q) + if in_box(p, q) {
            seq![p]
        } else {
            Seq::empty()
        }
    }
}

/// `range_seq` over adjacent ranges concatenates.
pub proof fn lemma_range_seq_split(pts: Seq<Point>, perm: Seq<usize>, lo: int, mid: int, hi: int, q: Seq<Bounding>)
    requires
        lo <= mid <= hi,
    ensures
        range_seq(pts, perm, lo, hi, q) == range_seq(pts, perm, lo, mid, q) + range_seq(pts, perm, mid, hi, q),
    decreases hi - mid,
{
    if hi == mid {
        assert(range_seq(pts, perm, lo, mid, q) + range_seq(pts, perm, mid, hi, q) =~= range_seq(pts, perm, lo, mid, q));
    } else {
        lemma_range_seq_split(pts, perm, lo, mid, hi - 1, q);
        assert(range_seq(pts, perm, lo, hi, q) =~= range_seq(pts, perm, lo, mid, q) + range_seq(pts, perm, mid, hi, q));
    }
}

/// A range whose box misses `q` contributes nothing.
pub proof fn lemma_range_seq_pruned(pts: Seq<Point>, perm: Seq<usize>, lo: int, hi: int, b: Seq<Bounding>, q: Seq<Bounding>)
    requires
        box_holds(b, pts, perm, lo, hi),
        q.len() == DIM,
        !boxes_meet(b, q),
    ensures
        range_seq(pts, perm, lo, hi, q) == Seq::<Point>::empty(),
    decreases hi - lo,
{
    if hi > lo {
        lemma_range_seq_pruned(pts, perm, lo, hi - 1, b, q);
        assert(in_box(pts[perm[hi - 1] as int], b));
        let d = choose|d: int| 0 <= d < DIM && !(b[d].low <= q[d].high && q[d].low <= b[d].high);
        assert(d == 0 || d == 1 || d == 2);
        assert(!in_box(pts[perm[hi - 1] as int], q));
        assert(range_seq(pts, perm, lo, hi, q) =~= Seq::<Point>::empty());
    }
}

/// A point is in `range_seq` exactly when some slot of the range holds it and it lies in `q`.
pub proof fn lemma_range_seq_contains(pts: Seq<Point>, perm: Seq<usize>, lo: int, hi: int, q: Seq<Bounding>, p: Point)
    ensures
        range_seq(pts, perm, lo, hi, q).contains(p) <==> (in_box(p, q) && exists|i: int| lo <= i < hi && pts[perm[i] as int] == p),
    decreases hi - lo,
{
    if hi > lo {
        lemma_range_seq_contains(pts, perm, lo, hi - 1, q, p);
        let s0 = range_seq(pts, perm, lo, hi - 1, q);
        let x = pts[perm[hi - 1] as int];
        let tail = if in_box(x, q) { seq![x] } else { Seq::<Point>::empty() };
        assert(range_seq(pts, perm, lo, hi, q) == s0 + tail);
        if range_seq(pts, perm, lo, hi, q).contains(p) {
            let k = choose|k: int| 0 <= k < (s0 + tail).len() && (s0 + tail)[k] == p;
            if k < s0.len() {
                assert(s0.contains(p));
            } else {
                assert(tail[k - s0.len()] == p);
            }
        }
        if in_box(p, q) && exists|i: int| lo <= i < hi && pts[perm[i] as int] == p {
            let i = choose|i: int| lo <= i < hi && pts[perm[i] as int] == p;
            if i == hi - 1 {
                assert((s0 + tail)[s0.len() as int] == p);
            } else {
                let k = choose|k: int| 0 <= k < s0.len() && s0[k] == p;
                assert((s0 + tail)[k] == p);
            }
        }
    }
}

impl KdTree {
    /// The points that lie in `bbox`, bounds included, in permutation order.
    pub fn query_with_bounding_box(&self, bbox: &Vec<Bounding>) -> (r: Vec<Point>)
        requires
            self.is_built(),
            bbox@.len() == DIM,
        ensures
            r@ == range_seq(self.points(), self.perm(), 0, self.points().len() as int, bbox@),
    {
        let mut out: Vec<Point> = Vec::new();
        match &self.root_node {
            Some(root) => {
                self.range_search(root, bbox, &mut out);
                assert(out@ =~= range_seq(self.points(), self.perm(), 0, self.points().len() as int, bbox@));
            },
            None => {},
        }
        out
    }

    /// Appends to `out` the points of `node` that lie in `q`.
    fn range_search(&self, node: &TreeNode, q: &Vec<Bounding>, out: &mut Vec<Point>)
        requires
            self.inv(),
            wf_node(*node, self.points(), self.perm(), self.leaf_max()),
            q@.len() == DIM,
        ensures
            final(out)@ == old(out)@ + range_seq(self.points(), self.perm(), node_lo(*node), node_hi(*node), q@),
        decreases node,
    {
        let ghost pts = self.points();
        let ghost perm = self.perm();
        proof {
            lemma_wf_range(*node, pts, perm, self.leaf_max());
        }
        match node {
            TreeNode::Leaf { left_offset, right_offset, .. } => {
                let lo = *left_offset;
                let hi = *right_offset;
                let ghost o0 = out@;
                let mut i: usize = lo;
                while i < hi
                    invariant
                        lo <= i <= hi <= perm.len(),
                        pts == self.points(),
                        perm == self.perm(),
                        self.inv(),
                        q@.len() == DIM,
                        out@ == o0 + range_seq(pts, perm, lo as int, i as int, q@),
                    decreases hi - i,
                {
                    let p = self.dataset[self.vind[i]];
                    if contains_point(q, &p) {
                        out.push(p);
                    }
                    i = i + 1;
                    assert(out@ =~= o0 + range_seq(pts, perm, lo as int, i as int, q@));
                }
            },
            TreeNode::NonLeaf { left_child, right_child, .. } => {
                let ghost o0 = out@;
                let ghost lo = node_lo(**left_child);
                let ghost mid = node_hi(**left_child);
                let ghost hi = node_hi(**right_child);
                proof {
                    lemma_wf_range(**left_child, pts, perm, self.leaf_max());
                    lemma_wf_range(**right_child, pts, perm, self.leaf_max());
                    lemma_range_seq_split(pts, perm, lo, mid, hi, q@);
                }
                let lb = left_child.bounding_box();
                if boxes_intersect(lb, q) {
                    self.range_search(left_child, q, out);
                } else {
                    proof { lemma_range_seq_pruned(pts, perm, lo, mid, lb@, q@); }
                }
                let ghost o1 = out@;
                let rb = right_child.bounding_box();
                if boxes_intersect(rb, q) {
                    self.range_search(right_child, q, out);
                } else {
                    proof { lemma_range_seq_pruned(pts, perm, mid, hi, rb@, q@); }
                }
                assert(out@ =~= o0 + range_seq(pts, perm, lo, hi, q@));
            },
            TreeNode::Empty => {},
        }
    }
}

} // verus!
