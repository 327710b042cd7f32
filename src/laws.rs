use vstd::prelude::*;
use vstd::set_lib::{set_int_range, lemma_int_range, lemma_len_subset};
use crate::point::{Point, sq_dist};
use crate::bbox::{Bounding, in_box, box_holds};
use crate::tree::{TreeNode, wf_node, node_lo, node_hi, node_box, leaf_ranges, is_perm, lemma_wf_range};
use crate::kdtree::KdTree;
use crate::query::{range_seq, lemma_range_seq_contains};
use crate::knn::{is_nearest, best_of, cands_valid, holds_slot, slots, slot_dist, precedes};

verus! {

/// The leaf ranges of `rs` run without gap or overlap from `lo` to `hi`.
pub open spec fn tiles(rs: Seq<(int, int)>, lo: int, hi: int) -> bool {
    &&& rs.len() > 0
    &&& rs[0].0 == lo
    &&& rs[rs.len() - 1].1 == hi
    &&& forall|i: int| 0 <= i < rs.len() ==> #[trigger] rs[i].0 < rs[i].1
    &&& forall|i: int| 0 <= i < rs.len() - 1 ==> #[trigger] rs[i].1 == rs[i + 1].0
}

/// Every node of `n` holds all points of its range in its box.
pub open spec fn all_boxes_hold(n: TreeNode, pts: Seq<Point>, perm: Seq<usize>) -> bool
    decreases n,
{
    &&& box_holds(node_box(n), pts, perm, node_lo(n), node_hi(n))
    &&& match n {
        TreeNode::NonLeaf { left_child, right_child, .. } => all_boxes_hold(*left_child, pts, perm)
            && all_boxes_hold(*right_child, pts, perm),
        _ => true,
    }
}

proof fn lemma_subtree_tiles(n: TreeNode, pts: Seq<Point>, perm: Seq<usize>, leaf_max: int)
    requires
        wf_node(n, pts, perm, leaf_max),
    ensures
        tiles(leaf_ranges(n), node_lo(n), node_hi(n)),
    decreases n,
{
    if let TreeNode::NonLeaf { left_child, right_child, .. } = n {
        lemma_subtree_tiles(*left_child, pts, perm, leaf_max);
        lemma_subtree_tiles(*right_child, pts, perm, leaf_max);
        let a = leaf_ranges(*left_child);
        let b = leaf_ranges(*right_child);
        let r = a + b;
        assert(r == leaf_ranges(n));
        assert forall|i: int| 0 <= i < r.len() implies #[trigger] r[i].0 < r[i].1 by {
            if i >= a.len() {
                assert(r[i] == b[i - a.len()]);
            }
        }
        assert forall|i: int| 0 <= i < r.len() - 1 implies #[trigger] r[i].1 == r[i + 1].0 by {
            if i >= a.len() {
                assert(r[i] == b[i - a.len()] && r[i + 1] == b[i + 1 - a.len()]);
            } else if i == a.len() - 1 {
                assert(r[i + 1] == b[0]);
            }
        }
    }
}

proof fn lemma_subtree_boxes(n: TreeNode, pts: Seq<Point>, perm: Seq<usize>, leaf_max: int)
    requires
        wf_node(n, pts, perm, leaf_max),
    ensures
        all_boxes_hold(n, pts, perm),
    decreases n,
{
    lemma_wf_range(n, pts, perm, leaf_max);
    if let TreeNode::NonLeaf { left_child, right_child, .. } = n {
        lemma_subtree_boxes(*left_child, pts, perm, leaf_max);
        lemma_subtree_boxes(*right_child, pts, perm, leaf_max);
    }
}

/// In a built index the leaf ranges, left to right, tile `[0, N)` without
/// gap or overlap, and the permutation lists every point exactly once.
pub proof fn lemma_leaves_tile(t: KdTree)
    requires
        t.is_built(),
    ensures
        tiles(leaf_ranges(t.root().unwrap()), 0, t.points().len() as int),
        is_perm(t.perm(), t.points().len() as int),
{
    lemma_subtree_tiles(t.root().unwrap(), t.points(), t.perm(), t.leaf_max());
}

/// In a built index every node's box holds every point of its range.
pub proof fn lemma_boxes_contain(t: KdTree)
    requires
        t.is_built(),
    ensures
        all_boxes_hold(t.root().unwrap(), t.points(), t.perm()),
{
    lemma_subtree_boxes(t.root().unwrap(), t.points(), t.perm(), t.leaf_max());
}

/// A range query returns exactly the points of the dataset that lie in the
/// query box.
pub proof fn lemma_range_query_is_filter(t: KdTree, q: Seq<Bounding>, p: Point)
    requires
        t.is_built(),
    ensures
        range_seq(t.points(), t.perm(), 0, t.points().len() as int, q).contains(p) <==> (in_box(p, q)
            && t.points().contains(p)),
{
    let pts = t.points();
    let perm = t.perm();
    let n = pts.len() as int;
    lemma_range_seq_contains(pts, perm, 0, n, q, p);
    if pts.contains(p) {
        let j = choose|j: int| 0 <= j < n && pts[j] == p;
        assert(perm.contains(j as usize));
        let i = choose|i: int| 0 <= i < n && perm[i] == j as usize;
        assert(pts[perm[i] as int] == p);
    }
    if exists|i: int| 0 <= i < n && pts[perm[i] as int] == p {
        let i = choose|i: int| 0 <= i < n && pts[perm[i] as int] == p;
        assert(perm[i] < n);
        assert(pts[perm[i] as int] == p);
    }
}

/// A `k`-nearest answer holds `min(k, N)` entries, ascending by distance,
/// and no point left out is nearer than any point kept.
pub proof fn lemma_nearest_is_top_k(t: KdTree, target: Point, k: int, c: Seq<(u128, usize)>)
    requires
        t.is_built(),
        k >= 1,
        is_nearest(c, k, t.points(), t.perm(), target),
    ensures
        c.len() == if k <= t.points().len() { k } else { t.points().len() as int },
        forall|i: int, j: int| 0 <= i < j < c.len() ==> c[i].0 <= c[j].0,
        forall|i: int, s: int|
            0 <= i < c.len() && 0 <= s < t.points().len() && !holds_slot(c, s) ==> c[i].0 <= slot_dist(
                t.points(),
                t.perm(),
                target,
                s,
            ),
{
    let pts = t.points();
    let perm = t.perm();
    let n = pts.len() as int;
    let ss = c.map_values(|e: (u128, usize)| e.1 as int);
    assert forall|i: int, j: int| 0 <= i < j < ss.len() implies ss[i] != ss[j] by {
        assert(precedes(c[i].0 as int, c[i].1 as int, c[j].0 as int, c[j].1 as int));
    }
    assert(ss.no_duplicates());
    ss.unique_seq_to_set();
    lemma_int_range(0, n);
    assert(ss.to_set().subset_of(set_int_range(0, n))) by {
        assert forall|x: int| ss.to_set().contains(x) implies set_int_range(0, n).contains(x) by {
            let i = choose|i: int| 0 <= i < ss.len() && ss[i] == x;
            assert(slots(0, n).contains(c[i].1 as int));
        }
    }
    lemma_len_subset(ss.to_set(), set_int_range(0, n));
    if c.len() < k {
        assert(set_int_range(0, n).subset_of(ss.to_set())) by {
            assert forall|x: int| set_int_range(0, n).contains(x) implies ss.to_set().contains(x) by {
                assert(slots(0, n).contains(x));
                assert(holds_slot(c, x));
                let i = choose|i: int| 0 <= i < c.len() && c[i].1 == x;
                assert(ss[i] == x);
            }
        }
        vstd::seq_lib::seq_to_set_is_finite(ss);
        lemma_len_subset(set_int_range(0, n), ss.to_set());
    }
    assert forall|i: int, j: int| 0 <= i < j < c.len() implies c[i].0 <= c[j].0 by {
        assert(precedes(c[i].0 as int, c[i].1 as int, c[j].0 as int, c[j].1 as int));
    }
    assert forall|i: int, s: int|
        0 <= i < c.len() && 0 <= s < n && !holds_slot(c, s) implies c[i].0 <= slot_dist(pts, perm, target, s) by {
        assert(slots(0, n).contains(s));
        if i < k - 1 {
            assert(precedes(c[i].0 as int, c[i].1 as int, c[k - 1].0 as int, c[k - 1].1 as int));
        }
    }
}

/// On a dataset of one repeated point, a query at that point returns
/// `min(k, N)` entries, all at distance zero.
pub proof fn lemma_identical_points(t: KdTree, p: Point, k: int, c: Seq<(u128, usize)>)
    requires
        t.is_built(),
        forall|j: int| 0 <= j < t.points().len() ==> t.points()[j] == p,
        k >= 1,
        is_nearest(c, k, t.points(), t.perm(), p),
    ensures
        c.len() == if k <= t.points().len() { k } else { t.points().len() as int },
        forall|i: int| 0 <= i < c.len() ==> c[i].0 == 0,
{
    lemma_nearest_is_top_k(t, p, k, c);
    assert forall|i: int| 0 <= i < c.len() implies c[i].0 == 0 by {
        assert(t.points()[t.perm()[c[i].1 as int] as int] == p);
        assert(sq_dist(p, p) == 0) by {
            let (a, b, c) = (p.x as int - p.x as int, p.y as int - p.y as int, p.z as int - p.z as int);
            assert(a == 0 && b == 0 && c == 0);
            assert(a * a + b * b + c * c == 0) by (nonlinear_arith)
                requires
                    a == 0 && b == 0 && c == 0,
            ;
        }
    }
}

} // verus!
