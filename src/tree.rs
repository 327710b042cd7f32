use vstd::prelude::*;
use crate::point::{Point, coord, DIM};
use crate::bbox::{Bounding, box_holds, box_tight, widest};

verus! {

/// A node of the tree. A leaf covers the permutation slots
/// `[left_offset, right_offset)`; an inner node splits on `divdim`, where
/// `divlow` is the largest coordinate of its left part and `divhigh` the
/// smallest of its right part. Each node keeps the tight box of its points.
pub enum TreeNode {
    Empty,
    Leaf { left_offset: usize, right_offset: usize, bbox: Vec<Bounding> },
    NonLeaf {
        divdim: usize,
        divlow: i32,
        divhigh: i32,
        bbox: Vec<Bounding>,
        left_child: Box<TreeNode>,
        right_child: Box<TreeNode>,
    },
}

/// First permutation slot that `n` covers.
pub open spec fn node_lo(n: TreeNode) -> int
    decreases n,
{
    match n {
        TreeNode::Empty => 0,
        TreeNode::Leaf { left_offset, .. } => left_offset as int,
        TreeNode::NonLeaf { left_child, .. } => node_lo(*left_child),
    }
}

/// One past the last permutation slot that `n` covers.
pub open spec fn node_hi(n: TreeNode) -> int
    decreases n,
{
    match n {
        TreeNode::Empty => 0,
        TreeNode::Leaf { right_offset, .. } => right_offset as int,
        TreeNode::NonLeaf { right_child, .. } => node_hi(*right_child),
    }
}

/// The box that `n` keeps.
pub open spec fn node_box(n: TreeNode) -> Seq<Bounding> {
    match n {
        TreeNode::Empty => Seq::empty(),
        TreeNode::Leaf { bbox, .. } => bbox@,
        TreeNode::NonLeaf { bbox, .. } => bbox@,
    }
}

/// `n` is a well-formed subtree over `pts` and the permutation `perm`:
/// leaves are non-empty and hold at most `leaf_max` slots, inner nodes hold
/// more, the children of an inner node cover adjacent ranges, every box is the
/// tight box of its range, an inner node splits on the widest dimension of its
/// box (the lowest on ties),
/// the split bounds are the children's extents on the split dimension, and
/// the left extent does not pass the right one.
pub open spec fn wf_node(n: TreeNode, pts: Seq<Point>, perm: Seq<usize>, leaf_max: int) -> bool
    decreases n,
{
    match n {
        TreeNode::Empty => false,
        TreeNode::Leaf { left_offset, right_offset, bbox } => {
            &&& left_offset < right_offset
            &&& right_offset - left_offset <= leaf_max
            &&& box_holds(bbox@, pts, perm, left_offset as int, right_offset as int)
            &&& box_tight(bbox@, pts, perm, left_offset as int, right_offset as int)
        },
        TreeNode::NonLeaf { divdim, divlow, divhigh, bbox, left_child, right_child } => {
            &&& wf_node(*left_child, pts, perm, leaf_max)
            &&& wf_node(*right_child, pts, perm, leaf_max)
            &&& node_hi(*left_child) == node_lo(*right_child)
            &&& node_hi(*right_child) - node_lo(*left_child) > leaf_max
            &&& divdim < DIM
            &&& widest(bbox@, divdim as int)
            &&& divlow == node_box(*left_child)[divdim as int].high
            &&& divhigh == node_box(*right_child)[divdim as int].low
            &&& divlow <= divhigh
            &&& box_holds(bbox@, pts, perm, node_lo(*left_child), node_hi(*right_child))
            &&& box_tight(bbox@, pts, perm, node_lo(*left_child), node_hi(*right_child))
        },
    }
}

/// The leaf ranges of `n`, left to right.
pub open spec fn leaf_ranges(n: TreeNode) -> Seq<(int, int)>
    decreases n,
{
    match n {
        TreeNode::Empty => Seq::empty(),
        TreeNode::Leaf { left_offset, right_offset, .. } => seq![(left_offset as int, right_offset as int)],
        TreeNode::NonLeaf { left_child, right_child, .. } => leaf_ranges(*left_child) + leaf_ranges(
            *right_child,
        ),
    }
}

/// `perm` lists each of `0..n` exactly once.
pub open spec fn is_perm(perm: Seq<usize>, n: int) -> bool {
    &&& perm.len() == n
    &&& forall|i: int| 0 <= i < n ==> (#[trigger] perm[i] as int) < n
    &&& forall|i: int, j: int| 0 <= i < j < n ==> perm[i] != perm[j]
    &&& forall|x: usize| (x as int) < n ==> #[trigger] perm.contains(x)
}

/// Value `v` stands at some slot of `[lo, hi)` of `s`.
pub open spec fn holds_in(s: Seq<usize>, lo: int, hi: int, v: usize) -> bool {
    exists|i: int| lo <= i < hi && s[i] == v
}

/// Every value at slots `[alo, ahi)` of `a` stands at some slot `[blo, bhi)` of `b`.
pub open spec fn came_from(a: Seq<usize>, alo: int, ahi: int, b: Seq<usize>, blo: int, bhi: int) -> bool {
    forall|j: int| alo <= j < ahi ==> holds_in(b, blo, bhi, #[trigger] a[j])
}

/// `came_from` composes.
pub proof fn lemma_came_from_trans(
    a: Seq<usize>,
    alo: int,
    ahi: int,
    b: Seq<usize>,
    blo: int,
    bhi: int,
    c: Seq<usize>,
    clo: int,
    chi: int,
)
    requires
        came_from(a, alo, ahi, b, blo, bhi),
        came_from(b, blo, bhi, c, clo, chi),
    ensures
        came_from(a, alo, ahi, c, clo, chi),
{
    assert forall|j: int| alo <= j < ahi implies holds_in(c, clo, chi, #[trigger] a[j]) by {
        assert(holds_in(b, blo, bhi, a[j]));
        let i = choose|i: int| blo <= i < bhi && b[i] == a[j];
        assert(holds_in(c, clo, chi, b[i]));
    }
}

/// A range left as it was came from itself.
pub proof fn lemma_came_from_same(a: Seq<usize>, b: Seq<usize>, lo: int, hi: int)
    requires
        forall|i: int| lo <= i < hi ==> a[i] == b[i],
    ensures
        came_from(a, lo, hi, b, lo, hi),
{
    assert forall|j: int| lo <= j < hi implies holds_in(b, lo, hi, #[trigger] a[j]) by {
        assert(b[j] == a[j]);
    }
}

/// Swapping two slots of a range moves its values only within it.
pub proof fn lemma_swap_within(cur: Seq<usize>, v0: Seq<usize>, lo: int, hi: int, i: int, j: int)
    requires
        came_from(cur, lo, hi, v0, lo, hi),
        came_from(v0, lo, hi, cur, lo, hi),
        0 <= lo <= i < hi,
        lo <= j < hi,
        hi <= cur.len(),
    ensures
        came_from(cur.update(i, cur[j]).update(j, cur[i]), lo, hi, v0, lo, hi),
        came_from(v0, lo, hi, cur.update(i, cur[j]).update(j, cur[i]), lo, hi),
{
    let t = cur.update(i, cur[j]).update(j, cur[i]);
    assert forall|b: int| lo <= b < hi implies holds_in(v0, lo, hi, #[trigger] t[b]) by {
        let src = if b == j { i } else if b == i { j } else { b };
        assert(t[b] == cur[src]);
        assert(holds_in(v0, lo, hi, cur[src]));
    }
    assert forall|a: int| lo <= a < hi implies holds_in(t, lo, hi, #[trigger] v0[a]) by {
        assert(holds_in(cur, lo, hi, v0[a]));
        let w = choose|w: int| lo <= w < hi && cur[w] == v0[a];
        if w == i {
            assert(t[j] == v0[a]);
        } else if w == j {
            assert(t[i] == v0[a]);
        } else {
            assert(t[w] == v0[a]);
        }
    }
}

/// Swapping two slots keeps a permutation.
pub proof fn lemma_swap_perm(s: Seq<usize>, n: int, i: int, j: int)
    requires
        is_perm(s, n),
        0 <= i < n,
        0 <= j < n,
    ensures
        is_perm(s.update(i, s[j]).update(j, s[i]), n),
{
    let t = s.update(i, s[j]).update(j, s[i]);
    assert forall|x: usize| (x as int) < n implies #[trigger] t.contains(x) by {
        assert(s.contains(x));
        let k = choose|k: int| 0 <= k < n && s[k] == x;
        if k == i {
            assert(t[j] == x);
        } else if k == j {
            assert(t[i] == x);
        } else {
            assert(t[k] == x);
        }
    }
    assert forall|a: int, b: int| 0 <= a < b < n implies t[a] != t[b] by {
        let sa = if a == j { i } else if a == i { j } else { a };
        let sb = if b == j { i } else if b == i { j } else { b };
        assert(t[a] == s[sa] && t[b] == s[sb]);
        if sa < sb {
            assert(s[sa] != s[sb]);
        } else if sb < sa {
            assert(s[sb] != s[sa]);
        }
    }
}

/// A subtree keeps its form while the permutation is unchanged on its range.
pub proof fn lemma_wf_frame(n: TreeNode, pts: Seq<Point>, pa: Seq<usize>, pb: Seq<usize>, leaf_max: int)
    requires
        wf_node(n, pts, pa, leaf_max),
        pa.len() == pb.len(),
        forall|i: int| node_lo(n) <= i < node_hi(n) ==> pa[i] == pb[i],
    ensures
        wf_node(n, pts, pb, leaf_max),
    decreases n,
{
    lemma_wf_range(n, pts, pa, leaf_max);
    match n {
        TreeNode::Empty => {},
        TreeNode::Leaf { left_offset, right_offset, bbox } => {
            let (lo, hi) = (left_offset as int, right_offset as int);
            assert forall|i: int| lo <= i < hi implies crate::bbox::in_box(pts[pb[i] as int], bbox@) by {
                assert(pa[i] == pb[i]);
                assert(crate::bbox::in_box(pts[pa[i] as int], bbox@));
            }
            lemma_tight_frame(bbox@, pts, pa, pb, lo, hi);
        },
        TreeNode::NonLeaf { bbox, left_child, right_child, .. } => {
            lemma_wf_range(*left_child, pts, pa, leaf_max);
            lemma_wf_range(*right_child, pts, pa, leaf_max);
            lemma_wf_frame(*left_child, pts, pa, pb, leaf_max);
            lemma_wf_frame(*right_child, pts, pa, pb, leaf_max);
            let (lo, hi) = (node_lo(*left_child), node_hi(*right_child));
            assert forall|i: int| lo <= i < hi implies pa[i] == pb[i] by {}
            assert forall|i: int| lo <= i < hi implies crate::bbox::in_box(pts[pb[i] as int], bbox@) by {
                assert(pa[i] == pb[i]);
                assert(crate::bbox::in_box(pts[pa[i] as int], bbox@));
            }
            lemma_tight_frame(bbox@, pts, pa, pb, lo, hi);
        },
    }
}

proof fn lemma_tight_frame(b: Seq<Bounding>, pts: Seq<Point>, pa: Seq<usize>, pb: Seq<usize>, lo: int, hi: int)
    requires
        box_tight(b, pts, pa, lo, hi),
        forall|i: int| lo <= i < hi ==> pa[i] == pb[i],
    ensures
        box_tight(b, pts, pb, lo, hi),
{
    assert forall|d: int, v: int| crate::bbox::reached(pts, pa, lo, hi, d, v) implies crate::bbox::reached(
        pts,
        pb,
        lo,
        hi,
        d,
        v,
    ) by {
        let i = choose|i: int| lo <= i < hi && coord(pts[pa[i] as int], d) == v;
        assert(pa[i] == pb[i]);
    }
}

/// A well-formed subtree covers a non-empty range inside the permutation.
pub proof fn lemma_wf_range(n: TreeNode, pts: Seq<Point>, perm: Seq<usize>, leaf_max: int)
    requires
        wf_node(n, pts, perm, leaf_max),
    ensures
        0 <= node_lo(n) < node_hi(n) <= perm.len(),
        box_holds(node_box(n), pts, perm, node_lo(n), node_hi(n)),
        box_tight(node_box(n), pts, perm, node_lo(n), node_hi(n)),
    decreases n,
{
    match n {
        TreeNode::NonLeaf { left_child, right_child, .. } => {
            lemma_wf_range(*left_child, pts, perm, leaf_max);
            lemma_wf_range(*right_child, pts, perm, leaf_max);
        },
        _ => {},
    }
}

impl TreeNode {
    /// A node that covers nothing yet.
    pub fn new() -> (r: TreeNode)
        ensures
            r is Empty,
    {
        TreeNode::Empty
    }

    /// A leaf over the slots `[left_offset, right_offset)` with box `bbox`.
    pub fn new_leafnode(left_offset: usize, right_offset: usize, bbox: Vec<Bounding>) -> (r: TreeNode)
        ensures
            r == (TreeNode::Leaf { left_offset, right_offset, bbox }),
    {
        TreeNode::Leaf { left_offset, right_offset, bbox }
    }

    /// An inner node over two children.
    pub fn new_non_leafnode(
        left_child: Box<TreeNode>,
        right_child: Box<TreeNode>,
        divdim: usize,
        divlow: i32,
        divhigh: i32,
        bbox: Vec<Bounding>,
    ) -> (r: TreeNode)
        ensures
            r == (TreeNode::NonLeaf { divdim, divlow, divhigh, bbox, left_child, right_child }),
    {
        TreeNode::NonLeaf { divdim, divlow, divhigh, bbox, left_child, right_child }
    }

    /// The box kept at this node; empty for an empty node.
    pub fn bounding_box(&self) -> (r: &Vec<Bounding>)
        requires
            !(self is Empty),
        ensures
            r@ == node_box(*self),
    {
        match self {
            TreeNode::Leaf { bbox, .. } => bbox,
            TreeNode::NonLeaf { bbox, .. } => bbox,
            TreeNode::Empty => vstd::pervasive::unreached(),
        }
    }
}

} // verus!
