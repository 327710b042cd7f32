use vstd::prelude::*;
use crate::point::{Point, coord, DIM};
use crate::bbox::{Bounding, box_holds, box_tight, reached, span, widest, cut_value, compute_bounding_box_for_range};
use crate::tree::{
    TreeNode, wf_node, node_lo, node_hi, node_box, is_perm, holds_in, came_from, lemma_swap_perm, lemma_swap_within,
    lemma_came_from_trans, lemma_came_from_same, lemma_wf_frame, lemma_wf_range,
};

verus! {

/// Why an index could not be made or a query could not run.
#[derive(Clone, Copy, Debug, PartialEq, Eq, Structural)]
pub enum KdTreeError {
    /// The dataset holds no point.
    EmptyDataset,
    /// The largest leaf size is zero.
    InvalidLeafSize,
    /// A nearest-neighbour query asked for zero points.
    InvalidK,
}

/// Leaf size used by `KdTree::new`.
pub const DEFAULT_LEAF_MAX_SIZE: usize = 10;

/// A kd-tree over a fixed dataset. The points are never moved; the tree
/// reorders the permutation `vind` so that every node covers one contiguous
/// range of it.
pub struct KdTree {
    pub(crate) dataset: Vec<Point>,
    pub(crate) vind: Vec<usize>,
    pub(crate) root_node: Option<Box<TreeNode>>,
    pub(crate) root_bbox: Vec<Bounding>,
    pub(crate) m_leaf_max_size: usize,
}

impl KdTree {
    /// The dataset, in the order it was given.
    pub open(crate) spec fn points(&self) -> Seq<Point> {
        self.dataset@
    }

    /// The permutation array.
    pub open(crate) spec fn perm(&self) -> Seq<usize> {
        self.vind@
    }

    /// The largest number of points in a leaf.
    pub open(crate) spec fn leaf_max(&self) -> int {
        self.m_leaf_max_size as int
    }

    /// The root node, once built.
    pub open(crate) spec fn root(&self) -> Option<TreeNode> {
        match self.root_node {
            Some(b) => Some(*b),
            None => None,
        }
    }

    /// The box of the whole dataset, once built.
    pub open(crate) spec fn root_box(&self) -> Seq<Bounding> {
        self.root_bbox@
    }

    /// What holds of every index, built or not.
    pub open(crate) spec fn inv(&self) -> bool {
        &&& self.points().len() > 0
        &&& self.points().len() <= usize::MAX
        &&& self.leaf_max() >= 1
        &&& is_perm(self.perm(), self.points().len() as int)
        &&& self.root_box().len() == DIM
        &&& self.root() is Some ==> {
            let r = self.root().unwrap();
            &&& wf_node(r, self.points(), self.perm(), self.leaf_max())
            &&& node_lo(r) == 0
            &&& node_hi(r) == self.points().len()
            &&& node_box(r) == self.root_box()
        }
    }

    /// The index holds a tree over all of its points.
    pub open(crate) spec fn is_built(&self) -> bool {
        self.inv() && self.root() is Some
    }

    /// An index over `dataset` with leaves of at most ten points, not built yet.
    pub fn new(dataset: Vec<Point>) -> (r: Result<KdTree, KdTreeError>)
        ensures
            dataset@.len() == 0 <==> r == Err::<KdTree, KdTreeError>(KdTreeError::EmptyDataset),
            dataset@.len() > 0 ==> r is Ok,
            r is Ok ==> {
                let t = r.unwrap();
                &&& t.inv()
                &&& !t.is_built()
                &&& t.points() == dataset@
                &&& t.leaf_max() == DEFAULT_LEAF_MAX_SIZE
                &&& forall|i: int| 0 <= i < dataset@.len() ==> t.perm()[i] == i
            },
    {
        KdTree::with_leaf_max_size(dataset, DEFAULT_LEAF_MAX_SIZE)
    }

    /// An index over `dataset` with leaves of at most `leaf_max_size` points,
    /// not built yet.
    pub fn with_leaf_max_size(dataset: Vec<Point>, leaf_max_size: usize) -> (r: Result<KdTree, KdTreeError>)
        ensures
            dataset@.len() == 0 ==> r == Err::<KdTree, KdTreeError>(KdTreeError::EmptyDataset),
            dataset@.len() > 0 && leaf_max_size == 0 ==> r == Err::<KdTree, KdTreeError>(
                KdTreeError::InvalidLeafSize,
            ),
            dataset@.len() > 0 && leaf_max_size > 0 ==> r is Ok,
            r is Ok ==> {
                let t = r.unwrap();
                &&& t.inv()
                &&& !t.is_built()
                &&& t.points() == dataset@
                &&& t.leaf_max() == leaf_max_size
                &&& forall|i: int| 0 <= i < dataset@.len() ==> t.perm()[i] == i
            },
    {
        if dataset.len() == 0 {
            return Err(KdTreeError::EmptyDataset);
        }
        if leaf_max_size == 0 {
            return Err(KdTreeError::InvalidLeafSize);
        }
        let n = dataset.len();
        let mut vind: Vec<usize> = Vec::new();
        let mut i: usize = 0;
        while i < n
            invariant
                i <= n,
                vind@.len() == i,
                forall|j: int| 0 <= j < i ==> vind@[j] == j,
            decreases n - i,
        {
            vind.push(i);
            i = i + 1;
        }
        assert forall|x: usize| (x as int) < n implies #[trigger] vind@.contains(x) by {
            assert(vind@[x as int] == x);
        }
        let zero = Bounding { low: 0, high: 0 };
        Ok(KdTree { dataset, vind, root_node: None, root_bbox: vec![zero, zero, zero], m_leaf_max_size: leaf_max_size })
    }

    /// Builds the tree, replacing any tree built before.
    pub fn build_index(&mut self)
        requires
            old(self).inv(),
        ensures
            final(self).is_built(),
            final(self).points() == old(self).points(),
            final(self).leaf_max() == old(self).leaf_max(),
    {
        self.root_node = None;
        let n = self.dataset.len();
        let root = KdTree::divide_tree(&self.dataset, &mut self.vind, 0, n, self.m_leaf_max_size);
        proof {
            lemma_wf_range(*root, self.dataset@, self.vind@, self.m_leaf_max_size as int);
        }
        self.root_bbox = KdTree::node_bbox(&root);
        self.root_node = Some(root);
    }

    /// The dataset, in the order it was given.
    pub fn dataset(&self) -> (r: &Vec<Point>)
        ensures
            r@ == self.points(),
    {
        &self.dataset
    }

    /// The permutation array.
    pub fn permutation(&self) -> (r: &Vec<usize>)
        ensures
            r@ == self.perm(),
    {
        &self.vind
    }

    /// The root node; `None` before the first build.
    pub fn root_node(&self) -> (r: &Option<Box<TreeNode>>)
        ensures
            self.root() == match *r {
                Some(b) => Some(*b),
                None => None::<TreeNode>,
            },
    {
        &self.root_node
    }

    /// The box of the whole dataset, once built.
    pub fn root_bounding_box(&self) -> (r: &Vec<Bounding>)
        ensures
            r@ == self.root_box(),
    {
        &self.root_bbox
    }

    /// The largest number of points in a leaf.
    pub fn leaf_max_size(&self) -> (r: usize)
        ensures
            r == self.leaf_max(),
    {
        self.m_leaf_max_size
    }

    /// A copy of the box kept at `node`.
    fn node_bbox(node: &TreeNode) -> (r: Vec<Bounding>)
        ensures
            r@ == node_box(*node),
    {
        match node {
            TreeNode::Leaf { bbox, .. } => copy_box(bbox),
            TreeNode::NonLeaf { bbox, .. } => copy_box(bbox),
            TreeNode::Empty => Vec::new(),
        }
    }

    /// Builds the subtree over slots `[lo, hi)`, reordering only those slots:
    /// a leaf when the range holds at most `leaf_max` slots, else an inner
    /// node split as `split_at_middle` chooses.
    #[verifier::rlimit(100)]
    fn divide_tree(pts: &Vec<Point>, vind: &mut Vec<usize>, lo: usize, hi: usize, leaf_max: usize) -> (r: Box<TreeNode>)
        requires
            is_perm(old(vind)@, pts@.len() as int),
            lo < hi <= old(vind)@.len(),
            leaf_max >= 1,
        ensures
            is_perm(final(vind)@, pts@.len() as int),
            forall|i: int| 0 <= i < lo || hi <= i < final(vind)@.len() ==> final(vind)@[i] == old(vind)@[i],
            came_from(final(vind)@, lo as int, hi as int, old(vind)@, lo as int, hi as int),
            came_from(old(vind)@, lo as int, hi as int, final(vind)@, lo as int, hi as int),
            wf_node(*r, pts@, final(vind)@, leaf_max as int),
            node_lo(*r) == lo,
            node_hi(*r) == hi,
            (*r is Leaf) <==> hi - lo <= leaf_max,
        decreases hi - lo,
    {
        let ghost v0 = vind@;
        let b = compute_bounding_box_for_range(pts, vind, lo, hi);
        if hi - lo <= leaf_max {
            proof {
                lemma_came_from_same(v0, v0, lo as int, hi as int);
            }
            Box::new(TreeNode::new_leafnode(lo, hi, b))
        } else {
            let (mid, cutdim, cutval) = KdTree::split_at_middle(pts, vind, lo, hi, &b);
            let ghost v1 = vind@;
            let left = KdTree::divide_tree(pts, vind, lo, mid, leaf_max);
            let ghost v2 = vind@;
            let right = KdTree::divide_tree(pts, vind, mid, hi, leaf_max);
            proof {
                lemma_wf_frame(*left, pts@, v2, vind@, leaf_max as int);
                lemma_wf_range(*left, pts@, vind@, leaf_max as int);
                lemma_wf_range(*right, pts@, vind@, leaf_max as int);
            }
            let divlow = KdTree::node_extent(&left, cutdim, true);
            let divhigh = KdTree::node_extent(&right, cutdim, false);
            proof {
                lemma_children_came_from(v0, v1, v2, vind@, lo as int, mid as int, hi as int);
                lemma_box_transfer(b@, pts@, v0, vind@, lo as int, hi as int);
                lemma_gap(
                    pts@,
                    v1,
                    vind@,
                    lo as int,
                    mid as int,
                    hi as int,
                    cutdim as int,
                    cutval as int,
                    node_box(*left),
                    node_box(*right),
                );
            }
            Box::new(TreeNode::new_non_leafnode(left, right, cutdim, divlow, divhigh, b))
        }
    }

    /// The high (or low) bound on dimension `d` of the box kept at `node`.
    fn node_extent(node: &TreeNode, d: usize, high: bool) -> (r: i32)
        requires
            !(node is Empty),
            d < DIM,
            node_box(*node).len() == DIM,
        ensures
            r == if high { node_box(*node)[d as int].high } else { node_box(*node)[d as int].low },
    {
        let b = node.bounding_box();
        if high {
            b[d].high
        } else {
            b[d].low
        }
    }

    /// Chooses the dimension of largest span in `bbox`, the tight box of slots
    /// `[lo, hi)` (the lowest such dimension on ties), cuts it at the middle of
    /// that span, rounded up, and partitions the slots so that points below
    /// the cut come first. Where every point shares that coordinate, so that
    /// one side would be empty, the range is split at its middle slot instead.
    /// Returns the first slot of the right part, the dimension and the cut value.
    fn split_at_middle(
        pts: &Vec<Point>,
        vind: &mut Vec<usize>,
        lo: usize,
        hi: usize,
        bbox: &Vec<Bounding>,
    ) -> (r: (usize, usize, i32))
        requires
            is_perm(old(vind)@, pts@.len() as int),
            lo + 1 < hi <= old(vind)@.len(),
            box_holds(bbox@, pts@, old(vind)@, lo as int, hi as int),
            box_tight(bbox@, pts@, old(vind)@, lo as int, hi as int),
        ensures
            is_perm(final(vind)@, pts@.len() as int),
            final(vind)@.len() == old(vind)@.len(),
            forall|i: int| 0 <= i < lo || hi <= i < final(vind)@.len() ==> final(vind)@[i] == old(vind)@[i],
            came_from(final(vind)@, lo as int, hi as int, old(vind)@, lo as int, hi as int),
            came_from(old(vind)@, lo as int, hi as int, final(vind)@, lo as int, hi as int),
            lo < r.0 < hi,
            widest(bbox@, r.1 as int),
            r.2 == cut_value(bbox@[r.1 as int].low as int, bbox@[r.1 as int].high as int),
            bbox@[r.1 as int].low < bbox@[r.1 as int].high ==> {
                &&& forall|i: int| lo <= i < r.0 ==> coord(pts@[final(vind)@[i] as int], r.1 as int) < r.2
                &&& forall|i: int| r.0 <= i < hi ==> coord(pts@[final(vind)@[i] as int], r.1 as int) >= r.2
            },
            bbox@[r.1 as int].low == bbox@[r.1 as int].high ==> {
                &&& r.0 == lo + (hi - lo) / 2
                &&& forall|i: int| lo <= i < hi ==> coord(pts@[final(vind)@[i] as int], r.1 as int) == r.2
            },
            split_sides(pts@, final(vind)@, lo as int, r.0 as int, hi as int, r.1 as int, r.2 as int),
    {
        let mut cutdim: usize = 0;
        let mut max_span: i64 = bbox[0].high as i64 - bbox[0].low as i64;
        let mut d: usize = 1;
        while d < DIM
            invariant
                1 <= d <= DIM,
                cutdim < d,
                bbox@.len() == DIM,
                max_span == span(bbox@, cutdim as int),
                forall|e: int| 0 <= e < d ==> span(bbox@, e) <= max_span,
                forall|e: int| 0 <= e < cutdim ==> span(bbox@, e) < max_span,
            decreases DIM - d,
        {
            let sp: i64 = bbox[d].high as i64 - bbox[d].low as i64;
            if sp > max_span {
                max_span = sp;
                cutdim = d;
            }
            d = d + 1;
        }
        let low = bbox[cutdim].low;
        let high = bbox[cutdim].high;
        let ghost v0 = vind@;
        proof {
            assert(crate::bbox::in_box(pts@[v0[lo as int] as int], bbox@));
            assert(cutdim == 0 || cutdim == 1 || cutdim == 2);
            assert(reached(pts@, v0, lo as int, hi as int, cutdim as int, low as int));
            assert(reached(pts@, v0, lo as int, hi as int, cutdim as int, high as int));
        }
        let cutval: i32 = (low as i64 + (high as i64 - low as i64 + 1) / 2) as i32;
        let mid = KdTree::split_plane(pts, vind, lo, hi, cutdim, cutval);
        proof {
            let ghost v1 = vind@;
            let ghost wl = choose|i: int| lo <= i < hi && coord(pts@[v0[i] as int], cutdim as int) == low;
            let ghost wh = choose|i: int| lo <= i < hi && coord(pts@[v0[i] as int], cutdim as int) == high;
            assert(holds_in(v1, lo as int, hi as int, v0[wl]));
            assert(holds_in(v1, lo as int, hi as int, v0[wh]));
            let ghost jl = choose|j: int| lo <= j < hi && v1[j] == v0[wl];
            let ghost jh = choose|j: int| lo <= j < hi && v1[j] == v0[wh];
            assert forall|i: int| lo <= i < hi implies low <= #[trigger] coord(pts@[v1[i] as int], cutdim as int) <= high by {
                assert(holds_in(v0, lo as int, hi as int, v1[i]));
                let k = choose|k: int| lo <= k < hi && v0[k] == v1[i];
                assert(crate::bbox::in_box(pts@[v0[k] as int], bbox@));
            }
            if low < high {
                assert(jl < mid);
                assert(jh >= mid);
            } else {
                assert(cutval == low);
                if mid > lo {
                    assert(low <= coord(pts@[v1[lo as int] as int], cutdim as int));
                }
                assert(mid == lo);
            }
        }
        if mid == lo || mid == hi {
            (lo + (hi - lo) / 2, cutdim, cutval)
        } else {
            (mid, cutdim, cutval)
        }
    }

    /// Partitions slots `[lo, hi)` so that points with coordinate `dim` below
    /// `cutval` come first; returns the first slot of the others.
    fn split_plane(pts: &Vec<Point>, vind: &mut Vec<usize>, lo: usize, hi: usize, dim: usize, cutval: i32) -> (r: usize)
        requires
            is_perm(old(vind)@, pts@.len() as int),
            lo <= hi <= old(vind)@.len(),
            dim < DIM,
        ensures
            is_perm(final(vind)@, pts@.len() as int),
            final(vind)@.len() == old(vind)@.len(),
            forall|i: int| 0 <= i < lo || hi <= i < final(vind)@.len() ==> final(vind)@[i] == old(vind)@[i],
            came_from(final(vind)@, lo as int, hi as int, old(vind)@, lo as int, hi as int),
            came_from(old(vind)@, lo as int, hi as int, final(vind)@, lo as int, hi as int),
            lo <= r <= hi,
            forall|i: int| lo <= i < r ==> coord(pts@[final(vind)@[i] as int], dim as int) < cutval,
            forall|i: int| r <= i < hi ==> coord(pts@[final(vind)@[i] as int], dim as int) >= cutval,
    {
        let ghost v0 = vind@;
        let n = vind.len();
        proof {
            lemma_came_from_same(v0, v0, lo as int, hi as int);
        }
        let mut j: usize = lo;
        let mut i: usize = lo;
        while i < hi
            invariant
                lo <= j <= i <= hi <= n,
                dim < DIM,
                v0.len() == n,
                vind@.len() == n,
                is_perm(vind@, pts@.len() as int),
                forall|k: int| 0 <= k < lo || hi <= k < n ==> vind@[k] == v0[k],
                came_from(vind@, lo as int, hi as int, v0, lo as int, hi as int),
                came_from(v0, lo as int, hi as int, vind@, lo as int, hi as int),
                forall|k: int| lo <= k < j ==> coord(pts@[vind@[k] as int], dim as int) < cutval,
                forall|k: int| j <= k < i ==> coord(pts@[vind@[k] as int], dim as int) >= cutval,
            decreases hi - i,
        {
            if pts[vind[i]].get(dim) < cutval {
                let a = vind[i];
                let b = vind[j];
                proof {
                    lemma_swap_perm(vind@, pts@.len() as int, i as int, j as int);
                    lemma_swap_within(vind@, v0, lo as int, hi as int, i as int, j as int);
                }
                vind.set(i, b);
                vind.set(j, a);
                j = j + 1;
            }
            i = i + 1;
        }
        j
    }
}

/// The slots `[lo, mid)` hold coordinates `dim` below `cut` and the slots
/// `[mid, hi)` coordinates at or above it; or all of `[lo, hi)` sit at `cut`.
pub open spec fn split_sides(pts: Seq<Point>, perm: Seq<usize>, lo: int, mid: int, hi: int, dim: int, cut: int) -> bool {
    ||| {
        &&& forall|i: int| lo <= i < mid ==> coord(pts[perm[i] as int], dim) < cut
        &&& forall|i: int| mid <= i < hi ==> coord(pts[perm[i] as int], dim) >= cut
    }
    ||| forall|i: int| lo <= i < hi ==> coord(pts[perm[i] as int], dim) == cut
}

/// After a split and the builds of both sides, each side holds values of its
/// own part of the split, and the whole range values of the range before.
proof fn lemma_children_came_from(
    v0: Seq<usize>,
    v1: Seq<usize>,
    v2: Seq<usize>,
    v3: Seq<usize>,
    lo: int,
    mid: int,
    hi: int,
)
    requires
        lo < mid < hi,
        came_from(v1, lo, hi, v0, lo, hi),
        came_from(v0, lo, hi, v1, lo, hi),
        came_from(v2, lo, mid, v1, lo, mid),
        came_from(v1, lo, mid, v2, lo, mid),
        forall|i: int| mid <= i < hi ==> v2[i] == v1[i],
        came_from(v3, mid, hi, v2, mid, hi),
        came_from(v2, mid, hi, v3, mid, hi),
        forall|i: int| lo <= i < mid ==> v3[i] == v2[i],
    ensures
        came_from(v3, lo, mid, v1, lo, mid),
        came_from(v3, mid, hi, v1, mid, hi),
        came_from(v3, lo, hi, v0, lo, hi),
        came_from(v0, lo, hi, v3, lo, hi),
{
    assert forall|j: int| lo <= j < hi implies holds_in(v3, lo, hi, #[trigger] v0[j]) by {
        assert(holds_in(v1, lo, hi, v0[j]));
        let i = choose|i: int| lo <= i < hi && v1[i] == v0[j];
        if i < mid {
            assert(holds_in(v2, lo, mid, v1[i]));
            let k = choose|k: int| lo <= k < mid && v2[k] == v1[i];
            assert(v3[k] == v0[j]);
        } else {
            assert(v2[i] == v1[i]);
            assert(holds_in(v3, mid, hi, v2[i]));
            let k = choose|k: int| mid <= k < hi && v3[k] == v2[i];
        }
    }
    lemma_came_from_same(v3, v2, lo, mid);
    lemma_came_from_trans(v3, lo, mid, v2, lo, mid, v1, lo, mid);
    lemma_came_from_same(v2, v1, mid, hi);
    lemma_came_from_trans(v3, mid, hi, v2, mid, hi, v1, mid, hi);
    assert forall|j: int| lo <= j < hi implies holds_in(v1, lo, hi, #[trigger] v3[j]) by {
        if j < mid {
            assert(holds_in(v1, lo, mid, v3[j]));
        } else {
            assert(holds_in(v1, mid, hi, v3[j]));
        }
    }
    lemma_came_from_trans(v3, lo, hi, v1, lo, hi, v0, lo, hi);
}

/// Once both sides of a split are rearranged within themselves, the left
/// extent on the split dimension does not pass the right one.
proof fn lemma_gap(
    pts: Seq<Point>,
    v1: Seq<usize>,
    v3: Seq<usize>,
    lo: int,
    mid: int,
    hi: int,
    dim: int,
    cut: int,
    lb: Seq<Bounding>,
    rb: Seq<Bounding>,
)
    requires
        0 <= dim < DIM,
        lo < mid < hi,
        split_sides(pts, v1, lo, mid, hi, dim, cut),
        came_from(v3, lo, mid, v1, lo, mid),
        came_from(v3, mid, hi, v1, mid, hi),
        box_tight(lb, pts, v3, lo, mid),
        box_tight(rb, pts, v3, mid, hi),
    ensures
        lb[dim].high <= rb[dim].low,
{
    assert(reached(pts, v3, lo, mid, dim, lb[dim].high as int)) by {
        assert(dim == 0 || dim == 1 || dim == 2);
    }
    assert(reached(pts, v3, mid, hi, dim, rb[dim].low as int)) by {
        assert(dim == 0 || dim == 1 || dim == 2);
    }
    let a = choose|i: int| lo <= i < mid && coord(pts[v3[i] as int], dim) == lb[dim].high;
    let b = choose|i: int| mid <= i < hi && coord(pts[v3[i] as int], dim) == rb[dim].low;
    assert(holds_in(v1, lo, mid, v3[a]));
    assert(holds_in(v1, mid, hi, v3[b]));
    let a1 = choose|i: int| lo <= i < mid && v1[i] == v3[a];
    let b1 = choose|i: int| mid <= i < hi && v1[i] == v3[b];
    assert(coord(pts[v1[a1] as int], dim) <= cut);
    assert(coord(pts[v1[b1] as int], dim) >= cut);
}

/// A copy of a box.
fn copy_box(b: &Vec<Bounding>) -> (r: Vec<Bounding>)
    ensures
        r@ == b@,
{
    let mut r: Vec<Bounding> = Vec::new();
    let mut i: usize = 0;
    while i < b.len()
        invariant
            i <= b@.len(),
            r@ == b@.subrange(0, i as int),
        decreases b@.len() - i,
    {
        r.push(b[i]);
        i = i + 1;
        assert(r@ =~= b@.subrange(0, i as int));
    }
    assert(r@ =~= b@);
    r
}

/// A range whose slots were only rearranged among themselves keeps its
/// tight box.
proof fn lemma_box_transfer(b: Seq<Bounding>, pts: Seq<Point>, pa: Seq<usize>, pb: Seq<usize>, lo: int, hi: int)
    requires
        box_holds(b, pts, pa, lo, hi),
        box_tight(b, pts, pa, lo, hi),
        came_from(pb, lo, hi, pa, lo, hi),
        came_from(pa, lo, hi, pb, lo, hi),
        hi <= pb.len(),
    ensures
        box_holds(b, pts, pb, lo, hi),
        box_tight(b, pts, pb, lo, hi),
{
    assert forall|j: int| lo <= j < hi implies (pb[j] as int) < pts.len() && crate::bbox::in_box(
        pts[pb[j] as int],
        b,
    ) by {
        assert(holds_in(pa, lo, hi, pb[j]));
        let i = choose|i: int| lo <= i < hi && pa[i] == pb[j];
        assert(crate::bbox::in_box(pts[pa[i] as int], b));
    }
    assert forall|d: int, v: int| reached(pts, pa, lo, hi, d, v) implies reached(pts, pb, lo, hi, d, v) by {
        let i = choose|i: int| lo <= i < hi && coord(pts[pa[i] as int], d) == v;
        assert(holds_in(pb, lo, hi, pa[i]));
        let k = choose|k: int| lo <= k < hi && pb[k] == pa[i];
    }
}

} // verus!
