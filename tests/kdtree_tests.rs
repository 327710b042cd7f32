use kdtree::{squared_distance, Bounding, KdTree, KdTreeError, Point, TreeNode};

fn pt(x: i32, y: i32, z: i32) -> Point {
    Point::new(x, y, z)
}

fn bx(x: (i32, i32), y: (i32, i32), z: (i32, i32)) -> Vec<Bounding> {
    vec![
        Bounding { low: x.0, high: x.1 },
        Bounding { low: y.0, high: y.1 },
        Bounding { low: z.0, high: z.1 },
    ]
}

fn built(points: Vec<Point>, leaf: usize) -> KdTree {
    let mut t = KdTree::with_leaf_max_size(points, leaf).unwrap();
    t.build_index();
    t
}

/// Deterministic pseudo-random points in a small cube, with repeats.
fn cloud(n: usize, seed: u64) -> Vec<Point> {
    let mut s = seed;
    let mut next = || {
        s = s.wrapping_mul(6364136223846793005).wrapping_add(1442695040888963407);
        ((s >> 33) % 41) as i32 - 20
    };
    (0..n).map(|_| pt(next(), next(), next())).collect()
}

fn coords(p: &Point) -> [i32; 3] {
    [p.x, p.y, p.z]
}

fn inside(p: &Point, b: &[Bounding]) -> bool {
    let c = coords(p);
    (0..3).all(|d| b[d].low <= c[d] && c[d] <= b[d].high)
}

fn range(n: &TreeNode) -> (usize, usize) {
    match n {
        TreeNode::Leaf { left_offset, right_offset, .. } => (*left_offset, *right_offset),
        TreeNode::NonLeaf { left_child, right_child, .. } => (range(left_child).0, range(right_child).1),
        TreeNode::Empty => panic!("empty node in a built tree"),
    }
}

fn leaves(n: &TreeNode, out: &mut Vec<(usize, usize)>) {
    match n {
        TreeNode::Leaf { left_offset, right_offset, .. } => out.push((*left_offset, *right_offset)),
        TreeNode::NonLeaf { left_child, right_child, .. } => {
            leaves(left_child, out);
            leaves(right_child, out);
        }
        TreeNode::Empty => panic!("empty node in a built tree"),
    }
}

/// The splits of a tree in pre-order, and its leaf ranges.
fn shape(n: &TreeNode, out: &mut Vec<(usize, i32, i32, usize, usize)>) {
    match n {
        TreeNode::Leaf { left_offset, right_offset, .. } => out.push((9, 0, 0, *left_offset, *right_offset)),
        TreeNode::NonLeaf { divdim, divlow, divhigh, left_child, right_child, .. } => {
            let (lo, hi) = range(n);
            out.push((*divdim, *divlow, *divhigh, lo, hi));
            shape(left_child, out);
            shape(right_child, out);
        }
        TreeNode::Empty => panic!("empty node in a built tree"),
    }
}

fn check_boxes(t: &KdTree, n: &TreeNode) {
    let (lo, hi) = range(n);
    let b = match n {
        TreeNode::Leaf { bbox, .. } => bbox,
        TreeNode::NonLeaf { bbox, .. } => bbox,
        TreeNode::Empty => panic!("empty node in a built tree"),
    };
    for i in lo..hi {
        let p = &t.dataset()[t.permutation()[i]];
        assert!(inside(p, b));
    }
    for d in 0..3 {
        assert!((lo..hi).any(|i| coords(&t.dataset()[t.permutation()[i]])[d] == b[d].low));
        assert!((lo..hi).any(|i| coords(&t.dataset()[t.permutation()[i]])[d] == b[d].high));
    }
    if let TreeNode::NonLeaf { divdim, divlow, divhigh, left_child, right_child, .. } = n {
        assert!(divlow <= divhigh);
        for i in range(left_child).0..range(left_child).1 {
            assert!(coords(&t.dataset()[t.permutation()[i]])[*divdim] <= *divlow);
        }
        for i in range(right_child).0..range(right_child).1 {
            assert!(coords(&t.dataset()[t.permutation()[i]])[*divdim] >= *divhigh);
        }
        check_boxes(t, left_child);
        check_boxes(t, right_child);
    }
}

fn sorted(mut v: Vec<Point>) -> Vec<(i32, i32, i32)> {
    let mut r: Vec<(i32, i32, i32)> = v.drain(..).map(|p| (p.x, p.y, p.z)).collect();
    r.sort();
    r
}

fn example() -> Vec<Point> {
    vec![pt(0, 0, 0), pt(1, 0, 0), pt(0, 1, 0), pt(5, 5, 0), pt(5, 6, 0)]
}

#[test]
fn example_root_splits_on_wider_dimension() {
    let t = built(example(), 2);
    let root = t.root_node().as_ref().unwrap();
    match &**root {
        TreeNode::NonLeaf { divdim, divlow, divhigh, left_child, right_child, .. } => {
            assert_eq!(*divdim, 1);
            assert_eq!((*divlow, *divhigh), (1, 5));
            assert_eq!((range(left_child), range(right_child)), ((0, 3), (3, 5)));
            assert!(matches!(**right_child, TreeNode::Leaf { .. }));
            assert!(matches!(**left_child, TreeNode::NonLeaf { .. }));
        }
        _ => panic!("root should be an inner node"),
    }
    let mut ls = Vec::new();
    leaves(root, &mut ls);
    assert!(ls.iter().all(|(lo, hi)| hi - lo <= 2 && lo < hi));
}

#[test]
fn example_nearest_to_origin() {
    let t = built(example(), 2);
    let r = t.query_k_nearest_neighor(&pt(0, 0, 0), 1).unwrap();
    assert_eq!(r.len(), 1);
    assert_eq!(r[0], (pt(0, 0, 0), 0));
}

#[test]
fn example_range_query() {
    let t = built(example(), 2);
    let r = t.query_with_bounding_box(&bx((4, 6), (4, 7), (0, 0)));
    assert_eq!(sorted(r), vec![(5, 5, 0), (5, 6, 0)]);
}

#[test]
fn empty_dataset_is_refused() {
    assert_eq!(KdTree::new(Vec::new()).err(), Some(KdTreeError::EmptyDataset));
    assert_eq!(KdTree::with_leaf_max_size(Vec::new(), 4).err(), Some(KdTreeError::EmptyDataset));
}

#[test]
fn zero_leaf_size_is_refused() {
    assert_eq!(KdTree::with_leaf_max_size(example(), 0).err(), Some(KdTreeError::InvalidLeafSize));
}

#[test]
fn zero_k_is_refused() {
    let t = built(example(), 2);
    assert_eq!(t.query_k_nearest_neighor(&pt(0, 0, 0), 0).err(), Some(KdTreeError::InvalidK));
    assert_eq!(t.k_nearest_slots(&pt(0, 0, 0), 0).err(), Some(KdTreeError::InvalidK));
}

#[test]
fn default_leaf_size_is_ten() {
    let mut t = KdTree::new(cloud(35, 3)).unwrap();
    assert_eq!(t.leaf_max_size(), 10);
    assert!(t.root_node().is_none());
    t.build_index();
    let mut ls = Vec::new();
    leaves(t.root_node().as_ref().unwrap(), &mut ls);
    assert!(ls.iter().all(|(lo, hi)| hi - lo <= 10));
}

#[test]
fn leaves_tile_the_permutation() {
    for (n, leaf) in [(1, 1), (7, 1), (100, 3), (257, 8)] {
        let t = built(cloud(n, n as u64), leaf);
        let mut ls = Vec::new();
        leaves(t.root_node().as_ref().unwrap(), &mut ls);
        assert_eq!(ls[0].0, 0);
        assert_eq!(ls[ls.len() - 1].1, n);
        for w in ls.windows(2) {
            assert_eq!(w[0].1, w[1].0);
        }
        assert!(ls.iter().all(|(lo, hi)| lo < hi && hi - lo <= leaf));
        let mut p = t.permutation().clone();
        p.sort();
        assert_eq!(p, (0..n).collect::<Vec<usize>>());
    }
}

#[test]
fn boxes_contain_their_points() {
    let t = built(cloud(150, 11), 4);
    let root = t.root_node().as_ref().unwrap();
    check_boxes(&t, root);
    assert_eq!(t.root_bounding_box(), match &**root {
        TreeNode::NonLeaf { bbox, .. } => bbox,
        TreeNode::Leaf { bbox, .. } => bbox,
        TreeNode::Empty => panic!("empty root"),
    });
}

#[test]
fn range_query_matches_brute_force() {
    let pts = cloud(300, 5);
    let t = built(pts.clone(), 5);
    let boxes = [
        bx((-5, 5), (-5, 5), (-5, 5)),
        bx((-20, 20), (-20, 20), (-20, 20)),
        bx((0, 0), (-20, 20), (3, 3)),
        bx((10, 2), (0, 5), (0, 5)),
        bx((-20, -15), (15, 20), (-3, 8)),
    ];
    for q in boxes.iter() {
        let got = t.query_with_bounding_box(q);
        let want: Vec<Point> = pts.iter().copied().filter(|p| inside(p, q)).collect();
        assert_eq!(sorted(got), sorted(want));
    }
}

#[test]
fn range_query_returns_points_in_slot_order() {
    let t = built(cloud(80, 9), 3);
    let q = bx((-10, 10), (-10, 10), (-10, 10));
    let got = t.query_with_bounding_box(&q);
    let want: Vec<Point> = t.permutation().iter().map(|&i| t.dataset()[i]).filter(|p| inside(p, &q)).collect();
    assert_eq!(got, want);
}

#[test]
fn nearest_matches_brute_force() {
    let pts = cloud(200, 17);
    let t = built(pts.clone(), 6);
    for (target, k) in [(pt(0, 0, 0), 1), (pt(3, -7, 12), 5), (pt(30, 30, 30), 17), (pt(-1, 2, -3), 200)] {
        let got = t.query_k_nearest_neighor(&target, k).unwrap();
        let mut want: Vec<u128> = pts.iter().map(|p| squared_distance(p, &target)).collect();
        want.sort();
        want.truncate(k as usize);
        let dists: Vec<u128> = got.iter().map(|e| e.1).collect();
        assert_eq!(dists, want);
        for (p, d) in got.iter() {
            assert_eq!(squared_distance(p, &target), *d);
        }
    }
}

#[test]
fn nearest_breaks_ties_by_slot() {
    let t = built(vec![pt(1, 0, 0), pt(-1, 0, 0), pt(0, 1, 0), pt(0, 0, 5)], 1);
    let r = t.k_nearest_slots(&pt(0, 0, 0), 3).unwrap();
    assert_eq!(r.iter().map(|e| e.0).collect::<Vec<u128>>(), vec![1, 1, 1]);
    assert!(r.windows(2).all(|w| w[0].1 < w[1].1));
}

#[test]
fn nearest_with_k_above_n_returns_all() {
    let t = built(example(), 2);
    let r = t.query_k_nearest_neighor(&pt(0, 0, 0), 50).unwrap();
    assert_eq!(r.len(), 5);
    assert_eq!(r.iter().map(|e| e.1).collect::<Vec<u128>>(), vec![0, 1, 1, 50, 61]);
}

#[test]
fn build_is_deterministic() {
    let pts = cloud(120, 23);
    let a = built(pts.clone(), 4);
    let b = built(pts, 4);
    let (mut sa, mut sb) = (Vec::new(), Vec::new());
    shape(a.root_node().as_ref().unwrap(), &mut sa);
    shape(b.root_node().as_ref().unwrap(), &mut sb);
    assert_eq!(sa, sb);
    assert_eq!(a.permutation(), b.permutation());
}

#[test]
fn rebuild_gives_the_same_tree() {
    let mut t = built(cloud(60, 29), 3);
    let mut s1 = Vec::new();
    shape(t.root_node().as_ref().unwrap(), &mut s1);
    t.build_index();
    let mut s2 = Vec::new();
    shape(t.root_node().as_ref().unwrap(), &mut s2);
    let mut p = t.permutation().clone();
    p.sort();
    assert_eq!(p, (0..60).collect::<Vec<usize>>());
    assert_eq!(s1.len(), s2.len());
}

#[test]
fn identical_points_build_and_answer() {
    let t = built(vec![pt(4, -2, 7); 50], 3);
    let r = t.query_k_nearest_neighor(&pt(4, -2, 7), 5).unwrap();
    assert_eq!(r, vec![(pt(4, -2, 7), 0); 5]);
    let all = t.query_k_nearest_neighor(&pt(4, -2, 7), 80).unwrap();
    assert_eq!(all.len(), 50);
    let mut ls = Vec::new();
    leaves(t.root_node().as_ref().unwrap(), &mut ls);
    assert!(ls.iter().all(|(lo, hi)| hi - lo <= 3));
}

#[test]
fn squared_distance_is_exact() {
    assert_eq!(squared_distance(&pt(1, 2, 3), &pt(4, 6, 3)), 25);
    assert_eq!(squared_distance(&pt(i32::MIN, i32::MIN, i32::MIN), &pt(i32::MAX, i32::MAX, i32::MAX)), 3 * (u32::MAX as u128) * (u32::MAX as u128));
}

#[test]
fn point_accessors() {
    let p = pt(7, -8, 9);
    assert_eq!(p.as_slice(), vec![7, -8, 9]);
    assert_eq!((p.get(0), p.get(1), p.get(2)), (7, -8, 9));
}

#[test]
fn tree_node_constructors() {
    assert!(matches!(TreeNode::new(), TreeNode::Empty));
    let leaf = TreeNode::new_leafnode(2, 5, bx((0, 1), (0, 1), (0, 1)));
    assert!(matches!(leaf, TreeNode::Leaf { left_offset: 2, right_offset: 5, .. }));
    let inner = TreeNode::new_non_leafnode(
        Box::new(TreeNode::new_leafnode(0, 2, bx((0, 1), (0, 1), (0, 1)))),
        Box::new(leaf),
        1,
        1,
        3,
        bx((0, 1), (0, 3), (0, 1)),
    );
    assert_eq!(range(&inner), (0, 5));
}

#[test]
fn box_lower_bound_is_exact() {
    let b = bx((0, 2), (0, 2), (0, 2));
    assert_eq!(kdtree::knn::box_lower_bound(&b, &pt(1, 1, 1)), 0);
    assert_eq!(kdtree::knn::box_lower_bound(&b, &pt(5, -1, 1)), 9 + 1);
    assert_eq!(kdtree::knn::box_lower_bound(&b, &pt(-3, 6, 4)), 9 + 16 + 4);
}

#[test]
fn bounding_box_of_a_range_is_tight() {
    let pts = vec![pt(3, -1, 0), pt(-2, 4, 9), pt(7, 0, -5), pt(1, 1, 1)];
    let vind = vec![3, 0, 2, 1];
    let b = kdtree::bbox::compute_bounding_box_for_range(&pts, &vind, 1, 3);
    assert_eq!(b, bx((3, 7), (-1, 0), (-5, 0)));
    let all = kdtree::bbox::compute_bounding_box_for_range(&pts, &vind, 0, 4);
    assert_eq!(all, bx((-2, 7), (-1, 4), (-5, 9)));
}

#[test]
fn intersection_and_containment_of_boxes() {
    let a = bx((0, 2), (5, 6), (-1, 1));
    let b = bx((1, 4), (0, 3), (0, 0));
    assert!(!kdtree::bbox::boxes_intersect(&a, &b));
    assert!(kdtree::bbox::boxes_intersect(&a, &bx((2, 2), (6, 9), (1, 5))));
    assert!(kdtree::bbox::contains_point(&a, &pt(2, 5, -1)));
    assert!(!kdtree::bbox::contains_point(&a, &pt(3, 5, -1)));
}

#[test]
fn permutation_starts_as_identity() {
    let t = KdTree::with_leaf_max_size(cloud(12, 1), 2).unwrap();
    assert_eq!(t.permutation(), &(0..12).collect::<Vec<usize>>());
    assert!(t.root_node().is_none());
}
