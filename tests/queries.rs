use kdquery::distance::{dist1, distance, Metric};
use kdquery::immutable::ImmutableKdTree;
use kdquery::kdtree::{KdTree, LeafNode, StemNode, LEAF_OFFSET};

type Point = [i32; 4];

fn empty_leaf() -> LeafNode<4, 4> {
    LeafNode { content_points: [[0; 4]; 4], content_items: [0; 4], size: 0 }
}

fn make_leaf(pts: &[(Point, u64)]) -> LeafNode<4, 4> {
    assert!(pts.len() <= 4);
    let mut leaf = empty_leaf();
    for (i, (p, item)) in pts.iter().enumerate() {
        leaf.content_points[i] = *p;
        leaf.content_items[i] = *item;
    }
    leaf.size = pts.len() as u32;
    leaf
}

fn add_node(tree: &mut KdTree<4, 4>, mut pts: Vec<(Point, u64)>, axis: usize) -> u32 {
    if pts.len() <= 4 {
        tree.leaves.push(make_leaf(&pts));
        return LEAF_OFFSET + (tree.leaves.len() - 1) as u32;
    }
    pts.sort_by_key(|e| e.0[axis]);
    let split = pts[pts.len() / 2].0[axis];
    let (left, right): (Vec<_>, Vec<_>) = pts.into_iter().partition(|e| e.0[axis] < split);
    let idx = tree.stems.len();
    tree.stems.push(StemNode { split_val: split, left: 0, right: 0 });
    let l = add_node(tree, left, (axis + 1) % 4);
    let r = add_node(tree, right, (axis + 1) % 4);
    tree.stems[idx].left = l;
    tree.stems[idx].right = r;
    idx as u32
}

fn build_explicit(points: &[(Point, u64)]) -> KdTree<4, 4> {
    let mut tree = KdTree { stems: Vec::new(), leaves: Vec::new(), root_index: 0 };
    let root = add_node(&mut tree, points.to_vec(), 0);
    tree.root_index = root;
    tree
}

fn fill(
    stems: &mut Vec<i32>,
    leaves: &mut Vec<LeafNode<4, 4>>,
    mut pts: Vec<(Point, u64)>,
    stem_idx: usize,
    level: usize,
    max_level: usize,
) {
    if level > max_level {
        let n = stems.len();
        leaves[stem_idx - n] = make_leaf(&pts);
        return;
    }
    let axis = level % 4;
    pts.sort_by_key(|e| e.0[axis]);
    let split = pts[pts.len() / 2].0[axis];
    let (left, right): (Vec<_>, Vec<_>) = pts.into_iter().partition(|e| e.0[axis] < split);
    stems[stem_idx] = split;
    fill(stems, leaves, left, 2 * stem_idx, level + 1, max_level);
    fill(stems, leaves, right, 2 * stem_idx + 1, level + 1, max_level);
}

fn build_implicit(points: &[(Point, u64)], max_stem_level: usize) -> ImmutableKdTree<4, 4> {
    let n = 1usize << (max_stem_level + 1);
    let mut stems = vec![0i32; n];
    let mut leaves = vec![empty_leaf(); n];
    fill(&mut stems, &mut leaves, points.to_vec(), 1, 0, max_stem_level);
    ImmutableKdTree { stems, leaves, max_stem_level }
}

fn nearest_one_content() -> [(Point, u64); 16] {
    [
        ([90, 0, 90, 0], 9),
        ([40, 50, 40, 51], 4),
        ([12, 30, 12, 30], 12),
        ([70, 20, 70, 22], 7),
        ([13, 40, 13, 40], 13),
        ([60, 30, 60, 33], 6),
        ([20, 70, 20, 70], 2),
        ([14, 50, 14, 50], 14),
        ([30, 60, 30, 60], 3),
        ([10, 10, 10, 10], 10),
        ([16, 70, 16, 70], 16),
        ([10, 80, 10, 80], 1),
        ([15, 60, 15, 60], 15),
        ([50, 40, 50, 44], 5),
        ([80, 10, 80, 15], 8),
        ([11, 20, 11, 20], 11),
    ]
}

fn within_content() -> [(Point, u64); 16] {
    [
        ([90, 0, 90, 0], 9),
        ([40, 50, 40, 50], 4),
        ([12, 30, 12, 30], 12),
        ([70, 20, 70, 20], 7),
        ([13, 40, 13, 40], 13),
        ([60, 30, 60, 30], 6),
        ([20, 70, 20, 70], 2),
        ([14, 50, 14, 50], 14),
        ([30, 60, 30, 60], 3),
        ([10, 10, 10, 10], 10),
        ([16, 70, 16, 70], 16),
        ([10, 80, 10, 80], 1),
        ([15, 60, 15, 60], 15),
        ([50, 40, 50, 40], 5),
        ([80, 10, 80, 10], 8),
        ([11, 20, 11, 20], 11),
    ]
}

struct Lcg(u64);

impl Lcg {
    fn next_coord(&mut self) -> i32 {
        self.0 = self.0.wrapping_mul(6364136223846793005).wrapping_add(1442695040888963407);
        ((self.0 >> 33) % 100) as i32
    }

    fn point(&mut self) -> Point {
        [self.next_coord(), self.next_coord(), self.next_coord(), self.next_coord()]
    }
}

fn linear_nearest(content: &[(Point, u64)], query: &Point, metric: Metric) -> (u128, u64) {
    let mut best_dist = u128::MAX;
    let mut best_item = u64::MAX;
    for (p, item) in content {
        let d = distance(metric, query, p);
        if d < best_dist {
            best_dist = d;
            best_item = *item;
        }
    }
    (best_dist, best_item)
}

fn linear_search(content: &[(Point, u64)], query: &Point, radius: u128, metric: Metric) -> Vec<(u128, u64)> {
    let mut matching = Vec::new();
    for (p, item) in content {
        let d = distance(metric, query, p);
        if d < radius {
            matching.push((d, *item));
        }
    }
    matching.sort();
    matching
}

#[test]
fn can_query_nearest_one_item() {
    let content = nearest_one_content();
    let tree = build_explicit(&content);
    let size: u32 = tree.leaves.iter().map(|l| l.size).sum();
    assert_eq!(size, 16);

    let query = [78, 55, 78, 55];
    let result = tree.nearest_one(&query, Metric::Manhattan);
    assert_eq!(result, (82, 5));

    let mut rng = Lcg(7);
    for _ in 0..1000 {
        let query = rng.point();
        let expected = linear_nearest(&content, &query, Metric::Manhattan);
        let result = tree.nearest_one(&query, Metric::Manhattan);
        assert_eq!(result.0, expected.0);
    }
}

#[test]
fn can_query_items_within_unsorted_radius() {
    let content = within_content();
    let tree = build_explicit(&content);
    let size: u32 = tree.leaves.iter().map(|l| l.size).sum();
    assert_eq!(size, 16);

    let query = [78, 55, 78, 55];
    let radius = 2000;
    let expected = linear_search(&content, &query, radius, Metric::SquaredEuclidean);
    let mut result = tree.within_unsorted(&query, radius, Metric::SquaredEuclidean);
    result.sort();
    assert_eq!(result, expected);

    let mut rng = Lcg(11);
    for _ in 0..1000 {
        let query = rng.point();
        let expected = linear_search(&content, &query, radius, Metric::SquaredEuclidean);
        let mut result = tree.within_unsorted(&query, radius, Metric::SquaredEuclidean);
        result.sort();
        assert_eq!(result, expected);
    }
}

#[test]
fn within_on_implicit_tree_matches_linear_search() {
    let content = within_content();
    let tree = build_implicit(&content, 1);
    let query = [78, 55, 78, 55];
    let radius = 2000;
    let expected = linear_search(&content, &query, radius, Metric::SquaredEuclidean);
    assert_eq!(expected, vec![(1898, 6)]);
    assert_eq!(tree.within(&query, radius, Metric::SquaredEuclidean), expected);

    let mut rng = Lcg(3);
    for _ in 0..1000 {
        let query = rng.point();
        for metric in [Metric::SquaredEuclidean, Metric::Manhattan] {
            let radius = if metric == Metric::Manhattan { 90 } else { 2000 };
            let expected = linear_search(&content, &query, radius, metric);
            assert_eq!(tree.within(&query, radius, metric), expected);
            let mut unsorted = tree.within_unsorted(&query, radius, metric);
            unsorted.sort();
            assert_eq!(unsorted, expected);
        }
    }
}

#[test]
fn nearest_n_within_caps_and_orders() {
    let content = within_content();
    let tree = build_implicit(&content, 1);
    let query = [50, 50, 50, 50];
    let radius = 20000;
    let all = linear_search(&content, &query, radius, Metric::SquaredEuclidean);
    assert!(all.len() > 3);

    for max_items in [1usize, 3, 25] {
        for sorted in [true, false] {
            let result = tree.nearest_n_within(&query, radius, max_items, sorted, Metric::SquaredEuclidean);
            assert!(result.len() <= max_items);
            for r in &result {
                assert!(r.0 < radius);
                assert!(all.contains(r));
            }
            if sorted {
                let mut copy = result.clone();
                copy.sort();
                assert_eq!(copy, result);
            }
        }
    }

    for max_items in [1usize, 3, 5, 21] {
        for sorted in [true, false] {
            let mut result = tree.nearest_n_within(&query, radius, max_items, sorted, Metric::SquaredEuclidean);
            result.sort();
            let kept: Vec<u128> = result.iter().map(|r| r.0).collect();
            let nearest: Vec<u128> = all.iter().take(max_items).map(|r| r.0).collect();
            assert_eq!(kept, nearest);
        }
    }

    let result = tree.nearest_n_within(&query, radius, 25, true, Metric::SquaredEuclidean);
    assert_eq!(result, all);
    let result = tree.nearest_n_within(&query, radius, 20, true, Metric::SquaredEuclidean);
    assert_eq!(result, all);
    let mut result = tree.nearest_n_within(&query, radius, 30, false, Metric::SquaredEuclidean);
    result.sort();
    assert_eq!(result, all);
}

#[test]
fn deep_implicit_tree_cycles_axes() {
    let mut rng = Lcg(99);
    let mut content = Vec::new();
    for i in 0..32u64 {
        let p = rng.point();
        content.push(([p[0] * 37 + i as i32, p[1] * 37 + i as i32, p[2] * 37 + i as i32, p[3] * 37 + i as i32], i));
    }
    let tree = build_implicit(&content, 4);
    let explicit = build_explicit(&content);
    for _ in 0..300 {
        let q = rng.point();
        let query = [q[0] * 37, q[1] * 37, q[2] * 37, q[3] * 37];
        let radius = 3_000_000;
        let expected = linear_search(&content, &query, radius, Metric::SquaredEuclidean);
        assert_eq!(tree.within(&query, radius, Metric::SquaredEuclidean), expected);
        let nearest = explicit.nearest_one(&query, Metric::SquaredEuclidean);
        assert_eq!(nearest.0, linear_nearest(&content, &query, Metric::SquaredEuclidean).0);
    }
}

#[test]
fn repeated_queries_give_identical_results() {
    let content = within_content();
    let implicit = build_implicit(&content, 1);
    let explicit = build_explicit(&content);
    let query = [33, 41, 27, 60];
    let first = implicit.within(&query, 5000, Metric::SquaredEuclidean);
    let again = implicit.within(&query, 5000, Metric::SquaredEuclidean);
    assert_eq!(first, again);
    let n1 = explicit.nearest_one(&query, Metric::Manhattan);
    let n2 = explicit.nearest_one(&query, Metric::Manhattan);
    assert_eq!(n1, n2);
    let mut u1 = explicit.within_unsorted(&query, 5000, Metric::SquaredEuclidean);
    let mut u2 = explicit.within_unsorted(&query, 5000, Metric::SquaredEuclidean);
    u1.sort();
    u2.sort();
    assert_eq!(u1, u2);
}

#[test]
fn empty_trees() {
    let explicit: KdTree<4, 4> = KdTree { stems: Vec::new(), leaves: vec![empty_leaf()], root_index: LEAF_OFFSET };
    assert_eq!(explicit.nearest_one(&[1, 2, 3, 4], Metric::Manhattan), (u128::MAX, 0));
    assert!(explicit.within_unsorted(&[1, 2, 3, 4], 100, Metric::Manhattan).is_empty());

    let implicit: ImmutableKdTree<4, 4> = ImmutableKdTree { stems: Vec::new(), leaves: vec![empty_leaf()], max_stem_level: 0 };
    assert!(implicit.within(&[1, 2, 3, 4], 100, Metric::Manhattan).is_empty());
    assert!(implicit.nearest_n_within(&[1, 2, 3, 4], 100, 5, true, Metric::Manhattan).is_empty());
}

#[test]
fn single_leaf_implicit_tree() {
    let pts = [([1, 1, 1, 1], 7u64), ([5, 5, 5, 5], 8), ([2, 2, 2, 2], 9)];
    let implicit: ImmutableKdTree<4, 4> = ImmutableKdTree { stems: Vec::new(), leaves: vec![make_leaf(&pts)], max_stem_level: 0 };
    assert_eq!(implicit.within(&[0, 0, 0, 0], 10, Metric::Manhattan), vec![(4, 7), (8, 9)]);
}

#[test]
fn radius_is_strict() {
    let content = within_content();
    let explicit = build_explicit(&content);
    let query = [78, 55, 78, 55];
    assert!(explicit.within_unsorted(&query, 1898, Metric::SquaredEuclidean).is_empty());
    assert_eq!(explicit.within_unsorted(&query, 1899, Metric::SquaredEuclidean), vec![(1898, 6)]);
}

#[test]
fn distances_are_exact() {
    let a = [1, -2, 3, 4];
    let b = [4, 2, 3, -1];
    assert_eq!(distance(Metric::Manhattan, &a, &b), 3 + 4 + 0 + 5);
    assert_eq!(distance(Metric::SquaredEuclidean, &a, &b), 9 + 16 + 0 + 25);
    assert_eq!(dist1(Metric::Manhattan, -7, 5), 12);
    assert_eq!(dist1(Metric::SquaredEuclidean, -7, 5), 144);
    let far = [i32::MIN, i32::MIN, i32::MIN, i32::MIN];
    let near = [i32::MAX, i32::MAX, i32::MAX, i32::MAX];
    let d = (u32::MAX as u128) * (u32::MAX as u128) * 4;
    assert_eq!(distance(Metric::SquaredEuclidean, &far, &near), d);
}
