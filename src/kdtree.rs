//! The explicit-index tree layout: stems and leaves in two arenas, children
//! referenced by stored indices, with leaf indices tagged by `LEAF_OFFSET`.
use vstd::prelude::*;
use crate::distance::{Metric, dist, axis_dist, dist1, distance, lemma_far_side_bound, lemma_dist_range};
use az::Az;
use vstd::seq_lib::lemma_multiset_commutative;
use vstd::multiset::Multiset;

verus! {

/// Node indices at or above this value refer to leaves.
pub const LEAF_OFFSET: u32 = 0x7fff_ffff;

/// An internal split node.
#[derive(Clone, Copy, Debug)]
pub struct StemNode {
    pub split_val: i32,
    pub left: u32,
    pub right: u32,
}

/// A bucket of up to `B` points with their payloads; entries at or past
/// `size` are not part of the tree.
#[derive(Clone, Copy, Debug)]
pub struct LeafNode<const K: usize, const B: usize> {
    pub content_points: [[i32; K]; B],
    pub content_items: [u64; B],
    pub size: u32,
}

/// A read-only k-d tree in the explicit-index layout.
pub struct KdTree<const K: usize, const B: usize> {
    pub stems: Vec<StemNode>,
    pub leaves: Vec<LeafNode<K, B>>,
    pub root_index: u32,
}

/// A point of the tree with its payload.
pub type Entry = (Seq<i32>, u64);

/// Relies on az's `Az::az` cast from `u32` to `usize`, which is lossless.
#[verifier::external_body]
fn index_to_usize(i: u32) -> (r: usize)
    ensures
        r == i,
{
    i.az::<usize>()
}

/// The live points of a leaf with their payloads, in slot order.
pub open spec fn leaf_entries<const K: usize, const B: usize>(leaf: LeafNode<K, B>) -> Seq<Entry> {
    Seq::new(leaf.size as nat, |i: int| (leaf.content_points[i]@, leaf.content_items[i]))
}

/// Node indices below `LEAF_OFFSET` refer to stems.
pub open spec fn is_stem_index(idx: u32) -> bool {
    idx < LEAF_OFFSET
}

/// The split axis at a given depth.
pub open spec fn axis_at_depth(depth: nat, k: nat) -> nat {
    if k == 0 { 0 } else { depth % k }
}

impl<const K: usize, const B: usize> KdTree<K, B> {
    /// Stems are visited in increasing index order, so a stem's index bounds
    /// how deep the recursion below it can go.
    pub open spec fn rank(&self, idx: u32) -> nat {
        if is_stem_index(idx) && idx < self.stems.len() {
            (self.stems.len() - idx + 1) as nat
        } else {
            0
        }
    }

    /// A valid reference from the stem at `parent` to `child`.
    pub open spec fn child_ok(&self, parent: u32, child: u32) -> bool {
        if is_stem_index(child) {
            parent < child < self.stems.len()
        } else {
            child - LEAF_OFFSET < self.leaves.len()
        }
    }

    /// The points held in the subtree rooted at `idx`, left subtree first.
    pub open spec fn entries(&self, idx: u32) -> Seq<Entry>
        decreases self.rank(idx),
    {
        if is_stem_index(idx) {
            if idx < self.stems.len() {
                let s = self.stems[idx as int];
                if self.child_ok(idx, s.left) && self.child_ok(idx, s.right) {
                    self.entries(s.left) + self.entries(s.right)
                } else {
                    Seq::empty()
                }
            } else {
                Seq::empty()
            }
        } else if idx - LEAF_OFFSET < self.leaves.len() {
            leaf_entries(self.leaves[idx - LEAF_OFFSET])
        } else {
            Seq::empty()
        }
    }

    /// The subtree at `idx`, whose stem splits on axis `axis`, is well formed:
    /// references are valid, leaves hold at most `B` points, and each stem's
    /// left points lie below its split value and right points at or above it.
    pub open spec fn wf_node(&self, idx: u32, axis: nat) -> bool
        decreases self.rank(idx),
    {
        if is_stem_index(idx) {
            idx < self.stems.len() && {
                let s = self.stems[idx as int];
                let next = axis_at_depth(axis + 1, K as nat);
                &&& self.child_ok(idx, s.left)
                &&& self.child_ok(idx, s.right)
                &&& axis < K
                &&& forall|i: int| 0 <= i < self.entries(s.left).len()
                    ==> #[trigger] self.entries(s.left)[i].0[axis as int] < s.split_val
                &&& forall|i: int| 0 <= i < self.entries(s.right).len()
                    ==> #[trigger] self.entries(s.right)[i].0[axis as int] >= s.split_val
                &&& self.wf_node(s.left, next)
                &&& self.wf_node(s.right, next)
            }
        } else {
            idx - LEAF_OFFSET < self.leaves.len() && self.leaves[idx - LEAF_OFFSET].size <= B
        }
    }

    /// The whole tree is well formed, with the root splitting on axis 0.
    pub open spec fn wf(&self) -> bool {
        &&& K > 0
        &&& self.wf_node(self.root_index, 0)
    }

    /// The points of the whole tree.
    pub open spec fn all_entries(&self) -> Seq<Entry> {
        self.entries(self.root_index)
    }

    /// Every point of a well-formed subtree has `K` coordinates.
    pub proof fn lemma_entries_dim(&self, idx: u32, axis: nat)
        requires
            self.wf_node(idx, axis),
        ensures
            forall|i: int| 0 <= i < self.entries(idx).len() ==> (#[trigger] self.entries(idx)[i]).0.len() == K,
        decreases self.rank(idx),
    {
        if is_stem_index(idx) {
            let s = self.stems[idx as int];
            let next = axis_at_depth(axis + 1, K as nat);
            self.lemma_entries_dim(s.left, next);
            self.lemma_entries_dim(s.right, next);
            let l = self.entries(s.left);
            let r = self.entries(s.right);
            assert forall|i: int| 0 <= i < self.entries(idx).len() implies (#[trigger] self.entries(idx)[i]).0.len() == K by {
                if i < l.len() {
                    assert(self.entries(idx)[i] == l[i]);
                } else {
                    assert(self.entries(idx)[i] == r[i - l.len()]);
                }
            }
        }
    }
}


/// `r` is the best of `best` and the points of `es`: no point of `es` is
/// closer to `q` than `r`, and `r` is either `best` itself or the distance and
/// payload of a point of `es` strictly closer than `best`.
pub open spec fn improves_on(m: Metric, q: Seq<i32>, es: Seq<Entry>, r: (u128, u64), best: (u128, u64)) -> bool {
    &&& forall|i: int| 0 <= i < es.len() ==> dist(m, q, #[trigger] es[i].0) >= r.0
    &&& r.0 <= best.0
    &&& (r == best || (r.0 < best.0 && exists|i: int|
        0 <= i < es.len() && dist(m, q, #[trigger] es[i].0) == r.0 && es[i].1 == r.1))
}

/// `r` is a nearest point of `es` to `q`: its distance is the least over `es`,
/// and some point of `es` at that distance carries `r`'s payload.
pub open spec fn is_nearest(m: Metric, q: Seq<i32>, es: Seq<Entry>, r: (u128, u64)) -> bool {
    &&& forall|i: int| 0 <= i < es.len() ==> dist(m, q, #[trigger] es[i].0) >= r.0
    &&& exists|i: int| 0 <= i < es.len() && dist(m, q, #[trigger] es[i].0) == r.0 && es[i].1 == r.1
}

proof fn lemma_improves_combine(
    m: Metric,
    q: Seq<i32>,
    e1: Seq<Entry>,
    e2: Seq<Entry>,
    b0: (u128, u64),
    b1: (u128, u64),
    b2: (u128, u64),
)
    requires
        improves_on(m, q, e1, b1, b0),
        improves_on(m, q, e2, b2, b1),
    ensures
        improves_on(m, q, e1 + e2, b2, b0),
        improves_on(m, q, e2 + e1, b2, b0),
{
    let a = e1 + e2;
    let b = e2 + e1;
    assert forall|i: int| 0 <= i < a.len() implies dist(m, q, #[trigger] a[i].0) >= b2.0 by {
        if i < e1.len() {
            assert(a[i] == e1[i]);
        } else {
            assert(a[i] == e2[i - e1.len()]);
        }
    }
    assert forall|i: int| 0 <= i < b.len() implies dist(m, q, #[trigger] b[i].0) >= b2.0 by {
        if i < e2.len() {
            assert(b[i] == e2[i]);
        } else {
            assert(b[i] == e1[i - e2.len()]);
        }
    }
    if b2 != b0 {
        if b2 == b1 {
            let i = choose|i: int| 0 <= i < e1.len() && dist(m, q, #[trigger] e1[i].0) == b1.0 && e1[i].1 == b1.1;
            assert(a[i] == e1[i]);
            assert(b[i + e2.len()] == e1[i]);
        } else {
            let i = choose|i: int| 0 <= i < e2.len() && dist(m, q, #[trigger] e2[i].0) == b2.0 && e2[i].1 == b2.1;
            assert(a[i + e1.len()] == e2[i]);
            assert(b[i] == e2[i]);
        }
    }
}

impl<const K: usize, const B: usize> KdTree<K, B> {
    /// Every point of the child of the stem at `idx` on the far side of the
    /// split from `q` is at least the split's one-axis contribution away.
    proof fn lemma_far_child(&self, idx: u32, axis: nat, m: Metric, q: Seq<i32>, far: u32)
        requires
            is_stem_index(idx),
            self.wf_node(idx, axis),
            q.len() == K,
            far == (if q[axis as int] < self.stems[idx as int].split_val {
                self.stems[idx as int].right
            } else {
                self.stems[idx as int].left
            }),
        ensures
            forall|i: int| 0 <= i < self.entries(far).len() ==>
                dist(m, q, #[trigger] self.entries(far)[i].0)
                    >= axis_dist(m, q[axis as int] as int, self.stems[idx as int].split_val as int),
    {
        let s = self.stems[idx as int];
        let next = axis_at_depth(axis + 1, K as nat);
        self.lemma_entries_dim(far, next);
        assert forall|i: int| 0 <= i < self.entries(far).len() implies
            dist(m, q, #[trigger] self.entries(far)[i].0)
                >= axis_dist(m, q[axis as int] as int, s.split_val as int) by {
            lemma_far_side_bound(m, q, self.entries(far)[i].0, axis as int, s.split_val);
        }
    }

    /// Finds the indexed point nearest to `query`, returned as its distance
    /// and payload. On a tree without points the result is `(u128::MAX, 0)`.
    pub fn nearest_one(&self, query: &[i32; K], metric: Metric) -> (r: (u128, u64))
        requires
            self.wf(),
        ensures
            self.all_entries().len() == 0 ==> r == (u128::MAX, 0u64),
            self.all_entries().len() > 0 ==> is_nearest(metric, query@, self.all_entries(), r),
    {
        let r = self.nearest_one_recurse(query, metric, self.root_index, 0, 0, u128::MAX);
        proof {
            let es = self.all_entries();
            if es.len() > 0 {
                self.lemma_entries_dim(self.root_index, 0);
                lemma_dist_range(metric, query@, es[0].0);
                assert(dist(metric, query@, es[0].0) >= r.0);
            }
        }
        r
    }

    fn nearest_one_recurse(
        &self,
        query: &[i32; K],
        metric: Metric,
        curr_node_idx: u32,
        split_dim: usize,
        best_item: u64,
        best_dist: u128,
    ) -> (r: (u128, u64))
        requires
            self.wf_node(curr_node_idx, split_dim as nat),
            split_dim < K,
        ensures
            improves_on(metric, query@, self.entries(curr_node_idx), r, (best_dist, best_item)),
        decreases self.rank(curr_node_idx),
    {
        let mut best_item = best_item;
        let mut best_dist = best_dist;
        if curr_node_idx < LEAF_OFFSET {
            let node = self.stems[index_to_usize(curr_node_idx)];
            let query_side = query[split_dim] < node.split_val;
            let (closer, further) = if query_side {
                (node.left, node.right)
            } else {
                (node.right, node.left)
            };
            let next_split_dim = (split_dim + 1) % K;
            let ghost b0 = (best_dist, best_item);
            proof {
                assert(next_split_dim as nat == axis_at_depth(split_dim as nat + 1, K as nat));
            }
            let (child_dist, child_item) = self.nearest_one_recurse(
                query,
                metric,
                closer,
                next_split_dim,
                best_item,
                best_dist,
            );
            if child_dist < best_dist {
                best_dist = child_dist;
                best_item = child_item;
            }
            let ghost b1 = (best_dist, best_item);
            let bound = dist1(metric, query[split_dim] as i64, node.split_val as i64);
            if bound <= best_dist {
                let (child_dist, child_item) = self.nearest_one_recurse(
                    query,
                    metric,
                    further,
                    next_split_dim,
                    best_item,
                    best_dist,
                );
                if child_dist < best_dist {
                    best_dist = child_dist;
                    best_item = child_item;
                }
            } else {
                proof {
                    self.lemma_far_child(curr_node_idx, split_dim as nat, metric, query@, further);
                    assert(improves_on(metric, query@, self.entries(further), b1, b1));
                }
            }
            proof {
                lemma_improves_combine(
                    metric,
                    query@,
                    self.entries(closer),
                    self.entries(further),
                    b0,
                    b1,
                    (best_dist, best_item),
                );
            }
        } else {
            let leaf_node = &self.leaves[index_to_usize(curr_node_idx - LEAF_OFFSET)];
            Self::search_content_for_best(query, metric, &mut best_item, &mut best_dist, leaf_node);
        }
        (best_dist, best_item)
    }

    /// Scans the live entries of a leaf, keeping the first strictly closer one.
    fn search_content_for_best(
        query: &[i32; K],
        metric: Metric,
        best_item: &mut u64,
        best_dist: &mut u128,
        leaf_node: &LeafNode<K, B>,
    )
        requires
            leaf_node.size <= B,
        ensures
            improves_on(
                metric,
                query@,
                leaf_entries(*leaf_node),
                (*final(best_dist), *final(best_item)),
                (*old(best_dist), *old(best_item)),
            ),
    {
        let ghost b0 = (*best_dist, *best_item);
        let ghost es = leaf_entries(*leaf_node);
        let size = index_to_usize(leaf_node.size);
        let mut idx: usize = 0;
        while idx < size
            invariant
                size == leaf_node.size,
                size <= B,
                idx <= size,
                es == leaf_entries(*leaf_node),
                improves_on(metric, query@, es.take(idx as int), (*best_dist, *best_item), b0),
            decreases size - idx,
        {
            let ghost b1 = (*best_dist, *best_item);
            let d = distance(metric, query, &leaf_node.content_points[idx]);
            if d < *best_dist {
                *best_dist = d;
                *best_item = leaf_node.content_items[idx];
            }
            proof {
                let one = seq![es[idx as int]];
                assert(one[0] == es[idx as int]);
                assert(es[idx as int].0 == leaf_node.content_points[idx as int]@);
                assert(es[idx as int].1 == leaf_node.content_items[idx as int]);
                assert(dist(metric, query@, one[0].0) == d);
                assert(improves_on(metric, query@, one, (*best_dist, *best_item), b1));
                lemma_improves_combine(metric, query@, es.take(idx as int), one, b0, b1, (*best_dist, *best_item));
                assert(es.take(idx as int) + one =~= es.take(idx + 1));
            }
            idx = idx + 1;
        }
        proof {
            assert(es.take(size as int) =~= es);
        }
    }
}

/// The points of `es` strictly closer to `q` than `radius`, each as its
/// distance and payload, in the order of `es`.
pub open spec fn within_radius(m: Metric, q: Seq<i32>, radius: int, es: Seq<Entry>) -> Seq<(u128, u64)>
    decreases es.len(),
{
    if es.len() == 0 {
        Seq::empty()
    } else {
        let rest = within_radius(m, q, radius, es.drop_last());
        let d = dist(m, q, es.last().0);
        if d < radius {
            rest.push((d as u128, es.last().1))
        } else {
            rest
        }
    }
}

/// Every candidate within the radius is strictly closer than the radius.
pub proof fn lemma_within_radius_below(m: Metric, q: Seq<i32>, radius: int, es: Seq<Entry>)
    requires
        radius <= u128::MAX,
    ensures
        forall|i: int| 0 <= i < within_radius(m, q, radius, es).len()
            ==> (#[trigger] within_radius(m, q, radius, es)[i]).0 < radius,
    decreases es.len(),
{
    if es.len() > 0 {
        lemma_within_radius_below(m, q, radius, es.drop_last());
        crate::distance::lemma_dist_upto_nonneg(m, q, es.last().0, q.len());
        let rest = within_radius(m, q, radius, es.drop_last());
        let w = within_radius(m, q, radius, es);
        assert forall|i: int| 0 <= i < w.len() implies (#[trigger] w[i]).0 < radius by {
            if i < rest.len() {
                assert(w[i] == rest[i]);
            }
        }
    }
}

/// Nearest-point searches agree on the distance: any two results that are
/// each a nearest point of the same points to the same query have equal
/// distances, so repeating a query gives the same distance.
pub proof fn lemma_nearest_distance_unique(m: Metric, q: Seq<i32>, es: Seq<Entry>, r1: (u128, u64), r2: (u128, u64))
    requires
        is_nearest(m, q, es, r1),
        is_nearest(m, q, es, r2),
    ensures
        r1.0 == r2.0,
{
    let i = choose|i: int| 0 <= i < es.len() && dist(m, q, #[trigger] es[i].0) == r1.0 && es[i].1 == r1.1;
    let j = choose|j: int| 0 <= j < es.len() && dist(m, q, #[trigger] es[j].0) == r2.0 && es[j].1 == r2.1;
    assert(dist(m, q, es[j].0) >= r1.0);
    assert(dist(m, q, es[i].0) >= r2.0);
}

/// The split axis advances by one, wrapping at `k`, from each depth to the
/// next, whatever the data.
pub proof fn lemma_axis_cycles(depth: nat, k: nat)
    requires
        k > 0,
    ensures
        axis_at_depth(depth, k) == depth % k,
        axis_at_depth(depth, k) < k,
        axis_at_depth(depth + 1, k) as int == (axis_at_depth(depth, k) as int + 1) % (k as int),
{
    let d = depth as int;
    let kk = k as int;
    vstd::arithmetic::div_mod::lemma_add_mod_noop(d, 1, kk);
    if k == 1 {
        assert((d + 1) % kk == 0) by (nonlinear_arith) requires kk == 1;
        assert(((d % kk) + 1) % kk == 0) by (nonlinear_arith) requires kk == 1;
    } else {
        vstd::arithmetic::div_mod::lemma_small_mod(1, k);
    }
}

/// Selecting within the radius distributes over concatenation.
pub proof fn lemma_within_radius_concat(m: Metric, q: Seq<i32>, radius: int, a: Seq<Entry>, b: Seq<Entry>)
    ensures
        within_radius(m, q, radius, a + b) == within_radius(m, q, radius, a) + within_radius(m, q, radius, b),
    decreases b.len(),
{
    if b.len() == 0 {
        assert(a + b =~= a);
        assert(within_radius(m, q, radius, a) + within_radius(m, q, radius, b) =~= within_radius(m, q, radius, a));
    } else {
        lemma_within_radius_concat(m, q, radius, a, b.drop_last());
        assert((a + b).drop_last() =~= a + b.drop_last());
        assert((a + b).last() == b.last());
        let wa = within_radius(m, q, radius, a);
        let wb = within_radius(m, q, radius, b.drop_last());
        let d = dist(m, q, b.last().0);
        if d < radius {
            assert((wa + wb).push((d as u128, b.last().1)) =~= wa + wb.push((d as u128, b.last().1)));
        }
    }
}

proof fn lemma_empty_to_multiset()
    ensures
        Seq::<(u128, u64)>::empty().to_multiset() =~= Multiset::empty(),
{
    let e = Seq::<(u128, u64)>::empty();
    e.to_multiset_ensures();
    vstd::multiset::lemma_multiset_empty_len(e.to_multiset());
}

/// Points all at least the radius away contribute nothing.
pub proof fn lemma_within_radius_none(m: Metric, q: Seq<i32>, radius: int, es: Seq<Entry>)
    requires
        forall|i: int| 0 <= i < es.len() ==> dist(m, q, #[trigger] es[i].0) >= radius,
    ensures
        within_radius(m, q, radius, es) == Seq::<(u128, u64)>::empty(),
    decreases es.len(),
{
    if es.len() > 0 {
        assert(dist(m, q, es[es.len() - 1].0) >= radius);
        lemma_within_radius_none(m, q, radius, es.drop_last());
    }
}

impl<const K: usize, const B: usize> KdTree<K, B> {
    /// Collects every indexed point strictly closer to `query` than `radius`,
    /// as distance and payload, in no particular order.
    pub fn within_unsorted(&self, query: &[i32; K], radius: u128, metric: Metric) -> (r: Vec<(u128, u64)>)
        requires
            self.wf(),
        ensures
            r@.to_multiset() == within_radius(metric, query@, radius as int, self.all_entries()).to_multiset(),
            forall|i: int| 0 <= i < r@.len() ==> (#[trigger] r@[i]).0 < radius,
    {
        let mut matching_items: Vec<(u128, u64)> = Vec::new();
        self.within_unsorted_recurse(query, radius, metric, self.root_index, 0, &mut matching_items);
        proof {
            broadcast use vstd::multiset::group_multiset_axioms;
            lemma_empty_to_multiset();
            let w = within_radius(metric, query@, radius as int, self.all_entries());
            assert(Multiset::<(u128, u64)>::empty().add(w.to_multiset()) =~= w.to_multiset());
            lemma_within_radius_below(metric, query@, radius as int, self.all_entries());
            assert forall|i: int| 0 <= i < matching_items@.len() implies (#[trigger] matching_items@[i]).0 < radius by {
                assert(matching_items@.to_multiset() == w.to_multiset());
                matching_items@.to_multiset_ensures();
                w.to_multiset_ensures();
                assert(matching_items@.to_multiset().count(matching_items@[i]) > 0);
                assert(w.to_multiset().count(matching_items@[i]) > 0);
                assert(matching_items@.contains(matching_items@[i]));
                assert(w.contains(matching_items@[i]));
                let j = choose|j: int| 0 <= j < w.len() && w[j] == matching_items@[i];
                assert(w[j].0 < radius);
            }
        }
        matching_items
    }

    fn within_unsorted_recurse(
        &self,
        query: &[i32; K],
        radius: u128,
        metric: Metric,
        curr_node_idx: u32,
        split_dim: usize,
        matching_items: &mut Vec<(u128, u64)>,
    )
        requires
            self.wf_node(curr_node_idx, split_dim as nat),
            split_dim < K,
        ensures
            final(matching_items)@.to_multiset() == old(matching_items)@.to_multiset().add(
                within_radius(metric, query@, radius as int, self.entries(curr_node_idx)).to_multiset(),
            ),
        decreases self.rank(curr_node_idx),
    {
        broadcast use vstd::multiset::group_multiset_axioms;
        let ghost m0 = matching_items@;
        if curr_node_idx < LEAF_OFFSET {
            let node = self.stems[index_to_usize(curr_node_idx)];
            let (closer, further) = if query[split_dim] < node.split_val {
                (node.left, node.right)
            } else {
                (node.right, node.left)
            };
            let next_split_dim = (split_dim + 1) % K;
            proof {
                assert(next_split_dim as nat == axis_at_depth(split_dim as nat + 1, K as nat));
            }
            self.within_unsorted_recurse(query, radius, metric, closer, next_split_dim, matching_items);
            let ghost m1 = matching_items@;
            let bound = dist1(metric, query[split_dim] as i64, node.split_val as i64);
            if bound <= radius {
                self.within_unsorted_recurse(query, radius, metric, further, next_split_dim, matching_items);
            } else {
                proof {
                    self.lemma_far_child(curr_node_idx, split_dim as nat, metric, query@, further);
                    lemma_within_radius_none(metric, query@, radius as int, self.entries(further));
                    lemma_empty_to_multiset();
                    assert(within_radius(metric, query@, radius as int, self.entries(further)).to_multiset()
                        =~= Multiset::empty());
                    assert(m1.to_multiset().add(Multiset::empty()) =~= m1.to_multiset());
                }
            }
            proof {
                let wl = within_radius(metric, query@, radius as int, self.entries(node.left));
                let wr = within_radius(metric, query@, radius as int, self.entries(node.right));
                lemma_within_radius_concat(metric, query@, radius as int, self.entries(node.left), self.entries(node.right));
                lemma_multiset_commutative(wl, wr);
                assert(self.entries(curr_node_idx) == self.entries(node.left) + self.entries(node.right));
                assert(m0.to_multiset().add(wl.to_multiset()).add(wr.to_multiset())
                    =~= m0.to_multiset().add(wl.to_multiset().add(wr.to_multiset())));
                assert(m0.to_multiset().add(wr.to_multiset()).add(wl.to_multiset())
                    =~= m0.to_multiset().add(wl.to_multiset().add(wr.to_multiset())));
            }
        } else {
            let leaf_node = &self.leaves[index_to_usize(curr_node_idx - LEAF_OFFSET)];
            let ghost es = leaf_entries(*leaf_node);
            let size = index_to_usize(leaf_node.size);
            let mut idx: usize = 0;
            while idx < size
                invariant
                    size == leaf_node.size,
                    size <= B,
                    idx <= size,
                    es == leaf_entries(*leaf_node),
                    matching_items@ == m0 + within_radius(metric, query@, radius as int, es.take(idx as int)),
                decreases size - idx,
            {
                let d = distance(metric, query, &leaf_node.content_points[idx]);
                proof {
                    assert(es.take(idx + 1).drop_last() =~= es.take(idx as int));
                    assert(es.take(idx + 1).last() == es[idx as int]);
                    assert(es[idx as int].0 == leaf_node.content_points[idx as int]@);
                }
                if d < radius {
                    matching_items.push((d, leaf_node.content_items[idx]));
                }
                idx = idx + 1;
            }
            proof {
                assert(es.take(size as int) =~= es);
                lemma_multiset_commutative(m0, within_radius(metric, query@, radius as int, es));
            }
        }
    }
}

} // verus!
