//! The implicit tree layout: split values in a flat array where the stem at
//! index `i` has its children at `2 * i` and `2 * i + 1`, and leaves addressed
//! by the path of branch choices that reaches them.
//!
//! The capped radius search keeps, per axis, the offset from the query to the
//! nearest split it crossed on that axis, and a running lower bound `rd` on
//! the distance to the current subtree, updated incrementally.
use vstd::prelude::*;
use crate::distance::{Metric, abs_diff, axis_dist, axis_bound, dist, dist_upto, dist1, distance, lemma_axis_dist_monotonic};
use crate::kdtree::{
    LeafNode, Entry, leaf_entries, within_radius, lemma_within_radius_concat, lemma_within_radius_none,
    lemma_within_radius_below,
};
use crate::result_collection::{
    NearestNeighbour, ResultCollection, BinaryHeap, BoundedSortedVec, added, ascending, worst, nn_lt, nn_le,
    lemma_max_exists,
};

verus! {

broadcast use {vstd::seq_lib::group_to_multiset_ensures, vstd::multiset::group_multiset_axioms};

/// Up to this many requested items, a sorted query keeps its candidates in a
/// sorted vector rather than a heap.
pub const MAX_VEC_RESULT_SIZE: usize = 20;

/// A read-only k-d tree in the implicit layout. `stems[0]` is unused and the
/// root is `stems[1]`; stems at depth `d` split on axis `d % K`. When `stems`
/// is empty the tree is the single leaf `leaves[0]`.
pub struct ImmutableKdTree<const K: usize, const B: usize> {
    pub stems: Vec<i32>,
    pub leaves: Vec<LeafNode<K, B>>,
    pub max_stem_level: usize,
}

/// Distance from `q` to the closed interval `[lo, hi]`.
pub open spec fn gap(q: int, lo: int, hi: int) -> int {
    if q < lo {
        lo - q
    } else if q > hi {
        q - hi
    } else {
        0
    }
}

/// `p` lies in the box `lo[a] <= p[a] < hi[a]`.
pub open spec fn in_region(p: Seq<i32>, lo: Seq<int>, hi: Seq<int>) -> bool {
    forall|a: int| 0 <= a < p.len() ==> lo[a] <= #[trigger] p[a] < hi[a]
}

/// The lower corner of the box that holds every point.
pub open spec fn unbounded_lo(k: nat) -> Seq<int> {
    Seq::new(k, |i: int| i32::MIN as int)
}

/// The upper corner (exclusive) of the box that holds every point.
pub open spec fn unbounded_hi(k: nat) -> Seq<int> {
    Seq::new(k, |i: int| i32::MAX as int + 1)
}

/// What the per-axis offsets add up to under the metric, over the first `n` axes.
pub open spec fn off_sum(m: Metric, off: Seq<u32>, n: nat) -> int
    decreases n,
{
    if n == 0 {
        0
    } else {
        off_sum(m, off, (n - 1) as nat) + axis_dist(m, off[n - 1] as int, 0)
    }
}

/// The smaller of two lengths.
pub open spec fn min_len(a: nat, b: nat) -> nat {
    if a < b { a } else { b }
}

/// `y` was offered (it is in `old` or `w`) more often than `new` keeps it.
pub open spec fn dropped(old: Seq<NearestNeighbour>, w: Seq<NearestNeighbour>, new: Seq<NearestNeighbour>, y: NearestNeighbour) -> bool {
    old.to_multiset().add(w.to_multiset()).count(y) > new.to_multiset().count(y)
}

/// `new` is what a collection bounded by `bound` may hold after starting from
/// `old` and being offered the candidates `w` (some of them possibly skipped
/// as too far): it holds nothing beyond `old` and `w`, and exactly those when
/// they fit; it never shrinks, its worst candidate never grows once it is
/// full, and whatever was left out is no closer than its worst candidate.
pub open spec fn collected(
    old: Seq<NearestNeighbour>,
    bound: nat,
    w: Seq<NearestNeighbour>,
    new: Seq<NearestNeighbour>,
) -> bool {
    &&& new.to_multiset().subset_of(old.to_multiset().add(w.to_multiset()))
    &&& (old.len() + w.len() <= bound ==> new.to_multiset() == old.to_multiset().add(w.to_multiset()))
    &&& new.len() >= old.len()
    &&& new.len() == min_len(bound, old.len() + w.len())
    &&& (old.len() >= bound ==> nn_le(worst(new), worst(old)))
    &&& forall|y: NearestNeighbour| #[trigger] dropped(old, w, new, y) ==> new.len() >= bound && y.0 >= worst(new).0
}

proof fn lemma_collected_combine(
    m0: Seq<NearestNeighbour>,
    b: nat,
    wc: Seq<NearestNeighbour>,
    wf: Seq<NearestNeighbour>,
    m1: Seq<NearestNeighbour>,
    m2: Seq<NearestNeighbour>,
)
    requires
        0 < b,
        collected(m0, b, wc, m1),
        collected(m1, b, wf, m2),
        m1.len() <= b,
    ensures
        collected(m0, b, wc + wf, m2),
        collected(m0, b, wf + wc, m2),
{
    vstd::seq_lib::lemma_multiset_commutative(wc, wf);
    vstd::seq_lib::lemma_multiset_commutative(wf, wc);
    let a0 = m0.to_multiset();
    let c = wc.to_multiset();
    let f = wf.to_multiset();
    assert(a0.add(c).add(f) =~= a0.add(c.add(f)));
    assert(c.add(f) =~= f.add(c));
    if m0.len() + wc.len() + wf.len() <= b {
        assert(m1.to_multiset() == a0.add(c));
        assert(m1.to_multiset().len() == m1.len());
        assert(a0.add(c).len() == m0.len() + wc.len());
    }
    assert forall|y: NearestNeighbour| #[trigger] dropped(m0, wc + wf, m2, y) implies m2.len() >= b && y.0 >= worst(m2).0 by {
        if !dropped(m1, wf, m2, y) {
            assert(dropped(m0, wc, m1, y));
        }
    }
    assert forall|y: NearestNeighbour| #[trigger] dropped(m0, wf + wc, m2, y) implies m2.len() >= b && y.0 >= worst(m2).0 by {
        assert(dropped(m0, wc + wf, m2, y));
    }
}

proof fn lemma_collected_nothing(m: Seq<NearestNeighbour>, b: nat)
    requires
        m.len() <= b,
    ensures
        collected(m, b, Seq::empty(), m),
{
    let e = Seq::<NearestNeighbour>::empty();
    e.to_multiset_ensures();
    vstd::multiset::lemma_multiset_empty_len(e.to_multiset());
    assert(m.to_multiset().add(e.to_multiset()) =~= m.to_multiset());
}

/// A full collection passed over candidates that are all no closer than its
/// worst one.
proof fn lemma_collected_skipped(m: Seq<NearestNeighbour>, b: nat, w: Seq<NearestNeighbour>)
    requires
        0 < b,
        m.len() == b,
        forall|i: int| 0 <= i < w.len() ==> (#[trigger] w[i]).0 >= worst(m).0,
    ensures
        collected(m, b, w, m),
{
    w.to_multiset_ensures();
    assert(m.to_multiset().subset_of(m.to_multiset().add(w.to_multiset())));
    if m.len() + w.len() <= b {
        assert(w =~= Seq::<NearestNeighbour>::empty());
        lemma_collected_nothing(m, b);
    }
    assert forall|y: NearestNeighbour| #[trigger] dropped(m, w, m, y) implies m.len() >= b && y.0 >= worst(m).0 by {
        assert(w.to_multiset().count(y) > 0);
        assert(w.contains(y));
    }
}

/// One candidate `e` offered to a collection that so far holds `cur`.
proof fn lemma_collected_step(
    m0: Seq<NearestNeighbour>,
    b: nat,
    wi: Seq<NearestNeighbour>,
    cur: Seq<NearestNeighbour>,
    e: NearestNeighbour,
    new: Seq<NearestNeighbour>,
)
    requires
        0 < b,
        cur.len() <= b,
        new.len() <= b,
        collected(m0, b, wi, cur),
        added(cur, b, e, new),
    ensures
        collected(m0, b, wi.push(e), new),
{
    let a = m0.to_multiset();
    let big = a.add(wi.to_multiset());
    assert(wi.push(e).to_multiset() =~= wi.to_multiset().insert(e));
    assert(a.add(wi.to_multiset().insert(e)) =~= big.insert(e));
    let c = cur.to_multiset();
    let n = new.to_multiset();
    cur.to_multiset_ensures();
    new.to_multiset_ensures();
    if m0.len() + wi.len() + 1 <= b {
        assert(c == big);
        assert(big.len() == m0.len() + wi.len());
        assert(cur.len() < b);
    }
    if cur.len() < b {
        assert(n == c.insert(e));
    } else {
        lemma_max_exists(cur);
        lemma_max_exists(new);
        let w = worst(cur);
        if nn_lt(e, w) {
            assert(c.count(w) > 0);
            assert(n == c.remove(w).insert(e));
        } else {
            assert(n == c);
        }
        assert(new.contains(worst(new)));
        assert(n.count(worst(new)) > 0);
        if worst(new) != e {
            assert(c.count(worst(new)) > 0);
            assert(cur.contains(worst(new)));
        }
        assert(nn_le(worst(new), w));
    }
    assert forall|v: NearestNeighbour| n.count(v) <= #[trigger] big.insert(e).count(v) by {
        assert(c.count(v) <= big.count(v));
    }
    assert forall|y: NearestNeighbour| #[trigger] dropped(m0, wi.push(e), new, y) implies new.len() >= b && y.0 >= worst(new).0 by {
        if dropped(m0, wi, cur, y) {
        } else {
            assert(cur.len() >= b);
        }
    }
}

proof fn lemma_off_sum_range(m: Metric, off: Seq<u32>, n: nat)
    requires
        n <= off.len(),
    ensures
        0 <= off_sum(m, off, n) <= n * (axis_bound() - 1),
    decreases n,
{
    if n > 0 {
        lemma_off_sum_range(m, off, (n - 1) as nat);
        let x = off[n - 1] as int;
        assert(0 <= x < 0x1_0000_0000);
        assert(0 <= x * x < 0x1_0000_0000_0000_0000) by (nonlinear_arith)
            requires 0 <= x < 0x1_0000_0000;
        assert((n - 1) * (axis_bound() - 1) + (axis_bound() - 1) == n * (axis_bound() - 1))
            by (nonlinear_arith);
    }
}

proof fn lemma_off_sum_update(m: Metric, off: Seq<u32>, d: int, v: u32, n: nat)
    requires
        0 <= d < off.len(),
        n <= off.len(),
    ensures
        off_sum(m, off.update(d, v), n) == off_sum(m, off, n) + (if d < n {
            axis_dist(m, v as int, 0) - axis_dist(m, off[d] as int, 0)
        } else {
            0
        }),
    decreases n,
{
    if n > 0 {
        lemma_off_sum_update(m, off, d, v, (n - 1) as nat);
    }
}

/// Offsets that bound each axis's coordinate gap bound the whole distance.
proof fn lemma_off_sum_le_dist(m: Metric, off: Seq<u32>, q: Seq<i32>, p: Seq<i32>, n: nat)
    requires
        n <= q.len(),
        n <= p.len(),
        n <= off.len(),
        forall|a: int| 0 <= a < n ==> #[trigger] off[a] <= abs_diff(q[a] as int, p[a] as int),
    ensures
        off_sum(m, off, n) <= dist_upto(m, q, p, n),
    decreases n,
{
    if n > 0 {
        lemma_off_sum_le_dist(m, off, q, p, (n - 1) as nat);
        let a = n - 1;
        assert(off[a] <= abs_diff(q[a] as int, p[a] as int));
        lemma_axis_dist_monotonic(m, off[a] as int, 0, q[a] as int, p[a] as int);
    }
}

/// Moving an offset up from `old` to `new` raises the offsets' sum by at least
/// the one-axis contribution between them.
proof fn lemma_offset_step(m: Metric, new: int, old: int)
    requires
        0 <= old <= new,
    ensures
        axis_dist(m, new, old) <= axis_dist(m, new, 0) - axis_dist(m, old, 0),
{
    if m == Metric::SquaredEuclidean {
        assert((new - old) * (new - old) <= new * new - old * old) by (nonlinear_arith)
            requires 0 <= old <= new;
    }
}

proof fn lemma_next_axis(level: int, k: int)
    requires
        0 <= level,
        0 < k,
    ensures
        ((level % k) + 1) % k == (level + 1) % k,
{
    vstd::arithmetic::div_mod::lemma_add_mod_noop(level, 1, k);
    if k == 1 {
        vstd::arithmetic::div_mod::lemma_mod_self_0(1);
        assert(((level % k) + 1) % k == 0) by (nonlinear_arith) requires k == 1;
        assert((level + 1) % k == 0) by (nonlinear_arith) requires k == 1;
    } else {
        vstd::arithmetic::div_mod::lemma_small_mod(1, k as nat);
    }
}

impl<const K: usize, const B: usize> ImmutableKdTree<K, B> {
    /// Recursion stops at a leaf below the deepest stem level, or at once in
    /// a tree without stems.
    pub open spec fn is_leaf_level(&self, level: nat) -> bool {
        level > self.max_stem_level || self.stems.len() == 0
    }

    /// The points below the node reached at depth `level` through stem
    /// `stem_idx`, whose leaf (if it is one) is `leaf_idx`; left subtree first.
    pub open spec fn entries_at(&self, stem_idx: nat, level: nat, leaf_idx: nat) -> Seq<Entry>
        decreases self.max_stem_level + 1 - level,
    {
        if self.is_leaf_level(level) {
            if leaf_idx < self.leaves.len() {
                leaf_entries(self.leaves[leaf_idx as int])
            } else {
                Seq::empty()
            }
        } else {
            self.entries_at(2 * stem_idx, level + 1, 2 * leaf_idx)
                + self.entries_at(2 * stem_idx + 1, level + 1, 2 * leaf_idx + 1)
        }
    }

    /// The subtree at the node is well formed within the box `[lo, hi)`:
    /// each split value lies in the box (closed) on its axis, and cuts it in
    /// two for its children (left below the split, right at or above it);
    /// each leaf holds at most `B` live points, all inside its box.
    pub open spec fn wf_sub(&self, stem_idx: nat, level: nat, leaf_idx: nat, lo: Seq<int>, hi: Seq<int>) -> bool
        decreases self.max_stem_level + 1 - level,
    {
        if self.is_leaf_level(level) {
            &&& leaf_idx < self.leaves.len()
            &&& self.leaves[leaf_idx as int].size <= B
            &&& forall|i: int| 0 <= i < self.leaves[leaf_idx as int].size ==>
                in_region(#[trigger] self.leaves[leaf_idx as int].content_points[i]@, lo, hi)
        } else {
            &&& stem_idx < self.stems.len()
            &&& ({
                let s = self.stems[stem_idx as int] as int;
                let d = level % (K as nat);
                &&& lo[d as int] <= s <= hi[d as int]
                &&& self.wf_sub(2 * stem_idx, level + 1, 2 * leaf_idx, lo, hi.update(d as int, s))
                &&& self.wf_sub(2 * stem_idx + 1, level + 1, 2 * leaf_idx + 1, lo.update(d as int, s), hi)
            })
        }
    }

    /// The whole tree is well formed.
    pub open spec fn wf(&self) -> bool {
        &&& K > 0
        &&& self.stems.len() < usize::MAX / 2
        &&& self.max_stem_level < usize::MAX
        &&& self.wf_sub(1, 0, 0, unbounded_lo(K as nat), unbounded_hi(K as nat))
    }

    /// The points of the whole tree.
    pub open spec fn all_entries(&self) -> Seq<Entry> {
        self.entries_at(1, 0, 0)
    }

    proof fn lemma_entries_in_region(&self, stem_idx: nat, level: nat, leaf_idx: nat, lo: Seq<int>, hi: Seq<int>)
        requires
            K > 0,
            lo.len() == K,
            hi.len() == K,
            self.wf_sub(stem_idx, level, leaf_idx, lo, hi),
        ensures
            forall|i: int| 0 <= i < self.entries_at(stem_idx, level, leaf_idx).len() ==>
                in_region(#[trigger] self.entries_at(stem_idx, level, leaf_idx)[i].0, lo, hi)
                && self.entries_at(stem_idx, level, leaf_idx)[i].0.len() == K,
        decreases self.max_stem_level + 1 - level,
    {
        let es = self.entries_at(stem_idx, level, leaf_idx);
        if self.is_leaf_level(level) {
            let leaf = self.leaves[leaf_idx as int];
            assert forall|i: int| 0 <= i < es.len() implies in_region(#[trigger] es[i].0, lo, hi) && es[i].0.len() == K by {
                assert(es[i].0 == leaf.content_points[i]@);
            }
        } else {
            let s = self.stems[stem_idx as int] as int;
            let d = (level % (K as nat)) as int;
            let l = self.entries_at(2 * stem_idx, level + 1, 2 * leaf_idx);
            let r = self.entries_at(2 * stem_idx + 1, level + 1, 2 * leaf_idx + 1);
            self.lemma_entries_in_region(2 * stem_idx, level + 1, 2 * leaf_idx, lo, hi.update(d, s));
            self.lemma_entries_in_region(2 * stem_idx + 1, level + 1, 2 * leaf_idx + 1, lo.update(d, s), hi);
            assert forall|i: int| 0 <= i < es.len() implies in_region(#[trigger] es[i].0, lo, hi) && es[i].0.len() == K by {
                if i < l.len() {
                    assert(es[i] == l[i]);
                    let p = l[i].0;
                    assert(in_region(p, lo, hi.update(d, s)));
                    assert forall|a: int| 0 <= a < p.len() implies lo[a] <= #[trigger] p[a] < hi[a] by {
                        assert(lo[a] <= p[a] < hi.update(d, s)[a]);
                    }
                } else {
                    assert(es[i] == r[i - l.len()]);
                    let p = r[i - l.len()].0;
                    assert(in_region(p, lo.update(d, s), hi));
                    assert forall|a: int| 0 <= a < p.len() implies lo[a] <= #[trigger] p[a] < hi[a] by {
                        assert(lo.update(d, s)[a] <= p[a] < hi[a]);
                    }
                }
            }
        }
    }

    /// Where the offsets bound each axis's gap to the box, every point of the
    /// subtree is at least the offsets' sum away from `q`.
    proof fn lemma_subtree_bound(
        &self,
        m: Metric,
        q: Seq<i32>,
        off: Seq<u32>,
        stem_idx: nat,
        level: nat,
        leaf_idx: nat,
        lo: Seq<int>,
        hi: Seq<int>,
    )
        requires
            K > 0,
            q.len() == K,
            off.len() == K,
            lo.len() == K,
            hi.len() == K,
            self.wf_sub(stem_idx, level, leaf_idx, lo, hi),
            forall|a: int| 0 <= a < K ==> #[trigger] off[a] <= gap(q[a] as int, lo[a], hi[a]),
        ensures
            forall|i: int| 0 <= i < self.entries_at(stem_idx, level, leaf_idx).len() ==>
                dist(m, q, #[trigger] self.entries_at(stem_idx, level, leaf_idx)[i].0) >= off_sum(m, off, K as nat),
    {
        let es = self.entries_at(stem_idx, level, leaf_idx);
        self.lemma_entries_in_region(stem_idx, level, leaf_idx, lo, hi);
        assert forall|i: int| 0 <= i < es.len() implies dist(m, q, #[trigger] es[i].0) >= off_sum(m, off, K as nat) by {
            let p = es[i].0;
            assert(in_region(p, lo, hi));
            assert forall|a: int| 0 <= a < K implies #[trigger] off[a] <= abs_diff(q[a] as int, p[a] as int) by {
                assert(off[a] <= gap(q[a] as int, lo[a], hi[a]));
                assert(lo[a] <= p[a] < hi[a]);
            }
            lemma_off_sum_le_dist(m, off, q, p, K as nat);
        }
    }
}

impl<const K: usize, const B: usize> ImmutableKdTree<K, B> {
    /// Offers each live point of a leaf strictly inside the radius.
    fn search_leaf_for_nearest_n_within<R: ResultCollection>(
        &self,
        query: &[i32; K],
        radius: u128,
        metric: Metric,
        results: &mut R,
        leaf_idx: usize,
    )
        requires
            leaf_idx < self.leaves.len(),
            self.leaves[leaf_idx as int].size <= B,
            old(results).inv(),
        ensures
            final(results).inv(),
            final(results).bound() == old(results).bound(),
            collected(
                old(results).results(),
                old(results).bound(),
                within_radius(metric, query@, radius as int, leaf_entries(self.leaves[leaf_idx as int])),
                final(results).results(),
            ),
    {
        let leaf = &self.leaves[leaf_idx];
        let ghost es = leaf_entries(*leaf);
        let ghost m0 = results.results();
        let ghost b = results.bound();
        let size = leaf.size as usize;
        proof {
            results.lemma_inv();
            lemma_collected_nothing(m0, b);
            assert(es.take(0) =~= Seq::<Entry>::empty());
        }
        let mut idx: usize = 0;
        while idx < size
            invariant
                size == leaf.size,
                size <= B,
                idx <= size,
                es == leaf_entries(*leaf),
                results.inv(),
                results.bound() == b,
                collected(m0, b, within_radius(metric, query@, radius as int, es.take(idx as int)), results.results()),
            decreases size - idx,
        {
            let d = distance(metric, query, &leaf.content_points[idx]);
            let ghost cur = results.results();
            proof {
                assert(es.take(idx + 1).drop_last() =~= es.take(idx as int));
                assert(es.take(idx + 1).last() == es[idx as int]);
                assert(es[idx as int].0 == leaf.content_points[idx as int]@);
                results.lemma_inv();
            }
            if d < radius {
                results.add((d, leaf.content_items[idx]));
                proof {
                    results.lemma_inv();
                    lemma_collected_step(
                        m0,
                        b,
                        within_radius(metric, query@, radius as int, es.take(idx as int)),
                        cur,
                        (d, leaf.content_items[idx as int]),
                        results.results(),
                    );
                }
            }
            idx = idx + 1;
        }
        proof {
            assert(es.take(size as int) =~= es);
        }
    }

    #[verifier::rlimit(50)]
    fn nearest_n_within_recurse<R: ResultCollection>(
        &self,
        query: &[i32; K],
        radius: u128,
        metric: Metric,
        stem_idx: usize,
        split_dim: usize,
        matching_items: &mut R,
        off: &mut [u32; K],
        rd: u128,
        level: usize,
        leaf_idx: usize,
        lo: Ghost<Seq<int>>,
        hi: Ghost<Seq<int>>,
    )
        requires
            self.wf(),
            self.wf_sub(stem_idx as nat, level as nat, leaf_idx as nat, lo@, hi@),
            lo@.len() == K,
            hi@.len() == K,
            split_dim == level % K,
            level <= self.max_stem_level + 1,
            self.is_leaf_level(level as nat) || leaf_idx < stem_idx,
            old(matching_items).inv(),
            forall|a: int| 0 <= a < K ==> #[trigger] old(off)@[a] <= gap(query@[a] as int, lo@[a], hi@[a]),
            rd <= off_sum(metric, old(off)@, K as nat),
        ensures
            final(off)@ == old(off)@,
            final(matching_items).inv(),
            final(matching_items).bound() == old(matching_items).bound(),
            collected(
                old(matching_items).results(),
                old(matching_items).bound(),
                within_radius(metric, query@, radius as int, self.entries_at(stem_idx as nat, level as nat, leaf_idx as nat)),
                final(matching_items).results(),
            ),
        decreases self.max_stem_level + 1 - level,
    {
        if level > self.max_stem_level || self.stems.len() == 0 {
            self.search_leaf_for_nearest_n_within(query, radius, metric, matching_items, leaf_idx);
        } else {
            let ghost m0 = matching_items.results();
            let ghost b = matching_items.bound();
            let ghost off0 = off@;
            let ghost d = split_dim as int;
            let val = self.stems[stem_idx];
            let is_right_child = query[split_dim] >= val;
            let left_node_idx = stem_idx * 2;
            let left_leaf_idx = leaf_idx * 2;
            let (closer_node_idx, further_node_idx, closer_leaf_idx, further_leaf_idx) = if is_right_child {
                (left_node_idx + 1, left_node_idx, left_leaf_idx + 1, left_leaf_idx)
            } else {
                (left_node_idx, left_node_idx + 1, left_leaf_idx, left_leaf_idx + 1)
            };
            let ghost left_lo = lo@;
            let ghost left_hi = hi@.update(d, val as int);
            let ghost right_lo = lo@.update(d, val as int);
            let ghost right_hi = hi@;
            let ghost (closer_lo, closer_hi, further_lo, further_hi) = if is_right_child {
                (right_lo, right_hi, left_lo, left_hi)
            } else {
                (left_lo, left_hi, right_lo, right_hi)
            };
            let old_off = off[split_dim];
            let q = query[split_dim] as i64;
            let v = val as i64;
            let new_off: u32 = if q >= v { (q - v) as u32 } else { (v - q) as u32 };
            let next_split_dim = (split_dim + 1) % K;
            proof {
                lemma_next_axis(level as int, K as int);
                assert(query@[d] == query[split_dim as int]);
                assert forall|a: int| 0 <= a < K implies #[trigger] off@[a] <= gap(query@[a] as int, closer_lo[a], closer_hi[a]) by {
                    assert(off@[a] <= gap(query@[a] as int, lo@[a], hi@[a]));
                }
            }
            self.nearest_n_within_recurse(
                query,
                radius,
                metric,
                closer_node_idx,
                next_split_dim,
                matching_items,
                off,
                rd,
                level + 1,
                closer_leaf_idx,
                Ghost(closer_lo),
                Ghost(closer_hi),
            );
            let ghost m1 = matching_items.results();
            let ghost off1 = off0.update(d, new_off);
            proof {
                assert(old_off as int <= gap(query@[d] as int, lo@[d], hi@[d]));
                assert(old_off <= new_off);
                lemma_offset_step(metric, new_off as int, old_off as int);
                lemma_off_sum_update(metric, off0, d, new_off, K as nat);
                lemma_off_sum_range(metric, off1, K as nat);
                let n = K as int;
                assert(n * (axis_bound() - 1) < u128::MAX) by (nonlinear_arith)
                    requires n <= usize::MAX, usize::MAX <= 0xffff_ffff_ffff_ffff;
                assert forall|a: int| 0 <= a < K implies #[trigger] off1[a] <= gap(query@[a] as int, further_lo[a], further_hi[a]) by {
                    assert(off0[a] <= gap(query@[a] as int, lo@[a], hi@[a]));
                }
                lemma_within_radius_concat(
                    metric,
                    query@,
                    radius as int,
                    self.entries_at(2 * stem_idx as nat, level as nat + 1, 2 * leaf_idx as nat),
                    self.entries_at(2 * stem_idx as nat + 1, level as nat + 1, 2 * leaf_idx as nat + 1),
                );
                matching_items.lemma_inv();
            }
            let rd2 = rd + dist1(metric, new_off as i64, old_off as i64);
            let wc = Ghost(within_radius(metric, query@, radius as int,
                self.entries_at(closer_node_idx as nat, level as nat + 1, closer_leaf_idx as nat)));
            let wf = Ghost(within_radius(metric, query@, radius as int,
                self.entries_at(further_node_idx as nat, level as nat + 1, further_leaf_idx as nat)));
            if rd2 <= radius && rd2 < matching_items.max_dist() {
                off[split_dim] = new_off;
                proof {
                    assert(off@ == off1);
                }
                self.nearest_n_within_recurse(
                    query,
                    radius,
                    metric,
                    further_node_idx,
                    next_split_dim,
                    matching_items,
                    off,
                    rd2,
                    level + 1,
                    further_leaf_idx,
                    Ghost(further_lo),
                    Ghost(further_hi),
                );
                off[split_dim] = old_off;
                proof {
                    assert(off@ =~= off0);
                    lemma_collected_combine(m0, b, wc@, wf@, m1, matching_items.results());
                }
            } else {
                proof {
                    let fe = self.entries_at(further_node_idx as nat, level as nat + 1, further_leaf_idx as nat);
                    self.lemma_subtree_bound(metric, query@, off1, further_node_idx as nat, level as nat + 1,
                        further_leaf_idx as nat, further_lo, further_hi);
                    if rd2 > radius {
                        lemma_within_radius_none(metric, query@, radius as int, fe);
                        lemma_collected_nothing(m1, b);
                    } else {
                        assert(m1.len() == b);
                        lemma_within_radius_above(metric, query@, radius as int, fe, rd2 as int);
                        lemma_collected_skipped(m1, b, wf@);
                    }
                    lemma_collected_combine(m0, b, wc@, wf@, m1, m1);
                }
            }
        }
    }
}

/// Candidates drawn from points that are all at least `low` away carry a
/// distance of at least `low`.
proof fn lemma_within_radius_above(m: Metric, q: Seq<i32>, radius: int, es: Seq<Entry>, low: int)
    requires
        radius <= u128::MAX,
        forall|i: int| 0 <= i < es.len() ==> dist(m, q, #[trigger] es[i].0) >= low,
    ensures
        forall|i: int| 0 <= i < within_radius(m, q, radius, es).len()
            ==> (#[trigger] within_radius(m, q, radius, es)[i]).0 >= low,
    decreases es.len(),
{
    if es.len() > 0 {
        let init = es.drop_last();
        assert forall|i: int| 0 <= i < init.len() implies dist(m, q, #[trigger] init[i].0) >= low by {
            assert(init[i] == es[i]);
        }
        assert(dist(m, q, es[es.len() - 1].0) >= low);
        lemma_within_radius_above(m, q, radius, init, low);
        crate::distance::lemma_dist_upto_nonneg(m, q, es.last().0, q.len());
        let rest = within_radius(m, q, radius, init);
        let w = within_radius(m, q, radius, es);
        assert forall|i: int| 0 <= i < w.len() implies (#[trigger] w[i]).0 >= low by {
            if i < rest.len() {
                assert(w[i] == rest[i]);
            }
        }
    }
}

/// Candidates drawn from within the radius are strictly closer than it.
proof fn lemma_drawn_below(m: Metric, q: Seq<i32>, radius: u128, es: Seq<Entry>, r: Seq<NearestNeighbour>)
    requires
        r.to_multiset().subset_of(within_radius(m, q, radius as int, es).to_multiset()),
    ensures
        forall|i: int| 0 <= i < r.len() ==> (#[trigger] r[i]).0 < radius,
{
    let w = within_radius(m, q, radius as int, es);
    lemma_within_radius_below(m, q, radius as int, es);
    assert forall|i: int| 0 <= i < r.len() implies (#[trigger] r[i]).0 < radius by {
        assert(r.contains(r[i]));
        assert(r.to_multiset().count(r[i]) > 0);
        assert(w.to_multiset().count(r[i]) > 0);
        let j = choose|j: int| 0 <= j < w.len() && w[j] == r[i];
        assert(w[j].0 < radius);
    }
}

/// No candidate of `w` left out of `r` is closer than a candidate kept in `r`.
pub open spec fn keeps_nearest(r: Seq<NearestNeighbour>, w: Seq<NearestNeighbour>) -> bool {
    forall|x: NearestNeighbour, y: NearestNeighbour|
        #![trigger r.contains(x), w.to_multiset().count(y)]
        r.contains(x) && w.to_multiset().count(y) > r.to_multiset().count(y) ==> x.0 <= y.0
}

proof fn lemma_collected_from_empty(b: nat, w: Seq<NearestNeighbour>, r: Seq<NearestNeighbour>, out: Seq<NearestNeighbour>)
    requires
        collected(Seq::empty(), b, w, r),
        out.to_multiset() == r.to_multiset(),
    ensures
        out.to_multiset().subset_of(w.to_multiset()),
        w.len() <= b ==> out.to_multiset() == w.to_multiset(),
        out.len() == r.len(),
        out.len() == min_len(b, w.len()),
        keeps_nearest(out, w),
{
    let e = Seq::<NearestNeighbour>::empty();
    e.to_multiset_ensures();
    vstd::multiset::lemma_multiset_empty_len(e.to_multiset());
    assert(e.to_multiset().add(w.to_multiset()) =~= w.to_multiset());
    out.to_multiset_ensures();
    r.to_multiset_ensures();
    assert forall|x: NearestNeighbour, y: NearestNeighbour|
        #![trigger out.contains(x), w.to_multiset().count(y)]
        out.contains(x) && w.to_multiset().count(y) > out.to_multiset().count(y) implies x.0 <= y.0 by {
        assert(dropped(e, w, r, y));
        assert(r.to_multiset().count(x) > 0);
        assert(r.contains(x));
        lemma_max_exists(r);
        let i = choose|i: int| 0 <= i < r.len() && r[i] == x;
        assert(nn_le(r[i], worst(r)));
    }
}

impl<const K: usize, const B: usize> ImmutableKdTree<K, B> {
    /// The points strictly closer to `query` than `radius`, as distance and
    /// payload.
    pub open spec fn within_all(&self, m: Metric, query: Seq<i32>, radius: int) -> Seq<NearestNeighbour> {
        within_radius(m, query, radius, self.all_entries())
    }

    fn nearest_n_within_stub<R: ResultCollection>(&self, query: &[i32; K], dist: u128, metric: Metric, matching_items: &mut R)
        requires
            self.wf(),
            old(matching_items).inv(),
        ensures
            final(matching_items).inv(),
            final(matching_items).bound() == old(matching_items).bound(),
            collected(
                old(matching_items).results(),
                old(matching_items).bound(),
                self.within_all(metric, query@, dist as int),
                final(matching_items).results(),
            ),
    {
        let mut off: [u32; K] = [0u32; K];
        proof {
            lemma_off_sum_range(metric, off@, K as nat);
            assert forall|a: int| 0 <= a < K implies #[trigger] off@[a] <= gap(
                query@[a] as int,
                unbounded_lo(K as nat)[a],
                unbounded_hi(K as nat)[a],
            ) by {
                assert(off@[a] == 0);
            }
        }
        self.nearest_n_within_recurse(
            query,
            dist,
            metric,
            1,
            0,
            matching_items,
            &mut off,
            0,
            0,
            0,
            Ghost(unbounded_lo(K as nat)),
            Ghost(unbounded_hi(K as nat)),
        );
    }

    /// Up to `max_items` of the points strictly closer to `query` than
    /// `dist`, as distance and payload; in ascending order when `sorted`.
    /// When no more than `max_items` points qualify, all of them are returned.
    pub fn nearest_n_within(&self, query: &[i32; K], dist: u128, max_items: usize, sorted: bool, metric: Metric) -> (r: Vec<NearestNeighbour>)
        requires
            self.wf(),
            max_items > 0,
        ensures
            r@.len() <= max_items,
            sorted ==> ascending(r@),
            r@.len() == min_len(max_items as nat, self.within_all(metric, query@, dist as int).len()),
            forall|i: int| 0 <= i < r@.len() ==> (#[trigger] r@[i]).0 < dist,
            keeps_nearest(r@, self.within_all(metric, query@, dist as int)),
            r@.to_multiset().subset_of(self.within_all(metric, query@, dist as int).to_multiset()),
            self.within_all(metric, query@, dist as int).len() <= max_items
                ==> r@.to_multiset() == self.within_all(metric, query@, dist as int).to_multiset(),
    {
        let ghost w = self.within_all(metric, query@, dist as int);
        if max_items < usize::MAX {
            if sorted && max_items <= MAX_VEC_RESULT_SIZE {
                let mut items = BoundedSortedVec::new_with_capacity(max_items);
                self.nearest_n_within_stub(query, dist, metric, &mut items);
                proof {
                    items.lemma_inv();
                }
                let ghost res = items.results();
                let r = items.into_sorted_vec();
                proof {
                    lemma_collected_from_empty(max_items as nat, w, res, r@);
                    lemma_drawn_below(metric, query@, dist, self.all_entries(), r@);
                }
                r
            } else {
                let mut items = BinaryHeap::new_with_capacity(max_items);
                self.nearest_n_within_stub(query, dist, metric, &mut items);
                proof {
                    items.lemma_inv();
                }
                let ghost res = items.results();
                let r = if sorted {
                    items.into_sorted_vec()
                } else {
                    items.into_vec()
                };
                proof {
                    lemma_collected_from_empty(max_items as nat, w, res, r@);
                    lemma_drawn_below(metric, query@, dist, self.all_entries(), r@);
                }
                r
            }
        } else {
            let mut items: Vec<NearestNeighbour> = Vec::new();
            self.nearest_n_within_stub(query, dist, metric, &mut items);
            let ghost res = items@;
            let r = if sorted {
                items.into_sorted_vec()
            } else {
                items
            };
            proof {
                lemma_collected_from_empty(usize::MAX as nat + 1, w, res, r@);
                lemma_drawn_below(metric, query@, dist, self.all_entries(), r@);
            }
            // a length is a usize, so the result is within `max_items == usize::MAX`
            let _ = r.len();
            r
        }
    }

    /// All points strictly closer to `query` than `dist`, in ascending order.
    pub fn within(&self, query: &[i32; K], dist: u128, metric: Metric) -> (r: Vec<NearestNeighbour>)
        requires
            self.wf(),
        ensures
            ascending(r@),
            forall|i: int| 0 <= i < r@.len() ==> (#[trigger] r@[i]).0 < dist,
            self.within_all(metric, query@, dist as int).len() <= usize::MAX
                ==> r@.to_multiset() == self.within_all(metric, query@, dist as int).to_multiset(),
            r@.to_multiset().subset_of(self.within_all(metric, query@, dist as int).to_multiset()),
    {
        self.nearest_n_within(query, dist, usize::MAX, true, metric)
    }

    /// All points strictly closer to `query` than `dist`, in no particular order.
    pub fn within_unsorted(&self, query: &[i32; K], dist: u128, metric: Metric) -> (r: Vec<NearestNeighbour>)
        requires
            self.wf(),
        ensures
            forall|i: int| 0 <= i < r@.len() ==> (#[trigger] r@[i]).0 < dist,
            self.within_all(metric, query@, dist as int).len() <= usize::MAX
                ==> r@.to_multiset() == self.within_all(metric, query@, dist as int).to_multiset(),
            r@.to_multiset().subset_of(self.within_all(metric, query@, dist as int).to_multiset()),
    {
        self.nearest_n_within(query, dist, usize::MAX, false, metric)
    }
}

} // verus!
