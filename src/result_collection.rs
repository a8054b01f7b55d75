//! Accumulators of (distance, payload) candidates for the radius queries.
//!
//! Every collection keeps at most `bound()` candidates. While it holds fewer,
//! any candidate is taken; once full, a new candidate replaces the worst one
//! only if it is strictly better. Candidates are ordered by distance, then by
//! payload.
use vstd::prelude::*;
use sorted_vec::SortedVec;

verus! {

broadcast use {vstd::seq_lib::group_to_multiset_ensures, vstd::multiset::group_multiset_axioms};

/// A candidate: its distance to the query, then its payload.
pub type NearestNeighbour = (u128, u64);

/// The distance that stands for "anything may still qualify".
pub const INFINITE_DIST: u128 = 0xffff_ffff_ffff_ffff_ffff_ffff_ffff_ffff;

/// Strict order on candidates: by distance, ties broken by payload.
pub open spec fn nn_lt(a: NearestNeighbour, b: NearestNeighbour) -> bool {
    a.0 < b.0 || (a.0 == b.0 && a.1 < b.1)
}

pub open spec fn nn_le(a: NearestNeighbour, b: NearestNeighbour) -> bool {
    !nn_lt(b, a)
}

/// Ascending order by distance, then payload.
pub open spec fn ascending(s: Seq<NearestNeighbour>) -> bool {
    forall|i: int, j: int| 0 <= i < j < s.len() ==> nn_le(#[trigger] s[i], #[trigger] s[j])
}

/// `s[i]` is a largest candidate of `s`.
pub open spec fn is_max_at(s: Seq<NearestNeighbour>, i: int) -> bool {
    &&& 0 <= i < s.len()
    &&& forall|j: int| 0 <= j < s.len() ==> nn_le(#[trigger] s[j], s[i])
}

/// The worst (largest) candidate of a non-empty sequence.
pub open spec fn worst(s: Seq<NearestNeighbour>) -> NearestNeighbour {
    s[choose|i: int| is_max_at(s, i)]
}

/// What `max_dist` reports: infinite while not full, else the worst distance.
pub open spec fn max_dist_of(s: Seq<NearestNeighbour>, bound: nat) -> u128 {
    if s.len() < bound {
        INFINITE_DIST
    } else {
        worst(s).0
    }
}

/// `new` is what a collection bounded by `bound` holds after `e` is added to
/// `old`: `e` joins while there is room; once full, `e` replaces the worst
/// candidate if it is strictly better, and is dropped otherwise.
pub open spec fn added(old: Seq<NearestNeighbour>, bound: nat, e: NearestNeighbour, new: Seq<NearestNeighbour>) -> bool {
    if old.len() < bound {
        new.to_multiset() == old.to_multiset().insert(e)
    } else if nn_lt(e, worst(old)) {
        new.to_multiset() == old.to_multiset().remove(worst(old)).insert(e)
    } else {
        new.to_multiset() == old.to_multiset()
    }
}

/// A non-empty sequence has a largest candidate.
pub proof fn lemma_max_exists(s: Seq<NearestNeighbour>)
    requires
        s.len() > 0,
    ensures
        exists|i: int| is_max_at(s, i),
        s.contains(worst(s)),
        forall|j: int| 0 <= j < s.len() ==> nn_le(#[trigger] s[j], worst(s)),
    decreases s.len(),
{
    if s.len() == 1 {
        assert(is_max_at(s, 0));
    } else {
        let t = s.drop_last();
        lemma_max_exists(t);
        let k = choose|i: int| is_max_at(t, i);
        if nn_lt(t[k], s.last()) {
            assert forall|j: int| 0 <= j < s.len() implies nn_le(#[trigger] s[j], s[s.len() - 1]) by {
                if j < s.len() - 1 {
                    assert(s[j] == t[j]);
                    assert(nn_le(t[j], t[k]));
                }
            }
            assert(is_max_at(s, s.len() - 1));
        } else {
            assert forall|j: int| 0 <= j < s.len() implies nn_le(#[trigger] s[j], s[k]) by {
                if j < s.len() - 1 {
                    assert(s[j] == t[j]);
                }
            }
            assert(is_max_at(s, k));
        }
    }
    let w = choose|i: int| is_max_at(s, i);
    assert(s[w] == worst(s));
}

pub proof fn lemma_worst(s: Seq<NearestNeighbour>, i: int)
    requires
        is_max_at(s, i),
    ensures
        worst(s) == s[i],
{
    let k = choose|k: int| is_max_at(s, k);
    assert(is_max_at(s, k));
}

pub proof fn lemma_sorted_worst(s: Seq<NearestNeighbour>)
    requires
        ascending(s),
        s.len() > 0,
    ensures
        worst(s) == s.last(),
{
    assert forall|j: int| 0 <= j < s.len() implies nn_le(#[trigger] s[j], s[s.len() - 1]) by {
        if j < s.len() - 1 {
            assert(nn_le(s[j], s[s.len() - 1]));
        }
    }
    lemma_worst(s, s.len() - 1);
}

proof fn lemma_swap_multiset(s: Seq<NearestNeighbour>, i: int, j: int)
    requires
        0 <= i < s.len(),
        0 <= j < s.len(),
    ensures
        s.update(i, s[j]).update(j, s[i]).to_multiset() == s.to_multiset(),
{
    let t = s.update(i, s[j]);
    assert(t.to_multiset() == s.to_multiset().insert(s[j]).remove(s[i]));
    assert(t.update(j, s[i]).to_multiset() == t.to_multiset().insert(s[i]).remove(t[j]));
    if i == j {
        assert(t =~= s);
        assert(t.update(j, s[i]) =~= s);
    } else {
        assert(t[j] == s[j]);
        assert(s.to_multiset().insert(s[j]).remove(s[i]).insert(s[i]).remove(s[j]) =~= s.to_multiset());
    }
}

/// Compares two candidates by distance, then payload.
pub fn nn_less(a: NearestNeighbour, b: NearestNeighbour) -> (r: bool)
    ensures
        r == nn_lt(a, b),
{
    a.0 < b.0 || (a.0 == b.0 && a.1 < b.1)
}

/// The capability shared by all result collections.
pub trait ResultCollection: Sized {
    /// The candidates held.
    spec fn results(&self) -> Seq<NearestNeighbour>;

    /// The most candidates the collection keeps.
    spec fn bound(&self) -> nat;

    /// The collection's internal invariant.
    spec fn inv(&self) -> bool;

    proof fn lemma_inv(&self)
        requires
            self.inv(),
        ensures
            0 < self.bound(),
            self.results().len() <= self.bound(),
    ;

    /// Offers a candidate.
    fn add(&mut self, entry: NearestNeighbour)
        requires
            old(self).inv(),
        ensures
            final(self).inv(),
            final(self).bound() == old(self).bound(),
            added(old(self).results(), old(self).bound(), entry, final(self).results()),
    ;

    /// The distance a candidate must beat to be kept.
    fn max_dist(&self) -> (r: u128)
        requires
            self.inv(),
        ensures
            r == max_dist_of(self.results(), self.bound()),
    ;

    /// The candidates, in no particular order.
    fn into_vec(self) -> (r: Vec<NearestNeighbour>)
        requires
            self.inv(),
        ensures
            r@.to_multiset() == self.results().to_multiset(),
    ;

    /// The candidates in ascending order.
    fn into_sorted_vec(self) -> (r: Vec<NearestNeighbour>)
        requires
            self.inv(),
        ensures
            r@.to_multiset() == self.results().to_multiset(),
            ascending(r@),
    ;
}

/// Inserting `e` into a sorted sequence after every candidate not above it
/// and before every candidate above it keeps the sequence sorted.
proof fn lemma_insert_sorted(s: Seq<NearestNeighbour>, p: int, e: NearestNeighbour)
    requires
        ascending(s),
        0 <= p <= s.len(),
        forall|k: int| 0 <= k < p ==> nn_le(#[trigger] s[k], e),
        p < s.len() ==> nn_lt(e, s[p]),
    ensures
        ascending(s.insert(p, e)),
        s.insert(p, e).to_multiset() == s.to_multiset().insert(e),
{
    let t = s.insert(p, e);
    assert forall|i: int, j: int| 0 <= i < j < t.len() implies nn_le(#[trigger] t[i], #[trigger] t[j]) by {
        if j < p {
            assert(t[i] == s[i] && t[j] == s[j]);
        } else if j == p {
            assert(t[i] == s[i]);
        } else if i < p {
            assert(t[i] == s[i] && t[j] == s[j - 1]);
            assert(nn_le(s[p], s[j - 1]));
        } else if i == p {
            assert(t[j] == s[j - 1]);
            assert(nn_le(s[p], s[j - 1]));
        } else {
            assert(t[i] == s[i - 1] && t[j] == s[j - 1]);
        }
    }
}

/// Inserts `e` into a sorted vector after every candidate not above it.
fn insert_sorted(buf: &mut Vec<NearestNeighbour>, e: NearestNeighbour)
    requires
        ascending(old(buf)@),
    ensures
        ascending(final(buf)@),
        final(buf)@.to_multiset() == old(buf)@.to_multiset().insert(e),
        final(buf)@.len() == old(buf)@.len() + 1,
{
    let n = buf.len();
    let mut p: usize = 0;
    while p < n && !nn_less(e, buf[p])
        invariant
            p <= n,
            n == buf@.len(),
            forall|k: int| 0 <= k < p ==> nn_le(#[trigger] buf@[k], e),
        decreases n - p,
    {
        p = p + 1;
    }
    let ghost s = buf@;
    buf.insert(p, e);
    proof {
        lemma_insert_sorted(s, p as int, e);
    }
}

/// The candidates of `v` in ascending order.
fn sort_results(v: Vec<NearestNeighbour>) -> (r: Vec<NearestNeighbour>)
    ensures
        ascending(r@),
        r@.to_multiset() == v@.to_multiset(),
{
    let mut out: Vec<NearestNeighbour> = Vec::new();
    let mut i: usize = 0;
    while i < v.len()
        invariant
            i <= v@.len(),
            ascending(out@),
            out@.to_multiset() == v@.take(i as int).to_multiset(),
        decreases v@.len() - i,
    {
        insert_sorted(&mut out, v[i]);
        proof {
            assert(v@.take(i + 1) =~= v@.take(i as int).push(v@[i as int]));
        }
        i = i + 1;
    }
    proof {
        assert(v@.take(v@.len() as int) =~= v@);
    }
    out
}

/// A copy of the candidates of `v`.
fn copy_results(v: &Vec<NearestNeighbour>) -> (r: Vec<NearestNeighbour>)
    ensures
        r@ == v@,
{
    let mut out: Vec<NearestNeighbour> = Vec::new();
    let mut i: usize = 0;
    while i < v.len()
        invariant
            i <= v@.len(),
            out@ == v@.take(i as int),
        decreases v@.len() - i,
    {
        out.push(v[i]);
        proof {
            assert(v@.take(i + 1) =~= v@.take(i as int).push(v@[i as int]));
        }
        i = i + 1;
    }
    proof {
        assert(v@.take(v@.len() as int) =~= v@);
    }
    out
}

/// An unbounded collection: every candidate is kept.
impl ResultCollection for Vec<NearestNeighbour> {
    open spec fn results(&self) -> Seq<NearestNeighbour> {
        self@
    }

    open spec fn bound(&self) -> nat {
        usize::MAX as nat + 1
    }

    open spec fn inv(&self) -> bool {
        self@.len() <= usize::MAX
    }

    proof fn lemma_inv(&self) {
    }

    fn add(&mut self, entry: NearestNeighbour) {
        self.push(entry);
        // a length is a usize, so the bound still holds
        let _ = self.len();
    }

    fn max_dist(&self) -> (r: u128) {
        INFINITE_DIST
    }

    fn into_vec(self) -> (r: Vec<NearestNeighbour>) {
        self
    }

    fn into_sorted_vec(self) -> (r: Vec<NearestNeighbour>) {
        sort_results(self)
    }
}

/// Every candidate is no larger than its parent at `(k - 1) / 2`.
pub open spec fn heap_ordered(s: Seq<NearestNeighbour>) -> bool {
    forall|k: int| 0 < k < s.len() ==> nn_le(#[trigger] s[k], s[(k - 1) / 2])
}

proof fn lemma_heap_le_root(s: Seq<NearestNeighbour>, j: int)
    requires
        heap_ordered(s),
        0 <= j < s.len(),
    ensures
        nn_le(s[j], s[0]),
    decreases j,
{
    if j > 0 {
        lemma_heap_le_root(s, (j - 1) / 2);
        assert(nn_le(s[j], s[(j - 1) / 2]));
    }
}

/// The root of a non-empty heap is its largest candidate.
proof fn lemma_heap_root_max(s: Seq<NearestNeighbour>)
    requires
        heap_ordered(s),
        s.len() > 0,
    ensures
        is_max_at(s, 0),
        worst(s) == s[0],
{
    assert forall|j: int| 0 <= j < s.len() implies nn_le(#[trigger] s[j], s[0]) by {
        lemma_heap_le_root(s, j);
    }
    lemma_worst(s, 0);
}

/// Swaps two slots of a slice.
fn slice_swap(s: &mut [NearestNeighbour], i: usize, j: usize)
    requires
        i < old(s)@.len(),
        j < old(s)@.len(),
    ensures
        final(s)@ == old(s)@.update(i as int, old(s)@[j as int]).update(j as int, old(s)@[i as int]),
{
    let x = s[i];
    let y = s[j];
    s[i] = y;
    s[j] = x;
}

proof fn lemma_swap_prefix(s: Seq<NearestNeighbour>, n: int, i: int, j: int)
    requires
        0 <= i < n,
        0 <= j < n,
        n <= s.len(),
    ensures
        s.update(i, s[j]).update(j, s[i]).take(n).to_multiset() == s.take(n).to_multiset(),
{
    let t = s.take(n);
    assert(s.update(i, s[j]).update(j, s[i]).take(n) =~= t.update(i, t[j]).update(j, t[i]));
    lemma_swap_multiset(t, i, j);
}

/// Moves the candidate at `i` up towards the root of the heap formed by the
/// first `n` slots until it is no larger than its parent.
fn heap_sift_up(s: &mut [NearestNeighbour], n: usize, i: usize)
    requires
        n <= old(s)@.len(),
        i < n,
        forall|k: int| 0 < k < n && k != i ==> nn_le(#[trigger] old(s)@[k], old(s)@[(k - 1) / 2]),
        i > 0 ==> forall|k: int| 0 < k < n && (k - 1) / 2 == i
            ==> nn_le(#[trigger] old(s)@[k], old(s)@[(i - 1) / 2]),
    ensures
        final(s)@.len() == old(s)@.len(),
        heap_ordered(final(s)@.take(n as int)),
        final(s)@.take(n as int).to_multiset() == old(s)@.take(n as int).to_multiset(),
{
    let ghost s0 = s@;
    let mut i = i;
    while i > 0 && nn_less(s[(i - 1) / 2], s[i])
        invariant
            n <= s@.len(),
            s@.len() == s0.len(),
            i < n,
            s@.take(n as int).to_multiset() == s0.take(n as int).to_multiset(),
            forall|k: int| 0 < k < n && k != i ==> nn_le(#[trigger] s@[k], s@[(k - 1) / 2]),
            i > 0 ==> forall|k: int| 0 < k < n && (k - 1) / 2 == i
                ==> nn_le(#[trigger] s@[k], s@[(i - 1) / 2]),
        decreases i,
    {
        let p = (i - 1) / 2;
        let ghost t = s@;
        slice_swap(s, i, p);
        proof {
            lemma_swap_prefix(t, n as int, i as int, p as int);
            let u = s@;
            assert forall|k: int| 0 < k < n && k != p implies nn_le(#[trigger] u[k], u[(k - 1) / 2]) by {
                if k == i {
                } else if (k - 1) / 2 == i {
                    assert(nn_le(t[k], t[p as int]));
                } else if (k - 1) / 2 == p {
                    assert(nn_le(t[k], t[p as int]));
                } else {
                    assert(u[k] == t[k]);
                }
            }
            if p > 0 {
                assert forall|k: int| 0 < k < n && (k - 1) / 2 == p implies nn_le(#[trigger] u[k], u[(p - 1) / 2]) by {
                    assert(nn_le(t[p as int], t[(p - 1) / 2]));
                    if k != i {
                        assert(nn_le(t[k], t[p as int]));
                    }
                }
            }
        }
        i = p;
    }
    proof {
        let r = s@.take(n as int);
        assert forall|k: int| 0 < k < r.len() implies nn_le(#[trigger] r[k], r[(k - 1) / 2]) by {
            assert(r[k] == s@[k]);
        }
    }
}

/// Moves the root of the heap formed by the first `n` slots down until it is
/// no smaller than its children.
fn heap_sift_down(s: &mut [NearestNeighbour], n: usize)
    requires
        0 < n <= old(s)@.len(),
        forall|k: int| 0 < k < n && (k - 1) / 2 != 0 ==> nn_le(#[trigger] old(s)@[k], old(s)@[(k - 1) / 2]),
    ensures
        final(s)@.len() == old(s)@.len(),
        heap_ordered(final(s)@.take(n as int)),
        final(s)@.take(n as int).to_multiset() == old(s)@.take(n as int).to_multiset(),
{
    let ghost s0 = s@;
    let mut i: usize = 0;
    let mut done = false;
    while !done
        invariant
            n <= s@.len(),
            s@.len() == s0.len(),
            i < n,
            s@.take(n as int).to_multiset() == s0.take(n as int).to_multiset(),
            forall|k: int| 0 < k < n && (k - 1) / 2 != i ==> nn_le(#[trigger] s@[k], s@[(k - 1) / 2]),
            i > 0 ==> forall|k: int| 0 < k < n && (k - 1) / 2 == i
                ==> nn_le(#[trigger] s@[k], s@[(i - 1) / 2]),
            done ==> forall|k: int| 0 < k < n && (k - 1) / 2 == i ==> nn_le(#[trigger] s@[k], s@[i as int]),
        decreases n - i, if done { 0int } else { 1int },
    {
        if i < n / 2 {
            let l = 2 * i + 1;
            let mut c = l;
            if l + 1 < n && nn_less(s[l], s[l + 1]) {
                c = l + 1;
            }
            proof {
                assert((l - 1) / 2 == i);
                assert((l + 1 - 1) / 2 == i);
            }
            if nn_less(s[i], s[c]) {
                let ghost t = s@;
                slice_swap(s, i, c);
                proof {
                    lemma_swap_prefix(t, n as int, i as int, c as int);
                    let u = s@;
                    assert forall|k: int| 0 < k < n && (k - 1) / 2 != c implies nn_le(#[trigger] u[k], u[(k - 1) / 2]) by {
                        if k == c {
                        } else if (k - 1) / 2 == i {
                            assert(k == l || k == l + 1);
                        } else if k == i {
                            assert(nn_le(t[c as int], t[(i - 1) / 2]));
                        } else {
                            assert(u[k] == t[k]);
                        }
                    }
                    assert forall|k: int| 0 < k < n && (k - 1) / 2 == c implies nn_le(#[trigger] u[k], u[(c - 1) / 2]) by {
                        assert(nn_le(t[k], t[c as int]));
                        assert(k != i && k != c);
                    }
                }
                i = c;
            } else {
                done = true;
            }
        } else {
            done = true;
        }
    }
    proof {
        let r = s@.take(n as int);
        assert forall|k: int| 0 < k < r.len() implies nn_le(#[trigger] r[k], r[(k - 1) / 2]) by {
            assert(r[k] == s@[k]);
        }
    }
}

/// Adds to a binary max-heap kept in a vector, holding at most `cap`.
fn vec_heap_add(buf: &mut Vec<NearestNeighbour>, cap: usize, e: NearestNeighbour)
    requires
        0 < cap,
        old(buf)@.len() <= cap,
        heap_ordered(old(buf)@),
    ensures
        final(buf)@.len() <= cap,
        heap_ordered(final(buf)@),
        added(old(buf)@, cap as nat, e, final(buf)@),
{
    let ghost s = buf@;
    let n = buf.len();
    if n < cap {
        buf.push(e);
        proof {
            assert(buf@.take(n + 1) =~= buf@);
            assert(buf@.take(n as int) =~= s);
        }
        heap_sift_up(buf.as_mut_slice(), n + 1, n);
        proof {
            assert(buf@.take(n + 1) =~= buf@);
        }
    } else {
        proof {
            lemma_heap_root_max(s);
        }
        if nn_less(e, buf[0]) {
            buf.set(0, e);
            proof {
                assert(buf@.take(n as int) =~= buf@);
                assert(buf@.to_multiset() == s.to_multiset().insert(e).remove(s[0]));
                assert(s.to_multiset().insert(e).remove(s[0]) =~= s.to_multiset().remove(s[0]).insert(e));
            }
            heap_sift_down(buf.as_mut_slice(), n);
            proof {
                assert(buf@.take(n as int) =~= buf@);
            }
        }
    }
}

/// Adds to a sorted vector holding at most `cap` candidates.
fn vec_sorted_add(buf: &mut Vec<NearestNeighbour>, cap: usize, e: NearestNeighbour)
    requires
        0 < cap,
        old(buf)@.len() <= cap,
        ascending(old(buf)@),
    ensures
        final(buf)@.len() <= cap,
        ascending(final(buf)@),
        added(old(buf)@, cap as nat, e, final(buf)@),
{
    let n = buf.len();
    if n < cap {
        insert_sorted(buf, e);
    } else {
        proof {
            lemma_sorted_worst(buf@);
        }
        if nn_less(e, buf[n - 1]) {
            let ghost s = buf@;
            buf.pop();
            proof {
                assert(s.remove(n - 1) =~= buf@);
                assert(buf@.to_multiset() == s.to_multiset().remove(s[n - 1]));
                assert(ascending(buf@)) by {
                    assert forall|i: int, j: int| 0 <= i < j < buf@.len() implies nn_le(#[trigger] buf@[i], #[trigger] buf@[j]) by {
                        assert(buf@[i] == s[i] && buf@[j] == s[j]);
                    }
                }
            }
            insert_sorted(buf, e);
        }
    }
}

/// A binary max-heap over a caller's vector, which it fills in place.
pub struct BinaryHeapRef<'v> {
    pub buf: &'v mut Vec<NearestNeighbour>,
    pub cap: usize,
}

impl<'v> BinaryHeapRef<'v> {
    /// Empties `buf` and uses it to keep at most `cap` candidates.
    pub fn new(buf: &'v mut Vec<NearestNeighbour>, cap: usize) -> (r: Self)
        requires
            0 < cap,
        ensures
            r.inv(),
            r.results() == Seq::<NearestNeighbour>::empty(),
            r.bound() == cap,
    {
        buf.clear();
        BinaryHeapRef { buf, cap }
    }
}

impl<'v> ResultCollection for BinaryHeapRef<'v> {
    open spec fn results(&self) -> Seq<NearestNeighbour> {
        (*self.buf)@
    }

    open spec fn bound(&self) -> nat {
        self.cap as nat
    }

    open spec fn inv(&self) -> bool {
        &&& 0 < self.cap
        &&& (*self.buf)@.len() <= self.cap
        &&& heap_ordered((*self.buf)@)
    }

    proof fn lemma_inv(&self) {
    }

    fn add(&mut self, entry: NearestNeighbour) {
        vec_heap_add(self.buf, self.cap, entry);
    }

    fn max_dist(&self) -> (r: u128) {
        if self.buf.len() < self.cap {
            INFINITE_DIST
        } else {
            proof {
                lemma_heap_root_max((*self.buf)@);
            }
            self.buf[0].0
        }
    }

    fn into_vec(self) -> (r: Vec<NearestNeighbour>) {
        copy_results(self.buf)
    }

    fn into_sorted_vec(self) -> (r: Vec<NearestNeighbour>) {
        sort_results(copy_results(self.buf))
    }
}

/// A sorted collection over a caller's vector, which it fills in place.
pub struct SortedVecRef<'v> {
    pub buf: &'v mut Vec<NearestNeighbour>,
    pub cap: usize,
}

impl<'v> SortedVecRef<'v> {
    /// Empties `buf` and uses it to keep at most `cap` candidates.
    pub fn new(buf: &'v mut Vec<NearestNeighbour>, cap: usize) -> (r: Self)
        requires
            0 < cap,
        ensures
            r.inv(),
            r.results() == Seq::<NearestNeighbour>::empty(),
            r.bound() == cap,
    {
        buf.clear();
        SortedVecRef { buf, cap }
    }
}

impl<'v> ResultCollection for SortedVecRef<'v> {
    open spec fn results(&self) -> Seq<NearestNeighbour> {
        (*self.buf)@
    }

    open spec fn bound(&self) -> nat {
        self.cap as nat
    }

    open spec fn inv(&self) -> bool {
        &&& 0 < self.cap
        &&& (*self.buf)@.len() <= self.cap
        &&& ascending((*self.buf)@)
    }

    proof fn lemma_inv(&self) {
    }

    fn add(&mut self, entry: NearestNeighbour) {
        vec_sorted_add(self.buf, self.cap, entry);
    }

    fn max_dist(&self) -> (r: u128) {
        let n = self.buf.len();
        if n < self.cap {
            INFINITE_DIST
        } else {
            proof {
                lemma_sorted_worst((*self.buf)@);
            }
            self.buf[n - 1].0
        }
    }

    fn into_vec(self) -> (r: Vec<NearestNeighbour>) {
        copy_results(self.buf)
    }

    fn into_sorted_vec(self) -> (r: Vec<NearestNeighbour>) {
        copy_results(self.buf)
    }
}

/// An owning binary max-heap.
pub struct BinaryHeap {
    items: Vec<NearestNeighbour>,
    cap: usize,
}

impl BinaryHeap {
    /// An empty collection keeping at most `cap` candidates.
    pub fn new_with_capacity(cap: usize) -> (r: Self)
        requires
            0 < cap,
        ensures
            r.inv(),
            r.results() == Seq::<NearestNeighbour>::empty(),
            r.bound() == cap,
    {
        BinaryHeap { items: Vec::new(), cap }
    }
}

impl ResultCollection for BinaryHeap {
    closed spec fn results(&self) -> Seq<NearestNeighbour> {
        self.items@
    }

    closed spec fn bound(&self) -> nat {
        self.cap as nat
    }

    closed spec fn inv(&self) -> bool {
        &&& 0 < self.cap
        &&& self.items@.len() <= self.cap
        &&& heap_ordered(self.items@)
    }

    proof fn lemma_inv(&self) {
    }

    fn add(&mut self, entry: NearestNeighbour) {
        vec_heap_add(&mut self.items, self.cap, entry);
    }

    fn max_dist(&self) -> (r: u128) {
        if self.items.len() < self.cap {
            INFINITE_DIST
        } else {
            proof {
                lemma_heap_root_max(self.items@);
            }
            self.items[0].0
        }
    }

    fn into_vec(self) -> (r: Vec<NearestNeighbour>) {
        self.items
    }

    fn into_sorted_vec(self) -> (r: Vec<NearestNeighbour>) {
        sort_results(self.items)
    }
}

#[verifier::external_type_specification]
#[verifier::external_body]
#[verifier::reject_recursive_types(T)]
pub struct ExSortedVec<T: Ord>(SortedVec<T>);

/// What a `SortedVec` of candidates holds, in its order.
pub uninterp spec fn sorted_vec_contents(v: SortedVec<(u128, u64)>) -> Seq<(u128, u64)>;

/// Relies on `SortedVec::with_capacity`: the new vector is empty.
#[verifier::external_body]
fn sorted_vec_with_capacity(cap: usize) -> (r: SortedVec<NearestNeighbour>)
    ensures
        sorted_vec_contents(r) == Seq::<NearestNeighbour>::empty(),
{
    SortedVec::with_capacity(cap)
}

/// Relies on `SortedVec`'s `len` (through `Deref` to `Vec`): the number of items.
#[verifier::external_body]
fn sorted_vec_len(v: &SortedVec<NearestNeighbour>) -> (r: usize)
    ensures
        r == sorted_vec_contents(*v).len(),
{
    v.len()
}

/// Relies on `SortedVec`'s `last` (through `Deref` to `Vec`): the last item, if any.
#[verifier::external_body]
fn sorted_vec_last(v: &SortedVec<NearestNeighbour>) -> (r: Option<NearestNeighbour>)
    ensures
        sorted_vec_contents(*v).len() == 0 ==> r == None::<NearestNeighbour>,
        sorted_vec_contents(*v).len() > 0 ==> r == Some(sorted_vec_contents(*v).last()),
{
    v.last().copied()
}

/// Relies on `SortedVec::insert`: the item goes in at the position that a
/// binary search gives, so the items stay in ascending order.
#[verifier::external_body]
fn sorted_vec_insert(v: &mut SortedVec<NearestNeighbour>, e: NearestNeighbour)
    requires
        ascending(sorted_vec_contents(*old(v))),
    ensures
        ascending(sorted_vec_contents(*final(v))),
        sorted_vec_contents(*final(v)).to_multiset() == sorted_vec_contents(*old(v)).to_multiset().insert(e),
{
    v.insert(e);
}

/// Relies on `SortedVec::push`: appends when the item is not below the last
/// one and otherwise inserts it as `insert` does, so the items stay in
/// ascending order.
#[verifier::external_body]
fn sorted_vec_push(v: &mut SortedVec<NearestNeighbour>, e: NearestNeighbour)
    requires
        ascending(sorted_vec_contents(*old(v))),
    ensures
        ascending(sorted_vec_contents(*final(v))),
        sorted_vec_contents(*final(v)).to_multiset() == sorted_vec_contents(*old(v)).to_multiset().insert(e),
{
    v.push(e);
}

/// Relies on `SortedVec::pop`: removes and returns the last item, if any.
#[verifier::external_body]
fn sorted_vec_pop(v: &mut SortedVec<NearestNeighbour>) -> (r: Option<NearestNeighbour>)
    ensures
        sorted_vec_contents(*old(v)).len() == 0 ==> r == None::<NearestNeighbour>
            && sorted_vec_contents(*final(v)) == sorted_vec_contents(*old(v)),
        sorted_vec_contents(*old(v)).len() > 0 ==> r == Some(sorted_vec_contents(*old(v)).last())
            && sorted_vec_contents(*final(v)) == sorted_vec_contents(*old(v)).drop_last(),
{
    v.pop()
}

/// Relies on `SortedVec::into_vec`: the items in their order.
#[verifier::external_body]
fn sorted_vec_into_vec(v: SortedVec<NearestNeighbour>) -> (r: Vec<NearestNeighbour>)
    ensures
        r@ == sorted_vec_contents(v),
{
    v.into_vec()
}

/// An owning sorted collection over a `SortedVec`.
pub struct BoundedSortedVec {
    items: SortedVec<NearestNeighbour>,
    cap: usize,
}

impl BoundedSortedVec {
    /// An empty collection keeping at most `cap` candidates.
    pub fn new_with_capacity(cap: usize) -> (r: Self)
        requires
            0 < cap,
        ensures
            r.inv(),
            r.results() == Seq::<NearestNeighbour>::empty(),
            r.bound() == cap,
    {
        BoundedSortedVec { items: sorted_vec_with_capacity(cap), cap }
    }
}

impl ResultCollection for BoundedSortedVec {
    closed spec fn results(&self) -> Seq<NearestNeighbour> {
        sorted_vec_contents(self.items)
    }

    closed spec fn bound(&self) -> nat {
        self.cap as nat
    }

    closed spec fn inv(&self) -> bool {
        &&& 0 < self.cap
        &&& sorted_vec_contents(self.items).len() <= self.cap
        &&& ascending(sorted_vec_contents(self.items))
    }

    proof fn lemma_inv(&self) {
    }

    fn add(&mut self, entry: NearestNeighbour) {
        let ghost s = sorted_vec_contents(self.items);
        let n = sorted_vec_len(&self.items);
        if n < self.cap {
            sorted_vec_insert(&mut self.items, entry);
            proof {
                sorted_vec_contents(self.items).to_multiset_ensures();
            }
        } else {
            proof {
                lemma_sorted_worst(s);
            }
            match sorted_vec_last(&self.items) {
                Some(last) => {
                    if nn_less(entry, last) {
                        sorted_vec_pop(&mut self.items);
                        proof {
                            assert(s.remove(n - 1) =~= s.drop_last());
                            let t = sorted_vec_contents(self.items);
                            assert(t.to_multiset() == s.to_multiset().remove(s[n - 1]));
                            assert forall|i: int, j: int| 0 <= i < j < t.len() implies nn_le(#[trigger] t[i], #[trigger] t[j]) by {
                                assert(t[i] == s[i] && t[j] == s[j]);
                            }
                        }
                        sorted_vec_push(&mut self.items, entry);
                        proof {
                            sorted_vec_contents(self.items).to_multiset_ensures();
                        }
                    }
                },
                None => {},
            }
        }
    }

    fn max_dist(&self) -> (r: u128) {
        let n = sorted_vec_len(&self.items);
        if n < self.cap {
            INFINITE_DIST
        } else {
            proof {
                lemma_sorted_worst(sorted_vec_contents(self.items));
            }
            match sorted_vec_last(&self.items) {
                Some(last) => last.0,
                None => INFINITE_DIST,
            }
        }
    }

    fn into_vec(self) -> (r: Vec<NearestNeighbour>) {
        sorted_vec_into_vec(self.items)
    }

    fn into_sorted_vec(self) -> (r: Vec<NearestNeighbour>) {
        sorted_vec_into_vec(self.items)
    }
}

/// The index of a largest candidate among the first `len` of an array.
fn array_max_index<const N: usize>(a: &[NearestNeighbour; N], len: usize) -> (r: usize)
    requires
        0 < len <= N,
    ensures
        is_max_at(a@.take(len as int), r as int),
{
    let mut w: usize = 0;
    let mut i: usize = 1;
    while i < len
        invariant
            1 <= i <= len,
            len <= N,
            w < i,
            forall|j: int| 0 <= j < i ==> nn_le(#[trigger] a@[j], a@[w as int]),
        decreases len - i,
    {
        if nn_less(a[w], a[i]) {
            w = i;
        }
        i = i + 1;
    }
    proof {
        let t = a@.take(len as int);
        assert forall|j: int| 0 <= j < t.len() implies nn_le(#[trigger] t[j], t[w as int]) by {
            assert(t[j] == a@[j]);
        }
    }
    w
}

/// A copy of the first `len` candidates of an array.
fn array_copy<const N: usize>(a: &[NearestNeighbour; N], len: usize) -> (r: Vec<NearestNeighbour>)
    requires
        len <= N,
    ensures
        r@ == a@.take(len as int),
{
    let mut out: Vec<NearestNeighbour> = Vec::new();
    let mut i: usize = 0;
    while i < len
        invariant
            i <= len,
            len <= N,
            out@ == a@.take(i as int),
        decreases len - i,
    {
        out.push(a[i]);
        proof {
            assert(a@.take(i + 1) =~= a@.take(i as int).push(a@[i as int]));
        }
        i = i + 1;
    }
    out
}

/// Inserts `e` into the sorted first `len` candidates of an array, shifting
/// the larger ones up by one slot.
fn array_insert_sorted<const N: usize>(a: &mut [NearestNeighbour; N], len: usize, e: NearestNeighbour)
    requires
        len < N,
        ascending(old(a)@.take(len as int)),
    ensures
        ascending(final(a)@.take(len + 1)),
        final(a)@.take(len + 1).to_multiset() == old(a)@.take(len as int).to_multiset().insert(e),
{
    let ghost s = a@.take(len as int);
    let ghost o = a@;
    let mut p: usize = 0;
    while p < len && !nn_less(e, a[p])
        invariant
            p <= len,
            len < N,
            a@ == o,
            s == o.take(len as int),
            forall|k: int| 0 <= k < p ==> nn_le(#[trigger] s[k], e),
        decreases len - p,
    {
        p = p + 1;
    }
    let mut k: usize = len;
    while k > p
        invariant
            p <= k <= len,
            len < N,
            forall|i: int| 0 <= i < k ==> #[trigger] a@[i] == o[i],
            forall|i: int| k < i <= len ==> #[trigger] a@[i] == o[i - 1],
        decreases k,
    {
        a[k] = a[k - 1];
        k = k - 1;
    }
    a[p] = e;
    proof {
        lemma_insert_sorted(s, p as int, e);
        assert(a@.take(len + 1) =~= s.insert(p as int, e));
    }
}

/// An unsorted collection over a caller's fixed-size array, which it fills
/// in place: the first `len` slots hold the candidates.
pub struct ArrayRef<'v, const N: usize> {
    pub array: &'v mut [NearestNeighbour; N],
    pub len: usize,
}

impl<'v, const N: usize> ArrayRef<'v, N> {
    /// Uses `array` to keep at most `N` candidates, starting empty.
    pub fn new(array: &'v mut [NearestNeighbour; N]) -> (r: Self)
        requires
            0 < N,
        ensures
            r.inv(),
            r.results() == Seq::<NearestNeighbour>::empty(),
            r.bound() == N,
    {
        ArrayRef { array, len: 0 }
    }
}

impl<'v, const N: usize> ResultCollection for ArrayRef<'v, N> {
    open spec fn results(&self) -> Seq<NearestNeighbour> {
        (*self.array)@.take(self.len as int)
    }

    open spec fn bound(&self) -> nat {
        N as nat
    }

    open spec fn inv(&self) -> bool {
        0 < N && self.len <= N
    }

    proof fn lemma_inv(&self) {
    }

    fn add(&mut self, entry: NearestNeighbour) {
        let ghost s = self.results();
        if self.len < N {
            self.array[self.len] = entry;
            self.len = self.len + 1;
            proof {
                assert(self.results() =~= s.push(entry));
            }
        } else {
            let w = array_max_index(self.array, N);
            proof {
                lemma_worst(s, w as int);
            }
            if nn_less(entry, self.array[w]) {
                self.array[w] = entry;
                proof {
                    assert(self.results() =~= s.update(w as int, entry));
                    assert(s.to_multiset().insert(entry).remove(s[w as int])
                        =~= s.to_multiset().remove(s[w as int]).insert(entry));
                }
            }
        }
    }

    fn max_dist(&self) -> (r: u128) {
        if self.len < N {
            INFINITE_DIST
        } else {
            let w = array_max_index(self.array, N);
            proof {
                lemma_worst(self.results(), w as int);
            }
            self.array[w].0
        }
    }

    fn into_vec(self) -> (r: Vec<NearestNeighbour>) {
        array_copy(self.array, self.len)
    }

    fn into_sorted_vec(self) -> (r: Vec<NearestNeighbour>) {
        sort_results(array_copy(self.array, self.len))
    }
}

/// A sorted collection over a caller's fixed-size array, kept in order by
/// insertion: the first `len` slots hold the candidates in ascending order.
pub struct SortedArrayRef<'v, const N: usize> {
    pub array: &'v mut [NearestNeighbour; N],
    pub len: usize,
}

impl<'v, const N: usize> SortedArrayRef<'v, N> {
    /// Uses `array` to keep at most `N` candidates, starting empty.
    pub fn new(array: &'v mut [NearestNeighbour; N]) -> (r: Self)
        requires
            0 < N,
        ensures
            r.inv(),
            r.results() == Seq::<NearestNeighbour>::empty(),
            r.bound() == N,
    {
        SortedArrayRef { array, len: 0 }
    }
}

impl<'v, const N: usize> ResultCollection for SortedArrayRef<'v, N> {
    open spec fn results(&self) -> Seq<NearestNeighbour> {
        (*self.array)@.take(self.len as int)
    }

    open spec fn bound(&self) -> nat {
        N as nat
    }

    open spec fn inv(&self) -> bool {
        &&& 0 < N
        &&& self.len <= N
        &&& ascending((*self.array)@.take(self.len as int))
    }

    proof fn lemma_inv(&self) {
    }

    fn add(&mut self, entry: NearestNeighbour) {
        let ghost s = self.results();
        if self.len < N {
            array_insert_sorted(self.array, self.len, entry);
            self.len = self.len + 1;
        } else {
            proof {
                lemma_sorted_worst(s);
            }
            if nn_less(entry, self.array[N - 1]) {
                proof {
                    let d = (*self.array)@.take(N - 1);
                    assert(d =~= s.drop_last());
                    assert(s.remove(N - 1) =~= d);
                    assert(ascending(d)) by {
                        assert forall|i: int, j: int| 0 <= i < j < d.len() implies nn_le(#[trigger] d[i], #[trigger] d[j]) by {
                            assert(d[i] == s[i] && d[j] == s[j]);
                        }
                    }
                }
                array_insert_sorted(self.array, N - 1, entry);
            }
        }
    }

    fn max_dist(&self) -> (r: u128) {
        if self.len < N {
            INFINITE_DIST
        } else {
            proof {
                lemma_sorted_worst(self.results());
            }
            self.array[N - 1].0
        }
    }

    fn into_vec(self) -> (r: Vec<NearestNeighbour>) {
        array_copy(self.array, self.len)
    }

    fn into_sorted_vec(self) -> (r: Vec<NearestNeighbour>) {
        array_copy(self.array, self.len)
    }
}

/// A binary max-heap over a caller's fixed-size array, which it fills in
/// place: the first `len` slots hold the heap.
pub struct BinaryHeapArray<'v, const N: usize> {
    pub array: &'v mut [NearestNeighbour; N],
    pub len: usize,
}

impl<'v, const N: usize> BinaryHeapArray<'v, N> {
    /// Uses `array` to keep at most `N` candidates, starting empty.
    pub fn new(array: &'v mut [NearestNeighbour; N]) -> (r: Self)
        requires
            0 < N,
        ensures
            r.inv(),
            r.results() == Seq::<NearestNeighbour>::empty(),
            r.bound() == N,
    {
        BinaryHeapArray { array, len: 0 }
    }
}

impl<'v, const N: usize> ResultCollection for BinaryHeapArray<'v, N> {
    open spec fn results(&self) -> Seq<NearestNeighbour> {
        (*self.array)@.take(self.len as int)
    }

    open spec fn bound(&self) -> nat {
        N as nat
    }

    open spec fn inv(&self) -> bool {
        &&& 0 < N
        &&& self.len <= N
        &&& heap_ordered((*self.array)@.take(self.len as int))
    }

    proof fn lemma_inv(&self) {
    }

    fn add(&mut self, entry: NearestNeighbour) {
        let ghost s = self.results();
        let n = self.len;
        if n < N {
            self.array[n] = entry;
            proof {
                assert((*self.array)@.take(n as int) =~= s);
                assert((*self.array)@.take(n + 1) =~= s.push(entry));
                assert forall|k: int| 0 < k < n + 1 && k != n implies
                    nn_le(#[trigger] (*self.array)@[k], (*self.array)@[(k - 1) / 2]) by {
                    assert(s[k] == (*self.array)@[k]);
                    assert(s[(k - 1) / 2] == (*self.array)@[(k - 1) / 2]);
                }
            }
            heap_sift_up(self.array, n + 1, n);
            self.len = n + 1;
        } else {
            proof {
                lemma_heap_root_max(s);
            }
            if nn_less(entry, self.array[0]) {
                self.array[0] = entry;
                proof {
                    let t = (*self.array)@.take(N as int);
                    assert(t =~= s.update(0, entry));
                    assert(s.to_multiset().insert(entry).remove(s[0]) =~= s.to_multiset().remove(s[0]).insert(entry));
                    assert forall|k: int| 0 < k < N && (k - 1) / 2 != 0 implies
                        nn_le(#[trigger] (*self.array)@[k], (*self.array)@[(k - 1) / 2]) by {
                        assert(s[k] == (*self.array)@[k]);
                        assert(s[(k - 1) / 2] == (*self.array)@[(k - 1) / 2]);
                    }
                }
                heap_sift_down(self.array, N);
            }
        }
    }

    fn max_dist(&self) -> (r: u128) {
        if self.len < N {
            INFINITE_DIST
        } else {
            proof {
                lemma_heap_root_max(self.results());
            }
            self.array[0].0
        }
    }

    fn into_vec(self) -> (r: Vec<NearestNeighbour>) {
        array_copy(self.array, self.len)
    }

    fn into_sorted_vec(self) -> (r: Vec<NearestNeighbour>) {
        sort_results(array_copy(self.array, self.len))
    }
}

/// Whatever the variant, a collection in its invariant never holds more
/// candidates than its bound, and `max_dist` reports the infinite distance
/// while it holds fewer and the worst kept distance once it is full.
pub proof fn lemma_collection_bounded<R: ResultCollection>(c: &R)
    requires
        c.inv(),
    ensures
        c.results().len() <= c.bound(),
        c.results().len() < c.bound() ==> max_dist_of(c.results(), c.bound()) == INFINITE_DIST,
        c.results().len() == c.bound() ==> c.results().contains(worst(c.results()))
            && max_dist_of(c.results(), c.bound()) == worst(c.results()).0,
{
    c.lemma_inv();
    if c.results().len() == c.bound() {
        lemma_max_exists(c.results());
    }
}

/// Two ascending sequences holding the same candidates are equal: a sorted
/// result is fixed by what it holds, so repeating a query that returns the
/// same candidates returns the same sequence.
pub proof fn lemma_ascending_unique(s1: Seq<NearestNeighbour>, s2: Seq<NearestNeighbour>)
    requires
        ascending(s1),
        ascending(s2),
        s1.to_multiset() == s2.to_multiset(),
    ensures
        s1 == s2,
    decreases s1.len(),
{
    s1.to_multiset_ensures();
    s2.to_multiset_ensures();
    if s1.len() == 0 {
        assert(s2.len() == 0);
        assert(s1 =~= s2);
    } else {
        s1.to_multiset_ensures();
        s2.to_multiset_ensures();
        assert(s2.len() == s1.len());
        assert(s1.contains(s1[0]));
        assert(s2.to_multiset().count(s1[0]) > 0);
        let j = choose|j: int| 0 <= j < s2.len() && s2[j] == s1[0];
        assert(s2.contains(s2[0]));
        assert(s1.to_multiset().count(s2[0]) > 0);
        let i = choose|i: int| 0 <= i < s1.len() && s1[i] == s2[0];
        if j > 0 {
            assert(nn_le(s2[0], s2[j]));
        }
        if i > 0 {
            assert(nn_le(s1[0], s1[i]));
        }
        assert(s1[0] == s2[0]);
        let t1 = s1.drop_first();
        let t2 = s2.drop_first();
        assert(s1.remove(0) =~= t1);
        assert(s2.remove(0) =~= t2);
        assert(t1.to_multiset() == s1.to_multiset().remove(s1[0]));
        assert(t2.to_multiset() == s2.to_multiset().remove(s2[0]));
        assert forall|a: int, b: int| 0 <= a < b < t1.len() implies nn_le(#[trigger] t1[a], #[trigger] t1[b]) by {
            assert(t1[a] == s1[a + 1] && t1[b] == s1[b + 1]);
        }
        assert forall|a: int, b: int| 0 <= a < b < t2.len() implies nn_le(#[trigger] t2[a], #[trigger] t2[b]) by {
            assert(t2[a] == s2[a + 1] && t2[b] == s2[b + 1]);
        }
        lemma_ascending_unique(t1, t2);
        assert(s1 =~= seq![s1[0]] + t1);
        assert(s2 =~= seq![s2[0]] + t2);
    }
}

} // verus!
