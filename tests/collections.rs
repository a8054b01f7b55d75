use kdquery::result_collection::{
    ArrayRef, BinaryHeap, BinaryHeapArray, BinaryHeapRef, BoundedSortedVec, NearestNeighbour,
    ResultCollection, SortedArrayRef, SortedVecRef, INFINITE_DIST,
};

const OFFERS: [NearestNeighbour; 7] = [(5, 1), (3, 2), (9, 3), (4, 4), (7, 5), (4, 0), (1, 6)];

/// Offers the candidates one by one to a collection of bound 3 and returns
/// what `max_dist` reported after each.
fn exercise<R: ResultCollection>(c: &mut R) -> Vec<u128> {
    let mut seen = Vec::new();
    for e in OFFERS {
        c.add(e);
        seen.push(c.max_dist());
    }
    seen
}

const EXPECTED_MAX: [u128; 7] = [INFINITE_DIST, INFINITE_DIST, 9, 5, 5, 4, 4];
const EXPECTED_KEPT: [NearestNeighbour; 3] = [(1, 6), (3, 2), (4, 0)];

#[test]
fn binary_heap_keeps_the_best() {
    let mut c = BinaryHeap::new_with_capacity(3);
    assert_eq!(exercise(&mut c), EXPECTED_MAX.to_vec());
    assert_eq!(c.into_sorted_vec(), EXPECTED_KEPT.to_vec());
}

#[test]
fn binary_heap_into_vec_is_a_permutation() {
    let mut c = BinaryHeap::new_with_capacity(3);
    exercise(&mut c);
    let mut v = c.into_vec();
    v.sort();
    assert_eq!(v, EXPECTED_KEPT.to_vec());
}

#[test]
fn bounded_sorted_vec_keeps_the_best() {
    let mut c = BoundedSortedVec::new_with_capacity(3);
    assert_eq!(exercise(&mut c), EXPECTED_MAX.to_vec());
    assert_eq!(c.into_vec(), EXPECTED_KEPT.to_vec());
}

#[test]
fn binary_heap_ref_fills_the_buffer() {
    let mut buf = vec![(100, 100)];
    {
        let mut c = BinaryHeapRef::new(&mut buf, 3);
        assert_eq!(exercise(&mut c), EXPECTED_MAX.to_vec());
        assert_eq!(c.into_sorted_vec(), EXPECTED_KEPT.to_vec());
    }
    assert_eq!(buf.len(), 3);
    assert_eq!(buf[0], (4, 0));
}

#[test]
fn sorted_vec_ref_fills_the_buffer_in_order() {
    let mut buf = Vec::new();
    {
        let mut c = SortedVecRef::new(&mut buf, 3);
        assert_eq!(exercise(&mut c), EXPECTED_MAX.to_vec());
    }
    assert_eq!(buf, EXPECTED_KEPT.to_vec());
}

#[test]
fn array_ref_keeps_the_best() {
    let mut array = [(0u128, 0u64); 3];
    let mut c = ArrayRef::new(&mut array);
    assert_eq!(exercise(&mut c), EXPECTED_MAX.to_vec());
    assert_eq!(c.into_sorted_vec(), EXPECTED_KEPT.to_vec());
}

#[test]
fn sorted_array_ref_keeps_the_best_in_order() {
    let mut array = [(0u128, 0u64); 3];
    {
        let mut c = SortedArrayRef::new(&mut array);
        assert_eq!(exercise(&mut c), EXPECTED_MAX.to_vec());
        assert_eq!(c.len, 3);
    }
    assert_eq!(array, EXPECTED_KEPT);
}

#[test]
fn binary_heap_array_keeps_the_best() {
    let mut array = [(0u128, 0u64); 3];
    {
        let mut c = BinaryHeapArray::new(&mut array);
        assert_eq!(exercise(&mut c), EXPECTED_MAX.to_vec());
        assert_eq!(c.into_sorted_vec(), EXPECTED_KEPT.to_vec());
    }
    assert_eq!(array[0], (4, 0));
}

#[test]
fn unbounded_vec_keeps_everything() {
    let mut c: Vec<NearestNeighbour> = Vec::new();
    for e in OFFERS {
        c.add(e);
        assert_eq!(c.max_dist(), INFINITE_DIST);
    }
    let mut all = OFFERS.to_vec();
    all.sort();
    assert_eq!(c.into_sorted_vec(), all);
}

#[test]
fn equal_distances_break_ties_by_payload() {
    let mut c = BinaryHeap::new_with_capacity(2);
    c.add((2, 9));
    c.add((2, 5));
    assert_eq!(c.max_dist(), 2);
    c.add((2, 7));
    c.add((2, 9));
    assert_eq!(c.into_sorted_vec(), vec![(2, 5), (2, 7)]);
}

#[test]
fn bound_of_one() {
    let mut array = [(0u128, 0u64); 1];
    let mut c = SortedArrayRef::new(&mut array);
    c.add((8, 1));
    assert_eq!(c.max_dist(), 8);
    c.add((9, 2));
    c.add((3, 3));
    assert_eq!(c.into_vec(), vec![(3, 3)]);
}
