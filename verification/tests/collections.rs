use pauli_tracker::collection::buffered_vector::BufferedVector;
use pauli_tracker::collection::{Base, Full, Init, Iterable, MappedVector};

#[test]
fn buffered_vector_insert_fills_gaps_with_defaults() {
    let mut v = BufferedVector::<u32>::new();
    assert_eq!(v.insert(2, 7), None);
    assert_eq!(v.0, vec![0, 0, 7]);
    assert_eq!(v.insert(0, 5), Some(0));
    assert_eq!(v.insert(3, 9), None);
    assert_eq!(v.0, vec![5, 0, 7, 9]);
    assert_eq!(v.len(), 4);
    assert_eq!(v.get(2), Some(&7));
    assert_eq!(v.get(4), None);
}

#[test]
fn buffered_vector_removes_only_the_last() {
    let mut v = BufferedVector::from(vec![1u32, 2, 3]);
    assert_eq!(v.remove(1), None);
    assert_eq!(v.remove(2), Some(3));
    assert_eq!(v.0, vec![1, 2]);
    let mut e = BufferedVector::<u32>::new();
    assert_eq!(e.remove(0), None);
    assert!(e.is_empty());
}

#[test]
fn buffered_vector_pairs_and_init() {
    let v = BufferedVector::from(vec![4u32, 5]);
    assert_eq!(v.pairs(), vec![(0, &4), (1, &5)]);
    assert_eq!(v.sort_by_key(), vec![(0, &4), (1, &5)]);
    assert_eq!(v.clone().into_pairs(), vec![(0, 4), (1, 5)]);
    assert_eq!(v.into_sorted_by_key(), vec![(0, 4), (1, 5)]);
    let w = BufferedVector::<u32>::init(3);
    assert_eq!(w.0, vec![0, 0, 0]);
}

#[test]
fn mapped_vector_insert_get_replace() {
    let mut m = MappedVector::<u32>::new();
    assert!(m.is_empty());
    assert_eq!(m.insert(7, 70), None);
    assert_eq!(m.insert(3, 30), None);
    assert_eq!(m.insert(7, 71), Some(70));
    assert_eq!(m.get(7), Some(&71));
    assert_eq!(m.get(3), Some(&30));
    assert_eq!(m.get(4), None);
    assert_eq!(m.len(), 2);
    assert_eq!(m.frames(), &vec![71, 30]);
    assert_eq!(m.inverse_position(), &vec![7, 3]);
}

#[test]
fn mapped_vector_remove_moves_last_slot() {
    let mut m = MappedVector::<u32>::with_capacity(4);
    for (k, v) in [(5, 50), (1, 10), (9, 90), (2, 20)] {
        assert_eq!(m.insert(k, v), None);
    }
    assert_eq!(m.remove(8), None);
    assert_eq!(m.remove(1), Some(10));
    assert_eq!(m.inverse_position(), &vec![5, 2, 9]);
    assert_eq!(m.frames(), &vec![50, 20, 90]);
    assert_eq!(m.get(2), Some(&20));
    // removing the last slot moves nothing
    assert_eq!(m.remove(9), Some(90));
    assert_eq!(m.inverse_position(), &vec![5, 2]);
    assert_eq!(m.get(9), None);
    assert_eq!(m.len(), 2);
}

#[test]
fn mapped_vector_listing_and_init() {
    let mut m = MappedVector::<u32>::default();
    m.insert(4, 40);
    m.insert(0, 0);
    m.insert(2, 20);
    assert_eq!(m.pairs(), vec![(4, &40), (0, &0), (2, &20)]);
    assert_eq!(m.sort_by_key(), vec![(0, &0), (2, &20), (4, &40)]);
    let c = m.clone();
    assert_eq!(c.get(2), Some(&20));
    assert_eq!(c.inverse_position(), &vec![4, 0, 2]);
    assert_eq!(c.into_sorted_by_key(), vec![(0, 0), (2, 20), (4, 40)]);
    assert_eq!(m.into_pairs(), vec![(4, 40), (0, 0), (2, 20)]);
    let i = MappedVector::<u32>::init(3);
    assert_eq!(i.frames(), &vec![0, 0, 0]);
    assert_eq!(i.inverse_position(), &vec![0, 1, 2]);
    assert_eq!(i.get(1), Some(&0));
}
