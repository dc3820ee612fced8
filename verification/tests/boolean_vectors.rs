use pauli_tracker::bool_vector::bitvec_simd::SimdBoolVec;
use pauli_tracker::bool_vector::BoolVector;
use pauli_tracker::boolean_vector::bitvec_simd::SimdBitVec;
use pauli_tracker::boolean_vector::BooleanVector;

fn exercise<T: BooleanVector>() {
    let mut v = T::zeros(3);
    assert_eq!(v.len(), 3);
    v.set(1, true);
    assert!(v.get(1) && !v.get(0) && !v.get(2));
    v.push(true);
    assert_eq!(v.len(), 4);
    assert_eq!(v.pop(), Some(true));
    let mut w = T::zeros(3);
    w.set(0, true);
    w.set(1, true);
    let before: Vec<bool> = (0..3).map(|i| v.get(i)).collect();
    v.xor_inplace(&w);
    assert_eq!((0..3).map(|i| v.get(i)).collect::<Vec<_>>(), vec![true, false, false]);
    v.xor_inplace(&w);
    assert_eq!((0..3).map(|i| v.get(i)).collect::<Vec<_>>(), before);
    v.or_inplace(&w);
    assert_eq!((0..3).map(|i| v.get(i)).collect::<Vec<_>>(), vec![true, true, false]);
    v.resize(5, true);
    assert_eq!((0..5).map(|i| v.get(i)).collect::<Vec<_>>(), vec![true, true, false, true, true]);
    v.resize(2, false);
    assert_eq!(v.len(), 2);
    assert_eq!(v.sum_up(&[true, true]), 0);
    assert_eq!(v.sum_up(&[true, false]), 1);
    let mut e = T::new();
    assert!(e.is_empty());
    assert_eq!(e.pop(), None);
}

#[test]
fn std_vec_boolean_vector() {
    exercise::<Vec<bool>>();
}

#[test]
fn bit_vec_boolean_vector() {
    exercise::<bit_vec::BitVec>();
}

#[test]
fn simd_boolean_vector() {
    exercise::<SimdBitVec>();
}

#[test]
fn simd_iterators() {
    let mut v = SimdBitVec::zeros(2);
    v.set(1, true);
    let mut it = v.iter_vals();
    assert_eq!(it.next(), Some(false));
    assert_eq!(it.next(), Some(true));
    assert_eq!(it.next(), None);
    let mut it = v.clone().into_iter();
    assert_eq!(it.next(), Some(false));
    assert_eq!(it.next(), Some(true));
    assert_eq!(it.next(), None);
}

#[test]
fn large_zeros_and_pop_to_empty() {
    let mut v = SimdBitVec::zeros(1000);
    assert_eq!(v.len(), 1000);
    v.set(999, true);
    assert_eq!(v.pop(), Some(true));
    assert_eq!(v.len(), 999);
    let mut b = bit_vec::BitVec::zeros(17);
    assert_eq!(b.len(), 17);
    b.set(16, true);
    assert_eq!(BooleanVector::pop(&mut b), Some(true));
}

#[test]
fn earlier_bool_vector_on_simd_bits() {
    let mut v = SimdBoolVec::new();
    v.push(true);
    v.push(false);
    v.push(true);
    assert_eq!(v.bits(), 3);
    let mut it = v.iter_vals();
    assert_eq!(it.next(), Some(true));
    assert_eq!(it.next(), Some(false));
    assert_eq!(it.next(), Some(true));
    assert_eq!(it.next(), None);
    let mut w = SimdBoolVec::zeros(3);
    w.set(1, true);
    v.xor_inplace(&w);
    let bits: Vec<bool> = {
        let mut it = v.clone().into_iter();
        let mut out = Vec::new();
        while let Some(b) = it.next() {
            out.push(b);
        }
        out
    };
    assert_eq!(bits, vec![true, true, true]);
    v.or_inplace(&w);
    assert_eq!(v.pop(), Some(true));
    v.resize(4, false);
    assert_eq!(v.bits(), 4);
    let mut e = SimdBoolVec::new();
    assert_eq!(e.pop(), None);
    e.push(false);
    assert_eq!(e.bits(), 1);
    assert_eq!(e.pop(), Some(false));
}
