use pauli_tracker::pauli::single::Pauli as PauliSingle;
use pauli_tracker::pauli::stack::PauliStack;
use pauli_tracker::pauli::vec::PauliVec;
use pauli_tracker::pauli::{Pauli, PauliDense, PauliTuple};

#[test]
fn dense_encoding_of_the_four_paulis() {
    assert_eq!(PauliDense::new_i().storage(), 0);
    assert_eq!(PauliDense::new_z().storage(), 1);
    assert_eq!(PauliDense::new_x().storage(), 2);
    assert_eq!(PauliDense::new_y().storage(), 3);
    assert_eq!(PauliDense::new(true, true).storage(), 3);
    assert!(PauliDense::new_y().get_x() && PauliDense::new_y().get_z());
    assert_eq!(PauliDense::new_x().to_char(), 'X');
}

#[test]
fn dense_try_from_rejects_values_above_three() {
    assert_eq!(PauliDense::try_from(3).unwrap().storage(), 3);
    assert_eq!(PauliDense::try_from(4).unwrap_err(), 4);
}

#[test]
fn dense_and_tuple_convert_both_ways() {
    for v in 0..4u8 {
        let d = PauliDense::try_from(v).unwrap();
        let t = PauliTuple::from(d);
        assert_eq!(PauliDense::from(t).storage(), v);
    }
    let t = PauliTuple(true, false);
    assert_eq!(PauliTuple::from(PauliDense::from(t)), t);
}

#[test]
fn hadamard_and_phase_laws_on_every_pauli() {
    for v in 0..4u8 {
        let p = PauliDense::try_from(v).unwrap();
        let mut q = p;
        q.h();
        q.h();
        assert_eq!(q.storage(), v);
        let mut q = p;
        q.s();
        q.s();
        assert_eq!(q.storage(), v);
        let mut q = p;
        for _ in 0..3 {
            q.s();
            q.h();
        }
        assert_eq!(q.storage(), v);
    }
    // H exchanges X and Z, S maps X to Y and keeps Z
    let mut x = PauliTuple::new_x();
    x.h();
    assert_eq!(x, PauliTuple::new_z());
    let mut x = PauliTuple::new_x();
    x.s();
    assert_eq!(x, PauliTuple::new_y());
    let mut z = PauliTuple::new_z();
    z.s();
    assert_eq!(z, PauliTuple::new_z());
}

#[test]
fn single_pauli_components() {
    let mut p = PauliSingle::new_x();
    assert_eq!(p.storage(), 2);
    p.set_z(true);
    assert_eq!(p.storage(), 3);
    p.set_x(false);
    assert_eq!(p.storage(), 1);
    p.xor(PauliSingle::new_y());
    assert_eq!(p.storage(), 2);
    assert_eq!(u8::from(p), 2);
    assert_eq!(PauliSingle::try_from(7).unwrap_err(), 7);
}

#[test]
fn stack_from_strings() {
    let s = PauliStack::<Vec<bool>>::try_from_str("0110", "1100").unwrap();
    assert_eq!(s.left, vec![false, true, true, false]);
    assert_eq!(s.right, vec![true, true, false, false]);
    let e = PauliStack::<Vec<bool>>::try_from_str("01a0", "2").unwrap_err();
    assert_eq!(e.string, "a");
    let e = PauliStack::<Vec<bool>>::try_from_str("01", "1x").unwrap_err();
    assert_eq!(e.string, "x");
}

#[test]
fn stack_push_pop_and_sum_up() {
    let mut s = PauliStack::<Vec<bool>>::new();
    s.push(PauliTuple::new_x());
    s.push(PauliTuple::new_y());
    s.push(PauliTuple::new_z());
    // parity of the selected X and Z components
    assert_eq!(s.sum_up(&[true, true, false]), PauliTuple(false, true));
    assert_eq!(s.sum_up(&[true, false, true]), PauliTuple(true, true));
    let p: PauliTuple = s.pop().unwrap();
    assert_eq!(p, PauliTuple::new_z());
    let p: PauliTuple = s.pop().unwrap();
    assert_eq!(p, PauliTuple::new_y());
    s.s();
    s.s();
    assert_eq!(s.left, vec![true]);
    assert_eq!(s.right, vec![false]);
    s.h();
    assert_eq!(s.left, vec![false]);
    assert_eq!(s.right, vec![true]);
}

#[test]
fn vec_skips_non_digits_and_pops_missing_as_false() {
    let mut v = PauliVec::<Vec<bool>>::try_from_str("1 0-1", "01").unwrap();
    assert_eq!(v.left, vec![true, false, true]);
    assert_eq!(v.right, vec![false, true]);
    let p = v.pop_or_false();
    assert_eq!(p.storage(), 3);
    let p = v.pop_or_false();
    assert_eq!(p.storage(), 0);
    let p = v.pop_or_false();
    assert_eq!(p.storage(), 2);
    let p = v.pop_or_false();
    assert_eq!(p.storage(), 0);
}
