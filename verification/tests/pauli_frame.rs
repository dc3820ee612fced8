use pauli_tracker::pauli_frame::storage::{MappedVector, PauliStorage, SmallPauliStorage};
use pauli_tracker::pauli_frame::{sort_pauli_storage, Frames, Pauli, PauliVec};

type Storage = SmallPauliStorage;

#[test]
fn one_qubit() {
    // pauli p = ab in binary; encoding: x = a, z = b
    type Action = dyn Fn(&mut Frames<Storage>, usize);
    let gates: [(&Action, &str, [u8; 4]); 5] = [
        (&|f, b| Frames::x(f, b), "X", [3, 2, 1, 0]),
        (&|f, b| Frames::z(f, b), "Z", [3, 2, 1, 0]),
        (&|f, b| Frames::y(f, b), "Y", [3, 2, 1, 0]),
        (&|f, b| Frames::h(f, b), "H", [3, 1, 2, 0]),
        (&|f, b| Frames::s(f, b), "S", [2, 3, 1, 0]),
    ];

    for action in gates {
        let mut frames = Frames::<Storage>::default();
        frames.new_qubit(0);
        for pauli in 0..4 {
            frames.track_pauli_string(vec![(0, Pauli::try_from(pauli).unwrap())]);
        }
        (action.0)(&mut frames, 0);
        for (check, input) in (0..4).zip((0..4).rev()) {
            assert_eq!(
                *frames.pop_frame().unwrap().get(0).unwrap().1.storage(),
                action.2[check],
                "{}, {}",
                action.1,
                input
            );
        }
    }
}

#[test]
fn two_qubit() {
    // double-pauli p = abcd in binary;
    // encoding: x_0 = a, z_0 = b, x_1 = c, z_2 = d
    type Action = dyn Fn(&mut Frames<Storage>, usize, usize);
    let gates: [(&Action, &str, [u8; 16]); 2] = [
        (
            &|f, a, b| Frames::cx(f, a, b), // left->control, right->target
            "CX",
            [9, 12, 11, 14, 13, 8, 15, 10, 3, 6, 1, 4, 7, 2, 5, 0],
        ),
        (
            &|f, a, b| Frames::cz(f, a, b),
            "CZ",
            [10, 11, 12, 13, 14, 15, 8, 9, 3, 2, 5, 4, 7, 6, 1, 0],
        ),
    ];

    // masks to decode p in 0..16 into two paulis and vice versa
    const FIRST: u8 = 12;
    const FIRST_SHIFT: u8 = 2;
    const SECOND: u8 = 3;

    for action in gates {
        let mut frames = Frames::<Storage>::default();
        frames.new_qubit(0);
        frames.new_qubit(1);
        for pauli in 0..16 {
            frames.track_pauli_string(vec![
                (0, Pauli::try_from((pauli & FIRST) >> FIRST_SHIFT).unwrap()),
                (1, Pauli::try_from(pauli & SECOND).unwrap()),
            ]);
        }
        (action.0)(&mut frames, 0, 1);
        for (check, input) in (0..16).zip((0..16).rev()) {
            let frame = frames.pop_frame().unwrap();
            let mut result = 0_u8;
            for (i, p) in frame {
                if i == 0 {
                    result += p.storage() << FIRST_SHIFT
                } else if i == 1 {
                    result += p.storage()
                }
            }
            assert_eq!(result, action.2[check], "{}, {}", action.1, input);
        }
    }
}

#[test]
fn pop_after_track_gives_back_the_pauli() {
    let mut frames = Frames::<Storage>::init(3);
    frames.track_pauli(1, Pauli::try_from(3).unwrap());
    assert_eq!(frames.frames_num(), 1);
    let mut frame = frames.pop_frame().unwrap();
    frame.sort_by_key(|(q, _)| *q);
    let codes: Vec<(usize, u8)> = frame.iter().map(|(q, p)| (*q, *p.storage())).collect();
    assert_eq!(codes, vec![(0, 0), (1, 3), (2, 0)]);
    assert_eq!(frames.frames_num(), 0);
    // all stacks are empty again
    assert_eq!(frames.pop_frame(), None);
}

#[test]
fn last_pair_of_a_string_wins_and_missing_qubits_are_skipped() {
    let mut frames = Frames::<Storage>::init(2);
    frames.track_pauli_string(vec![
        (0, Pauli::new(true, false)),
        (5, Pauli::new(true, true)),
        (0, Pauli::new(false, true)),
    ]);
    let mut frame = frames.pop_frame().unwrap();
    frame.sort_by_key(|(q, _)| *q);
    let codes: Vec<(usize, u8)> = frame.iter().map(|(q, p)| (*q, *p.storage())).collect();
    assert_eq!(codes, vec![(0, 1), (1, 0)]);
}

#[test]
fn gates_applied_twice_are_undone() {
    let mut frames = Frames::<Storage>::init(2);
    for p in 0..4u8 {
        frames.track_pauli_string(vec![
            (0, Pauli::try_from(p).unwrap()),
            (1, Pauli::try_from(3 - p).unwrap()),
        ]);
    }
    let before = pauli_tracker::pauli_frame::into_sorted_pauli_storage(frames.clone().into_storage());
    frames.h(0);
    frames.h(0);
    frames.s(1);
    frames.s(1);
    frames.cx(0, 1);
    frames.cx(0, 1);
    frames.cz(1, 0);
    frames.cz(1, 0);
    let after = pauli_tracker::pauli_frame::into_sorted_pauli_storage(frames.into_storage());
    assert_eq!(before, after);
}

#[test]
fn measuring_moves_the_stack() {
    let mut frames = Frames::<Storage>::init(2);
    frames.track_pauli(0, Pauli::new(true, false));
    let mut other = Storage::default();
    frames.measure_and_store(0, &mut other);
    assert!(frames.measure(0).is_none());
    let stored = pauli_tracker::pauli_frame::into_sorted_pauli_storage(other);
    assert_eq!(stored.len(), 1);
    assert_eq!(stored[0].0, 0);
    let mut p: PauliVec = PauliVec::new();
    p.push(true, false);
    assert_eq!(stored[0].1, p);
    let mut all = Storage::default();
    frames.measure_and_store_all(&mut all);
    let all = pauli_tracker::pauli_frame::into_sorted_pauli_storage(all);
    assert_eq!(all.len(), 1);
    assert_eq!(all[0].0, 1);
}

#[test]
fn new_qubit_reports_present_qubits() {
    let mut frames = Frames::<Storage>::init(1);
    frames.track_pauli(0, Pauli::new(false, true));
    assert_eq!(frames.new_qubit(0), Some(0));
    assert_eq!(frames.new_qubit(4), None);
    frames.clear_all();
    assert_eq!(frames.frames_num(), 0);
}

fn stack(bits: &[(bool, bool)]) -> PauliVec {
    let mut p = PauliVec::new();
    for &(x, z) in bits {
        p.push(x, z);
    }
    p
}

#[test]
fn slot_storage_init_and_get() {
    let storage = PauliStorage::init(3);
    for q in 0..3 {
        assert_eq!(*storage.get(q).unwrap(), PauliVec::new());
    }
    assert!(storage.get(3).is_none());
    let listed: Vec<usize> = storage.iter().into_iter().map(|(q, _)| q).collect();
    assert_eq!(listed, vec![0, 1, 2]);
}

#[test]
fn slot_storage_insert_remove_moves_last_slot() {
    let mut storage = PauliStorage::new();
    assert!(storage.insert_pauli(4, stack(&[(true, false)])).is_none());
    assert!(storage.insert_pauli(7, stack(&[(false, true)])).is_none());
    assert!(storage.insert_pauli(9, stack(&[(true, true)])).is_none());
    assert!(storage.remove_pauli(8).is_none());
    // removing the stack in the first slot moves the stack of the last slot there
    assert_eq!(storage.remove_pauli(4).unwrap(), stack(&[(true, false)]));
    assert!(storage.get(4).is_none());
    assert_eq!(*storage.get(9).unwrap(), stack(&[(true, true)]));
    let pairs = storage.into_pairs();
    assert_eq!(pairs, vec![(9, stack(&[(true, true)])), (7, stack(&[(false, true)]))]);
}

#[test]
fn slot_storage_insert_present_hands_back() {
    let mut storage = PauliStorage::init(2);
    let p = stack(&[(true, true), (false, true)]);
    assert_eq!(storage.insert_pauli(1, stack(&[(true, true), (false, true)])), Some(p));
}

#[test]
fn slot_storage_getters_follow_slots() {
    let mut storage = MappedVector::init(3);
    assert_eq!(storage.remove_pauli(1), Some(PauliVec::new()));
    assert_eq!(storage.inverse_position(), &vec![0, 2]);
    assert_eq!(storage.frames().len(), 2);
}

#[test]
fn small_storage_sorted_by_qubit() {
    let mut storage = SmallPauliStorage::new();
    storage.insert(5, stack(&[(true, false)]));
    storage.insert(1, stack(&[(false, true)]));
    storage.insert(3, PauliVec::new());
    let sorted = sort_pauli_storage(&storage);
    let qubits: Vec<usize> = sorted.iter().map(|(q, _)| *q).collect();
    assert_eq!(qubits, vec![1, 3, 5]);
    assert_eq!(*sorted[0].1, stack(&[(false, true)]));
    assert_eq!(*sorted[2].1, stack(&[(true, false)]));
}

#[test]
fn slot_storage_removes_the_last_slot() {
    let mut storage = PauliStorage::init(3);
    assert_eq!(storage.remove_pauli(2), Some(PauliVec::new()));
    assert_eq!(storage.inverse_position(), &vec![0, 1]);
    assert!(storage.get(2).is_none());
    assert_eq!(storage.remove_pauli(1), Some(PauliVec::new()));
    assert_eq!(storage.remove_pauli(0), Some(PauliVec::new()));
    assert!(storage.inverse_position().is_empty());
}
