use pauli_tracker::pauli::single;
use pauli_tracker::pauli::{Pauli, PauliDense};

#[test]
fn dense_set() {
    type Action = fn(&mut PauliDense, bool);
    let actions: [(Action, &str, [[u8; 4]; 2]); 2] = [
        (PauliDense::set_x, "set_x", [[0, 1, 0, 1], [2, 3, 2, 3]]),
        (PauliDense::set_z, "set_z", [[0, 0, 2, 2], [1, 1, 3, 3]]),
    ];
    let mut pauli = PauliDense::new_i();
    for action in actions {
        for (flag, checks) in [false, true].into_iter().zip(action.2) {
            for (input, check) in (0u8..).zip(checks) {
                pauli.set_storage(input);
                (action.0)(&mut pauli, flag);
                assert_eq!(pauli.storage(), check, "{}, {}, {}", action.1, input, flag);
            }
        }
    }
}

#[test]
fn single_set() {
    type Action = fn(&mut single::Pauli, bool);
    let actions: [(Action, &str, [[u8; 4]; 2]); 2] = [
        (single::Pauli::set_x, "set_x", [[0, 1, 0, 1], [2, 3, 2, 3]]),
        (single::Pauli::set_z, "set_z", [[0, 0, 2, 2], [1, 1, 3, 3]]),
    ];
    let mut pauli = single::Pauli::new_i();
    for action in actions {
        for (flag, checks) in [false, true].into_iter().zip(action.2) {
            for (input, check) in (0u8..).zip(checks) {
                pauli.set_storage(input);
                (action.0)(&mut pauli, flag);
                assert_eq!(pauli.storage(), check, "{}, {}, {}", action.1, input, flag);
            }
        }
    }
}
