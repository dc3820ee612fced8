use pauli_tracker::circuit::simple::{Gate, SimpleCircuit};
use pauli_tracker::circuit::{CliffordCircuit, DummyCircuit, RandomMeasurementCircuit, TrackedCircuit};
use pauli_tracker::pauli_frame::storage::SmallPauliStorage;
use pauli_tracker::pauli_frame::{into_sorted_pauli_storage, Frames, Pauli};

#[test]
fn simple_circuit_records_gates() {
    let mut c = SimpleCircuit::new();
    c.x(0);
    c.h(1);
    c.cx(0, 1);
    assert_eq!(c.measure(1), None);
    assert_eq!(c.gates, vec![Gate::X(0), Gate::H(1), Gate::CX(0, 1), Gate::Measure(1)]);
}

#[test]
fn dummy_and_random_measurements() {
    let mut d = DummyCircuit::new();
    d.h(0);
    assert_eq!(d.measure(0), None);
    let mut r = RandomMeasurementCircuit {};
    for _ in 0..10 {
        assert!(r.measure(0).is_some());
    }
}

#[test]
fn tracked_circuit_moves_measured_stacks() {
    let mut circ = TrackedCircuit {
        circuit: SimpleCircuit::new(),
        tracker: Frames::<SmallPauliStorage>::init(2),
        storage: SmallPauliStorage::default(),
    };
    circ.tracker.track_pauli(0, Pauli::new(false, true));
    circ.x(1);
    circ.measure(0);
    assert_eq!(circ.circuit.gates, vec![Gate::X(1), Gate::Measure(0)]);
    let stored = into_sorted_pauli_storage(circ.storage);
    assert_eq!(stored.len(), 1);
    assert_eq!(stored[0].0, 0);
    let remaining = into_sorted_pauli_storage(circ.tracker.into_storage());
    assert_eq!(remaining.len(), 1);
    assert_eq!(remaining[0].0, 1);
}

#[test]
fn dense_circuit_iterates_gates_in_order() {
    let mut c = pauli_tracker::circuit::dense::Circuit::new();
    c.x(5);
    c.x(7);
    let mut it = c.iter();
    assert_eq!(it.next(), Some(Gate::X(5)));
    assert_eq!(it.next(), Some(Gate::X(7)));
    assert_eq!(it.next(), None);
    assert_eq!(it.next(), None);
}

#[test]
fn simple_circuit_records_control_z_and_tracked_y_z() {
    let mut c = SimpleCircuit::new();
    c.cz(0, 1);
    assert_eq!(c.gates, vec![Gate::CZ(0, 1)]);
    let mut circ = TrackedCircuit {
        circuit: SimpleCircuit::new(),
        tracker: Frames::<SmallPauliStorage>::init(2),
        storage: SmallPauliStorage::default(),
    };
    circ.y(0);
    circ.z(1);
    assert_eq!(circ.circuit.gates, vec![Gate::Y(0), Gate::Z(1)]);
}
