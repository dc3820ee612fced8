use pauli_tracker::scheduler::tree::{EmptyStackError, Sweep};
use pauli_tracker::serialization::{format_of, Format};
use pauli_tracker::tracker::MissingStack;

#[test]
fn known_and_unknown_formats() {
    assert_eq!(format_of("serde_json", false).unwrap(), Format::SerdeJson);
    assert_eq!(format_of("bincode", true).unwrap(), Format::Bincode);
    let e = format_of("bincode", false).unwrap_err();
    assert_eq!(e.name(), "bincode");
    let e = format_of("yaml", true).unwrap_err();
    assert_eq!(e.name(), "yaml");
}

#[test]
fn missing_stack_default() {
    assert_eq!(MissingStack::default(), MissingStack { bit: 0 });
}

#[test]
fn skipping_without_ancestors_fails() {
    let mut sweep = Sweep::new(1u8, vec![]);
    assert_eq!(sweep.skip_focus(), Err(EmptyStackError));
    assert_eq!(*sweep.current(), 1);
    let mut sweep = Sweep::new(2u8, vec![1u8]);
    assert_eq!(sweep.skip_focus(), Ok(()));
    assert_eq!(*sweep.current(), 1);
    assert!(sweep.stack().is_empty());
}
