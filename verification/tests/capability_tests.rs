use ferret::capability::allocator::{check_capability_conflicts, CapabilityError};
use ferret::capability::wrappers::{ExclusiveCapability, SharedCapability};
use ferret::memory::task::TaskDescriptor;

/// Build a minimal descriptor with explicit capability masks.
fn make_task(id: u8, exclusive: u32, shared: u32) -> TaskDescriptor {
    TaskDescriptor::with_capabilities(
        id,
        1,
        0x2000_0000,
        256,
        0x2000_0000,
        0x2000_1000,
        exclusive,
        shared,
        0,
    )
}

#[test]
fn test_no_conflict_passes() {
    let registry: [Option<TaskDescriptor>; 2] = [Some(make_task(0, 0b01, 0)), Some(make_task(1, 0b10, 0))];
    assert!(check_capability_conflicts(&registry).is_ok());
}

#[test]
fn test_exclusive_conflict_halts() {
    let registry: [Option<TaskDescriptor>; 2] = [Some(make_task(0, 0b1, 0)), Some(make_task(1, 0b1, 0))];
    assert_eq!(
        check_capability_conflicts(&registry),
        Err(CapabilityError::Conflict { cap_id: 0, first_task: 0, second_task: 1 })
    );
}

#[test]
fn test_shared_capability_allowed() {
    let registry: [Option<TaskDescriptor>; 2] = [Some(make_task(0, 0, 0b1)), Some(make_task(1, 0, 0b1))];
    assert!(check_capability_conflicts(&registry).is_ok());
}

#[test]
fn test_multiple_exclusive_same_task_ok() {
    let registry: [Option<TaskDescriptor>; 1] = [Some(make_task(0, (1 << 0) | (1 << 13), 0))];
    assert!(check_capability_conflicts(&registry).is_ok());
}

#[test]
fn test_empty_registry_passes() {
    let registry: [Option<TaskDescriptor>; 4] = [None, None, None, None];
    assert!(check_capability_conflicts(&registry).is_ok());
}

#[test]
fn test_none_slots_ignored() {
    let registry: [Option<TaskDescriptor>; 4] = [Some(make_task(0, 0b111, 0)), None, None, None];
    assert!(check_capability_conflicts(&registry).is_ok());
}

#[test]
fn conflict_reports_lowest_shared_peripheral_of_first_conflicting_slot() {
    // Slot 0 holds bits 3 and 5, slot 1 holds bit 9, slot 2 holds bits 5, 9 and 30.
    let registry: [Option<TaskDescriptor>; 4] = [
        Some(make_task(7, (1 << 3) | (1 << 5), 0)),
        Some(make_task(8, 1 << 9, 0)),
        None,
        Some(make_task(9, (1 << 5) | (1 << 9) | (1 << 30), 0)),
    ];
    assert_eq!(
        check_capability_conflicts(&registry),
        Err(CapabilityError::Conflict { cap_id: 5, first_task: 7, second_task: 9 })
    );
}

#[test]
fn conflict_on_highest_peripheral_bit() {
    let registry: [Option<TaskDescriptor>; 2] = [Some(make_task(1, 1 << 31, 0)), Some(make_task(2, 1 << 31, 0))];
    assert_eq!(
        check_capability_conflicts(&registry),
        Err(CapabilityError::Conflict { cap_id: 31, first_task: 1, second_task: 2 })
    );
}

#[test]
fn holder_waiter_pair_is_not_a_conflict() {
    let holder = make_task(0, 0b1, 0);
    let waiter = TaskDescriptor::with_capabilities(1, 3, 0x2000_0000, 256, 0x2000_0000, 0x2000_1000, 0, 0, 0b1);
    let registry: [Option<TaskDescriptor>; 2] = [Some(holder), Some(waiter)];
    assert!(check_capability_conflicts(&registry).is_ok());
}

#[test]
fn capability_tokens_construct() {
    let _exclusive: ExclusiveCapability<u8> = ExclusiveCapability::new();
    let shared: SharedCapability<u8> = SharedCapability::new();
    let _copy = shared.clone();
}
