use rebind_control::state::MigrationState;
use std::sync::{Arc, Mutex};

#[test]
fn new_state_has_no_request() {
    let state = MigrationState::new();
    assert_eq!(state.next_target(), "");
    assert_eq!(state.migration_epoch(), 0);
    assert!(!state.is_pending());
}

#[test]
fn update_writes_target_and_epoch_together() {
    let mut state = MigrationState::new();
    state.update(String::from("127.0.0.1:6000"));
    assert_eq!(state.next_target(), "127.0.0.1:6000");
    assert_eq!(state.migration_epoch(), 1);
    assert!(state.is_pending());
}

#[test]
fn last_update_wins() {
    let mut state = MigrationState::new();
    let addresses = ["10.0.0.1:1", "bogus", "[::1]:3", "10.0.0.4:4"];
    for (i, a) in addresses.iter().enumerate() {
        state.update(String::from(*a));
        assert_eq!(state.next_target(), *a);
        assert_eq!(state.migration_epoch(), i as u64 + 1);
    }
    assert_eq!(state.next_target(), "10.0.0.4:4");
    assert_eq!(state.migration_epoch(), 4);
}

#[test]
fn snapshot_is_a_copy_of_both_fields() {
    let mut state = MigrationState::new();
    state.update(String::from("10.0.0.1:1"));
    let copy = state.snapshot();
    assert_eq!(copy, state);
    state.update(String::from("10.0.0.2:2"));
    assert_eq!(copy.next_target(), "10.0.0.1:1");
    assert_eq!(copy.migration_epoch(), 1);
    assert_eq!(state.next_target(), "10.0.0.2:2");
    assert_eq!(state.migration_epoch(), 2);
}

#[test]
fn serialized_updates_never_mix_fields() {
    let shared = Arc::new(Mutex::new(MigrationState::new()));
    let inputs: Vec<String> = (0..16).map(|i| format!("10.0.0.{}:{}", i, 6000 + i)).collect();
    let mut seen = Vec::new();
    for a in inputs.iter() {
        let mut guard = shared.lock().unwrap();
        guard.update(a.clone());
        seen.push((guard.next_target().to_string(), guard.migration_epoch()));
    }
    let last = shared.lock().unwrap().snapshot();
    assert_eq!(last.migration_epoch(), 16);
    assert!(inputs.iter().any(|a| a == last.next_target()));
    assert_eq!(seen.last().unwrap(), &(last.next_target().to_string(), 16u64));
}
