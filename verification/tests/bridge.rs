use apc::bridge::{LifecycleGate, BRIDGE_VERSION};

#[test]
fn bridge_lifecycle_is_fail_closed_and_reversible() {
    let mut gate = LifecycleGate::new();
    gate.enter_background();
    assert!(!gate.is_foreground());

    gate.enter_foreground();
    assert!(gate.is_foreground());

    gate.enter_background();
    assert!(!gate.is_foreground());
}

#[test]
fn bridge_version_is_nonempty_and_names_the_boundary() {
    assert!(BRIDGE_VERSION.starts_with("apc-android-bridge/"));
    assert!(BRIDGE_VERSION.len() > "apc-android-bridge/".len());
}

#[test]
fn new_gate_starts_closed() {
    let gate = LifecycleGate::new();
    assert!(!gate.is_foreground());
}
