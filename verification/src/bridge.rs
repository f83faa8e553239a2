//! The foreground gate of the Android bridge and the bridge identity.
//!
//! Synchronization I/O is allowed only while the app is in the foreground;
//! synchronization starts blocked and is blocked again as soon as the app moves to the
//! background.
use vstd::prelude::*;

verus! {

/// Identity reported by the bridge so that a harness can tell which library
/// it loaded.
pub const BRIDGE_VERSION: &'static str = "apc-android-bridge/0.1.0";

/// The foreground-only gate for synchronization I/O.
#[derive(Debug)]
pub struct LifecycleGate {
    foreground: bool,
}

impl View for LifecycleGate {
    type V = bool;

    closed spec fn view(&self) -> bool {
        self.foreground
    }
}

impl LifecycleGate {
    /// A gate that starts closed.
    pub fn new() -> (g: Self)
        ensures
            !g@,
    {
        LifecycleGate { foreground: false }
    }

    /// Allows synchronization: the app came to the foreground.
    pub fn enter_foreground(&mut self)
        ensures
            final(self)@,
    {
        self.foreground = true;
    }

    /// Blocks synchronization: the app moved to the background.
    pub fn enter_background(&mut self)
        ensures
            !final(self)@,
    {
        self.foreground = false;
    }

    pub fn is_foreground(&self) -> (b: bool)
        ensures
            b == self@,
    {
        self.foreground
    }
}

} // verus!
