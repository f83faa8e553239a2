use vstd::prelude::*;

pub mod bridge;
pub mod bytes;
pub mod candidate;
pub mod catchup;
pub mod cycle;
pub mod domain;
pub mod durability;
pub mod error;
pub mod finalization;
pub mod graph;
pub mod handoff;
pub mod id;
pub mod merge;
pub mod idset;
pub mod image;
pub mod order;
pub mod probe;
pub mod recorded;
pub mod protection;
pub mod receive;
pub mod recovery;
pub mod recovery_set;
pub mod resume;
pub mod scalar;
pub mod snapshot_codec;
pub mod state;
pub mod trusted_state;
pub mod working;

verus! {

} // verus!
