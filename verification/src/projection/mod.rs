//! Projections: how the state of an entity is folded, cached, watched and
//! reported.

pub mod cache_identity;
pub mod encrypted_replay;
pub mod evidence_registry;
pub mod flow;
pub mod fusion;
pub mod lanes;
pub mod registry;
pub mod run_evidence;
pub mod state_contract;
pub mod watch;
