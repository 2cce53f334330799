//! Orchestration engine for transient desktop notifications: a queue of
//! pending records, a bounded pool of display surfaces, a stacking layout and
//! a bounded history, with every state change checked against its contract.
use vstd::prelude::*;

pub mod audio;
mod ids;
pub mod laws;
pub mod layout;
pub mod manager;
pub mod monitors;
pub mod notification;
pub mod orchestrator;
pub mod plugin;
pub mod script;

verus! {

} // verus!
