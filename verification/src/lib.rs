//! A layered reference model for checking the crash consistency of a
//! key-value store.
//!
//! The model records every batch of writes as a layer, tracks which layers
//! were forced durable, and after a restart decides whether the state the
//! store reports is one that a durable prefix of the recorded history
//! explains.
use vstd::prelude::*;

pub mod content;
pub mod durability;
pub mod model;
pub mod options;
pub mod replay;
pub mod resolver;

verus! {

/// Entry points of the model, grouped the way a driver calls them.
pub struct Simulator;

} // verus!
