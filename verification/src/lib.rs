//! Merging of entries in an ordered map.
//!
//! Two operations fold runs of entries of a `BTreeMap` into the first entry
//! of each run. A run starts at a representative entry and takes in the
//! entries that follow it in ascending key order for as long as a predicate
//! holds between the representative, as it was given, and the entry.
//! [`merge_consecutive`] takes the map apart and rebuilds it; [`merge`] plans
//! the merges in a scan of the map and then carries the plan out in place.
//!
//! What the operations compute is defined in [`model`], stated over the
//! ascending listing of a map's entries that [`order`] defines, and shown to
//! obey the laws in [`laws`]; [`lemmas`] holds the facts about the model that
//! the proofs rest on.

pub mod consecutive;
pub mod global;
pub mod laws;
pub mod lemmas;
pub mod model;
pub mod order;
mod trusted;
mod walk;

pub use consecutive::merge_consecutive;
pub use global::{apply_merges, merge, plan_merges};
