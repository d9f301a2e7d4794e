//! Key-transition detection and timing engine for strafe-timing analysis.
//!
//! The library converts a stream of keyboard-state snapshots into a
//! deduplicated stream of press/release timing events. Each snapshot is a set
//! of key codes; the tracker diffs it against the previous snapshot,
//! classifies each transition as a clean strafe (press while nothing else is
//! held) or a counter strafe (release while other keys are still held), and
//! computes the corresponding timing value.

pub mod laws;
pub mod model;
pub mod tracker;
