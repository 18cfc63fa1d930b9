//! A bounded recency tracker for strings, with a persistence codec and a
//! candidate-validation policy.
//!
//! The tracker remembers the most recently selected items (oldest evicted
//! first), the codec turns a tracker into a structured text document and back,
//! and the validator reconciles a randomly chosen candidate against the
//! tracker so that recently shown items are not repeated while an untracked
//! alternative exists.

pub mod tracker;
pub mod persist;
