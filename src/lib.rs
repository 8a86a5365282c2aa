//! Composition and application of byte-level deltas.
//!
//! A [`Fragment`] replaces one contiguous range of a text with new bytes; a
//! [`Delta`] is a sorted, non-overlapping list of fragments. The library applies
//! deltas to texts and composes chains of deltas into a single equivalent delta.

pub mod fragment;
pub mod text;
pub mod coords;
pub mod delta;
