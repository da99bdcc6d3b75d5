//! Disabled-state propagation for a grouping container in a mutable document
//! tree.
//!
//! The tree is an arena of elements addressed by index; a grouping container's
//! disabling attribute cascades to the listed interactive controls below it,
//! with the first caption-kind child's subtree exempt. Setting the state forces
//! it; clearing it re-derives each control's state from its own attribute and
//! its ancestor grouping containers.

pub mod cascade;
pub mod fieldset;
pub mod laws;
pub mod tree;
