//! Verified splice and validation engines for a versioned binary animation
//! container.
//!
//! A container holds per-category groups of named nodes, each node owning
//! tracks whose payload bytes live at an (offset, size) range inside the
//! container's single byte buffer.  [`splice::splice`] merges a reference and
//! a modified container into a freshly packed output, and
//! [`validate::validate`] checks a candidate container against a reference
//! for unchanged skeletal animation data.  Decoding and encoding the on-disk
//! layout is left to an external codec; this crate works on the decoded,
//! plain-value form.

pub mod model;
pub mod splice;
pub mod laws;
pub mod values;
pub mod validate;
pub mod mode;
