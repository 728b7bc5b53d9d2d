//! Execution-state core of a structural code search-and-rewrite engine.
//!
//! Tracks bound variables across nested pattern invocations, accumulates
//! proposed edits ("effects"), addresses multiple revisions of the same
//! file, and resolves which proposed edits are applied when several overlap.

pub mod analytics;
pub mod effects;
pub mod error;
pub mod files;
pub mod ranges;
pub mod rng;
pub mod state;
pub mod vars;
