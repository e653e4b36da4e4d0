//! The filter algebra: terms, the interning store, and the rewriting system
//! that normalizes and optimizes filter expressions.
//!
//! - `term`: the model of a filter, a finite term;
//! - `store`, `hash`: the arena in which structurally equal filters share
//!   one handle;
//! - `memo`: tables from a filter to the filter computed for it;
//! - `rules`: what each rewriting function computes, as functions on terms;
//! - `shrink`: why the rewriting terminates;
//! - `members`, `opt`: the executable rewriting functions;
//! - `laws`: laws of the rewriting system;
//! - `meaning`, `sound`, `linear`, `distribute`: what a filter yields for a
//!   content, and the proofs that rewriting keeps it.

pub mod distribute;
pub mod hash;
pub mod laws;
pub mod linear;
pub mod meaning;
pub mod members;
pub mod memo;
pub mod opt;
pub mod rules;
pub mod shrink;
pub mod sound;
pub mod store;
pub mod term;
