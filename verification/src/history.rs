//! Incremental traversal of a commit history under a filter.
//!
//! The traversal reads a repository, a cache of earlier results and the
//! per-commit filtering operation, none of which live here. It is therefore
//! written as a machine: each function takes the state of a traversal and
//! the answer to the last request, and returns the next state and the next
//! request. Whoever drives the machine performs the requests.
//!
//! - `ids`: identifiers of nodes, and a map between them;
//! - `walk`: the walker and its search for the frontier of known work;
//! - `origin`: the search for the original of a filtered node;
//! - `laws`: what the machines ask for and how they end, for given answers.

pub mod ids;
pub mod laws;
pub mod origin;
pub mod walk;
