//! Rewriting the history of a content-addressed object graph by a filter.
//!
//! A filter is an expression over a small algebra of path rewriting,
//! subtree extraction and set combination. This crate holds the two parts
//! that decide what is done:
//!
//! - [`filter`]: filters as interned expressions, and the rewriting system
//!   that flattens, simplifies and optimizes them;
//! - [`history`]: the traversal that computes the filtered equivalent of a
//!   history node while reusing every result that is already cached, and
//!   the search for the original of a filtered node.
//!
//! Every function is verified against a contract. The contracts of the
//! rewriting functions name the term that the result denotes; the laws that
//! hold between them are proof functions in `filter::laws`,
//! `filter::meaning`, `filter::sound` and `history::laws`.

pub mod filter;
pub mod history;
pub mod path;
