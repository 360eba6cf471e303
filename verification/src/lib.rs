//! Memoized evaluation of a three-parameter recurrence over 15-bit words,
//! and the search for the smallest parameter at which a fixed evaluation of
//! the recurrence yields a wanted word.
//!
//! * [`recurrence`] defines the recurrence as a mathematical function and
//!   states its laws.
//! * [`memo`] holds the table of results already computed.
//! * [`evaluator`] computes the recurrence against such a table.
//! * [`search`] drives the evaluator over a range of candidate parameters.

pub mod evaluator;
pub mod memo;
pub mod recurrence;
pub mod search;
