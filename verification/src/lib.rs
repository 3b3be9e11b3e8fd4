//! Expansion of compact node-name patterns such as `node[01-02],other[1,3-4]`
//! into the full list of names.
//!
//! A pattern is a comma- or newline-separated list of base expressions; a base
//! expression concatenates literal words and bracketed numeric groups by
//! cartesian product; a bracketed group lists numbers and inclusive ranges,
//! zero-padded to the widest literal in the group.  The expanded names stream
//! out in order with duplicates suppressed, first occurrence winning.

pub mod agg;
pub mod expr;
pub mod iter;
pub mod parser;

pub use crate::agg::Nodeagg;
pub use crate::agg::ParseNodeaggError;
