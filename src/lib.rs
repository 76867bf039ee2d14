//! Streaming find-and-replace over a sequence of tokens, with several
//! patterns tracked at once and declaration order breaking ties.

pub mod laws;
pub mod model;
pub mod replace;

pub use replace::{Replace, ReplaceIter, Replacement};
