//! A verified core for a Kickstart-style installation description.
//!
//! The pipeline turns raw file lines into a normalized in-memory tree:
//! comments are stripped, `%include` directives are spliced in place
//! (with cycle detection), the flattened lines are classified into named
//! sections by a two-state machine, and same-named sections are merged.

pub mod error;
pub mod kickstart;
pub mod merge;
pub mod parse;
pub mod resolve;
pub mod source;
pub mod text;
