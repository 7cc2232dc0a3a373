//! Shell-quoting for delimiter-separated records.
//!
//! Records arrive as NUL-delimited bytes, are grouped into bounded batches,
//! decoded as UTF-8, quoted so each record is safe as a single shell word,
//! and joined with a configurable output delimiter.

pub mod bulk;
pub mod cli;
pub mod quote;
