//! A word-guessing helper.
//!
//! Given the letters a player has already tried and a partially revealed
//! slot pattern (fixed letters plus `_` wildcards), the library compiles the
//! constraints into a predicate, scans a newline-delimited word corpus for
//! candidate words, and can suggest which untried letter appears in the most
//! candidates.

pub mod solver;
pub mod validate;
