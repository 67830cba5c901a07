//! CRAB: a ranked-choice ballot analyzer.
//!
//! The library parses comma-delimited ballot lines into ballots and a
//! sorted candidate set, ranks every candidate by iterated instant-runoff
//! elimination, and independently computes a positional ("Borda-style")
//! score for each candidate.

pub mod ballot;
pub mod borda;
pub mod irv;
pub mod order;
