//! Core of a regular-expression tester: evaluates a pattern against a
//! subject string (match / find / split), renders plain-text reports, and
//! keeps a persisted, deduplicated history of every run.

pub mod codec;
pub mod digits;
pub mod engine;
pub mod evaluator;
pub mod history;
pub mod pieces;
