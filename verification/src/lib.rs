//! Core engine for a daily order-of-magnitude estimation quiz.
//!
//! The engine is exact: every quantity is a signed decimal-scaled rational
//! (`number::Number`), and every order-of-magnitude comparison is decided by
//! exact integer arithmetic rather than floating point.  The pieces are:
//!
//! - `challenge`: deterministic daily challenge generation from a date-derived
//!   seed (the seed hash and the draw semantics are pinned and documented, so
//!   every client reproduces the same problems for the same date);
//! - `parser`: a permissive parser turning free-form answer text into a value;
//! - `scoring`: the order-of-magnitude distance and its grading tiers;
//! - `format`: human-readable rendering of values for display.

pub mod challenge;
pub mod digits;
pub mod format;
pub mod number;
pub mod parser;
pub mod scoring;
