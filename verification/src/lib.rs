//! Fuzzy matching of sequences.
//!
//! Sequences of characters, bytes, integers or strings are compared by the
//! length of their longest common subsequence. From it come the Indel
//! distance, which counts insertions and deletions, a normalized similarity
//! between zero and one, the ratio on a scale from 0 to 100, and the partial
//! ratio, which finds the window of the longer sequence that the shorter one
//! fits best.
//!
//! - [`common`] turns the elements of a sequence into 64-bit keys.
//! - [`lcs`] defines the longest common subsequence and the row recurrence
//!   that computes its length with bitwise operations, and proves that the
//!   recurrence is right.
//! - [`bits`] is the model of numbers as bit sets that the proof rests on.
//! - [`wide`] brings in the integers of arbitrary width for sequences of
//!   more than 64 elements.
//! - [`distance`] holds the engine, the Indel distance and the score types.
//! - [`fuzz`] holds the ratio and the partial ratio.
//!
//! Scores are exact fractions: no score is rounded, and two scores compare as
//! the numbers that they are.

pub mod bits;
pub mod common;
pub mod distance;
pub mod fuzz;
pub mod lcs;
pub mod wide;
