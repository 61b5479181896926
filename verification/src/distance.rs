//! Distances and similarities between key sequences.

pub mod block;
pub mod indel;
pub mod lcs_seq;
pub mod models;
