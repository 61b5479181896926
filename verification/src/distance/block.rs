//! A character-bitmask table of either width behind one interface: machine
//! words for a reference sequence of at most 64 keys, arbitrary-width
//! integers for a longer one.

use crate::distance::indel::{
    block_indel_similarity, block_normalized_similarity, clamp_similarity, cutoff_wf,
    wide_block_normalized_similarity,
};
use crate::distance::lcs_seq::{
    block_similarity, build_block, build_wide_block, narrow_table, wide_block_similarity,
    wide_table,
};
use crate::distance::models::Score;
use crate::lcs::{block_lcs, table_of};
use num_bigint::BigUint;
use std::collections::HashMap;
use vstd::prelude::*;

verus! {

/// The table of a reference sequence, built once and used for many comparisons.
pub enum Block {
    /// Masks of 64 bits.
    Narrow(HashMap<u64, u64>),
    /// Masks of any width.
    Wide(HashMap<u64, BigUint>),
}

impl Block {
    /// The masks of the table, as numbers.
    pub open spec fn table(&self) -> Map<u64, nat> {
        match self {
            Block::Narrow(block) => narrow_table(block@),
            Block::Wide(block) => wide_table(block@),
        }
    }

    /// Builds the table of `s1`, in the width that the length of `s1` asks for.
    pub fn new(s1: &Vec<u64>) -> (block: Block)
        ensures
            block.table() == table_of(s1@),
            block is Narrow <==> s1.len() <= 64,
    {
        if s1.len() <= 64 {
            Block::Narrow(build_block(s1))
        } else {
            Block::Wide(build_wide_block(s1))
        }
    }

    /// The row recurrence over this table: see `block_similarity`.
    pub fn similarity(&self, s1: &Vec<u64>, s2: &Vec<u64>, score_cutoff: Option<usize>) -> (r:
        usize)
        ensures
            r == block_lcs(self.table(), s1@.len(), s2@),
    {
        match self {
            Block::Narrow(block) => block_similarity(block, s1, s2, score_cutoff),
            Block::Wide(block) => wide_block_similarity(block, s1, s2, score_cutoff),
        }
    }

    /// The normalized similarity over this table: see `block_normalized_similarity`.
    pub fn normalized_similarity(
        &self,
        s1: &Vec<u64>,
        s2: &Vec<u64>,
        score_cutoff: Option<Score>,
    ) -> (r: Score)
        requires
            cutoff_wf(score_cutoff),
        ensures
            r@ == clamp_similarity(
                block_indel_similarity(self.table(), s1@.len(), s2@),
                score_cutoff,
            ),
            r.wf(),
    {
        match self {
            Block::Narrow(block) => block_normalized_similarity(block, s1, s2, score_cutoff),
            Block::Wide(block) => wide_block_normalized_similarity(block, s1, s2, score_cutoff),
        }
    }
}

} // verus!
