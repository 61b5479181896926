//! The Indel distance, which counts insertions and deletions, and the
//! similarities derived from it.

use crate::common::utils::is_none;
use crate::common::{conv_sequences, keys, lemma_keys_injective, Hashable};
use crate::distance::lcs_seq::{
    block_similarity, narrow_table, similarity, wide_block_similarity, wide_table,
};
use crate::distance::models::{Rational, Score};
use crate::lcs::{
    block_lcs, lcs_len, lemma_block_lcs_bounds, lemma_lcs_bounds, lemma_lcs_full, lemma_lcs_self,
    lemma_lcs_symmetric,
};
use num_bigint::BigUint;
use std::collections::HashMap;
use vstd::prelude::*;

verus! {

/// The Indel distance of two sequences with the given lengths whose longest
/// common subsequence has length `lcs`.
pub open spec fn indel_distance(lcs: nat, len1: nat, len2: nat) -> int {
    len1 + len2 - 2 * lcs
}

/// A distance as the caller sees it: one more than the cutoff where the
/// distance exceeds the cutoff.
pub open spec fn clamp_distance(dist: int, score_cutoff: Option<u128>) -> int {
    match score_cutoff {
        Some(cutoff) => if dist <= cutoff {
            dist
        } else {
            cutoff + 1
        },
        None => dist,
    }
}

/// A distance as a fraction of the combined length; zero where both
/// sequences are empty.
pub open spec fn normalized(dist: int, maximum: int) -> Rational {
    if maximum == 0 {
        Rational::zero()
    } else {
        Rational { num: dist, den: maximum }
    }
}

/// A normalized distance as the caller sees it: one where it exceeds the cutoff.
pub open spec fn clamp_normalized_distance(
    norm_dist: Rational,
    score_cutoff: Option<Score>,
) -> Rational {
    match score_cutoff {
        Some(cutoff) => if norm_dist.le(cutoff@) {
            norm_dist
        } else {
            Rational::one()
        },
        None => norm_dist,
    }
}

/// One minus the fraction.
pub open spec fn complement(r: Rational) -> Rational {
    Rational { num: r.den - r.num, den: r.den }
}

/// A similarity as the caller sees it: zero where it is below the cutoff.
pub open spec fn clamp_similarity(norm_sim: Rational, score_cutoff: Option<Score>) -> Rational {
    match score_cutoff {
        Some(cutoff) => if cutoff@.le(norm_sim) {
            norm_sim
        } else {
            Rational::zero()
        },
        None => norm_sim,
    }
}

/// The normalized distance of two sequences with the given lengths whose
/// longest common subsequence has length `lcs`.
pub open spec fn distance_of(lcs: nat, len1: nat, len2: nat) -> Rational {
    normalized(indel_distance(lcs, len1, len2), (len1 + len2) as int)
}

/// The normalized similarity of two sequences with the given lengths whose
/// longest common subsequence has length `lcs`: `2 * lcs / (len1 + len2)`,
/// and one where both are empty.
pub open spec fn similarity_of(lcs: nat, len1: nat, len2: nat) -> Rational {
    complement(distance_of(lcs, len1, len2))
}

/// The normalized similarity of two key sequences.
pub open spec fn indel_similarity(s1: Seq<u64>, s2: Seq<u64>) -> Rational {
    similarity_of(lcs_len(s1, s2), s1.len(), s2.len())
}

/// The normalized similarity that a table yields for a first sequence of
/// `len1` keys against `s2`.
pub open spec fn block_indel_similarity(table: Map<u64, nat>, len1: nat, s2: Seq<u64>) -> Rational {
    similarity_of(block_lcs(table, len1, s2), len1, s2.len())
}

/// The validity of an optional cutoff.
pub open spec fn cutoff_wf(score_cutoff: Option<Score>) -> bool {
    score_cutoff matches Some(cutoff) ==> cutoff.wf()
}

/// The distance as the caller sees it, from the length of the longest common
/// subsequence.
fn distance_from(lcs_sim: usize, len1: usize, len2: usize, score_cutoff: Option<u128>) -> (r: u128)
    requires
        lcs_sim <= len1,
        lcs_sim <= len2,
    ensures
        r == clamp_distance(indel_distance(lcs_sim as nat, len1 as nat, len2 as nat), score_cutoff),
{
    let maximum: u128 = len1 as u128 + len2 as u128;
    let dist: u128 = maximum - 2 * (lcs_sim as u128);
    match score_cutoff {
        Some(cutoff) => if dist <= cutoff {
            dist
        } else {
            cutoff + 1
        },
        None => dist,
    }
}

/// The normalized distance as the caller sees it, from the distance.
fn normalized_from(dist: u128, len1: usize, len2: usize, score_cutoff: Option<Score>) -> (r: Score)
    requires
        cutoff_wf(score_cutoff),
    ensures
        r@ == clamp_normalized_distance(normalized(dist as int, len1 + len2), score_cutoff),
        r.wf(),
{
    let maximum: u128 = len1 as u128 + len2 as u128;
    let norm_dist = if maximum == 0 {
        Score::zero()
    } else {
        Score::new(dist, maximum)
    };
    match score_cutoff {
        Some(cutoff) => if norm_dist.le(&cutoff) {
            norm_dist
        } else {
            Score::one()
        },
        None => norm_dist,
    }
}

/// The similarity as the caller sees it, from a normalized distance of at most one.
fn similarity_from(norm_dist: Score, score_cutoff: Option<Score>) -> (r: Score)
    requires
        norm_dist.wf(),
        norm_dist.num <= norm_dist.den,
        cutoff_wf(score_cutoff),
    ensures
        r@ == clamp_similarity(complement(norm_dist@), score_cutoff),
        r.wf(),
{
    let norm_sim = Score::new(norm_dist.den - norm_dist.num, norm_dist.den);
    match score_cutoff {
        Some(cutoff) => if cutoff.le(&norm_sim) {
            norm_sim
        } else {
            Score::zero()
        },
        None => norm_sim,
    }
}

/// The minimum number of insertions and deletions that change one sequence
/// into the other: the combined length less twice the length of the longest
/// common subsequence. This is the Levenshtein distance with a substitution
/// weight of 2.
///
/// Where the distance is bigger than `score_cutoff`, `score_cutoff + 1` is
/// returned in its place.
pub fn distance(s1: &Vec<u64>, s2: &Vec<u64>, score_cutoff: Option<u128>) -> (r: u128)
    ensures
        r == clamp_distance(
            indel_distance(lcs_len(s1@, s2@), s1@.len(), s2@.len()),
            score_cutoff,
        ),
{
    let lcs_sim = similarity(s1, s2, None);
    proof {
        lemma_lcs_bounds(s1@, s2@);
    }
    distance_from(lcs_sim, s1.len(), s2.len(), score_cutoff)
}

/// As `distance`, with a table built beforehand from the first sequence.
pub fn block_distance(
    block: &HashMap<u64, u64>,
    s1: &Vec<u64>,
    s2: &Vec<u64>,
    score_cutoff: Option<u128>,
) -> (r: u128)
    ensures
        r == clamp_distance(
            indel_distance(
                block_lcs(narrow_table(block@), s1@.len(), s2@),
                s1@.len(),
                s2@.len(),
            ),
            score_cutoff,
        ),
{
    let lcs_sim = block_similarity(block, s1, s2, None);
    proof {
        lemma_block_lcs_bounds(narrow_table(block@), s1@.len(), s2@);
    }
    distance_from(lcs_sim, s1.len(), s2.len(), score_cutoff)
}

/// The Indel distance as a fraction of the combined length, between 0 and 1;
/// 0 where both sequences are empty.
///
/// Where the fraction is bigger than `score_cutoff`, 1 is returned in its place.
pub fn normalized_distance(s1: &Vec<u64>, s2: &Vec<u64>, score_cutoff: Option<Score>) -> (r: Score)
    requires
        cutoff_wf(score_cutoff),
    ensures
        r@ == clamp_normalized_distance(
            distance_of(lcs_len(s1@, s2@), s1@.len(), s2@.len()),
            score_cutoff,
        ),
        r.wf(),
{
    let dist = distance(s1, s2, None);
    normalized_from(dist, s1.len(), s2.len(), score_cutoff)
}

/// As `normalized_distance`, with a table built beforehand from the first sequence.
pub fn block_normalized_distance(
    block: &HashMap<u64, u64>,
    s1: &Vec<u64>,
    s2: &Vec<u64>,
    score_cutoff: Option<Score>,
) -> (r: Score)
    requires
        cutoff_wf(score_cutoff),
    ensures
        r@ == clamp_normalized_distance(
            distance_of(block_lcs(narrow_table(block@), s1@.len(), s2@), s1@.len(), s2@.len()),
            score_cutoff,
        ),
        r.wf(),
{
    let dist = block_distance(block, s1, s2, None);
    normalized_from(dist, s1.len(), s2.len(), score_cutoff)
}

/// The normalized similarity of two key sequences: one minus the normalized
/// distance, and zero where that is below the cutoff.
pub fn keys_normalized_similarity(
    s1: &Vec<u64>,
    s2: &Vec<u64>,
    score_cutoff: Option<Score>,
) -> (r: Score)
    requires
        cutoff_wf(score_cutoff),
    ensures
        r@ == clamp_similarity(indel_similarity(s1@, s2@), score_cutoff),
        r.wf(),
{
    let norm_dist = normalized_distance(s1, s2, None);
    proof {
        lemma_lcs_bounds(s1@, s2@);
    }
    similarity_from(norm_dist, score_cutoff)
}

/// As `keys_normalized_similarity`, with a table built beforehand from the
/// first sequence.
pub fn block_normalized_similarity(
    block: &HashMap<u64, u64>,
    s1: &Vec<u64>,
    s2: &Vec<u64>,
    score_cutoff: Option<Score>,
) -> (r: Score)
    requires
        cutoff_wf(score_cutoff),
    ensures
        r@ == clamp_similarity(
            block_indel_similarity(narrow_table(block@), s1@.len(), s2@),
            score_cutoff,
        ),
        r.wf(),
{
    let norm_dist = block_normalized_distance(block, s1, s2, None);
    proof {
        lemma_block_lcs_bounds(narrow_table(block@), s1@.len(), s2@);
    }
    similarity_from(norm_dist, score_cutoff)
}

/// As `block_normalized_similarity`, with a table of arbitrary-width masks.
pub fn wide_block_normalized_similarity(
    block: &HashMap<u64, BigUint>,
    s1: &Vec<u64>,
    s2: &Vec<u64>,
    score_cutoff: Option<Score>,
) -> (r: Score)
    requires
        cutoff_wf(score_cutoff),
    ensures
        r@ == clamp_similarity(
            block_indel_similarity(wide_table(block@), s1@.len(), s2@),
            score_cutoff,
        ),
        r.wf(),
{
    let lcs_sim = wide_block_similarity(block, s1, s2, None);
    proof {
        lemma_block_lcs_bounds(wide_table(block@), s1@.len(), s2@);
    }
    let dist = distance_from(lcs_sim, s1.len(), s2.len(), None);
    let norm_dist = normalized_from(dist, s1.len(), s2.len(), None);
    similarity_from(norm_dist, score_cutoff)
}

/// A copy of the elements of a slice, made with `clone`.
fn clone_elements<T: Clone>(s: &[T]) -> (r: Vec<T>)
    ensures
        is_clone_of(r@, s@),
{
    let mut out: Vec<T> = Vec::new();
    let mut i: usize = 0;
    while i < s.len()
        invariant
            i <= s.len(),
            out@.len() == i,
            forall|k: int| 0 <= k < i ==> cloned(s@[k], #[trigger] out@[k]),
        decreases s.len() - i,
    {
        out.push(s[i].clone());
        i += 1;
    }
    out
}

/// `copy` holds a clone of each element of `s`, in order.
pub open spec fn is_clone_of<T: Clone>(copy: Seq<T>, s: Seq<T>) -> bool {
    &&& copy.len() == s.len()
    &&& forall|k: int| 0 <= k < s.len() ==> cloned(s[k], #[trigger] copy[k])
}

/// `out` is what the processor may return for a copy of `s`.
pub open spec fn is_processed<T: Clone, F: Fn(Vec<T>) -> Vec<T>>(
    processor: F,
    s: Seq<T>,
    out: Seq<T>,
) -> bool {
    exists|copy: Vec<T>, res: Vec<T>|
        is_clone_of(copy@, s) && processor.ensures((copy,), res) && res@ == out
}

/// The normalized Indel similarity of two sequences of elements, between 0
/// and 1: one minus the normalized distance of their keys.
///
/// The processor, if there is one, is applied to a copy of each sequence
/// before the elements are turned into keys. Where the similarity is below
/// `score_cutoff`, 0 is returned in its place. An input that is absent or
/// empty has a similarity of 0 with everything, an empty one too.
pub fn normalized_similarity<T: Hashable + Clone, F: Fn(Vec<T>) -> Vec<T>>(
    s1: Option<&[T]>,
    s2: Option<&[T]>,
    processor: Option<F>,
    score_cutoff: Option<Score>,
) -> (r: Score)
    requires
        cutoff_wf(score_cutoff),
        processor matches Some(f) ==> forall|v: Vec<T>| f.requires((v,)),
    ensures
        r.wf(),
        match (s1, s2) {
            (Some(a), Some(b)) => if a@.len() == 0 || b@.len() == 0 {
                r@ == Rational::zero()
            } else {
                match processor {
                    Some(f) => exists|p1: Seq<T>, p2: Seq<T>|
                        is_processed(f, a@, p1) && is_processed(f, b@, p2) && r@
                            == clamp_similarity(
                            indel_similarity(keys(p1), keys(p2)),
                            score_cutoff,
                        ),
                    None => r@ == clamp_similarity(
                        indel_similarity(keys(a@), keys(b@)),
                        score_cutoff,
                    ),
                }
            },
            _ => r@ == Rational::zero(),
        },
{
    if is_none(s1) || is_none(s2) {
        return Score::zero();
    }
    let a = s1.unwrap();
    let b = s2.unwrap();
    match processor {
        Some(f) => {
            let copy1 = clone_elements(a);
            let copy2 = clone_elements(b);
            let processed_s1 = f(copy1);
            let processed_s2 = f(copy2);
            let (s1_seq, s2_seq) = conv_sequences(processed_s1.as_slice(), processed_s2.as_slice());
            proof {
                assert(is_processed(f, a@, processed_s1@));
                assert(is_processed(f, b@, processed_s2@));
            }
            keys_normalized_similarity(&s1_seq, &s2_seq, score_cutoff)
        },
        None => {
            let (s1_seq, s2_seq) = conv_sequences(a, b);
            keys_normalized_similarity(&s1_seq, &s2_seq, score_cutoff)
        },
    }
}


/// The normalized similarity of two key sequences lies between zero and one,
/// and it is one exactly where the two sequences are equal.
pub proof fn lemma_similarity_range(s1: Seq<u64>, s2: Seq<u64>)
    ensures
        indel_similarity(s1, s2).wf(),
        Rational::zero().le(indel_similarity(s1, s2)),
        indel_similarity(s1, s2).le(Rational::one()),
        indel_similarity(s1, s2).same(Rational::one()) <==> s1 == s2,
{
    lemma_lcs_bounds(s1, s2);
    if s1 == s2 {
        lemma_lcs_self(s1);
    }
    if indel_similarity(s1, s2).same(Rational::one()) {
        if s1.len() + s2.len() == 0 {
            assert(s1 =~= s2);
        } else {
            lemma_lcs_full(s1, s2);
        }
    }
}

/// What a caller sees of a normalized similarity lies between zero and one
/// whatever the cutoff. With no cutoff, or one of at most one, it is one
/// exactly where the two sequences are equal.
pub proof fn lemma_clamped_similarity_range(
    s1: Seq<u64>,
    s2: Seq<u64>,
    score_cutoff: Option<Score>,
)
    requires
        cutoff_wf(score_cutoff),
    ensures
        Rational::zero().le(clamp_similarity(indel_similarity(s1, s2), score_cutoff)),
        clamp_similarity(indel_similarity(s1, s2), score_cutoff).le(Rational::one()),
        (score_cutoff matches Some(cutoff) ==> cutoff@.le(Rational::one())) ==> (clamp_similarity(
            indel_similarity(s1, s2),
            score_cutoff,
        ).same(Rational::one()) <==> s1 == s2),
{
    lemma_similarity_range(s1, s2);
    let sim = indel_similarity(s1, s2);
    if let Some(cutoff) = score_cutoff {
        if s1 == s2 && cutoff@.le(Rational::one()) {
            assert(cutoff@.le(sim)) by (nonlinear_arith)
                requires
                    cutoff@.num * 1 <= 1 * cutoff@.den,
                    sim.num * 1 == 1 * sim.den,
                    sim.den > 0,
                    cutoff@.den > 0,
            ;
        }
    }
}

/// The normalized similarity does not depend on the order of the two sequences.
pub proof fn lemma_similarity_symmetric(s1: Seq<u64>, s2: Seq<u64>)
    ensures
        indel_similarity(s1, s2) == indel_similarity(s2, s1),
{
    lemma_lcs_symmetric(s1, s2);
}


/// For elements of a type in which no two share a key, the normalized
/// similarity of two sequences is one exactly where the sequences are equal.
pub proof fn lemma_element_similarity_one<T: Hashable>(a: Seq<T>, b: Seq<T>)
    requires
        forall|x: T, y: T| #[trigger] x.key() == #[trigger] y.key() ==> x == y,
    ensures
        indel_similarity(keys(a), keys(b)).same(Rational::one()) <==> a == b,
{
    lemma_keys_injective(a, b);
    lemma_similarity_range(keys(a), keys(b));
}


/// The Indel distance lies between zero and the combined length, it is zero
/// exactly where the two sequences are equal, and it does not depend on
/// their order.
pub proof fn lemma_distance_range(s1: Seq<u64>, s2: Seq<u64>)
    ensures
        0 <= indel_distance(lcs_len(s1, s2), s1.len(), s2.len()) <= s1.len() + s2.len(),
        indel_distance(lcs_len(s1, s2), s1.len(), s2.len()) == 0 <==> s1 == s2,
        indel_distance(lcs_len(s1, s2), s1.len(), s2.len()) == indel_distance(
            lcs_len(s2, s1),
            s2.len(),
            s1.len(),
        ),
{
    lemma_lcs_bounds(s1, s2);
    lemma_lcs_symmetric(s1, s2);
    if s1 == s2 {
        lemma_lcs_self(s1);
    }
    if indel_distance(lcs_len(s1, s2), s1.len(), s2.len()) == 0 {
        lemma_lcs_full(s1, s2);
    }
}

} // verus!
