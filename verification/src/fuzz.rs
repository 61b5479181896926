//! Scores on a scale from 0 to 100: the ratio of two strings, and the partial
//! ratio, which searches the longer string for the window that the shorter
//! one is most similar to.

pub mod laws;

use crate::common::utils::is_none;
use crate::common::{conv_sequences, keys};
use crate::distance::block::Block;
use crate::distance::indel::{cutoff_wf, indel_similarity, keys_normalized_similarity};
use crate::distance::models::{Alignment, Rational, Score, ScoreAlignment};
use crate::fuzz::laws::lemma_short_needle_bounds;
use crate::lcs::{
    lemma_block_lcs_is_lcs, lemma_lcs_bounds, lemma_prefix_contains, lemma_table_of_matches,
    table_of,
};
use std::collections::HashSet;
use vstd::prelude::*;

verus! {

/// A candidate window of the longer sequence: the half-open range of its
/// keys, and the position of the key that is probed before the window is scored.
pub struct Window {
    pub start: nat,
    pub end: nat,
    pub probe: nat,
}

/// The number of candidate windows for a needle of `len1` keys in a sequence
/// of `len2` keys: the prefixes shorter than the needle, the windows of the
/// needle's length but the last, and the suffixes no longer than the needle.
pub open spec fn window_count(len1: nat, len2: nat) -> nat {
    if len1 == 0 {
        0
    } else {
        (len1 + len2 - 1) as nat
    }
}

/// The candidate window with number `k`, in the order of the search. A
/// prefix or a full window is probed at its last key, a suffix at its first.
pub open spec fn window(len1: nat, len2: nat, k: nat) -> Window {
    if k + 1 < len1 {
        Window { start: 0, end: k + 1, probe: k }
    } else if k + 1 < len2 {
        Window { start: (k + 1 - len1) as nat, end: k + 1, probe: k }
    } else {
        Window { start: (k + 1 - len1) as nat, end: len2, probe: (k + 1 - len1) as nat }
    }
}

/// The keys of a window.
pub open spec fn window_keys(s2: Seq<u64>, w: Window) -> Seq<u64> {
    s2.subrange(w.start as int, w.end as int)
}

/// The normalized similarity of the needle and the window with number `k`.
pub open spec fn window_score(s1: Seq<u64>, s2: Seq<u64>, k: nat) -> Rational {
    indel_similarity(s1, window_keys(s2, window(s1.len(), s2.len(), k)))
}

/// A window counts where its probed key occurs in the needle and its score
/// is above zero and not below the threshold.
pub open spec fn eligible(s1: Seq<u64>, s2: Seq<u64>, threshold: Rational, k: nat) -> bool {
    &&& s1.contains(s2[window(s1.len(), s2.len(), k).probe as int])
    &&& threshold.le(window_score(s1, s2, k))
    &&& Rational::zero().lt(window_score(s1, s2, k))
}

/// Window `j` is the best: it counts, no window that counts scores higher,
/// and every window before it that counts scores lower.
pub open spec fn is_best_window(s1: Seq<u64>, s2: Seq<u64>, threshold: Rational, j: nat) -> bool {
    &&& j < window_count(s1.len(), s2.len())
    &&& eligible(s1, s2, threshold, j)
    &&& forall|i: nat|
        i < window_count(s1.len(), s2.len()) && eligible(s1, s2, threshold, i) ==> window_score(
            s1,
            s2,
            i,
        ).le(window_score(s1, s2, j))
    &&& forall|i: nat|
        i < j && eligible(s1, s2, threshold, i) ==> window_score(s1, s2, i).lt(
            window_score(s1, s2, j),
        )
}

/// The best of all candidate windows: the first one with the highest score
/// among those that count; `None` where none counts.
pub open spec fn best_window(s1: Seq<u64>, s2: Seq<u64>, threshold: Rational) -> Option<nat> {
    if exists|j: nat| is_best_window(s1, s2, threshold, j) {
        Some(choose|j: nat| is_best_window(s1, s2, threshold, j))
    } else {
        None
    }
}

/// The best window among the first `k`, as the search finds it: each window
/// in turn takes the place of the best so far where it counts and scores higher.
spec fn best_upto(s1: Seq<u64>, s2: Seq<u64>, threshold: Rational, k: nat) -> Option<
    nat,
>
    decreases k,
{
    if k == 0 {
        None
    } else {
        let j = (k - 1) as nat;
        let before = best_upto(s1, s2, threshold, j);
        if eligible(s1, s2, threshold, j) && (before matches Some(b) ==> window_score(
            s1,
            s2,
            b,
        ).lt(window_score(s1, s2, j))) {
            Some(j)
        } else {
            before
        }
    }
}

/// What the search for a needle `s1` in `s2` reports: the best window and its
/// score on the scale to 100; a score of zero over the range of the needle
/// where no window is eligible.
pub open spec fn short_needle_alignment(
    s1: Seq<u64>,
    s2: Seq<u64>,
    threshold: Rational,
) -> Alignment {
    match best_window(s1, s2, threshold) {
        Some(j) => Alignment {
            score: window_score(s1, s2, j).percent(),
            src_start: 0,
            src_end: s1.len(),
            dest_start: window(s1.len(), s2.len(), j).start,
            dest_end: window(s1.len(), s2.len(), j).end,
        },
        None => Alignment {
            score: Rational::zero(),
            src_start: 0,
            src_end: s1.len(),
            dest_start: 0,
            dest_end: s1.len(),
        },
    }
}

/// The score 100.
pub open spec fn hundred() -> Rational {
    Rational { num: 100, den: 1 }
}

/// The threshold that a cutoff stands for: itself, or its hundredth where it
/// is given on the scale to 100.
pub open spec fn threshold_of(score_cutoff: Score, in_percent: bool) -> Rational {
    if in_percent {
        score_cutoff@.hundredth()
    } else {
        score_cutoff@
    }
}

/// The alignment of two key sequences, with a cutoff on the scale to 100.
/// The shorter sequence is the needle. Two sequences of one length are
/// searched in both roles, and the second role wins where its score is the
/// higher one. A score below the cutoff gives no alignment. Two empty
/// sequences are a perfect match, whatever the cutoff.
pub open spec fn partial_alignment(k1: Seq<u64>, k2: Seq<u64>, cutoff: Rational) -> Option<
    Alignment,
> {
    if k1.len() == 0 && k2.len() == 0 {
        Some(Alignment { score: hundred(), src_start: 0, src_end: 0, dest_start: 0, dest_end: 0 })
    } else if k1.len() < k2.len() {
        kept(short_needle_alignment(k1, k2, cutoff.hundredth()), cutoff)
    } else if k1.len() > k2.len() {
        kept(short_needle_alignment(k2, k1, cutoff.hundredth()).swapped(), cutoff)
    } else {
        let first = short_needle_alignment(k1, k2, cutoff.hundredth());
        let second = short_needle_alignment(k2, k1, cutoff.hundredth()).swapped();
        if first.score.lt(second.score) {
            kept(second, cutoff)
        } else {
            kept(first, cutoff)
        }
    }
}

/// An alignment as the caller sees it: none where the score is below the cutoff.
pub open spec fn kept(alignment: Alignment, cutoff: Rational) -> Option<Alignment> {
    if alignment.score.lt(cutoff) {
        None
    } else {
        Some(alignment)
    }
}

/// The alignment of two optional strings: none where one is absent.
pub open spec fn alignment_of(
    s1: Option<Seq<char>>,
    s2: Option<Seq<char>>,
    score_cutoff: Option<Score>,
) -> Option<Alignment> {
    match (s1, s2) {
        (Some(a), Some(b)) => partial_alignment(
            keys(a),
            keys(b),
            match score_cutoff {
                Some(cutoff) => cutoff@,
                None => Rational::zero(),
            },
        ),
        _ => None,
    }
}

/// The ratio of two optional strings: the normalized similarity of their
/// characters on the scale to 100, zero where it is below the cutoff, and
/// zero where a string is absent or empty.
pub open spec fn ratio_of(
    s1: Option<Seq<char>>,
    s2: Option<Seq<char>>,
    score_cutoff: Option<Score>,
) -> Rational {
    match (s1, s2) {
        (Some(a), Some(b)) => if a.len() == 0 || b.len() == 0 {
            Rational::zero()
        } else {
            let norm_sim = indel_similarity(keys(a), keys(b));
            match score_cutoff {
                Some(cutoff) => if cutoff@.hundredth().le(norm_sim) {
                    norm_sim.percent()
                } else {
                    Rational::zero()
                },
                None => norm_sim.percent(),
            }
        },
        _ => Rational::zero(),
    }
}

/// The partial ratio of two optional strings: the score of their alignment,
/// zero where there is none.
pub open spec fn partial_ratio_of(
    s1: Option<Seq<char>>,
    s2: Option<Seq<char>>,
    score_cutoff: Option<Score>,
) -> Rational {
    match alignment_of(s1, s2, score_cutoff) {
        Some(alignment) => alignment.score,
        None => Rational::zero(),
    }
}

/// The best window among the first `k` counts, comes before every window
/// among them that scores as high, and none of them that counts scores higher.
proof fn lemma_best_upto(s1: Seq<u64>, s2: Seq<u64>, threshold: Rational, k: nat)
    requires
        threshold.wf(),
        0 < s1.len() <= s2.len(),
        k <= window_count(s1.len(), s2.len()),
    ensures
        match best_upto(s1, s2, threshold, k) {
            Some(j) => {
                &&& j < k
                &&& eligible(s1, s2, threshold, j)
                &&& forall|i: nat|
                    i < k && eligible(s1, s2, threshold, i) ==> window_score(s1, s2, i).le(
                        window_score(s1, s2, j),
                    )
                &&& forall|i: nat|
                    i < j && eligible(s1, s2, threshold, i) ==> window_score(s1, s2, i).lt(
                        window_score(s1, s2, j),
                    )
            },
            None => forall|i: nat| i < k ==> !eligible(s1, s2, threshold, i),
        },
    decreases k,
{
    if k > 0 {
        let j = (k - 1) as nat;
        lemma_best_upto(s1, s2, threshold, j);
        let sj = window_score(s1, s2, j);
        lemma_window_score(s1, s2, j);
        match best_upto(s1, s2, threshold, j) {
            Some(b) => {
                let sb = window_score(s1, s2, b);
                lemma_window_score(s1, s2, b);
                if eligible(s1, s2, threshold, j) && sb.lt(sj) {
                    assert forall|i: nat| i < k && eligible(s1, s2, threshold, i) implies
                        window_score(s1, s2, i).le(sj) by {
                        if i < j {
                            lemma_window_score(s1, s2, i);
                            Rational::lemma_le_lt_transitive(window_score(s1, s2, i), sb, sj);
                        }
                    }
                    assert forall|i: nat| i < j && eligible(s1, s2, threshold, i) implies
                        window_score(s1, s2, i).lt(sj) by {
                        lemma_window_score(s1, s2, i);
                        Rational::lemma_le_lt_transitive(window_score(s1, s2, i), sb, sj);
                    }
                }
            },
            None => {},
        }
    }
}

/// The score of a window is a fraction between zero and one, with twice the
/// length of the longest common subsequence above the combined length.
pub proof fn lemma_window_score(s1: Seq<u64>, s2: Seq<u64>, k: nat)
    requires
        0 < s1.len() <= s2.len(),
        k < window_count(s1.len(), s2.len()),
    ensures
        window_score(s1, s2, k).wf(),
        window_score(s1, s2, k).le(Rational::one()),
        window_score(s1, s2, k).num <= 2 * s1.len(),
        window(s1.len(), s2.len(), k).start < window(s1.len(), s2.len(), k).end <= s2.len(),
        window(s1.len(), s2.len(), k).probe < s2.len(),
        window(s1.len(), s2.len(), k).end - window(s1.len(), s2.len(), k).start <= s1.len(),
{
    let w = window(s1.len(), s2.len(), k);
    lemma_lcs_bounds(s1, window_keys(s2, w));
}

/// There is at most one best window.
proof fn lemma_best_window_unique(
    s1: Seq<u64>,
    s2: Seq<u64>,
    threshold: Rational,
    j1: nat,
    j2: nat,
)
    requires
        is_best_window(s1, s2, threshold, j1),
        is_best_window(s1, s2, threshold, j2),
    ensures
        j1 == j2,
{
}

/// The search finds the best window: the one that is left after the last
/// window is the best, and none is left only where none counts.
proof fn lemma_search_finds_best(s1: Seq<u64>, s2: Seq<u64>, threshold: Rational)
    requires
        threshold.wf(),
        s1.len() <= s2.len(),
    ensures
        best_window(s1, s2, threshold) == best_upto(
            s1,
            s2,
            threshold,
            window_count(s1.len(), s2.len()),
        ),
        match best_window(s1, s2, threshold) {
            Some(j) => is_best_window(s1, s2, threshold, j),
            None => forall|i: nat|
                i < window_count(s1.len(), s2.len()) ==> !eligible(s1, s2, threshold, i),
        },
{
    let count = window_count(s1.len(), s2.len());
    if s1.len() > 0 {
        lemma_best_upto(s1, s2, threshold, count);
    }
    match best_upto(s1, s2, threshold, count) {
        Some(j) => {
            assert(is_best_window(s1, s2, threshold, j));
            lemma_best_window_unique(s1, s2, threshold, j, best_window(s1, s2, threshold)->0);
        },
        None => {
            assert forall|j: nat| !is_best_window(s1, s2, threshold, j) by {
                if s1.len() == 0 {
                    assert(count == 0);
                }
            }
        },
    }
}

/// As soon as one window counts there is a best window, and only one.
pub proof fn lemma_best_window(s1: Seq<u64>, s2: Seq<u64>, threshold: Rational)
    requires
        threshold.wf(),
        s1.len() <= s2.len(),
    ensures
        match best_window(s1, s2, threshold) {
            Some(j) => is_best_window(s1, s2, threshold, j) && forall|i: nat|
                is_best_window(s1, s2, threshold, i) ==> i == j,
            None => forall|i: nat|
                i < window_count(s1.len(), s2.len()) ==> !eligible(s1, s2, threshold, i),
        },
{
    lemma_search_finds_best(s1, s2, threshold);
    if let Some(j) = best_window(s1, s2, threshold) {
        assert forall|i: nat| is_best_window(s1, s2, threshold, i) implies i == j by {
            lemma_best_window_unique(s1, s2, threshold, i, j);
        }
    }
}

/// Once a window scores one, no later window takes its place.
proof fn lemma_perfect_stays(s1: Seq<u64>, s2: Seq<u64>, threshold: Rational, j: nat, k: nat)
    requires
        threshold.wf(),
        0 < s1.len() <= s2.len(),
        j < k <= window_count(s1.len(), s2.len()),
        best_upto(s1, s2, threshold, (j + 1) as nat) == Some(j),
        window_score(s1, s2, j).same(Rational::one()),
    ensures
        best_upto(s1, s2, threshold, k) == Some(j),
    decreases k,
{
    if k > j + 1 {
        let i = (k - 1) as nat;
        lemma_perfect_stays(s1, s2, threshold, j, i);
        lemma_window_score(s1, s2, i);
        lemma_window_score(s1, s2, j);
        let (si, sj) = (window_score(s1, s2, i), window_score(s1, s2, j));
        assert(!sj.lt(si)) by (nonlinear_arith)
            requires
                sj.num * 1 == 1 * sj.den,
                si.num * 1 <= 1 * si.den,
                sj.den > 0,
                si.den > 0,
        ;
    }
}

/// A higher threshold keeps the best window where its score reaches the
/// threshold, and leaves no window at all where it does not.
proof fn lemma_raised_threshold(s1: Seq<u64>, s2: Seq<u64>, low: Rational, high: Rational, k: nat)
    requires
        low.wf(),
        high.wf(),
        low.le(high),
        0 < s1.len() <= s2.len(),
        k <= window_count(s1.len(), s2.len()),
    ensures
        best_upto(s1, s2, high, k) == (match best_upto(s1, s2, low, k) {
            Some(j) => if high.le(window_score(s1, s2, j)) {
                Some(j)
            } else {
                None
            },
            None => None,
        }),
    decreases k,
{
    if k > 0 {
        let i = (k - 1) as nat;
        lemma_raised_threshold(s1, s2, low, high, i);
        lemma_best_upto(s1, s2, low, i);
        lemma_window_score(s1, s2, i);
        let si = window_score(s1, s2, i);
        if high.le(si) {
            Rational::lemma_le_transitive(low, high, si);
        }
        if let Some(j) = best_upto(s1, s2, low, i) {
            lemma_window_score(s1, s2, j);
            let sj = window_score(s1, s2, j);
            if high.le(sj) && sj.lt(si) {
                Rational::lemma_le_lt_transitive(high, sj, si);
            }
            if high.le(si) && !sj.lt(si) {
                Rational::lemma_le_transitive(high, si, sj);
            }
        }
    }
}

/// The characters of a string, in order.
pub fn chars_of(s: &str) -> (r: Vec<char>)
    ensures
        r@ == s@,
{
    let mut out: Vec<char> = Vec::new();
    for c in it: s.chars()
        invariant
            out@ == it.seq().take(it.index() as int),
            it.seq() == s@,
    {
        out.push(c);
    }
    out
}

/// The set of the keys of a sequence.
fn key_set(s: &Vec<u64>) -> (set: HashSet<u64>)
    ensures
        forall|key: u64| set@.contains(key) <==> s@.contains(key),
{
    let mut set: HashSet<u64> = HashSet::new();
    let mut i: usize = 0;
    while i < s.len()
        invariant
            i <= s.len(),
            forall|key: u64| set@.contains(key) <==> s@.subrange(0, i as int).contains(key),
        decreases s.len() - i,
    {
        let key = s[i];
        proof {
            assert forall|other: u64|
                set@.insert(key).contains(other) <==> s@.subrange(0, i + 1).contains(other) by {
                lemma_prefix_contains(s@, i as int, other);
            }
        }
        set.insert(key);
        i += 1;
    }
    proof {
        assert(s@.subrange(0, i as int) =~= s@);
    }
    set
}

/// A copy of the keys of `s` from `start` up to `end`.
fn copy_range(s: &Vec<u64>, start: usize, end: usize) -> (r: Vec<u64>)
    requires
        start <= end <= s.len(),
    ensures
        r@ == s@.subrange(start as int, end as int),
{
    let mut out: Vec<u64> = Vec::new();
    let mut i = start;
    while i < end
        invariant
            start <= i <= end <= s.len(),
            out@ == s@.subrange(start as int, i as int),
        decreases end - i,
    {
        out.push(s[i]);
        i += 1;
        assert(out@ =~= s@.subrange(start as int, i as int));
    }
    out
}

/// The similarity of the needle and a window, zero where it is below the
/// cutoff. The cutoff may be on the scale to 100: then the similarity is
/// scaled up for the comparison, in place of scaling the cutoff down.
fn window_similarity(
    block: &Block,
    s1: &Vec<u64>,
    window: &Vec<u64>,
    score_cutoff: &Score,
    in_percent: bool,
) -> (r: Score)
    requires
        score_cutoff.wf(),
        block.table() == table_of(s1@),
        0 < s1.len(),
    ensures
        r.wf(),
        r@ == (if threshold_of(*score_cutoff, in_percent).le(indel_similarity(s1@, window@)) {
            indel_similarity(s1@, window@)
        } else {
            Rational::zero()
        }),
{
    proof {
        lemma_table_of_matches(s1@);
        lemma_block_lcs_is_lcs(table_of(s1@), s1@, window@);
        lemma_lcs_bounds(s1@, window@);
    }
    if in_percent {
        let norm_sim = block.normalized_similarity(s1, window, None);
        proof {
            Rational::lemma_hundredth_le(score_cutoff@, norm_sim@);
        }
        if score_cutoff.le(&norm_sim.percent()) {
            norm_sim
        } else {
            Score::zero()
        }
    } else {
        block.normalized_similarity(s1, window, Some(*score_cutoff))
    }
}

/// The state of the search after the first `k` windows.
spec fn search_state(
    s1: Seq<u64>,
    s2: Seq<u64>,
    threshold: Rational,
    k: nat,
    res: ScoreAlignment,
    score_cutoff: Score,
    in_percent: bool,
) -> bool {
    &&& res.src_start == 0
    &&& res.src_end == s1.len()
    &&& res.score.wf()
    &&& score_cutoff.wf()
    &&& match best_upto(s1, s2, threshold, k) {
        Some(j) => {
            &&& res.score@ == window_score(s1, s2, j)
            &&& res.dest_start == window(s1.len(), s2.len(), j).start
            &&& res.dest_end == window(s1.len(), s2.len(), j).end
            &&& score_cutoff@ == res.score@
            &&& !in_percent
        },
        None => {
            &&& res.score@ == Rational::zero()
            &&& res.dest_start == 0
            &&& res.dest_end == s1.len()
            &&& threshold_of(score_cutoff, in_percent) == threshold
        },
    }
}

/// Scores one window whose probed key occurs in the needle, and keeps it if
/// it beats the best so far; the new best score becomes the cutoff. Returns
/// whether the window was kept with a score of one.
fn try_window(
    block: &Block,
    s1: &Vec<u64>,
    s2: &Vec<u64>,
    start: usize,
    end: usize,
    res: &mut ScoreAlignment,
    score_cutoff: &mut Score,
    in_percent: &mut bool,
    Ghost(threshold): Ghost<Rational>,
    Ghost(k): Ghost<nat>,
) -> (perfect: bool)
    requires
        block.table() == table_of(s1@),
        threshold.wf(),
        0 < s1.len() <= s2.len(),
        k < window_count(s1@.len(), s2@.len()),
        start == window(s1@.len(), s2@.len(), k).start,
        end == window(s1@.len(), s2@.len(), k).end,
        s1@.contains(s2@[window(s1@.len(), s2@.len(), k).probe as int]),
        search_state(s1@, s2@, threshold, k, *old(res), *old(score_cutoff), *old(in_percent)),
    ensures
        search_state(
            s1@,
            s2@,
            threshold,
            (k + 1) as nat,
            *final(res),
            *final(score_cutoff),
            *final(in_percent),
        ),
        perfect ==> best_upto(s1@, s2@, threshold, (k + 1) as nat) == Some(k) && window_score(
            s1@,
            s2@,
            k,
        ).same(Rational::one()),
{
    proof {
        lemma_window_score(s1@, s2@, k);
        lemma_best_upto(s1@, s2@, threshold, k);
        if let Some(b) = best_upto(s1@, s2@, threshold, k) {
            lemma_window_score(s1@, s2@, b);
            let sb = window_score(s1@, s2@, b);
            let sk = window_score(s1@, s2@, k);
            if sb.lt(sk) {
                Rational::lemma_le_lt_transitive(threshold, sb, sk);
                Rational::lemma_lt_le_transitive(Rational::zero(), sb, sk);
            }
        }
    }
    let window = copy_range(s2, start, end);
    let ls_ratio = window_similarity(block, s1, &window, score_cutoff, *in_percent);
    if res.score.lt(&ls_ratio) {
        *score_cutoff = ls_ratio;
        *in_percent = false;
        res.score = ls_ratio;
        res.dest_start = start;
        res.dest_end = end;
        if ls_ratio.num == ls_ratio.den {
            return true;
        }
    }
    false
}

/// The search behind `partial_ratio_short_needle`, with a cutoff that may be
/// given on the scale to 100.
fn short_needle_search(s1: &Vec<u64>, s2: &Vec<u64>, cutoff: Score, percent: bool) -> (res:
    ScoreAlignment)
    requires
        s1.len() <= s2.len(),
        cutoff.wf(),
    ensures
        res@ == short_needle_alignment(s1@, s2@, threshold_of(cutoff, percent)),
        res.score.wf(),
{
    let len1 = s1.len();
    let len2 = s2.len();
    let mut res = ScoreAlignment {
        score: Score::zero(),
        src_start: 0,
        src_end: len1,
        dest_start: 0,
        dest_end: len1,
    };
    let ghost threshold = threshold_of(cutoff, percent);
    proof {
        lemma_search_finds_best(s1@, s2@, threshold);
    }
    if len1 == 0 {
        return res;
    }
    let ghost count = window_count(s1@.len(), s2@.len());
    let s1_char_set = key_set(s1);
    let block = Block::new(s1);
    let mut score_cutoff = cutoff;
    let mut in_percent = percent;

    let mut i: usize = 1;
    while i < len1
        invariant
            1 <= i <= len1,
            0 < len1 <= len2,
            len1 == s1.len(),
            len2 == s2.len(),
            threshold.wf(),
            threshold == threshold_of(cutoff, percent),
            count == window_count(s1@.len(), s2@.len()),
            block.table() == table_of(s1@),
            forall|key: u64| s1_char_set@.contains(key) <==> s1@.contains(key),
            search_state(s1@, s2@, threshold, (i - 1) as nat, res, score_cutoff, in_percent),
        decreases len1 - i,
    {
        let ghost k = (i - 1) as nat;
        let substr_last = s2[i - 1];
        if s1_char_set.contains(&substr_last) {
            let perfect = try_window(
                &block,
                s1,
                s2,
                0,
                i,
                &mut res,
                &mut score_cutoff,
                &mut in_percent,
                Ghost(threshold),
                Ghost(k),
            );
            if perfect {
                proof {
                    lemma_perfect_stays(s1@, s2@, threshold, k, count);
                    lemma_search_finds_best(s1@, s2@, threshold);
                    lemma_window_score(s1@, s2@, k);
                }
                res.score = res.score.percent();
                return res;
            }
        }
        i += 1;
    }

    let mut i: usize = 0;
    while i < len2 - len1
        invariant
            i <= len2 - len1,
            0 < len1 <= len2,
            len1 == s1.len(),
            len2 == s2.len(),
            threshold.wf(),
            threshold == threshold_of(cutoff, percent),
            count == window_count(s1@.len(), s2@.len()),
            block.table() == table_of(s1@),
            forall|key: u64| s1_char_set@.contains(key) <==> s1@.contains(key),
            search_state(s1@, s2@, threshold, (len1 - 1 + i) as nat, res, score_cutoff, in_percent),
        decreases len2 - len1 - i,
    {
        let ghost k = (len1 - 1 + i) as nat;
        let substr_last = s2[i + len1 - 1];
        if s1_char_set.contains(&substr_last) {
            let perfect = try_window(
                &block,
                s1,
                s2,
                i,
                i + len1,
                &mut res,
                &mut score_cutoff,
                &mut in_percent,
                Ghost(threshold),
                Ghost(k),
            );
            if perfect {
                proof {
                    lemma_perfect_stays(s1@, s2@, threshold, k, count);
                    lemma_search_finds_best(s1@, s2@, threshold);
                    lemma_window_score(s1@, s2@, k);
                }
                res.score = res.score.percent();
                return res;
            }
        }
        i += 1;
    }

    let mut i: usize = len2 - len1;
    while i < len2
        invariant
            len2 - len1 <= i <= len2,
            0 < len1 <= len2,
            len1 == s1.len(),
            len2 == s2.len(),
            threshold.wf(),
            threshold == threshold_of(cutoff, percent),
            count == window_count(s1@.len(), s2@.len()),
            block.table() == table_of(s1@),
            forall|key: u64| s1_char_set@.contains(key) <==> s1@.contains(key),
            search_state(s1@, s2@, threshold, (len1 - 1 + i) as nat, res, score_cutoff, in_percent),
        decreases len2 - i,
    {
        let ghost k = (len1 - 1 + i) as nat;
        let substr_first = s2[i];
        if s1_char_set.contains(&substr_first) {
            let perfect = try_window(
                &block,
                s1,
                s2,
                i,
                len2,
                &mut res,
                &mut score_cutoff,
                &mut in_percent,
                Ghost(threshold),
                Ghost(k),
            );
            if perfect {
                proof {
                    lemma_perfect_stays(s1@, s2@, threshold, k, count);
                    lemma_search_finds_best(s1@, s2@, threshold);
                    lemma_window_score(s1@, s2@, k);
                }
                res.score = res.score.percent();
                return res;
            }
        }
        i += 1;
    }

    proof {
        if let Some(j) = best_upto(s1@, s2@, threshold, count) {
            lemma_best_upto(s1@, s2@, threshold, count);
            lemma_window_score(s1@, s2@, j);
        }
    }
    res.score = res.score.percent();
    res
}

/// The partial ratio for a needle `s1` that is no longer than `s2`: the
/// candidate windows of `s2` are scored against `s1` in order, and the first
/// one with the highest score is reported, with the score on the scale to
/// 100. The cutoff is a normalized score; a window below it does not count.
pub fn partial_ratio_short_needle(s1: &Vec<u64>, s2: &Vec<u64>, score_cutoff: Score) -> (res:
    ScoreAlignment)
    requires
        s1.len() <= s2.len(),
        score_cutoff.wf(),
    ensures
        res@ == short_needle_alignment(s1@, s2@, score_cutoff@),
        res.score.wf(),
{
    short_needle_search(s1, s2, score_cutoff, false)
}


/// The alignment with the roles of the two sequences exchanged.
fn swapped(res: ScoreAlignment) -> (r: ScoreAlignment)
    ensures
        r@ == res@.swapped(),
        r.score == res.score,
{
    ScoreAlignment {
        score: res.score,
        src_start: res.dest_start,
        src_end: res.dest_end,
        dest_start: res.src_start,
        dest_end: res.src_end,
    }
}

/// The characters of an optional string.
pub open spec fn str_view(s: Option<&str>) -> Option<Seq<char>> {
    match s {
        Some(text) => Some(text@),
        None => None,
    }
}

/// The characters of an optional owned string.
pub open spec fn string_view(s: Option<String>) -> Option<Seq<char>> {
    match s {
        Some(text) => Some(text@),
        None => None,
    }
}

/// The mathematical value of an optional alignment result.
pub open spec fn alignment_view(r: Option<ScoreAlignment>) -> Option<Alignment> {
    match r {
        Some(alignment) => Some(alignment@),
        None => None,
    }
}

/// The normalized Indel similarity of two strings on a scale from 0 to 100.
///
/// The cutoff is a score between 0 and 100: where the ratio is below it, 0
/// is returned in its place. The ratio with a string that is absent or empty
/// is 0.
pub fn _ratio(s1: Option<&str>, s2: Option<&str>, score_cutoff: Option<Score>) -> (r: Score)
    requires
        cutoff_wf(score_cutoff),
    ensures
        r@ == ratio_of(str_view(s1), str_view(s2), score_cutoff),
        r.wf(),
{
    match (s1, s2) {
        (Some(s1), Some(s2)) => {
            let s1_vec = chars_of(s1);
            let s2_vec = chars_of(s2);
            if is_none(Some(s1_vec.as_slice())) || is_none(Some(s2_vec.as_slice())) {
                return Score::zero();
            }
            let (s1_seq, s2_seq) = conv_sequences(s1_vec.as_slice(), s2_vec.as_slice());
            let norm_sim = keys_normalized_similarity(&s1_seq, &s2_seq, None);
            proof {
                lemma_lcs_bounds(s1_seq@, s2_seq@);
            }
            let score = norm_sim.percent();
            match score_cutoff {
                Some(cutoff) => {
                    proof {
                        Rational::lemma_hundredth_le(cutoff@, norm_sim@);
                    }
                    if cutoff.le(&score) {
                        score
                    } else {
                        Score::zero()
                    }
                },
                None => score,
            }
        },
        _ => Score::zero(),
    }
}

/// Searches for the best alignment of the shorter string in the longer one,
/// and returns its ratio with the ranges that were aligned. The ranges count
/// characters, `src` in `s1` and `dest` in `s2`, whichever of the two is the
/// shorter.
///
/// The cutoff is a score between 0 and 100, 0 where none is given: where the
/// best ratio is below it, there is no alignment. There is none either where
/// a string is absent. Two empty strings are aligned with a score of 100.
pub fn _partial_ratio_alignment(
    s1: Option<&str>,
    s2: Option<&str>,
    score_cutoff: Option<Score>,
) -> (r: Option<ScoreAlignment>)
    requires
        cutoff_wf(score_cutoff),
    ensures
        alignment_view(r) == alignment_of(str_view(s1), str_view(s2), score_cutoff),
        r matches Some(alignment) ==> alignment.score.wf(),
{
    if s1.is_none() || s2.is_none() {
        return None;
    }
    let s1 = s1.unwrap();
    let s2 = s2.unwrap();
    let mut score_cutoff = match score_cutoff {
        Some(cutoff) => cutoff,
        None => Score::zero(),
    };
    let s1_vec = chars_of(s1);
    let s2_vec = chars_of(s2);

    if s1_vec.len() == 0 && s2_vec.len() == 0 {
        return Some(
            ScoreAlignment {
                score: Score::new(100, 1),
                src_start: 0,
                src_end: 0,
                dest_start: 0,
                dest_end: 0,
            },
        );
    }
    let (s1, s2) = conv_sequences(s1_vec.as_slice(), s2_vec.as_slice());
    let first_is_shorter = s1.len() <= s2.len();
    let shorter = if first_is_shorter {
        &s1
    } else {
        &s2
    };
    let longer = if first_is_shorter {
        &s2
    } else {
        &s1
    };

    let ghost cutoff = score_cutoff@;
    let mut res = short_needle_search(shorter, longer, score_cutoff, true);
    proof {
        lemma_short_needle_bounds(shorter@, longer@, cutoff.hundredth());
    }
    if !res.score.same(&Score::new(100, 1)) && s1.len() == s2.len() {
        let ghost first = res@;
        if score_cutoff.lt(&res.score) {
            score_cutoff = res.score;
        }
        let res2 = short_needle_search(longer, shorter, score_cutoff, true);
        proof {
            lemma_second_search(s1@, s2@, cutoff, score_cutoff@);
        }
        if res.score.lt(&res2.score) {
            res = swapped(res2);
        }
        proof {
            if cutoff.lt(first.score) && res@ != first {
                Rational::lemma_lt_le_transitive(cutoff, first.score, res.score@);
            }
        }
    } else if s1.len() == s2.len() {
        proof {
            lemma_short_needle_bounds(longer@, shorter@, cutoff.hundredth());
            let second = short_needle_alignment(longer@, shorter@, cutoff.hundredth());
            assert(!res.score@.lt(second.score)) by (nonlinear_arith)
                requires
                    res.score@.num * 1 == 100 * res.score@.den,
                    second.score.num * 1 <= 100 * second.score.den,
                    res.score@.den > 0,
                    second.score.den > 0,
            ;
        }
    }
    if res.score.lt(&score_cutoff) {
        return None;
    }
    if first_is_shorter {
        return Some(res);
    }
    Some(swapped(res))
}

/// The second search of two sequences of one length, run with the higher of
/// the cutoff and the first score as its cutoff, decides as a search with
/// the cutoff itself does: it either finds the same window, or it finds
/// none where that window does not beat the first score.
proof fn lemma_second_search(k1: Seq<u64>, k2: Seq<u64>, cutoff: Rational, raised: Rational)
    requires
        cutoff.wf(),
        0 < k1.len() == k2.len(),
        raised == cutoff.max(short_needle_alignment(k1, k2, cutoff.hundredth()).score),
    ensures
        ({
            let first = short_needle_alignment(k1, k2, cutoff.hundredth());
            let second = short_needle_alignment(k2, k1, cutoff.hundredth());
            let found = short_needle_alignment(k2, k1, raised.hundredth());
            &&& raised.wf()
            &&& first.score.lt(found.score) == first.score.lt(second.score)
            &&& first.score.lt(second.score) ==> found == second
            &&& !found.score.lt(raised) || found.score == Rational::zero()
        }),
{
    let low = cutoff.hundredth();
    let high = raised.hundredth();
    let first = short_needle_alignment(k1, k2, low);
    let second = short_needle_alignment(k2, k1, low);
    let found = short_needle_alignment(k2, k1, high);
    let count = window_count(k2.len(), k1.len());
    lemma_short_needle_bounds(k1, k2, low);
    lemma_short_needle_bounds(k2, k1, low);
    assert(low.le(high)) by (nonlinear_arith)
        requires
            !(raised.num * cutoff.den < cutoff.num * raised.den),
            low.num == cutoff.num,
            low.den == 100 * cutoff.den,
            high.num == raised.num,
            high.den == 100 * raised.den,
    ;
    lemma_raised_threshold(k2, k1, low, high, count);
    lemma_search_finds_best(k2, k1, low);
    lemma_search_finds_best(k2, k1, high);
    match best_window(k2, k1, low) {
        Some(j) => {
            let sj = window_score(k2, k1, j);
            lemma_window_score(k2, k1, j);
            Rational::lemma_hundredth_le(raised, sj);
            Rational::lemma_hundredth_le(cutoff, sj);
            if !high.le(sj) {
                // the window is eligible for the cutoff, so it is the first score that it misses
                assert(raised == first.score);
            }
        },
        None => {},
    }
}

/// Searches for the best alignment of the shorter string in the longer one,
/// and returns its ratio: 0 where there is no alignment.
pub fn _partial_ratio(s1: Option<&str>, s2: Option<&str>, score_cutoff: Option<Score>) -> (r:
    Score)
    requires
        cutoff_wf(score_cutoff),
    ensures
        r@ == partial_ratio_of(str_view(s1), str_view(s2), score_cutoff),
        r.wf(),
{
    let alignment = _partial_ratio_alignment(s1, s2, score_cutoff);
    match alignment {
        Some(alignment) => alignment.score,
        None => Score::zero(),
    }
}

/// `out` is what the processor made of `s`: nothing of an absent string.
pub open spec fn processed_by<E, F: Fn(&str) -> Result<String, E>>(
    processor: &F,
    s: Option<&str>,
    out: Option<String>,
) -> bool {
    match s {
        Some(text) => out matches Some(made) && processor.ensures((text,), Ok(made)),
        None => out is None,
    }
}

/// The processor failed on `s` with `error`.
pub open spec fn failed_by<E, F: Fn(&str) -> Result<String, E>>(
    processor: &F,
    s: Option<&str>,
    error: E,
) -> bool {
    s matches Some(text) && processor.ensures((text,), Err(error))
}

/// What `process_inputs` may return: with a processor, what it made of both
/// strings, or its failure on the first, or its failure on the second after
/// it has dealt with the first; without one, the strings as they are.
pub open spec fn inputs_processed<E, F: Fn(&str) -> Result<String, E>>(
    s1: Option<&str>,
    s2: Option<&str>,
    processor: Option<&F>,
    r: Result<(Option<String>, Option<String>), E>,
) -> bool {
    match processor {
        Some(f) => match r {
            Ok(made) => processed_by(f, s1, made.0) && processed_by(f, s2, made.1),
            Err(error) => failed_by(f, s1, error) || (failed_by(f, s2, error) && exists|
                first: Option<String>,
            |
                processed_by(f, s1, first)),
        },
        None => r matches Ok(made) && string_view(made.0) == str_view(s1) && string_view(made.1)
            == str_view(s2),
    }
}

/// The processor accepts every string.
pub open spec fn accepts_all<E, F: Fn(&str) -> Result<String, E>>(processor: Option<&F>) -> bool {
    processor matches Some(f) ==> forall|text: &str| f.requires((text,))
}

/// Applies the processor to one optional string.
fn process_one<E, F: Fn(&str) -> Result<String, E>>(s: Option<&str>, processor: &F) -> (r: Result<
    Option<String>,
    E,
>)
    requires
        forall|text: &str| processor.requires((text,)),
    ensures
        match r {
            Ok(made) => processed_by(processor, s, made),
            Err(error) => failed_by(processor, s, error),
        },
{
    match s {
        Some(text) => match processor(text) {
            Ok(made) => Ok(Some(made)),
            Err(error) => Err(error),
        },
        None => Ok(None),
    }
}

/// Processes the inputs with a given processor: each string that is there is
/// handed to the processor, the first one first, and the first failure is
/// returned as it is. Without a processor the strings are copied.
pub fn process_inputs<E, F: Fn(&str) -> Result<String, E>>(
    s1: Option<&str>,
    s2: Option<&str>,
    processor: Option<&F>,
) -> (r: Result<(Option<String>, Option<String>), E>)
    requires
        accepts_all(processor),
    ensures
        inputs_processed(s1, s2, processor, r),
{
    match processor {
        Some(f) => {
            let processed_s1 = match process_one(s1, f) {
                Ok(made) => made,
                Err(error) => {
                    return Err(error);
                },
            };
            let processed_s2 = match process_one(s2, f) {
                Ok(made) => made,
                Err(error) => {
                    return Err(error);
                },
            };
            Ok((processed_s1, processed_s2))
        },
        None => {
            let copy1 = match s1 {
                Some(text) => Some(text.to_owned()),
                None => None,
            };
            let copy2 = match s2 {
                Some(text) => Some(text.to_owned()),
                None => None,
            };
            Ok((copy1, copy2))
        },
    }
}

/// A borrowed view of an optional owned string.
fn as_text(s: &Option<String>) -> (r: Option<&str>)
    ensures
        str_view(r) == string_view(*s),
{
    match s {
        Some(text) => Some(text.as_str()),
        None => None,
    }
}

/// `r` is `score` of the processed inputs, or the failure of the processor.
pub open spec fn scored_after_processing<E, F: Fn(&str) -> Result<String, E>, R>(
    s1: Option<&str>,
    s2: Option<&str>,
    processor: Option<&F>,
    r: Result<R, E>,
    score: spec_fn(Option<Seq<char>>, Option<Seq<char>>, R) -> bool,
) -> bool {
    match r {
        Ok(value) => exists|made: (Option<String>, Option<String>)|
            inputs_processed(s1, s2, processor, Ok(made)) && score(
                string_view(made.0),
                string_view(made.1),
                value,
            ),
        Err(error) => inputs_processed(s1, s2, processor, Err(error)),
    }
}

/// The ratio of two strings after an optional processor has been applied to
/// both: see `_ratio`. A failure of the processor is handed on.
pub fn ratio<E, F: Fn(&str) -> Result<String, E>>(
    s1: Option<&str>,
    s2: Option<&str>,
    processor: Option<&F>,
    score_cutoff: Option<Score>,
) -> (r: Result<Score, E>)
    requires
        cutoff_wf(score_cutoff),
        accepts_all(processor),
    ensures
        scored_after_processing(
            s1,
            s2,
            processor,
            r,
            |p1: Option<Seq<char>>, p2: Option<Seq<char>>, score: Score|
                score@ == ratio_of(p1, p2, score_cutoff),
        ),
        processor is None ==> r is Ok,
{
    match process_inputs(s1, s2, processor) {
        Ok(made) => {
            let score = _ratio(as_text(&made.0), as_text(&made.1), score_cutoff);
            Ok(score)
        },
        Err(error) => Err(error),
    }
}

/// The partial ratio of two strings after an optional processor has been
/// applied to both: see `_partial_ratio`. A failure of the processor is
/// handed on.
pub fn partial_ratio<E, F: Fn(&str) -> Result<String, E>>(
    s1: Option<&str>,
    s2: Option<&str>,
    processor: Option<&F>,
    score_cutoff: Option<Score>,
) -> (r: Result<Score, E>)
    requires
        cutoff_wf(score_cutoff),
        accepts_all(processor),
    ensures
        scored_after_processing(
            s1,
            s2,
            processor,
            r,
            |p1: Option<Seq<char>>, p2: Option<Seq<char>>, score: Score|
                score@ == partial_ratio_of(p1, p2, score_cutoff),
        ),
        processor is None ==> r is Ok,
{
    match process_inputs(s1, s2, processor) {
        Ok(made) => {
            let score = _partial_ratio(as_text(&made.0), as_text(&made.1), score_cutoff);
            Ok(score)
        },
        Err(error) => Err(error),
    }
}

/// The alignment of two strings after an optional processor has been applied
/// to both: see `_partial_ratio_alignment`. A failure of the processor is
/// handed on.
pub fn partial_ratio_alignment<E, F: Fn(&str) -> Result<String, E>>(
    s1: Option<&str>,
    s2: Option<&str>,
    processor: Option<&F>,
    score_cutoff: Option<Score>,
) -> (r: Result<Option<ScoreAlignment>, E>)
    requires
        cutoff_wf(score_cutoff),
        accepts_all(processor),
    ensures
        scored_after_processing(
            s1,
            s2,
            processor,
            r,
            |p1: Option<Seq<char>>, p2: Option<Seq<char>>, res: Option<ScoreAlignment>|
                alignment_view(res) == alignment_of(p1, p2, score_cutoff),
        ),
        processor is None ==> r is Ok,
{
    match process_inputs(s1, s2, processor) {
        Ok(made) => {
            let res = _partial_ratio_alignment(as_text(&made.0), as_text(&made.1), score_cutoff);
            Ok(res)
        },
        Err(error) => Err(error),
    }
}

} // verus!
