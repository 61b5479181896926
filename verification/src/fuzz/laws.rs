//! What holds of the ratio and of the partial ratio on all inputs.

use crate::common::{keys, lemma_char_keys_injective};
use crate::distance::indel::{
    cutoff_wf, indel_similarity, lemma_similarity_range, lemma_similarity_symmetric,
};
use crate::distance::models::{Rational, Score};
use crate::fuzz::{
    best_window, eligible, hundred, lemma_best_window, lemma_window_score, partial_alignment,
    partial_ratio_of, ratio_of, short_needle_alignment, window, window_count, window_keys,
    window_score,
};
use crate::lcs::{lcs_len, lemma_lcs_bounds, lemma_lcs_of_stretch};
use vstd::prelude::*;

verus! {

/// The ratio of a string that is not empty with itself is 100, with no
/// cutoff or one of at most 100; and two strings have a ratio of 100 only
/// where they are equal.
pub proof fn lemma_ratio_self(s: Seq<char>, t: Seq<char>, score_cutoff: Option<Score>)
    requires
        cutoff_wf(score_cutoff),
        s.len() > 0,
        score_cutoff matches Some(cutoff) ==> cutoff@.le(hundred()),
    ensures
        ratio_of(Some(s), Some(s), score_cutoff).same(hundred()),
        ratio_of(Some(s), Some(t), score_cutoff).same(hundred()) ==> s == t,
{
    lemma_similarity_range(keys(s), keys(s));
    lemma_similarity_range(keys(s), keys(t));
    lemma_char_keys_injective(s, t);
    let sim = indel_similarity(keys(s), keys(s));
    if let Some(cutoff) = score_cutoff {
        assert(cutoff@.hundredth().le(sim)) by (nonlinear_arith)
            requires
                cutoff@.num * 1 <= 100 * cutoff@.den,
                sim.num * 1 == 1 * sim.den,
                sim.den > 0,
                cutoff@.den > 0,
                cutoff@.hundredth().num == cutoff@.num,
                cutoff@.hundredth().den == 100 * cutoff@.den,
        ;
    }
    assert(sim.percent().same(hundred())) by (nonlinear_arith)
        requires
            sim.num * 1 == 1 * sim.den,
            sim.percent().num == 100 * sim.num,
            sim.percent().den == sim.den,
            hundred().num == 100,
            hundred().den == 1,
    ;
}

/// The ratio with an absent string is zero.
pub proof fn lemma_ratio_absent(s: Option<Seq<char>>, score_cutoff: Option<Score>)
    ensures
        ratio_of(None, s, score_cutoff) == Rational::zero(),
        ratio_of(s, None, score_cutoff) == Rational::zero(),
{
}

/// The ratio lies between 0 and 100.
pub proof fn lemma_ratio_range(
    s1: Option<Seq<char>>,
    s2: Option<Seq<char>>,
    score_cutoff: Option<Score>,
)
    ensures
        ratio_of(s1, s2, score_cutoff).wf(),
        Rational::zero().le(ratio_of(s1, s2, score_cutoff)),
        ratio_of(s1, s2, score_cutoff).le(hundred()),
{
    if let (Some(a), Some(b)) = (s1, s2) {
        lemma_similarity_range(keys(a), keys(b));
    }
}

/// A candidate window whose probed key occurs in the needle and whose score
/// is no lower than the similarity of the needle and the whole sequence.
pub open spec fn window_keeps_up(needle: Seq<u64>, hay: Seq<u64>, k: nat) -> bool {
    &&& k < window_count(needle.len(), hay.len())
    &&& needle.contains(hay[window(needle.len(), hay.len(), k).probe as int])
    &&& indel_similarity(needle, hay).le(window_score(needle, hay, k))
}

/// For two strings of different lengths the partial ratio is at least the
/// ratio, as long as the ratio is zero or one candidate window keeps up with
/// the whole of the longer string. Where every window falls behind, as
/// where the matching characters lie far apart, the partial ratio is the lower.
pub proof fn lemma_partial_ratio_dominates(
    a: Seq<char>,
    b: Seq<char>,
    score_cutoff: Option<Score>,
    k: nat,
)
    requires
        cutoff_wf(score_cutoff),
        a.len() != b.len(),
        ratio_of(Some(a), Some(b), score_cutoff).same(Rational::zero()) || (if a.len() < b.len() {
            window_keeps_up(keys(a), keys(b), k)
        } else {
            window_keeps_up(keys(b), keys(a), k)
        }),
    ensures
        ratio_of(Some(a), Some(b), score_cutoff).le(
            partial_ratio_of(Some(a), Some(b), score_cutoff),
        ),
{
    let cutoff = match score_cutoff {
        Some(c) => c@,
        None => Rational::zero(),
    };
    let (needle, hay) = if a.len() < b.len() {
        (keys(a), keys(b))
    } else {
        (keys(b), keys(a))
    };
    let threshold = cutoff.hundredth();
    let full = ratio_of(Some(a), Some(b), score_cutoff);
    let partial = partial_ratio_of(Some(a), Some(b), score_cutoff);
    let sim = indel_similarity(needle, hay);
    let count = window_count(needle.len(), hay.len());
    lemma_similarity_symmetric(keys(a), keys(b));
    lemma_similarity_range(needle, hay);
    lemma_ratio_range(Some(a), Some(b), score_cutoff);
    // the partial ratio is a score that is not negative
    assert(partial.wf() && Rational::zero().le(partial)) by {
        if needle.len() > 0 {
            lemma_best_window(needle, hay, threshold);
            if let Some(j) = best_window(needle, hay, threshold) {
                lemma_window_score(needle, hay, j);
            }
        }
    }
    if full.same(Rational::zero()) {
        assert(full.le(partial)) by (nonlinear_arith)
            requires
                full.num * 1 == 0 * full.den,
                partial.num >= 0,
                full.den > 0,
                partial.den > 0,
        ;
    } else {
        assert(needle.len() > 0);
        assert(full == sim.percent());
        assert(threshold.le(sim));
        let sk = window_score(needle, hay, k);
        lemma_window_score(needle, hay, k);
        Rational::lemma_le_transitive(threshold, sim, sk);
        assert(Rational::zero().lt(sim));
        Rational::lemma_lt_le_transitive(Rational::zero(), sim, sk);
        assert(eligible(needle, hay, threshold, k));
        lemma_best_window(needle, hay, threshold);
        let j = best_window(needle, hay, threshold)->0;
        let sj = window_score(needle, hay, j);
        lemma_window_score(needle, hay, j);
        Rational::lemma_le_transitive(sim, sk, sj);
        Rational::lemma_hundredth_le(cutoff, sj);
        assert(partial == sj.percent());
        assert(sim.percent().le(sj.percent())) by (nonlinear_arith)
            requires
                sim.num * sj.den <= sj.num * sim.den,
        ;
    }
}


/// The alignment that the search reports covers the whole needle and a
/// window of the other sequence that is no longer than the needle, with a
/// score between 0 and 100.
pub proof fn lemma_short_needle_bounds(s1: Seq<u64>, s2: Seq<u64>, threshold: Rational)
    requires
        threshold.wf(),
        s1.len() <= s2.len(),
    ensures
        ({
            let r = short_needle_alignment(s1, s2, threshold);
            &&& r.src_start == 0
            &&& r.src_end == s1.len()
            &&& r.dest_start <= r.dest_end <= s2.len()
            &&& r.dest_end - r.dest_start <= s1.len()
            &&& r.score.wf()
            &&& Rational::zero().le(r.score)
            &&& r.score.le(hundred())
            &&& r.score.same(Rational::zero()) || threshold.percent().le(r.score)
        }),
{
    if s1.len() > 0 {
        let count = window_count(s1.len(), s2.len());
        lemma_best_window(s1, s2, threshold);
        if let Some(j) = best_window(s1, s2, threshold) {
            lemma_window_score(s1, s2, j);
            let sj = window_score(s1, s2, j);
            assert(sj.percent().le(hundred())) by (nonlinear_arith)
                requires
                    sj.num * 1 <= 1 * sj.den,
                    sj.percent().num == 100 * sj.num,
                    sj.percent().den == sj.den,
                    hundred().num == 100,
                    hundred().den == 1,
            ;
            assert(threshold.percent().le(sj.percent())) by (nonlinear_arith)
                requires
                    threshold.num * sj.den <= sj.num * threshold.den,
                    sj.percent().num == 100 * sj.num,
                    sj.percent().den == sj.den,
                    threshold.percent().num == 100 * threshold.num,
                    threshold.percent().den == threshold.den,
            ;
        }
    }
}

/// A needle that occurs in the other sequence as a window is found with a
/// score of 100, whatever else the sequence holds, as long as the threshold
/// is at most one.
pub proof fn lemma_needle_found(s1: Seq<u64>, s2: Seq<u64>, threshold: Rational, i: nat)
    requires
        threshold.wf(),
        threshold.le(Rational::one()),
        0 < s1.len(),
        i + s1.len() <= s2.len(),
        s2.subrange(i as int, (i + s1.len()) as int) == s1,
    ensures
        short_needle_alignment(s1, s2, threshold).score.same(hundred()),
{
    let k = (i + s1.len() - 1) as nat;
    let count = window_count(s1.len(), s2.len());
    let w = window(s1.len(), s2.len(), k);
    let sk = window_score(s1, s2, k);
    assert(window_keys(s2, w) == s1);
    assert(s1.contains(s2[w.probe as int])) by {
        if k + 1 < s2.len() {
            let found = s2.subrange(i as int, (i + s1.len()) as int);
            assert(found[s1.len() - 1] == s2[w.probe as int]);
            assert(s1[s1.len() - 1] == s2[w.probe as int]);
        } else {
            assert(s2.subrange(i as int, (i + s1.len()) as int)[0] == s2[w.probe as int]);
            assert(s1[0] == s2[w.probe as int]);
        }
    }
    lemma_similarity_range(s1, s1);
    lemma_window_score(s1, s2, k);
    assert(sk == indel_similarity(s1, s1));
    assert(Rational::one().le(sk) && Rational::zero().lt(sk)) by (nonlinear_arith)
        requires
            sk.num * Rational::one().den == Rational::one().num * sk.den,
            sk.den > 0,
            Rational::one().num == 1,
            Rational::one().den == 1,
            Rational::zero().num == 0,
            Rational::zero().den == 1,
    ;
    Rational::lemma_le_transitive(threshold, Rational::one(), sk);
    assert(eligible(s1, s2, threshold, k));
    lemma_best_window(s1, s2, threshold);
    let j = best_window(s1, s2, threshold)->0;
    let sj = window_score(s1, s2, j);
    lemma_window_score(s1, s2, j);
    assert(sj.percent().same(hundred())) by (nonlinear_arith)
        requires
            sk.num * 1 == 1 * sk.den,
            sk.num * sj.den <= sj.num * sk.den,
            sj.num * 1 <= 1 * sj.den,
            sk.den > 0,
            sj.den > 0,
            sj.percent().num == 100 * sj.num,
            sj.percent().den == sj.den,
            hundred().num == 100,
            hundred().den == 1,
    ;
}

/// The partial ratio of a string that is not empty and a string that holds
/// it as a substring is 100, in either order of the two, with no cutoff or
/// one of at most 100.
pub proof fn lemma_partial_ratio_of_substring(
    a: Seq<char>,
    b: Seq<char>,
    score_cutoff: Option<Score>,
    i: nat,
)
    requires
        cutoff_wf(score_cutoff),
        score_cutoff matches Some(cutoff) ==> cutoff@.le(hundred()),
        0 < a.len(),
        i + a.len() <= b.len(),
        b.subrange(i as int, (i + a.len()) as int) == a,
    ensures
        partial_ratio_of(Some(a), Some(b), score_cutoff).same(hundred()),
        partial_ratio_of(Some(b), Some(a), score_cutoff).same(hundred()),
{
    let cutoff = match score_cutoff {
        Some(c) => c@,
        None => Rational::zero(),
    };
    let threshold = cutoff.hundredth();
    let (needle, hay) = (keys(a), keys(b));
    assert(hay.subrange(i as int, (i + needle.len()) as int) =~= needle) by {
        assert forall|p: int| 0 <= p < needle.len() implies hay[i + p] == needle[p] by {
            assert(b.subrange(i as int, (i + a.len()) as int)[p] == a[p]);
        }
    }
    assert(threshold.le(Rational::one())) by (nonlinear_arith)
        requires
            cutoff.num * 1 <= 100 * cutoff.den,
            threshold.num == cutoff.num,
            threshold.den == 100 * cutoff.den,
            Rational::one().num == 1,
            Rational::one().den == 1,
    ;
    if a.len() == b.len() {
        assert(b.subrange(0, b.len() as int) =~= b);
    }
    lemma_needle_found(needle, hay, threshold, i);
    lemma_short_needle_bounds(needle, hay, threshold);
    let first = short_needle_alignment(needle, hay, threshold);
    assert(!first.score.lt(cutoff)) by (nonlinear_arith)
        requires
            first.score.num * 1 == 100 * first.score.den,
            cutoff.num * 1 <= 100 * cutoff.den,
            first.score.den > 0,
            cutoff.den > 0,
    ;
}


/// A stretch of the longer sequence, from `from` up to `to`, that is no
/// longer than the needle, begins and ends with a key of the needle, and
/// holds a longest common subsequence of the needle and the whole sequence.
pub open spec fn matches_lie_close(needle: Seq<u64>, hay: Seq<u64>, from: int, to: int) -> bool {
    &&& 0 <= from < to <= hay.len()
    &&& to - from <= needle.len()
    &&& needle.contains(hay[from])
    &&& needle.contains(hay[to - 1])
    &&& lcs_len(needle, hay.subrange(from, to)) == lcs_len(needle, hay)
}

/// Where the matches lie close, one candidate window keeps up with the whole
/// of the longer sequence: the window that ends where the stretch ends, or
/// the suffix that begins where it begins.
pub proof fn lemma_close_matches_keep_up(needle: Seq<u64>, hay: Seq<u64>, from: int, to: int)
    requires
        needle.len() <= hay.len(),
        matches_lie_close(needle, hay, from, to),
    ensures
        window_keeps_up(
            needle,
            hay,
            if to < hay.len() {
                (to - 1) as nat
            } else {
                (from + needle.len() - 1) as nat
            },
        ),
{
    let k = if to < hay.len() {
        (to - 1) as nat
    } else {
        (from + needle.len() - 1) as nat
    };
    let w = window(needle.len(), hay.len(), k);
    let keys = window_keys(hay, w);
    assert(w.start <= from && to <= w.end && w.end <= hay.len());
    // the window holds the stretch, and so a common subsequence as long as the whole has
    lemma_lcs_of_stretch(needle, keys, from - w.start, to - w.start);
    assert(keys.subrange(from - w.start, to - w.start) =~= hay.subrange(from, to));
    lemma_lcs_of_stretch(needle, hay, w.start as int, w.end as int);
    lemma_lcs_bounds(needle, hay);
    let (whole, part) = (indel_similarity(needle, hay), window_score(needle, hay, k));
    assert(whole.le(part)) by (nonlinear_arith)
        requires
            whole.num == part.num,
            0 <= whole.num,
            0 < part.den <= whole.den,
    ;
}

/// For two strings of different lengths the partial ratio is at least the
/// ratio where the matches lie close: where a stretch of the longer string
/// that is no longer than the shorter string holds all that the two have in
/// common.
pub proof fn lemma_partial_ratio_of_close_matches(
    a: Seq<char>,
    b: Seq<char>,
    score_cutoff: Option<Score>,
    from: int,
    to: int,
)
    requires
        cutoff_wf(score_cutoff),
        a.len() != b.len(),
        if a.len() < b.len() {
            matches_lie_close(keys(a), keys(b), from, to)
        } else {
            matches_lie_close(keys(b), keys(a), from, to)
        },
    ensures
        ratio_of(Some(a), Some(b), score_cutoff).le(
            partial_ratio_of(Some(a), Some(b), score_cutoff),
        ),
{
    let (needle, hay) = if a.len() < b.len() {
        (keys(a), keys(b))
    } else {
        (keys(b), keys(a))
    };
    lemma_close_matches_keep_up(needle, hay, from, to);
    let k = if to < hay.len() {
        (to - 1) as nat
    } else {
        (from + needle.len() - 1) as nat
    };
    lemma_partial_ratio_dominates(a, b, score_cutoff, k);
}

/// The other half of `lemma_partial_ratio_dominates`: where the ratio is not
/// zero and no candidate window keeps up with the whole of the longer
/// string, the partial ratio is below the ratio.
pub proof fn lemma_partial_ratio_falls_behind(
    a: Seq<char>,
    b: Seq<char>,
    score_cutoff: Option<Score>,
)
    requires
        cutoff_wf(score_cutoff),
        a.len() != b.len(),
        !ratio_of(Some(a), Some(b), score_cutoff).same(Rational::zero()),
        forall|k: nat|
            !(if a.len() < b.len() {
                window_keeps_up(keys(a), keys(b), k)
            } else {
                window_keeps_up(keys(b), keys(a), k)
            }),
    ensures
        partial_ratio_of(Some(a), Some(b), score_cutoff).lt(
            ratio_of(Some(a), Some(b), score_cutoff),
        ),
{
    let cutoff = match score_cutoff {
        Some(c) => c@,
        None => Rational::zero(),
    };
    let (needle, hay) = if a.len() < b.len() {
        (keys(a), keys(b))
    } else {
        (keys(b), keys(a))
    };
    let threshold = cutoff.hundredth();
    let full = ratio_of(Some(a), Some(b), score_cutoff);
    let partial = partial_ratio_of(Some(a), Some(b), score_cutoff);
    let sim = indel_similarity(needle, hay);
    let count = window_count(needle.len(), hay.len());
    lemma_similarity_symmetric(keys(a), keys(b));
    lemma_similarity_range(needle, hay);
    assert(full == sim.percent());
    assert(Rational::zero().lt(full)) by (nonlinear_arith)
        requires
            full.num * Rational::zero().den != Rational::zero().num * full.den,
            full.num >= 0,
            full.den > 0,
            Rational::zero().num == 0,
            Rational::zero().den == 1,
    ;
    lemma_best_window(needle, hay, threshold);
    match best_window(needle, hay, threshold) {
        Some(j) => {
            let sj = window_score(needle, hay, j);
            lemma_window_score(needle, hay, j);
            assert(!window_keeps_up(needle, hay, j));
            Rational::lemma_hundredth_le(cutoff, sj);
            assert(partial == sj.percent());
            assert(sj.percent().lt(sim.percent())) by (nonlinear_arith)
                requires
                    !(sim.num * sj.den <= sj.num * sim.den),
                    sj.percent().num == 100 * sj.num,
                    sj.percent().den == sj.den,
                    sim.percent().num == 100 * sim.num,
                    sim.percent().den == sim.den,
            ;
        },
        None => {
            assert(partial == Rational::zero());
        },
    }
}

/// The alignment of two key sequences, where there is one, lies within the
/// two sequences, covers the whole of one that is no longer than the other,
/// and has a score between 0 and 100 that is not below the cutoff, but for
/// the score of 100 that two empty sequences have whatever the cutoff.
pub proof fn lemma_partial_alignment_bounds(k1: Seq<u64>, k2: Seq<u64>, cutoff: Rational)
    requires
        cutoff.wf(),
    ensures
        partial_alignment(k1, k2, cutoff) matches Some(r) ==> {
            &&& r.src_start <= r.src_end <= k1.len()
            &&& r.dest_start <= r.dest_end <= k2.len()
            &&& (r.src_start == 0 && r.src_end == k1.len() && k1.len() <= k2.len()) || (r.dest_start
                == 0 && r.dest_end == k2.len() && k2.len() <= k1.len())
            &&& r.score.wf()
            &&& Rational::zero().le(r.score)
            &&& r.score.le(hundred())
            &&& (k1.len() == 0 && k2.len() == 0) || cutoff.le(r.score)
        },
{
    if k1.len() <= k2.len() {
        lemma_short_needle_bounds(k1, k2, cutoff.hundredth());
    }
    if k2.len() <= k1.len() {
        lemma_short_needle_bounds(k2, k1, cutoff.hundredth());
    }
}

} // verus!
