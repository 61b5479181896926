//! Scores as exact fractions, and the result of an alignment search.

use vstd::arithmetic::div_mod::lemma_fundamental_div_mod;
use vstd::prelude::*;
use vstd::std_specs::cmp::PartialEqSpecImpl;

verus! {

/// A fraction of two integers: the mathematical value of a score.
pub struct Rational {
    pub num: int,
    pub den: int,
}

impl Rational {
    /// The fraction is non-negative and its denominator is positive.
    pub open spec fn wf(self) -> bool {
        self.num >= 0 && self.den > 0
    }

    /// `self < other` as numbers.
    pub open spec fn lt(self, other: Rational) -> bool {
        self.num * other.den < other.num * self.den
    }

    /// `self <= other` as numbers.
    pub open spec fn le(self, other: Rational) -> bool {
        self.num * other.den <= other.num * self.den
    }

    /// The two fractions are the same number.
    pub open spec fn same(self, other: Rational) -> bool {
        self.num * other.den == other.num * self.den
    }

    /// The number zero, as `0/1`.
    pub open spec fn zero() -> Rational {
        Rational { num: 0, den: 1 }
    }

    /// The number one, as `1/1`.
    pub open spec fn one() -> Rational {
        Rational { num: 1, den: 1 }
    }

    /// The fraction taken a hundred times.
    pub open spec fn percent(self) -> Rational {
        Rational { num: 100 * self.num, den: self.den }
    }

    /// A hundredth of the fraction.
    pub open spec fn hundredth(self) -> Rational {
        Rational { num: self.num, den: 100 * self.den }
    }

    /// The larger of two fractions; the first where they are the same number.
    pub open spec fn max(self, other: Rational) -> Rational {
        if self.lt(other) {
            other
        } else {
            self
        }
    }

    /// The order of fractions is transitive.
    pub proof fn lemma_le_transitive(a: Rational, b: Rational, c: Rational)
        requires
            a.wf(),
            b.wf(),
            c.wf(),
            a.le(b),
            b.le(c),
        ensures
            a.le(c),
    {
        assert(a.num * c.den <= c.num * a.den) by (nonlinear_arith)
            requires
                a.num * b.den <= b.num * a.den,
                b.num * c.den <= c.num * b.den,
                a.den > 0,
                b.den > 0,
                c.den > 0,
                a.num >= 0,
                b.num >= 0,
                c.num >= 0,
        {
            assert((a.num * b.den) * c.den <= (b.num * a.den) * c.den);
            assert((b.num * c.den) * a.den <= (c.num * b.den) * a.den);
            assert((a.num * c.den) * b.den <= (c.num * a.den) * b.den);
        }
    }

    /// A fraction that is at most a second one is below all that the second is below.
    pub proof fn lemma_le_lt_transitive(a: Rational, b: Rational, c: Rational)
        requires
            a.wf(),
            b.wf(),
            c.wf(),
            a.le(b),
            b.lt(c),
        ensures
            a.lt(c),
    {
        assert(a.num * c.den < c.num * a.den) by (nonlinear_arith)
            requires
                a.num * b.den <= b.num * a.den,
                b.num * c.den < c.num * b.den,
                a.den > 0,
                b.den > 0,
                c.den > 0,
                a.num >= 0,
                b.num >= 0,
                c.num >= 0,
        {
            assert((a.num * b.den) * c.den <= (b.num * a.den) * c.den);
            assert((b.num * c.den) * a.den < (c.num * b.den) * a.den);
            assert((a.num * c.den) * b.den < (c.num * a.den) * b.den);
        }
    }

    /// A fraction below a second one is below all that the second is at most.
    pub proof fn lemma_lt_le_transitive(a: Rational, b: Rational, c: Rational)
        requires
            a.wf(),
            b.wf(),
            c.wf(),
            a.lt(b),
            b.le(c),
        ensures
            a.lt(c),
    {
        assert(a.num * c.den < c.num * a.den) by (nonlinear_arith)
            requires
                a.num * b.den < b.num * a.den,
                b.num * c.den <= c.num * b.den,
                a.den > 0,
                b.den > 0,
                c.den > 0,
                a.num >= 0,
                b.num >= 0,
                c.num >= 0,
        {
            assert((a.num * b.den) * c.den < (b.num * a.den) * c.den);
            assert((b.num * c.den) * a.den <= (c.num * b.den) * a.den);
            assert((a.num * c.den) * b.den < (c.num * a.den) * b.den);
        }
    }

    /// Taking a hundredth on one side compares as taking a hundred times on the other.
    pub proof fn lemma_hundredth_le(a: Rational, b: Rational)
        ensures
            a.hundredth().le(b) == a.le(b.percent()),
            b.lt(a.hundredth()) == b.percent().lt(a),
    {
        assert(a.num * b.den <= b.num * (100 * a.den) <==> a.num * b.den <= (100 * b.num) * a.den)
            by (nonlinear_arith);
        assert(b.num * (100 * a.den) < a.num * b.den <==> (100 * b.num) * a.den < a.num * b.den)
            by (nonlinear_arith);
    }
}

/// A score: the exact fraction `num / den`.
#[derive(Clone, Copy, Debug)]
pub struct Score {
    pub num: u128,
    pub den: u128,
}

impl View for Score {
    type V = Rational;

    open spec fn view(&self) -> Rational {
        Rational { num: self.num as int, den: self.den as int }
    }
}

/// The result of an alignment search: the score, and the half-open ranges of
/// the first and of the second sequence that were aligned.
#[derive(Clone, Copy, Debug)]
pub struct ScoreAlignment {
    pub score: Score,
    pub src_start: usize,
    pub src_end: usize,
    pub dest_start: usize,
    pub dest_end: usize,
}

/// One entry of an alignment result: the score, or one of the four indices.
#[derive(Clone, Copy, Debug)]
pub enum IndexResult {
    Integer(usize),
    Score(Score),
}

impl ScoreAlignment {
    /// The alignment result with the given entries.
    pub fn new(
        score: Score,
        src_start: usize,
        src_end: usize,
        dest_start: usize,
        dest_end: usize,
    ) -> (r: ScoreAlignment)
        ensures
            r == (ScoreAlignment { score, src_start, src_end, dest_start, dest_end }),
    {
        ScoreAlignment { score, src_start, src_end, dest_start, dest_end }
    }

    /// The number of entries: the score and four indices.
    pub fn len(&self) -> (r: usize)
        ensures
            r == 5,
    {
        5
    }

    /// The entry at a position from 0 to 4, in the order score, `src_start`,
    /// `src_end`, `dest_start`, `dest_end`. A negative position counts from
    /// the end: -1 is the last entry.
    pub open spec fn entry(&self, idx: int) -> Option<IndexResult> {
        let position = if idx < 0 {
            5 + idx
        } else {
            idx
        };
        if position == 0 {
            Some(IndexResult::Score(self.score))
        } else if position == 1 {
            Some(IndexResult::Integer(self.src_start))
        } else if position == 2 {
            Some(IndexResult::Integer(self.src_end))
        } else if position == 3 {
            Some(IndexResult::Integer(self.dest_start))
        } else if position == 4 {
            Some(IndexResult::Integer(self.dest_end))
        } else {
            None
        }
    }

    /// The entry at a position, `None` where the position is out of range.
    pub fn get_item(&self, idx: isize) -> (r: Option<IndexResult>)
        ensures
            r == self.entry(idx as int),
    {
        let idx = if idx < 0 {
            5 + idx
        } else {
            idx
        };
        match idx {
            0 => Some(IndexResult::Score(self.score)),
            1 => Some(IndexResult::Integer(self.src_start)),
            2 => Some(IndexResult::Integer(self.src_end)),
            3 => Some(IndexResult::Integer(self.dest_start)),
            4 => Some(IndexResult::Integer(self.dest_end)),
            _ => None,
        }
    }
}

/// The mathematical value of an alignment result.
pub struct Alignment {
    pub score: Rational,
    pub src_start: nat,
    pub src_end: nat,
    pub dest_start: nat,
    pub dest_end: nat,
}

impl Alignment {
    /// The same alignment with the roles of the two sequences exchanged.
    pub open spec fn swapped(self) -> Alignment {
        Alignment {
            score: self.score,
            src_start: self.dest_start,
            src_end: self.dest_end,
            dest_start: self.src_start,
            dest_end: self.src_end,
        }
    }
}

impl View for ScoreAlignment {
    type V = Alignment;

    open spec fn view(&self) -> Alignment {
        Alignment {
            score: self.score@,
            src_start: self.src_start as nat,
            src_end: self.src_end as nat,
            dest_start: self.dest_start as nat,
            dest_end: self.dest_end as nat,
        }
    }
}

/// Quotients decide a comparison of two fractions; where they are equal the
/// remainders do.
proof fn lemma_compare_by_parts(a: int, b: int, c: int, d: int)
    requires
        0 <= a,
        0 < b,
        0 <= c,
        0 < d,
    ensures
        a / b < c / d ==> a * d < c * b,
        a / b > c / d ==> a * d > c * b,
        a / b == c / d ==> (a * d < c * b) == ((a % b) * d < (c % d) * b),
{
    let (qa, ra, qc, rc) = (a / b, a % b, c / d, c % d);
    lemma_fundamental_div_mod(a, b);
    lemma_fundamental_div_mod(c, d);
    assert(a * d == qa * (b * d) + ra * d && c * b == qc * (b * d) + rc * b) by (nonlinear_arith)
        requires
            a == b * qa + ra,
            c == d * qc + rc,
    ;
    assert(0 <= ra * d < b * d && 0 <= rc * b < b * d) by (nonlinear_arith)
        requires
            0 <= ra < b,
            0 <= rc < d,
    ;
    assert(qa < qc ==> qa * (b * d) + b * d <= qc * (b * d)) by (nonlinear_arith)
        requires
            0 < b,
            0 < d,
    ;
    assert(qa > qc ==> qc * (b * d) + b * d <= qa * (b * d)) by (nonlinear_arith)
        requires
            0 < b,
            0 < d,
    ;
}

impl Score {
    /// The denominator is not zero.
    pub open spec fn wf(&self) -> bool {
        self.den > 0
    }

    /// What `==` means on scores: the same number; a pair with a zero
    /// denominator is equal to itself alone.
    pub open spec fn equal(self, other: Score) -> bool {
        if self.den > 0 && other.den > 0 {
            self@.same(other@)
        } else {
            self.num == other.num && self.den == other.den
        }
    }

    /// The score `num / den`.
    pub fn new(num: u128, den: u128) -> (r: Score)
        requires
            den > 0,
        ensures
            r.num == num,
            r.den == den,
            r.wf(),
    {
        Score { num, den }
    }

    /// The score zero.
    pub fn zero() -> (r: Score)
        ensures
            r@ == Rational::zero(),
            r.wf(),
    {
        Score { num: 0, den: 1 }
    }

    /// The score one.
    pub fn one() -> (r: Score)
        ensures
            r@ == Rational::one(),
            r.wf(),
    {
        Score { num: 1, den: 1 }
    }

    /// Whether this score is less than the other, as numbers. No product is
    /// formed: quotients are compared, then the reciprocals of the remainders.
    pub fn lt(&self, other: &Score) -> (r: bool)
        requires
            self.wf(),
            other.wf(),
        ensures
            r == self@.lt(other@),
    {
        let mut a: u128 = self.num;
        let mut b: u128 = self.den;
        let mut c: u128 = other.num;
        let mut d: u128 = other.den;
        loop
            invariant
                b > 0,
                d > 0,
                (a * d < c * b) == self@.lt(other@),
            decreases b + d,
        {
            proof {
                lemma_compare_by_parts(a as int, b as int, c as int, d as int);
            }
            let qa: u128 = a / b;
            let qc: u128 = c / d;
            let ra: u128 = a % b;
            let rc: u128 = c % d;
            if qa < qc {
                return true;
            }
            if qa > qc {
                return false;
            }
            if rc == 0 {
                assert(ra * d >= 0 && rc * b == 0) by (nonlinear_arith)
                    requires
                        ra >= 0,
                        d > 0,
                        rc == 0,
                ;
                return false;
            }
            if ra == 0 {
                assert(rc * b > 0 && ra * d == 0) by (nonlinear_arith)
                    requires
                        rc > 0,
                        b > 0,
                        ra == 0,
                ;
                return true;
            }
            assert((ra * d < rc * b) == (d * ra < b * rc)) by (nonlinear_arith);
            a = d;
            c = b;
            b = rc;
            d = ra;
        }
    }

    /// The score taken a hundred times.
    pub fn percent(&self) -> (r: Score)
        requires
            self.wf(),
            100 * self.num <= u128::MAX,
        ensures
            r@ == self@.percent(),
            r.wf(),
    {
        Score { num: 100 * self.num, den: self.den }
    }

    /// Whether this score is at most the other, as numbers.
    pub fn le(&self, other: &Score) -> (r: bool)
        requires
            self.wf(),
            other.wf(),
        ensures
            r == self@.le(other@),
    {
        !other.lt(self)
    }

    /// Whether the two scores are the same number.
    pub fn same(&self, other: &Score) -> (r: bool)
        requires
            self.wf(),
            other.wf(),
        ensures
            r == self@.same(other@),
    {
        !self.lt(other) && !other.lt(self)
    }
}

/// Two scores are equal where they are the same number; a pair with a zero
/// denominator, which is no number, is equal to itself alone.
impl PartialEq for Score {
    fn eq(&self, other: &Score) -> (r: bool) {
        if self.den > 0 && other.den > 0 {
            self.same(other)
        } else {
            self.num == other.num && self.den == other.den
        }
    }
}

impl PartialEqSpecImpl for Score {
    open spec fn obeys_eq_spec() -> bool {
        true
    }

    open spec fn eq_spec(&self, other: &Score) -> bool {
        self.equal(*other)
    }
}

/// Two alignment results are equal where their scores and their ranges are.
impl PartialEq for ScoreAlignment {
    fn eq(&self, other: &ScoreAlignment) -> (r: bool) {
        self.score == other.score && self.src_start == other.src_start && self.src_end
            == other.src_end && self.dest_start == other.dest_start && self.dest_end
            == other.dest_end
    }
}

impl PartialEqSpecImpl for ScoreAlignment {
    open spec fn obeys_eq_spec() -> bool {
        true
    }

    open spec fn eq_spec(&self, other: &ScoreAlignment) -> bool {
        self.score.equal(other.score) && self.src_start == other.src_start && self.src_end
            == other.src_end && self.dest_start == other.dest_start && self.dest_end
            == other.dest_end
    }
}

} // verus!
