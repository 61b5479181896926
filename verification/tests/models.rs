use crustyfuzz::distance::models::{IndexResult, Score, ScoreAlignment};

#[test]
fn score_order_on_small_fractions() {
    let half = Score::new(1, 2);
    let third = Score::new(1, 3);
    let two_quarters = Score::new(2, 4);
    assert!(third.lt(&half));
    assert!(!half.lt(&third));
    assert!(!half.lt(&two_quarters));
    assert!(!two_quarters.lt(&half));
    assert!(half.le(&two_quarters));
    assert!(half.same(&two_quarters));
    assert!(!half.same(&third));
    assert!(third.le(&half));
    assert!(!half.le(&third));
}

#[test]
fn score_order_with_zero_and_one() {
    assert!(Score::zero().lt(&Score::one()));
    assert!(!Score::zero().lt(&Score::zero()));
    assert!(Score::zero().same(&Score::new(0, 17)));
    assert!(Score::one().same(&Score::new(17, 17)));
    assert!(Score::new(3, 2).lt(&Score::new(2, 1)));
    assert!(Score::one().lt(&Score::new(3, 2)));
}

#[test]
fn score_order_where_products_would_overflow() {
    let big = u128::MAX;
    // (big - 1) / big < big / (big - 1)... and both are near one
    assert!(Score::new(big - 1, big).lt(&Score::one()));
    assert!(Score::new(big - 1, big).lt(&Score::new(big, big - 1)));
    assert!(!Score::new(big, big - 1).lt(&Score::new(big - 1, big)));
    // two neighbours in the Farey sense: a/b and c/d with |ad - bc| = 1
    let a = Score::new(big - 2, big - 1);
    let b = Score::new(big - 1, big);
    assert!(a.lt(&b));
    assert!(!b.lt(&a));
    assert!(!a.same(&b));
    assert!(Score::new(big, big).same(&Score::one()));
    assert!(Score::new(big, 1).le(&Score::new(big, 1)));
    assert!(Score::new(big / 2, big).lt(&Score::new(1, 2)));
    assert!(Score::new(big / 2 + 1, big).le(&Score::new(big, big - 1)));
}

#[test]
fn score_order_agrees_with_products() {
    let values: [u128; 7] = [0, 1, 2, 3, 7, 100, 1 << 40];
    for a in values {
        for b in values.into_iter().filter(|b| *b > 0) {
            for c in values {
                for d in values.into_iter().filter(|d| *d > 0) {
                    let (x, y) = (Score::new(a, b), Score::new(c, d));
                    assert_eq!(x.lt(&y), a * d < c * b, "{}/{} {}/{}", a, b, c, d);
                    assert_eq!(x.le(&y), a * d <= c * b);
                    assert_eq!(x.same(&y), a * d == c * b);
                }
            }
        }
    }
}

#[test]
fn score_percent() {
    let r = Score::new(4, 5).percent();
    assert_eq!((r.num, r.den), (400, 5));
    let r = Score::zero().percent();
    assert_eq!((r.num, r.den), (0, 1));
}

#[test]
fn alignment_entries_by_position() {
    let alignment = ScoreAlignment::new(Score::new(250, 3), 2, 8, 0, 6);
    assert_eq!(alignment.len(), 5);
    let entry = |idx: isize| match alignment.get_item(idx) {
        Some(IndexResult::Integer(i)) => Some(i as u128),
        Some(IndexResult::Score(score)) => Some(score.num * 1000 + score.den),
        None => None,
    };
    assert_eq!(entry(0), Some(250003));
    assert_eq!(entry(1), Some(2));
    assert_eq!(entry(2), Some(8));
    assert_eq!(entry(3), Some(0));
    assert_eq!(entry(4), Some(6));
    assert_eq!(entry(5), None);
    assert_eq!(entry(-1), Some(6));
    assert_eq!(entry(-4), Some(2));
    assert_eq!(entry(-5), Some(250003));
    assert_eq!(entry(-6), None);
    assert_eq!(entry(isize::MAX), None);
    assert_eq!(entry(isize::MIN), None);
}

#[test]
fn score_equality_is_numeric() {
    assert_eq!(Score::new(1, 2), Score::new(2, 4));
    assert_eq!(Score::new(100, 1), Score::new(2800, 28));
    assert_ne!(Score::new(1, 2), Score::new(1, 3));
    assert_eq!(Score { num: 1, den: 0 }, Score { num: 1, den: 0 });
    assert_ne!(Score { num: 1, den: 0 }, Score { num: 2, den: 0 });
    assert_ne!(Score { num: 0, den: 0 }, Score::zero());
}

#[test]
fn alignment_equality_compares_every_entry() {
    let a = ScoreAlignment::new(Score::new(5, 6), 2, 8, 0, 6);
    assert_eq!(a, ScoreAlignment::new(Score::new(10, 12), 2, 8, 0, 6));
    assert_ne!(a, ScoreAlignment::new(Score::new(5, 7), 2, 8, 0, 6));
    assert_ne!(a, ScoreAlignment::new(Score::new(5, 6), 1, 8, 0, 6));
    assert_ne!(a, ScoreAlignment::new(Score::new(5, 6), 2, 7, 0, 6));
    assert_ne!(a, ScoreAlignment::new(Score::new(5, 6), 2, 8, 1, 6));
    assert_ne!(a, ScoreAlignment::new(Score::new(5, 6), 2, 8, 0, 5));
}

#[test]
fn score_order_agrees_with_products_on_random_fractions() {
    let mut seed: u64 = 99;
    let mut next = move || {
        seed = seed.wrapping_mul(6364136223846793005).wrapping_add(1442695040888963407);
        let shift = (seed >> 58) as u32;
        ((seed >> 1) >> shift) as u128
    };
    for _ in 0..20000 {
        let (a, b, c, d) = (next(), next() + 1, next(), next() + 1);
        let (x, y) = (Score::new(a, b), Score::new(c, d));
        assert_eq!(x.lt(&y), a * d < c * b, "{}/{} {}/{}", a, b, c, d);
        assert_eq!(x.le(&y), a * d <= c * b);
        assert_eq!(x == y, a * d == c * b);
        // and against a neighbour that differs by one in the numerator
        let z = Score::new(a + 1, b);
        assert!(x.lt(&z));
        assert!(!z.le(&x));
    }
}
