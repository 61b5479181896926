use crustyfuzz::common::conv_sequence;
use crustyfuzz::distance::block::Block;
use crustyfuzz::distance::indel::{
    block_distance, block_normalized_distance, block_normalized_similarity, distance,
    keys_normalized_similarity, normalized_distance, normalized_similarity,
    wide_block_normalized_similarity,
};
use crustyfuzz::distance::lcs_seq::{build_block, build_wide_block};
use crustyfuzz::distance::models::Score;

type Processor = fn(Vec<char>) -> Vec<char>;

fn chars(s: &str) -> Vec<char> {
    s.chars().collect()
}

fn keys(s: &str) -> Vec<u64> {
    conv_sequence(&chars(s))
}

fn value(score: Score) -> f64 {
    score.num as f64 / score.den as f64
}

fn upper(v: Vec<char>) -> Vec<char> {
    v.into_iter().map(|c| c.to_ascii_uppercase()).collect()
}

fn without_spaces(v: Vec<char>) -> Vec<char> {
    v.into_iter().filter(|c| *c != ' ').collect()
}

#[test]
fn distance_lewenstein_levenshtein() {
    assert_eq!(distance(&keys("lewenstein"), &keys("levenshtein"), None), 3);
}

#[test]
fn distance_above_the_cutoff_is_the_cutoff_plus_one() {
    let (a, b) = (keys("lewenstein"), keys("levenshtein"));
    assert_eq!(distance(&a, &b, Some(1)), 2);
    assert_eq!(distance(&a, &b, Some(2)), 3);
    assert_eq!(distance(&a, &b, Some(3)), 3);
    assert_eq!(distance(&a, &b, Some(0)), 1);
    assert_eq!(distance(&a, &b, Some(100)), 3);
}

#[test]
fn distance_of_empty_inputs_is_the_combined_length() {
    assert_eq!(distance(&keys(""), &keys("abc"), None), 3);
    assert_eq!(distance(&keys("abcd"), &keys(""), None), 4);
    assert_eq!(distance(&keys(""), &keys(""), None), 0);
    assert_eq!(distance(&keys("abc"), &keys("xyz"), None), 6);
}

#[test]
fn block_distance_agrees_with_distance() {
    let needle = keys("lewenstein");
    let block = build_block(&needle);
    for other in ["levenshtein", "", "lewenstein", "nietsnewel", "xyz"] {
        let other = keys(other);
        assert_eq!(block_distance(&block, &needle, &other, None), distance(&needle, &other, None));
        assert_eq!(
            block_distance(&block, &needle, &other, Some(2)),
            distance(&needle, &other, Some(2))
        );
    }
}

#[test]
fn normalized_distance_exact_fraction() {
    let r = normalized_distance(&keys("lewenstein"), &keys("levenshtein"), None);
    assert_eq!((r.num, r.den), (3, 21));
    let r = normalized_distance(&keys("abc"), &keys("xyz"), None);
    assert_eq!((r.num, r.den), (6, 6));
}

#[test]
fn normalized_distance_of_two_empty_sequences_is_zero() {
    let r = normalized_distance(&keys(""), &keys(""), None);
    assert_eq!((r.num, r.den), (0, 1));
    let block = build_block(&keys(""));
    let r = block_normalized_distance(&block, &keys(""), &keys(""), None);
    assert_eq!((r.num, r.den), (0, 1));
}

#[test]
fn normalized_distance_above_the_cutoff_is_one() {
    let (a, b) = (keys("lewenstein"), keys("levenshtein"));
    let r = normalized_distance(&a, &b, Some(Score::new(1, 10)));
    assert_eq!((r.num, r.den), (1, 1));
    let r = normalized_distance(&a, &b, Some(Score::new(1, 7)));
    assert_eq!((r.num, r.den), (3, 21));
    let r = normalized_distance(&a, &b, Some(Score::new(2, 10)));
    assert_eq!((r.num, r.den), (3, 21));
    let block = build_block(&a);
    let r = block_normalized_distance(&block, &a, &b, Some(Score::new(1, 10)));
    assert_eq!((r.num, r.den), (1, 1));
}

#[test]
fn normalized_similarity_lewenstein_levenshtein() {
    let (a, b) = (chars("lewenstein"), chars("levenshtein"));
    let r = normalized_similarity::<char, Processor>(Some(&a), Some(&b), None, None);
    assert_eq!((r.num, r.den), (18, 21));
    assert!((value(r) - 0.85714285714285).abs() < 1e-12);
}

#[test]
fn normalized_similarity_below_the_cutoff_is_zero() {
    let (a, b) = (chars("lewenstein"), chars("levenshtein"));
    let cutoff = Some(Score::new(9, 10));
    let r = normalized_similarity::<char, Processor>(Some(&a), Some(&b), None, cutoff);
    assert_eq!((r.num, r.den), (0, 1));
    let cutoff = Some(Score::new(8, 10));
    let r = normalized_similarity::<char, Processor>(Some(&a), Some(&b), None, cutoff);
    assert_eq!((r.num, r.den), (18, 21));
    // a cutoff that the similarity reaches and the distance exceeds
    let cutoff = Some(Score::new(1, 10));
    let r = normalized_similarity::<char, Processor>(Some(&a), Some(&b), None, cutoff);
    assert_eq!((r.num, r.den), (18, 21));
}

#[test]
fn normalized_similarity_of_absent_or_empty_input_is_zero() {
    let a = chars("abc");
    let empty: Vec<char> = vec![];
    for (s1, s2) in [
        (None, Some(a.as_slice())),
        (Some(a.as_slice()), None),
        (None, None),
        (Some(empty.as_slice()), Some(a.as_slice())),
        (Some(a.as_slice()), Some(empty.as_slice())),
        (Some(empty.as_slice()), Some(empty.as_slice())),
    ] {
        let r = normalized_similarity::<char, Processor>(s1, s2, None, None);
        assert_eq!((r.num, r.den), (0, 1));
    }
}

#[test]
fn normalized_similarity_is_between_zero_and_one() {
    for (s1, s2) in [("abc", "xyz"), ("abc", "abc"), ("a", "abcdefgh"), ("kitten", "sitting")] {
        let r = normalized_similarity::<char, Processor>(
            Some(&chars(s1)),
            Some(&chars(s2)),
            None,
            None,
        );
        assert!(r.num <= r.den && r.den > 0);
        assert_eq!(r.num == r.den, s1 == s2);
    }
}

#[test]
fn normalized_similarity_with_a_processor() {
    let (a, b) = (chars("Lewenstein"), chars("levenSHtein"));
    let plain = normalized_similarity::<char, Processor>(Some(&a), Some(&b), None, None);
    assert_eq!((plain.num, plain.den), (14, 21));
    let f: Processor = upper;
    let r = normalized_similarity(Some(&a), Some(&b), Some(f), None);
    assert_eq!((r.num, r.den), (18, 21));
    let (a, b) = (chars("a b c"), chars("abc"));
    let g: Processor = without_spaces;
    let r = normalized_similarity(Some(&a), Some(&b), Some(g), None);
    assert_eq!((r.num, r.den), (6, 6));
}

#[test]
fn normalized_similarity_on_other_elements() {
    let a: Vec<String> = vec!["one".into(), "two".into(), "three".into()];
    let b: Vec<String> = vec!["one".into(), "three".into()];
    let r = normalized_similarity::<String, fn(Vec<String>) -> Vec<String>>(
        Some(&a),
        Some(&b),
        None,
        None,
    );
    assert_eq!((r.num, r.den), (4, 5));
    let a: Vec<u8> = vec![1, 2, 3, 4];
    let b: Vec<u8> = vec![2, 4];
    let r = normalized_similarity::<u8, fn(Vec<u8>) -> Vec<u8>>(Some(&a), Some(&b), None, None);
    assert_eq!((r.num, r.den), (4, 6));
}

#[test]
fn keys_normalized_similarity_of_two_empty_sequences_is_one() {
    let r = keys_normalized_similarity(&keys(""), &keys(""), None);
    assert_eq!((r.num, r.den), (1, 1));
    let block = build_block(&keys(""));
    let r = block_normalized_similarity(&block, &keys(""), &keys(""), None);
    assert_eq!((r.num, r.den), (1, 1));
}

#[test]
fn block_normalized_similarity_agrees() {
    let needle = keys("lewenstein");
    let narrow = build_block(&needle);
    let wide = build_wide_block(&needle);
    let block = Block::new(&needle);
    for other in ["levenshtein", "", "lewenstein", "xyz"] {
        let other = keys(other);
        for cutoff in [None, Some(Score::new(9, 10)), Some(Score::new(1, 2))] {
            let expected = keys_normalized_similarity(&needle, &other, cutoff);
            let r = block_normalized_similarity(&narrow, &needle, &other, cutoff);
            assert_eq!((r.num, r.den), (expected.num, expected.den));
            let r = wide_block_normalized_similarity(&wide, &needle, &other, cutoff);
            assert_eq!((r.num, r.den), (expected.num, expected.den));
            let r = block.normalized_similarity(&needle, &other, cutoff);
            assert_eq!((r.num, r.den), (expected.num, expected.den));
        }
    }
}

#[test]
fn block_picks_the_width_by_the_length() {
    assert!(matches!(Block::new(&vec![1; 64]), Block::Narrow(_)));
    assert!(matches!(Block::new(&vec![1; 65]), Block::Wide(_)));
    let long: Vec<u64> = (0..90).collect();
    let block = Block::new(&long);
    assert_eq!(block.similarity(&long, &long, None), 90);
}
