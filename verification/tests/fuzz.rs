use crustyfuzz::distance::models::{Score, ScoreAlignment};
use crustyfuzz::fuzz::{
    _partial_ratio, _partial_ratio_alignment, _ratio, chars_of, partial_ratio,
    partial_ratio_alignment, partial_ratio_short_needle, process_inputs, ratio,
};

type Processor = fn(&str) -> Result<String, String>;

fn value(score: Score) -> f64 {
    score.num as f64 / score.den as f64
}

fn str_to_vec(s: &str) -> Vec<u64> {
    s.chars().map(|c| c as u64).collect()
}

fn lower(s: &str) -> Result<String, String> {
    Ok(s.to_lowercase())
}

fn reject_digits(s: &str) -> Result<String, String> {
    if s.chars().any(|c| c.is_ascii_digit()) {
        Err(format!("digit in {}", s))
    } else {
        Ok(s.trim().to_string())
    }
}

fn ranges(a: &ScoreAlignment) -> (usize, usize, usize, usize) {
    (a.src_start, a.src_end, a.dest_start, a.dest_end)
}

#[test]
fn test_ratio() {
    let s1 = "this is a test";
    let s2 = "this is a test!";
    let result = value(_ratio(Some(s1), Some(s2), None));
    assert!(
        (result - 96.55171966552734).abs() < 1e-5,
        "Expected approximately 96.55171966552734"
    );
}

#[test]
fn test_partial_ratio() {
    let s1 = "this is a test";
    let s2 = "this is a test!";
    let result = value(_partial_ratio(Some(s1), Some(s2), None));
    assert_eq!(result, 100.0, "Expected 100.0");
}

#[test]
fn test_partial_ratio_issue138() {
    let s1 = "a".repeat(65);
    let s2 = format!("a{}{}", char::from_u32(256).unwrap(), "a".repeat(63));
    let result = value(_partial_ratio(Some(&s1), Some(&s2), None));
    assert!(
        (result - 99.22481).abs() < 1e-5,
        "Expected approximately 99.22481, got {}",
        result
    );
}

#[test]
fn test_partial_ratio_short_needle_identical() {
    let s1 = str_to_vec("abcd");
    let s2 = str_to_vec("abcd");
    let result = partial_ratio_short_needle(&s1, &s2, Score::zero());
    assert_eq!(value(result.score), 100.0);
    assert_eq!(result.src_start, 0);
    assert_eq!(result.src_end, 4);
    assert_eq!(result.dest_start, 0);
    assert_eq!(result.dest_end, 4);
}

#[test]
fn test_partial_ratio_short_needle_substring() {
    let s1 = str_to_vec("bcd");
    let s2 = str_to_vec("abcde");
    let result = partial_ratio_short_needle(&s1, &s2, Score::zero());
    assert_eq!(value(result.score), 100.0);
    assert_eq!(result.src_start, 0);
    assert_eq!(result.src_end, 3);
    assert_eq!(result.dest_start, 1);
    assert_eq!(result.dest_end, 4);
}

#[test]
fn test_partial_ratio_short_needle_partial_match() {
    let s1 = str_to_vec("abc");
    let s2 = str_to_vec("bcde");
    let result = partial_ratio_short_needle(&s1, &s2, Score::zero());
    assert!((value(result.score) - 80.0).abs() < 1e-10);
    assert_eq!(result.src_start, 0);
    assert_eq!(result.src_end, 3);
    assert_eq!(result.dest_start, 0);
    assert_eq!(result.dest_end, 2);
}

#[test]
fn test_partial_ratio_short_needle_partial_match_score_cutoff() {
    let s1 = str_to_vec("abc");
    let s2 = str_to_vec("bcde");
    let result = partial_ratio_short_needle(&s1, &s2, Score::new(9, 10));
    assert_eq!(value(result.score), 0.0);
    assert_eq!(result.src_start, 0);
    assert_eq!(result.src_end, 3);
    assert_eq!(result.dest_start, 0);
    assert_eq!(result.dest_end, 3);
}

#[test]
fn test_partial_ratio_short_needle_no_match() {
    let s1 = str_to_vec("abc");
    let s2 = str_to_vec("def");
    let result = partial_ratio_short_needle(&s1, &s2, Score::zero());
    assert_eq!(value(result.score), 0.0);
}

#[test]
fn test_partial_ratio_short_needle_score_cutoff() {
    let s1 = str_to_vec("abc");
    let s2 = str_to_vec("abcde");
    let result = partial_ratio_short_needle(&s1, &s2, Score::new(9, 10));
    assert_eq!(value(result.score), 100.0);
}

#[test]
fn test_partial_ratio_short_needle_empty_s1() {
    let s1 = str_to_vec("");
    let s2 = str_to_vec("abc");
    let result = partial_ratio_short_needle(&s1, &s2, Score::zero());
    assert_eq!(value(result.score), 0.0);
}

#[test]
fn test_partial_ratio_short_needle_certain_string() {
    let s1 = str_to_vec("cetain");
    let s2 = str_to_vec("a certain string");
    let result = partial_ratio_short_needle(&s1, &s2, Score::zero());
    assert!((value(result.score) - 83.33333333333334).abs() < 1e-10);
    assert_eq!(result.src_start, 0);
    assert_eq!(result.src_end, 6);
    assert_eq!(result.dest_start, 2);
    assert_eq!(result.dest_end, 8);
}

#[test]
fn chars_of_keeps_every_character() {
    assert_eq!(chars_of(""), Vec::<char>::new());
    assert_eq!(chars_of("añ€😀b"), vec!['a', 'ñ', '€', '😀', 'b']);
}

#[test]
fn ratio_exact_fraction() {
    let score = _ratio(Some("this is a test"), Some("this is a test!"), None);
    assert_eq!((score.num, score.den), (2800, 29));
    let score = _ratio(Some("lewenstein"), Some("levenshtein"), None);
    assert_eq!((score.num, score.den), (1800, 21));
}

#[test]
fn ratio_of_a_string_with_itself_is_100() {
    for s in ["a", "ab", "this is a test", "ÄÖÜ"] {
        assert_eq!(value(_ratio(Some(s), Some(s), None)), 100.0);
        assert_eq!(value(_ratio(Some(s), Some(s), Some(Score::new(100, 1)))), 100.0);
    }
}

#[test]
fn ratio_of_absent_or_empty_input_is_zero() {
    assert_eq!(value(_ratio(None, Some("abc"), None)), 0.0);
    assert_eq!(value(_ratio(Some("abc"), None, None)), 0.0);
    assert_eq!(value(_ratio(None, None, None)), 0.0);
    assert_eq!(value(_ratio(Some(""), Some("abc"), None)), 0.0);
    assert_eq!(value(_ratio(Some("abc"), Some(""), None)), 0.0);
    assert_eq!(value(_ratio(Some(""), Some(""), None)), 0.0);
}

#[test]
fn ratio_below_the_cutoff_is_zero() {
    let s1 = "this is a test";
    let s2 = "this is a test!";
    assert_eq!(value(_ratio(Some(s1), Some(s2), Some(Score::new(97, 1)))), 0.0);
    let kept = _ratio(Some(s1), Some(s2), Some(Score::new(96, 1)));
    assert_eq!((kept.num, kept.den), (2800, 29));
    // the cutoff is met exactly
    let kept = _ratio(Some(s1), Some(s2), Some(Score::new(2800, 29)));
    assert_eq!((kept.num, kept.den), (2800, 29));
    assert_eq!(value(_ratio(Some(s1), Some(s2), Some(Score::new(2801, 29)))), 0.0);
}

#[test]
fn ratio_with_a_cutoff_of_a_huge_denominator() {
    // 90 as a fraction whose denominator cannot be multiplied by 100
    let den = u128::MAX / 90;
    let cutoff = Score::new(90 * den, den);
    let kept = _ratio(Some("this is a test"), Some("this is a test!"), Some(cutoff));
    assert_eq!((kept.num, kept.den), (2800, 29));
    assert_eq!(value(_ratio(Some("abc"), Some("abd"), Some(cutoff))), 0.0);
    let found = _partial_ratio_alignment(Some("abcd"), Some("xabcdx"), Some(cutoff)).unwrap();
    assert_eq!(value(found.score), 100.0);
    assert!(_partial_ratio_alignment(Some("abc"), Some("bcde"), Some(cutoff)).is_none());
}

#[test]
fn partial_ratio_alignment_certain_string() {
    let res = _partial_ratio_alignment(Some("a certain string"), Some("cetain"), None).unwrap();
    assert!((value(res.score) - 83.33333333333334).abs() < 1e-10);
    assert_eq!((res.score.num, res.score.den), (1000, 12));
    assert_eq!(ranges(&res), (2, 8, 0, 6));
    let res = _partial_ratio_alignment(Some("cetain"), Some("a certain string"), None).unwrap();
    assert_eq!(ranges(&res), (0, 6, 2, 8));
}

#[test]
fn partial_ratio_alignment_of_absent_input_is_none() {
    assert!(_partial_ratio_alignment(None, Some("abc"), None).is_none());
    assert!(_partial_ratio_alignment(Some("abc"), None, None).is_none());
    assert!(_partial_ratio_alignment(None, None, None).is_none());
    assert_eq!(value(_partial_ratio(None, Some("abc"), None)), 0.0);
}

#[test]
fn partial_ratio_alignment_of_two_empty_strings_is_perfect() {
    let res = _partial_ratio_alignment(Some(""), Some(""), None).unwrap();
    assert_eq!(value(res.score), 100.0);
    assert_eq!(ranges(&res), (0, 0, 0, 0));
    // the special case comes before the cutoff
    let res = _partial_ratio_alignment(Some(""), Some(""), Some(Score::new(101, 1))).unwrap();
    assert_eq!(value(res.score), 100.0);
}

#[test]
fn partial_ratio_alignment_of_one_empty_string_is_zero() {
    let res = _partial_ratio_alignment(Some(""), Some("abc"), None).unwrap();
    assert_eq!(value(res.score), 0.0);
    assert_eq!(ranges(&res), (0, 0, 0, 0));
    let res = _partial_ratio_alignment(Some("abc"), Some(""), None).unwrap();
    assert_eq!(value(res.score), 0.0);
    assert_eq!(ranges(&res), (0, 0, 0, 0));
    assert!(_partial_ratio_alignment(Some(""), Some("abc"), Some(Score::new(1, 1))).is_none());
}

#[test]
fn partial_ratio_alignment_below_the_cutoff_is_none() {
    // the best window scores 80
    assert!(_partial_ratio_alignment(Some("abc"), Some("bcde"), Some(Score::new(90, 1))).is_none());
    assert_eq!(value(_partial_ratio(Some("abc"), Some("bcde"), Some(Score::new(90, 1)))), 0.0);
    let res = _partial_ratio_alignment(Some("abc"), Some("bcde"), Some(Score::new(80, 1))).unwrap();
    assert_eq!((res.score.num, res.score.den), (400, 5));
    assert_eq!(ranges(&res), (0, 3, 0, 2));
}

#[test]
fn partial_ratio_alignment_no_match_is_a_zero_alignment() {
    let res = _partial_ratio_alignment(Some("abc"), Some("defg"), None).unwrap();
    assert_eq!(value(res.score), 0.0);
    assert_eq!(ranges(&res), (0, 3, 0, 3));
    let res = _partial_ratio_alignment(Some("defg"), Some("abc"), None).unwrap();
    assert_eq!(ranges(&res), (0, 3, 0, 3));
}

#[test]
fn partial_ratio_alignment_swaps_the_ranges_back() {
    let res = _partial_ratio_alignment(Some("xxbcdxx"), Some("bcd"), None).unwrap();
    assert_eq!(value(res.score), 100.0);
    assert_eq!(ranges(&res), (2, 5, 0, 3));
    let res = _partial_ratio_alignment(Some("bcd"), Some("xxbcdxx"), None).unwrap();
    assert_eq!(ranges(&res), (0, 3, 2, 5));
}

#[test]
fn partial_ratio_alignment_of_equal_lengths_tries_both_roles() {
    // as a needle "abcx" finds "abc" (6/7); as a needle "zabc" finds no more
    let res = _partial_ratio_alignment(Some("abcx"), Some("zabc"), None).unwrap();
    assert_eq!((res.score.num, res.score.den), (600, 7));
    assert_eq!(ranges(&res), (0, 4, 1, 4));
    // here the second role wins, with the ranges given back for the first argument
    let res = _partial_ratio_alignment(Some("xabc"), Some("abcy"), None).unwrap();
    assert_eq!((res.score.num, res.score.den), (600, 7));
    let s1: Vec<char> = "xabc".chars().collect();
    let s2: Vec<char> = "abcy".chars().collect();
    let src: String = s1[res.src_start..res.src_end].iter().collect();
    let dest: String = s2[res.dest_start..res.dest_end].iter().collect();
    assert!((src == "xabc" && dest == "abc") || (src == "abc" && dest == "abcy"));
}

#[test]
fn partial_ratio_is_at_least_the_ratio_where_a_window_keeps_the_matches() {
    for (s1, s2) in [
        ("this is a test", "this is a test!"),
        ("cetain", "a certain string"),
        ("abc", "xxaxbxcxx"),
        ("ab", "a??b"),
    ] {
        let partial = value(_partial_ratio(Some(s1), Some(s2), None));
        let full = value(_ratio(Some(s1), Some(s2), None));
        assert!(partial >= full, "{} {}: {} < {}", s1, s2, partial, full);
    }
}

#[test]
fn partial_ratio_can_fall_below_the_ratio_where_the_matches_are_spread() {
    // no window of at most three keys holds more than one match
    let partial = _partial_ratio(Some("abc"), Some("a??b??c"), None);
    let full = _ratio(Some("abc"), Some("a??b??c"), None);
    assert_eq!((partial.num, partial.den), (200, 4));
    assert_eq!((full.num, full.den), (600, 10));
}

#[test]
fn short_needle_reports_the_first_of_equal_windows() {
    // "a" occurs three times; each window "a" scores one, the first is a prefix
    let s1 = str_to_vec("a");
    let s2 = str_to_vec("xaxaxa");
    let result = partial_ratio_short_needle(&s1, &s2, Score::zero());
    assert_eq!(value(result.score), 100.0);
    assert_eq!((result.dest_start, result.dest_end), (1, 2));
    // two windows score 4/5: "ab" at 0 and "ab" at 3; the first stays
    let s1 = str_to_vec("abc");
    let s2 = str_to_vec("abxabx");
    let result = partial_ratio_short_needle(&s1, &s2, Score::zero());
    assert_eq!((result.score.num, result.score.den), (400, 5));
    assert_eq!((result.dest_start, result.dest_end), (0, 2));
}

#[test]
fn short_needle_skips_windows_whose_probe_is_foreign() {
    // the full window "abx" would score 4/6 but ends in a key that the needle lacks;
    // the prefix "ab" scores 4/5 anyway
    let s1 = str_to_vec("abc");
    let s2 = str_to_vec("abxyz");
    let result = partial_ratio_short_needle(&s1, &s2, Score::zero());
    assert_eq!((result.score.num, result.score.den), (400, 5));
    assert_eq!((result.dest_start, result.dest_end), (0, 2));
    // with "ab" hidden behind a foreign first key only the suffix windows are left
    let s1 = str_to_vec("ab");
    let s2 = str_to_vec("xxxxab");
    let result = partial_ratio_short_needle(&s1, &s2, Score::zero());
    assert_eq!(value(result.score), 100.0);
    assert_eq!((result.dest_start, result.dest_end), (4, 6));
}

#[test]
fn short_needle_with_a_long_needle() {
    let s1: Vec<u64> = (0..100).collect();
    let mut s2: Vec<u64> = vec![1000; 30];
    s2.extend(0..100);
    s2.extend(vec![2000; 30]);
    let result = partial_ratio_short_needle(&s1, &s2, Score::zero());
    assert_eq!(value(result.score), 100.0);
    assert_eq!((result.dest_start, result.dest_end), (30, 130));
    // one key of the needle is missing from the haystack
    let mut s2: Vec<u64> = vec![1000; 10];
    s2.extend(0..50);
    s2.extend(51..100);
    let result = partial_ratio_short_needle(&s1, &s2, Score::zero());
    assert_eq!((result.score.num, result.score.den), (100 * 2 * 99, 199));
    assert_eq!((result.dest_start, result.dest_end), (10, 109));
}

#[test]
fn process_inputs_without_a_processor_copies() {
    let made = process_inputs::<String, Processor>(Some("Ab"), None, None).unwrap();
    assert_eq!(made, (Some("Ab".to_string()), None));
}

#[test]
fn process_inputs_applies_the_processor_to_both() {
    let f: Processor = lower;
    let made = process_inputs(Some("Ab"), Some("CD"), Some(&f)).unwrap();
    assert_eq!(made, (Some("ab".to_string()), Some("cd".to_string())));
    let made = process_inputs(None, Some("CD"), Some(&f)).unwrap();
    assert_eq!(made, (None, Some("cd".to_string())));
}

#[test]
fn process_inputs_hands_the_first_failure_on() {
    let f: Processor = reject_digits;
    assert_eq!(process_inputs(Some("a1"), Some("b2"), Some(&f)), Err("digit in a1".to_string()));
    assert_eq!(process_inputs(Some("a"), Some("b2"), Some(&f)), Err("digit in b2".to_string()));
    assert_eq!(
        process_inputs(Some(" a "), Some("b"), Some(&f)),
        Ok((Some("a".to_string()), Some("b".to_string())))
    );
}

#[test]
fn ratio_with_a_processor() {
    let f: Processor = lower;
    assert_eq!(value(ratio(Some("ABC"), Some("abc"), Some(&f), None).unwrap()), 100.0);
    let plain = ratio::<String, Processor>(Some("ABC"), Some("abc"), None, None);
    assert_eq!(value(plain.unwrap()), 0.0);
    let g: Processor = reject_digits;
    let failed = ratio(Some("a1"), Some("a"), Some(&g), None);
    assert_eq!(failed.map(value), Err("digit in a1".to_string()));
    assert_eq!(value(ratio(None, Some("a"), Some(&g), None).unwrap()), 0.0);
}

#[test]
fn partial_ratio_with_a_processor() {
    let f: Processor = lower;
    assert_eq!(value(partial_ratio(Some("BCD"), Some("abcde"), Some(&f), None).unwrap()), 100.0);
    let res = partial_ratio_alignment(Some("BCD"), Some("abcde"), Some(&f), None).unwrap().unwrap();
    assert_eq!(ranges(&res), (0, 3, 1, 4));
    let g: Processor = reject_digits;
    assert!(partial_ratio(Some("a"), Some("b2"), Some(&g), None).is_err());
    assert!(partial_ratio_alignment(Some("a"), Some("b2"), Some(&g), None).is_err());
    let res = partial_ratio_alignment::<String, Processor>(Some("a"), None, None, None).unwrap();
    assert!(res.is_none());
}

fn plain_lcs(a: &[u64], b: &[u64]) -> usize {
    let mut row = vec![0usize; b.len() + 1];
    for x in a {
        let mut diagonal = 0;
        for (j, y) in b.iter().enumerate() {
            let above = row[j + 1];
            row[j + 1] = if x == y { diagonal + 1 } else { above.max(row[j]) };
            diagonal = above;
        }
    }
    row[b.len()]
}

fn plain_similarity(a: &[u64], b: &[u64], cutoff: f64) -> f64 {
    let maximum = (a.len() + b.len()) as f64;
    let dist = maximum - 2.0 * plain_lcs(a, b) as f64;
    let norm_sim = 1.0 - if maximum == 0.0 { 0.0 } else { dist / maximum };
    if norm_sim >= cutoff {
        norm_sim
    } else {
        0.0
    }
}

// Every candidate window in the order of the search, scored with floats.
fn plain_search(s1: &[u64], s2: &[u64], mut cutoff: f64) -> (f64, usize, usize) {
    let (len1, len2) = (s1.len(), s2.len());
    let mut best = (0.0, 0, len1);
    let mut windows: Vec<(usize, usize, usize)> = Vec::new();
    for i in 1..len1 {
        windows.push((0, i, i - 1));
    }
    if len1 > 0 {
        for i in 0..(len2 - len1) {
            windows.push((i, i + len1, i + len1 - 1));
        }
        for i in (len2 - len1)..len2 {
            windows.push((i, len2, i));
        }
    }
    for (start, end, probe) in windows {
        if !s1.contains(&s2[probe]) {
            continue;
        }
        let score = plain_similarity(s1, &s2[start..end], cutoff);
        if score > best.0 {
            cutoff = score;
            best = (score, start, end);
            if score == 1.0 {
                break;
            }
        }
    }
    (best.0 * 100.0, best.1, best.2)
}

fn next_random(seed: &mut u64) -> u64 {
    *seed = seed.wrapping_mul(6364136223846793005).wrapping_add(1442695040888963407);
    *seed >> 33
}

#[test]
fn short_needle_agrees_with_a_plain_search() {
    let mut seed = 2024;
    for round in 0..300u64 {
        let alphabet = 2 + round % 5;
        let len1 = (next_random(&mut seed) % 12) as usize;
        let len2 = len1 + (next_random(&mut seed) % 20) as usize;
        let s1: Vec<u64> = (0..len1).map(|_| next_random(&mut seed) % alphabet).collect();
        let s2: Vec<u64> = (0..len2).map(|_| next_random(&mut seed) % (alphabet + 1)).collect();
        for (num, den) in [(0u128, 1u128), (1, 2), (3, 4), (1, 1)] {
            let result = partial_ratio_short_needle(&s1, &s2, Score::new(num, den));
            let expected = plain_search(&s1, &s2, num as f64 / den as f64);
            assert!(
                (value(result.score) - expected.0).abs() < 1e-9,
                "{:?} {:?} {}/{}: {} != {}",
                s1,
                s2,
                num,
                den,
                value(result.score),
                expected.0
            );
            assert_eq!((result.src_start, result.src_end), (0, len1));
            assert_eq!((result.dest_start, result.dest_end), (expected.1, expected.2));
        }
    }
}

#[test]
fn short_needle_agrees_with_a_plain_search_on_long_needles() {
    let mut seed = 77;
    for _ in 0..12 {
        let len1 = 60 + (next_random(&mut seed) % 20) as usize;
        let len2 = len1 + (next_random(&mut seed) % 40) as usize;
        let s1: Vec<u64> = (0..len1).map(|_| next_random(&mut seed) % 4).collect();
        let s2: Vec<u64> = (0..len2).map(|_| next_random(&mut seed) % 5).collect();
        let result = partial_ratio_short_needle(&s1, &s2, Score::zero());
        let expected = plain_search(&s1, &s2, 0.0);
        assert!((value(result.score) - expected.0).abs() < 1e-9);
        assert_eq!((result.dest_start, result.dest_end), (expected.1, expected.2));
    }
}
