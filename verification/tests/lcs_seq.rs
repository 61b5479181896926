use crustyfuzz::common::{conv_sequence, conv_sequences};
use crustyfuzz::distance::lcs_seq::{
    block_similarity, build_block, build_wide_block, count_trailing_zeros_in_range,
    count_zeros_in_binary_string, similarity, wide_block_similarity,
};

fn naive_lcs(a: &[u64], b: &[u64]) -> usize {
    let mut table = vec![vec![0usize; b.len() + 1]; a.len() + 1];
    for i in 0..a.len() {
        for j in 0..b.len() {
            table[i + 1][j + 1] = if a[i] == b[j] {
                table[i][j] + 1
            } else {
                table[i][j + 1].max(table[i + 1][j])
            };
        }
    }
    table[a.len()][b.len()]
}

fn pseudo_random(seed: &mut u64) -> u64 {
    *seed = seed.wrapping_mul(6364136223846793005).wrapping_add(1442695040888963407);
    *seed >> 33
}

fn random_keys(seed: &mut u64, len: usize, alphabet: u64) -> Vec<u64> {
    (0..len).map(|_| pseudo_random(seed) % alphabet).collect()
}

#[test]
fn lcs_seq_test_count_zeros_in_binary_string() {
    let s = 0b1010;
    let s1 = vec![1, 0, 1, 0];
    let result = count_zeros_in_binary_string(s, &s1);

    assert_eq!(result, 2, "Expected 2 zeros in binary string");
}

#[test]
fn test_count_trailing_zeros_in_range() {
    assert_eq!(count_trailing_zeros_in_range(0b1010, 4), 2);
    assert_eq!(count_trailing_zeros_in_range(0, 64), 64);
    assert_eq!(count_trailing_zeros_in_range(u64::MAX, 64), 0);
}

#[test]
fn lcs_seq_test_similarity() {
    let s1 = "this is a test";
    let s2 = "this is a test!";
    let (seq1, seq2) = conv_sequences(
        &s1.chars().collect::<Vec<_>>(),
        &s2.chars().collect::<Vec<_>>(),
    );

    let result = similarity(&seq1, &seq2, None);

    assert_eq!(
        result, 14,
        "Expected similarity of 14.0 for '{}' and '{}', got {}",
        s1, s2, result
    );
}

#[test]
fn count_zeros_in_binary_string_short_string() {
    // "10" has two digits only: the leading zeros of a wider view are not there.
    assert_eq!(count_zeros_in_binary_string(0b10, &vec![0; 4]), 1);
    assert_eq!(count_zeros_in_binary_string(0, &vec![0; 4]), 1);
    assert_eq!(count_zeros_in_binary_string(0, &vec![]), 0);
    assert_eq!(count_zeros_in_binary_string(0b1011_0100, &vec![0; 3]), 2);
}

#[test]
fn count_trailing_zeros_in_range_ignores_high_bits() {
    assert_eq!(count_trailing_zeros_in_range(0xffff_ffff_0000_0000, 32), 32);
    assert_eq!(count_trailing_zeros_in_range(0xffff_ffff_0000_0000, 33), 32);
    assert_eq!(count_trailing_zeros_in_range(1, 1), 0);
    assert_eq!(count_trailing_zeros_in_range(2, 1), 1);
}

#[test]
fn similarity_of_empty_inputs_is_zero() {
    let empty: Vec<u64> = vec![];
    let abc = conv_sequence(&['a', 'b', 'c']);
    assert_eq!(similarity(&empty, &abc, None), 0);
    assert_eq!(similarity(&abc, &empty, None), 0);
    assert_eq!(similarity(&empty, &empty, None), 0);
}

#[test]
fn similarity_with_itself_is_the_length() {
    let mut seed = 7;
    for len in [1usize, 2, 63, 64, 65, 127, 128, 129, 200] {
        let s = random_keys(&mut seed, len, 5);
        assert_eq!(similarity(&s, &s, None), len);
    }
}

#[test]
fn similarity_is_symmetric() {
    let mut seed = 11;
    for (len1, len2) in [(3usize, 9usize), (40, 70), (64, 65), (100, 30), (130, 140)] {
        let a = random_keys(&mut seed, len1, 4);
        let b = random_keys(&mut seed, len2, 4);
        assert_eq!(similarity(&a, &b, None), similarity(&b, &a, None));
    }
}

#[test]
fn similarity_agrees_with_the_table() {
    let mut seed = 42;
    for round in 0..60usize {
        let len1 = 1 + (pseudo_random(&mut seed) % 150) as usize;
        let len2 = (pseudo_random(&mut seed) % 150) as usize;
        let alphabet = 2 + (round as u64 % 7);
        let a = random_keys(&mut seed, len1, alphabet);
        let b = random_keys(&mut seed, len2, alphabet);
        assert_eq!(similarity(&a, &b, None), naive_lcs(&a, &b), "{:?} {:?}", a, b);
    }
}

#[test]
fn similarity_at_the_word_boundary() {
    let a: Vec<u64> = vec![1; 64];
    let b: Vec<u64> = vec![1; 200];
    assert_eq!(similarity(&a, &b, None), 64);
    let c: Vec<u64> = vec![1; 65];
    assert_eq!(similarity(&c, &b, None), 65);
    assert_eq!(similarity(&b, &c, None), 65);
}

#[test]
fn similarity_reports_the_length_below_the_cutoff() {
    let (a, b) = conv_sequences(&['a', 'b', 'c'], &['b', 'c', 'd', 'e']);
    assert_eq!(similarity(&a, &b, Some(3)), 2);
    assert_eq!(similarity(&a, &b, Some(1)), 2);
    let block = build_block(&a);
    assert_eq!(block_similarity(&block, &a, &b, Some(3)), 2);
}

#[test]
fn block_similarity_reuses_the_table() {
    let needle = conv_sequence(&"cetain".chars().collect::<Vec<_>>());
    let block = build_block(&needle);
    for (hay, expected) in [("a certain string", 6usize), ("cet", 3), ("xyz", 0), ("niatec", 1)] {
        let hay = conv_sequence(&hay.chars().collect::<Vec<_>>());
        assert_eq!(block_similarity(&block, &needle, &hay, None), expected);
        assert_eq!(block_similarity(&block, &needle, &hay, None), naive_lcs(&needle, &hay));
    }
}

#[test]
fn block_has_one_bit_for_each_position() {
    let keys = conv_sequence(&['a', 'b', 'a', 'c']);
    let block = build_block(&keys);
    assert_eq!(block.len(), 3);
    assert_eq!(block[&('a' as u64)], 0b0101);
    assert_eq!(block[&('b' as u64)], 0b0010);
    assert_eq!(block[&('c' as u64)], 0b1000);
}

#[test]
fn block_of_a_long_sequence_keeps_the_first_64_positions() {
    let mut keys: Vec<u64> = vec![1; 70];
    keys[69] = 2;
    let block = build_block(&keys);
    assert_eq!(block[&1], u64::MAX);
    assert_eq!(block[&2], 0);
    let wide = build_wide_block(&keys);
    assert_eq!(wide[&1].to_string(), ((1u128 << 69) - 1).to_string());
    assert_eq!(wide[&2].to_string(), (1u128 << 69).to_string());
}

#[test]
fn wide_block_similarity_agrees_with_the_table() {
    let mut seed = 5;
    for len1 in [1usize, 10, 64, 65, 100, 129] {
        let a = random_keys(&mut seed, len1, 3);
        let block = build_wide_block(&a);
        for len2 in [0usize, 1, 50, 130] {
            let b = random_keys(&mut seed, len2, 3);
            assert_eq!(wide_block_similarity(&block, &a, &b, None), naive_lcs(&a, &b));
        }
    }
}

#[test]
fn block_similarity_with_a_foreign_table() {
    // The table decides: with the table of another sequence the row still has
    // one bit for each key of the first argument.
    let a = conv_sequence(&['a', 'b', 'c']);
    let other = conv_sequence(&['c', 'c', 'c']);
    let block = build_block(&other);
    let hay = conv_sequence(&['c']);
    assert_eq!(block_similarity(&block, &a, &hay, None), 1);
    let hay = conv_sequence(&['c', 'c', 'c', 'c']);
    assert_eq!(block_similarity(&block, &a, &hay, None), 3);
}
