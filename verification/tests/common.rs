use crustyfuzz::common::utils::is_none;
use crustyfuzz::common::{conv_sequence, conv_sequences, Hashable};
use std::collections::hash_map::DefaultHasher;
use std::hash::{Hash, Hasher};

fn std_hash<T: Hash>(value: &T) -> u64 {
    let mut hasher = DefaultHasher::new();
    value.hash(&mut hasher);
    hasher.finish()
}

#[test]
fn is_none_of_absent_and_empty() {
    assert!(is_none::<u8>(None));
    assert!(is_none::<u8>(Some(&[])));
    assert!(!is_none(Some(&[1u8][..])));
    assert!(!is_none(Some(&['a', 'b'][..])));
}

#[test]
fn keys_of_numbers_are_the_numbers() {
    assert_eq!('a'.hash_value(), 97);
    assert_eq!('€'.hash_value(), 0x20ac);
    assert_eq!(char::MAX.hash_value(), 0x10ffff);
    assert_eq!(200u8.hash_value(), 200);
    assert_eq!(u32::MAX.hash_value(), u32::MAX as u64);
    assert_eq!(u64::MAX.hash_value(), u64::MAX);
    assert_eq!(12345usize.hash_value(), 12345);
}

#[test]
fn keys_of_strings_are_their_hashes() {
    let s = "lewenstein".to_string();
    assert_eq!(s.hash_value(), std_hash(&s));
    assert_eq!(s.hash_value(), "lewenstein".to_string().hash_value());
    assert_ne!(s.hash_value(), "levenshtein".to_string().hash_value());
    assert_ne!(String::new().hash_value(), 0);
}

#[test]
fn keys_of_byte_vectors_are_their_hashes() {
    let v: Vec<u8> = vec![1, 2, 3];
    assert_eq!(v.hash_value(), std_hash(&v));
    assert_ne!(v.hash_value(), vec![1u8, 2].hash_value());
    assert_ne!(v.hash_value(), vec![3u8, 2, 1].hash_value());
}

#[test]
fn keys_of_char_vectors_hash_each_char() {
    let v: Vec<char> = vec!['a', 'b'];
    let mut hasher = DefaultHasher::new();
    'a'.hash(&mut hasher);
    'b'.hash(&mut hasher);
    assert_eq!(v.hash_value(), hasher.finish());
    assert_ne!(v.hash_value(), vec!['b', 'a'].hash_value());
    assert_eq!(Vec::<char>::new().hash_value(), DefaultHasher::new().finish());
}

#[test]
fn conv_sequence_keeps_length_and_order() {
    assert_eq!(conv_sequence::<char>(&[]), Vec::<u64>::new());
    assert_eq!(conv_sequence(&['a', 'b', 'a']), vec![97, 98, 97]);
    assert_eq!(conv_sequence(&[3u8, 1, 2]), vec![3, 1, 2]);
    let words = vec!["x".to_string(), "y".to_string(), "x".to_string()];
    let keys = conv_sequence(&words);
    assert_eq!(keys.len(), 3);
    assert_eq!(keys[0], keys[2]);
    assert_ne!(keys[0], keys[1]);
}

#[test]
fn conv_sequences_converts_both() {
    let (a, b) = conv_sequences(&['a'], &['b', 'c']);
    assert_eq!(a, vec![97]);
    assert_eq!(b, vec![98, 99]);
}
