//! Cross-checks against the reference implementation of the id scheme.

use std::collections::HashSet;

use sqids_codec::codec::Codec;

const DEFAULT_ALPHABET: &str = "abcdefghijklmnopqrstuvwxyzABCDEFGHIJKLMNOPQRSTUVWXYZ0123456789";

fn reference(alphabet: &str, min_length: u8, blocklist: &[&str]) -> sqids::Sqids {
    let words: HashSet<String> = blocklist.iter().map(|w| w.to_string()).collect();
    sqids::Sqids::builder()
        .alphabet(alphabet.chars().collect())
        .min_length(min_length)
        .blocklist(words)
        .build()
        .unwrap()
}

fn ours(alphabet: &str, min_length: u8, blocklist: &[&str]) -> Codec {
    let words: Vec<String> = blocklist.iter().map(|w| w.to_string()).collect();
    Codec::new(alphabet, min_length, &words).unwrap()
}

fn sample_inputs() -> Vec<Vec<u64>> {
    let mut out = vec![
        vec![0],
        vec![1],
        vec![1, 2, 3],
        vec![0, 0, 0, 0],
        vec![u64::MAX],
        vec![u64::MAX, u64::MAX],
        vec![123, 456, 789, 0, 1],
    ];
    // A deterministic pseudo-random batch.
    let mut x: u64 = 0x9e3779b97f4a7c15;
    for len in 1..8u64 {
        let mut v = Vec::new();
        for _ in 0..len {
            x = x.wrapping_mul(6364136223846793005).wrapping_add(1442695040888963407);
            v.push(x >> 16);
        }
        out.push(v);
    }
    out
}

#[test]
fn encode_matches_reference_default_alphabet() {
    let r = reference(DEFAULT_ALPHABET, 0, &[]);
    let c = ours(DEFAULT_ALPHABET, 0, &[]);
    for nums in sample_inputs() {
        assert_eq!(c.encode(&nums).unwrap(), r.encode(&nums).unwrap(), "on {:?}", nums);
    }
}

#[test]
fn encode_matches_reference_with_min_length() {
    for min in [1u8, 7, 30, 255] {
        let r = reference(DEFAULT_ALPHABET, min, &[]);
        let c = ours(DEFAULT_ALPHABET, min, &[]);
        for nums in sample_inputs() {
            assert_eq!(c.encode(&nums).unwrap(), r.encode(&nums).unwrap(), "on {:?}", nums);
        }
    }
}

#[test]
fn encode_matches_reference_small_alphabet() {
    let r = reference("abcde", 0, &[]);
    let c = ours("abcde", 0, &[]);
    for nums in sample_inputs() {
        assert_eq!(c.encode(&nums).unwrap(), r.encode(&nums).unwrap(), "on {:?}", nums);
    }
}

#[test]
fn encode_matches_reference_with_blocklist() {
    let words = ["86Rf07", "se8ojk", "ArmRuleS", "word1", "abc"];
    let r = reference(DEFAULT_ALPHABET, 0, &words);
    let c = ours(DEFAULT_ALPHABET, 0, &words);
    for nums in sample_inputs() {
        assert_eq!(c.encode(&nums).unwrap(), r.encode(&nums).unwrap(), "on {:?}", nums);
    }
}

#[test]
fn decode_matches_reference_on_noise() {
    let r = reference(DEFAULT_ALPHABET, 0, &[]);
    let c = ours(DEFAULT_ALPHABET, 0, &[]);
    for id in [
        "", "a", "ab", "abc", "0", "zyx987", "86Rf07", "86Rf07xd4z", "AAAAAAAAAA",
        "why-not", "seq8ojk",
    ] {
        assert_eq!(c.decode(id), r.decode(id), "on {:?}", id);
    }
}
