use sqids_codec::codec::Codec;
use sqids_codec::error::Error;

const DEFAULT_ALPHABET: &str = "abcdefghijklmnopqrstuvwxyzABCDEFGHIJKLMNOPQRSTUVWXYZ0123456789";
const CUSTOM_ALPHABET: &str = "k3G7QAe51FCsPW92uEOyq4Bg6Sp8YzVTmnU0liwDdHXLajZrfxNhobJIRcMvKt";

fn codec(alphabet: &str, min_length: u8, blocklist: &[&str]) -> Codec {
    let words: Vec<String> = blocklist.iter().map(|w| w.to_string()).collect();
    match Codec::new(alphabet, min_length, &words) {
        Ok(c) => c,
        Err(e) => panic!("configuration rejected: {:?}", e),
    }
}

#[test]
fn encode_example_vector() {
    let c = codec(DEFAULT_ALPHABET, 0, &[]);
    assert_eq!(c.encode(&vec![1, 2, 3]).unwrap(), "86Rf07");
}

#[test]
fn decode_example_vector() {
    let c = codec(DEFAULT_ALPHABET, 0, &[]);
    assert_eq!(c.decode("86Rf07"), vec![1, 2, 3]);
}

#[test]
fn encode_min_length_vector() {
    let c = codec(DEFAULT_ALPHABET, 10, &[]);
    assert_eq!(c.encode(&vec![1, 2, 3]).unwrap(), "86Rf07xd4z");
}

#[test]
fn decode_min_length_vector() {
    let c = codec(DEFAULT_ALPHABET, 10, &[]);
    assert_eq!(c.decode("86Rf07xd4z"), vec![1, 2, 3]);
}

#[test]
fn encode_custom_alphabet() {
    let c = codec(CUSTOM_ALPHABET, 0, &[]);
    assert_eq!(c.encode(&vec![1, 2, 3]).unwrap(), "XRKUdQ");
    assert_eq!(c.decode("XRKUdQ"), vec![1, 2, 3]);
}

#[test]
fn encode_custom_alphabet_min_length() {
    let c = codec(CUSTOM_ALPHABET, 10, &[]);
    assert_eq!(c.encode(&vec![1, 2, 3]).unwrap(), "XRKUdQVBzg");
    assert_eq!(c.decode("XRKUdQVBzg"), vec![1, 2, 3]);
}

#[test]
fn encode_with_blocklist() {
    let c = codec(DEFAULT_ALPHABET, 0, &["86Rf07"]);
    assert_eq!(c.encode(&vec![1, 2, 3]).unwrap(), "se8ojk");
}

#[test]
fn encode_custom_alphabet_blocklist() {
    let c = codec(CUSTOM_ALPHABET, 0, &["XRKUdQ"]);
    assert_eq!(c.encode(&vec![1, 2, 3]).unwrap(), "WyXQfF");
}

#[test]
fn encode_min_length_blocklist() {
    let c = codec(DEFAULT_ALPHABET, 10, &["86Rf07"]);
    assert_eq!(c.encode(&vec![1, 2, 3]).unwrap(), "se8ojkCQvX");
}

#[test]
fn encode_custom_alphabet_min_length_blocklist() {
    let c = codec(CUSTOM_ALPHABET, 10, &["XRKUdQVBzg"]);
    assert_eq!(c.encode(&vec![1, 2, 3]).unwrap(), "WyXQfFQ21T");
}

#[test]
fn blocklist_entry_is_case_insensitive() {
    let c = codec(DEFAULT_ALPHABET, 0, &["86RF07"]);
    assert_eq!(c.encode(&vec![1, 2, 3]).unwrap(), "se8ojk");
}

#[test]
fn blocklist_word_with_foreign_characters_is_dropped() {
    let c = codec(DEFAULT_ALPHABET, 0, &["86Rf07*", "hi"]);
    assert_eq!(c.encode(&vec![1, 2, 3]).unwrap(), "86Rf07");
}

#[test]
fn empty_sequence_encodes_to_empty_string() {
    let c = codec(DEFAULT_ALPHABET, 0, &[]);
    assert_eq!(c.encode(&vec![]).unwrap(), "");
    // The minimum length applies only to non-empty inputs.
    let c = codec(DEFAULT_ALPHABET, 10, &[]);
    assert_eq!(c.encode(&vec![]).unwrap(), "");
}

#[test]
fn decode_empty_string() {
    let c = codec(DEFAULT_ALPHABET, 0, &[]);
    assert_eq!(c.decode(""), Vec::<u64>::new());
}

#[test]
fn decode_foreign_character_yields_empty() {
    let c = codec(DEFAULT_ALPHABET, 0, &[]);
    assert_eq!(c.decode("*"), Vec::<u64>::new());
    assert_eq!(c.decode("86Rf07*"), Vec::<u64>::new());
}

#[test]
fn decode_alphabet_noise_never_fails() {
    let c = codec(DEFAULT_ALPHABET, 0, &[]);
    for id in ["a", "zzzzzzzzzzzzzzzzzzzzzzzzzzzz", "aAbBcC0123", "0", "86Rf", "f07x"] {
        let _ = c.decode(id);
    }
}

#[test]
fn encode_single_and_large_numbers_round_trip() {
    let c = codec(DEFAULT_ALPHABET, 0, &[]);
    for nums in [
        vec![0],
        vec![1],
        vec![u64::MAX],
        vec![0, 0, 0],
        vec![1000000, 2000000],
        vec![u64::MAX, 0, u64::MAX],
    ] {
        let id = c.encode(&nums).unwrap();
        assert_eq!(c.decode(&id), nums, "failed round trip on {:?}", nums);
    }
}

#[test]
fn encode_is_deterministic() {
    let c1 = codec(DEFAULT_ALPHABET, 5, &["abc"]);
    let c2 = codec(DEFAULT_ALPHABET, 5, &["abc"]);
    let nums = vec![42, 7, 0];
    assert_eq!(c1.encode(&nums).unwrap(), c1.encode(&nums).unwrap());
    assert_eq!(c1.encode(&nums).unwrap(), c2.encode(&nums).unwrap());
}

#[test]
fn adjacent_numbers_share_no_long_prefix() {
    let c = codec(DEFAULT_ALPHABET, 0, &[]);
    for n in [0u64, 1, 5, 99, 1000, 123456] {
        let a: Vec<char> = c.encode(&vec![n]).unwrap().chars().collect();
        let b: Vec<char> = c.encode(&vec![n + 1]).unwrap().chars().collect();
        let common = a.iter().zip(b.iter()).take_while(|(x, y)| x == y).count();
        assert!(common < 2, "ids for {} and {} share a prefix of {}", n, n + 1, common);
    }
}

#[test]
fn minimum_length_is_honoured() {
    for min in [0u8, 1, 5, 10, 62, 63, 100, 255] {
        let c = codec(DEFAULT_ALPHABET, min, &[]);
        for nums in [vec![0u64], vec![1, 2, 3], vec![u64::MAX]] {
            let id = c.encode(&nums).unwrap();
            assert!(id.chars().count() >= min as usize);
            assert_eq!(c.decode(&id), nums);
        }
    }
}

#[test]
fn unicode_alphabet_round_trips() {
    let c = codec("αβγδεζη", 4, &[]);
    for nums in [vec![0u64], vec![7, 0, 99], vec![u64::MAX, 1]] {
        let id = c.encode(&nums).unwrap();
        assert!(id.chars().all(|ch| "αβγδεζη".contains(ch)));
        assert_eq!(c.decode(&id), nums);
    }
}

#[test]
fn alphabet_too_short_is_rejected() {
    assert_eq!(Codec::new("ab", 0, &vec![]).unwrap_err(), Error::AlphabetTooShort);
    assert_eq!(Codec::new("", 0, &vec![]).unwrap_err(), Error::AlphabetTooShort);
    // Two distinct characters only, however often they repeat.
    assert_eq!(Codec::new("abab", 0, &vec![]).unwrap_err(), Error::AlphabetTooShort);
}

#[test]
fn alphabet_duplicates_are_rejected() {
    assert_eq!(Codec::new("abca", 0, &vec![]).unwrap_err(), Error::AlphabetHasDuplicates);
}

#[test]
fn numeric_only_alphabet_is_rejected() {
    assert_eq!(Codec::new("0123456789", 0, &vec![]).unwrap_err(), Error::AlphabetNumericOnly);
}

#[test]
fn exhausted_blocklist_reports_error() {
    let c = codec("abc", 3, &["aac", "bba", "ccb"]);
    assert_eq!(c.encode(&vec![1]).unwrap_err(), Error::BlocklistExhausted);
}

#[test]
fn error_messages_are_distinct() {
    let all = [
        Error::AlphabetTooShort,
        Error::AlphabetHasDuplicates,
        Error::AlphabetNumericOnly,
        Error::MinLengthRange,
        Error::NegativeNumbers,
        Error::BlocklistExhausted,
    ];
    for (i, a) in all.iter().enumerate() {
        for (j, b) in all.iter().enumerate() {
            if i != j {
                assert_ne!(a.message(), b.message());
            }
        }
    }
}
