use flat_db::hash::{HashError, Order};

fn sample() -> flat_db::hash::Hash<4> {
    flat_db::hash::Hash::<4>::new([0x00, 0x1f, 0xa0, 0xff])
}

#[test]
fn to_hex_is_lowercase_two_digits_per_byte() {
    assert_eq!(sample().to_hex(), "001fa0ff");
    assert_eq!(flat_db::hash::Hash::<0>::new([]).to_hex(), "");
    assert_eq!(
        flat_db::hash::Hash::<8>::new([0x01, 0x23, 0x45, 0x67, 0x89, 0xab, 0xcd, 0xef]).to_hex(),
        "0123456789abcdef"
    );
}

#[test]
fn from_string_reads_both_cases() {
    let lower = flat_db::hash::Hash::<4>::from_string("001fa0ff");
    let upper = flat_db::hash::Hash::<4>::from_string("001FA0FF");
    let mixed = flat_db::hash::Hash::<4>::from_string("001Fa0fF");
    assert_eq!(lower, Ok(sample()));
    assert_eq!(upper, Ok(sample()));
    assert_eq!(mixed, Ok(sample()));
}

#[test]
fn hex_round_trip() {
    let hashes = [
        flat_db::hash::Hash::<20>::new([0; 20]),
        flat_db::hash::Hash::<20>::new([0xff; 20]),
        flat_db::hash::Hash::<20>::new([
            0, 1, 2, 3, 4, 5, 6, 7, 8, 9, 10, 11, 12, 13, 14, 15, 16, 17, 18, 19,
        ]),
        flat_db::hash::Hash::<20>::new([
            0xde, 0xad, 0xbe, 0xef, 0x10, 0x32, 0x54, 0x76, 0x98, 0xba, 0xdc, 0xfe, 0x0f, 0xf0,
            0x5a, 0xa5, 0x7e, 0x81, 0x2f, 0x2e,
        ]),
    ];
    for hash in hashes {
        let text = hash.to_hex();
        assert_eq!(text.len(), 40);
        assert_eq!(flat_db::hash::Hash::<20>::from_string(&text), Ok(hash));
    }
}

#[test]
fn every_byte_round_trips() {
    for value in 0..=255u8 {
        let hash = flat_db::hash::Hash::<1>::new([value]);
        let text = hash.to_hex();
        assert_eq!(text, format!("{value:02x}"));
        assert_eq!(flat_db::hash::Hash::<1>::from_string(&text), Ok(hash));
    }
}

#[test]
fn from_string_wrong_length() {
    assert_eq!(
        flat_db::hash::Hash::<4>::from_string("001fa0f"),
        Err(HashError::InvalidLength { expected: 8, actual: 7 })
    );
    assert_eq!(
        flat_db::hash::Hash::<4>::from_string("001fa0ff0"),
        Err(HashError::InvalidLength { expected: 8, actual: 9 })
    );
    assert_eq!(
        flat_db::hash::Hash::<4>::from_string(""),
        Err(HashError::InvalidLength { expected: 8, actual: 0 })
    );
    assert_eq!(
        flat_db::hash::Hash::<0>::from_string("ab"),
        Err(HashError::InvalidLength { expected: 0, actual: 2 })
    );
    assert_eq!(flat_db::hash::Hash::<0>::from_string(""), Ok(flat_db::hash::Hash::<0>::new([])));
}

#[test]
fn from_string_length_is_judged_before_characters() {
    assert_eq!(
        flat_db::hash::Hash::<2>::from_string("zzz"),
        Err(HashError::InvalidLength { expected: 4, actual: 3 })
    );
}

#[test]
fn from_string_invalid_character_reports_start_of_pair() {
    assert_eq!(
        flat_db::hash::Hash::<4>::from_string("g01fa0ff"),
        Err(HashError::InvalidCharacter { position: 0 })
    );
    assert_eq!(
        flat_db::hash::Hash::<4>::from_string("0g1fa0ff"),
        Err(HashError::InvalidCharacter { position: 0 })
    );
    assert_eq!(
        flat_db::hash::Hash::<4>::from_string("001fa0fz"),
        Err(HashError::InvalidCharacter { position: 6 })
    );
    assert_eq!(
        flat_db::hash::Hash::<4>::from_string("001f-0ff"),
        Err(HashError::InvalidCharacter { position: 4 })
    );
}

#[test]
fn from_string_first_invalid_pair_wins() {
    assert_eq!(
        flat_db::hash::Hash::<4>::from_string("00xx00yy"),
        Err(HashError::InvalidCharacter { position: 2 })
    );
}

#[test]
fn from_string_refuses_signs_and_blanks() {
    assert_eq!(
        flat_db::hash::Hash::<1>::from_string("+f"),
        Err(HashError::InvalidCharacter { position: 0 })
    );
    assert_eq!(
        flat_db::hash::Hash::<1>::from_string("-1"),
        Err(HashError::InvalidCharacter { position: 0 })
    );
    assert_eq!(
        flat_db::hash::Hash::<1>::from_string(" 1"),
        Err(HashError::InvalidCharacter { position: 0 })
    );
    assert_eq!(
        flat_db::hash::Hash::<2>::from_string("0a+f"),
        Err(HashError::InvalidCharacter { position: 2 })
    );
}

#[test]
fn from_string_refuses_text_outside_ascii() {
    // Two bytes in UTF-8, so the length fits one byte of the identifier.
    assert_eq!(
        flat_db::hash::Hash::<1>::from_string("é"),
        Err(HashError::InvalidCharacter { position: 0 })
    );
    // Four bytes: the second pair starts inside a character.
    assert_eq!(
        flat_db::hash::Hash::<2>::from_string("aéb"),
        Err(HashError::InvalidCharacter { position: 0 })
    );
    assert_eq!(
        flat_db::hash::Hash::<2>::from_string("abé"),
        Err(HashError::InvalidCharacter { position: 2 })
    );
}

#[test]
fn hash_error_wording() {
    assert_eq!(
        HashError::InvalidLength { expected: 40, actual: 7 }.to_string(),
        "Invalid hex length\nExpected: 40\nActual: 7"
    );
    assert_eq!(
        HashError::InvalidCharacter { position: 12 }.to_string(),
        "Invalid hex character at position 12"
    );
    assert_eq!(
        HashError::InvalidCharacter { position: 0 }.to_string(),
        "Invalid hex character at position 0"
    );
}

#[test]
fn as_bytes_returns_what_new_was_given() {
    let bytes = [9u8, 8, 7, 6];
    assert_eq!(flat_db::hash::Hash::<4>::new(bytes).as_bytes(), &bytes);
}

#[test]
fn truncate_keeps_the_first_bytes() {
    let hash = sample();
    assert_eq!(hash.truncate::<2>(), Some(flat_db::hash::Hash::<2>::new([0x00, 0x1f])));
    assert_eq!(hash.truncate::<1>(), Some(flat_db::hash::Hash::<1>::new([0x00])));
    assert_eq!(hash.truncate::<0>(), Some(flat_db::hash::Hash::<0>::new([])));
    assert_eq!(hash.truncate::<4>(), Some(hash));
}

#[test]
fn truncate_to_a_greater_width_is_none() {
    assert_eq!(sample().truncate::<5>(), None);
    assert_eq!(flat_db::hash::Hash::<0>::new([]).truncate::<1>(), None);
}

#[test]
fn default_is_all_zero() {
    assert_eq!(flat_db::hash::Hash::<3>::default(), flat_db::hash::Hash::<3>::new([0, 0, 0]));
    assert_eq!(flat_db::hash::Hash::<20>::default().to_hex(), "0".repeat(40));
}

#[test]
fn compare_is_byte_lexicographic() {
    let low = flat_db::hash::Hash::<3>::new([1, 2, 3]);
    let high = flat_db::hash::Hash::<3>::new([1, 3, 0]);
    let top = flat_db::hash::Hash::<3>::new([2, 0, 0]);
    assert_eq!(low.compare(&high), Order::Less);
    assert_eq!(high.compare(&low), Order::Greater);
    assert_eq!(low.compare(&low), Order::Equal);
    assert_eq!(high.compare(&top), Order::Less);
    assert_eq!(top.compare(&low), Order::Greater);
    assert_eq!(
        flat_db::hash::Hash::<1>::new([0x7f]).compare(&flat_db::hash::Hash::<1>::new([0x80])),
        Order::Less
    );
    assert_eq!(
        flat_db::hash::Hash::<0>::new([]).compare(&flat_db::hash::Hash::<0>::new([])),
        Order::Equal
    );
}

#[test]
fn operators_agree_with_compare() {
    let low = flat_db::hash::Hash::<2>::new([0, 255]);
    let high = flat_db::hash::Hash::<2>::new([1, 0]);
    assert!(low < high);
    assert!(high > low);
    assert!(low <= low);
    assert!(low == low);
    assert!(low != high);
    assert_eq!(low.partial_cmp(&high), Some(std::cmp::Ordering::Less));
    assert_eq!(low.cmp(&high), std::cmp::Ordering::Less);
    assert_eq!(high.cmp(&low), std::cmp::Ordering::Greater);
    assert_eq!(low.cmp(&low), std::cmp::Ordering::Equal);
}

#[test]
fn same_prefix_gives_same_shard() {
    let first = flat_db::hash::Hash::<4>::new([0xab, 0xcd, 1, 2]);
    let second = flat_db::hash::Hash::<4>::new([0xab, 0xcd, 3, 4]);
    let third = flat_db::hash::Hash::<4>::new([0xab, 0xce, 1, 2]);
    assert_eq!(first.truncate::<2>(), second.truncate::<2>());
    assert_ne!(first.truncate::<2>(), third.truncate::<2>());
    assert_eq!(first.truncate::<1>(), third.truncate::<1>());
    assert_eq!(first.truncate::<2>(), first.truncate::<2>());
}
