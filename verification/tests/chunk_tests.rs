use flat_db::chunk::Chunk;
use flat_db::hash::HashError;

fn key(first: u8, second: u8) -> flat_db::hash::Hash<2> {
    flat_db::hash::Hash::<2>::new([first, second])
}

fn chunk_of(pairs: &[((u8, u8), &str)]) -> Chunk<2, String> {
    let mut chunk = Chunk::new();
    for ((first, second), value) in pairs {
        chunk.insert(key(*first, *second), (*value).to_owned());
    }
    chunk
}

fn listed(chunk: Chunk<2, String>) -> Vec<((u8, u8), String)> {
    chunk
        .into_vec()
        .into_iter()
        .map(|(hash, value)| ((hash.as_bytes()[0], hash.as_bytes()[1]), value))
        .collect()
}

fn owned(pairs: &[((u8, u8), &str)]) -> Vec<((u8, u8), String)> {
    pairs.iter().map(|(k, v)| (*k, (*v).to_owned())).collect()
}

#[test]
fn new_chunk_is_empty() {
    let chunk: Chunk<2, String> = Chunk::new();
    assert_eq!(chunk.len(), 0);
    assert!(chunk.is_empty());
    assert_eq!(chunk.get(&key(0, 0)), None);
    assert!(!chunk.contains_key(&key(0, 0)));
    assert!(chunk.into_vec().is_empty());
}

#[test]
fn insert_then_get() {
    let mut chunk: Chunk<2, String> = Chunk::new();
    assert_eq!(chunk.insert(key(1, 2), "a".to_owned()), None);
    assert_eq!(chunk.get(&key(1, 2)), Some(&"a".to_owned()));
    assert!(chunk.contains_key(&key(1, 2)));
    assert!(!chunk.contains_key(&key(2, 1)));
    assert_eq!(chunk.len(), 1);
    assert!(!chunk.is_empty());
}

#[test]
fn insert_again_replaces_and_returns_the_old_record() {
    let mut chunk = chunk_of(&[((1, 2), "a"), ((3, 4), "b")]);
    assert_eq!(chunk.insert(key(1, 2), "c".to_owned()), Some("a".to_owned()));
    assert_eq!(chunk.len(), 2);
    assert_eq!(chunk.get(&key(1, 2)), Some(&"c".to_owned()));
    assert_eq!(chunk.get(&key(3, 4)), Some(&"b".to_owned()));
}

#[test]
fn entries_stand_in_key_order() {
    let chunk = chunk_of(&[
        ((9, 0), "e"),
        ((0, 9), "b"),
        ((255, 255), "g"),
        ((0, 0), "a"),
        ((1, 0), "c"),
        ((8, 255), "d"),
        ((128, 1), "f"),
    ]);
    assert_eq!(
        listed(chunk),
        owned(&[
            ((0, 0), "a"),
            ((0, 9), "b"),
            ((1, 0), "c"),
            ((8, 255), "d"),
            ((9, 0), "e"),
            ((128, 1), "f"),
            ((255, 255), "g"),
        ])
    );
}

#[test]
fn get_finds_every_key_of_a_larger_chunk() {
    let mut chunk: Chunk<2, String> = Chunk::new();
    for value in 0..200u8 {
        chunk.insert(key(value.wrapping_mul(37), value), format!("v{value}"));
    }
    assert_eq!(chunk.len(), 200);
    for value in 0..200u8 {
        assert_eq!(chunk.get(&key(value.wrapping_mul(37), value)), Some(&format!("v{value}")));
        assert_eq!(chunk.get(&key(value.wrapping_mul(37), value.wrapping_add(201))), None);
    }
}

#[test]
fn remove_returns_the_record_and_takes_it_out() {
    let mut chunk = chunk_of(&[((1, 2), "a"), ((3, 4), "b"), ((5, 6), "c")]);
    assert_eq!(chunk.remove(&key(3, 4)), Some("b".to_owned()));
    assert_eq!(chunk.remove(&key(3, 4)), None);
    assert_eq!(chunk.len(), 2);
    assert_eq!(listed(chunk), owned(&[((1, 2), "a"), ((5, 6), "c")]));
}

#[test]
fn remove_of_unknown_key_changes_nothing() {
    let mut chunk = chunk_of(&[((1, 2), "a")]);
    assert_eq!(chunk.remove(&key(2, 1)), None);
    assert_eq!(listed(chunk), owned(&[((1, 2), "a")]));
}

#[test]
fn from_vec_keeps_the_later_of_two_entries() {
    let chunk = Chunk::from_vec(vec![
        (key(2, 0), "first".to_owned()),
        (key(1, 0), "one".to_owned()),
        (key(2, 0), "second".to_owned()),
    ]);
    assert_eq!(listed(chunk), owned(&[((1, 0), "one"), ((2, 0), "second")]));
}

#[test]
fn extend_prefers_the_other_chunk() {
    let mut chunk = chunk_of(&[((1, 0), "a"), ((2, 0), "b")]);
    chunk.extend(chunk_of(&[((2, 0), "B"), ((3, 0), "C")]));
    assert_eq!(listed(chunk), owned(&[((1, 0), "a"), ((2, 0), "B"), ((3, 0), "C")]));
}

#[test]
fn extend_by_nothing_changes_nothing() {
    let mut chunk = chunk_of(&[((1, 0), "a")]);
    chunk.extend(Chunk::new());
    assert_eq!(listed(chunk), owned(&[((1, 0), "a")]));
}

#[test]
fn merge_with_replace_stores_every_record() {
    let mut chunk = chunk_of(&[((1, 0), "a"), ((2, 0), "b")]);
    let added = chunk.merge(chunk_of(&[((2, 0), "B"), ((3, 0), "C")]), true);
    assert_eq!(added, 2);
    assert_eq!(listed(chunk), owned(&[((1, 0), "a"), ((2, 0), "B"), ((3, 0), "C")]));
}

#[test]
fn merge_without_replace_keeps_what_was_there() {
    let mut chunk = chunk_of(&[((1, 0), "a"), ((2, 0), "b")]);
    let added = chunk.merge(chunk_of(&[((2, 0), "B"), ((3, 0), "C"), ((0, 0), "Z")]), false);
    assert_eq!(added, 2);
    assert_eq!(
        listed(chunk),
        owned(&[((0, 0), "Z"), ((1, 0), "a"), ((2, 0), "b"), ((3, 0), "C")])
    );
}

#[test]
fn merge_of_known_keys_without_replace_adds_nothing() {
    let mut chunk = chunk_of(&[((1, 0), "a"), ((2, 0), "b")]);
    let added = chunk.merge(chunk_of(&[((1, 0), "A"), ((2, 0), "B")]), false);
    assert_eq!(added, 0);
    assert_eq!(listed(chunk), owned(&[((1, 0), "a"), ((2, 0), "b")]));
}

#[test]
fn into_hex_entries_writes_keys_as_text_in_order() {
    let chunk = chunk_of(&[((0xff, 0x00), "z"), ((0x0a, 0xb1), "y")]);
    assert_eq!(
        chunk.into_hex_entries(),
        vec![("0ab1".to_owned(), "y".to_owned()), ("ff00".to_owned(), "z".to_owned())]
    );
}

#[test]
fn from_hex_entries_reads_keys() {
    let chunk: Chunk<2, String> = Chunk::from_hex_entries(vec![
        ("ff00".to_owned(), "z".to_owned()),
        ("0AB1".to_owned(), "y".to_owned()),
    ])
    .expect("keys are valid");
    assert_eq!(listed(chunk), owned(&[((0x0a, 0xb1), "y"), ((0xff, 0x00), "z")]));
}

#[test]
fn from_hex_entries_keeps_the_later_of_two_spellings() {
    let chunk: Chunk<2, String> = Chunk::from_hex_entries(vec![
        ("0ab1".to_owned(), "lower".to_owned()),
        ("0AB1".to_owned(), "upper".to_owned()),
    ])
    .expect("keys are valid");
    assert_eq!(listed(chunk), owned(&[((0x0a, 0xb1), "upper")]));
}

#[test]
fn from_hex_entries_reports_the_first_bad_key() {
    let result: Result<Chunk<2, String>, HashError> = Chunk::from_hex_entries(vec![
        ("0ab1".to_owned(), "fine".to_owned()),
        ("0ab".to_owned(), "short".to_owned()),
        ("zzzz".to_owned(), "letters".to_owned()),
    ]);
    assert_eq!(result.err(), Some(HashError::InvalidLength { expected: 4, actual: 3 }));
    let result: Result<Chunk<2, String>, HashError> = Chunk::from_hex_entries(vec![
        ("00zz".to_owned(), "letters".to_owned()),
        ("0ab".to_owned(), "short".to_owned()),
    ]);
    assert_eq!(result.err(), Some(HashError::InvalidCharacter { position: 2 }));
}

#[test]
fn hex_entries_round_trip() {
    let pairs = [((0, 1), "a"), ((7, 7), "b"), ((200, 3), "c")];
    let written = chunk_of(&pairs).into_hex_entries();
    let read: Chunk<2, String> = Chunk::from_hex_entries(written).expect("keys are valid");
    assert_eq!(listed(read), owned(&pairs));
}
