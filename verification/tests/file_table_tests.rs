use flat_db::chunk::Chunk;
use flat_db::file_table::{CopyPlan, FileAction, FileEntry, FileError, FileTable};
use std::collections::BTreeMap;

/// What stands in for the file system: the content of each file by its path.
type Files = BTreeMap<String, String>;

fn hash_of(first: u8, second: u8) -> flat_db::hash::Hash<20> {
    let mut bytes = [0; 20];
    bytes[0] = first;
    bytes[1] = second;
    flat_db::hash::Hash::<20>::new(bytes)
}

fn create_file_table() -> (Files, FileTable<20, 1>) {
    (Files::new(), FileTable::new("store".to_owned(), "txt".to_owned()))
}

fn create_example_files(files: &mut Files) -> Vec<(flat_db::hash::Hash<20>, String)> {
    [(0x01, 0x10), (0x01, 0x20), (0x7f, 0x00), (0xfe, 0x01), (0xfe, 0x02)]
        .into_iter()
        .map(|(first, second)| {
            let hash = hash_of(first, second);
            let path = format!("source/file-{}.txt", hash.to_hex());
            files.insert(path.clone(), hash.to_hex());
            (hash, path)
        })
        .collect()
}

fn dir_exists(files: &Files, directory: &str) -> bool {
    files.keys().any(|path| path.starts_with(&format!("{directory}/")))
}

fn set(
    files: &mut Files,
    table: &FileTable<20, 1>,
    hash: flat_db::hash::Hash<20>,
    source: &str,
) -> Result<(), FileError> {
    let exists = dir_exists(files, &table.get_dir(hash));
    let CopyPlan { create: _, destination } = table.set(hash, exists);
    match files.get(source).cloned() {
        Some(content) => {
            files.insert(destination, content);
            Ok(())
        }
        None => Err(FileError::new(FileAction::CopyFile, format!("{source} not found"))),
    }
}

fn set_many(
    files: &mut Files,
    table: &FileTable<20, 1>,
    items: Vec<(flat_db::hash::Hash<20>, String)>,
) -> Result<(), FileError> {
    let outcomes =
        items.into_iter().map(|(hash, source)| set(files, table, hash, &source)).collect();
    table.set_many(outcomes)
}

fn get(
    files: &Files,
    table: &FileTable<20, 1>,
    hash: flat_db::hash::Hash<20>,
) -> Option<String> {
    let path = table.get_path(hash);
    table.get(hash, files.contains_key(&path))
}

fn get_all(files: &Files, table: &FileTable<20, 1>) -> Chunk<20, String> {
    let below = format!("{}/", table.directory());
    let entries = files
        .keys()
        .filter(|path| path.starts_with(&below))
        .map(|path| FileEntry { path: path.clone(), is_file: true })
        .collect();
    table.get_all(entries)
}

#[test]
fn file_table_set_many_and_get_all() {
    let (mut files, table) = create_file_table();
    let examples = create_example_files(&mut files);
    let expected_count = examples.len();

    set_many(&mut files, &table, examples.clone()).expect("should succeed");
    let items = get_all(&files, &table);

    assert_eq!(items.len(), expected_count);
    let stored: Vec<(String, String)> = files
        .iter()
        .filter(|(path, _)| path.starts_with("store/"))
        .map(|(path, content)| (path.clone(), content.clone()))
        .collect();
    let expected: Vec<(String, String)> = examples
        .iter()
        .map(|(hash, _)| {
            let hex = hash.to_hex();
            (format!("store/{}/{}.txt", &hex[..2], hex), hex)
        })
        .collect();
    assert_eq!(stored, expected);
    let listed: Vec<(flat_db::hash::Hash<20>, String)> = items.into_vec();
    assert_eq!(
        listed,
        examples
            .iter()
            .map(|(hash, _)| (*hash, table.get_path(*hash)))
            .collect::<Vec<_>>()
    );
}

#[test]
fn file_table_set_and_get_all() {
    let (mut files, table) = create_file_table();
    let examples = create_example_files(&mut files);
    let expected_count = examples.len();
    set_many(&mut files, &table, examples).expect("should succeed");
    let hash = hash_of(0xac, 0x32);
    files.insert("source/new.txt".to_owned(), "New item".to_owned());

    set(&mut files, &table, hash, "source/new.txt").expect("should succeed");

    let items = get_all(&files, &table);
    assert_eq!(items.len(), expected_count + 1);
    assert_eq!(files.get(&table.get_path(hash)), Some(&"New item".to_owned()));
}

#[test]
fn file_table_get_single_file() {
    let (mut files, table) = create_file_table();
    let examples = create_example_files(&mut files);
    let hash = examples.first().expect("should have at least one").0;
    set_many(&mut files, &table, examples).expect("should succeed");

    let result = get(&files, &table, hash);

    assert!(result.is_some());
    let path = result.expect("already checked");
    assert!(files.contains_key(&path));
    assert_eq!(files.get(&path), Some(&hash.to_hex()));
}

#[test]
fn file_table_get_missing_file() {
    let (mut files, table) = create_file_table();
    let examples = create_example_files(&mut files);
    set_many(&mut files, &table, examples).expect("should succeed");
    let missing_hash = hash_of(0xff, 0xee);

    let result = get(&files, &table, missing_hash);

    assert!(result.is_none());
}

#[test]
fn file_table_empty_get_all() {
    let (files, table) = create_file_table();

    let items = get_all(&files, &table);

    assert!(items.is_empty());
}

#[test]
fn paths_of_a_file() {
    let table: FileTable<20, 2> = FileTable::new("/srv/files".to_owned(), "flac".to_owned());
    let hash = hash_of(0xab, 0xcd);
    let hex = "abcd000000000000000000000000000000000000";
    assert_eq!(table.directory(), "/srv/files");
    assert_eq!(table.extension(), "flac");
    assert_eq!(table.get_dir(hash), "/srv/files/abcd");
    assert_eq!(table.get_path(hash), format!("/srv/files/abcd/{hex}.flac"));
    assert_eq!(table.get(hash, true), Some(format!("/srv/files/abcd/{hex}.flac")));
    assert_eq!(table.get(hash, false), None);
}

#[test]
fn set_plans_the_directory_only_where_it_is_missing() {
    let (_, table) = create_file_table();
    let hash = hash_of(0xab, 0xcd);
    let hex = hash.to_hex();
    let plan = table.set(hash, false);
    assert_eq!(plan.create, Some("store/ab".to_owned()));
    assert_eq!(plan.destination, format!("store/ab/{hex}.txt"));
    let plan = table.set(hash, true);
    assert_eq!(plan.create, None);
    assert_eq!(plan.destination, format!("store/ab/{hex}.txt"));
}

#[test]
fn key_of_asks_for_file_extension_and_key() {
    let (_, table) = create_file_table();
    let hash = hash_of(0xab, 0xcd);
    let hex = hash.to_hex();
    let entry = |path: String, is_file: bool| FileEntry { path, is_file };
    assert_eq!(table.key_of(&entry(format!("store/ab/{hex}.txt"), true)), Some(hash));
    let upper = hex.to_uppercase();
    assert_eq!(table.key_of(&entry(format!("store/ab/{upper}.txt"), true)), Some(hash));
    assert_eq!(table.key_of(&entry(format!("elsewhere/{hex}.txt"), true)), Some(hash));
    assert_eq!(table.key_of(&entry(format!("store/ab/{hex}.txt"), false)), None);
    assert_eq!(table.key_of(&entry(format!("store/ab/{hex}.bin"), true)), None);
    assert_eq!(table.key_of(&entry(format!("store/ab/{hex}"), true)), None);
    assert_eq!(table.key_of(&entry(format!("store/ab/{}.txt", &hex[..38]), true)), None);
    assert_eq!(table.key_of(&entry("store/ab/notes.txt".to_owned(), true)), None);
    assert_eq!(table.key_of(&entry(format!("store/ab/{hex}.tar.txt"), true)), None);
}

#[test]
fn table_without_extension_takes_names_without_extension() {
    let table: FileTable<20, 1> = FileTable::new("store".to_owned(), String::new());
    let hash = hash_of(0xab, 0xcd);
    let hex = hash.to_hex();
    let entry = FileEntry { path: format!("store/ab/{hex}"), is_file: true };
    assert_eq!(table.key_of(&entry), Some(hash));
    let entry = FileEntry { path: format!("store/ab/{hex}.txt"), is_file: true };
    assert_eq!(table.key_of(&entry), None);
}

#[test]
fn get_all_passes_over_what_is_no_file_of_a_key() {
    let (_, table) = create_file_table();
    let first = hash_of(0x02, 0x00);
    let second = hash_of(0x01, 0x00);
    let entries = vec![
        FileEntry { path: format!("store/02/{}.txt", first.to_hex()), is_file: true },
        FileEntry { path: "store/02/readme.txt".to_owned(), is_file: true },
        FileEntry { path: format!("store/01/{}.txt", second.to_hex()), is_file: true },
        FileEntry { path: format!("store/01/{}.lock", second.to_hex()), is_file: true },
        FileEntry { path: format!("store/03/{}.txt", hash_of(3, 0).to_hex()), is_file: false },
    ];
    let paths = table.get_all(entries).into_vec();
    assert_eq!(
        paths,
        vec![
            (second, format!("store/01/{}.txt", second.to_hex())),
            (first, format!("store/02/{}.txt", first.to_hex())),
        ]
    );
}

#[test]
fn get_all_keeps_the_later_of_two_files_of_one_key() {
    let (_, table) = create_file_table();
    let hash = hash_of(0x02, 0x00);
    let entries = vec![
        FileEntry { path: format!("store/02/{}.txt", hash.to_hex()), is_file: true },
        FileEntry { path: format!("store/02/{}.txt", hash.to_hex().to_uppercase()), is_file: true },
    ];
    let paths = table.get_all(entries).into_vec();
    assert_eq!(paths, vec![(hash, format!("store/02/{}.txt", hash.to_hex().to_uppercase()))]);
}

#[test]
fn file_error_in_lines() {
    let error = FileError::new(FileAction::CopyFile, "No such file".to_owned());
    assert_eq!(error.action, "copy file");
    assert_eq!(error.message, "No such file");
    assert_eq!(error.domain, Some("file system".to_owned()));
    assert_eq!(error.display(), "Failed to copy file\nA file system error occurred\nNo such file");
    let plain = FileError { action: "wait".to_owned(), message: "late".to_owned(), domain: None };
    assert_eq!(plain.display(), "Failed to wait\nlate");
}

#[test]
fn file_actions_in_words() {
    let expected = [
        (FileAction::ReadDirectory, "read directory"),
        (FileAction::ReadEntry, "read entry"),
        (FileAction::ReadChunkDirectory, "read chunk directory"),
        (FileAction::ReadChunkEntry, "read chunk entry"),
        (FileAction::CreateDirectory, "create directory"),
        (FileAction::CopyFile, "copy file"),
        (FileAction::SetManyFiles, "set many files"),
    ];
    for (action, words) in expected {
        assert_eq!(action.as_str(), words);
        assert_eq!(FileError::new(action, String::new()).action, words);
    }
}

#[test]
fn create_directory_error_names_the_directory() {
    let error = FileError::create_directory("store/ab", "Permission denied (os error 13)");
    assert_eq!(error.action, "create directory");
    assert_eq!(error.message, "store/ab\nPermission denied (os error 13)");
    assert_eq!(error.domain, Some("file system".to_owned()));
    assert_eq!(
        error.display(),
        "Failed to create directory\nA file system error occurred\n\
         store/ab\nPermission denied (os error 13)"
    );
}

#[test]
fn set_many_of_copies_that_succeeded_is_ok() {
    let (_, table) = create_file_table();
    assert!(table.set_many(vec![Ok(()), Ok(()), Ok(())]).is_ok());
    assert!(table.set_many(Vec::new()).is_ok());
}

#[test]
fn set_many_reports_each_failed_copy() {
    let (mut files, table) = create_file_table();
    let mut examples = create_example_files(&mut files);
    examples[1].1 = "source/missing-1.txt".to_owned();
    examples[4].1 = "source/missing-4.txt".to_owned();

    let error = set_many(&mut files, &table, examples.clone()).expect_err("two copies failed");

    assert_eq!(error.action, "set many files");
    assert_eq!(error.domain, Some("file system".to_owned()));
    assert_eq!(
        error.message,
        "3 succeeded and 2 failed:\n\
         Failed to copy file\nA file system error occurred\nsource/missing-1.txt not found\n\
         Failed to copy file\nA file system error occurred\nsource/missing-4.txt not found\n"
    );
    assert_eq!(get_all(&files, &table).len(), 3);
    assert!(get(&files, &table, examples[0].0).is_some());
    assert!(get(&files, &table, examples[1].0).is_none());
}
