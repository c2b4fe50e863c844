use flat_db::path::{extension, file_stem, join, with_extension};

#[test]
fn join_sets_a_separator_between() {
    assert_eq!(join("data", "ab.yml"), "data/ab.yml");
    assert_eq!(join("/var/db", "ab"), "/var/db/ab");
    assert_eq!(join("a.b/c", "d"), "a.b/c/d");
}

#[test]
fn join_below_a_directory_that_ends_in_a_separator() {
    assert_eq!(join("data/", "ab.yml"), "data/ab.yml");
    assert_eq!(join("/", "ab.yml"), "/ab.yml");
}

#[test]
fn join_below_the_empty_path_is_the_name() {
    assert_eq!(join("", "ab.yml"), "ab.yml");
    assert_eq!(join("", ""), "");
    assert_eq!(join("dir", ""), "dir/");
}

#[test]
fn join_keeps_text_outside_ascii() {
    assert_eq!(join("données/été", "ab.yml"), "données/été/ab.yml");
}

#[test]
fn with_extension_replaces_the_extension() {
    assert_eq!(with_extension("chunk.yml", "lock"), "chunk.lock");
    assert_eq!(with_extension("/tmp/db/ab.yml", "lock"), "/tmp/db/ab.lock");
    assert_eq!(with_extension("archive.tar.gz", "lock"), "archive.tar.lock");
    assert_eq!(with_extension("été.yml", "lock"), "été.lock");
}

#[test]
fn with_extension_adds_one_where_there_is_none() {
    assert_eq!(with_extension("chunk", "lock"), "chunk.lock");
    assert_eq!(with_extension("dir.d/chunk", "lock"), "dir.d/chunk.lock");
    assert_eq!(with_extension(".hidden", "lock"), ".hidden.lock");
    assert_eq!(with_extension("dir/.hidden", "lock"), "dir/.hidden.lock");
}

#[test]
fn with_extension_after_a_closing_dot() {
    assert_eq!(with_extension("chunk.", "lock"), "chunk.lock");
}

#[test]
fn file_stem_and_extension_part_at_the_last_dot() {
    assert_eq!(file_stem("dir/abcd.txt"), "abcd");
    assert_eq!(extension("dir/abcd.txt"), "txt");
    assert_eq!(file_stem("abcd.tar.gz"), "abcd.tar");
    assert_eq!(extension("abcd.tar.gz"), "gz");
    assert_eq!(file_stem("a.b/abcd"), "abcd");
    assert_eq!(extension("a.b/abcd"), "");
}

#[test]
fn file_stem_of_names_without_extension() {
    assert_eq!(file_stem("abcd"), "abcd");
    assert_eq!(extension("abcd"), "");
    assert_eq!(file_stem(".txt"), ".txt");
    assert_eq!(extension(".txt"), "");
    assert_eq!(file_stem("dir/.txt"), ".txt");
    assert_eq!(extension("dir/.txt"), "");
    assert_eq!(file_stem("abcd."), "abcd");
    assert_eq!(extension("abcd."), "");
    assert_eq!(file_stem(""), "");
    assert_eq!(extension(""), "");
}

#[test]
fn path_functions_agree_with_std_on_plain_paths() {
    let texts = ["dir/abcd.txt", "abcd.tar.gz", "a.b/abcd", "abcd", ".txt", "dir/.txt", "x/y.z/w.v"];
    for text in texts {
        let path = std::path::Path::new(text);
        let stem = path.file_stem().map(|s| s.to_string_lossy().to_string()).unwrap_or_default();
        let ext = path.extension().map(|s| s.to_string_lossy().to_string()).unwrap_or_default();
        assert_eq!(file_stem(text), stem);
        assert_eq!(extension(text), ext);
        assert_eq!(
            with_extension(text, "lock"),
            path.with_extension("lock").to_string_lossy().to_string()
        );
        assert_eq!(
            join(text, "name.yml"),
            path.join("name.yml").to_string_lossy().to_string()
        );
    }
}
