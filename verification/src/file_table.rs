//! A table of files by key: one directory for each shard of keys, one file
//! for each key.

use vstd::prelude::*;
use vstd::utf8::encode_utf8;

use crate::chunk::{collect, Chunk};
use crate::hash::{hex_text, lemma_hex_text_apart, parse_hex};
use crate::path::{
    extension, extension_of, file_stem, join, joined, lemma_joined_ends_with_name, stem_of,
};
use crate::table::{get_chunk_hash, shard_of};
use crate::text::{decimal_text, push_decimal};

verus! {

/// A failed operation on a table of files: what was tried, the report of the
/// failure, and the domain in which it lies.
#[derive(Debug)]
pub struct FileError {
    pub action: String,
    pub message: String,
    pub domain: Option<String>,
}

/// The step of an operation on a table of files that failed.
#[derive(Clone, Copy, Debug, PartialEq, Eq, Structural)]
pub enum FileAction {
    ReadDirectory,
    ReadEntry,
    ReadChunkDirectory,
    ReadChunkEntry,
    CreateDirectory,
    CopyFile,
    SetManyFiles,
}

impl FileAction {
    /// The step in words, as it follows "Failed to".
    pub open spec fn wording(self) -> Seq<char> {
        match self {
            FileAction::ReadDirectory => "read directory"@,
            FileAction::ReadEntry => "read entry"@,
            FileAction::ReadChunkDirectory => "read chunk directory"@,
            FileAction::ReadChunkEntry => "read chunk entry"@,
            FileAction::CreateDirectory => "create directory"@,
            FileAction::CopyFile => "copy file"@,
            FileAction::SetManyFiles => "set many files"@,
        }
    }

    /// The step in words.
    pub fn as_str(&self) -> (text: &'static str)
        ensures
            text@ == self.wording(),
    {
        match self {
            FileAction::ReadDirectory => "read directory",
            FileAction::ReadEntry => "read entry",
            FileAction::ReadChunkDirectory => "read chunk directory",
            FileAction::ReadChunkEntry => "read chunk entry",
            FileAction::CreateDirectory => "create directory",
            FileAction::CopyFile => "copy file",
            FileAction::SetManyFiles => "set many files",
        }
    }
}

/// An entry of a shard directory: its path, and whether it is a regular file.
#[derive(Debug)]
pub struct FileEntry {
    pub path: String,
    pub is_file: bool,
}

/// What to do to store a file: the directory to create first, if it is not
/// there, and the path to copy the file to.
#[derive(Debug)]
pub struct CopyPlan {
    pub create: Option<String>,
    pub destination: String,
}

/// The lines in which a failure is shown: what was tried, the domain if
/// there is one, then the report.
pub open spec fn error_lines(
    action: Seq<char>,
    message: Seq<char>,
    domain: Option<Seq<char>>,
) -> Seq<char> {
    "Failed to "@ + action + "\n"@ + (match domain {
        Some(domain) => "A "@ + domain + " error occurred\n"@,
        None => Seq::empty(),
    }) + message
}

/// The view of an optional text.
pub open spec fn text_of(text: Option<String>) -> Option<Seq<char>> {
    match text {
        Some(text) => Some(text@),
        None => None,
    }
}

/// The directory of a shard below `directory`.
pub open spec fn shard_dir(directory: Seq<char>, shard: Seq<u8>) -> Seq<char> {
    joined(directory, hex_text(shard))
}

/// The name of the file of `key` with `extension`.
pub open spec fn item_name(key: Seq<u8>, extension: Seq<char>) -> Seq<char> {
    hex_text(key) + seq!['.'] + extension
}

/// The path of the file of `key`: below the directory of its shard, named by
/// the key.
pub open spec fn item_path(
    directory: Seq<char>,
    extension: Seq<char>,
    key: Seq<u8>,
    width: nat,
) -> Seq<char> {
    joined(shard_dir(directory, shard_of(key, width)), item_name(key, extension))
}

/// The key that an entry of a shard directory is the file of: it is a
/// regular file, has the extension of the table, and its stem is a key of
/// `width` bytes in hexadecimal.
pub open spec fn item_key(
    path: Seq<char>,
    is_file: bool,
    extension: Seq<char>,
    width: nat,
) -> Option<Seq<u8>> {
    if is_file && extension_of(path) == extension {
        match parse_hex(encode_utf8(stem_of(path)), width) {
            Ok(key) => Some(key),
            Err(_) => None,
        }
    } else {
        None
    }
}

/// The files of keys among `entries`, each key with the path of its file, in
/// the order of the entries.
pub open spec fn picked(entries: Seq<FileEntry>, extension: Seq<char>, width: nat) -> Seq<
    (Seq<u8>, String),
>
    decreases entries.len(),
{
    if entries.len() == 0 {
        Seq::empty()
    } else {
        let rest = picked(entries.drop_last(), extension, width);
        match item_key(entries.last().path@, entries.last().is_file, extension, width) {
            Some(key) => rest.push((key, entries.last().path)),
            None => rest,
        }
    }
}

/// The reports of `errors`, each in its lines and closed by a line break.
pub open spec fn reports(errors: Seq<FileError>) -> Seq<char>
    decreases errors.len(),
{
    if errors.len() == 0 {
        Seq::empty()
    } else {
        reports(errors.drop_last()) + errors.last().lines() + "\n"@
    }
}

/// The errors among the outcomes, in their order.
pub open spec fn file_failures(outcomes: Seq<Result<(), FileError>>) -> Seq<FileError>
    decreases outcomes.len(),
{
    if outcomes.len() == 0 {
        Seq::empty()
    } else {
        match outcomes.last() {
            Err(error) => file_failures(outcomes.drop_last()).push(error),
            Ok(_) => file_failures(outcomes.drop_last()),
        }
    }
}

/// Calls `rogue_logging::Error::display` on an error with these fields, no
/// status code and no backtrace. The crate is built without its `log`
/// feature, where that function joins by line breaks: "Failed to " and the
/// action; "A ", the domain and " error occurred" if there is a domain; the
/// message.
#[verifier::external_body]
fn display_lines(action: &String, message: &String, domain: &Option<String>) -> (lines: String)
    ensures
        lines@ == error_lines(action@, message@, text_of(*domain)),
{
    rogue_logging::Error {
        action: action.clone(),
        message: message.clone(),
        domain: domain.clone(),
        status_code: None,
        backtrace: None,
    }.display()
}

impl FileError {
    /// A failure of the file system at `action`, with its report.
    pub fn new(action: FileAction, message: String) -> (error: Self)
        ensures
            error.action@ == action.wording(),
            error.message == message,
            text_of(error.domain) == Some("file system"@),
    {
        FileError {
            action: action.as_str().to_owned(),
            message,
            domain: Some("file system".to_owned()),
        }
    }

    /// The failure to create `directory`: its report names the directory on a
    /// line of its own, before the report of the file system.
    pub fn create_directory(directory: &str, report: &str) -> (error: Self)
        ensures
            error.action@ == FileAction::CreateDirectory.wording(),
            error.message@ == directory@ + "\n"@ + report@,
            text_of(error.domain) == Some("file system"@),
    {
        let mut message = directory.to_owned();
        message.append("\n");
        message.append(report);
        FileError::new(FileAction::CreateDirectory, message)
    }

    /// The failure in lines.
    pub open spec fn lines(self) -> Seq<char> {
        error_lines(self.action@, self.message@, text_of(self.domain))
    }

    /// The failure in lines.
    pub fn display(&self) -> (lines: String)
        ensures
            lines@ == self.lines(),
    {
        display_lines(&self.action, &self.message, &self.domain)
    }
}

/// A table of files by keys of `K` bytes, in shards by the first `C` bytes of
/// the key, below one directory.
#[derive(Debug)]
pub struct FileTable<const K: usize, const C: usize> {
    directory: String,
    extension: String,
}

impl<const K: usize, const C: usize> FileTable<K, C> {
    /// The directory that holds the shard directories.
    pub closed spec fn root(&self) -> Seq<char> {
        self.directory@
    }

    /// The extension of the files of the table.
    pub closed spec fn suffix(&self) -> Seq<char> {
        self.extension@
    }

    /// The table below `directory`, whose files have `extension`.
    pub fn new(directory: String, extension: String) -> (table: Self)
        ensures
            table.root() == directory@,
            table.suffix() == extension@,
    {
        FileTable { directory, extension }
    }

    /// The directory that holds the shard directories.
    pub fn directory(&self) -> (directory: &String)
        ensures
            directory@ == self.root(),
    {
        &self.directory
    }

    /// The extension of the files of the table.
    pub fn extension(&self) -> (extension: &String)
        ensures
            extension@ == self.suffix(),
    {
        &self.extension
    }

    /// The directory of the shard of `hash`.
    pub fn get_dir(&self, hash: crate::hash::Hash<K>) -> (path: String)
        requires
            C <= K,
        ensures
            path@ == shard_dir(self.root(), shard_of(hash@, C as nat)),
    {
        let chunk_hash: crate::hash::Hash<C> = get_chunk_hash(hash);
        join(self.directory.as_str(), chunk_hash.to_hex().as_str())
    }

    /// The path of the file of `hash`.
    pub fn get_path(&self, hash: crate::hash::Hash<K>) -> (path: String)
        requires
            C <= K,
        ensures
            path@ == item_path(self.root(), self.suffix(), hash@, C as nat),
    {
        let directory = self.get_dir(hash);
        let mut name = hash.to_hex();
        proof {
            reveal_strlit(".");
        }
        name.append(".");
        name.append(self.extension.as_str());
        assert(name@ =~= item_name(hash@, self.suffix()));
        join(directory.as_str(), name.as_str())
    }

    /// The path of the file of `hash`, where `is_file` says that a regular
    /// file stands at that path.
    pub fn get(&self, hash: crate::hash::Hash<K>, is_file: bool) -> (found: Option<String>)
        requires
            C <= K,
        ensures
            is_file ==> found is Some && found.unwrap()@ == item_path(
                self.root(),
                self.suffix(),
                hash@,
                C as nat,
            ),
            !is_file ==> found is None,
    {
        if is_file {
            Some(self.get_path(hash))
        } else {
            None
        }
    }

    /// The key that an entry of a shard directory is the file of, if it is one.
    pub fn key_of(&self, entry: &FileEntry) -> (key: Option<crate::hash::Hash<K>>)
        ensures
            match key {
                Some(hash) => item_key(entry.path@, entry.is_file, self.suffix(), K as nat)
                    == Some(hash@),
                None => item_key(entry.path@, entry.is_file, self.suffix(), K as nat) is None,
            },
    {
        if !entry.is_file {
            return None;
        }
        if extension(entry.path.as_str()) != self.extension {
            return None;
        }
        let stem = file_stem(entry.path.as_str());
        match crate::hash::Hash::<K>::from_string(stem.as_str()) {
            Ok(hash) => Some(hash),
            Err(_) => None,
        }
    }

    /// The paths of the files of the table by key, given the entries of its
    /// shard directories. Entries that are no file of a key are passed over.
    /// Where two entries are files of one key, the later one stays.
    pub fn get_all(&self, entries: Vec<FileEntry>) -> (paths: Chunk<K, String>)
        ensures
            paths@ == collect(picked(entries@, self.suffix(), K as nat)),
    {
        let mut paths = Chunk::new();
        let ghost width = K as nat;
        proof {
            assert(entries@.take(0) =~= Seq::<FileEntry>::empty());
        }
        for entry in iter: entries
            invariant
                iter.seq() == entries@,
                width == K as nat,
                paths@ == collect(picked(entries@.take(iter.index() as int), self.suffix(), width)),
        {
            proof {
                let i = iter.index() as int;
                assert(entries@.take(i + 1).drop_last() =~= entries@.take(i));
                assert(entries@.take(i + 1).last() == entry);
            }
            let ghost before = picked(entries@.take(iter.index() as int), self.suffix(), width);
            match self.key_of(&entry) {
                Some(hash) => {
                    proof {
                        assert(before.push((hash@, entry.path)).drop_last() =~= before);
                    }
                    paths.insert(hash, entry.path);
                },
                None => {},
            }
        }
        proof {
            assert(entries@.take(entries@.len() as int) =~= entries@);
        }
        paths
    }

    /// What to do to store the file of `hash`, where `dir_exists` says
    /// whether the directory of its shard is there.
    pub fn set(&self, hash: crate::hash::Hash<K>, dir_exists: bool) -> (plan: CopyPlan)
        requires
            C <= K,
        ensures
            plan.destination@ == item_path(self.root(), self.suffix(), hash@, C as nat),
            dir_exists ==> plan.create is None,
            !dir_exists ==> text_of(plan.create) == Some(
                shard_dir(self.root(), shard_of(hash@, C as nat)),
            ),
    {
        let destination = self.get_path(hash);
        let create = if dir_exists {
            None
        } else {
            Some(self.get_dir(hash))
        };
        CopyPlan { create, destination }
    }

    /// The result of storing many files, given how the copy of each ended.
    /// Where a copy failed it is one error that counts the copies of both
    /// kinds and holds the report of each failure.
    pub fn set_many(&self, outcomes: Vec<Result<(), FileError>>) -> (result: Result<(), FileError>)
        ensures
            match result {
                Ok(_) => file_failures(outcomes@).len() == 0,
                Err(error) => {
                    let errors = file_failures(outcomes@);
                    &&& errors.len() > 0
                    &&& error.action@ == FileAction::SetManyFiles.wording()
                    &&& text_of(error.domain) == Some("file system"@)
                    &&& error.message@ == decimal_text((outcomes@.len() - errors.len()) as nat)
                        + " succeeded and "@ + decimal_text(errors.len()) + " failed:\n"@
                        + reports(errors)
                },
            },
    {
        let total = outcomes.len();
        let mut error_count: usize = 0;
        let mut error_messages = String::new();
        proof {
            assert(outcomes@.take(0) =~= Seq::<Result<(), FileError>>::empty());
        }
        for outcome in iter: outcomes
            invariant
                iter.seq() == outcomes@,
                total == outcomes@.len(),
                error_count == file_failures(outcomes@.take(iter.index() as int)).len(),
                error_count <= iter.index(),
                error_messages@ == reports(file_failures(outcomes@.take(iter.index() as int))),
        {
            let ghost before = file_failures(outcomes@.take(iter.index() as int));
            proof {
                let i = iter.index() as int;
                assert(i < outcomes@.len());
                assert(outcomes@.take(i + 1).drop_last() =~= outcomes@.take(i));
                assert(outcomes@.take(i + 1).last() == outcome);
            }
            match outcome {
                Ok(_) => {},
                Err(error) => {
                    proof {
                        assert(before.push(error).drop_last() =~= before);
                    }
                    error_messages.append(error.display().as_str());
                    error_messages.append("\n");
                    error_count = error_count + 1;
                },
            }
        }
        proof {
            assert(outcomes@.take(outcomes@.len() as int) =~= outcomes@);
        }
        if error_count == 0 {
            return Ok(());
        }
        let ok_count = total - error_count;
        let mut message = String::new();
        push_decimal(&mut message, ok_count);
        message.append(" succeeded and ");
        push_decimal(&mut message, error_count);
        message.append(" failed:\n");
        message.append(error_messages.as_str());
        proof {
            assert(message@ =~= decimal_text(ok_count as nat) + " succeeded and "@ + decimal_text(
                error_count as nat,
            ) + " failed:\n"@ + error_messages@);
        }
        Err(FileError::new(FileAction::SetManyFiles, message))
    }
}

/// Different keys of one width have different files, whatever their shards,
/// so that a directory holds at most one file for each key.
pub proof fn lemma_item_paths_apart(
    directory: Seq<char>,
    extension: Seq<char>,
    first: Seq<u8>,
    second: Seq<u8>,
    width: nat,
)
    requires
        first.len() == second.len(),
        first != second,
    ensures
        item_path(directory, extension, first, width) != item_path(
            directory,
            extension,
            second,
            width,
        ),
{
    let one = item_name(first, extension);
    let other = item_name(second, extension);
    lemma_hex_text_apart(first, second);
    assert(one != other) by {
        if one == other {
            assert(one.take(hex_text(first).len() as int) =~= hex_text(first));
            assert(other.take(hex_text(second).len() as int) =~= hex_text(second));
        }
    }
    assert(one.len() == other.len());
    lemma_joined_ends_with_name(shard_dir(directory, shard_of(first, width)), one);
    lemma_joined_ends_with_name(shard_dir(directory, shard_of(second, width)), other);
}

} // verus!
