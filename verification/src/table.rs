//! A table of records by key, one file for each shard of keys.

use std::marker::PhantomData;
use vstd::prelude::*;

use crate::chunk::{
    ascending, keyed, lemma_drop_last, lookup, merged, stored_keys, to_map, Chunk,
};
use crate::error::{ErrorSource, TableError, TableOperation};
use crate::hash::{hex_text, lemma_hex_text_apart, lemma_hex_text_plain};
use crate::lock::{get_lock_path, lock_path, LockConfig};
use crate::path::{
    after_last, extension, extension_of, join, joined, lemma_after_last_absent,
    lemma_after_last_bound, lemma_after_last_concat, lemma_joined_apart, replaced_extension,
    stem_end, with_extension,
};

verus! {

/// The shard of a key: its first `width` bytes.
pub open spec fn shard_of(key: Seq<u8>, width: nat) -> Seq<u8> {
    key.take(width as int)
}

/// What a shard file holds; an absent file holds nothing.
pub open spec fn contents<T>(shard: Option<Map<Seq<u8>, T>>) -> Map<Seq<u8>, T> {
    match shard {
        Some(records) => records,
        None => Map::empty(),
    }
}

/// A shard as it was read: absent, or present with its records.
pub open spec fn read<const K: usize, T>(shard: Option<Chunk<K, T>>) -> Option<Map<Seq<u8>, T>> {
    match shard {
        Some(chunk) => Some(chunk@),
        None => None,
    }
}

/// The record that a shard holds for `key`.
pub open spec fn shard_get<T>(shard: Option<Map<Seq<u8>, T>>, key: Seq<u8>) -> Option<T> {
    lookup(contents(shard), key)
}

/// What a shard holds after `value` was set for `key`.
pub open spec fn shard_set<T>(shard: Option<Map<Seq<u8>, T>>, key: Seq<u8>, value: T) -> Map<
    Seq<u8>,
    T,
> {
    contents(shard).insert(key, value)
}

/// What is written back when `key` is removed from a shard: the records
/// without it where it had one, and nothing where it had none.
pub open spec fn shard_remove<T>(shard: Option<Map<Seq<u8>, T>>, key: Seq<u8>) -> Option<
    Map<Seq<u8>, T>,
> {
    if contents(shard).contains_key(key) {
        Some(contents(shard).remove(key))
    } else {
        None
    }
}

/// The records of `items` whose keys belong to `shard`.
pub open spec fn part<T>(items: Map<Seq<u8>, T>, shard: Seq<u8>, width: nat) -> Map<Seq<u8>, T> {
    items.restrict(Set::new(|key: Seq<u8>| shard_of(key, width) == shard))
}

/// Each shard of `chunks` holds the records of `items` that belong to it, and
/// there is a shard for each key of `items`, and no other.
pub open spec fn grouped<const K: usize, T>(
    chunks: Map<Seq<u8>, Chunk<K, T>>,
    items: Map<Seq<u8>, T>,
    width: nat,
) -> bool {
    &&& forall|shard: Seq<u8>|
        chunks.contains_key(shard) <==> exists|key: Seq<u8>|
            items.contains_key(key) && shard_of(key, width) == shard
    &&& forall|shard: Seq<u8>|
        chunks.contains_key(shard) ==> (#[trigger] chunks[shard])@ == part(items, shard, width)
}

/// The mappings of `shards` laid over one another in their order, a later
/// one over an earlier one.
pub open spec fn union_all<T>(shards: Seq<Map<Seq<u8>, T>>) -> Map<Seq<u8>, T>
    decreases shards.len(),
{
    if shards.len() == 0 {
        Map::empty()
    } else {
        union_all(shards.drop_last()).union_prefer_right(shards.last())
    }
}

/// The views of chunks.
pub open spec fn views<const K: usize, T>(chunks: Seq<Chunk<K, T>>) -> Seq<Map<Seq<u8>, T>> {
    Seq::new(chunks.len(), |i: int| chunks[i]@)
}

/// How the work on one shard of a batch ended: with the number of records
/// stored, with an error, or without reaching its end; then the report of that
/// says why.
pub type Outcome = Result<Result<usize, TableError>, String>;

/// The error that the outcome of one shard stands for, if it is one.
pub open spec fn failure(outcome: Outcome) -> Option<TableError> {
    match outcome {
        Ok(Ok(_)) => None,
        Ok(Err(error)) => Some(error),
        Err(report) => Some(
            TableError {
                operation: TableOperation::JoinTask,
                path: None,
                source: ErrorSource::Join(report),
            },
        ),
    }
}

/// The errors among the outcomes, in their order.
pub open spec fn failures(outcomes: Seq<Outcome>) -> Seq<TableError>
    decreases outcomes.len(),
{
    if outcomes.len() == 0 {
        Seq::empty()
    } else {
        match failure(outcomes.last()) {
            Some(error) => failures(outcomes.drop_last()).push(error),
            None => failures(outcomes.drop_last()),
        }
    }
}

/// The records stored by the shards that succeeded, all together.
pub open spec fn total_added(outcomes: Seq<Outcome>) -> nat
    decreases outcomes.len(),
{
    if outcomes.len() == 0 {
        0
    } else {
        total_added(outcomes.drop_last()) + (match outcomes.last() {
            Ok(Ok(added)) => added as nat,
            _ => 0,
        })
    }
}

/// A count as far as a `usize` can hold it.
pub open spec fn capped(count: nat) -> usize {
    if count <= usize::MAX {
        count as usize
    } else {
        usize::MAX
    }
}

/// The name of the file of a shard.
pub open spec fn chunk_name(shard: Seq<u8>) -> Seq<char> {
    hex_text(shard) + ".yml"@
}

/// The path of the file of a shard below `directory`.
pub open spec fn chunk_path(directory: Seq<char>, shard: Seq<u8>) -> Seq<char> {
    joined(directory, chunk_name(shard))
}

/// The path at which the new content of a file is written before it takes
/// the place of the file: the path of the file with `tmp` for its extension.
pub open spec fn temp_path(resource: Seq<char>) -> Seq<char> {
    replaced_extension(resource, "tmp"@)
}

/// The name of the marker that locks a shard.
pub open spec fn lock_name(shard: Seq<u8>) -> Seq<char> {
    hex_text(shard) + ".lock"@
}

/// A table of records of type `T` by keys of `K` bytes, in shards by the
/// first `C` bytes of the key, below one directory.
#[derive(Debug)]
pub struct Table<const K: usize, const C: usize, T> {
    directory: String,
    locking: LockConfig,
    phantom: PhantomData<T>,
}

impl<const K: usize, const C: usize, T> Default for Table<K, C, T> {
    /// The table below the empty path, which is the working directory.
    fn default() -> (table: Self)
        ensures
            table.root() == Seq::<char>::empty(),
            table.waiting() == LockConfig::standard(),
    {
        Table::new(String::new())
    }
}

impl<const K: usize, const C: usize, T> Table<K, C, T> {
    /// The directory that holds the shard files.
    pub closed spec fn root(&self) -> Seq<char> {
        self.directory@
    }

    /// How the table waits for the locks on its shards.
    pub closed spec fn waiting(&self) -> LockConfig {
        self.locking
    }

    /// The table below `directory`, which waits for locks as long as
    /// [`LockConfig::default`] says.
    pub fn new(directory: String) -> (table: Self)
        ensures
            table.root() == directory@,
            table.waiting() == LockConfig::standard(),
    {
        Table { directory, locking: LockConfig::default(), phantom: PhantomData }
    }

    /// The same table with another way of waiting for locks.
    pub fn with_lock_config(self, config: LockConfig) -> (table: Self)
        ensures
            table.root() == self.root(),
            table.waiting() == config,
    {
        Table { directory: self.directory, locking: config, phantom: PhantomData }
    }

    /// How the table waits for the locks on its shards.
    pub fn lock_config(&self) -> (config: LockConfig)
        ensures
            config == self.waiting(),
    {
        self.locking
    }

    /// The path of the marker that locks the file of a shard.
    pub fn get_lock_path(&self, hash: crate::hash::Hash<C>) -> (path: String)
        ensures
            path@ == lock_path(chunk_path(self.root(), hash@)),
    {
        get_lock_path(self.get_chunk_path(hash).as_str())
    }

    /// The path at which the new content of the file of a shard is written
    /// before it takes the place of the file, so that no reader finds a file
    /// that is half written.
    pub fn get_temp_path(&self, hash: crate::hash::Hash<C>) -> (path: String)
        ensures
            path@ == temp_path(chunk_path(self.root(), hash@)),
    {
        get_temp_path(self.get_chunk_path(hash).as_str())
    }

    /// The directory that holds the shard files.
    pub fn directory(&self) -> (directory: &String)
        ensures
            directory@ == self.root(),
    {
        &self.directory
    }

    /// The path of the file of a shard.
    pub fn get_chunk_path(&self, hash: crate::hash::Hash<C>) -> (path: String)
        ensures
            path@ == chunk_path(self.root(), hash@),
    {
        let mut name = hash.to_hex();
        name.append(".yml");
        join(self.directory.as_str(), name.as_str())
    }

    /// The record of `hash` in its shard as it was read.
    pub fn get(&self, chunk: Option<Chunk<K, T>>, hash: crate::hash::Hash<K>) -> (item: Option<T>)
        ensures
            item == shard_get(read(chunk), hash@),
    {
        match chunk {
            Some(mut records) => records.remove(&hash),
            None => None,
        }
    }

    /// The shard to write so that `hash` has the record `item`.
    pub fn set(&self, chunk: Option<Chunk<K, T>>, hash: crate::hash::Hash<K>, item: T) -> (written:
        Chunk<K, T>)
        ensures
            written@ == shard_set(read(chunk), hash@, item),
    {
        let mut records = match chunk {
            Some(records) => records,
            None => Chunk::new(),
        };
        records.insert(hash, item);
        records
    }

    /// Takes the record of `hash` out of its shard. Returns the record, and
    /// the shard to write where there was one to take out.
    pub fn remove(&self, chunk: Option<Chunk<K, T>>, hash: crate::hash::Hash<K>) -> (taken: (
        Option<T>,
        Option<Chunk<K, T>>,
    ))
        ensures
            taken.0 == shard_get(read(chunk), hash@),
            read(taken.1) == shard_remove(read(chunk), hash@),
    {
        match chunk {
            Some(mut records) => {
                match records.remove(&hash) {
                    Some(item) => (Some(item), Some(records)),
                    None => (None, None),
                }
            },
            None => (None, None),
        }
    }

    /// Whether an entry of the table's directory is the file of a shard: a
    /// regular file with the extension of shard files.
    pub fn is_chunk_file(&self, path: &str, is_file: bool) -> (chosen: bool)
        ensures
            chosen == (is_file && extension_of(path@) == "yml"@),
    {
        if !is_file {
            return false;
        }
        let found = extension(path);
        found == "yml".to_owned()
    }

    /// All records of the shards that were read, in key order. Where two
    /// shards hold one key, the record of the later shard stays.
    pub fn get_all(&self, chunks: Vec<Chunk<K, T>>) -> (items: Chunk<K, T>)
        ensures
            items@ == union_all(views(chunks@)),
    {
        let mut items = Chunk::new();
        let ghost shards = views(chunks@);
        proof {
            assert(shards.take(0) =~= Seq::<Map<Seq<u8>, T>>::empty());
        }
        for chunk in iter: chunks
            invariant
                iter.seq() == chunks@,
                shards == views(chunks@),
                items@ == union_all(shards.take(iter.index() as int)),
        {
            proof {
                let i = iter.index() as int;
                assert(shards.take(i + 1).drop_last() =~= shards.take(i));
                assert(shards.take(i + 1).last() == chunk@);
            }
            items.extend(chunk);
        }
        proof {
            assert(shards.take(chunks@.len() as int) =~= shards);
        }
        items
    }

    /// The result of a batch, given how the work on each of its shards ended.
    /// Where every shard succeeded it is the number of records stored, all
    /// together; else it is one error that holds the errors of the shards that
    /// failed, in their order, and counts the shards of both kinds.
    pub fn set_many(&self, outcomes: Vec<Outcome>) -> (result: Result<usize, TableError>)
        ensures
            match result {
                Ok(added) => failures(outcomes@).len() == 0 && added == capped(
                    total_added(outcomes@),
                ),
                Err(error) => {
                    &&& failures(outcomes@).len() > 0
                    &&& error.operation == TableOperation::SetMany
                    &&& error.path is None
                    &&& error.source matches ErrorSource::Batch { succeeded, failed, errors }
                    &&& errors@ == failures(outcomes@)
                    &&& failed == errors@.len()
                    &&& succeeded == outcomes@.len() - errors@.len()
                },
            },
    {
        let chunk_count = outcomes.len();
        let mut added: usize = 0;
        let mut errors: Vec<TableError> = Vec::new();
        proof {
            assert(outcomes@.take(0) =~= Seq::<Outcome>::empty());
        }
        for outcome in iter: outcomes
            invariant
                iter.seq() == outcomes@,
                chunk_count == outcomes@.len(),
                errors@ == failures(outcomes@.take(iter.index() as int)),
                errors@.len() <= iter.index(),
                added == capped(total_added(outcomes@.take(iter.index() as int))),
        {
            proof {
                let i = iter.index() as int;
                assert(outcomes@.take(i + 1).drop_last() =~= outcomes@.take(i));
                assert(outcomes@.take(i + 1).last() == outcome);
            }
            match outcome {
                Ok(Ok(count)) => {
                    added = added.saturating_add(count);
                },
                Ok(Err(error)) => {
                    errors.push(error);
                },
                Err(report) => {
                    errors.push(TableError::join(report));
                },
            }
        }
        proof {
            assert(outcomes@.take(outcomes@.len() as int) =~= outcomes@);
        }
        if errors.len() == 0 {
            Ok(added)
        } else {
            let failed = errors.len();
            let succeeded = chunk_count - failed;
            Err(TableError::batch(succeeded, failed, errors))
        }
    }
}

/// The path at which the new content of `resource` is written before it
/// takes the place of `resource`.
pub fn get_temp_path(resource: &str) -> (path: String)
    ensures
        path@ == temp_path(resource@),
{
    with_extension(resource, "tmp")
}

/// The shard that `hash` belongs to.
pub fn get_chunk_hash<const K: usize, const C: usize>(hash: crate::hash::Hash<K>) -> (shard:
    crate::hash::Hash<C>)
    requires
        C <= K,
    ensures
        shard@ == shard_of(hash@, C as nat),
{
    hash.truncate::<C>().unwrap()
}

/// Parts the records by the shard of their keys.
pub fn group_by_chunk<const K: usize, const C: usize, T>(items: Chunk<K, T>) -> (chunks: Chunk<
    C,
    Chunk<K, T>,
>)
    requires
        C <= K,
    ensures
        grouped(chunks@, items@, C as nat),
{
    let ghost width = C as nat;
    let pairs = items.into_vec();
    let ghost entries = keyed(pairs@);
    let mut chunks: Chunk<C, Chunk<K, T>> = Chunk::new();
    proof {
        assert(entries.take(0) =~= Seq::<(Seq<u8>, T)>::empty());
        assert(to_map(entries.take(0)) =~= Map::<Seq<u8>, T>::empty());
    }
    for pair in iter: pairs
        invariant
            C <= K,
            width == C as nat,
            iter.seq() == pairs@,
            entries == keyed(pairs@),
            ascending(entries),
            grouped(chunks@, to_map(entries.take(iter.index() as int)), width),
    {
        let ghost i = iter.index() as int;
        let ghost done = to_map(entries.take(i));
        let ghost before = chunks@;
        proof {
            let longer = entries.take(i + 1);
            assert(longer.drop_last() =~= entries.take(i));
            assert(longer.last() == (pair.0@, pair.1));
            assert(ascending(longer)) by {
                assert forall|a: int, b: int| 0 <= a < b < longer.len() implies crate::hash::lex_lt(
                    longer[a].0,
                    longer[b].0,
                ) by {
                    assert(crate::hash::lex_lt(entries[a].0, entries[b].0));
                }
            }
            lemma_drop_last(longer);
        }
        let (hash, item) = pair;
        let chunk_hash: crate::hash::Hash<C> = get_chunk_hash(hash);
        let mut chunk = match chunks.remove(&chunk_hash) {
            Some(chunk) => chunk,
            None => Chunk::new(),
        };
        proof {
            if !before.contains_key(chunk_hash@) {
                assert(part(done, chunk_hash@, width) =~= Map::<Seq<u8>, T>::empty()) by {
                    assert forall|key: Seq<u8>| !part(done, chunk_hash@, width).contains_key(
                        key,
                    ) by {
                        if done.contains_key(key) && shard_of(key, width) == chunk_hash@ {
                            assert(before.contains_key(chunk_hash@));
                        }
                    }
                }
            }
        }
        chunk.insert(hash, item);
        let ghost group = chunk;
        chunks.insert(chunk_hash, chunk);
        proof {
            let after = done.insert(hash@, item);
            assert(chunks@ =~= before.insert(chunk_hash@, group));
            assert(group@ =~= part(after, chunk_hash@, width));
            assert forall|shard: Seq<u8>| chunks@.contains_key(shard) <==> exists|key: Seq<u8>|
                after.contains_key(key) && shard_of(key, width) == shard by {
                if chunks@.contains_key(shard) {
                    if shard == chunk_hash@ {
                        assert(after.contains_key(hash@) && shard_of(hash@, width) == shard);
                    } else {
                        let key = choose|key: Seq<u8>|
                            done.contains_key(key) && shard_of(key, width) == shard;
                        assert(after.contains_key(key) && shard_of(key, width) == shard);
                    }
                }
                if exists|key: Seq<u8>| after.contains_key(key) && shard_of(key, width) == shard {
                    let key = choose|key: Seq<u8>|
                        after.contains_key(key) && shard_of(key, width) == shard;
                    if key != hash@ {
                        assert(done.contains_key(key) && shard_of(key, width) == shard);
                    }
                }
            }
            assert forall|shard: Seq<u8>| chunks@.contains_key(shard) implies (
            #[trigger] chunks@[shard])@ == part(after, shard, width) by {
                if shard != chunk_hash@ {
                    assert(before.contains_key(shard));
                    assert(part(after, shard, width) =~= part(done, shard, width));
                }
            }
        }
    }
    proof {
        assert(entries.take(pairs@.len() as int) =~= entries);
    }
    chunks
}

/// Puts `new_chunk` into a shard as it was read. Returns the shard to
/// write and the number of records that were stored.
pub fn update_chunk<const K: usize, T>(
    chunk: Option<Chunk<K, T>>,
    new_chunk: Chunk<K, T>,
    replace: bool,
) -> (updated: (Chunk<K, T>, usize))
    ensures
        updated.0@ == merged(contents(read(chunk)), new_chunk@, replace),
        stored_keys(contents(read(chunk)), new_chunk@, replace).finite(),
        updated.1 == stored_keys(contents(read(chunk)), new_chunk@, replace).len(),
{
    let mut records = match chunk {
        Some(records) => records,
        None => Chunk::new(),
    };
    let added = records.merge(new_chunk, replace);
    (records, added)
}

/// The marker that locks the file of a shard stands beside that file, under
/// the name of the shard with `lock` for its extension.
pub proof fn lemma_lock_beside_chunk(directory: Seq<char>, shard: Seq<u8>)
    requires
        shard.len() > 0,
    ensures
        lock_path(chunk_path(directory, shard)) == joined(directory, lock_name(shard)),
{
    reveal_strlit(".yml");
    reveal_strlit(".lock");
    reveal_strlit("lock");
    let hex = hex_text(shard);
    let name = chunk_name(shard);
    let prefix = if directory.len() == 0 {
        Seq::<char>::empty()
    } else if directory.last() == '/' {
        directory
    } else {
        directory + seq!['/']
    };
    let path = chunk_path(directory, shard);
    assert(path =~= prefix + name);
    lemma_hex_text_plain(shard);
    lemma_after_last_absent(hex, '.');
    lemma_after_last_absent(hex, '/');
    lemma_after_last_concat(hex, ".yml"@, '.');
    lemma_after_last_concat(hex, ".yml"@, '/');
    assert(after_last(".yml"@, '.') == 1) by {
        reveal_with_fuel(after_last, 5);
        assert(".yml"@.drop_last() =~= seq!['.', 'y', 'm']);
        assert(seq!['.', 'y', 'm'].drop_last() =~= seq!['.', 'y']);
        assert(seq!['.', 'y'].drop_last() =~= seq!['.']);
    }
    assert(after_last(".yml"@, '/') == 0) by {
        lemma_after_last_absent(".yml"@, '/');
    }
    lemma_after_last_concat(prefix, name, '.');
    lemma_after_last_concat(prefix, name, '/');
    lemma_after_last_bound(prefix, '/');
    assert(after_last(path, '.') == prefix.len() + hex.len() + 1);
    assert(after_last(path, '/') <= prefix.len());
    assert(stem_end(path) == prefix.len() + hex.len());
    assert(path.take(stem_end(path) as int) =~= prefix + hex);
    assert(lock_path(path) =~= prefix + (hex + ".lock"@));
    assert(joined(directory, lock_name(shard)) =~= prefix + (hex + ".lock"@));
}

/// Different shards of one width have different files and different
/// markers, so that a lock on one shard leaves the others free; one shard has
/// one file and one marker.
pub proof fn lemma_shard_paths_apart(directory: Seq<char>, first: Seq<u8>, second: Seq<u8>)
    requires
        first.len() == second.len(),
        first.len() > 0,
    ensures
        first != second ==> chunk_path(directory, first) != chunk_path(directory, second),
        first != second ==> lock_path(chunk_path(directory, first)) != lock_path(
            chunk_path(directory, second),
        ),
        first == second ==> lock_path(chunk_path(directory, first)) == lock_path(
            chunk_path(directory, second),
        ),
{
    if first != second {
        lemma_hex_text_apart(first, second);
        let a = hex_text(first);
        let b = hex_text(second);
        assert(chunk_name(first) != chunk_name(second)) by {
            if a + ".yml"@ == b + ".yml"@ {
                assert((a + ".yml"@).take(a.len() as int) =~= a);
                assert((b + ".yml"@).take(b.len() as int) =~= b);
            }
        }
        assert(lock_name(first) != lock_name(second)) by {
            if a + ".lock"@ == b + ".lock"@ {
                assert((a + ".lock"@).take(a.len() as int) =~= a);
                assert((b + ".lock"@).take(b.len() as int) =~= b);
            }
        }
        lemma_joined_apart(directory, chunk_name(first), chunk_name(second));
        lemma_joined_apart(directory, lock_name(first), lock_name(second));
        lemma_lock_beside_chunk(directory, first);
        lemma_lock_beside_chunk(directory, second);
    }
}

} // verus!
