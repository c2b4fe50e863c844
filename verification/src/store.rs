//! The directory of a table as a mapping from shard to records, and what the
//! operations of a table do to it when no one else writes.
//!
//! A shard that is absent from the mapping has no file. Each operation reads
//! one shard, decides with a function of [`crate::table`], and writes the
//! shard back; the functions here put the three together.

use vstd::prelude::*;
use vstd::set_lib::{lemma_set_disjoint_lens, lemma_set_subset_finite};

use crate::chunk::{lookup, merged, stored_keys, Chunk};
use crate::table::{
    contents, grouped, part, shard_get, shard_of, shard_remove, shard_set, union_all,
};

verus! {

/// The shard files of a directory: the records of each shard that has a file.
pub type Store<T> = Map<Seq<u8>, Map<Seq<u8>, T>>;

/// The shard as reading its file gives it.
pub open spec fn shard_at<T>(store: Store<T>, shard: Seq<u8>) -> Option<Map<Seq<u8>, T>> {
    if store.contains_key(shard) {
        Some(store[shard])
    } else {
        None
    }
}

/// The record of `key`.
pub open spec fn get<T>(store: Store<T>, width: nat, key: Seq<u8>) -> Option<T> {
    shard_get(shard_at(store, shard_of(key, width)), key)
}

/// The directory after `value` was set for `key`.
pub open spec fn set<T>(store: Store<T>, width: nat, key: Seq<u8>, value: T) -> Store<T> {
    let shard = shard_of(key, width);
    store.insert(shard, shard_set(shard_at(store, shard), key, value))
}

/// The directory after `key` was removed.
pub open spec fn remove<T>(store: Store<T>, width: nat, key: Seq<u8>) -> Store<T> {
    let shard = shard_of(key, width);
    match shard_remove(shard_at(store, shard), key) {
        Some(records) => store.insert(shard, records),
        None => store,
    }
}

/// Some key of `items` belongs to `shard`.
pub open spec fn touches<T>(items: Map<Seq<u8>, T>, width: nat, shard: Seq<u8>) -> bool {
    exists|key: Seq<u8>| items.contains_key(key) && shard_of(key, width) == shard
}

/// The directory after `items` were set in one batch, every shard of which
/// succeeded.
pub open spec fn set_many<T>(
    store: Store<T>,
    width: nat,
    items: Map<Seq<u8>, T>,
    replace: bool,
) -> Store<T> {
    Map::new(
        |shard: Seq<u8>| store.contains_key(shard) || touches(items, width, shard),
        |shard: Seq<u8>|
            if touches(items, width, shard) {
                merged(contents(shard_at(store, shard)), part(items, shard, width), replace)
            } else {
                store[shard]
            },
    )
}

/// What reading the files of `shards` gives, in their order.
pub open spec fn read_all<T>(store: Store<T>, shards: Seq<Seq<u8>>) -> Seq<Map<Seq<u8>, T>> {
    Seq::new(shards.len(), |i: int| store[shards[i]])
}

/// All records of the directory, where its shard files are read in the order
/// of `shards`.
pub open spec fn get_all<T>(store: Store<T>, shards: Seq<Seq<u8>>) -> Map<Seq<u8>, T> {
    union_all(read_all(store, shards))
}

/// Each shard file holds only keys that belong to its shard.
pub open spec fn consistent<T>(store: Store<T>, width: nat) -> bool {
    forall|shard: Seq<u8>, key: Seq<u8>|
        store.contains_key(shard) && #[trigger] store[shard].contains_key(key) ==> shard_of(
            key,
            width,
        ) == shard
}

/// The keys of a batch whose records are stored: all of them where the batch
/// replaces, else those that had no record.
pub open spec fn stored<T>(
    store: Store<T>,
    width: nat,
    items: Map<Seq<u8>, T>,
    replace: bool,
) -> Set<Seq<u8>> {
    Set::new(
        |key: Seq<u8>| items.contains_key(key) && (replace || get(store, width, key) is None),
    )
}

/// The number of records that the work on `shards` stores, shard after shard.
pub open spec fn added_by<T>(
    store: Store<T>,
    width: nat,
    items: Map<Seq<u8>, T>,
    replace: bool,
    shards: Seq<Seq<u8>>,
) -> nat
    decreases shards.len(),
{
    if shards.len() == 0 {
        0
    } else {
        added_by(store, width, items, replace, shards.drop_last()) + stored_keys(
            contents(shard_at(store, shards.last())),
            part(items, shards.last(), width),
            replace,
        ).len()
    }
}

/// Two keys with the same first bytes belong to one shard, whatever else
/// they hold and whenever it is asked.
pub proof fn lemma_shard_is_stable(first: Seq<u8>, second: Seq<u8>, width: nat)
    requires
        width <= first.len(),
        width <= second.len(),
        forall|i: int| 0 <= i < width ==> first[i] == second[i],
    ensures
        shard_of(first, width) == shard_of(second, width),
{
    assert(shard_of(first, width) =~= shard_of(second, width));
}

/// After a record was set for a key, that record is the one found for it.
/// The file of its shard is there from then on, and no other file comes
/// into being.
pub proof fn lemma_get_after_set<T>(store: Store<T>, width: nat, key: Seq<u8>, value: T)
    ensures
        get(set(store, width, key, value), width, key) == Some(value),
        set(store, width, key, value).dom() == store.dom().insert(shard_of(key, width)),
{
    assert(set(store, width, key, value).dom() =~= store.dom().insert(shard_of(key, width)));
}

/// Setting a record leaves the records of all other keys as they were.
pub proof fn lemma_set_keeps_others<T>(
    store: Store<T>,
    width: nat,
    key: Seq<u8>,
    value: T,
    other: Seq<u8>,
)
    requires
        other != key,
    ensures
        get(set(store, width, key, value), width, other) == get(store, width, other),
{
}

/// Of two records set for one key, the later one is found, and the directory
/// is as if only the later one had been set.
pub proof fn lemma_last_write_wins<T>(
    store: Store<T>,
    width: nat,
    key: Seq<u8>,
    first: T,
    second: T,
)
    ensures
        get(set(set(store, width, key, first), width, key, second), width, key) == Some(second),
        set(set(store, width, key, first), width, key, second) == set(store, width, key, second),
{
    let shard = shard_of(key, width);
    assert(contents(shard_at(store, shard)).insert(key, first).insert(key, second) =~= contents(
        shard_at(store, shard),
    ).insert(key, second));
    assert(set(set(store, width, key, first), width, key, second) =~= set(
        store,
        width,
        key,
        second,
    ));
}

/// Removing a key that has no record finds nothing and leaves the directory
/// as it was: no shard file comes into being.
pub proof fn lemma_remove_absent<T>(store: Store<T>, width: nat, key: Seq<u8>)
    requires
        get(store, width, key) is None,
    ensures
        shard_remove(shard_at(store, shard_of(key, width)), key) is None,
        remove(store, width, key) == store,
        remove(store, width, key).dom() == store.dom(),
{
}

/// Removing a key takes its record away, leaves the records of all other
/// keys as they were, and leaves the file of its shard in place.
pub proof fn lemma_get_after_remove<T>(store: Store<T>, width: nat, key: Seq<u8>, other: Seq<u8>)
    ensures
        get(remove(store, width, key), width, key) is None,
        other != key ==> get(remove(store, width, key), width, other) == get(store, width, other),
        store.dom().subset_of(remove(store, width, key).dom()),
{
}

/// After a batch, a key of the batch holds its new record if the batch
/// replaces or the key had none, and its old record else; a key outside the
/// batch holds what it held.
pub proof fn lemma_get_after_set_many<T>(
    store: Store<T>,
    width: nat,
    items: Map<Seq<u8>, T>,
    replace: bool,
    key: Seq<u8>,
)
    ensures
        get(set_many(store, width, items, replace), width, key) == if items.contains_key(key) && (
        replace || get(store, width, key) is None) {
            Some(items[key])
        } else {
            get(store, width, key)
        },
{
    let shard = shard_of(key, width);
    if items.contains_key(key) {
        assert(touches(items, width, shard));
    }
}

/// A batch that does not replace changes no record that was there; a batch
/// that replaces stores every record that it holds.
pub proof fn lemma_set_many_replace<T>(
    store: Store<T>,
    width: nat,
    items: Map<Seq<u8>, T>,
    key: Seq<u8>,
)
    ensures
        get(store, width, key) is Some ==> get(set_many(store, width, items, false), width, key)
            == get(store, width, key),
        items.contains_key(key) ==> get(set_many(store, width, items, true), width, key) == Some(
            items[key],
        ),
{
    lemma_get_after_set_many(store, width, items, false, key);
    lemma_get_after_set_many(store, width, items, true, key);
}

/// A batch is the work of its shards: where the records were parted by
/// shard, the batch leaves in each of these shards what putting its part
/// into the shard gives, has a file for each of them, and leaves every other
/// shard as it was.
pub proof fn lemma_set_many_by_shard<const K: usize, T>(
    store: Store<T>,
    width: nat,
    items: Map<Seq<u8>, T>,
    replace: bool,
    chunks: Map<Seq<u8>, Chunk<K, T>>,
    shard: Seq<u8>,
)
    requires
        grouped(chunks, items, width),
    ensures
        chunks.contains_key(shard) ==> shard_at(set_many(store, width, items, replace), shard)
            == Some(merged(contents(shard_at(store, shard)), chunks[shard]@, replace)),
        !chunks.contains_key(shard) ==> shard_at(set_many(store, width, items, replace), shard)
            == shard_at(store, shard),
{
}

/// A directory without files is consistent, and setting, removing and
/// batches keep a directory consistent.
pub proof fn lemma_consistency_is_kept<T>(
    store: Store<T>,
    width: nat,
    key: Seq<u8>,
    value: T,
    items: Map<Seq<u8>, T>,
    replace: bool,
)
    requires
        consistent(store, width),
    ensures
        consistent(Map::<Seq<u8>, Map<Seq<u8>, T>>::empty(), width),
        consistent(set(store, width, key, value), width),
        consistent(remove(store, width, key), width),
        consistent(set_many(store, width, items, replace), width),
{
    let after_set = set(store, width, key, value);
    assert forall|shard: Seq<u8>, other: Seq<u8>|
        after_set.contains_key(shard) && #[trigger] after_set[shard].contains_key(
            other,
        ) implies shard_of(other, width) == shard by {
        if shard != shard_of(key, width) {
            assert(store[shard].contains_key(other));
        } else if other != key {
            assert(store[shard].contains_key(other));
        }
    }
    let after_remove = remove(store, width, key);
    assert forall|shard: Seq<u8>, other: Seq<u8>|
        after_remove.contains_key(shard) && #[trigger] after_remove[shard].contains_key(
            other,
        ) implies shard_of(other, width) == shard by {
        assert(store[shard].contains_key(other));
    }
    let after_batch = set_many(store, width, items, replace);
    assert forall|shard: Seq<u8>, other: Seq<u8>|
        after_batch.contains_key(shard) && #[trigger] after_batch[shard].contains_key(
            other,
        ) implies shard_of(other, width) == shard by {
        if !part(items, shard, width).contains_key(other) {
            assert(store[shard].contains_key(other));
        }
    }
}

/// The records read from some shard files of a consistent directory hold for
/// a key what the directory holds for it, if the file of its shard is among
/// them, and nothing else.
proof fn lemma_get_all_prefix<T>(store: Store<T>, width: nat, shards: Seq<Seq<u8>>, key: Seq<u8>)
    requires
        consistent(store, width),
        forall|i: int| 0 <= i < shards.len() ==> store.contains_key(shards[i]),
    ensures
        lookup(get_all(store, shards), key) == if shards.contains(shard_of(key, width)) {
            get(store, width, key)
        } else {
            None
        },
    decreases shards.len(),
{
    if shards.len() > 0 {
        let rest = shards.drop_last();
        let last = shards.last();
        lemma_get_all_prefix(store, width, rest, key);
        assert(read_all(store, shards).drop_last() =~= read_all(store, rest));
        assert(read_all(store, shards).last() == store[last]);
        if shards.contains(shard_of(key, width)) {
            let i = choose|i: int| 0 <= i < shards.len() && shards[i] == shard_of(key, width);
            if i < rest.len() {
                assert(rest[i] == shard_of(key, width));
            }
        }
        if rest.contains(shard_of(key, width)) {
            let i = choose|i: int| 0 <= i < rest.len() && rest[i] == shard_of(key, width);
            assert(shards[i] == shard_of(key, width));
        }
        if last == shard_of(key, width) {
            assert(shards[shards.len() - 1] == shard_of(key, width));
        }
    }
}

/// Reading every shard file of a consistent directory, in any order, gives
/// for each key the record that the directory holds for it, and no other.
pub proof fn lemma_get_all_is_every_record<T>(
    store: Store<T>,
    width: nat,
    shards: Seq<Seq<u8>>,
    key: Seq<u8>,
)
    requires
        consistent(store, width),
        forall|i: int| 0 <= i < shards.len() ==> store.contains_key(shards[i]),
        forall|shard: Seq<u8>| store.contains_key(shard) ==> shards.contains(shard),
    ensures
        lookup(get_all(store, shards), key) == get(store, width, key),
{
    lemma_get_all_prefix(store, width, shards, key);
}

/// The stored keys of a batch that belong to one of `shards`.
spec fn stored_in<T>(
    store: Store<T>,
    width: nat,
    items: Map<Seq<u8>, T>,
    replace: bool,
    shards: Seq<Seq<u8>>,
) -> Set<Seq<u8>> {
    Set::new(
        |key: Seq<u8>|
            stored(store, width, items, replace).contains(key) && shards.contains(
                shard_of(key, width),
            ),
    )
}

/// The work on distinct shards stores as many records as there are stored
/// keys in these shards.
proof fn lemma_added_by_prefix<T>(
    store: Store<T>,
    width: nat,
    items: Map<Seq<u8>, T>,
    replace: bool,
    shards: Seq<Seq<u8>>,
)
    requires
        items.dom().finite(),
        shards.no_duplicates(),
    ensures
        stored_in(store, width, items, replace, shards).finite(),
        added_by(store, width, items, replace, shards) == stored_in(
            store,
            width,
            items,
            replace,
            shards,
        ).len(),
    decreases shards.len(),
{
    let all = stored_in(store, width, items, replace, shards);
    assert(all.subset_of(items.dom()));
    lemma_set_subset_finite(items.dom(), all);
    if shards.len() == 0 {
        assert(all =~= Set::<Seq<u8>>::empty());
    } else {
        let rest = shards.drop_last();
        let last = shards.last();
        lemma_added_by_prefix(store, width, items, replace, rest);
        let before = stored_in(store, width, items, replace, rest);
        let here = stored_keys(contents(shard_at(store, last)), part(items, last, width), replace);
        assert(here.subset_of(items.dom()));
        lemma_set_subset_finite(items.dom(), here);
        assert(before.disjoint(here)) by {
            assert forall|key: Seq<u8>| !(before.contains(key) && here.contains(key)) by {
                if before.contains(key) && here.contains(key) {
                    let i = choose|i: int| 0 <= i < rest.len() && rest[i] == shard_of(key, width);
                    assert(shards[i] == shards[shards.len() - 1]);
                }
            }
        }
        assert(all =~= before + here) by {
            assert forall|key: Seq<u8>| all.contains(key) <==> (before + here).contains(key) by {
                if all.contains(key) {
                    let i = choose|i: int|
                        0 <= i < shards.len() && shards[i] == shard_of(key, width);
                    if i < rest.len() {
                        assert(rest[i] == shard_of(key, width));
                    }
                }
                if before.contains(key) {
                    let i = choose|i: int| 0 <= i < rest.len() && rest[i] == shard_of(key, width);
                    assert(shards[i] == shard_of(key, width));
                }
                if here.contains(key) {
                    assert(shards[shards.len() - 1] == shard_of(key, width));
                }
            }
        }
        lemma_set_disjoint_lens(before, here);
    }
}

/// The count that a batch returns when every shard succeeded is the number of
/// its keys whose records are stored: the shards of the batch are distinct
/// and every key of the batch belongs to one of them, so that what they
/// store adds up to that number.
pub proof fn lemma_added_by_shards<T>(
    store: Store<T>,
    width: nat,
    items: Map<Seq<u8>, T>,
    replace: bool,
    shards: Seq<Seq<u8>>,
)
    requires
        items.dom().finite(),
        shards.no_duplicates(),
        forall|key: Seq<u8>| items.contains_key(key) ==> shards.contains(shard_of(key, width)),
    ensures
        stored(store, width, items, replace).finite(),
        added_by(store, width, items, replace, shards) == stored(
            store,
            width,
            items,
            replace,
        ).len(),
{
    lemma_added_by_prefix(store, width, items, replace, shards);
    assert(stored_in(store, width, items, replace, shards) =~= stored(
        store,
        width,
        items,
        replace,
    ));
}

/// Setting a record touches the shard of its key only, so that two records
/// set in different shards come to the same directory in either order.
pub proof fn lemma_shards_are_apart<T>(
    store: Store<T>,
    width: nat,
    first: Seq<u8>,
    first_value: T,
    second: Seq<u8>,
    second_value: T,
)
    requires
        shard_of(first, width) != shard_of(second, width),
    ensures
        shard_at(set(store, width, first, first_value), shard_of(second, width)) == shard_at(
            store,
            shard_of(second, width),
        ),
        set(set(store, width, first, first_value), width, second, second_value) == set(
            set(store, width, second, second_value),
            width,
            first,
            first_value,
        ),
{
    assert(set(set(store, width, first, first_value), width, second, second_value) =~= set(
        set(store, width, second, second_value),
        width,
        first,
        first_value,
    ));
}

} // verus!
