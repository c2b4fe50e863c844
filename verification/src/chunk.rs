//! The contents of one shard: records by key, kept in key order.

use vstd::prelude::*;
use vstd::utf8::encode_utf8;

use crate::hash::{
    hex_text, lemma_hex_round_trip, lemma_lex_irreflexive, lemma_lex_total, lemma_lex_transitive,
    lex_lt, parse_hex, HashError, Order,
};

verus! {

/// The keys of `entries` ascend strictly in byte-lexicographic order.
pub open spec fn ascending<T>(entries: Seq<(Seq<u8>, T)>) -> bool {
    forall|i: int, j: int| 0 <= i < j < entries.len() ==> lex_lt(entries[i].0, entries[j].0)
}

/// Some entry holds `key`.
pub open spec fn has_key<T>(entries: Seq<(Seq<u8>, T)>, key: Seq<u8>) -> bool {
    exists|i: int| 0 <= i < entries.len() && entries[i].0 == key
}

/// The mapping that a sequence of entries stands for.
pub open spec fn to_map<T>(entries: Seq<(Seq<u8>, T)>) -> Map<Seq<u8>, T> {
    Map::new(
        |key: Seq<u8>| has_key(entries, key),
        |key: Seq<u8>| entries[choose|i: int| 0 <= i < entries.len() && entries[i].0 == key].1,
    )
}

/// The record that a mapping holds for `key`, if it holds one.
pub open spec fn lookup<T>(records: Map<Seq<u8>, T>, key: Seq<u8>) -> Option<T> {
    if records.contains_key(key) {
        Some(records[key])
    } else {
        None
    }
}

/// Entries with each key taken by its bytes.
pub open spec fn keyed<const K: usize, T>(stored: Seq<(crate::hash::Hash<K>, T)>) -> Seq<
    (Seq<u8>, T),
> {
    Seq::new(stored.len(), |i: int| (stored[i].0@, stored[i].1))
}

/// The mapping that entries give when they are put in one after the other, so
/// that of two entries with one key the later one stays.
pub open spec fn collect<T>(entries: Seq<(Seq<u8>, T)>) -> Map<Seq<u8>, T>
    decreases entries.len(),
{
    if entries.len() == 0 {
        Map::empty()
    } else {
        collect(entries.drop_last()).insert(entries.last().0, entries.last().1)
    }
}

/// What a shard holds after `incoming` was put into `existing`: with `replace`
/// every incoming record is stored, without it only those whose key had none.
pub open spec fn merged<T>(
    existing: Map<Seq<u8>, T>,
    incoming: Map<Seq<u8>, T>,
    replace: bool,
) -> Map<Seq<u8>, T> {
    if replace {
        existing.union_prefer_right(incoming)
    } else {
        incoming.union_prefer_right(existing)
    }
}

/// The keys of `incoming` whose records are stored when it is put into
/// `existing`.
pub open spec fn stored_keys<T>(
    existing: Map<Seq<u8>, T>,
    incoming: Map<Seq<u8>, T>,
    replace: bool,
) -> Set<Seq<u8>> {
    Set::new(|key: Seq<u8>| incoming.contains_key(key) && (replace || !existing.contains_key(key)))
}

/// Entries whose keys are written as text, each text taken by its bytes.
pub open spec fn text_keyed<T>(written: Seq<(String, T)>) -> Seq<(Seq<u8>, T)> {
    Seq::new(written.len(), |i: int| (encode_utf8(written[i].0@), written[i].1))
}

/// The entries that reading each key text as `width` bytes gives, or the error
/// of the first key text that cannot be read.
pub open spec fn parse_keys<T>(texts: Seq<(Seq<u8>, T)>, width: nat) -> Result<
    Seq<(Seq<u8>, T)>,
    HashError,
>
    decreases texts.len(),
{
    if texts.len() == 0 {
        Ok(Seq::empty())
    } else {
        match parse_keys(texts.drop_last(), width) {
            Err(error) => Err(error),
            Ok(parsed) => match parse_hex(texts.last().0, width) {
                Err(error) => Err(error),
                Ok(key) => Ok(parsed.push((key, texts.last().1))),
            },
        }
    }
}

/// `written` holds `entries` in their order, each key written in its text
/// form.
pub open spec fn writes<T>(written: Seq<(String, T)>, entries: Seq<(Seq<u8>, T)>) -> bool {
    &&& written.len() == entries.len()
    &&& forall|i: int|
        0 <= i < written.len() ==> (#[trigger] written[i]).0@ == hex_text(entries[i].0)
            && written[i].1 == entries[i].1
}

/// Every key of `entries` has `width` bytes.
pub open spec fn keys_have_width<T>(entries: Seq<(Seq<u8>, T)>, width: nat) -> bool {
    forall|i: int| 0 <= i < entries.len() ==> (#[trigger] entries[i]).0.len() == width
}

/// The records of one shard by key. Each key occurs once, and the entries
/// stand in byte-lexicographic order of their keys.
#[derive(Debug)]
pub struct Chunk<const K: usize, T> {
    entries: Vec<(crate::hash::Hash<K>, T)>,
}

impl<const K: usize, T> View for Chunk<K, T> {
    type V = Map<Seq<u8>, T>;

    /// The mapping from key bytes to record.
    open spec fn view(&self) -> Map<Seq<u8>, T> {
        to_map(self.entries())
    }
}

impl<const K: usize, T> Default for Chunk<K, T> {
    /// A chunk without entries.
    fn default() -> (chunk: Self)
        ensures
            chunk@ == Map::<Seq<u8>, T>::empty(),
    {
        Chunk::new()
    }
}

impl<const K: usize, T> Chunk<K, T> {
    /// The entries in key order, each key by its bytes.
    pub closed spec fn entries(&self) -> Seq<(Seq<u8>, T)> {
        keyed(self.entries@)
    }

    #[verifier::type_invariant]
    spec fn ordered(&self) -> bool {
        ascending(self.entries())
    }

    /// A chunk without entries.
    pub fn new() -> (chunk: Self)
        ensures
            chunk.entries() == Seq::<(Seq<u8>, T)>::empty(),
            chunk@ == Map::<Seq<u8>, T>::empty(),
    {
        let chunk = Chunk { entries: Vec::new() };
        assert(chunk.entries() =~= Seq::<(Seq<u8>, T)>::empty());
        assert(chunk@ =~= Map::<Seq<u8>, T>::empty());
        chunk
    }

    /// The number of entries, which is the number of keys.
    pub fn len(&self) -> (count: usize)
        ensures
            count == self.entries().len(),
            self@.dom().finite(),
            count == self@.len(),
    {
        proof {
            use_type_invariant(self);
            lemma_collect_ascending(self.entries());
        }
        self.entries.len()
    }

    /// Whether there is no entry.
    pub fn is_empty(&self) -> (empty: bool)
        ensures
            empty == (self.entries().len() == 0),
            empty == (self@ == Map::<Seq<u8>, T>::empty()),
    {
        proof {
            use_type_invariant(self);
            lemma_collect_ascending(self.entries());
            if self.entries().len() == 0 {
                assert(self@ =~= Map::<Seq<u8>, T>::empty());
            }
        }
        self.entries.len() == 0
    }

    /// Moves the entries out and leaves the chunk empty.
    fn take_entries(&mut self) -> (entries: Vec<(crate::hash::Hash<K>, T)>)
        ensures
            entries == old(self).entries,
            final(self).entries@.len() == 0,
    {
        let mut entries: Vec<(crate::hash::Hash<K>, T)> = Vec::new();
        core::mem::swap(&mut self.entries, &mut entries);
        entries
    }

    /// Where `key` stands among the entries: the index of its entry, or the
    /// index at which an entry for it would keep the order.
    fn find(&self, key: &crate::hash::Hash<K>) -> (place: (usize, bool))
        ensures
            ascending(self.entries()),
            place.0 <= self.entries().len(),
            place.1 ==> place.0 < self.entries().len() && self.entries()[place.0 as int].0 == key@,
            !place.1 ==> forall|j: int| 0 <= j < place.0 ==> lex_lt(self.entries()[j].0, key@),
            !place.1 ==> forall|j: int|
                place.0 <= j < self.entries().len() ==> lex_lt(key@, self.entries()[j].0),
    {
        proof {
            use_type_invariant(self);
        }
        let ghost entries = self.entries();
        let mut low: usize = 0;
        let mut high: usize = self.entries.len();
        while low < high
            invariant
                low <= high <= entries.len(),
                entries == self.entries(),
                entries.len() == self.entries@.len(),
                forall|j: int| 0 <= j < entries.len() ==> entries[j].0 == self.entries@[j].0@,
                ascending(entries),
                forall|j: int| 0 <= j < low ==> lex_lt(entries[j].0, key@),
                forall|j: int| high <= j < entries.len() ==> lex_lt(key@, entries[j].0),
            decreases high - low,
        {
            let middle = low + (high - low) / 2;
            let probe = &self.entries[middle].0;
            assert(entries[middle as int].0 == probe@);
            match probe.compare(key) {
                Order::Equal => {
                    return (middle, true);
                },
                Order::Less => {
                    proof {
                        assert forall|j: int| 0 <= j < middle + 1 implies lex_lt(
                            entries[j].0,
                            key@,
                        ) by {
                            if j < middle {
                                assert(lex_lt(entries[j].0, entries[middle as int].0));
                                lemma_lex_transitive(entries[j].0, probe@, key@);
                            }
                        }
                    }
                    low = middle + 1;
                },
                Order::Greater => {
                    proof {
                        probe.lemma_width();
                        key.lemma_width();
                        lemma_lex_total(probe@, key@);
                        assert forall|j: int| middle <= j < entries.len() implies lex_lt(
                            key@,
                            entries[j].0,
                        ) by {
                            if middle < j {
                                assert(lex_lt(entries[middle as int].0, entries[j].0));
                                lemma_lex_transitive(key@, probe@, entries[j].0);
                            }
                        }
                    }
                    high = middle;
                },
            }
        }
        (low, false)
    }

    /// Whether `key` has a record.
    pub fn contains_key(&self, key: &crate::hash::Hash<K>) -> (held: bool)
        ensures
            held == self@.contains_key(key@),
    {
        let (index, found) = self.find(key);
        proof {
            if found {
                lemma_to_map_at(self.entries(), index as int);
            } else {
                lemma_absent_at(self.entries(), index as int, key@);
            }
        }
        found
    }

    /// The record of `key`, if it has one.
    pub fn get(&self, key: &crate::hash::Hash<K>) -> (record: Option<&T>)
        ensures
            match record {
                Some(found) => lookup(self@, key@) == Some(*found),
                None => lookup(self@, key@) is None,
            },
    {
        let (index, found) = self.find(key);
        if found {
            proof {
                lemma_to_map_at(self.entries(), index as int);
            }
            Some(&self.entries[index].1)
        } else {
            proof {
                lemma_absent_at(self.entries(), index as int, key@);
            }
            None
        }
    }

    /// Sets the record of `key`, and returns the record that it had.
    pub fn insert(&mut self, key: crate::hash::Hash<K>, value: T) -> (previous: Option<T>)
        ensures
            final(self)@ == old(self)@.insert(key@, value),
            previous == lookup(old(self)@, key@),
    {
        let (index, found) = self.find(&key);
        let ghost before = self.entries();
        if found {
            proof {
                lemma_to_map_at(before, index as int);
                lemma_update_at(before, index as int, value);
            }
            let mut entries = self.take_entries();
            let replaced = entries.remove(index);
            entries.insert(index, (key, value));
            proof {
                assert(keyed(entries@) =~= before.update(index as int, (key@, value)));
            }
            self.entries = entries;
            Some(replaced.1)
        } else {
            proof {
                lemma_absent_at(before, index as int, key@);
                lemma_insert_at(before, index as int, key@, value);
            }
            let mut entries = self.take_entries();
            entries.insert(index, (key, value));
            proof {
                assert(keyed(entries@) =~= before.insert(index as int, (key@, value)));
            }
            self.entries = entries;
            None
        }
    }

    /// Takes the record of `key` out, if it has one, and returns it.
    pub fn remove(&mut self, key: &crate::hash::Hash<K>) -> (removed: Option<T>)
        ensures
            final(self)@ == old(self)@.remove(key@),
            removed == lookup(old(self)@, key@),
    {
        let (index, found) = self.find(key);
        let ghost before = self.entries();
        if found {
            proof {
                lemma_to_map_at(before, index as int);
                lemma_remove_at(before, index as int);
            }
            let mut entries = self.take_entries();
            let taken = entries.remove(index);
            proof {
                assert(keyed(entries@) =~= before.remove(index as int));
            }
            self.entries = entries;
            Some(taken.1)
        } else {
            proof {
                lemma_absent_at(before, index as int, key@);
                assert(self@.remove(key@) =~= self@);
            }
            None
        }
    }

    /// The entries in key order.
    pub fn into_vec(self) -> (pairs: Vec<(crate::hash::Hash<K>, T)>)
        ensures
            keyed(pairs@) == self.entries(),
            ascending(self.entries()),
    {
        proof {
            use_type_invariant(&self);
        }
        self.entries
    }

    /// The chunk that holds `pairs`, put in one after the other.
    pub fn from_vec(pairs: Vec<(crate::hash::Hash<K>, T)>) -> (chunk: Self)
        ensures
            chunk@ == collect(keyed(pairs@)),
    {
        let mut chunk = Chunk::new();
        let ghost all = keyed(pairs@);
        for pair in iter: pairs
            invariant
                iter.seq() == pairs@,
                all == keyed(pairs@),
                chunk@ == collect(all.take(iter.index() as int)),
        {
            let ghost i = iter.index() as int;
            proof {
                assert(all.take(i + 1).drop_last() =~= all.take(i));
                assert(all.take(i + 1).last() == (pair.0@, pair.1));
            }
            let (key, value) = pair;
            chunk.insert(key, value);
        }
        proof {
            assert(all.take(pairs@.len() as int) =~= all);
        }
        chunk
    }

    /// Puts every entry of `other` into this chunk. Where both hold a key, the
    /// record of `other` stays.
    pub fn extend(&mut self, other: Chunk<K, T>)
        ensures
            final(self)@ == old(self)@.union_prefer_right(other@),
    {
        let pairs = other.into_vec();
        let ghost incoming = keyed(pairs@);
        proof {
            assert(incoming.take(0) =~= Seq::<(Seq<u8>, T)>::empty());
            assert(to_map(incoming.take(0)) =~= Map::<Seq<u8>, T>::empty());
            assert(self@.union_prefer_right(to_map(incoming.take(0))) =~= self@);
        }
        for pair in iter: pairs
            invariant
                iter.seq() == pairs@,
                incoming == keyed(pairs@),
                ascending(incoming),
                self@ == old(self)@.union_prefer_right(to_map(incoming.take(iter.index() as int))),
        {
            let ghost i = iter.index() as int;
            proof {
                let longer = incoming.take(i + 1);
                assert(longer.drop_last() =~= incoming.take(i));
                assert(longer.last() == (pair.0@, pair.1));
                assert(ascending(longer)) by {
                    assert forall|a: int, b: int| 0 <= a < b < longer.len() implies lex_lt(
                        longer[a].0,
                        longer[b].0,
                    ) by {
                        assert(lex_lt(incoming[a].0, incoming[b].0));
                    }
                }
                lemma_drop_last(longer);
                assert(old(self)@.union_prefer_right(to_map(longer)) =~= old(
                    self,
                )@.union_prefer_right(to_map(incoming.take(i))).insert(pair.0@, pair.1));
            }
            let (key, value) = pair;
            self.insert(key, value);
        }
        proof {
            assert(incoming.take(pairs@.len() as int) =~= incoming);
        }
    }

    /// Puts the entries of `incoming` into this chunk: all of them with
    /// `replace`, without it only those whose key has no record yet. Returns
    /// how many were stored.
    pub fn merge(&mut self, incoming: Chunk<K, T>, replace: bool) -> (added: usize)
        ensures
            final(self)@ == merged(old(self)@, incoming@, replace),
            added == stored_keys(old(self)@, incoming@, replace).len(),
            stored_keys(old(self)@, incoming@, replace).finite(),
    {
        let pairs = incoming.into_vec();
        let total = pairs.len();
        let ghost entries = keyed(pairs@);
        let ghost mut counted = Set::<Seq<u8>>::empty();
        let mut added: usize = 0;
        proof {
            assert(entries.take(0) =~= Seq::<(Seq<u8>, T)>::empty());
            assert(to_map(entries.take(0)) =~= Map::<Seq<u8>, T>::empty());
            assert(merged(self@, to_map(entries.take(0)), replace) =~= self@);
            assert(stored_keys(self@, to_map(entries.take(0)), replace) =~= counted);
        }
        for pair in iter: pairs
            invariant
                iter.seq() == pairs@,
                entries == keyed(pairs@),
                ascending(entries),
                self@ == merged(old(self)@, to_map(entries.take(iter.index() as int)), replace),
                counted == stored_keys(
                    old(self)@,
                    to_map(entries.take(iter.index() as int)),
                    replace,
                ),
                counted.finite(),
                added == counted.len(),
                added <= iter.index(),
                pairs@.len() == total,
        {
            let ghost i = iter.index() as int;
            let ghost shorter = entries.take(i);
            let ghost longer = entries.take(i + 1);
            proof {
                assert(i < pairs@.len());
                assert(longer.drop_last() =~= shorter);
                assert(longer.last() == (pair.0@, pair.1));
                assert(ascending(longer)) by {
                    assert forall|a: int, b: int| 0 <= a < b < longer.len() implies lex_lt(
                        longer[a].0,
                        longer[b].0,
                    ) by {
                        assert(lex_lt(entries[a].0, entries[b].0));
                    }
                }
                lemma_drop_last(longer);
            }
            let (key, value) = pair;
            if replace || !self.contains_key(&key) {
                proof {
                    assert(merged(old(self)@, to_map(longer), replace) =~= self@.insert(
                        key@,
                        value,
                    ));
                    assert(stored_keys(old(self)@, to_map(longer), replace) =~= counted.insert(
                        key@,
                    ));
                    counted = counted.insert(key@);
                }
                self.insert(key, value);
                added = added + 1;
            } else {
                proof {
                    assert(merged(old(self)@, to_map(longer), replace) =~= self@);
                    assert(stored_keys(old(self)@, to_map(longer), replace) =~= counted);
                }
            }
        }
        proof {
            assert(entries.take(pairs@.len() as int) =~= entries);
        }
        added
    }

    /// Reads entries whose keys are written as text, and puts them in one after
    /// the other. The first key that is no identifier of `K` bytes in
    /// hexadecimal ends the reading with its error.
    pub fn from_hex_entries(written: Vec<(String, T)>) -> (result: Result<Self, HashError>)
        ensures
            match result {
                Ok(chunk) => parse_keys(text_keyed(written@), K as nat) matches Ok(parsed)
                    && chunk@ == collect(parsed),
                Err(error) => parse_keys(text_keyed(written@), K as nat) == Err::<
                    Seq<(Seq<u8>, T)>,
                    HashError,
                >(error),
            },
    {
        let mut chunk = Chunk::new();
        let ghost texts = text_keyed(written@);
        let ghost width = K as nat;
        let ghost mut parsed = Seq::<(Seq<u8>, T)>::empty();
        proof {
            assert(texts.take(0) =~= Seq::<(Seq<u8>, T)>::empty());
        }
        for pair in iter: written
            invariant
                iter.seq() == written@,
                texts == text_keyed(written@),
                width == K as nat,
                parse_keys(texts.take(iter.index() as int), width) == Ok::<
                    Seq<(Seq<u8>, T)>,
                    HashError,
                >(parsed),
                chunk@ == collect(parsed),
        {
            let ghost i = iter.index() as int;
            proof {
                assert(texts.take(i + 1).drop_last() =~= texts.take(i));
                assert(texts.take(i + 1).last() == (encode_utf8(pair.0@), pair.1));
            }
            let (text, value) = pair;
            match crate::hash::Hash::<K>::from_string(text.as_str()) {
                Ok(key) => {
                    proof {
                        let longer = parsed.push((key@, value));
                        assert(longer.drop_last() =~= parsed);
                        parsed = longer;
                    }
                    chunk.insert(key, value);
                },
                Err(error) => {
                    proof {
                        lemma_parse_keys_fails(texts, width, i + 1);
                    }
                    return Err(error);
                },
            }
        }
        proof {
            assert(texts.take(written@.len() as int) =~= texts);
        }
        Ok(chunk)
    }

    /// The entries in key order, each key written in its text form.
    pub fn into_hex_entries(self) -> (written: Vec<(String, T)>)
        ensures
            writes(written@, self.entries()),
            ascending(self.entries()),
            keys_have_width(self.entries(), K as nat),
    {
        let pairs = self.into_vec();
        let ghost entries = keyed(pairs@);
        let mut written: Vec<(String, T)> = Vec::new();
        proof {
            assert forall|i: int| 0 <= i < entries.len() implies (#[trigger] entries[i]).0.len()
                == K by {
                pairs@[i].0.lemma_width();
            }
        }
        for pair in iter: pairs
            invariant
                iter.seq() == pairs@,
                entries == keyed(pairs@),
                written@.len() == iter.index(),
                forall|i: int|
                    0 <= i < written@.len() ==> (#[trigger] written@[i]).0@ == hex_text(
                        entries[i].0,
                    ) && written@[i].1 == entries[i].1,
        {
            let (key, value) = pair;
            written.push((key.to_hex(), value));
        }
        written
    }
}

/// In ascending entries each key occurs once, so the mapping holds at each
/// key the record that stands beside it.
pub proof fn lemma_to_map_at<T>(entries: Seq<(Seq<u8>, T)>, i: int)
    requires
        ascending(entries),
        0 <= i < entries.len(),
    ensures
        to_map(entries).contains_key(entries[i].0),
        to_map(entries)[entries[i].0] == entries[i].1,
{
    let key = entries[i].0;
    let k = choose|k: int| 0 <= k < entries.len() && entries[k].0 == key;
    lemma_lex_irreflexive(key);
    if k < i {
        assert(lex_lt(entries[k].0, entries[i].0));
    } else if i < k {
        assert(lex_lt(entries[i].0, entries[k].0));
    }
}

/// Putting a new key at its place in ascending entries keeps them ascending
/// and adds the key to the mapping.
pub proof fn lemma_insert_at<T>(entries: Seq<(Seq<u8>, T)>, i: int, key: Seq<u8>, value: T)
    requires
        ascending(entries),
        0 <= i <= entries.len(),
        forall|j: int| 0 <= j < i ==> lex_lt(entries[j].0, key),
        forall|j: int| i <= j < entries.len() ==> lex_lt(key, entries[j].0),
    ensures
        ascending(entries.insert(i, (key, value))),
        to_map(entries.insert(i, (key, value))) == to_map(entries).insert(key, value),
{
    let longer = entries.insert(i, (key, value));
    assert forall|a: int, b: int| 0 <= a < b < longer.len() implies lex_lt(
        longer[a].0,
        longer[b].0,
    ) by {
        if b < i {
            assert(lex_lt(entries[a].0, entries[b].0));
        } else if b == i {
            assert(lex_lt(entries[a].0, key));
        } else if a < i {
            assert(lex_lt(entries[a].0, entries[b - 1].0));
        } else if a == i {
            assert(lex_lt(key, entries[b - 1].0));
        } else {
            assert(lex_lt(entries[a - 1].0, entries[b - 1].0));
        }
    }
    assert forall|k: Seq<u8>| to_map(longer).contains_key(k) <==> to_map(entries).insert(
        key,
        value,
    ).contains_key(k) by {
        if has_key(longer, k) {
            let a = choose|a: int| 0 <= a < longer.len() && longer[a].0 == k;
            if a < i {
                assert(entries[a].0 == k);
            } else if a > i {
                assert(entries[a - 1].0 == k);
            }
        }
        if has_key(entries, k) {
            let a = choose|a: int| 0 <= a < entries.len() && entries[a].0 == k;
            if a < i {
                assert(longer[a].0 == k);
            } else {
                assert(longer[a + 1].0 == k);
            }
        }
        if k == key {
            assert(longer[i].0 == k);
        }
    }
    assert(ascending(longer));
    assert forall|k: Seq<u8>| to_map(longer).contains_key(k) implies to_map(longer)[k] == to_map(
        entries,
    ).insert(key, value)[k] by {
        let a = choose|a: int| 0 <= a < longer.len() && longer[a].0 == k;
        lemma_to_map_at(longer, a);
        if a < i {
            lemma_to_map_at(entries, a);
            lemma_lex_irreflexive(key);
        } else if a > i {
            lemma_to_map_at(entries, a - 1);
            lemma_lex_irreflexive(key);
        }
    }
    assert(to_map(longer) =~= to_map(entries).insert(key, value));
}

/// Replacing the record beside a key keeps ascending entries ascending and
/// changes the mapping at that key only.
pub proof fn lemma_update_at<T>(entries: Seq<(Seq<u8>, T)>, i: int, value: T)
    requires
        ascending(entries),
        0 <= i < entries.len(),
    ensures
        ascending(entries.update(i, (entries[i].0, value))),
        to_map(entries.update(i, (entries[i].0, value))) == to_map(entries).insert(
            entries[i].0,
            value,
        ),
{
    let key = entries[i].0;
    let changed = entries.update(i, (key, value));
    assert forall|a: int, b: int| 0 <= a < b < changed.len() implies lex_lt(
        changed[a].0,
        changed[b].0,
    ) by {
        assert(changed.len() == entries.len());
        assert(lex_lt(entries[a].0, entries[b].0));
    }
    assert forall|k: Seq<u8>| to_map(changed).contains_key(k) <==> to_map(entries).insert(
        key,
        value,
    ).contains_key(k) by {
        if has_key(changed, k) {
            let a = choose|a: int| 0 <= a < changed.len() && changed[a].0 == k;
            assert(entries[a].0 == k);
        }
        if has_key(entries, k) {
            let a = choose|a: int| 0 <= a < entries.len() && entries[a].0 == k;
            assert(changed[a].0 == k);
        }
        if k == key {
            assert(changed[i].0 == k);
        }
    }
    assert(ascending(changed));
    assert forall|k: Seq<u8>| to_map(changed).contains_key(k) implies to_map(changed)[k]
        == to_map(entries).insert(key, value)[k] by {
        let a = choose|a: int| 0 <= a < changed.len() && changed[a].0 == k;
        lemma_to_map_at(changed, a);
        lemma_to_map_at(entries, a);
        lemma_lex_irreflexive(key);
        if a < i {
            assert(lex_lt(entries[a].0, entries[i].0));
        } else if i < a {
            assert(lex_lt(entries[i].0, entries[a].0));
        }
    }
    assert(to_map(changed) =~= to_map(entries).insert(key, value));
}

/// Taking an entry out of ascending entries keeps them ascending and takes
/// its key out of the mapping.
pub proof fn lemma_remove_at<T>(entries: Seq<(Seq<u8>, T)>, i: int)
    requires
        ascending(entries),
        0 <= i < entries.len(),
    ensures
        ascending(entries.remove(i)),
        to_map(entries.remove(i)) == to_map(entries).remove(entries[i].0),
{
    let key = entries[i].0;
    let shorter = entries.remove(i);
    assert forall|a: int, b: int| 0 <= a < b < shorter.len() implies lex_lt(
        shorter[a].0,
        shorter[b].0,
    ) by {
        let a0 = if a < i { a } else { a + 1 };
        let b0 = if b < i { b } else { b + 1 };
        assert(lex_lt(entries[a0].0, entries[b0].0));
    }
    assert forall|k: Seq<u8>| to_map(shorter).contains_key(k) <==> to_map(entries).remove(
        key,
    ).contains_key(k) by {
        if has_key(shorter, k) {
            let a = choose|a: int| 0 <= a < shorter.len() && shorter[a].0 == k;
            let a0 = if a < i { a } else { a + 1 };
            assert(entries[a0].0 == k);
            lemma_lex_irreflexive(key);
            if a0 < i {
                assert(lex_lt(entries[a0].0, entries[i].0));
            } else {
                assert(lex_lt(entries[i].0, entries[a0].0));
            }
        }
        if has_key(entries, k) && k != key {
            let a = choose|a: int| 0 <= a < entries.len() && entries[a].0 == k;
            if a < i {
                assert(shorter[a].0 == k);
            } else {
                assert(shorter[a - 1].0 == k);
            }
        }
    }
    assert(ascending(shorter));
    assert forall|k: Seq<u8>| to_map(shorter).contains_key(k) implies to_map(shorter)[k]
        == to_map(entries).remove(key)[k] by {
        let a = choose|a: int| 0 <= a < shorter.len() && shorter[a].0 == k;
        let a0 = if a < i { a } else { a + 1 };
        lemma_to_map_at(shorter, a);
        lemma_to_map_at(entries, a0);
    }
    assert(to_map(shorter) =~= to_map(entries).remove(key));
}

/// A key that stands strictly between two neighbours of ascending entries, or
/// outside them, is not in the mapping.
pub proof fn lemma_absent_at<T>(entries: Seq<(Seq<u8>, T)>, i: int, key: Seq<u8>)
    requires
        ascending(entries),
        0 <= i <= entries.len(),
        forall|j: int| 0 <= j < i ==> lex_lt(entries[j].0, key),
        forall|j: int| i <= j < entries.len() ==> lex_lt(key, entries[j].0),
    ensures
        !to_map(entries).contains_key(key),
{
    lemma_lex_irreflexive(key);
    if has_key(entries, key) {
        let a = choose|a: int| 0 <= a < entries.len() && entries[a].0 == key;
        if a < i {
            assert(lex_lt(entries[a].0, key));
        } else {
            assert(lex_lt(key, entries[a].0));
        }
    }
}

/// In ascending entries the last one holds a key of its own, so the mapping is
/// that of the others with the last one added; and putting ascending entries
/// in one after the other gives that same mapping.
pub proof fn lemma_drop_last<T>(entries: Seq<(Seq<u8>, T)>)
    requires
        ascending(entries),
        entries.len() > 0,
    ensures
        ascending(entries.drop_last()),
        !to_map(entries.drop_last()).contains_key(entries.last().0),
        to_map(entries) == to_map(entries.drop_last()).insert(entries.last().0, entries.last().1),
{
    let last = entries.len() - 1;
    let shorter = entries.drop_last();
    assert(shorter =~= entries.remove(last));
    lemma_remove_at(entries, last);
    lemma_to_map_at(entries, last);
    assert(to_map(entries) =~= to_map(shorter).insert(entries.last().0, entries.last().1));
}

/// Ascending entries stand for the mapping that putting them in one after the
/// other gives, and that mapping has one key for each entry.
pub proof fn lemma_collect_ascending<T>(entries: Seq<(Seq<u8>, T)>)
    requires
        ascending(entries),
    ensures
        collect(entries) == to_map(entries),
        to_map(entries).dom().finite(),
        to_map(entries).dom().len() == entries.len(),
    decreases entries.len(),
{
    if entries.len() == 0 {
        assert(to_map(entries) =~= Map::<Seq<u8>, T>::empty());
    } else {
        lemma_drop_last(entries);
        lemma_collect_ascending(entries.drop_last());
    }
}

/// Entries that were written with their keys in text form read back as they
/// were.
pub proof fn lemma_written_reads_back<T>(
    written: Seq<(String, T)>,
    entries: Seq<(Seq<u8>, T)>,
    width: nat,
)
    requires
        writes(written, entries),
        keys_have_width(entries, width),
    ensures
        parse_keys(text_keyed(written), width) == Ok::<Seq<(Seq<u8>, T)>, HashError>(entries),
    decreases written.len(),
{
    if written.len() == 0 {
        assert(entries =~= Seq::<(Seq<u8>, T)>::empty());
    } else {
        let last = written.len() - 1;
        assert(writes(written.drop_last(), entries.drop_last())) by {
            assert forall|i: int| 0 <= i < written.drop_last().len() implies (
            #[trigger] written.drop_last()[i]).0@ == hex_text(entries.drop_last()[i].0)
                && written.drop_last()[i].1 == entries.drop_last()[i].1 by {
                assert(written[i].0@ == hex_text(entries[i].0));
            }
        }
        assert(keys_have_width(entries.drop_last(), width)) by {
            assert forall|i: int| 0 <= i < entries.drop_last().len() implies (
            #[trigger] entries.drop_last()[i]).0.len() == width by {
                assert(entries[i].0.len() == width);
            }
        }
        lemma_written_reads_back(written.drop_last(), entries.drop_last(), width);
        assert(text_keyed(written).drop_last() =~= text_keyed(written.drop_last()));
        assert(written[last].0@ == hex_text(entries[last].0));
        assert(entries[last].0.len() == width);
        lemma_hex_round_trip(entries[last].0);
        assert(entries.drop_last().push(entries.last()) =~= entries);
    }
}

/// Once a prefix of the key texts cannot be read, the whole cannot, for the
/// same reason.
pub proof fn lemma_parse_keys_fails<T>(texts: Seq<(Seq<u8>, T)>, width: nat, upto: int)
    requires
        0 <= upto <= texts.len(),
        parse_keys(texts.take(upto), width) is Err,
    ensures
        parse_keys(texts, width) == parse_keys(texts.take(upto), width),
    decreases texts.len() - upto,
{
    if upto == texts.len() {
        assert(texts.take(upto) =~= texts);
    } else {
        assert(texts.take(upto + 1).drop_last() =~= texts.take(upto));
        lemma_parse_keys_fails(texts, width, upto + 1);
    }
}

} // verus!
