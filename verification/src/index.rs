//! The hash index of a table: entries found by the hash of their key.

use vstd::prelude::*;
use vstd::multiset::Multiset;
use hashbrown::HashTable;
use crate::errors::ParseR3Error;

verus! {

/// One entry of a table. The key text is not kept: `key` is its hash, and
/// `offset` and `length` say where the value lies in the table's buffer.
#[derive(Clone, Copy, Debug, PartialEq, Eq, Structural)]
pub struct TableEntry {
    pub key: u64,
    pub offset: usize,
    pub length: usize,
}

/// The 64-bit XXH3 digest of a byte string, with the default secret and no
/// seed. It depends on the bytes alone.
pub uninterp spec fn xxh3_digest(input: Seq<u8>) -> u64;

/// `xxhash_rust::xxh3::xxh3_64`: the digest of the bytes.
#[verifier::external_body]
pub(crate) fn hash_bytes(input: &[u8]) -> (digest: u64)
    ensures
        digest == xxh3_digest(input@),
{
    xxhash_rust::xxh3::xxh3_64(input)
}

/// A `hashbrown::HashTable` of entries. The table is private and is only
/// touched by the four operations below, so every entry in it was inserted
/// with its own `key` as the hash. The verifier does not look inside; what
/// it knows of an index is `index_entries`.
#[verifier::external_body]
pub struct HashIndex {
    table: HashTable<TableEntry>,
}

/// The entries that an index holds, each as often as it was inserted.
pub uninterp spec fn index_entries(index: HashIndex) -> Multiset<TableEntry>;

/// `HashTable::new`: a table without entries.
#[verifier::external_body]
pub(crate) fn index_new() -> (index: HashIndex)
    ensures
        index_entries(index) == Multiset::<TableEntry>::empty(),
{
    HashIndex { table: HashTable::new() }
}

/// `HashTable::insert_unique`, with the entry's key as its hash and as what
/// the table's rehashing asks for. The entry is added whether or not the
/// index already holds one with that key; the entries held before stay.
#[verifier::external_body]
pub(crate) fn index_insert(index: &mut HashIndex, entry: TableEntry)
    ensures
        index_entries(*final(index)) == index_entries(*old(index)).insert(entry),
{
    index.table.insert_unique(entry.key, entry, |e: &TableEntry| e.key);
}

/// `HashTable::find` under `hash`, for an entry whose key is `hash`. Since
/// every entry is stored under its key, an entry with that key is found if
/// there is one. Where several entries have that key, any of them may come
/// back.
#[verifier::external_body]
pub(crate) fn index_find(index: &HashIndex, hash: u64) -> (found: Option<TableEntry>)
    ensures
        match found {
            Some(e) => e.key == hash && index_entries(*index).contains(e),
            None => forall|e: TableEntry| index_entries(*index).contains(e) ==> e.key != hash,
        },
{
    match index.table.find(hash, |e: &TableEntry| e.key == hash) {
        Some(e) => Some(*e),
        None => None,
    }
}

/// `HashTable::iter`: every entry once for each time it was inserted, in an
/// order that the table chooses.
#[verifier::external_body]
pub(crate) fn index_list(index: &HashIndex) -> (list: Vec<TableEntry>)
    ensures
        list@.to_multiset() == index_entries(*index),
{
    index.table.iter().copied().collect()
}

/// Some entry of the collection has the key `hash`.
pub open spec fn holds_key(entries: Multiset<TableEntry>, hash: u64) -> bool {
    exists|e: TableEntry| #[trigger] entries.contains(e) && e.key == hash
}

/// An entry of the collection with the key `hash`.
pub open spec fn entry_with_key(entries: Multiset<TableEntry>, hash: u64) -> TableEntry {
    choose|e: TableEntry| #[trigger] entries.contains(e) && e.key == hash
}

/// No key belongs to two entries of the collection, and no entry is held
/// twice.
pub open spec fn keys_unique_in(entries: Multiset<TableEntry>) -> bool {
    &&& forall|e: TableEntry| entries.count(e) <= 1
    &&& forall|a: TableEntry, b: TableEntry|
        #![trigger entries.contains(a), entries.contains(b)]
        entries.contains(a) && entries.contains(b) && a.key == b.key ==> a == b
}

impl HashIndex {
    /// The entries of the index.
    pub open spec fn entries(&self) -> Multiset<TableEntry> {
        index_entries(*self)
    }

    /// Some entry has the key `hash`.
    pub open spec fn has_key(&self, hash: u64) -> bool {
        holds_key(self.entries(), hash)
    }

    /// An entry with the key `hash`; the only one where keys are unique.
    pub open spec fn entry_of(&self, hash: u64) -> TableEntry {
        entry_with_key(self.entries(), hash)
    }

    /// No key belongs to two entries, and no entry is held twice.
    pub open spec fn keys_unique(&self) -> bool {
        keys_unique_in(self.entries())
    }

    /// An index without entries.
    pub fn new() -> (index: HashIndex)
        ensures
            index.entries() == Multiset::<TableEntry>::empty(),
            index.keys_unique(),
    {
        index_new()
    }

    /// Looks an entry up by the hash of its key.
    pub fn find(&self, hash: u64) -> (found: Option<TableEntry>)
        ensures
            found is Some <==> self.has_key(hash),
            found matches Some(e) ==> e.key == hash && self.entries().contains(e),
            self.keys_unique() && self.has_key(hash) ==> found == Some(self.entry_of(hash)),
    {
        let found = index_find(self, hash);
        proof {
            if let Some(e) = found {
                assert(self.entries().contains(e) && e.key == hash);
            }
        }
        found
    }

    /// All entries, in an order that the index chooses.
    pub fn list(&self) -> (list: Vec<TableEntry>)
        ensures
            list@.to_multiset() == self.entries(),
    {
        index_list(self)
    }
}

/// Adds an entry for a key, under the XXH3 digest of its bytes, without
/// asking whether the index holds that digest already.
pub fn insert(table: &mut HashIndex, key: &[u8], offset: usize, length: usize)
    ensures
        final(table).entries() == old(table).entries().insert(
            TableEntry { key: xxh3_digest(key@), offset, length },
        ),
        final(table).has_key(xxh3_digest(key@)),
{
    let hash = hash_bytes(key);
    let entry = TableEntry { key: hash, offset, length };
    index_insert(table, entry);
    assert(table.entries().contains(entry));
}

/// Adds an entry for a key that is already hashed, unless the index holds
/// that key. On `DuplicateKeys` the index is left as it was.
pub fn insert_hashed(table: &mut HashIndex, hash: u64, offset: usize, length: usize) -> (done:
    Result<(), ParseR3Error>)
    ensures
        done is Ok <==> !old(table).has_key(hash),
        done is Ok ==> final(table).entries() == old(table).entries().insert(
            TableEntry { key: hash, offset, length },
        ),
        done is Ok && old(table).keys_unique() ==> final(table).keys_unique(),
        done matches Err(e) ==> e == ParseR3Error::DuplicateKeys && final(table).entries() == old(
            table,
        ).entries(),
        forall|h: u64| #[trigger] final(table).has_key(h) <==> old(table).has_key(h) || h == hash,
{
    if table.find(hash).is_none() {
        let entry = TableEntry { key: hash, offset, length };
        let ghost before = table.entries();
        index_insert(table, entry);
        proof {
            assert(!before.contains(entry));
            assert(table.entries().contains(entry));
            assert forall|h: u64| #[trigger] table.has_key(h) <==> holds_key(before, h) || h
                == hash by {
                if holds_key(before, h) {
                    let e = entry_with_key(before, h);
                    assert(before.contains(e) && e.key == h);
                    assert(table.entries().contains(e));
                }
                if table.has_key(h) && h != hash {
                    let e = table.entry_of(h);
                    assert(table.entries().contains(e) && e.key == h);
                    assert(before.contains(e));
                }
            }
            if old(table).keys_unique() {
                assert forall|e: TableEntry| table.entries().count(e) <= 1 by {
                    assert(before.count(e) <= 1);
                }
                assert forall|a: TableEntry, b: TableEntry|
                    table.entries().contains(a) && table.entries().contains(b) && a.key
                        == b.key implies a == b by {
                    if a != entry && b != entry {
                        assert(before.contains(a) && before.contains(b));
                    } else if a != entry {
                        assert(before.contains(a));
                    } else if b != entry {
                        assert(before.contains(b));
                    }
                }
            }
        }
        Ok(())
    } else {
        Err(ParseR3Error::DuplicateKeys)
    }
}

/// Adds an entry for a key, under the XXH3 digest of its bytes, unless the
/// index holds an entry with that digest already.
pub fn insert_into_hashtable(
    table: &mut HashIndex,
    key: &[u8],
    offset: usize,
    length: usize,
) -> (done: Result<(), ParseR3Error>)
    ensures
        done is Ok <==> !old(table).has_key(xxh3_digest(key@)),
        done is Ok ==> final(table).entries() == old(table).entries().insert(
            TableEntry { key: xxh3_digest(key@), offset, length },
        ),
        done is Ok && old(table).keys_unique() ==> final(table).keys_unique(),
        done matches Err(e) ==> e == ParseR3Error::DuplicateKeys && final(table).entries() == old(
            table,
        ).entries(),
        forall|h: u64|
            #[trigger] final(table).has_key(h) <==> old(table).has_key(h) || h == xxh3_digest(
                key@,
            ),
{
    let hash = hash_bytes(key);
    insert_hashed(table, hash, offset, length)
}

} // verus!
