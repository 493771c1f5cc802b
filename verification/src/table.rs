//! The locale table: one buffer that holds every value, and an index that
//! finds a value by the hash of its key.

use vstd::prelude::*;
use vstd::multiset::Multiset;
use vstd::slice::slice_subrange;
use vstd::string::StringSliceAdditionalSpecFns;
use vstd::utf8::valid_utf8;
use crate::errors::ParseR3Error;
use crate::index::{
    entry_with_key, hash_bytes, holds_key, insert_hashed, keys_unique_in, xxh3_digest, HashIndex,
    TableEntry,
};
use crate::text::decode_text;

verus! {

/// A table of values addressed by key hash. The values lie back to back in
/// one buffer; each entry of the index names the hash of a key and the
/// place of its value in the buffer. Buffer and index are private, so a
/// table can only be built by the operations below, which keep it
/// well-formed.
pub struct LocaleTable {
    unified_box: Vec<u8>,
    entries: HashIndex,
}

/// A buffer and a collection of entries as a map: each key hash with the
/// bytes that its entry addresses.
pub open spec fn content_view(buffer: Seq<u8>, entries: Multiset<TableEntry>) -> Map<
    u64,
    Seq<u8>,
> {
    Map::new(
        |hash: u64| holds_key(entries, hash),
        |hash: u64|
            buffer.subrange(
                entry_with_key(entries, hash).offset as int,
                entry_with_key(entries, hash).offset + entry_with_key(entries, hash).length,
            ),
    )
}

impl View for LocaleTable {
    type V = Map<u64, Seq<u8>>;

    /// The table as a map from key hash to value bytes.
    open spec fn view(&self) -> Map<u64, Seq<u8>> {
        content_view(self.buffer(), self.entry_set())
    }
}

impl LocaleTable {
    /// The bytes of the value buffer.
    pub closed spec fn buffer(&self) -> Seq<u8> {
        self.unified_box@
    }

    /// The entries of the index.
    pub closed spec fn entry_set(&self) -> Multiset<TableEntry> {
        self.entries.entries()
    }

    /// The bytes that an entry addresses.
    pub open spec fn value_of(&self, entry: TableEntry) -> Seq<u8> {
        self.buffer().subrange(entry.offset as int, entry.offset + entry.length)
    }

    /// Every entry lies inside the buffer, and every key hash occurs once.
    pub open spec fn wf(&self) -> bool {
        &&& keys_unique_in(self.entry_set())
        &&& forall|e: TableEntry| #[trigger]
            self.entry_set().contains(e) ==> e.offset + e.length <= self.buffer().len()
    }

    /// The entries, taken in the given order, lie back to back from the
    /// start of the buffer to its end.
    pub open spec fn packed_as(&self, order: Seq<TableEntry>) -> bool {
        &&& order.to_multiset() == self.entry_set()
        &&& order.len() > 0 ==> order[0].offset == 0
        &&& forall|i: int|
            0 <= i < order.len() - 1 ==> order[i + 1].offset == (#[trigger] order[i]).offset
                + order[i].length
        &&& self.buffer().len() == if order.len() == 0 {
            0
        } else {
            order.last().offset + order.last().length
        }
    }

    /// The buffer holds the values of the entries and nothing else: in some
    /// order the entries lie back to back and fill it.
    pub open spec fn is_packed(&self) -> bool {
        exists|order: Seq<TableEntry>| self.packed_as(order)
    }

    /// The buffer of a table is no longer than a vector can be.
    pub proof fn lemma_buffer_fits(&self)
        ensures
            self.buffer().len() <= usize::MAX,
    {
        assert(self.unified_box.len() == self.unified_box@.len());
    }

    /// In a well-formed table an entry's key maps to the bytes it addresses.
    pub proof fn lemma_entry_value(&self, entry: TableEntry)
        requires
            self.wf(),
            self.entry_set().contains(entry),
        ensures
            self@.dom().contains(entry.key),
            entry_with_key(self.entry_set(), entry.key) == entry,
            self@[entry.key] == self.value_of(entry),
    {
        assert(holds_key(self.entry_set(), entry.key));
        let chosen = entry_with_key(self.entry_set(), entry.key);
        assert(self.entry_set().contains(chosen) && chosen.key == entry.key);
    }

    /// The value buffer.
    pub fn value_buffer(&self) -> (bytes: &[u8])
        ensures
            bytes@ == self.buffer(),
    {
        self.unified_box.as_slice()
    }

    /// The entries of the index, in an order that the index chooses.
    pub fn entry_list(&self) -> (list: Vec<TableEntry>)
        ensures
            list@.to_multiset() == self.entry_set(),
    {
        self.entries.list()
    }

    /// A table without entries.
    pub fn new() -> (table: LocaleTable)
        ensures
            table.wf(),
            table.is_packed(),
            table.buffer() == Seq::<u8>::empty(),
            table.entry_set() == Multiset::<TableEntry>::empty(),
            table@ == Map::<u64, Seq<u8>>::empty(),
    {
        let table = LocaleTable { unified_box: Vec::new(), entries: HashIndex::new() };
        proof {
            assert(table@ =~= Map::<u64, Seq<u8>>::empty());
            let order = Seq::<TableEntry>::empty();
            order.to_multiset_ensures();
            assert(order.to_multiset() =~= Multiset::<TableEntry>::empty());
            assert(table.packed_as(order));
        }
        table
    }

    /// Appends a value to the buffer and enters it under a key hash, unless
    /// the table holds that hash. On `DuplicateKeys` the table is unchanged.
    pub fn insert_value(&mut self, hash: u64, value: &[u8]) -> (done: Result<(), ParseR3Error>)
        requires
            old(self).wf(),
        ensures
            final(self).wf(),
            old(self).is_packed() ==> final(self).is_packed(),
            done is Ok <==> !old(self)@.dom().contains(hash),
            done is Ok ==> {
                &&& final(self).buffer() == old(self).buffer() + value@
                &&& final(self).entry_set() == old(self).entry_set().insert(
                    TableEntry {
                        key: hash,
                        offset: old(self).buffer().len() as usize,
                        length: value@.len() as usize,
                    },
                )
                &&& final(self)@ == old(self)@.insert(hash, value@)
            },
            done matches Err(e) ==> {
                &&& e == ParseR3Error::DuplicateKeys
                &&& final(self).buffer() == old(self).buffer()
                &&& final(self).entry_set() == old(self).entry_set()
                &&& final(self)@ == old(self)@
            },
    {
        let offset = self.unified_box.len();
        let length = value.len();
        let ghost before = *self;
        match insert_hashed(&mut self.entries, hash, offset, length) {
            Ok(()) => {
                self.unified_box.extend_from_slice(value);
                proof {
                    let entry = TableEntry { key: hash, offset, length };
                    assert(self.buffer() =~= before.buffer() + value@);
                    assert(self.entry_set().contains(entry));
                    assert forall|e: TableEntry| #[trigger]
                        self.entry_set().contains(e) implies e.offset + e.length
                        <= self.buffer().len() by {
                        if e != entry {
                            assert(before.entry_set().contains(e));
                        }
                    }
                    assert forall|h: u64| #[trigger]
                        self@.dom().contains(h) <==> before@.insert(hash, value@).dom().contains(
                            h,
                        ) by {
                        if holds_key(self.entry_set(), h) {
                            let e = entry_with_key(self.entry_set(), h);
                            assert(self.entry_set().contains(e) && e.key == h);
                            if e != entry {
                                assert(before.entry_set().contains(e));
                                assert(holds_key(before.entry_set(), h));
                            }
                        }
                        if holds_key(before.entry_set(), h) {
                            let e = entry_with_key(before.entry_set(), h);
                            assert(before.entry_set().contains(e) && e.key == h);
                            assert(self.entry_set().contains(e));
                        }
                    }
                    assert forall|h: u64| #[trigger] self@.dom().contains(h) implies self@[h]
                        == before@.insert(hash, value@)[h] by {
                        if h == hash {
                            self.lemma_entry_value(entry);
                            assert(self.value_of(entry) =~= value@);
                        } else {
                            let e = entry_with_key(self.entry_set(), h);
                            assert(self.entry_set().contains(e) && e.key == h);
                            assert(before.entry_set().contains(e));
                            before.lemma_entry_value(e);
                            self.lemma_entry_value(e);
                            assert(self.value_of(e) =~= before.value_of(e));
                        }
                    }
                    assert(self@ =~= before@.insert(hash, value@));
                    if before.is_packed() {
                        let order = choose|order: Seq<TableEntry>| before.packed_as(order);
                        let longer = order.push(entry);
                        order.to_multiset_ensures();
                        assert(longer.to_multiset() =~= self.entry_set());
                        assert forall|i: int| 0 <= i < longer.len() - 1 implies longer[i
                            + 1].offset == (#[trigger] longer[i]).offset + longer[i].length by {
                            if i < order.len() - 1 {
                                assert(longer[i + 1] == order[i + 1]);
                                assert(longer[i] == order[i]);
                            } else {
                                assert(longer[i] == order.last());
                            }
                        }
                        assert(self.packed_as(longer));
                    }
                }
                Ok(())
            },
            Err(e) => {
                proof {
                    assert(self@ =~= before@);
                    if before.is_packed() {
                        let order = choose|order: Seq<TableEntry>| before.packed_as(order);
                        assert(self.packed_as(order));
                    }
                }
                Err(e)
            },
        }
    }

    /// Enters a value under the XXH3 digest of its key, unless the table
    /// holds that digest already.
    pub fn insert(&mut self, key: &[u8], value: &[u8]) -> (done: Result<(), ParseR3Error>)
        requires
            old(self).wf(),
        ensures
            final(self).wf(),
            old(self).is_packed() ==> final(self).is_packed(),
            done is Ok <==> !old(self)@.dom().contains(xxh3_digest(key@)),
            done is Ok ==> {
                &&& final(self).buffer() == old(self).buffer() + value@
                &&& final(self).entry_set() == old(self).entry_set().insert(
                    TableEntry {
                        key: xxh3_digest(key@),
                        offset: old(self).buffer().len() as usize,
                        length: value@.len() as usize,
                    },
                )
                &&& final(self)@ == old(self)@.insert(xxh3_digest(key@), value@)
            },
            done matches Err(e) ==> {
                &&& e == ParseR3Error::DuplicateKeys
                &&& final(self).buffer() == old(self).buffer()
                &&& final(self).entry_set() == old(self).entry_set()
                &&& final(self)@ == old(self)@
            },
    {
        let hash = hash_bytes(key);
        self.insert_value(hash, value)
    }

    /// Where the value of a key hash lies: its offset and length in the
    /// buffer.
    pub fn locate(&self, hash: u64) -> (place: Option<(usize, usize)>)
        requires
            self.wf(),
        ensures
            place is Some <==> self@.dom().contains(hash),
            place matches Some((offset, length)) ==> {
                &&& offset + length <= self.buffer().len()
                &&& self@[hash] == self.buffer().subrange(offset as int, offset + length)
                &&& self.entry_set().contains(TableEntry { key: hash, offset, length })
            },
    {
        match self.entries.find(hash) {
            Some(e) => {
                proof {
                    self.lemma_entry_value(e);
                }
                Some((e.offset, e.length))
            },
            None => None,
        }
    }

    /// The value bytes of a key hash.
    pub fn value_bytes(&self, hash: u64) -> (value: Option<&[u8]>)
        requires
            self.wf(),
        ensures
            value is Some <==> self@.dom().contains(hash),
            value matches Some(bytes) ==> bytes@ == self@[hash],
    {
        let buffer = self.unified_box.as_slice();
        let size = buffer.len();
        match self.locate(hash) {
            Some((offset, length)) => {
                assert(offset + length <= size);
                Some(slice_subrange(buffer, offset, offset + length))
            },
            None => None,
        }
    }

    /// The value of a key hash as text: `None` when the table lacks the
    /// hash, or when the value is not valid UTF-8.
    pub fn value_text(&self, hash: u64) -> (value: Option<&str>)
        requires
            self.wf(),
        ensures
            value is Some <==> self@.dom().contains(hash) && valid_utf8(self@[hash]),
            value matches Some(text) ==> text.spec_bytes() == self@[hash],
    {
        match self.value_bytes(hash) {
            Some(bytes) => decode_text(bytes),
            None => None,
        }
    }

    /// Every entry as its key hash and its value as text, in an order that
    /// the index chooses. The text is `None` where the value is not valid
    /// UTF-8. Each key hash of the table is listed once.
    pub fn listed_values<'a>(&'a self) -> (lines: Vec<(u64, Option<&'a str>)>)
        requires
            self.wf(),
        ensures
            lines@.len() == self.entry_set().len(),
            forall|i: int|
                0 <= i < lines@.len() ==> {
                    &&& self@.dom().contains((#[trigger] lines@[i]).0)
                    &&& lines@[i].1 is Some <==> valid_utf8(self@[lines@[i].0])
                    &&& lines@[i].1 matches Some(text) ==> text.spec_bytes() == self@[lines@[i].0]
                },
            forall|hash: u64|
                self@.dom().contains(hash) ==> exists|i: int|
                    0 <= i < lines@.len() && (#[trigger] lines@[i]).0 == hash,
    {
        let list = self.entries.list();
        let mut lines: Vec<(u64, Option<&'a str>)> = Vec::with_capacity(list.len());
        let mut j: usize = 0;
        proof {
            list@.to_multiset_ensures();
        }
        while j < list.len()
            invariant
                j <= list.len(),
                self.wf(),
                list@.to_multiset() == self.entry_set(),
                lines@.len() == j,
                forall|i: int|
                    0 <= i < j ==> {
                        &&& (#[trigger] lines@[i]).0 == list@[i].key
                        &&& self@.dom().contains(lines@[i].0)
                        &&& lines@[i].1 is Some <==> valid_utf8(self@[lines@[i].0])
                        &&& lines@[i].1 matches Some(text) ==> text.spec_bytes()
                            == self@[lines@[i].0]
                    },
            decreases list.len() - j,
        {
            let entry = list[j];
            proof {
                list@.to_multiset_ensures();
                assert(list@.contains(entry));
                self.lemma_entry_value(entry);
            }
            let text = self.value_text(entry.key);
            lines.push((entry.key, text));
            j += 1;
        }
        proof {
            list@.to_multiset_ensures();
            assert forall|hash: u64| self@.dom().contains(hash) implies exists|i: int|
                0 <= i < lines@.len() && (#[trigger] lines@[i]).0 == hash by {
                let e = entry_with_key(self.entry_set(), hash);
                assert(self.entry_set().contains(e) && e.key == hash);
                assert(list@.contains(e));
                let m = choose|m: int| 0 <= m < list@.len() && list@[m] == e;
                assert(lines@[m].0 == hash);
            }
        }
        lines
    }

    /// Where the value of a key lies: its offset and length in the buffer,
    /// or `None` when the table has no entry for the key.
    pub fn find_entry_raw(&self, key: &[u8]) -> (place: Option<(usize, usize)>)
        requires
            self.wf(),
        ensures
            place is Some <==> self@.dom().contains(xxh3_digest(key@)),
            place matches Some((offset, length)) ==> {
                &&& offset + length <= self.buffer().len()
                &&& self@[xxh3_digest(key@)] == self.buffer().subrange(
                    offset as int,
                    offset + length,
                )
            },
    {
        let hash = hash_bytes(key);
        self.locate(hash)
    }

    /// The value of a key as text, or `None` when the table has no entry
    /// for the key or the value is not valid UTF-8.
    pub fn find_entry(&self, key: &[u8]) -> (value: Option<&str>)
        requires
            self.wf(),
        ensures
            value is Some <==> self@.dom().contains(xxh3_digest(key@)) && valid_utf8(
                self@[xxh3_digest(key@)],
            ),
            value matches Some(text) ==> text.spec_bytes() == self@[xxh3_digest(key@)],
    {
        let hash = hash_bytes(key);
        self.value_text(hash)
    }
}

} // verus!
