//! From a sanitized buffer and its markers to a table.
//!
//! The i-th opening pairs with the i-th closing. The key of a pair lies
//! between its markers. Its value starts at the first line terminator
//! after the closing marker and ends at the next opening, or at the end of
//! the buffer. Keys and values are trimmed; a key is kept as its hash only.

use vstd::prelude::*;
use vstd::slice::slice_subrange;
use vstd::utf8::valid_utf8;
use crate::errors::ParseR3Error;
use crate::index::{entry_with_key, holds_key, xxh3_digest, TableEntry};
use crate::sanitizer::{
    has_comment_opener, lemma_span_has_no_comment_opener, sanitize_r3_locale_file, sanitized,
};
use crate::scanner::{closing_positions, opening_positions, scan_markers, scan_markers_simd};
use crate::search::first_byte;
use crate::table::LocaleTable;
use crate::text::{is_span_of, trim_span, trimmed_bytes, LINE_FEED};

verus! {

/// What building has produced so far: the value buffer and the entries in
/// the order in which they were made.
pub struct Draft {
    pub buffer: Seq<u8>,
    pub entries: Seq<TableEntry>,
}

/// The opening comes before the closing, and the closing marker lies
/// inside the buffer.
pub open spec fn pair_in_order(buf_len: int, open: usize, close: usize) -> bool {
    open < close && close + 2 <= buf_len
}

/// There are as many closings as openings, and every pair is in order.
pub open spec fn brackets_match(buf_len: int, openings: Seq<usize>, closings: Seq<usize>) -> bool {
    &&& openings.len() == closings.len()
    &&& forall|i: int|
        0 <= i < openings.len() ==> pair_in_order(buf_len, #[trigger] openings[i], closings[i])
}

/// Where the region of pair `i` ends: at the next opening, or at the end
/// of the buffer.
pub open spec fn region_end(buf_len: int, openings: Seq<usize>, i: int) -> int {
    if i + 1 < openings.len() {
        openings[i + 1] as int
    } else {
        buf_len
    }
}

/// `at` is the first line terminator in `from..to`.
pub open spec fn is_anchor(buf: Seq<u8>, from: int, to: int, at: int) -> bool {
    &&& 0 <= from <= at < to <= buf.len()
    &&& buf[at] == LINE_FEED
    &&& forall|p: int| from <= p < at ==> buf[p] != LINE_FEED
}

/// Pair `i` has a line terminator between its closing marker and the end
/// of its region.
pub open spec fn pair_anchored(
    buf: Seq<u8>,
    openings: Seq<usize>,
    closings: Seq<usize>,
    i: int,
) -> bool {
    exists|at: int|
        is_anchor(buf, closings[i] as int, region_end(buf.len() as int, openings, i), at)
}

/// Every pair has a line terminator that its value can start at.
pub open spec fn all_anchored(buf: Seq<u8>, openings: Seq<usize>, closings: Seq<usize>) -> bool {
    forall|i: int| 0 <= i < openings.len() ==> #[trigger] pair_anchored(buf, openings, closings, i)
}

/// Where the value of pair `i` starts: at the first line terminator after
/// its closing marker.
pub open spec fn value_start(
    buf: Seq<u8>,
    openings: Seq<usize>,
    closings: Seq<usize>,
    i: int,
) -> int {
    choose|at: int|
        is_anchor(buf, closings[i] as int, region_end(buf.len() as int, openings, i), at)
}

/// Where the key and the value of one pair lie in the buffer, before
/// trimming: the key in `key_start..key_end`, the value in
/// `value_start..value_end`.
#[derive(Clone, Copy, Debug, PartialEq, Eq, Structural)]
pub struct EntrySpans {
    pub key_start: usize,
    pub key_end: usize,
    pub value_start: usize,
    pub value_end: usize,
}

/// The spans of pair `i`. The key lies between the markers; markers that
/// touch leave an empty key. The value runs from the first line terminator
/// after the closing marker to the end of the pair's region.
pub open spec fn spans_of_pair(
    buf: Seq<u8>,
    openings: Seq<usize>,
    closings: Seq<usize>,
    i: int,
) -> EntrySpans {
    EntrySpans {
        key_start: if openings[i] + 2 <= closings[i] {
            (openings[i] + 2) as usize
        } else {
            closings[i]
        },
        key_end: closings[i],
        value_start: value_start(buf, openings, closings, i) as usize,
        value_end: region_end(buf.len() as int, openings, i) as usize,
    }
}

/// The spans of all pairs, in order.
pub open spec fn spans_of_pairs(
    buf: Seq<u8>,
    openings: Seq<usize>,
    closings: Seq<usize>,
) -> Seq<EntrySpans> {
    Seq::new(openings.len(), |i: int| spans_of_pair(buf, openings, closings, i))
}

/// The bytes between the markers of pair `i`, untrimmed.
pub open spec fn raw_key(buf: Seq<u8>, openings: Seq<usize>, closings: Seq<usize>, i: int) -> Seq<
    u8,
> {
    buf.subrange(
        spans_of_pair(buf, openings, closings, i).key_start as int,
        spans_of_pair(buf, openings, closings, i).key_end as int,
    )
}

/// The bytes of the value of pair `i`, untrimmed.
pub open spec fn raw_value(
    buf: Seq<u8>,
    openings: Seq<usize>,
    closings: Seq<usize>,
    i: int,
) -> Seq<u8> {
    buf.subrange(
        spans_of_pair(buf, openings, closings, i).value_start as int,
        spans_of_pair(buf, openings, closings, i).value_end as int,
    )
}

/// What cutting a buffer into spans gives: `BracketMismatch` when the
/// marker lists differ in length or a pair is out of order; else
/// `KeyValueMismatch` when a pair has no line terminator to start its value
/// at; else the spans of all pairs.
pub open spec fn segment_outcome(
    buf: Seq<u8>,
    openings: Seq<usize>,
    closings: Seq<usize>,
) -> Result<Seq<EntrySpans>, ParseR3Error> {
    if !brackets_match(buf.len() as int, openings, closings) {
        Err(ParseR3Error::BracketMismatch)
    } else if !all_anchored(buf, openings, closings) {
        Err(ParseR3Error::KeyValueMismatch)
    } else {
        Ok(spans_of_pairs(buf, openings, closings))
    }
}

/// Some entry of the list has the key `hash`.
pub open spec fn lists_key(entries: Seq<TableEntry>, hash: u64) -> bool {
    exists|j: int| 0 <= j < entries.len() && (#[trigger] entries[j]).key == hash
}

/// The draft after one more pair: its trimmed value appended to the buffer,
/// and an entry for the hash of its trimmed key. Fails with
/// `InvalidUTF8Value` when key or value is not valid UTF-8, and with
/// `DuplicateKeys` when the hash is already listed.
pub open spec fn with_pair(draft: Draft, key: Seq<u8>, value: Seq<u8>) -> Result<
    Draft,
    ParseR3Error,
> {
    if !valid_utf8(key) || !valid_utf8(value) {
        Err(ParseR3Error::InvalidUTF8Value)
    } else if lists_key(draft.entries, xxh3_digest(trimmed_bytes(key))) {
        Err(ParseR3Error::DuplicateKeys)
    } else {
        Ok(
            Draft {
                buffer: draft.buffer + trimmed_bytes(value),
                entries: draft.entries.push(
                    TableEntry {
                        key: xxh3_digest(trimmed_bytes(key)),
                        offset: draft.buffer.len() as usize,
                        length: trimmed_bytes(value).len() as usize,
                    },
                ),
            },
        )
    }
}

/// The draft after the first `n` pairs, or the error of the first pair
/// that fails.
pub open spec fn built_below(
    buf: Seq<u8>,
    openings: Seq<usize>,
    closings: Seq<usize>,
    n: int,
) -> Result<Draft, ParseR3Error>
    decreases n,
{
    if n <= 0 {
        Ok(Draft { buffer: Seq::empty(), entries: Seq::empty() })
    } else {
        match built_below(buf, openings, closings, n - 1) {
            Ok(draft) => with_pair(
                draft,
                raw_key(buf, openings, closings, n - 1),
                raw_value(buf, openings, closings, n - 1),
            ),
            Err(e) => Err(e),
        }
    }
}

/// What building a table from a buffer and its marker lists gives.
///
/// `BracketMismatch` when the lists differ in length or a pair is out of
/// order; else `KeyValueMismatch` when a pair has no line terminator to
/// start its value at; else the pairs are entered in order, and the first
/// one that fails decides the error.
pub open spec fn build_outcome(buf: Seq<u8>, openings: Seq<usize>, closings: Seq<usize>) -> Result<
    Draft,
    ParseR3Error,
> {
    if !brackets_match(buf.len() as int, openings, closings) {
        Err(ParseR3Error::BracketMismatch)
    } else if !all_anchored(buf, openings, closings) {
        Err(ParseR3Error::KeyValueMismatch)
    } else {
        built_below(buf, openings, closings, openings.len() as int)
    }
}

/// What parsing a raw document gives: `InvalidUTF8Value` when it is not
/// valid UTF-8, else what building gives on the sanitized document and the
/// markers found in it.
pub open spec fn parse_outcome(raw: Seq<u8>) -> Result<Draft, ParseR3Error> {
    if !valid_utf8(raw) {
        Err(ParseR3Error::InvalidUTF8Value)
    } else {
        build_outcome(
            sanitized(raw),
            opening_positions(sanitized(raw)),
            closing_positions(sanitized(raw)),
        )
    }
}

/// The hash under which pair `i` is entered: the digest of its trimmed key.
pub open spec fn key_hash(buf: Seq<u8>, openings: Seq<usize>, closings: Seq<usize>, i: int) -> u64 {
    xxh3_digest(trimmed_bytes(raw_key(buf, openings, closings, i)))
}

/// The bytes entered for pair `i`: its trimmed value.
pub open spec fn trimmed_value(
    buf: Seq<u8>,
    openings: Seq<usize>,
    closings: Seq<usize>,
    i: int,
) -> Seq<u8> {
    trimmed_bytes(raw_value(buf, openings, closings, i))
}

/// The result holds exactly the table of the draft, or exactly its error.
pub open spec fn realizes(
    built: Result<LocaleTable, ParseR3Error>,
    outcome: Result<Draft, ParseR3Error>,
) -> bool {
    match outcome {
        Ok(draft) => {
            &&& built matches Ok(table)
            &&& table.wf()
            &&& table.is_packed()
            &&& table.buffer() == draft.buffer
            &&& table.entry_set() == draft.entries.to_multiset()
        },
        Err(e) => built matches Err(x) && x == e,
    }
}

/// Every value of the table is a contiguous run of bytes of `buf`.
pub open spec fn values_cut_from(table: LocaleTable, buf: Seq<u8>) -> bool {
    forall|hash: u64| #[trigger] table@.dom().contains(hash) ==> is_span_of(table@[hash], buf)
}

/// No value of the table holds two adjacent `#`.
pub open spec fn values_free_of_comments(table: LocaleTable) -> bool {
    forall|hash: u64| #[trigger] table@.dom().contains(hash) ==> !has_comment_opener(table@[hash])
}

proof fn lemma_error_stays(
    buf: Seq<u8>,
    openings: Seq<usize>,
    closings: Seq<usize>,
    from: int,
    to: int,
)
    requires
        from <= to,
        built_below(buf, openings, closings, from) is Err,
    ensures
        built_below(buf, openings, closings, to) == built_below(buf, openings, closings, from),
    decreases to - from,
{
    if from < to {
        lemma_error_stays(buf, openings, closings, from, to - 1);
    }
}

proof fn lemma_span_of_span(part: Seq<u8>, middle: Seq<u8>, whole: Seq<u8>, from: int, to: int)
    requires
        is_span_of(part, middle),
        0 <= from <= to <= whole.len(),
        middle == whole.subrange(from, to),
    ensures
        is_span_of(part, whole),
{
    let (a, b) = choose|a: int, b: int|
        0 <= a <= b <= middle.len() && part == #[trigger] middle.subrange(a, b);
    assert(part =~= whole.subrange(from + a, from + b));
}

/// In the draft of the first `n` pairs the j-th entry belongs to the j-th
/// pair: it has the pair's key hash and addresses the pair's trimmed value.
/// No two pairs share a key hash.
proof fn lemma_draft_layout(buf: Seq<u8>, openings: Seq<usize>, closings: Seq<usize>, n: int)
    requires
        0 <= n,
        built_below(buf, openings, closings, n) is Ok,
        built_below(buf, openings, closings, n)->Ok_0.buffer.len() <= usize::MAX,
    ensures
        ({
            let draft = built_below(buf, openings, closings, n)->Ok_0;
            &&& draft.entries.len() == n
            &&& forall|j: int|
                0 <= j < n ==> {
                    &&& (#[trigger] draft.entries[j]).key == key_hash(buf, openings, closings, j)
                    &&& draft.entries[j].offset + draft.entries[j].length <= draft.buffer.len()
                    &&& draft.buffer.subrange(
                        draft.entries[j].offset as int,
                        draft.entries[j].offset + draft.entries[j].length,
                    ) == trimmed_value(buf, openings, closings, j)
                }
            &&& forall|j: int, k: int|
                0 <= j < k < n ==> key_hash(buf, openings, closings, j) != key_hash(
                    buf,
                    openings,
                    closings,
                    k,
                )
        }),
    decreases n,
{
    if n > 0 {
        let earlier = built_below(buf, openings, closings, n - 1)->Ok_0;
        let draft = built_below(buf, openings, closings, n)->Ok_0;
        let value = trimmed_value(buf, openings, closings, n - 1);
        assert(built_below(buf, openings, closings, n - 1) is Ok);
        assert(draft.buffer == earlier.buffer + value);
        lemma_draft_layout(buf, openings, closings, n - 1);
        assert forall|j: int| 0 <= j < n implies {
            &&& (#[trigger] draft.entries[j]).key == key_hash(buf, openings, closings, j)
            &&& draft.entries[j].offset + draft.entries[j].length <= draft.buffer.len()
            &&& draft.buffer.subrange(
                draft.entries[j].offset as int,
                draft.entries[j].offset + draft.entries[j].length,
            ) == trimmed_value(buf, openings, closings, j)
        } by {
            if j < n - 1 {
                assert(draft.entries[j] == earlier.entries[j]);
                assert(draft.buffer.subrange(
                    draft.entries[j].offset as int,
                    draft.entries[j].offset + draft.entries[j].length,
                ) =~= earlier.buffer.subrange(
                    earlier.entries[j].offset as int,
                    earlier.entries[j].offset + earlier.entries[j].length,
                ));
            } else {
                assert(draft.buffer.subrange(
                    earlier.buffer.len() as int,
                    (earlier.buffer.len() + value.len()) as int,
                ) =~= value);
            }
        }
        assert forall|j: int, k: int| 0 <= j < k < n implies key_hash(buf, openings, closings, j)
            != key_hash(buf, openings, closings, k) by {
            if k == n - 1 {
                assert(earlier.entries[j].key == key_hash(buf, openings, closings, j));
            }
        }
    }
}

/// A table that was built holds every pair of the buffer and nothing else:
/// the hash of each trimmed key maps to the pair's trimmed value, and every
/// key hash of the table is that of some pair.
pub proof fn built_table_holds_every_pair(
    table: LocaleTable,
    buf: Seq<u8>,
    openings: Seq<usize>,
    closings: Seq<usize>,
)
    requires
        realizes(Ok(table), build_outcome(buf, openings, closings)),
    ensures
        forall|i: int|
            0 <= i < openings.len() ==> {
                &&& table@.dom().contains(#[trigger] key_hash(buf, openings, closings, i))
                &&& table@[key_hash(buf, openings, closings, i)] == trimmed_value(
                    buf,
                    openings,
                    closings,
                    i,
                )
            },
        forall|hash: u64|
            table@.dom().contains(hash) ==> exists|i: int|
                0 <= i < openings.len() && #[trigger] key_hash(buf, openings, closings, i) == hash,
{
    let n = openings.len() as int;
    let draft = built_below(buf, openings, closings, n)->Ok_0;
    table.lemma_buffer_fits();
    lemma_draft_layout(buf, openings, closings, n);
    draft.entries.to_multiset_ensures();
    assert forall|i: int| 0 <= i < n implies {
        &&& table@.dom().contains(#[trigger] key_hash(buf, openings, closings, i))
        &&& table@[key_hash(buf, openings, closings, i)] == trimmed_value(
            buf,
            openings,
            closings,
            i,
        )
    } by {
        let entry = draft.entries[i];
        assert(draft.entries.contains(entry));
        table.lemma_entry_value(entry);
    }
    assert forall|hash: u64| table@.dom().contains(hash) implies exists|i: int|
        0 <= i < n && #[trigger] key_hash(buf, openings, closings, i) == hash by {
        let entry = entry_with_key(table.entry_set(), hash);
        assert(table.entry_set().contains(entry) && entry.key == hash);
        assert(draft.entries.contains(entry));
        let i = choose|i: int| 0 <= i < draft.entries.len() && draft.entries[i] == entry;
        assert(key_hash(buf, openings, closings, i) == hash);
    }
}

/// A table that was parsed from a document holds every pair of the
/// sanitized document and nothing else.
pub proof fn parsed_table_holds_every_pair(table: LocaleTable, raw: Seq<u8>)
    requires
        realizes(Ok(table), parse_outcome(raw)),
    ensures
        valid_utf8(raw),
        ({
            let buf = sanitized(raw);
            let openings = opening_positions(buf);
            let closings = closing_positions(buf);
            &&& forall|i: int|
                0 <= i < openings.len() ==> {
                    &&& table@.dom().contains(#[trigger] key_hash(buf, openings, closings, i))
                    &&& table@[key_hash(buf, openings, closings, i)] == trimmed_value(
                        buf,
                        openings,
                        closings,
                        i,
                    )
                }
            &&& forall|hash: u64|
                table@.dom().contains(hash) ==> exists|i: int|
                    0 <= i < openings.len() && #[trigger] key_hash(buf, openings, closings, i)
                        == hash
        }),
{
    let buf = sanitized(raw);
    built_table_holds_every_pair(table, buf, opening_positions(buf), closing_positions(buf));
}

/// Whether the marker lists pair up: equal in length, every opening before
/// its closing, every closing marker inside the buffer.
pub fn brackets_pair_up(buf_len: usize, openings: &[usize], closings: &[usize]) -> (ok: bool)
    ensures
        ok == brackets_match(buf_len as int, openings@, closings@),
{
    if openings.len() != closings.len() {
        return false;
    }
    let mut i: usize = 0;
    while i < openings.len()
        invariant
            i <= openings.len(),
            openings.len() == closings.len(),
            forall|j: int|
                0 <= j < i ==> pair_in_order(buf_len as int, #[trigger] openings@[j], closings@[j]),
        decreases openings.len() - i,
    {
        let open = openings[i];
        let close = closings[i];
        if !(open < close && buf_len >= 2 && close <= buf_len - 2) {
            assert(!pair_in_order(buf_len as int, openings@[i as int], closings@[i as int]));
            return false;
        }
        i += 1;
    }
    true
}

/// Cuts a buffer into the spans of its pairs. The result is exactly what
/// `segment_outcome` describes.
pub fn segment_document(buf: &[u8], openings: &[usize], closings: &[usize]) -> (cut: Result<
    Vec<EntrySpans>,
    ParseR3Error,
>)
    ensures
        match segment_outcome(buf@, openings@, closings@) {
            Ok(spans) => cut matches Ok(list) && list@ == spans,
            Err(e) => cut matches Err(x) && x == e,
        },
{
    if !brackets_pair_up(buf.len(), openings, closings) {
        return Err(ParseR3Error::BracketMismatch);
    }
    let count = openings.len();
    let mut list: Vec<EntrySpans> = Vec::with_capacity(count);
    let mut i: usize = 0;
    while i < count
        invariant
            count == openings.len(),
            i <= count,
            brackets_match(buf@.len() as int, openings@, closings@),
            list@.len() == i,
            forall|j: int| 0 <= j < i ==> #[trigger] pair_anchored(buf@, openings@, closings@, j),
            forall|j: int|
                0 <= j < i ==> #[trigger] list@[j] == spans_of_pair(buf@, openings@, closings@, j),
        decreases count - i,
    {
        let open = openings[i];
        let close = closings[i];
        let end = if i + 1 < count {
            openings[i + 1]
        } else {
            buf.len()
        };
        proof {
            assert(pair_in_order(buf@.len() as int, openings@[i as int], closings@[i as int]));
            if i + 1 < count {
                assert(pair_in_order(buf@.len() as int, openings@[i + 1], closings@[i + 1]));
            }
            assert(end == region_end(buf@.len() as int, openings@, i as int));
        }
        if close >= end {
            assert(!pair_anchored(buf@, openings@, closings@, i as int));
            return Err(ParseR3Error::KeyValueMismatch);
        }
        let region = slice_subrange(buf, close, end);
        match first_byte(LINE_FEED, region) {
            Some(off) => {
                let at = close + off;
                proof {
                    assert(region@[off as int] == buf@[at as int]);
                    assert forall|p: int| close <= p < at implies buf@[p] != LINE_FEED by {
                        assert(region@[p - close] == buf@[p]);
                    }
                    assert(is_anchor(buf@, close as int, end as int, at as int));
                    assert(pair_anchored(buf@, openings@, closings@, i as int));
                    let chosen = value_start(buf@, openings@, closings@, i as int);
                    assert(is_anchor(buf@, close as int, end as int, chosen));
                    assert(chosen == at);
                }
                let key_start = if open + 2 <= close {
                    open + 2
                } else {
                    close
                };
                list.push(
                    EntrySpans { key_start, key_end: close, value_start: at, value_end: end },
                );
            },
            None => {
                proof {
                    assert forall|at: int| !is_anchor(buf@, close as int, end as int, at) by {
                        if is_anchor(buf@, close as int, end as int, at) {
                            assert(region@[at - close] == buf@[at]);
                        }
                    }
                    assert(!pair_anchored(buf@, openings@, closings@, i as int));
                }
                return Err(ParseR3Error::KeyValueMismatch);
            },
        }
        i += 1;
    }
    proof {
        assert(list@ =~= spans_of_pairs(buf@, openings@, closings@));
    }
    Ok(list)
}

/// Builds a table from a sanitized buffer and the positions of its
/// markers. The result is exactly what `build_outcome` describes, and every
/// value of the table is cut from the buffer.
pub fn build_locale_table(buf: &[u8], openings: &[usize], closings: &[usize]) -> (built: Result<
    LocaleTable,
    ParseR3Error,
>)
    ensures
        realizes(built, build_outcome(buf@, openings@, closings@)),
        built matches Ok(table) ==> values_cut_from(table, buf@),
{
    let spans = match segment_document(buf, openings, closings) {
        Ok(list) => list,
        Err(e) => {
            return Err(e);
        },
    };
    let count = spans.len();
    let size = buf.len();
    let mut table = LocaleTable::new();
    let ghost mut listed: Seq<TableEntry> = Seq::empty();
    let mut i: usize = 0;
    proof {
        listed.to_multiset_ensures();
        assert(listed.to_multiset() =~= vstd::multiset::Multiset::<TableEntry>::empty());
    }
    while i < count
        invariant
            count == openings@.len(),
            i <= count,
            brackets_match(buf@.len() as int, openings@, closings@),
            all_anchored(buf@, openings@, closings@),
            spans@ == spans_of_pairs(buf@, openings@, closings@),
            size == buf@.len(),
            table.wf(),
            table.is_packed(),
            built_below(buf@, openings@, closings@, i as int) == Ok::<Draft, ParseR3Error>(
                Draft { buffer: table.buffer(), entries: listed },
            ),
            table.entry_set() == listed.to_multiset(),
            values_cut_from(table, buf@),
        decreases count - i,
    {
        let span = spans[i];
        proof {
            assert(span == spans_of_pair(buf@, openings@, closings@, i as int));
            assert(pair_in_order(buf@.len() as int, openings@[i as int], closings@[i as int]));
            if i + 1 < count {
                assert(pair_in_order(buf@.len() as int, openings@[i + 1], closings@[i + 1]));
            }
            assert(pair_anchored(buf@, openings@, closings@, i as int));
            assert(is_anchor(
                buf@,
                closings@[i as int] as int,
                region_end(buf@.len() as int, openings@, i as int),
                value_start(buf@, openings@, closings@, i as int),
            ));
        }
        assert(span.key_start <= span.key_end <= size);
        assert(span.value_start <= span.value_end <= size);
        let key_span = slice_subrange(buf, span.key_start, span.key_end);
        let value_span = slice_subrange(buf, span.value_start, span.value_end);
        let ghost start = span.value_start;
        let ghost end = span.value_end;
        proof {
            assert(key_span@ == raw_key(buf@, openings@, closings@, i as int));
            assert(value_span@ == raw_value(buf@, openings@, closings@, i as int));
        }
        let ghost draft = Draft { buffer: table.buffer(), entries: listed };
        let ghost next = with_pair(draft, key_span@, value_span@);
        assert(built_below(buf@, openings@, closings@, i + 1) == next);
        let key = match trim_span(key_span) {
            Some(bytes) => bytes,
            None => {
                proof {
                    lemma_error_stays(buf@, openings@, closings@, i + 1, count as int);
                }
                return Err(ParseR3Error::InvalidUTF8Value);
            },
        };
        let value = match trim_span(value_span) {
            Some(bytes) => bytes,
            None => {
                proof {
                    lemma_error_stays(buf@, openings@, closings@, i + 1, count as int);
                }
                return Err(ParseR3Error::InvalidUTF8Value);
            },
        };
        let ghost hash = xxh3_digest(key@);
        proof {
            listed.to_multiset_ensures();
            if lists_key(listed, hash) {
                let j = choose|j: int| 0 <= j < listed.len() && (#[trigger] listed[j]).key == hash;
                assert(listed.contains(listed[j]));
                assert(table.entry_set().contains(listed[j]));
                assert(holds_key(table.entry_set(), hash));
            }
            if holds_key(table.entry_set(), hash) {
                let e = entry_with_key(table.entry_set(), hash);
                assert(table.entry_set().contains(e) && e.key == hash);
                assert(listed.contains(e));
                let j = choose|j: int| 0 <= j < listed.len() && listed[j] == e;
                assert(listed[j].key == hash);
            }
            assert(table@.dom().contains(hash) <==> lists_key(listed, hash));
        }
        let ghost before = table;
        match table.insert(key, value) {
            Ok(()) => {
                proof {
                    let entry = TableEntry {
                        key: hash,
                        offset: before.buffer().len() as usize,
                        length: value@.len() as usize,
                    };
                    listed = listed.push(entry);
                    lemma_span_of_span(value@, value_span@, buf@, start as int, end as int);
                    assert forall|h: u64| #[trigger] table@.dom().contains(h) implies is_span_of(
                        table@[h],
                        buf@,
                    ) by {
                        if h != hash {
                            assert(before@.dom().contains(h));
                        }
                    }
                }
            },
            Err(_) => {
                proof {
                    lemma_error_stays(buf@, openings@, closings@, i + 1, count as int);
                }
                return Err(ParseR3Error::DuplicateKeys);
            },
        }
        i += 1;
    }
    Ok(table)
}

/// Builds the table of a sanitized buffer whose markers have been found.
fn build_sanitized(buffer: &[u8], markers: &(Vec<usize>, Vec<usize>)) -> (built: Result<
    LocaleTable,
    ParseR3Error,
>)
    requires
        !has_comment_opener(buffer@),
    ensures
        realizes(built, build_outcome(buffer@, markers.0@, markers.1@)),
        built matches Ok(table) ==> values_free_of_comments(table),
{
    let built = build_locale_table(buffer, markers.0.as_slice(), markers.1.as_slice());
    proof {
        if built is Ok {
            let table = built->Ok_0;
            assert forall|hash: u64| #[trigger] table@.dom().contains(hash) implies
                !has_comment_opener(table@[hash]) by {
                lemma_span_has_no_comment_opener(table@[hash], buffer@);
            }
        }
    }
    built
}

/// Parses a document: sanitizes it, finds its markers by substring search
/// and builds the table. The result is exactly what `parse_outcome`
/// describes, and no value of the table holds any part of a comment.
pub fn parse_r3locale_bytes(bytes: &[u8]) -> (parsed: Result<LocaleTable, ParseR3Error>)
    ensures
        realizes(parsed, parse_outcome(bytes@)),
        parsed matches Ok(table) ==> values_free_of_comments(table),
{
    let buffer = match sanitize_r3_locale_file(bytes) {
        Ok(cleaned) => cleaned,
        Err(e) => {
            return Err(e);
        },
    };
    let markers = scan_markers(buffer.as_slice());
    build_sanitized(buffer.as_slice(), &markers)
}

/// Parses a document as `parse_r3locale_bytes` does, with the markers found
/// by the chunked scan of the given lane width. The result is the same for
/// every lane width.
pub fn parse_r3locale_bytes_simd(bytes: &[u8], lanes: usize) -> (parsed: Result<
    LocaleTable,
    ParseR3Error,
>)
    requires
        1 <= lanes <= 64,
    ensures
        realizes(parsed, parse_outcome(bytes@)),
        parsed matches Ok(table) ==> values_free_of_comments(table),
{
    let buffer = match sanitize_r3_locale_file(bytes) {
        Ok(cleaned) => cleaned,
        Err(e) => {
            return Err(e);
        },
    };
    let markers = scan_markers_simd(buffer.as_slice(), lanes);
    build_sanitized(buffer.as_slice(), &markers)
}

} // verus!
