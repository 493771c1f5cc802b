//! The surface for callers that own nothing: every operation takes plain
//! values, checks them, and answers with a payload and an outcome code
//! instead of failing.

use vstd::prelude::*;
use vstd::string::StringSliceAdditionalSpecFns;
use vstd::utf8::valid_utf8;
use crate::errors::{FindEntryError, MergeTableError, ParseR3Error};
use crate::index::xxh3_digest;
use crate::merge::{merge_locale_table_internal, merged_view, views_of};
use crate::parser::{parse_outcome, parse_r3locale_bytes, realizes, Draft};
use crate::table::{content_view, LocaleTable};
use crate::text::decode_text;

verus! {

/// A table, or the reason why there is none.
pub struct AllocationResult {
    pub table: Option<LocaleTable>,
    pub allocation_state: ParseR3Error,
}

/// Where a value lies in the buffer of its table, or the reason why it was
/// not found. Offset and length are zero unless the state is `Normal`.
#[derive(Clone, Copy, Debug, PartialEq, Eq, Structural)]
pub struct FindEntryResult {
    pub value_offset: usize,
    pub value_len: usize,
    pub allocation_state: FindEntryError,
}

/// A merged table and the outcome of the merge.
pub struct MergeResult {
    pub table: Option<LocaleTable>,
    pub merge_state: MergeTableError,
}

/// What a source gives: the outcome of parsing its bytes, or the error met
/// while the bytes were fetched.
pub open spec fn source_outcome(source: Result<Vec<u8>, ParseR3Error>) -> Result<
    Draft,
    ParseR3Error,
> {
    match source {
        Ok(bytes) => parse_outcome(bytes@),
        Err(e) => Err(e),
    }
}

/// The error of the first of the first `n` sources that gives one.
pub open spec fn failure_below(sources: Seq<Result<Vec<u8>, ParseR3Error>>, n: int) -> Option<
    ParseR3Error,
>
    decreases n,
{
    if n <= 0 {
        None
    } else {
        match failure_below(sources, n - 1) {
            Some(e) => Some(e),
            None => match source_outcome(sources[n - 1]) {
                Ok(_) => None,
                Err(e) => Some(e),
            },
        }
    }
}

/// A draft as a map from key hash to value bytes.
pub open spec fn draft_view(draft: Draft) -> Map<u64, Seq<u8>> {
    content_view(draft.buffer, draft.entries.to_multiset())
}

/// The tables that the sources parse to, as maps.
pub open spec fn parsed_views(sources: Seq<Result<Vec<u8>, ParseR3Error>>) -> Seq<
    Map<u64, Seq<u8>>,
> {
    Seq::new(sources.len(), |i: int| draft_view(source_outcome(sources[i])->Ok_0))
}

proof fn lemma_failure_stays(sources: Seq<Result<Vec<u8>, ParseR3Error>>, from: int, to: int)
    requires
        from <= to,
        failure_below(sources, from) is Some,
    ensures
        failure_below(sources, to) == failure_below(sources, from),
    decreases to - from,
{
    if from < to {
        lemma_failure_stays(sources, from, to - 1);
    }
}

/// Checks a path handed in as bytes. `NullPathProvided` when there is
/// none, `InvalidUTF8Path` when the bytes are not valid UTF-8, and
/// otherwise the path as text.
pub fn check_path<'a>(path: Option<&'a [u8]>) -> (checked: Result<&'a str, ParseR3Error>)
    ensures
        match path {
            None => checked == Err::<&str, ParseR3Error>(ParseR3Error::NullPathProvided),
            Some(bytes) => if valid_utf8(bytes@) {
                checked matches Ok(text) && text.spec_bytes() == bytes@
            } else {
                checked == Err::<&str, ParseR3Error>(ParseR3Error::InvalidUTF8Path)
            },
        },
{
    match path {
        None => Err(ParseR3Error::NullPathProvided),
        Some(bytes) => match decode_text(bytes) {
            Some(text) => Ok(text),
            None => Err(ParseR3Error::InvalidUTF8Path),
        },
    }
}

/// Turns the outcome of parsing into a payload and a state: the table
/// with `Normal`, or no table with the error.
pub fn allocation_of(parsed: Result<LocaleTable, ParseR3Error>) -> (result: AllocationResult)
    ensures
        match parsed {
            Ok(table) => result.table == Some(table) && result.allocation_state
                == ParseR3Error::Normal,
            Err(e) => result.table is None && result.allocation_state == e,
        },
{
    match parsed {
        Ok(table) => AllocationResult {
            table: Some(table),
            allocation_state: ParseR3Error::Normal,
        },
        Err(e) => AllocationResult { table: None, allocation_state: e },
    }
}

/// Parses the document of one source. The source is the bytes of the
/// document, or the error met while they were fetched, which is handed on.
pub fn get_locale_table(source: Result<&[u8], ParseR3Error>) -> (result: AllocationResult)
    ensures
        match source {
            Err(e) => result.table is None && result.allocation_state == e,
            Ok(bytes) => match parse_outcome(bytes@) {
                Err(e) => result.table is None && result.allocation_state == e,
                Ok(draft) => {
                    &&& result.allocation_state == ParseR3Error::Normal
                    &&& result.table matches Some(table)
                    &&& realizes(Ok(table), Ok(draft))
                },
            },
        },
{
    match source {
        Err(e) => AllocationResult { table: None, allocation_state: e },
        Ok(bytes) => allocation_of(parse_r3locale_bytes(bytes)),
    }
}

/// Parses the documents of several sources and merges their tables, the
/// first source taking precedence. Stops at the first source that fails,
/// in the order given, and reports its error.
pub fn get_multiple_locale_tables(sources: &[Result<Vec<u8>, ParseR3Error>]) -> (result:
    AllocationResult)
    ensures
        match failure_below(sources@, sources@.len() as int) {
            Some(e) => result.table is None && result.allocation_state == e,
            None => {
                &&& result.allocation_state == ParseR3Error::Normal
                &&& result.table matches Some(table)
                &&& table.wf()
                &&& table.is_packed()
                &&& table@ == merged_view(parsed_views(sources@))
            },
        },
{
    let count = sources.len();
    let mut parsed_tables: Vec<LocaleTable> = Vec::with_capacity(count);
    let mut i: usize = 0;
    while i < count
        invariant
            count == sources@.len(),
            i <= count,
            parsed_tables@.len() == i,
            failure_below(sources@, i as int) is None,
            forall|j: int|
                0 <= j < i ==> {
                    &&& (#[trigger] parsed_tables@[j]).wf()
                    &&& source_outcome(sources@[j]) is Ok
                    &&& parsed_tables@[j]@ == draft_view(source_outcome(sources@[j])->Ok_0)
                },
        decreases count - i,
    {
        let parsed = match &sources[i] {
            Ok(bytes) => parse_r3locale_bytes(bytes.as_slice()),
            Err(e) => Err(*e),
        };
        match parsed {
            Ok(table) => {
                parsed_tables.push(table);
            },
            Err(e) => {
                proof {
                    assert(failure_below(sources@, i + 1) == Some(e));
                    lemma_failure_stays(sources@, i + 1, count as int);
                }
                return AllocationResult { table: None, allocation_state: e };
            },
        }
        i += 1;
    }
    let mut references: Vec<&LocaleTable> = Vec::with_capacity(count);
    let mut k: usize = 0;
    while k < count
        invariant
            count == parsed_tables@.len(),
            k <= count,
            references@.len() == k,
            forall|j: int| 0 <= j < k ==> *(#[trigger] references@[j]) == parsed_tables@[j],
        decreases count - k,
    {
        references.push(&parsed_tables[k]);
        k += 1;
    }
    let merged = merge_locale_table_internal(references.as_slice());
    proof {
        assert(views_of(references@) =~= parsed_views(sources@));
    }
    AllocationResult { table: Some(merged), allocation_state: ParseR3Error::Normal }
}

/// Looks a key up for a caller that may hand in nothing. `NullTable`
/// without a table, `NullKeyPtr` without a key, `NoEntryFound` when the
/// table has no entry for the key; otherwise `Normal` with the place of the
/// value in the table's buffer.
pub fn get_entry(table: Option<&LocaleTable>, key: Option<&[u8]>) -> (found: FindEntryResult)
    requires
        table matches Some(t) ==> t.wf(),
    ensures
        match (table, key) {
            (None, _) => found == (FindEntryResult {
                value_offset: 0,
                value_len: 0,
                allocation_state: FindEntryError::NullTable,
            }),
            (Some(_), None) => found == (FindEntryResult {
                value_offset: 0,
                value_len: 0,
                allocation_state: FindEntryError::NullKeyPtr,
            }),
            (Some(t), Some(k)) => if t@.dom().contains(xxh3_digest(k@)) {
                &&& found.allocation_state == FindEntryError::Normal
                &&& found.value_offset + found.value_len <= t.buffer().len()
                &&& t@[xxh3_digest(k@)] == t.buffer().subrange(
                    found.value_offset as int,
                    found.value_offset + found.value_len,
                )
            } else {
                found == (FindEntryResult {
                    value_offset: 0,
                    value_len: 0,
                    allocation_state: FindEntryError::NoEntryFound,
                })
            },
        },
{
    let table = match table {
        Some(t) => t,
        None => {
            return FindEntryResult {
                value_offset: 0,
                value_len: 0,
                allocation_state: FindEntryError::NullTable,
            };
        },
    };
    let key = match key {
        Some(k) => k,
        None => {
            return FindEntryResult {
                value_offset: 0,
                value_len: 0,
                allocation_state: FindEntryError::NullKeyPtr,
            };
        },
    };
    match table.find_entry_raw(key) {
        Some((offset, length)) => FindEntryResult {
            value_offset: offset,
            value_len: length,
            allocation_state: FindEntryError::Normal,
        },
        None => FindEntryResult {
            value_offset: 0,
            value_len: 0,
            allocation_state: FindEntryError::NoEntryFound,
        },
    }
}

/// Merges tables for a caller that may hand in nothing: no tables, no
/// result.
pub fn merge_locale_table(tables: Option<&[&LocaleTable]>) -> (merged: Option<LocaleTable>)
    requires
        tables matches Some(list) ==> forall|i: int|
            0 <= i < list@.len() ==> (#[trigger] list@[i]).wf(),
    ensures
        tables is None <==> merged is None,
        tables matches Some(list) ==> {
            &&& merged matches Some(table)
            &&& table.wf()
            &&& table.is_packed()
            &&& table@ == merged_view(views_of(list@))
        },
{
    match tables {
        Some(list) => Some(merge_locale_table_internal(list)),
        None => None,
    }
}

/// Merges tables and reports the outcome, which is always `Normal`.
pub fn merge_locale_table_rust(tables: &[&LocaleTable]) -> (result: MergeResult)
    requires
        forall|i: int| 0 <= i < tables@.len() ==> (#[trigger] tables@[i]).wf(),
    ensures
        result.merge_state == MergeTableError::Normal,
        result.table matches Some(table) && table.wf() && table.is_packed() && table@
            == merged_view(views_of(tables@)),
{
    MergeResult {
        table: Some(merge_locale_table_internal(tables)),
        merge_state: MergeTableError::Normal,
    }
}

} // verus!
