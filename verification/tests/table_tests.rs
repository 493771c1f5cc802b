use reloaded3_localisation::errors::{FindEntryError, MergeTableError, ParseR3Error};
use reloaded3_localisation::index::{insert, insert_hashed, insert_into_hashtable, HashIndex};
use reloaded3_localisation::interop::{
    allocation_of, check_path, get_entry, get_locale_table, get_multiple_locale_tables,
    merge_locale_table, merge_locale_table_rust, FindEntryResult,
};
use reloaded3_localisation::merge::merge_locale_table_internal;
use reloaded3_localisation::parser::{parse_r3locale_bytes, segment_document, EntrySpans};
use reloaded3_localisation::table::LocaleTable;
use reloaded3_localisation::text::{is_utf8, trim_span};

#[test]
fn hashing_matches_xxh3() {
    let mut index = HashIndex::new();
    assert_eq!(insert_into_hashtable(&mut index, b"hello", 3, 4), Ok(()));
    let found = index.find(xxhash_rust::xxh3::xxh3_64(b"hello")).unwrap();
    assert_eq!((found.key, found.offset, found.length), (0x9555e8555c62dcfd, 3, 4));
    assert!(index.find(xxhash_rust::xxh3::xxh3_64(b"hellp")).is_none());
}

#[test]
fn insert_into_hashtable_rejects_a_second_entry_for_a_key() {
    let mut index = HashIndex::new();
    assert_eq!(insert_into_hashtable(&mut index, b"k", 0, 1), Ok(()));
    assert_eq!(insert_into_hashtable(&mut index, b"k", 1, 2), Err(ParseR3Error::DuplicateKeys));
    assert_eq!(index.list().len(), 1);
    assert_eq!(index.list()[0].offset, 0);
}

#[test]
fn insert_hashed_is_keyed_by_the_given_hash() {
    let mut index = HashIndex::new();
    assert_eq!(insert_hashed(&mut index, 7, 0, 1), Ok(()));
    assert_eq!(insert_hashed(&mut index, 8, 1, 1), Ok(()));
    assert_eq!(insert_hashed(&mut index, 7, 2, 1), Err(ParseR3Error::DuplicateKeys));
    assert_eq!(index.find(8).map(|e| e.offset), Some(1));
    assert!(index.find(9).is_none());
}

#[test]
fn unchecked_insert_keeps_both_entries() {
    let mut index = HashIndex::new();
    insert(&mut index, b"k", 0, 1);
    insert(&mut index, b"k", 5, 1);
    assert_eq!(index.list().len(), 2);
}

#[test]
fn table_insert_appends_and_locates() {
    let mut table = LocaleTable::new();
    assert_eq!(table.insert(b"a", b"one"), Ok(()));
    assert_eq!(table.insert(b"b", b""), Ok(()));
    assert_eq!(table.insert(b"c", b"three"), Ok(()));
    assert_eq!(table.insert(b"a", b"again"), Err(ParseR3Error::DuplicateKeys));
    assert_eq!(table.value_buffer(), &b"onethree"[..]);
    assert_eq!(table.find_entry_raw(b"a"), Some((0, 3)));
    assert_eq!(table.find_entry_raw(b"b"), Some((3, 0)));
    assert_eq!(table.find_entry_raw(b"c"), Some((3, 5)));
    assert_eq!(table.find_entry_raw(b"d"), None);
    assert_eq!(table.find_entry(b"c"), Some("three"));
}

#[test]
fn value_that_is_not_text_is_found_raw_only() {
    let mut table = LocaleTable::new();
    assert_eq!(table.insert_value(1, b"\xFF\xFE"), Ok(()));
    assert_eq!(table.locate(1), Some((0, 2)));
    assert_eq!(table.value_bytes(1), Some(&b"\xFF\xFE"[..]));
    assert_eq!(table.value_text(1), None);
    assert_eq!(table.listed_values(), vec![(1, None)]);
}

#[test]
fn listed_values_hold_every_entry_once() {
    let table = parse_r3locale_bytes(b"[[a]]\none\n[[b]]\ntwo\n").unwrap();
    let mut lines = table.listed_values();
    lines.sort();
    let mut expected = vec![
        (xxhash_rust::xxh3::xxh3_64(b"a"), Some("one")),
        (xxhash_rust::xxh3::xxh3_64(b"b"), Some("two")),
    ];
    expected.sort();
    assert_eq!(lines, expected);
}

#[test]
fn merge_first_table_wins() {
    let a = parse_r3locale_bytes(b"[[K]]\na\n[[only_a]]\nx\n").unwrap();
    let b = parse_r3locale_bytes(b"[[K]]\nb\n[[only_b]]\ny\n").unwrap();

    let ab = merge_locale_table_internal(&[&a, &b]);
    assert_eq!(ab.find_entry(b"K"), Some("a"));
    assert_eq!(ab.find_entry(b"only_a"), Some("x"));
    assert_eq!(ab.find_entry(b"only_b"), Some("y"));
    assert_eq!(ab.value_buffer().len(), 3);

    let ba = merge_locale_table_internal(&[&b, &a]);
    assert_eq!(ba.find_entry(b"K"), Some("b"));
    assert_eq!(ba.find_entry(b"only_a"), Some("x"));
    assert_eq!(ba.find_entry(b"only_b"), Some("y"));

    assert_eq!(a.find_entry(b"K"), Some("a"));
    assert_eq!(b.find_entry(b"K"), Some("b"));
}

#[test]
fn merge_of_nothing_is_empty() {
    let merged = merge_locale_table_internal(&[]);
    assert!(merged.value_buffer().is_empty());
    assert!(merged.entry_list().is_empty());
}

#[test]
fn merged_buffer_holds_only_retained_values() {
    let a = parse_r3locale_bytes(b"[[K]]\nshort\n").unwrap();
    let b = parse_r3locale_bytes(b"[[K]]\na much longer value\n[[L]]\nl\n").unwrap();
    let merged = merge_locale_table_internal(&[&a, &b]);
    assert_eq!(merged.value_buffer(), &b"shortl"[..]);
    assert_eq!(merged.find_entry_raw(b"K"), Some((0, 5)));
    assert_eq!(merged.find_entry_raw(b"L"), Some((5, 1)));
}

#[test]
fn merge_results_report_normal() {
    let a = parse_r3locale_bytes(b"[[K]]\na\n").unwrap();
    let result = merge_locale_table_rust(&[&a]);
    assert_eq!(result.merge_state, MergeTableError::Normal);
    assert_eq!(result.table.unwrap().find_entry(b"K"), Some("a"));
    assert!(merge_locale_table(None).is_none());
    let merged = merge_locale_table(Some(&[&a, &a])).unwrap();
    assert_eq!(merged.find_entry(b"K"), Some("a"));
    assert_eq!(merged.value_buffer(), &b"a"[..]);
}

#[test]
fn merge_error_takes_the_name_of_the_parse_error() {
    assert_eq!(MergeTableError::from(ParseR3Error::Normal), MergeTableError::Normal);
    assert_eq!(MergeTableError::from(ParseR3Error::FileNotFound), MergeTableError::FileNotFound);
    assert_eq!(MergeTableError::from(ParseR3Error::FailedToRead), MergeTableError::FailedToRead);
    assert_eq!(
        MergeTableError::from(ParseR3Error::KeyValueMismatch),
        MergeTableError::KeyValueMismatch
    );
    assert_eq!(
        MergeTableError::from(ParseR3Error::BracketMismatch),
        MergeTableError::BracketMismatch
    );
    assert_eq!(
        MergeTableError::from(ParseR3Error::InvalidUTF8Value),
        MergeTableError::InvalidUTF8Value
    );
    assert_eq!(
        MergeTableError::from(ParseR3Error::InvalidUTF8Path),
        MergeTableError::InvalidUTF8Path
    );
    assert_eq!(
        MergeTableError::from(ParseR3Error::NullPathProvided),
        MergeTableError::NullPathProvided
    );
    assert_eq!(MergeTableError::from(ParseR3Error::DuplicateKeys), MergeTableError::DuplicateKeys);
}

#[test]
fn path_is_checked_before_use() {
    assert_eq!(check_path(None), Err(ParseR3Error::NullPathProvided));
    assert_eq!(check_path(Some(b"\xFFpath")), Err(ParseR3Error::InvalidUTF8Path));
    assert_eq!(check_path(Some(b"locale/en.r3l")), Ok("locale/en.r3l"));
}

#[test]
fn get_locale_table_hands_errors_on() {
    let missing = get_locale_table(Err(ParseR3Error::FileNotFound));
    assert!(missing.table.is_none());
    assert_eq!(missing.allocation_state, ParseR3Error::FileNotFound);

    let broken = get_locale_table(Ok(b"[[only_key]]"));
    assert!(broken.table.is_none());
    assert_eq!(broken.allocation_state, ParseR3Error::KeyValueMismatch);

    let fine = get_locale_table(Ok(b"[[k]]\nv\n"));
    assert_eq!(fine.allocation_state, ParseR3Error::Normal);
    assert_eq!(fine.table.unwrap().find_entry(b"k"), Some("v"));

    let passed = allocation_of(Err(ParseR3Error::DuplicateKeys));
    assert!(passed.table.is_none());
    assert_eq!(passed.allocation_state, ParseR3Error::DuplicateKeys);
}

#[test]
fn several_sources_merge_or_fail_at_the_first_error() {
    let good = get_multiple_locale_tables(&[
        Ok(b"[[K]]\nfirst\n".to_vec()),
        Ok(b"[[K]]\nsecond\n[[L]]\nl\n".to_vec()),
    ]);
    assert_eq!(good.allocation_state, ParseR3Error::Normal);
    let table = good.table.unwrap();
    assert_eq!(table.find_entry(b"K"), Some("first"));
    assert_eq!(table.find_entry(b"L"), Some("l"));

    let bad = get_multiple_locale_tables(&[
        Ok(b"[[K]]\nfirst\n".to_vec()),
        Ok(b"[[no_close\nvalue\n".to_vec()),
        Err(ParseR3Error::FileNotFound),
    ]);
    assert!(bad.table.is_none());
    assert_eq!(bad.allocation_state, ParseR3Error::BracketMismatch);

    let unread = get_multiple_locale_tables(&[
        Err(ParseR3Error::FailedToRead),
        Ok(b"[[no_close\nvalue\n".to_vec()),
    ]);
    assert_eq!(unread.allocation_state, ParseR3Error::FailedToRead);

    let none = get_multiple_locale_tables(&[]);
    assert_eq!(none.allocation_state, ParseR3Error::Normal);
    assert!(none.table.unwrap().value_buffer().is_empty());
}

#[test]
fn get_entry_checks_what_it_is_given() {
    let table = parse_r3locale_bytes(b"[[a]]\none\n[[b]]\ntwo\n").unwrap();
    let nothing = |state| FindEntryResult { value_offset: 0, value_len: 0, allocation_state: state };
    assert_eq!(get_entry(None, Some(b"a")), nothing(FindEntryError::NullTable));
    assert_eq!(get_entry(None, None), nothing(FindEntryError::NullTable));
    assert_eq!(get_entry(Some(&table), None), nothing(FindEntryError::NullKeyPtr));
    assert_eq!(get_entry(Some(&table), Some(b"c")), nothing(FindEntryError::NoEntryFound));
    assert_eq!(
        get_entry(Some(&table), Some(b"b")),
        FindEntryResult { value_offset: 3, value_len: 3, allocation_state: FindEntryError::Normal }
    );
}

#[test]
fn spans_are_cut_before_trimming() {
    let buf = b"[[ a ]]x\n v \n[[b]]\n";
    assert_eq!(
        segment_document(buf, &[0, 13], &[5, 16]),
        Ok(vec![
            EntrySpans { key_start: 2, key_end: 5, value_start: 8, value_end: 13 },
            EntrySpans { key_start: 15, key_end: 16, value_start: 18, value_end: 19 },
        ])
    );
    assert_eq!(segment_document(buf, &[0, 13], &[5]), Err(ParseR3Error::BracketMismatch));
    assert_eq!(segment_document(b"[[a]]", &[0], &[3]), Err(ParseR3Error::KeyValueMismatch));
}

#[test]
fn touching_markers_leave_an_empty_key() {
    assert_eq!(
        segment_document(b"[]]\n", &[0], &[1]),
        Ok(vec![EntrySpans { key_start: 1, key_end: 1, value_start: 3, value_end: 4 }])
    );
}

#[test]
fn trimming_removes_unicode_white_space() {
    assert_eq!(trim_span(b" \t\r\n text \n"), Some(&b"text"[..]));
    assert_eq!(trim_span("\u{a0}\u{3000}wide\u{2003}".as_bytes()), Some(&b"wide"[..]));
    assert_eq!(trim_span(b"   "), Some(&b""[..]));
    assert_eq!(trim_span(b"\xC3"), None);
    assert!(is_utf8("h\u{e9}".as_bytes()));
    assert!(!is_utf8(b"\xE9"));
}
