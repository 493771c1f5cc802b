use reloaded3_localisation::errors::ParseR3Error;
use reloaded3_localisation::parser::{
    build_locale_table, parse_r3locale_bytes, parse_r3locale_bytes_simd,
};

#[test]
fn test_parse_and_find_entry() {
    let sample = b"[[example_key]]hiiii\nexample_value\n##BYEE\n[[another_key]]\nanother_value\n";
    let table = match parse_r3locale_bytes(sample) {
        Ok(table) => table,
        Err(e) => panic!("Parse failed: {:?}", e),
    };

    let val = table.find_entry(b"example_key");
    assert_eq!(val, Some("example_value"));

    let val2 = table.find_entry(b"another_key");
    assert_eq!(val2, Some("another_value"));

    let missing = table.find_entry(b"missing");
    assert_eq!(missing, None);
}

#[test]
fn test_invalid_utf8() {
    let sample = b"[[bad_key]]\n\xFF\xFE\xFD\n";
    let result = parse_r3locale_bytes(sample);
    assert!(matches!(result, Err(ParseR3Error::InvalidUTF8Value)));
}

#[test]
fn test_key_value_mismatch() {
    let sample = b"[[only_key]]"; // no value
    let result = parse_r3locale_bytes(sample);
    assert!(matches!(result, Err(ParseR3Error::KeyValueMismatch)));
}

#[test]
fn test_bracket_mismatch() {
    let sample = b"[[no_close\nvalue here\n";
    let result = parse_r3locale_bytes(sample);
    assert!(matches!(result, Err(ParseR3Error::BracketMismatch)));
}

#[test]
fn test_duplicate_keys() {
    let sample = b"[[duplicate_key]]\nfirst_value\n[[duplicate_key]]\nsecond_value";
    let result = parse_r3locale_bytes(sample);
    assert!(matches!(result, Err(ParseR3Error::DuplicateKeys)));
}

#[test]
fn values_are_packed_in_document_order() {
    let table = parse_r3locale_bytes(b"[[a]]\n one \n[[b]]\ntwo\n[[c]]\n\n").unwrap();
    assert_eq!(table.value_buffer(), &b"onetwo"[..]);
    assert_eq!(table.find_entry_raw(b"a"), Some((0, 3)));
    assert_eq!(table.find_entry_raw(b"b"), Some((3, 3)));
    assert_eq!(table.find_entry_raw(b"c"), Some((6, 0)));
    assert_eq!(table.find_entry(b"c"), Some(""));
}

#[test]
fn keys_are_trimmed_before_hashing() {
    let table = parse_r3locale_bytes(b"[[  spaced key\t]]\nv\n").unwrap();
    assert_eq!(table.find_entry(b"spaced key"), Some("v"));
    assert_eq!(table.find_entry(b"  spaced key\t"), None);
}

#[test]
fn value_keeps_inner_line_breaks() {
    let table = parse_r3locale_bytes(b"[[k]]\r\nline one\r\nline two\r\n").unwrap();
    assert_eq!(table.find_entry(b"k"), Some("line one\nline two"));
}

#[test]
fn inline_brackets_open_no_key() {
    let table = parse_r3locale_bytes(b"[[k]]\nsee [[other\n").unwrap();
    assert_eq!(table.find_entry(b"k"), Some("see [[other"));
}

#[test]
fn stray_closing_marker_is_a_bracket_mismatch() {
    let result = parse_r3locale_bytes(b"[[k]]\nvalue ]] more\n");
    assert!(matches!(result, Err(ParseR3Error::BracketMismatch)));
}

#[test]
fn comment_inside_value_is_absent_from_table() {
    let table = parse_r3locale_bytes(b"[[k]]\nbefore ## gone\nafter\n").unwrap();
    assert_eq!(table.find_entry(b"k"), Some("before after"));
}

#[test]
fn empty_document_gives_empty_table() {
    let table = parse_r3locale_bytes(b"").unwrap();
    assert!(table.value_buffer().is_empty());
    assert_eq!(table.find_entry(b"anything"), None);
}

#[test]
fn every_lane_width_parses_alike() {
    let sample = b"[[example_key]]hiiii\nexample_value\n##BYEE\n[[another_key]]\nanother_value\n";
    let mut lanes = 1;
    while lanes <= 64 {
        let table = parse_r3locale_bytes_simd(sample, lanes).unwrap();
        assert_eq!(table.find_entry(b"example_key"), Some("example_value"));
        assert_eq!(table.find_entry(b"another_key"), Some("another_value"));
        assert_eq!(table.value_buffer(), &b"example_valueanother_value"[..]);
        lanes *= 2;
    }
}

#[test]
fn builder_rejects_unequal_marker_counts() {
    let result = build_locale_table(b"[[k]]\nv\n", &[0], &[]);
    assert!(matches!(result, Err(ParseR3Error::BracketMismatch)));
}

#[test]
fn builder_rejects_closing_before_opening() {
    let result = build_locale_table(b"]]\n[[k\n", &[3], &[0]);
    assert!(matches!(result, Err(ParseR3Error::BracketMismatch)));
}

#[test]
fn builder_rejects_closing_past_the_buffer() {
    let result = build_locale_table(b"[[k]]\nv\n", &[0], &[7]);
    assert!(matches!(result, Err(ParseR3Error::BracketMismatch)));
}

#[test]
fn builder_reports_invalid_utf8_in_a_span() {
    let result = build_locale_table(b"[[k]]\n\xFF\n", &[0], &[3]);
    assert!(matches!(result, Err(ParseR3Error::InvalidUTF8Value)));
}

#[test]
fn builder_reports_missing_line_terminator_before_next_key() {
    let result = build_locale_table(b"[[a]] [[b]]\nv\n", &[0, 6], &[3, 9]);
    assert!(matches!(result, Err(ParseR3Error::KeyValueMismatch)));
}
