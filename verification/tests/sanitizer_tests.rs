use reloaded3_localisation::errors::ParseR3Error;
use reloaded3_localisation::sanitizer::{
    normalize_line_endings_of, sanitize_r3_locale_file, strip_comments_of,
};

#[test]
fn crlf_and_lone_cr_become_lf() {
    assert_eq!(normalize_line_endings_of(b"a\r\nb\rc\n\r"), b"a\nb\nc\n\n".to_vec());
}

#[test]
fn comment_is_removed_with_its_line_end() {
    assert_eq!(strip_comments_of(b"a\n##x\nb"), b"a\nb".to_vec());
    assert_eq!(strip_comments_of(b"keep ## drop\nnext"), b"keep next".to_vec());
    assert_eq!(strip_comments_of(b"tail ##no newline"), b"tail ".to_vec());
}

#[test]
fn three_hashes_open_one_comment() {
    assert_eq!(strip_comments_of(b"###x\n#y"), b"#y".to_vec());
}

#[test]
fn two_comments_of_equal_length_are_both_removed() {
    assert_eq!(strip_comments_of(b"##a\n##b\nc"), b"c".to_vec());
    assert_eq!(strip_comments_of(b"##ab\n##c\n"), b"".to_vec());
}

#[test]
fn sanitize_rejects_invalid_utf8() {
    assert_eq!(sanitize_r3_locale_file(b"\xFF\xFE"), Err(ParseR3Error::InvalidUTF8Value));
}

#[test]
fn sanitize_handles_cr_terminated_comment() {
    assert_eq!(sanitize_r3_locale_file(b"x\r##c\ry"), Ok(b"x\ny".to_vec()));
}

#[test]
fn input_without_cr_keeps_its_line_endings() {
    let text = b"[[k]]\nline one\nline two\n";
    assert_eq!(normalize_line_endings_of(text), text.to_vec());
    assert_eq!(sanitize_r3_locale_file(text), Ok(text.to_vec()));
}

#[test]
fn line_ending_style_does_not_change_the_result() {
    let unix = b"[[k]]\nv ## c\nw\n\n##d\n";
    let dos = b"[[k]]\r\nv ## c\r\nw\r\n\r\n##d\r\n";
    let mac = b"[[k]]\rv ## c\rw\r\r##d\r";
    let expected = Ok(b"[[k]]\nv w\n\n".to_vec());
    assert_eq!(sanitize_r3_locale_file(unix), expected);
    assert_eq!(sanitize_r3_locale_file(dos), expected);
    assert_eq!(sanitize_r3_locale_file(mac), expected);
    let normalized = normalize_line_endings_of(dos);
    assert_eq!(normalized, unix.to_vec());
    assert_eq!(normalize_line_endings_of(&normalized), normalized);
}

#[test]
fn sanitized_output_has_no_adjacent_hashes() {
    let inputs: [&[u8]; 6] = [
        b"#\n##x\n#",
        b"a#\n#b",
        b"####\n##\n#",
        b"x###y\n#\r##z",
        b"#\n#\n#",
        b"## only a comment",
    ];
    for input in inputs {
        let cleaned = sanitize_r3_locale_file(input).unwrap();
        assert!(!cleaned.windows(2).any(|pair| pair == b"##"));
    }
    assert_eq!(sanitize_r3_locale_file(b"#\n##x\n#"), Ok(b"#\n#".to_vec()));
}

#[test]
fn empty_input_stays_empty() {
    assert_eq!(sanitize_r3_locale_file(b""), Ok(Vec::new()));
}
