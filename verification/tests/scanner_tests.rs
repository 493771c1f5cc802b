use reloaded3_localisation::scanner::{
    find_closings, find_openings, scan_markers, scan_markers_scalar, scan_markers_simd,
};
use reloaded3_localisation::simd::{get_bitmask, lane_set};

#[test]
fn opening_must_start_a_line() {
    let buf = b"[[a]]\nx [[b]]\n[[c]]\n";
    assert_eq!(find_openings(buf), vec![0, 14]);
    assert_eq!(find_closings(buf), vec![3, 11, 17]);
}

#[test]
fn three_opening_brackets_at_line_start_open_once() {
    let buf = b"[[[a\n[[[";
    assert_eq!(find_openings(buf), vec![0, 5]);
}

#[test]
fn overlapping_closing_markers_are_all_found() {
    assert_eq!(find_closings(b"]]]"), vec![0, 1]);
    assert_eq!(find_closings(b"a]]]]"), vec![1, 2, 3]);
}

#[test]
fn marker_at_end_of_buffer_is_found() {
    assert_eq!(scan_markers(b"x\n[["), (vec![2], vec![]));
    assert_eq!(scan_markers(b"x]]"), (vec![], vec![1]));
}

#[test]
fn empty_and_tiny_buffers_have_no_markers() {
    assert_eq!(scan_markers(b""), (vec![], vec![]));
    assert_eq!(scan_markers(b"["), (vec![], vec![]));
    assert_eq!(scan_markers_scalar(b"]"), (vec![], vec![]));
    assert_eq!(scan_markers_simd(b"[", 16), (vec![], vec![]));
}

#[test]
fn all_scans_agree_for_every_lane_width_and_length() {
    let text = b"[[Key1]]\nValue1\n[[Key2]]\nVal]]ue2\n x[[UserName]]\nAlice\n[[[a]]]\n\n[[End]]\n[[";
    let mut len = 0;
    while len <= text.len() {
        let buf = &text[..len];
        let by_search = scan_markers(buf);
        let by_bytes = scan_markers_scalar(buf);
        assert_eq!(by_search, by_bytes);
        let mut lanes = 1;
        while lanes <= 64 {
            assert_eq!(scan_markers_simd(buf, lanes), by_bytes);
            lanes += 1;
        }
        len += 1;
    }
}

#[test]
fn bitmask_marks_matching_lanes() {
    let bytes = b"a[[b]][[c";
    let pattern = [Some(b'['), Some(b'['), None];
    let mask = get_bitmask(0, bytes, pattern, 7);
    assert_eq!(mask, 0b100_0010);
    assert!(lane_set(mask, 1));
    assert!(!lane_set(mask, 2));
    assert!(lane_set(mask, 6));
}

#[test]
fn bitmask_with_three_fixed_bytes() {
    let bytes = b"\n[[k]]\n[[";
    let pattern = [Some(b'\n'), Some(b'['), Some(b'[')];
    assert_eq!(get_bitmask(0, bytes, pattern, 7), 0b100_0001);
    assert_eq!(get_bitmask(1, bytes, pattern, 6), 0b10_0000);
}

#[test]
fn bitmask_wildcards_match_everything() {
    let bytes = [0u8; 66];
    assert_eq!(get_bitmask(0, &bytes, [None, None, None], 64), u64::MAX);
    assert_eq!(get_bitmask(2, &bytes, [None, None, None], 1), 1);
}

#[test]
fn test_parse_keys() {
    let input = "[[Key1]]\nValue1\n\
                 [[Key2]]\nValue2\n\
                 [[UserName]]\nAlice\n\
                 [[UserAge]]\n30\n\
                 [[UserEmail]]\nalice@example.com\n\
                 [[Settings]]\n\
                 [[Theme]]\nDark\n\
                 [[FontSize]]\n14\n\
                 [[Logs]]\nLog entry 1\nLog entry 2\nLog entry 3\n\
                 [[End]]\n";
    let bytes = input.as_bytes();
    let expected = [
        "Key1", "Key2", "UserName", "UserAge", "UserEmail", "Settings", "Theme", "FontSize",
        "Logs", "End",
    ];
    for lanes in [1, 16, 32, 64] {
        let (openings, closings) = scan_markers_simd(bytes, lanes);
        assert_eq!(openings.len(), expected.len());
        assert_eq!(closings.len(), expected.len());
        for i in 0..expected.len() {
            assert_eq!(&bytes[openings[i] + 2..closings[i]], expected[i].as_bytes());
        }
    }
}
