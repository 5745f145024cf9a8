use microdvd::frames::{frame_to_msecs, msecs_to_frame};
use microdvd::{MdvdError, MdvdFile, SubtitleEntry};

/// Parse string with `MdvdFile`, and reencode it with `MdvdFile`.
fn mdvd_reconstruct(s: &str) -> String {
    let file = MdvdFile::parse_from_string(s.to_string()).unwrap();
    let data = file.to_data().unwrap();
    String::from_utf8(data).unwrap()
}

/// Parse and re-construct MicroDVD files and test them against expected output.
fn test_mdvd(input: &str, expected: &str) {
    assert_eq!(mdvd_reconstruct(input), expected);
    assert_eq!(mdvd_reconstruct(expected), expected);
}

#[test]
fn mdvd_test_reconstruction() {
    test_mdvd("{0}{25}Hello!", "{0}{25}Hello!");
    test_mdvd("{0}{25}{y:i}Hello!", "{0}{25}{y:i}Hello!");
    test_mdvd("{0}{25}{Y:i}Hello!", "{0}{25}{y:i}Hello!");
    test_mdvd("{0}{25}{Y:i}\n", "{0}{25}{y:i}");

    test_mdvd("{0}{25}{y:i}Text1|{y:i}Text2", "{0}{25}{Y:i}Text1|Text2");
    test_mdvd("{0}{25}{y:i}Text1\n{0}{25}{y:i}Text2", "{0}{25}{Y:i}Text1|Text2");
    test_mdvd("{0}{25}{y:i}{y:b}Text1\n{0}{25}{y:i}Text2", "{0}{25}{Y:i}{y:b}Text1|Text2");
    test_mdvd("{0}{25}{y:i}{y:b}Text1\n{0}{25}{y:i}Text2", "{0}{25}{Y:i}{y:b}Text1|Text2");

    test_mdvd("{0}{25}{y:i}Text1\n{0}{26}{y:i}Text2", "{0}{25}{y:i}Text1\n{0}{26}{y:i}Text2");
}

#[test]
fn plain_line_is_unchanged() {
    assert_eq!(mdvd_reconstruct("{0}{25}Hello!"), "{0}{25}Hello!");
}

#[test]
fn shared_line_tag_is_hoisted() {
    assert_eq!(mdvd_reconstruct("{0}{25}{y:i}Text1|{y:i}Text2"), "{0}{25}{Y:i}Text1|Text2");
}

#[test]
fn lines_with_one_range_merge() {
    assert_eq!(
        mdvd_reconstruct("{0}{25}{y:i}Text1\n{0}{25}{y:i}Text2"),
        "{0}{25}{Y:i}Text1|Text2"
    );
}

#[test]
fn only_common_tags_are_hoisted() {
    assert_eq!(
        mdvd_reconstruct("{0}{25}{y:i}{y:b}Text1\n{0}{25}{y:i}Text2"),
        "{0}{25}{Y:i}{y:b}Text1|Text2"
    );
}

#[test]
fn different_ranges_stay_apart() {
    assert_eq!(
        mdvd_reconstruct("{0}{25}{y:i}Text1\n{0}{26}{y:i}Text2"),
        "{0}{25}{y:i}Text1\n{0}{26}{y:i}Text2"
    );
}

#[test]
fn trailing_terminator_gives_empty_text() {
    let f = MdvdFile::parse_from_string("{0}{25}{Y:i}\n".to_string()).unwrap();
    let es = f.get_subtitle_entries().unwrap();
    assert_eq!(es.len(), 1);
    assert_eq!(es[0].line.as_deref(), Some(""));
    assert_eq!(mdvd_reconstruct("{0}{25}{Y:i}\n"), "{0}{25}{y:i}");
}

#[test]
fn uppercase_tag_on_every_segment_written_once() {
    assert_eq!(mdvd_reconstruct("{0}{25}{Y:i}A|B|C"), "{0}{25}{Y:i}A|B|C");
    assert_eq!(mdvd_reconstruct("{0}{25}A|{Y:i}B"), "{0}{25}{Y:i}A|B");
}

#[test]
fn single_segment_never_group_scoped() {
    assert_eq!(mdvd_reconstruct("{0}{25}{Y:i}{Y:b}Hi"), "{0}{25}{y:i}{y:b}Hi");
    assert_eq!(mdvd_reconstruct("{0}{25}{y:i}{y:i}Hi"), "{0}{25}{y:i}Hi");
}

#[test]
fn rewriting_is_idempotent() {
    let inputs = [
        "{0}{25}{y:i}{y:b}Text1\n{5}{6}{Y:u}a|{y:b}b\n{0}{25}{c:$0000ff}Text2",
        "{10}{20}x\n{0}{5}y\n{10}{20}{y:i}z",
    ];
    for input in inputs.iter() {
        let once = mdvd_reconstruct(input);
        assert_eq!(mdvd_reconstruct(&once), once);
    }
}

#[test]
fn entry_count_is_sub_line_count() {
    let f = MdvdFile::parse_from_string("{0}{25}a|b|c\n{30}{40}d\n{50}{60}e|f".to_string()).unwrap();
    assert_eq!(f.get_subtitle_entries().unwrap().len(), 6);
}

#[test]
fn output_is_sorted_by_range() {
    assert_eq!(mdvd_reconstruct("{10}{20}b\n{0}{5}a\n{10}{15}c"), "{0}{5}a\n{10}{15}c\n{10}{20}b");
}

#[test]
fn entries_convert_frames_to_milliseconds() {
    let f = MdvdFile::parse_from_string("{25}{51}Hello\n{-3}{7}x".to_string()).unwrap();
    let es = f.get_subtitle_entries().unwrap();
    assert_eq!(es[0].start_ms, 1000);
    assert_eq!(es[0].end_ms, 2040);
    assert_eq!(es[0].line.as_deref(), Some("Hello"));
    assert_eq!(es[1].start_ms, -120);
    assert_eq!(es[1].end_ms, 280);
}

#[test]
fn update_sets_frames_and_text() {
    let mut f = MdvdFile::parse_from_string("{0}{25}{y:i}a|b".to_string()).unwrap();
    let es = vec![
        SubtitleEntry { start_ms: 1000, end_ms: 2039, line: Some("X".to_string()) },
        SubtitleEntry { start_ms: 1000, end_ms: 2039, line: None },
    ];
    assert_eq!(f.update_subtitle_entries(&es), Ok(()));
    let out = String::from_utf8(f.to_data().unwrap()).unwrap();
    assert_eq!(out, "{25}{50}{y:i}X|b");
}

#[test]
fn update_with_wrong_count_fails() {
    let mut f = MdvdFile::parse_from_string("{0}{25}a|b".to_string()).unwrap();
    let es = vec![SubtitleEntry { start_ms: 0, end_ms: 1, line: None }];
    assert_eq!(f.update_subtitle_entries(&es), Err(MdvdError::EntryCountMismatch(1, 2)));
    assert_eq!(String::from_utf8(f.to_data().unwrap()).unwrap(), "{0}{25}a|b");
}

#[test]
fn malformed_line_reports_its_number() {
    let r = MdvdFile::parse_from_string("{0}{25}a\n{1}x}b".to_string());
    assert_eq!(r.unwrap_err(), MdvdError::ErrorAtLine(1));
    let r = MdvdFile::parse_from_string("{0}{25}a\n\n{1}{2}b".to_string());
    assert_eq!(r.unwrap_err(), MdvdError::ErrorAtLine(1));
    let r = MdvdFile::parse_from_string("{0}{99999999999999999999}a".to_string());
    assert_eq!(r.unwrap_err(), MdvdError::ErrorAtLine(0));
    let r = MdvdFile::parse_from_string("{}{1}a".to_string());
    assert_eq!(r.unwrap_err(), MdvdError::ErrorAtLine(0));
}

#[test]
fn bom_and_crlf_are_stripped() {
    assert_eq!(mdvd_reconstruct("\u{feff}{0}{25}a\r\n{1}{2}b\r\n"), "{0}{25}a\n{1}{2}b");
}

#[test]
fn empty_text_gives_no_entries() {
    let f = MdvdFile::parse_from_string(String::new()).unwrap();
    assert_eq!(f.get_subtitle_entries().unwrap().len(), 0);
    assert_eq!(f.to_data().unwrap(), Vec::<u8>::new());
}

#[test]
fn unclosed_tag_is_text() {
    assert_eq!(mdvd_reconstruct("{0}{25}{y:i"), "{0}{25}{y:i");
    assert_eq!(mdvd_reconstruct("{0}{25}{a|b}c"), "{0}{25}{a|b}c");
}

#[test]
fn extreme_frames_round_trip() {
    assert_eq!(
        mdvd_reconstruct("{-9223372036854775807}{9223372036854775807}a"),
        "{-9223372036854775807}{9223372036854775807}a"
    );
    let r = MdvdFile::parse_from_string("{-9223372036854775808}{0}a".to_string());
    assert_eq!(r.unwrap_err(), MdvdError::ErrorAtLine(0));
}

#[test]
fn tag_case_only_touches_first_char() {
    let v: Vec<char> = "Y:IB".chars().collect();
    assert_eq!(microdvd::tags::lowercase_first_char(&v), "y:IB".chars().collect::<Vec<char>>());
    let v: Vec<char> = "c:abc".chars().collect();
    assert_eq!(microdvd::tags::uppercase_first_char(&v), "C:abc".chars().collect::<Vec<char>>());
    assert!(microdvd::tags::is_container_line_formatting(&"Y:i".chars().collect()));
    assert!(!microdvd::tags::is_container_line_formatting(&"y:i".chars().collect()));
    assert!(!microdvd::tags::is_container_line_formatting(&Vec::new()));
}

#[test]
fn frame_conversion_truncates() {
    assert_eq!(frame_to_msecs(1, 25, 1), 40);
    assert_eq!(frame_to_msecs(1, 24000, 1001), 41);
    assert_eq!(frame_to_msecs(-1, 24000, 1001), -41);
    assert_eq!(msecs_to_frame(1999, 25, 1), 49);
    assert_eq!(msecs_to_frame(-1999, 25, 1), -49);
    assert_eq!(frame_to_msecs(i64::MAX, 1, 1), i64::MAX);
}
