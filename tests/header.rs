use notes_header::header::{new_content, rewrite_admitted};

const TODAY: &[u8] = b"06/15/2024";

fn apply(data: &[u8], clear: bool) -> Vec<u8> {
    assert!(rewrite_admitted(data, TODAY, clear));
    match new_content(data, TODAY, clear) {
        Some(v) => v,
        None => data.to_vec(),
    }
}

#[test]
fn plain_rewrite_of_unstamped_content() {
    let out = new_content(b"hello world", TODAY, false);
    assert_eq!(out, Some(b"06/15/2024\n----------\n\n\nhello world".to_vec()));
}

#[test]
fn clearing_rewrite_of_unstamped_content() {
    let mut expected = b"06/15/2024\n----------\n".to_vec();
    expected.extend(std::iter::repeat(b'\n').take(50));
    expected.extend_from_slice(b"hello world");
    assert_eq!(new_content(b"hello world", TODAY, true), Some(expected));
}

#[test]
fn stamped_content_is_left_alone() {
    let data = b"06/15/2024\n----------\n\n\nhello world";
    assert!(rewrite_admitted(data, TODAY, false));
    assert_eq!(new_content(data, TODAY, false), None);
}

#[test]
fn second_plain_rewrite_changes_nothing() {
    let once = apply(b"notes from yesterday\n", false);
    let twice = apply(&once, false);
    assert_eq!(once, twice);
}

#[test]
fn plain_rewrite_puts_header_and_separator_first() {
    let out = apply(b"05/01/2024\n----------\nold", false);
    let text = String::from_utf8(out).unwrap();
    let mut lines = text.lines();
    assert_eq!(lines.next(), Some("06/15/2024"));
    assert_eq!(lines.next(), Some("----------"));
}

#[test]
fn clearing_rewrite_adds_fifty_blank_lines() {
    let out = apply(b"06/15/2024\n----------\nkept", true);
    let text = String::from_utf8(out).unwrap();
    let blank = text.lines().skip(2).take_while(|l| l.is_empty()).count();
    assert_eq!(blank, 50);
    assert!(text.ends_with("\nkept"));
}

#[test]
fn same_day_clear_keeps_first_line() {
    let data = b"06/15/2024\n----------\nkept";
    let out = apply(data, true);
    let text = String::from_utf8(out).unwrap();
    assert_eq!(text.lines().next(), Some("06/15/2024"));
}

#[test]
fn same_day_clear_uses_fixed_offset() {
    // the extra blank lines of a plain rewrite are carried along
    let data = b"06/15/2024\n----------\n\n\nhello";
    let mut expected = b"06/15/2024\n----------\n".to_vec();
    expected.extend(std::iter::repeat(b'\n').take(52));
    expected.extend_from_slice(b"hello");
    assert_eq!(new_content(data, TODAY, true), Some(expected));
}

#[test]
fn same_day_clear_keeps_longer_first_line() {
    let data = b"06/15/2024 standup\nABCDEFGHIJ\nrest";
    let mut expected = b"06/15/2024 standup\n----------\n".to_vec();
    expected.extend(std::iter::repeat(b'\n').take(50));
    expected.extend_from_slice(b"rest");
    assert_eq!(new_content(data, TODAY, true), Some(expected));
}

#[test]
fn same_day_clear_of_crlf_header_counts_from_shorter_line() {
    // the first line reads without its carriage return, so the offset falls
    // one byte short of the body
    let data = b"06/15/2024\r\n----------\nxrest";
    let mut expected = b"06/15/2024\n----------\n".to_vec();
    expected.extend(std::iter::repeat(b'\n').take(51));
    expected.extend_from_slice(b"xrest");
    assert_eq!(new_content(data, TODAY, true), Some(expected));
}

#[test]
fn same_day_clear_of_short_content_is_refused() {
    assert!(!rewrite_admitted(b"06/15/2024\n---", TODAY, true));
    assert!(rewrite_admitted(b"06/15/2024\n---", TODAY, false));
    assert!(rewrite_admitted(b"06/15/2024\n----------\n", TODAY, true));
}

#[test]
fn empty_content_with_empty_header_is_refused() {
    assert!(!rewrite_admitted(b"", b"", false));
    assert!(rewrite_admitted(b"", TODAY, true));
}

#[test]
fn empty_content_gets_header() {
    assert_eq!(
        new_content(b"", TODAY, false),
        Some(b"06/15/2024\n----------\n\n\n".to_vec())
    );
}

#[test]
fn header_of_another_day_is_kept_below() {
    let out = new_content(b"06/14/2024\n----------\nold", TODAY, false);
    assert_eq!(
        out,
        Some(b"06/15/2024\n----------\n\n\n06/14/2024\n----------\nold".to_vec())
    );
}
