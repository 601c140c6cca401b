use web_video_player::order::name_le;
use web_video_player::text::{bytes_equal, bytes_start_with, starts_with, strip_prefix, utf8_text};

#[test]
fn utf8_text_reads_valid_bytes() {
    assert_eq!(utf8_text(b"plain"), Some("plain"));
    assert_eq!(utf8_text("α→😀".as_bytes()), Some("α→😀"));
    assert_eq!(utf8_text(b""), Some(""));
}

#[test]
fn utf8_text_refuses_bytes_that_are_no_text() {
    assert_eq!(utf8_text(&[0xff]), None);
    assert_eq!(utf8_text(&[0xc0, 0x80]), None);
    assert_eq!(utf8_text(&[0xe2, 0x82]), None);
    assert_eq!(utf8_text(&[0xed, 0xa0, 0x80]), None);
    assert_eq!(utf8_text(&[0xf4, 0x90, 0x80, 0x80]), None);
    assert_eq!(utf8_text(&[0x61, 0x80]), None);
}

#[test]
fn strip_prefix_gives_what_follows() {
    assert_eq!(strip_prefix("/video/a.mp4", "/video/"), Some("a.mp4"));
    assert_eq!(strip_prefix("/video/", "/video/"), Some(""));
    assert_eq!(strip_prefix("abc", ""), Some("abc"));
    assert_eq!(strip_prefix("αβγ", "α"), Some("βγ"));
}

#[test]
fn strip_prefix_gives_nothing_without_the_prefix() {
    assert_eq!(strip_prefix("/videX/foo", "/video/"), None);
    assert_eq!(strip_prefix("/video", "/video/"), None);
    assert_eq!(strip_prefix("", "a"), None);
    assert_eq!(strip_prefix("βα", "α"), None);
}

#[test]
fn starts_with_compares_letter_for_letter() {
    assert!(starts_with("sub/y.mp4", "sub"));
    assert!(starts_with("sub2/y.mp4", "sub"));
    assert!(starts_with("anything", ""));
    assert!(starts_with("", ""));
    assert!(!starts_with("su", "sub"));
    assert!(!starts_with("Sub/y.mp4", "sub"));
}

#[test]
fn bytes_start_with_compares_byte_for_byte() {
    assert!(bytes_start_with(&[1, 2, 3], &[1, 2]));
    assert!(bytes_start_with(&[1, 2, 3], &[]));
    assert!(bytes_start_with(&[1, 2, 3], &[1, 2, 3]));
    assert!(!bytes_start_with(&[1, 2, 3], &[1, 3]));
    assert!(!bytes_start_with(&[1, 2], &[1, 2, 3]));
}

#[test]
fn bytes_equal_compares_every_byte() {
    assert!(bytes_equal(b"", b""));
    assert!(bytes_equal(b"secret", b"secret"));
    assert!(!bytes_equal(b"secret", b"secreT"));
    assert!(!bytes_equal(b"Secret", b"secret"));
    assert!(!bytes_equal(b"secret", b"secret "));
    assert!(!bytes_equal(&[0x01, 0x02], &[0x03, 0x00]));
}

#[test]
fn name_le_is_the_order_of_the_bytes() {
    assert!(name_le(b"", b""));
    assert!(name_le(b"", b"a"));
    assert!(!name_le(b"a", b""));
    assert!(name_le(b"a", b"a"));
    assert!(name_le(b"a", b"ab"));
    assert!(!name_le(b"ab", b"a"));
    assert!(name_le(b"Dir", b"dir"));
    assert!(!name_le(b"dir", b"Dir"));
    assert!(name_le(b"a10", b"a9"));
    assert!(name_le(b"z", &[0xc3, 0xa9]));
    assert!(!name_le(&[0xc3, 0xa9], b"z"));
}
