use oldirs::lines::discard_empty_lines;
use oldirs::lines::fs_error_helper;
use oldirs::lines::parse_oldir_line;
use oldirs::lines::parse_u32;
use oldirs::Info;

#[test]
fn test_parse_oldir_line_plain() {
    let parsed = parse_oldir_line("some/path 1000 468");
    assert_eq!(parsed, Some(("some/path".to_string(), 1000, 468)));
}

#[test]
fn test_parse_oldir_line_path_with_spaces() {
    let parsed = parse_oldir_line("a path with spaces 0 12");
    assert_eq!(parsed, Some(("a path with spaces".to_string(), 0, 12)));
}

#[test]
fn test_parse_oldir_line_byte_unit_suffixes() {
    // The size field goes through the byte-unit parser, so suffixed
    // sizes are read as byte counts.
    assert_eq!(
        parse_oldir_line("p 1 468B"),
        Some(("p".to_string(), 1, 468))
    );
    assert_eq!(
        parse_oldir_line("p 1 2kB"),
        Some(("p".to_string(), 1, 2000))
    );
    assert_eq!(
        parse_oldir_line("p 1 1KiB"),
        Some(("p".to_string(), 1, 1024))
    );
}

#[test]
fn test_parse_oldir_line_malformed() {
    assert_eq!(parse_oldir_line(""), None);
    assert_eq!(parse_oldir_line("nospace"), None);
    assert_eq!(parse_oldir_line("one 2"), None);
    assert_eq!(parse_oldir_line("p notanumber 468"), None);
    assert_eq!(parse_oldir_line("p 12 notasize"), None);
    assert_eq!(parse_oldir_line("p -3 468"), None);
}

#[test]
fn test_parse_u32_cases() {
    assert_eq!(parse_u32("0"), Some(0));
    assert_eq!(parse_u32("4294967295"), Some(u32::MAX));
    assert_eq!(parse_u32("4294967296"), None);
    assert_eq!(parse_u32("+17"), Some(17));
    assert_eq!(parse_u32(""), None);
    assert_eq!(parse_u32("+"), None);
    assert_eq!(parse_u32("12a"), None);
}

#[test]
fn test_discard_empty_lines() {
    assert!(!discard_empty_lines(&"".to_string()));
    assert!(!discard_empty_lines(&" \t ".to_string()));
    assert!(discard_empty_lines(&"x".to_string()));
    assert!(discard_empty_lines(&"  x  ".to_string()));
}

#[test]
fn test_fs_error_helper_text() {
    assert_eq!(
        &fs_error_helper("some/dir", "permission denied"),
        "Error on path \"some/dir\": permission denied"
    );
}

#[test]
fn test_info_fields() {
    let info = Info {
        path: "base/dir".to_string(),
        size: 42,
        owner: "alice".to_string(),
    };
    assert_eq!(info.path, "base/dir");
    assert_eq!(info.size, 42);
    assert_eq!(info.owner, "alice");
}
