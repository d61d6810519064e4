use outline_mcp::textutil::{
    format_u64, is_hierarchical_id, sanitize_for_filename, unescape_newlines, validate_filename,
    validate_slug,
};

#[test]
fn is_hierarchical_id_valid() {
    assert!(is_hierarchical_id("1"));
    assert!(is_hierarchical_id("2-3"));
    assert!(is_hierarchical_id("1-2-1"));
    assert!(is_hierarchical_id("10-20-30"));
}

#[test]
fn is_hierarchical_id_invalid() {
    assert!(!is_hierarchical_id(""));
    assert!(!is_hierarchical_id("abc"));
    assert!(!is_hierarchical_id("1-"));
    assert!(!is_hierarchical_id("-1"));
    assert!(!is_hierarchical_id("1--2"));
    assert!(!is_hierarchical_id("a1b2c3d4"));
}

#[test]
fn validate_slug_valid() {
    assert!(validate_slug("rust"));
    assert!(validate_slug("my-book"));
    assert!(validate_slug("dev_standards"));
    assert!(validate_slug("book123"));
}

#[test]
fn validate_slug_invalid() {
    assert!(!validate_slug(""));
    assert!(!validate_slug("has space"));
    assert!(!validate_slug("path/traversal"));
    assert!(!validate_slug("dot..dot"));
    assert!(!validate_slug("日本語"));
}

#[test]
fn validate_filename_rules() {
    assert!(validate_filename("notes.md"));
    assert!(!validate_filename(""));
    assert!(!validate_filename("a/b.md"));
    assert!(!validate_filename("a\\b.md"));
    assert!(!validate_filename("..secret"));
}

#[test]
fn sanitize_basic_title() {
    assert_eq!(sanitize_for_filename("Hello World"), "Hello_World");
}

#[test]
fn sanitize_slash_in_title() {
    assert_eq!(sanitize_for_filename("TCP/IP Basics"), "TCP_IP_Basics");
    assert_eq!(sanitize_for_filename("I/O Operations"), "I_O_Operations");
}

#[test]
fn sanitize_backslash() {
    assert_eq!(sanitize_for_filename("Windows\\Linux"), "Windows_Linux");
}

#[test]
fn sanitize_preserves_allowed_chars() {
    assert_eq!(
        sanitize_for_filename("Review (Google EP)"),
        "Review_(Google_EP)"
    );
    assert_eq!(sanitize_for_filename("v2.0-beta_1"), "v2.0-beta_1");
}

#[test]
fn sanitize_collapses_consecutive_underscores() {
    assert_eq!(sanitize_for_filename("a / b / c"), "a_b_c");
    assert_eq!(sanitize_for_filename("foo   bar"), "foo_bar");
}

#[test]
fn sanitize_strips_leading_trailing_underscores() {
    assert_eq!(sanitize_for_filename(" leading"), "leading");
    assert_eq!(sanitize_for_filename("trailing "), "trailing");
    assert_eq!(sanitize_for_filename(" both "), "both");
}

#[test]
fn sanitize_double_dot_prevention() {
    assert_eq!(sanitize_for_filename("Config..Settings"), "Config_Settings");
    assert_eq!(sanitize_for_filename("a...b"), "a_.b");
}

#[test]
fn sanitize_special_characters() {
    assert_eq!(sanitize_for_filename("file: name?"), "file_name");
    assert_eq!(sanitize_for_filename("a<b>c|d\"e"), "a_b_c_d_e");
}

#[test]
fn sanitize_unicode() {
    assert_eq!(sanitize_for_filename("日本語タイトル"), "untitled");
    assert_eq!(sanitize_for_filename("混合 Mixed テスト"), "Mixed");
}

#[test]
fn sanitize_empty_and_whitespace() {
    assert_eq!(sanitize_for_filename(""), "untitled");
    assert_eq!(sanitize_for_filename("   "), "untitled");
    assert_eq!(sanitize_for_filename("///"), "untitled");
}

#[test]
fn unescape_newlines_rewrites_pairs() {
    assert_eq!(unescape_newlines("a\\nb"), "a\nb");
    assert_eq!(unescape_newlines("no escapes"), "no escapes");
    assert_eq!(unescape_newlines("\\n\\n"), "\n\n");
    assert_eq!(unescape_newlines("tail\\"), "tail\\");
}

#[test]
fn format_u64_decimal() {
    assert_eq!(format_u64(0), "0");
    assert_eq!(format_u64(7), "7");
    assert_eq!(format_u64(10), "10");
    assert_eq!(format_u64(1234567890), "1234567890");
    assert_eq!(format_u64(u64::MAX), "18446744073709551615");
}
