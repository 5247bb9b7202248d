use mac_autocomplete_engine::util::{sanitize_text, truncate_with_ellipsis};

#[test]
fn test_sanitize() {
    let text = "hello\x00world\ntest";
    let sanitized = sanitize_text(text, 100);
    assert!(!sanitized.contains('\x00'));
}

#[test]
fn test_truncate() {
    let text = "hello world this is a long string";
    let truncated = truncate_with_ellipsis(text, 10);
    assert_eq!(truncated, "hello w...");
}

#[test]
fn sanitize_exact_results() {
    assert_eq!(sanitize_text("hello\x00world\ntest", 100), "helloworld\ntest");
    assert_eq!(sanitize_text("a\x07b\x7fc\u{85}d", 100), "abc\u{85}d");
    assert_eq!(sanitize_text("abcdef", 3), "abc");
    assert_eq!(sanitize_text("\x01\x02ab", 1), "a");
    assert_eq!(sanitize_text("abc", 0), "");
}

#[test]
fn truncate_edges() {
    assert_eq!(truncate_with_ellipsis("short", 10), "short");
    assert_eq!(truncate_with_ellipsis("exactly10!", 10), "exactly10!");
    assert_eq!(truncate_with_ellipsis("abcdef", 3), "...");
    assert_eq!(truncate_with_ellipsis("abcdef", 2), "..");
    assert_eq!(truncate_with_ellipsis("abcdef", 1), ".");
    assert_eq!(truncate_with_ellipsis("abcdef", 0), "");
    assert_eq!(truncate_with_ellipsis("", 0), "");
    // "é" is two bytes: a cut after it keeps it whole
    assert_eq!(truncate_with_ellipsis("éabcdef", 5), "é...");
    assert_eq!(truncate_with_ellipsis("abcdef", 5), "ab...");
}
