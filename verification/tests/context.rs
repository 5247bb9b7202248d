use mac_autocomplete_engine::engine::context::{Context, MAX_HISTORY_ITEMS};

#[test]
fn test_extract_prefix() {
    let text = "The quick brown fox jumps over the lazy dog";
    let prefix = Context::extract_prefix(text, 20);
    assert_eq!(prefix, "over the lazy dog");
}

#[test]
fn test_normalize() {
    let text = "The   quick\n  brown\tfox";
    let normalized = Context::normalize(text);
    assert_eq!(normalized, "The quick brown fox");
}

#[test]
fn test_context_history() {
    let mut ctx = Context::new();
    ctx.add_to_history("first".to_string());
    ctx.add_to_history("second".to_string());
    ctx.add_to_history("third".to_string());

    let window = ctx.get_context_window(2);
    assert_eq!(window, vec!["second".to_string(), "third".to_string()]);
}

#[test]
fn extract_prefix_keeps_short_text_without_trailing_whitespace() {
    assert_eq!(Context::extract_prefix("hello world  \n", 50), "hello world");
    assert_eq!(Context::extract_prefix("   ", 5), "");
    assert_eq!(Context::extract_prefix("abc", 0), "");
}

#[test]
fn extract_prefix_counts_characters_and_keeps_whole_words() {
    assert_eq!(Context::extract_prefix("a éé", 4), "a éé");
    assert_eq!(Context::extract_prefix("bon café", 5), "café");
    assert_eq!(Context::extract_prefix("bon café", 4), "café");
    assert_eq!(Context::extract_prefix("bon café", 3), "");
    assert_eq!(Context::extract_prefix("  lead", 10), "  lead");
    assert_eq!(Context::extract_prefix("one two  three", 9), "three");
    assert_eq!(Context::extract_prefix("one two  three", 12), "two  three");
}

#[test]
fn normalize_edges_and_idempotence() {
    assert_eq!(Context::normalize(""), "");
    assert_eq!(Context::normalize(" \t\n "), "");
    assert_eq!(Context::normalize("  a  "), "a");
    assert_eq!(Context::normalize("a\u{3000}b\u{a0}c"), "a b c");
    let once = Context::normalize("  x   y\tz  ");
    assert_eq!(once, "x y z");
    assert_eq!(Context::normalize(&once), once);
}

#[test]
fn history_keeps_the_last_hundred() {
    let mut ctx = Context::with_capacity(64);
    for i in 0..150 {
        ctx.add_to_history(format!("item{}", i));
    }
    let all = ctx.get_context_window(1000);
    assert_eq!(all.len(), MAX_HISTORY_ITEMS);
    assert_eq!(all[0], "item50");
    assert_eq!(all[99], "item149");
}

#[test]
fn context_window_larger_than_history() {
    let mut ctx = Context::default();
    assert!(ctx.get_context_window(3).is_empty());
    ctx.add_to_history("only".to_string());
    assert_eq!(ctx.get_context_window(3), vec!["only".to_string()]);
    assert!(ctx.get_context_window(0).is_empty());
}
