//! Search queries made of free text.
use icm_store::fts::sanitize_fts_query;

#[test]
fn test_sanitize_fts_query() {
    assert_eq!(sanitize_fts_query("hello world"), "\"hello\" \"world\"");

    assert_eq!(sanitize_fts_query("sqlite-vec"), "\"sqlite\" \"vec\"");
    assert_eq!(sanitize_fts_query("foo*bar"), "\"foo\" \"bar\"");
    assert_eq!(sanitize_fts_query("col:value"), "\"col\" \"value\"");

    assert_eq!(sanitize_fts_query(""), "");
    assert_eq!(sanitize_fts_query("  "), "");
    assert_eq!(sanitize_fts_query("---"), "");

    assert_eq!(
        sanitize_fts_query("no-such column:vec"),
        "\"no\" \"such\" \"column\" \"vec\""
    );
}

#[test]
fn test_sanitize_fts_empty() {
    assert_eq!(sanitize_fts_query(""), "");
    assert_eq!(sanitize_fts_query("   "), "");
}

#[test]
fn test_sanitize_fts_special_chars() {
    assert_eq!(sanitize_fts_query("hello-world"), "\"hello\" \"world\"");
    assert_eq!(sanitize_fts_query("foo*bar"), "\"foo\" \"bar\"");
    assert_eq!(sanitize_fts_query("a:b"), "\"a\" \"b\"");
    assert_eq!(sanitize_fts_query("(test)"), "\"test\"");
    assert_eq!(sanitize_fts_query("x^y+z~w"), "\"x\" \"y\" \"z\" \"w\"");
}

#[test]
fn test_sanitize_fts_quotes_stripped() {
    assert_eq!(sanitize_fts_query("say \"hello\""), "\"say\" \"hello\"");
}

#[test]
fn test_sanitize_fts_unicode() {
    assert_eq!(sanitize_fts_query("café résumé"), "\"café\" \"résumé\"");
    assert_eq!(sanitize_fts_query("日本語テスト"), "\"日本語テスト\"");
}

#[test]
fn test_sanitize_fts_long_input_truncated() {
    let long = "a ".repeat(6000); // 12000 chars
    let result = sanitize_fts_query(&long);
    let token_count = result.split_whitespace().count();
    assert!(token_count <= 100);
}

#[test]
fn test_sanitize_fts_many_tokens_capped() {
    let many_tokens: String = (0..200)
        .map(|i| format!("word{i}"))
        .collect::<Vec<_>>()
        .join(" ");
    let result = sanitize_fts_query(&many_tokens);
    let token_count = result.split_whitespace().count();
    assert_eq!(token_count, 100);
}

#[test]
fn test_fts_sanitize_utf8_safe() {
    let base = "a".repeat(9_998);
    let input = format!("{base}\u{1F600}\u{1F600}"); // 9998 + 4 + 4 = 10006 bytes
    assert!(input.len() > 10_000);

    let result = sanitize_fts_query(&input);
    assert!(!result.is_empty());
}
