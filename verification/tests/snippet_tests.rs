use obsidian_mirror::snippet::{find_substr_ci, generate_snippet, highlight_terms, safe_substring};

#[test]
fn find_substr_ci_ascii() {
    assert_eq!(find_substr_ci("Hello World", "world"), Some(6));
    assert_eq!(find_substr_ci("Hello", "xyz"), None);
    assert_eq!(find_substr_ci("abc", ""), Some(0));
    assert_eq!(find_substr_ci("ab", "abc"), None);
}

#[test]
fn find_substr_ci_cjk() {
    assert_eq!(find_substr_ci("你好世界", "世界"), Some(6));
}

#[test]
fn highlight_marks_every_match_keeping_case() {
    assert_eq!(highlight_terms("Rust and rust", "rust"), "<mark>Rust</mark> and <mark>rust</mark>");
    assert_eq!(highlight_terms("abc", ""), "abc");
    assert_eq!(highlight_terms("abc", "z"), "abc");
}

#[test]
fn safe_substring_widens_to_character_boundaries() {
    assert_eq!(safe_substring("a你b", 2, 3), "你");
    assert_eq!(safe_substring("abc", 1, 10), "bc");
}

#[test]
fn snippet_around_the_match() {
    let content = format!("{} needle {}", "x".repeat(60), "y".repeat(200));
    let s = generate_snippet(&content, "Needle", 150);
    assert!(s.starts_with("..."));
    assert!(s.ends_with("..."));
    assert!(s.contains("<mark>needle</mark>"));
}

#[test]
fn snippet_without_match_is_the_beginning() {
    assert_eq!(generate_snippet("short\n text", "zzz", 150), "short text");
    assert_eq!(generate_snippet("abcdef", "zzz", 3), "abc...");
    assert_eq!(generate_snippet("   ", "a", 150), "(无内容预览)");
}
