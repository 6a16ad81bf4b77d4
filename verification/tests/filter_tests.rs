use cjk_freq::exclusion::ExclusionSet;
use cjk_freq::filter::should_count;
use cjk_freq::text::{contains_cjk, str_eq, str_lt};

#[test]
fn counts_cjk_token_with_no_exclusions() {
    let ex = ExclusionSet::new();
    assert!(should_count(&ex, "\u{4f60}\u{597d}"));
}

#[test]
fn rejects_excluded_token() {
    let ex = ExclusionSet::from_text("\u{4f60}\u{597d}");
    assert!(!should_count(&ex, "\u{4f60}\u{597d}"));
}

#[test]
fn rejects_non_cjk_token() {
    let ex = ExclusionSet::new();
    assert!(!should_count(&ex, "hello"));
}

#[test]
fn rejects_empty_token() {
    let ex = ExclusionSet::new();
    assert!(!should_count(&ex, ""));
}

#[test]
fn mixed_token_counts_if_any_char_is_cjk() {
    let ex = ExclusionSet::new();
    assert!(should_count(&ex, "\u{4e16}\u{754c}!"));
    assert!(should_count(&ex, "abc\u{9fff}"));
}

#[test]
fn cjk_range_boundaries() {
    assert!(contains_cjk("\u{4e00}"));
    assert!(contains_cjk("\u{9fff}"));
    assert!(!contains_cjk("\u{4dff}"));
    assert!(!contains_cjk("\u{a000}"));
    assert!(!contains_cjk(""));
}

#[test]
fn exclusion_list_splits_on_newlines() {
    let ex = ExclusionSet::from_text("\u{4f60}\u{597d}\nabc\n");
    assert!(!should_count(&ex, "\u{4f60}\u{597d}"));
    assert!(should_count(&ex, "\u{4e16}\u{754c}"));
}

#[test]
fn string_compare_is_exact() {
    assert!(str_eq("\u{4f60}\u{597d}", "\u{4f60}\u{597d}"));
    assert!(!str_eq("\u{4f60}", "\u{4f60}\u{597d}"));
    assert!(str_lt("", "a"));
    assert!(str_lt("ab", "b"));
    assert!(str_lt("\u{4e16}\u{754c}", "\u{4f60}\u{597d}"));
    assert!(!str_lt("b", "ab"));
    assert!(!str_lt("a", "a"));
}
