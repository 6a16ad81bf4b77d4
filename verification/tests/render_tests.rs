use cjk_freq::freq::FreqMap;
use cjk_freq::render::{format_count, render};

#[test]
fn formats_decimal_counts() {
    assert_eq!(format_count(0), "0");
    assert_eq!(format_count(7), "7");
    assert_eq!(format_count(10), "10");
    assert_eq!(format_count(12345), "12345");
    assert_eq!(format_count(u64::MAX), "18446744073709551615");
}

#[test]
fn renders_token_space_count_lines() {
    let mut m = FreqMap::new();
    m.add("\u{4f60}\u{597d}", 3);
    m.add("\u{4e16}\u{754c}", 1);
    let out = render(&m.into_ranked());
    assert_eq!(out, "\u{4f60}\u{597d} 3\n\u{4e16}\u{754c} 1\n");
}

#[test]
fn renders_nothing_for_no_entries() {
    let m = FreqMap::new();
    assert_eq!(render(&m.into_ranked()), "");
}
