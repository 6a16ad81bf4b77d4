use cjk_freq::exclusion::ExclusionSet;
use cjk_freq::freq::FreqMap;
use cjk_freq::pipeline::run_pipeline;
use cjk_freq::segment::Segmenter;
use cjk_freq::worker::worker_counts;

const HELLO: &str = "\u{4f60}\u{597d}";
const WORLD: &str = "\u{4e16}\u{754c}";

#[test]
fn segmenter_splits_text_into_tokens() {
    let seg = Segmenter::new();
    let tokens = seg.tokenize("\u{4f60}\u{597d}\u{4f60}\u{597d}\u{4e16}\u{754c}");
    // a segmenter that handed the text back unchanged would yield one token
    assert!(tokens.len() > 1);
    assert_eq!(tokens.iter().filter(|t| t.as_str() == HELLO).count(), 2);
    assert_eq!(tokens.iter().filter(|t| t.as_str() == WORLD).count(), 1);
}

#[test]
fn worker_tallies_filtered_tokens() {
    let seg = Segmenter::new();
    let ex = ExclusionSet::new();
    let texts = vec![format!("{HELLO}{HELLO}{WORLD}")];
    let m: FreqMap = worker_counts(&seg, &ex, &texts).unwrap();
    assert_eq!(m.get(HELLO), 2);
    assert_eq!(m.get(WORLD), 1);
    assert_eq!(m.get("hello"), 0);
}

#[test]
fn two_files_merge_and_rank() {
    let seg = Segmenter::new();
    let ex = ExclusionSet::new();
    let texts = vec![
        format!("{HELLO}{HELLO}{WORLD}"),
        format!("{HELLO} hello"),
    ];
    let out = run_pipeline(&seg, &ex, texts, 2).unwrap();
    let expect: Vec<(String, u64)> = vec![(HELLO.to_string(), 3), (WORLD.to_string(), 1)];
    assert_eq!(out, expect);
}

#[test]
fn excluding_a_token_removes_only_that_token() {
    let seg = Segmenter::new();
    let ex = ExclusionSet::from_text(HELLO);
    let texts = vec![
        format!("{HELLO}{HELLO}{WORLD}"),
        format!("{HELLO} hello"),
    ];
    let out = run_pipeline(&seg, &ex, texts, 2).unwrap();
    let expect: Vec<(String, u64)> = vec![(WORLD.to_string(), 1)];
    assert_eq!(out, expect);
}

#[test]
fn scheduling_degree_does_not_change_output() {
    let seg = Segmenter::new();
    let ex = ExclusionSet::new();
    let texts: Vec<String> = vec![
        format!("{HELLO}{HELLO}{WORLD}"),
        format!("{HELLO} hello"),
        format!("{WORLD}{WORLD}"),
    ];
    let one = run_pipeline(&seg, &ex, texts.clone(), 1).unwrap();
    let two = run_pipeline(&seg, &ex, texts.clone(), 2).unwrap();
    let many = run_pipeline(&seg, &ex, texts, 16).unwrap();
    assert_eq!(one, two);
    assert_eq!(one, many);
}
