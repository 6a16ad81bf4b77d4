use cjk_freq::freq::{merge_all, FreqMap};

#[test]
fn empty_map_has_zero_counts() {
    let m = FreqMap::new();
    assert_eq!(m.get("\u{4f60}\u{597d}"), 0);
    assert_eq!(m.total(), 0);
}

#[test]
fn add_accumulates_per_token() {
    let mut m = FreqMap::new();
    m.add("\u{4f60}\u{597d}", 1);
    m.add("\u{4e16}\u{754c}", 2);
    m.add("\u{4f60}\u{597d}", 1);
    assert_eq!(m.get("\u{4f60}\u{597d}"), 2);
    assert_eq!(m.get("\u{4e16}\u{754c}"), 2);
    assert_eq!(m.get("absent"), 0);
    assert_eq!(m.total(), 4);
}

#[test]
fn merge_adds_pointwise() {
    let mut a = FreqMap::new();
    a.add("x", 2);
    a.add("y", 1);
    let mut b = FreqMap::new();
    b.add("x", 3);
    b.add("z", 4);
    a.merge(&b);
    assert_eq!(a.get("x"), 5);
    assert_eq!(a.get("y"), 1);
    assert_eq!(a.get("z"), 4);
    assert_eq!(a.total(), 10);
}

fn sample_maps() -> Vec<FreqMap> {
    let mut a = FreqMap::new();
    a.add("\u{4f60}\u{597d}", 2);
    let mut b = FreqMap::new();
    b.add("\u{4f60}\u{597d}", 1);
    b.add("\u{4e16}\u{754c}", 3);
    let mut c = FreqMap::new();
    c.add("\u{4e2d}\u{6587}", 5);
    vec![a, b, c]
}

#[test]
fn merging_in_any_permutation_gives_identical_map() {
    let ordered = merge_all(&sample_maps()).unwrap();
    let mut rev = sample_maps();
    rev.reverse();
    let reversed = merge_all(&rev).unwrap();
    assert_eq!(ordered.into_ranked(), reversed.into_ranked());
}

#[test]
fn ranked_output_is_sorted_and_deterministic() {
    let mut m = FreqMap::new();
    m.add("\u{4f60}\u{597d}", 2);
    m.add("\u{4e16}\u{754c}", 2);
    m.add("zz", 7);
    m.add("aa", 1);
    let mut again = FreqMap::new();
    again.add("aa", 1);
    again.add("zz", 7);
    again.add("\u{4e16}\u{754c}", 2);
    again.add("\u{4f60}\u{597d}", 2);
    let r1 = m.into_ranked();
    let r2 = again.into_ranked();
    // identical content ranks identically, whatever the insertion order
    assert_eq!(r1, r2);
    // count descending, ties broken lexicographically ascending
    let expect: Vec<(String, u64)> = vec![
        ("zz".to_string(), 7),
        ("\u{4e16}\u{754c}".to_string(), 2),
        ("\u{4f60}\u{597d}".to_string(), 2),
        ("aa".to_string(), 1),
    ];
    assert_eq!(r1, expect);
    for w in r1.windows(2) {
        assert!(w[0].1 > w[1].1 || (w[0].1 == w[1].1 && w[0].0 < w[1].0));
    }
}
