use cjk_freq::partition::partition;

fn paths(n: usize) -> Vec<String> {
    (0..n).map(|i| format!("file{i}.txt")).collect()
}

fn check_coverage(items: Vec<String>, workers: usize) {
    let chunks = partition(items.clone(), workers);
    let flat: Vec<String> = chunks.iter().flat_map(|c| c.iter().cloned()).collect();
    assert_eq!(flat, items);
    assert!(chunks.len() <= workers);
    for c in &chunks {
        assert!(!c.is_empty());
    }
}

#[test]
fn covers_every_path_once_degree_one() {
    check_coverage(paths(7), 1);
}

#[test]
fn covers_every_path_once_typical_degree() {
    check_coverage(paths(10), 4);
}

#[test]
fn covers_every_path_once_degree_above_length() {
    check_coverage(paths(3), 8);
}

#[test]
fn empty_input_yields_no_chunks() {
    let chunks = partition(Vec::<String>::new(), 4);
    assert!(chunks.is_empty());
}

#[test]
fn chunk_sizes_follow_ceiling_capacity() {
    let chunks = partition(paths(10), 4);
    // capacity is ceil(10 / 4) = 3
    let sizes: Vec<usize> = chunks.iter().map(|c| c.len()).collect();
    assert_eq!(sizes, vec![3, 3, 3, 1]);
}
