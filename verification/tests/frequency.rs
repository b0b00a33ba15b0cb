use pia::freq::{frequency_estimation, FrequencyTable};

fn chars(s: &str) -> Vec<char> {
    s.chars().collect()
}

fn lookup(table: &FrequencyTable, key: &str) -> Option<usize> {
    table.get(&chars(key))
}

#[test]
fn unit_counts() {
    let text = chars("aaaabbbccd");
    let table = frequency_estimation(&text, 10, 1, 0);
    assert_eq!(table.len(), 4);
    assert_eq!(lookup(&table, "a"), Some(4));
    assert_eq!(lookup(&table, "b"), Some(3));
    assert_eq!(lookup(&table, "c"), Some(2));
    assert_eq!(lookup(&table, "d"), Some(1));
    assert_eq!(lookup(&table, "e"), None);
    assert_eq!(lookup(&table, "ab"), None);
}

#[test]
fn weighted_counts() {
    // alpha = 1 weighs each window by its length.
    let text = chars("abab");
    let table = frequency_estimation(&text, 4, 2, 1);
    assert_eq!(lookup(&table, "a"), Some(2));
    assert_eq!(lookup(&table, "b"), Some(2));
    assert_eq!(lookup(&table, "ab"), Some(4));
    assert_eq!(lookup(&table, "ba"), Some(2));
    assert_eq!(table.len(), 4);
}

#[test]
fn weighted_counts_quadratic() {
    // alpha = 2: a window of length 2 weighs 4.
    let text = chars("aaa");
    let table = frequency_estimation(&text, 3, 2, 2);
    assert_eq!(lookup(&table, "a"), Some(3));
    assert_eq!(lookup(&table, "aa"), Some(8));
}

#[test]
fn window_longer_than_text() {
    // Window lengths beyond the text length contribute nothing and must
    // not crash.
    let text = chars("ab");
    let table = frequency_estimation(&text, 2, 10, 0);
    assert_eq!(table.len(), 3);
    assert_eq!(lookup(&table, "a"), Some(1));
    assert_eq!(lookup(&table, "b"), Some(1));
    assert_eq!(lookup(&table, "ab"), Some(1));
    assert_eq!(lookup(&table, "abb"), None);
}

#[test]
fn empty_text_gives_empty_table() {
    let text: Vec<char> = Vec::new();
    let table = frequency_estimation(&text, 0, 3, 0);
    assert_eq!(table.len(), 0);
}

#[test]
fn zero_window_bound_gives_empty_table() {
    let text = chars("abc");
    let table = frequency_estimation(&text, 3, 0, 0);
    assert_eq!(table.len(), 0);
}

#[test]
fn overlapping_windows_counted() {
    // "aaaa" has three overlapping windows of length 2.
    let text = chars("aaaa");
    let table = frequency_estimation(&text, 4, 3, 0);
    assert_eq!(lookup(&table, "a"), Some(4));
    assert_eq!(lookup(&table, "aa"), Some(3));
    assert_eq!(lookup(&table, "aaa"), Some(2));
}

#[test]
fn add_weight_accumulates() {
    let mut table = FrequencyTable::new();
    table.add_weight(&chars("xy"), 2);
    table.add_weight(&chars("xy"), 3);
    table.add_weight(&chars("z"), 1);
    assert_eq!(table.len(), 2);
    assert_eq!(lookup(&table, "xy"), Some(5));
    assert_eq!(lookup(&table, "z"), Some(1));
}
