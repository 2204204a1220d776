use sandbox_search::score::{calculate_relevance_score, score_ge_names, sort_by_relevance};
use sandbox_search::types::FileSearchResult;

fn score_value(name: &str, query: &str) -> f64 {
    let s = calculate_relevance_score(name, query);
    if s.len == 0 {
        s.base as f64
    } else {
        s.base as f64 + 20.0 / (s.len as f64)
    }
}

#[test]
fn test_calculate_relevance_score() {
    let query = "test";

    assert!(score_value("test", query) > 90.0);

    let prefix_score = score_value("testfile", query);
    assert!(prefix_score > 70.0 && prefix_score < 90.0);

    let contains_score = score_value("mytestfile", query);
    assert!(contains_score > 50.0 && contains_score < 80.0);

    assert!(score_value("document", query) < 30.0);

    assert_eq!(score_value("", query), 0.0);
}

#[test]
fn test_score_exact_values() {
    let exact = calculate_relevance_score("test", "test");
    assert_eq!(exact.base, 100);
    assert_eq!(exact.len, 4);

    let prefix = calculate_relevance_score("test.txt", "test");
    assert_eq!(prefix.base, 80);
    assert_eq!(prefix.len, 8);
    let v = prefix.base as f64 + 20.0 / (prefix.len as f64);
    assert!((v - 82.5).abs() < 1e-9);

    let substring = calculate_relevance_score("mytestfile", "test");
    assert_eq!(substring.base, 60);

    let none = calculate_relevance_score("document", "test");
    assert_eq!(none.base, 0);
}

#[test]
fn test_score_comparison_is_exact() {
    // 100 + 20/4 = 105 beats 80 + 20/8 = 82.5
    assert!(score_ge_names("test", "test.txt", "test"));
    assert!(!score_ge_names("test.txt", "test", "test"));
    // equal tier: the shorter name wins
    assert!(score_ge_names("testa", "testab", "test"));
    assert!(!score_ge_names("testab", "testa", "test"));
    // equal names tie with themselves
    assert!(score_ge_names("test.txt", "test.txt", "test"));
}

fn entry(name: &str) -> FileSearchResult {
    FileSearchResult {
        name: name.to_string(),
        path: format!("/tmp/r/{}", name),
        is_dir: false,
        size: 1,
        modified: 1,
    }
}

#[test]
fn test_sort_by_relevance_order() {
    let unsorted = vec![entry("mytest"), entry("test.txt"), entry("test"), entry("document")];
    let sorted = sort_by_relevance(unsorted, "test");
    let names: Vec<&str> = sorted.iter().map(|e| e.name.as_str()).collect();
    assert_eq!(names, vec!["test", "test.txt", "mytest", "document"]);
}

#[test]
fn test_sort_keeps_all_entries() {
    let unsorted = vec![entry("b-test"), entry("a-test"), entry("test-z")];
    let sorted = sort_by_relevance(unsorted, "test");
    assert_eq!(sorted.len(), 3);
    let mut names: Vec<String> = sorted.iter().map(|e| e.name.clone()).collect();
    names.sort();
    assert_eq!(names, vec!["a-test", "b-test", "test-z"]);
}
