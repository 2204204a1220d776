use sandbox_search::paths::is_path_allowed;
use sandbox_search::search::{search_files, DirListing};
use sandbox_search::types::{FileSearchResult, SearchError};
use sandbox_search::walker::EntryInfo;

/// name, is_dir, meta_ok
type Spec = (&'static str, bool, bool);

/// A synthetic filesystem: each directory path with its listing, `None`
/// standing for a directory that cannot be listed.
type Fs<'a> = &'a [(&'static str, Option<&'static [Spec]>)];

fn snapshot(fs: Fs) -> Vec<DirListing> {
    fs.iter()
        .map(|(dir, l)| DirListing {
            path: dir.to_string(),
            entries: l.map(|es| {
                es.iter()
                    .map(|(n, isd, mok)| EntryInfo {
                        name: n.to_string(),
                        path: format!("{}/{}", dir, n),
                        is_dir: *isd,
                        size: 7,
                        modified: 1234,
                        meta_ok: *mok,
                    })
                    .collect()
            }),
        })
        .collect()
}

fn run_search(
    root: &str,
    query: &str,
    max_results: Option<usize>,
    max_depth: usize,
    fs: Fs,
) -> Result<Vec<FileSearchResult>, SearchError> {
    let allowed = vec!["/tmp".to_string()];
    search_files(
        query,
        true,
        true,
        Some(root.to_string()),
        &allowed,
        snapshot(fs),
        max_results,
        max_depth,
    )
}

const BASIC: &[(&'static str, Option<&'static [Spec]>)] = &[
    (
        "/tmp/r",
        Some(&[
            ("test.txt", false, true),
            ("document.pdf", false, true),
            ("image.png", false, true),
            ("subdir", true, true),
        ]),
    ),
    ("/tmp/r/subdir", Some(&[("nested.txt", false, true)])),
];

#[test]
fn test_search_basic_scenario() {
    let results = run_search("/tmp/r", "test", Some(10), 3, BASIC).expect("search should succeed");
    assert!(results.iter().any(|r| r.name == "test.txt"));
    assert!(!results.iter().any(|r| r.name == "document.pdf"));
    assert_eq!(results[0].path, "/tmp/r/test.txt");
}

#[test]
fn test_search_empty_query() {
    let results = run_search("/tmp/r", "", Some(10), 3, BASIC).expect("empty query succeeds");
    assert!(results.is_empty());
    // even an unreadable root raises no error on an empty query
    let results = run_search("/nowhere", "", Some(10), 3, &[]).expect("no traversal happens");
    assert!(results.is_empty());
    // a query of only dropped characters is empty after sanitizing
    let results = run_search("/tmp/r", "<|>", Some(10), 3, BASIC).expect("sanitized empty");
    assert!(results.is_empty());
    // the short-circuit precedes path validation: even a nonexistent root succeeds
    let allowed = vec!["/tmp".to_string()];
    let r = search_files("", false, false, None, &allowed, snapshot(&[]), Some(10), 3);
    assert_eq!(r, Ok(vec![]));
}

#[test]
fn test_search_finds_nested_entries() {
    let results = run_search("/tmp/r", "nested", Some(10), 3, BASIC).expect("search succeeds");
    assert!(results.iter().any(|r| r.name == "nested.txt" && r.path == "/tmp/r/subdir/nested.txt"));
}

#[test]
fn test_search_depth_zero_excludes_subdirectories() {
    let results = run_search("/tmp/r", "nested", Some(100), 0, BASIC).expect("search succeeds");
    assert!(!results.iter().any(|r| r.path.contains("subdir")));
    assert!(results.is_empty());
    // entries directly in the root are still found at depth 0
    let results = run_search("/tmp/r", "test", Some(100), 0, BASIC).expect("search succeeds");
    assert!(results.iter().any(|r| r.name == "test.txt"));
}

#[test]
fn test_search_max_results_limit() {
    // "t" matches test.txt, document.pdf, nested.txt
    let all = run_search("/tmp/r", "t", Some(10), 3, BASIC).expect("search succeeds");
    assert!(all.len() >= 3);
    let capped = run_search("/tmp/r", "t", Some(2), 3, BASIC).expect("search succeeds");
    assert_eq!(capped.len(), 2);
    let none = run_search("/tmp/r", "t", Some(0), 3, BASIC).expect("search succeeds");
    assert!(none.is_empty());
}

#[test]
fn test_search_case_insensitive_queries_agree() {
    let lower = run_search("/tmp/r", "test", Some(10), 3, BASIC).expect("search succeeds");
    let upper = run_search("/tmp/r", "TEST", Some(10), 3, BASIC).expect("search succeeds");
    assert_eq!(lower.len(), upper.len());
    let mut a: Vec<String> = lower.iter().map(|r| r.path.clone()).collect();
    let mut b: Vec<String> = upper.iter().map(|r| r.path.clone()).collect();
    a.sort();
    b.sort();
    assert_eq!(a, b);
}

#[test]
fn test_search_matches_mixed_case_names() {
    let fs: Fs = &[("/tmp/r", Some(&[("README.md", false, true), ("readout.txt", false, true)]))];
    let results = run_search("/tmp/r", "ReAd", Some(10), 3, fs).expect("search succeeds");
    assert_eq!(results.len(), 2);
}

#[test]
fn test_search_skips_hidden_and_tilde_names() {
    let fs: Fs = &[(
        "/tmp/r",
        Some(&[
            (".test-hidden", false, true),
            ("~test-backup", false, true),
            ("test.txt", false, true),
        ]),
    )];
    let results = run_search("/tmp/r", "test", Some(10), 3, fs).expect("search succeeds");
    assert_eq!(results.len(), 1);
    assert_eq!(results[0].name, "test.txt");
}

#[test]
fn test_search_full_budget_stops_before_listing() {
    // with the budget already full, no directory is listed at all, so even
    // an unreadable root succeeds with no results
    let fs: Fs = &[("/tmp/r", None)];
    let r = run_search("/tmp/r", "test", Some(0), 3, fs);
    assert_eq!(r, Ok(vec![]));
}

#[test]
fn test_search_unreadable_root_is_fatal() {
    let fs: Fs = &[("/tmp/r", None)];
    let r = run_search("/tmp/r", "test", Some(10), 3, fs);
    assert_eq!(r, Err(SearchError::DirectoryReadError));
}

#[test]
fn test_search_unreadable_subdirectory_is_skipped() {
    let fs: Fs = &[
        ("/tmp/r", Some(&[("subdir", true, true), ("test.txt", false, true)])),
        ("/tmp/r/subdir", None),
    ];
    let results = run_search("/tmp/r", "test", Some(10), 3, fs).expect("subtree is skipped");
    assert_eq!(results.len(), 1);
    assert_eq!(results[0].name, "test.txt");
}

#[test]
fn test_search_metadata_failure_fatal_at_root_level() {
    let fs: Fs = &[("/tmp/r", Some(&[("test.txt", false, false)]))];
    let r = run_search("/tmp/r", "test", Some(10), 3, fs);
    assert_eq!(r, Err(SearchError::EntryReadError));
}

#[test]
fn test_search_metadata_failure_below_root_is_skipped() {
    let fs: Fs = &[
        ("/tmp/r", Some(&[("subdir", true, true), ("test.txt", false, true)])),
        ("/tmp/r/subdir", Some(&[("test-deep.txt", false, false)])),
    ];
    let results = run_search("/tmp/r", "test", Some(10), 3, fs).expect("entry is skipped");
    assert_eq!(results.len(), 1);
    assert_eq!(results[0].name, "test.txt");
}

#[test]
fn test_search_never_descends_beyond_max_depth() {
    let fs: Fs = &[
        ("/tmp/r", Some(&[("a", true, true)])),
        ("/tmp/r/a", Some(&[("b", true, true)])),
        ("/tmp/r/a/b", Some(&[("c", true, true)])),
        ("/tmp/r/a/b/c", Some(&[("test-deep.txt", false, true)])),
    ];
    // depth 3: the directory c at depth 3 is listed, its file is returned
    let results = run_search("/tmp/r", "test", Some(10), 3, fs).expect("search succeeds");
    assert_eq!(results.len(), 1);
    // depth 2: c is never listed
    let results = run_search("/tmp/r", "test", Some(10), 2, fs).expect("search succeeds");
    assert!(results.is_empty());
}

#[test]
fn test_search_results_stay_inside_allowed_roots() {
    let allowed = vec!["/tmp".to_string()];
    let results = run_search("/tmp/r", "t", Some(10), 3, BASIC).expect("search succeeds");
    assert!(!results.is_empty());
    for r in &results {
        assert!(is_path_allowed(&r.path, &allowed));
        assert!(r.path.starts_with("/tmp/r/"));
    }
}

#[test]
fn test_search_results_are_sorted_by_relevance() {
    let fs: Fs = &[(
        "/tmp/r",
        Some(&[("mytestfile", false, true), ("test.txt", false, true), ("test", false, true)]),
    )];
    let results = run_search("/tmp/r", "test", Some(10), 3, fs).expect("search succeeds");
    let names: Vec<&str> = results.iter().map(|r| r.name.as_str()).collect();
    assert_eq!(names, vec!["test", "test.txt", "mytestfile"]);
}

#[test]
fn test_search_result_carries_entry_metadata() {
    let results = run_search("/tmp/r", "test", Some(10), 3, BASIC).expect("search succeeds");
    let e = results.iter().find(|r| r.name == "test.txt").expect("present");
    assert_eq!(e.size, 7);
    assert_eq!(e.modified, 1234);
    assert!(!e.is_dir);
}

#[test]
fn test_search_nonexistent_path_is_invalid() {
    let allowed = vec!["/tmp".to_string()];
    let r = search_files("test", false, false, None, &allowed, snapshot(BASIC), Some(10), 3);
    assert_eq!(r, Err(SearchError::InvalidPath));
}

#[test]
fn test_search_path_outside_sandbox_is_refused() {
    let allowed = vec!["/home/user".to_string()];
    let r = search_files(
        "test",
        true,
        true,
        Some("/etc".to_string()),
        &allowed,
        snapshot(&[]),
        Some(10),
        3,
    );
    assert_eq!(r, Err(SearchError::PathNotAllowed));
}

#[test]
fn test_search_long_and_unusual_queries() {
    let cases = vec![" ", ".", "...", "中文测试"];
    for q in cases {
        let r = run_search("/tmp/r", q, Some(10), 3, BASIC);
        assert!(r.is_ok());
    }
    let long_query = "a".repeat(1000);
    let r = run_search("/tmp/r", &long_query, Some(10), 3, BASIC);
    assert!(r.is_ok());
}
