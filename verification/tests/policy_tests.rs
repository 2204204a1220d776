use sandbox_search::paths::{
    assemble_allowed_roots, get_allowed_search_paths, is_contained_in, is_path_allowed,
    shared_dir_candidates, split_path,
};
use sandbox_search::search::{clamp_max_results, validate_and_normalize_search_path};
use sandbox_search::types::{SearchError, SearchOptions};

#[test]
fn test_search_options_default() {
    let options = SearchOptions::default();
    assert!(options.max_results.is_none());
    assert!(options.search_path.is_none());
    assert!(options.case_sensitive.is_none());
    assert!(options.include_hidden.is_none());
}

#[test]
fn test_split_path_segments() {
    let c = split_path("/home/alice/docs");
    assert_eq!(c, vec!["home", "alice", "docs"]);
    let root = split_path("/");
    assert!(root.is_empty());
    let trailing = split_path("/tmp/");
    assert_eq!(trailing, vec!["tmp"]);
    let doubled = split_path("//tmp//x");
    assert_eq!(doubled, vec!["tmp", "x"]);
}

#[test]
fn test_is_contained_in_segments_not_text() {
    assert!(is_contained_in("/home/alice", "/home/alice"));
    assert!(is_contained_in("/home/alice", "/home/alice/docs/a.txt"));
    // the sibling path trap: a text prefix that is no segment prefix
    assert!(!is_contained_in("/home/alice", "/home/alice2"));
    assert!(!is_contained_in("/home/alice", "/home/alice2/docs"));
    assert!(is_contained_in("/", "/etc"));
    assert!(!is_contained_in("/etc", "/home"));
}

#[test]
fn test_is_path_allowed() {
    let allowed = vec!["/home/user".to_string(), "/tmp".to_string()];
    assert!(is_path_allowed("/home/user", &allowed));
    assert!(is_path_allowed("/tmp/scratch/x", &allowed));
    assert!(!is_path_allowed("/etc", &allowed));
    assert!(!is_path_allowed("/home/user2", &allowed));
    let none: Vec<String> = vec![];
    assert!(!is_path_allowed("/tmp", &none));
}

#[test]
fn test_shared_dir_candidates() {
    let c = shared_dir_candidates();
    assert_eq!(c, vec!["/tmp", "/var/tmp", "/Users/Shared"]);
}

#[test]
fn test_assemble_allowed_roots_order_and_filtering() {
    let shared = vec![Some("/tmp".to_string()), None, Some("/var/tmp".to_string())];
    let roots = assemble_allowed_roots(
        Some("/home/u".to_string()),
        None,
        Some("/home/u/Downloads".to_string()),
        None,
        &shared,
    );
    assert_eq!(roots, vec!["/home/u", "/home/u/Downloads", "/tmp", "/var/tmp"]);
}

#[test]
fn test_get_allowed_search_paths() {
    let shared = vec![Some("/tmp".to_string()), Some("/var/tmp".to_string())];
    let paths = get_allowed_search_paths(&shared);
    assert!(!paths.is_empty());
    assert!(paths.iter().any(|p| p == "/tmp"));
    assert!(paths.iter().any(|p| p == "/var/tmp"));
}

#[test]
fn test_clamp_max_results() {
    assert_eq!(clamp_max_results(None), 50);
    assert_eq!(clamp_max_results(Some(3)), 3);
    assert_eq!(clamp_max_results(Some(100)), 100);
    assert_eq!(clamp_max_results(Some(1000)), 100);
    assert_eq!(clamp_max_results(Some(0)), 0);
}

#[test]
fn test_validate_and_normalize_search_path_edge_cases() {
    let allowed = vec!["/home/user".to_string(), "/tmp".to_string()];

    // a path that does not exist
    let r = validate_and_normalize_search_path(false, false, None, &allowed);
    assert_eq!(r, Err(SearchError::InvalidPath));

    // a path that exists but is no directory
    let r = validate_and_normalize_search_path(true, false, Some("/tmp/f".to_string()), &allowed);
    assert_eq!(r, Err(SearchError::InvalidPath));

    // a directory that could not be canonicalized
    let r = validate_and_normalize_search_path(true, true, None, &allowed);
    assert_eq!(r, Err(SearchError::InvalidPath));

    // a canonical directory outside every allowed root
    let r = validate_and_normalize_search_path(true, true, Some("/etc".to_string()), &allowed);
    assert_eq!(r, Err(SearchError::PathNotAllowed));

    // an allowed canonical directory comes back unchanged
    let r = validate_and_normalize_search_path(
        true,
        true,
        Some("/tmp/work".to_string()),
        &allowed,
    );
    assert_eq!(r, Ok("/tmp/work".to_string()));
}
