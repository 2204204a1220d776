//! The value types of the search subsystem.
use vstd::prelude::*;

verus! {

/// One filesystem entry returned by a search.
#[derive(Debug, Clone, PartialEq, Eq)]
pub struct FileSearchResult {
    pub name: String,
    pub path: String,
    pub is_dir: bool,
    pub size: u64,
    pub modified: u64,
}

/// The mathematical shadow of a `FileSearchResult`.
pub ghost struct FileEntryView {
    pub name: Seq<char>,
    pub path: Seq<char>,
    pub is_dir: bool,
    pub size: u64,
    pub modified: u64,
}

impl View for FileSearchResult {
    type V = FileEntryView;

    open spec fn view(&self) -> FileEntryView {
        FileEntryView {
            name: self.name@,
            path: self.path@,
            is_dir: self.is_dir,
            size: self.size,
            modified: self.modified,
        }
    }
}

/// Optional knobs of a search request.
#[derive(Debug)]
pub struct SearchOptions {
    pub max_results: Option<usize>,
    pub search_path: Option<String>,
    pub case_sensitive: Option<bool>,
    pub include_hidden: Option<bool>,
}

impl Default for SearchOptions {
    /// All knobs unset: the caller gets the built-in defaults.
    fn default() -> (r: Self)
        ensures
            r.max_results is None,
            r.search_path is None,
            r.case_sensitive is None,
            r.include_hidden is None,
    {
        SearchOptions {
            max_results: None,
            search_path: None,
            case_sensitive: None,
            include_hidden: None,
        }
    }
}

/// Why a search failed; every failure is a normal result, never a panic.
#[derive(Debug, Clone, Copy, PartialEq, Eq, Structural)]
pub enum SearchError {
    /// The search root is missing, not a directory, or cannot be canonicalized.
    InvalidPath,
    /// The canonicalized search root lies outside every allowed directory.
    PathNotAllowed,
    /// The root directory itself could not be listed.
    DirectoryReadError,
    /// Metadata for a matched entry directly in the root could not be read.
    EntryReadError,
}

} // verus!
