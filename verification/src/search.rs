//! The search orchestration: preparing a request, validating the search
//! root against the sandbox policy, and the laws the whole search obeys.
use vstd::prelude::*;

use crate::paths::{is_contained, lemma_prefix_trans, path_allowed, path_components, views_of};
use crate::sanitize::{sanitize_search_query, spec_sanitize};
use crate::score::{entry_views, sort_by_relevance, sorted_by_relevance};
use crate::text::{lower_of, lowercase};
use crate::types::{FileEntryView, FileSearchResult, SearchError};
use crate::walker::{listing_extends, result_ok, EntryInfo, PendingView, Walker};

verus! {

/// How deep below the resolved root a search descends (the root is depth 0).
pub const DEFAULT_MAX_DEPTH: usize = 3;

/// The result budget a request gets: the requested count clamped to
/// `[0, 100]`, or 50 when none was requested.
pub open spec fn spec_clamp(m: Option<usize>) -> int {
    let v = match m {
        Some(x) => x as int,
        None => 50,
    };
    if v > 100 {
        100
    } else {
        v
    }
}

/// Clamps a requested result count to the allowed budget.
pub fn clamp_max_results(max_results: Option<usize>) -> (r: usize)
    ensures
        r as int == spec_clamp(max_results),
{
    let v: usize = match max_results {
        Some(x) => x,
        None => 50,
    };
    if v > 100 {
        100
    } else {
        v
    }
}

/// What a raw request prepares to: nothing when the sanitized query is
/// empty, else the lowercased sanitized query and the clamped budget. The
/// whole search depends on the raw query only through this plan.
pub open spec fn spec_plan(query: Seq<char>, max_results: Option<usize>) -> Option<
    (Seq<char>, int),
> {
    if spec_sanitize(query).len() == 0 {
        None
    } else {
        Some((lower_of(spec_sanitize(query)), spec_clamp(max_results)))
    }
}

/// A prepared search: the lowercased sanitized query and the budget.
pub struct SearchPlan {
    pub query_lower: String,
    pub max_results: usize,
}

/// Sanitizes the query and fixes the budget. `None` means the sanitized
/// query is empty: the search returns no results, and neither traversal nor
/// path validation takes place.
pub fn prepare_search(query: &str, max_results: Option<usize>) -> (r: Option<SearchPlan>)
    ensures
        r is None <==> spec_plan(query@, max_results) is None,
        r matches Some(p) ==> Some((p.query_lower@, p.max_results as int)) == spec_plan(
            query@,
            max_results,
        ),
{
    let s = sanitize_search_query(query);
    if s.as_str().is_empty() {
        None
    } else {
        let query_lower = lowercase(s.as_str());
        let max = clamp_max_results(max_results);
        Some(SearchPlan { query_lower, max_results: max })
    }
}

/// Decides a search root from what the filesystem reports of it: whether
/// the path exists, whether it is a directory, its canonical form where one
/// could be computed, and the allowed roots. Exactly the nonexistent, the
/// non-directory and the non-canonicalizable path give `InvalidPath`;
/// exactly the canonical path outside every allowed root gives
/// `PathNotAllowed`; everything else is returned canonicalized.
pub fn validate_and_normalize_search_path(
    path_exists: bool,
    is_dir: bool,
    canonical: Option<String>,
    allowed_paths: &Vec<String>,
) -> (r: Result<String, SearchError>)
    ensures
        r is Ok <==> (path_exists && is_dir && (canonical matches Some(c) && path_allowed(
            c@,
            views_of(allowed_paths@),
        ))),
        r matches Ok(p) ==> (canonical matches Some(c) && p@ == c@),
        r matches Err(e) ==> (e == SearchError::InvalidPath <==> !(path_exists && is_dir
            && canonical is Some)),
        r matches Err(e) ==> (e == SearchError::PathNotAllowed <==> (path_exists && is_dir
            && canonical is Some)),
{
    if !path_exists || !is_dir {
        return Err(SearchError::InvalidPath);
    }
    match canonical {
        None => Err(SearchError::InvalidPath),
        Some(c) => {
            if crate::paths::is_path_allowed(c.as_str(), allowed_paths) {
                Ok(c)
            } else {
                Err(SearchError::PathNotAllowed)
            }
        },
    }
}

/// The default search root: the caller's path if given, else the platform
/// home directory, else the filesystem root.
pub fn default_search_path(user: Option<String>, home: Option<String>) -> (r: String)
    ensures
        r@ == match user {
            Some(u) => u@,
            None => match home {
                Some(h) => h@,
                None => "/"@,
            },
        },
{
    match user {
        Some(u) => u,
        None => match home {
            Some(h) => h,
            None => String::from_str("/"),
        },
    }
}

/// One directory of a filesystem snapshot: its path and its listing, with
/// `None` standing for a directory that cannot be listed.
pub struct DirListing {
    pub path: String,
    pub entries: Option<Vec<EntryInfo>>,
}

/// Every listed snapshot directory's entries carry the paths the filesystem
/// gives them: the directory's path extended by each entry's name.
pub open spec fn snapshot_wf(listings: Seq<DirListing>) -> bool {
    forall|j: int|
        0 <= j < listings.len() ==> match (#[trigger] listings[j]).entries {
            Some(es) => listing_extends(listings[j].path@, es@),
            None => true,
        }
}

/// The first snapshot entry whose path is `dir`, or -1 when none is left.
pub open spec fn first_listing_index(listings: Seq<DirListing>, dir: Seq<char>) -> int
    decreases listings.len(),
{
    if listings.len() == 0 {
        -1
    } else if listings[0].path@ == dir {
        0
    } else {
        let r = first_listing_index(listings.skip(1), dir);
        if r == -1 {
            -1
        } else {
            r + 1
        }
    }
}

/// `first_listing_index` names the first match, and -1 means no match.
proof fn lemma_first_listing_index_props(listings: Seq<DirListing>, dir: Seq<char>)
    ensures
        ({
            let fi = first_listing_index(listings, dir);
            &&& fi == -1 || (0 <= fi < listings.len() && listings[fi].path@ == dir && forall|
                j: int,
            |
                0 <= j < fi ==> (#[trigger] listings[j]).path@ != dir)
            &&& fi == -1 ==> forall|j: int|
                0 <= j < listings.len() ==> (#[trigger] listings[j]).path@ != dir
        }),
    decreases listings.len(),
{
    if listings.len() == 0 {
    } else if listings[0].path@ == dir {
    } else {
        lemma_first_listing_index_props(listings.skip(1), dir);
        let rest = listings.skip(1);
        let fr = first_listing_index(rest, dir);
        assert forall|j: int| 1 <= j < listings.len() implies rest[j - 1] == #[trigger] listings[j]
        by {}
        if fr == -1 {
            assert forall|j: int|
                0 <= j < listings.len() implies (#[trigger] listings[j]).path@ != dir by {
                if j >= 1 {
                    assert(rest[j - 1].path@ != dir);
                }
            }
        } else {
            assert(listings[fr + 1].path@ == dir);
            assert forall|j: int|
                0 <= j < fr + 1 implies (#[trigger] listings[j]).path@ != dir by {
                if j >= 1 {
                    assert(rest[j - 1].path@ != dir);
                }
            }
        }
    }
}

/// The whole walk of a snapshot, step by step: while a directory is pending
/// and the budget is not full, the next pending directory's listing is taken
/// from the snapshot — consumed on use, a directory without one counting as
/// unreadable — and processed exactly as `process_entries` says; an
/// unreadable root is fatal, an unreadable subtree is skipped. The pair is
/// the collected entries (in traversal order) and the fatal error, if any.
pub open spec fn walk_spec(
    listings: Seq<DirListing>,
    stack: Seq<PendingView>,
    results: Seq<FileEntryView>,
    query: Seq<char>,
    max_results: int,
    max_depth: int,
) -> (Seq<FileEntryView>, Option<SearchError>)
    decreases listings.len(), stack.len(),
    via walk_spec_decreases
{
    if stack.len() == 0 || results.len() >= max_results {
        (results, None)
    } else {
        let top = stack.last();
        let fi = first_listing_index(listings, top.path);
        if fi == -1 {
            if top.depth == 0 {
                (results, Some(SearchError::DirectoryReadError))
            } else {
                walk_spec(listings, stack.drop_last(), results, query, max_results, max_depth)
            }
        } else {
            let rest_listings = listings.remove(fi);
            match listings[fi].entries {
                None => {
                    if top.depth == 0 {
                        (results, Some(SearchError::DirectoryReadError))
                    } else {
                        walk_spec(
                            rest_listings,
                            stack.drop_last(),
                            results,
                            query,
                            max_results,
                            max_depth,
                        )
                    }
                },
                Some(es) => {
                    let out = crate::walker::process_entries(
                        crate::walker::listing_views(es@),
                        top.depth,
                        query,
                        results,
                        max_results,
                        max_depth,
                    );
                    match out.error {
                        Some(e) => (out.results, Some(e)),
                        None => walk_spec(
                            rest_listings,
                            stack.drop_last() + out.pushes,
                            out.results,
                            query,
                            max_results,
                            max_depth,
                        ),
                    }
                },
            }
        }
    }
}

#[via_fn]
proof fn walk_spec_decreases(
    listings: Seq<DirListing>,
    stack: Seq<PendingView>,
    results: Seq<FileEntryView>,
    query: Seq<char>,
    max_results: int,
    max_depth: int,
) {
    if !(stack.len() == 0 || results.len() >= max_results) {
        lemma_first_listing_index_props(listings, stack.last().path);
        let fi = first_listing_index(listings, stack.last().path);
        if fi != -1 {
            assert(listings.remove(fi).len() == listings.len() - 1);
        }
    }
}

/// The whole search over an already-observed filesystem. An empty sanitized
/// query short-circuits to an empty result before any path validation.
/// Otherwise the root is validated against the sandbox, walked to
/// `max_depth` under the clamped result budget — each directory's listing
/// taken once from `listings`, a directory without one counting as
/// unreadable — and the collected entries come back ordered by descending
/// relevance, every one matching the query, unhidden, and inside the
/// sandbox.
pub fn search_files(
    query: &str,
    path_exists: bool,
    is_dir: bool,
    canonical: Option<String>,
    allowed_paths: &Vec<String>,
    listings: Vec<DirListing>,
    max_results: Option<usize>,
    max_depth: usize,
) -> (r: Result<Vec<FileSearchResult>, SearchError>)
    requires
        snapshot_wf(listings@),
    ensures
        spec_sanitize(query@).len() == 0 ==> (r matches Ok(rs) && rs@.len() == 0),
        r matches Ok(rs) ==> rs@.len() <= spec_clamp(max_results) && spec_clamp(max_results)
            <= 100,
        r matches Ok(rs) ==> sorted_by_relevance(
            entry_views(rs@),
            lower_of(spec_sanitize(query@)),
        ),
        r matches Ok(rs) ==> forall|k: int|
            0 <= k < rs@.len() ==> path_allowed(
                (#[trigger] entry_views(rs@)[k]).path,
                views_of(allowed_paths@),
            ),
        r matches Ok(rs) ==> (spec_sanitize(query@).len() > 0 ==> (canonical matches Some(c)
            && path_allowed(c@, views_of(allowed_paths@)) && forall|k: int|
            0 <= k < rs@.len() ==> result_ok(
                c@,
                max_depth as int,
                lower_of(spec_sanitize(query@)),
                #[trigger] entry_views(rs@)[k],
            ))),
        r matches Err(e) ==> spec_sanitize(query@).len() > 0,
        r matches Err(e) ==> (e == SearchError::InvalidPath <==> !(path_exists && is_dir
            && canonical is Some)),
        r matches Err(e) ==> (e == SearchError::PathNotAllowed <==> (path_exists && is_dir && (
        canonical matches Some(c) && !path_allowed(c@, views_of(allowed_paths@))))),
        r matches Err(e) ==> ((e == SearchError::DirectoryReadError
            || e == SearchError::EntryReadError) ==> (path_exists && is_dir && (
        canonical matches Some(c) && path_allowed(c@, views_of(allowed_paths@))))),
        r matches Ok(rs) ==> (spec_sanitize(query@).len() > 0 ==> (canonical matches Some(c) && ({
            let walked = walk_spec(
                listings@,
                seq![PendingView { path: c@, depth: 0 }],
                Seq::empty(),
                lower_of(spec_sanitize(query@)),
                spec_clamp(max_results),
                max_depth as int,
            );
            walked.1 is None && entry_views(rs@).to_multiset() == walked.0.to_multiset()
        }))),
        r matches Err(e) ==> ((e == SearchError::DirectoryReadError
            || e == SearchError::EntryReadError) ==> (canonical matches Some(c) && walk_spec(
            listings@,
            seq![PendingView { path: c@, depth: 0 }],
            Seq::empty(),
            lower_of(spec_sanitize(query@)),
            spec_clamp(max_results),
            max_depth as int,
        ).1 == Some(e))),
{
    let plan = match prepare_search(query, max_results) {
        None => {
            let empty: Vec<FileSearchResult> = Vec::new();
            proof {
                assert(entry_views(empty@) =~= Seq::<FileEntryView>::empty());
            }
            return Ok(empty);
        },
        Some(p) => p,
    };
    let root = match validate_and_normalize_search_path(
        path_exists,
        is_dir,
        canonical,
        allowed_paths,
    ) {
        Ok(rt) => rt,
        Err(e) => {
            return Err(e);
        },
    };
    let ghost rootv = root@;
    let ghost qv = lower_of(spec_sanitize(query@));
    let ghost mr = spec_clamp(max_results);
    let ghost md = max_depth as int;
    let ghost walked = walk_spec(
        listings@,
        seq![PendingView { path: rootv, depth: 0 }],
        Seq::empty(),
        qv,
        mr,
        md,
    );
    let query_lower = plan.query_lower.clone();
    let mut w = Walker::new(root, plan.query_lower, plan.max_results, max_depth);
    let mut snapshot = listings;
    proof {
        assert(w.stack_spec() =~= seq![PendingView { path: rootv, depth: 0 }]);
        assert(w.results_spec() =~= Seq::<FileEntryView>::empty());
    }
    while !w.is_done()
        invariant
            spec_sanitize(query@).len() > 0,
            path_exists,
            is_dir,
            canonical matches Some(c) && rootv == c@ && path_allowed(
                c@,
                views_of(allowed_paths@),
            ),
            qv == lower_of(spec_sanitize(query@)),
            mr == spec_clamp(max_results),
            md == max_depth as int,
            walked == walk_spec(
                listings@,
                seq![PendingView { path: rootv, depth: 0 }],
                Seq::empty(),
                qv,
                mr,
                md,
            ),
            walked == walk_spec(snapshot@, w.stack_spec(), w.results_spec(), qv, mr, md),
            w.inv(),
            w.query_spec() == lower_of(spec_sanitize(query@)),
            query_lower@ == lower_of(spec_sanitize(query@)),
            w.max_results_spec() == spec_clamp(max_results),
            w.max_depth_spec() == max_depth as int,
            w.root_spec() == rootv,
            snapshot_wf(snapshot@),
        decreases snapshot@.len(), w.stack_spec().len(),
    {
        let dir = w.pending_dir().unwrap();
        let ghost pre_snapshot = snapshot@;
        let n = snapshot.len();
        let mut idx: usize = 0;
        let mut found_at: Option<usize> = None;
        while idx < n && found_at.is_none()
            invariant
                n == snapshot@.len(),
                snapshot@ == pre_snapshot,
                0 <= idx <= n,
                forall|j: int| 0 <= j < idx ==> (#[trigger] snapshot@[j]).path@ != dir@,
                found_at matches Some(fi) ==> fi == idx && idx < n && snapshot@[fi as int].path@
                    == dir@,
            decreases n - idx, (if found_at is None {
                1int
            } else {
                0int
            }),
        {
            if crate::text::str_eq(snapshot[idx].path.as_str(), dir.as_str()) {
                found_at = Some(idx);
            } else {
                idx = idx + 1;
            }
        }
        proof {
            lemma_first_listing_index_props(pre_snapshot, dir@);
            match found_at {
                Some(fi) => {
                    assert(first_listing_index(pre_snapshot, dir@) == fi as int);
                },
                None => {
                    assert(idx == n);
                    assert(first_listing_index(pre_snapshot, dir@) == -1);
                },
            }
        }
        let listing: Option<Vec<EntryInfo>> = match found_at {
            Some(fi) => {
                let dl = snapshot.remove(fi);
                proof {
                    assert(dl == pre_snapshot[fi as int]);
                    assert(snapshot@ == pre_snapshot.remove(fi as int));
                    assert forall|j: int|
                        0 <= j < snapshot@.len() implies match (#[trigger] snapshot@[j]).entries {
                        Some(es) => listing_extends(snapshot@[j].path@, es@),
                        None => true,
                    } by {
                        if j < fi {
                            assert(snapshot@[j] == pre_snapshot[j]);
                        } else {
                            assert(snapshot@[j] == pre_snapshot[j + 1]);
                        }
                    }
                }
                dl.entries
            },
            None => None,
        };
        let ghost lv = listing;
        let ghost wpre = w;
        let ghost top = wpre.stack_spec().last();
        proof {
            assert(top.path == dir@);
            match lv {
                Some(es) => {
                    assert(listing_extends(dir@, es@));
                },
                None => {},
            }
        }
        match w.supply_listing(listing) {
            Ok(()) => {
                proof {
                    match found_at {
                        Some(fi) => {
                            match lv {
                                Some(es) => {
                                    let out = crate::walker::process_entries(
                                        crate::walker::listing_views(es@),
                                        top.depth,
                                        qv,
                                        wpre.results_spec(),
                                        mr,
                                        md,
                                    );
                                    assert(out.error is None);
                                    assert(walked == walk_spec(
                                        snapshot@,
                                        wpre.stack_spec().drop_last() + out.pushes,
                                        out.results,
                                        qv,
                                        mr,
                                        md,
                                    ));
                                    if out.cut {
                                        crate::walker::lemma_process_cut_budget(
                                            crate::walker::listing_views(es@),
                                            top.depth,
                                            qv,
                                            wpre.results_spec(),
                                            mr,
                                            md,
                                        );
                                        assert(out.results.len() >= mr);
                                        assert(walk_spec(
                                            snapshot@,
                                            wpre.stack_spec().drop_last() + out.pushes,
                                            out.results,
                                            qv,
                                            mr,
                                            md,
                                        ) == (out.results, Option::<SearchError>::None));
                                        assert(walk_spec(
                                            snapshot@,
                                            w.stack_spec(),
                                            w.results_spec(),
                                            qv,
                                            mr,
                                            md,
                                        ) == (out.results, Option::<SearchError>::None));
                                    }
                                },
                                None => {
                                    assert(top.depth != 0);
                                },
                            }
                        },
                        None => {
                            assert(lv is None);
                            assert(top.depth != 0);
                        },
                    }
                }
            },
            Err(e) => {
                proof {
                    match lv {
                        Some(es) => {
                            crate::walker::lemma_process_error_kind(
                                crate::walker::listing_views(es@),
                                top.depth,
                                wpre.query_spec(),
                                wpre.results_spec(),
                                wpre.max_results_spec(),
                                wpre.max_depth_spec(),
                            );
                            let out = crate::walker::process_entries(
                                crate::walker::listing_views(es@),
                                top.depth,
                                qv,
                                wpre.results_spec(),
                                mr,
                                md,
                            );
                            assert(out.error == Some(e));
                            assert(walked == (out.results, Some(e)));
                        },
                        None => {
                            assert(top.depth == 0);
                            assert(walked == (wpre.results_spec(), Some(
                                SearchError::DirectoryReadError,
                            )));
                        },
                    }
                    assert(e == SearchError::DirectoryReadError
                        || e == SearchError::EntryReadError);
                    assert(walked.1 == Some(e));
                }
                return Err(e);
            },
        }
    }
    proof {
        assert(walk_spec(snapshot@, w.stack_spec(), w.results_spec(), qv, mr, md) == (
            w.results_spec(),
            Option::<SearchError>::None,
        ));
        assert(walked.1 is None);
        assert(walked.0 == w.results_spec());
    }
    let ghost w0 = w;
    let results = w.into_results();
    let sorted = sort_by_relevance(results, query_lower.as_str());
    proof {
        lemma_search_result_budget(&w0, entry_views(sorted@), max_results);
        lemma_reordered_results_sound(&w0, entry_views(sorted@));
        lemma_results_within_allowed(&w0, entry_views(sorted@), views_of(allowed_paths@));
        assert(entry_views(sorted@).to_multiset() == walked.0.to_multiset());
    }
    Ok(sorted)
}

/// Two raw queries are case-insensitive equivalents: sanitized and
/// lowercased they coincide, and one sanitizes to empty exactly when the
/// other does.
pub open spec fn queries_equivalent(q1: Seq<char>, q2: Seq<char>) -> bool {
    &&& lower_of(spec_sanitize(q1)) == lower_of(spec_sanitize(q2))
    &&& (spec_sanitize(q1).len() == 0 <==> spec_sanitize(q2).len() == 0)
}

/// Case-insensitively equivalent queries prepare to the same plan; since
/// the traversal and the ordering read the query only through the plan,
/// such queries yield identical results.
pub proof fn lemma_equivalent_queries_same_plan(
    q1: Seq<char>,
    q2: Seq<char>,
    m: Option<usize>,
)
    requires
        queries_equivalent(q1, q2),
    ensures
        spec_plan(q1, m) == spec_plan(q2, m),
{
}

/// Case-insensitively equivalent queries walk any snapshot identically:
/// the collected entries and the error, which `search_files` ties its
/// result to, coincide, so both calls return the same result set.
pub proof fn lemma_equivalent_queries_same_walk(
    q1: Seq<char>,
    q2: Seq<char>,
    m: Option<usize>,
    listings: Seq<DirListing>,
    stack: Seq<PendingView>,
    results: Seq<FileEntryView>,
    max_depth: int,
)
    requires
        queries_equivalent(q1, q2),
    ensures
        walk_spec(
            listings,
            stack,
            results,
            lower_of(spec_sanitize(q1)),
            spec_clamp(m),
            max_depth,
        ) == walk_spec(
            listings,
            stack,
            results,
            lower_of(spec_sanitize(q2)),
            spec_clamp(m),
            max_depth,
        ),
{
}

/// A query that sanitizes to empty yields no plan: no traversal and no
/// path validation happen, and the result sequence is empty.
pub proof fn lemma_empty_query_no_plan(q: Seq<char>, m: Option<usize>)
    requires
        spec_sanitize(q).len() == 0,
    ensures
        spec_plan(q, m) is None,
{
}

/// The budget always lands in `[0, 100]`, and a walk never collects more
/// entries than it; any reordering of what the walk collected keeps its
/// count, so at most `clamp(max_results, 0, 100)` entries ever come back.
pub proof fn lemma_search_result_budget(w: &Walker, sorted: Seq<FileEntryView>, m: Option<usize>)
    requires
        w.inv(),
        w.max_results_spec() == spec_clamp(m),
        sorted.to_multiset() == w.results_spec().to_multiset(),
    ensures
        0 <= sorted.len() <= spec_clamp(m) <= 100,
{
    sorted.to_multiset_ensures();
    w.results_spec().to_multiset_ensures();
}

/// Reordering what a walk collected (as sorting does) keeps every entry
/// sound: not hidden, matching the query, and inside the root within the
/// depth bound.
pub proof fn lemma_reordered_results_sound(w: &Walker, s: Seq<FileEntryView>)
    requires
        w.inv(),
        s.to_multiset() == w.results_spec().to_multiset(),
    ensures
        forall|k: int|
            0 <= k < s.len() ==> result_ok(
                w.root_spec(),
                w.max_depth_spec(),
                w.query_spec(),
                #[trigger] s[k],
            ),
{
    s.to_multiset_ensures();
    w.results_spec().to_multiset_ensures();
    assert forall|k: int|
        0 <= k < s.len() implies result_ok(
        w.root_spec(),
        w.max_depth_spec(),
        w.query_spec(),
        #[trigger] s[k],
    ) by {
        assert(s.contains(s[k]));
        assert(s.to_multiset().count(s[k]) > 0);
        assert(w.results_spec().contains(s[k]));
        let j = choose|j: int| 0 <= j < w.results_spec().len() && w.results_spec()[j] == s[k];
        assert(result_ok(
            w.root_spec(),
            w.max_depth_spec(),
            w.query_spec(),
            w.results_spec()[j],
        ));
    }
}

/// With the canonical search root inside an allowed root, every returned
/// entry's path also lies inside that allowed root, sorted or not: the
/// search never leaves the sandbox.
pub proof fn lemma_results_within_allowed(
    w: &Walker,
    s: Seq<FileEntryView>,
    roots: Seq<Seq<char>>,
)
    requires
        w.inv(),
        path_allowed(w.root_spec(), roots),
        s.to_multiset() == w.results_spec().to_multiset(),
    ensures
        forall|k: int| 0 <= k < s.len() ==> path_allowed((#[trigger] s[k]).path, roots),
{
    lemma_reordered_results_sound(w, s);
    let i = choose|i: int| 0 <= i < roots.len() && is_contained(#[trigger] roots[i], w.root_spec());
    assert forall|k: int| 0 <= k < s.len() implies path_allowed((#[trigger] s[k]).path, roots) by {
        lemma_prefix_trans(
            path_components(roots[i]),
            path_components(w.root_spec()),
            path_components(s[k].path),
        );
        assert(is_contained(roots[i], s[k].path));
    }
}

/// With `max_depth` 0, every returned entry sits directly in the root: its
/// path has exactly one segment more than the root's, so nothing from any
/// subdirectory is returned.
pub proof fn lemma_depth_zero_stays_in_root(w: &Walker, s: Seq<FileEntryView>)
    requires
        w.inv(),
        w.max_depth_spec() == 0,
        s.to_multiset() == w.results_spec().to_multiset(),
    ensures
        forall|k: int|
            0 <= k < s.len() ==> path_components((#[trigger] s[k]).path).len() == path_components(
                w.root_spec(),
            ).len() + 1,
{
    lemma_reordered_results_sound(w, s);
}

} // verus!
