//! The directory walker: a depth- and budget-bounded traversal, driven as a
//! state machine. The walker decides everything — which directory to list
//! next, which entries to keep, when to stop, which failures are fatal —
//! while the caller only performs the directory listings it asks for and
//! hands the outcome back. A directory's matches are collected before any
//! descent, and pending subdirectories are taken up in reverse sibling
//! order; which siblings a truncating budget keeps is therefore part of the
//! deliberately unspecified sibling order.
use vstd::prelude::*;

use crate::paths::{is_contained, lemma_prefix_trans, path_components};
use crate::score::entry_views;
use crate::text::{contains_seq, contains_substring, first_char_is, lower_of, lowercase};
use crate::types::{FileEntryView, FileSearchResult, SearchError};

verus! {

/// What a directory listing reports for one entry: its name, its full path,
/// whether it is a directory, and its metadata where that could be read
/// (`meta_ok` false means the size and timestamp could not be obtained).
#[derive(Debug)]
pub struct EntryInfo {
    pub name: String,
    pub path: String,
    pub is_dir: bool,
    pub size: u64,
    pub modified: u64,
    pub meta_ok: bool,
}

/// The mathematical shadow of an `EntryInfo`.
pub ghost struct EntryInfoView {
    pub name: Seq<char>,
    pub path: Seq<char>,
    pub is_dir: bool,
    pub size: u64,
    pub modified: u64,
    pub meta_ok: bool,
}

impl View for EntryInfo {
    type V = EntryInfoView;

    open spec fn view(&self) -> EntryInfoView {
        EntryInfoView {
            name: self.name@,
            path: self.path@,
            is_dir: self.is_dir,
            size: self.size,
            modified: self.modified,
            meta_ok: self.meta_ok,
        }
    }
}

/// The mathematical shadows of a listing.
pub open spec fn listing_views(s: Seq<EntryInfo>) -> Seq<EntryInfoView> {
    s.map_values(|e: EntryInfo| e@)
}

/// A directory waiting to be listed, with its depth below the root.
struct PendingDir {
    path: String,
    depth: usize,
}

/// The mathematical shadow of a pending directory.
pub ghost struct PendingView {
    pub path: Seq<char>,
    pub depth: int,
}

impl View for PendingDir {
    type V = PendingView;

    closed spec fn view(&self) -> PendingView {
        PendingView { path: self.path@, depth: self.depth as int }
    }
}

spec fn pending_views(s: Seq<PendingDir>) -> Seq<PendingView> {
    s.map_values(|p: PendingDir| p@)
}

/// A name the walker never returns: one starting with `.` or `~`.
pub open spec fn hidden_name(name: Seq<char>) -> bool {
    name.len() > 0 && (name[0] == '.' || name[0] == '~')
}

/// The search result built from a listed entry.
pub open spec fn entry_of(e: EntryInfoView) -> FileEntryView {
    FileEntryView { name: e.name, path: e.path, is_dir: e.is_dir, size: e.size, modified: e.modified }
}

/// What processing one directory listing yields: the accumulated results,
/// the subdirectories to descend into, a fatal error if one occurred, and
/// whether the result budget was reached.
pub ghost struct StepOutcome {
    pub results: Seq<FileEntryView>,
    pub pushes: Seq<PendingView>,
    pub error: Option<SearchError>,
    pub cut: bool,
}

/// Processing of a listing's entries, in order, at depth `d`: an entry is
/// skipped when the budget is full (which ends the whole walk) or when it is
/// hidden; a matching entry is appended, unless its metadata failed — fatal
/// at the root level, skipped below it; a subdirectory above `max_depth` is
/// never descended into.
pub open spec fn process_entries(
    entries: Seq<EntryInfoView>,
    d: int,
    query: Seq<char>,
    results: Seq<FileEntryView>,
    max_results: int,
    max_depth: int,
) -> StepOutcome
    decreases entries.len(),
{
    if entries.len() == 0 {
        StepOutcome { results, pushes: Seq::empty(), error: None, cut: false }
    } else if results.len() >= max_results {
        StepOutcome { results, pushes: Seq::empty(), error: None, cut: true }
    } else {
        let e = entries[0];
        let rest = entries.skip(1);
        if hidden_name(e.name) {
            process_entries(rest, d, query, results, max_results, max_depth)
        } else if contains_seq(lower_of(e.name), query) && !e.meta_ok && d == 0 {
            StepOutcome {
                results,
                pushes: Seq::empty(),
                error: Some(SearchError::EntryReadError),
                cut: false,
            }
        } else {
            let results2 = if contains_seq(lower_of(e.name), query) && e.meta_ok {
                results.push(entry_of(e))
            } else {
                results
            };
            let out = process_entries(rest, d, query, results2, max_results, max_depth);
            if e.is_dir && d < max_depth {
                StepOutcome {
                    results: out.results,
                    pushes: seq![PendingView { path: e.path, depth: d + 1 }] + out.pushes,
                    error: out.error,
                    cut: out.cut,
                }
            } else {
                out
            }
        }
    }
}

/// The only fatal outcome of processing entries is a failed metadata read:
/// `EntryReadError`.
pub proof fn lemma_process_error_kind(
    entries: Seq<EntryInfoView>,
    d: int,
    query: Seq<char>,
    results: Seq<FileEntryView>,
    max_results: int,
    max_depth: int,
)
    ensures
        match process_entries(entries, d, query, results, max_results, max_depth).error {
            Some(e) => e == SearchError::EntryReadError,
            None => true,
        },
    decreases entries.len(),
{
    if entries.len() == 0 || results.len() >= max_results {
    } else {
        let e = entries[0];
        let rest = entries.skip(1);
        if hidden_name(e.name) {
            lemma_process_error_kind(rest, d, query, results, max_results, max_depth);
        } else if contains_seq(lower_of(e.name), query) && !e.meta_ok && d == 0 {
        } else {
            let results2 = if contains_seq(lower_of(e.name), query) && e.meta_ok {
                results.push(entry_of(e))
            } else {
                results
            };
            lemma_process_error_kind(rest, d, query, results2, max_results, max_depth);
        }
    }
}

/// Processing reports a cut only once the results have filled the budget.
pub proof fn lemma_process_cut_budget(
    entries: Seq<EntryInfoView>,
    d: int,
    query: Seq<char>,
    results: Seq<FileEntryView>,
    max_results: int,
    max_depth: int,
)
    ensures
        process_entries(entries, d, query, results, max_results, max_depth).cut
            ==> process_entries(
            entries,
            d,
            query,
            results,
            max_results,
            max_depth,
        ).results.len() >= max_results,
    decreases entries.len(),
{
    if entries.len() == 0 || results.len() >= max_results {
    } else {
        let e = entries[0];
        let rest = entries.skip(1);
        if hidden_name(e.name) {
            lemma_process_cut_budget(rest, d, query, results, max_results, max_depth);
        } else if contains_seq(lower_of(e.name), query) && !e.meta_ok && d == 0 {
        } else {
            let results2 = if contains_seq(lower_of(e.name), query) && e.meta_ok {
                results.push(entry_of(e))
            } else {
                results
            };
            lemma_process_cut_budget(rest, d, query, results2, max_results, max_depth);
        }
    }
}

/// A returned entry is sound for root `root`, query `query` and depth bound
/// `maxd`: not hidden, matching, and lying strictly below the root, at most
/// `maxd + 1` segments deeper.
pub open spec fn result_ok(
    root: Seq<char>,
    maxd: int,
    query: Seq<char>,
    e: FileEntryView,
) -> bool {
    &&& !hidden_name(e.name)
    &&& contains_seq(lower_of(e.name), query)
    &&& is_contained(root, e.path)
    &&& path_components(root).len() < path_components(e.path).len() <= path_components(root).len()
        + maxd + 1
}

/// A pending directory is sound: within the root, at its recorded depth.
pub open spec fn pending_ok(root: Seq<char>, maxd: int, s: PendingView) -> bool {
    &&& 0 <= s.depth <= maxd
    &&& path_components(root).is_prefix_of(path_components(s.path))
    &&& path_components(s.path).len() == path_components(root).len() + s.depth
}

/// Every entry of a supplied listing for directory `dir` carries the path
/// the filesystem gives it: the directory's path extended by its own name.
pub open spec fn listing_extends(dir: Seq<char>, entries: Seq<EntryInfo>) -> bool {
    forall|j: int|
        0 <= j < entries.len() ==> path_components(#[trigger] entries[j]@.path) == path_components(
            dir,
        ).push(entries[j]@.name)
}

/// The traversal state machine.
pub struct Walker {
    query: String,
    max_results: usize,
    max_depth: usize,
    stack: Vec<PendingDir>,
    results: Vec<FileSearchResult>,
    root: Ghost<Seq<char>>,
}

impl Walker {
    /// The lowercased query the walker matches against.
    pub closed spec fn query_spec(&self) -> Seq<char> {
        self.query@
    }

    /// The result budget.
    pub closed spec fn max_results_spec(&self) -> int {
        self.max_results as int
    }

    /// The depth bound (the root itself is depth 0).
    pub closed spec fn max_depth_spec(&self) -> int {
        self.max_depth as int
    }

    /// The directories still to list; the last is listed next.
    pub closed spec fn stack_spec(&self) -> Seq<PendingView> {
        pending_views(self.stack@)
    }

    /// The entries collected so far, in traversal order.
    pub closed spec fn results_spec(&self) -> Seq<FileEntryView> {
        entry_views(self.results@)
    }

    /// The path of the resolved root the walk started from.
    pub closed spec fn root_spec(&self) -> Seq<char> {
        self.root@
    }

    /// The walk is finished: nothing is left to list, or the result budget
    /// is already full — a full budget stops every branch before its
    /// directory is ever listed.
    pub open spec fn done(&self) -> bool {
        self.stack_spec().len() == 0 || self.results_spec().len() >= self.max_results_spec()
    }

    /// The walker's invariant: the budget is respected, every collected
    /// entry is sound, and every pending directory lies within the root at
    /// its recorded depth.
    pub open spec fn inv(&self) -> bool {
        &&& self.results_spec().len() <= self.max_results_spec()
        &&& forall|k: int|
            0 <= k < self.results_spec().len() ==> result_ok(
                self.root_spec(),
                self.max_depth_spec(),
                self.query_spec(),
                #[trigger] self.results_spec()[k],
            )
        &&& forall|k: int|
            0 <= k < self.stack_spec().len() ==> pending_ok(
                self.root_spec(),
                self.max_depth_spec(),
                #[trigger] self.stack_spec()[k],
            )
    }

    /// A fresh walk of `root` for the lowercased query `query_lower`.
    pub fn new(root: String, query_lower: String, max_results: usize, max_depth: usize) -> (w:
        Walker)
        ensures
            w.inv(),
            w.query_spec() == query_lower@,
            w.max_results_spec() == max_results as int,
            w.max_depth_spec() == max_depth as int,
            w.root_spec() == root@,
            w.results_spec() == Seq::<FileEntryView>::empty(),
            w.stack_spec() =~= seq![PendingView { path: root@, depth: 0 }],
    {
        let ghost rv = root@;
        let mut stack: Vec<PendingDir> = Vec::new();
        stack.push(PendingDir { path: root, depth: 0 });
        let w = Walker {
            query: query_lower,
            max_results,
            max_depth,
            stack,
            results: Vec::new(),
            root: Ghost(rv),
        };
        proof {
            assert(w.stack_spec() =~= seq![PendingView { path: rv, depth: 0 }]);
            assert(w.results_spec() =~= Seq::<FileEntryView>::empty());
            assert(path_components(rv).is_prefix_of(path_components(rv))) by {
                assert(path_components(rv) =~= path_components(rv).subrange(
                    0,
                    path_components(rv).len() as int,
                ));
            }
        }
        w
    }

    /// The directory to list next, if the walk is not finished.
    pub fn pending_dir(&self) -> (r: Option<String>)
        ensures
            match r {
                Some(p) => !self.done() && p@ == self.stack_spec().last().path,
                None => self.done(),
            },
    {
        if self.stack.is_empty() || self.results.len() >= self.max_results {
            None
        } else {
            let p = self.stack[self.stack.len() - 1].path.clone();
            Some(p)
        }
    }

    /// Whether the walk is finished.
    pub fn is_done(&self) -> (r: bool)
        ensures
            r == self.done(),
    {
        self.stack.is_empty() || self.results.len() >= self.max_results
    }

    /// The collected entries, in traversal order.
    pub fn into_results(self) -> (r: Vec<FileSearchResult>)
        ensures
            entry_views(r@) == self.results_spec(),
    {
        self.results
    }

    /// Feeds the walker the listing of the directory it asked for — `None`
    /// when the directory could not be listed. A failure to list the root is
    /// fatal; a failure below it only skips that subtree. A fatal outcome,
    /// like a filled budget, ends the whole walk.
    pub fn supply_listing(&mut self, listing: Option<Vec<EntryInfo>>) -> (r: Result<
        (),
        SearchError,
    >)
        requires
            old(self).inv(),
            !old(self).done(),
            match listing {
                Some(es) => listing_extends(old(self).stack_spec().last().path, es@),
                None => true,
            },
        ensures
            final(self).inv(),
            final(self).query_spec() == old(self).query_spec(),
            final(self).max_results_spec() == old(self).max_results_spec(),
            final(self).max_depth_spec() == old(self).max_depth_spec(),
            final(self).root_spec() == old(self).root_spec(),
            match listing {
                None => {
                    if old(self).stack_spec().last().depth == 0 {
                        &&& r == Err::<(), SearchError>(SearchError::DirectoryReadError)
                        &&& final(self).done()
                        &&& final(self).results_spec() == old(self).results_spec()
                    } else {
                        &&& r == Ok::<(), SearchError>(())
                        &&& final(self).results_spec() == old(self).results_spec()
                        &&& final(self).stack_spec() == old(self).stack_spec().drop_last()
                    }
                },
                Some(es) => {
                    let out = process_entries(
                        listing_views(es@),
                        old(self).stack_spec().last().depth,
                        old(self).query_spec(),
                        old(self).results_spec(),
                        old(self).max_results_spec(),
                        old(self).max_depth_spec(),
                    );
                    &&& final(self).results_spec() == out.results
                    &&& match out.error {
                        Some(e) => r == Err::<(), SearchError>(e) && final(self).done(),
                        None => r == Ok::<(), SearchError>(()) && (if out.cut {
                            final(self).done()
                        } else {
                            final(self).stack_spec() == old(self).stack_spec().drop_last()
                                + out.pushes
                        }),
                    }
                },
            },
    {
        let ghost pre = *self;
        let pd = self.stack.pop().unwrap();
        let d = pd.depth;
        proof {
            assert(pre.stack_spec().last() == pd@);
            assert(pending_views(self.stack@) =~= pre.stack_spec().drop_last());
        }
        match listing {
            None => {
                if d == 0 {
                    self.stack.clear();
                    proof {
                        assert(self.stack_spec() =~= Seq::<PendingView>::empty());
                    }
                    Err(SearchError::DirectoryReadError)
                } else {
                    Ok(())
                }
            },
            Some(entries) => {
                let ghost eviews = listing_views(entries@);
                let ghost q = pre.query_spec();
                let ghost res0 = pre.results_spec();
                let ghost maxr = pre.max_results_spec();
                let ghost maxd = pre.max_depth_spec();
                let ghost root = pre.root_spec();
                let ghost dirp = pd@.path;
                let ghost goal = process_entries(eviews, d as int, q, res0, maxr, maxd);
                let ghost base = pre.stack_spec().drop_last();
                let ghost acc0 = Seq::<PendingView>::empty();
                proof {
                    assert(eviews.skip(0) =~= eviews);
                    assert(acc0 + goal.pushes =~= goal.pushes);
                    assert(pending_ok(root, maxd, pd@));
                }
                let n = entries.len();
                let mut i: usize = 0;
                while i < n
                    invariant
                        pre == *old(self),
                        listing == Some::<Vec<EntryInfo>>(entries),
                        pd@ == pre.stack_spec().last(),
                        res0 == pre.results_spec(),
                        base == pre.stack_spec().drop_last(),
                        n == entries@.len(),
                        0 <= i <= n,
                        self.query == pre.query,
                        self.max_results == pre.max_results,
                        self.max_depth == pre.max_depth,
                        self.root == pre.root,
                        self.inv(),
                        listing_extends(dirp, entries@),
                        eviews == listing_views(entries@),
                        q == pre.query_spec(),
                        maxr == pre.max_results_spec(),
                        maxd == pre.max_depth_spec(),
                        root == pre.root_spec(),
                        goal == process_entries(eviews, d as int, q, res0, maxr, maxd),
                        pending_ok(root, maxd, pd@),
                        d as int == pd@.depth,
                        dirp == pd@.path,
                        self.stack_spec().len() >= base.len(),
                        self.stack_spec().subrange(0, base.len() as int) == base,
                        ({
                            let acc = self.stack_spec().skip(base.len() as int);
                            let sub = process_entries(
                                eviews.skip(i as int),
                                d as int,
                                q,
                                self.results_spec(),
                                maxr,
                                maxd,
                            );
                            &&& goal.results == sub.results
                            &&& goal.error == sub.error
                            &&& goal.cut == sub.cut
                            &&& goal.pushes == acc + sub.pushes
                        }),
                    decreases n - i,
                {
                    let ghost rest = eviews.skip(i as int);
                    let ghost acc_pre = self.stack_spec().skip(base.len() as int);
                    let ghost res_pre = self.results_spec();
                    proof {
                        assert(rest[0] == eviews[i as int]);
                        assert(eviews[i as int] == entries@[i as int]@);
                        assert(rest.skip(1) =~= eviews.skip(i + 1 as int));
                    }
                    if self.results.len() >= self.max_results {
                        proof {
                            let sub = process_entries(rest, d as int, q, res_pre, maxr, maxd);
                            assert(rest.len() > 0);
                            assert(res_pre.len() >= maxr);
                            assert(sub.cut && sub.error is None && sub.results == res_pre);
                            assert(goal.cut && goal.error is None && goal.results == res_pre);
                        }
                        self.stack.clear();
                        proof {
                            assert(self.stack_spec() =~= Seq::<PendingView>::empty());
                        }
                        return Ok(());
                    }
                    let e = &entries[i];
                    let hidden = first_char_is(e.name.as_str(), '.') || first_char_is(
                        e.name.as_str(),
                        '~',
                    );
                    if !hidden {
                        let lname = lowercase(e.name.as_str());
                        let matched = contains_substring(lname.as_str(), self.query.as_str());
                        if matched {
                            if e.meta_ok {
                                let fr = FileSearchResult {
                                    name: e.name.clone(),
                                    path: e.path.clone(),
                                    is_dir: e.is_dir,
                                    size: e.size,
                                    modified: e.modified,
                                };
                                self.results.push(fr);
                                proof {
                                    assert(self.results_spec() =~= res_pre.push(
                                        entry_of(eviews[i as int]),
                                    ));
                                    assert(path_components(eviews[i as int].path)
                                        == path_components(dirp).push(eviews[i as int].name));
                                    assert(path_components(dirp).is_prefix_of(
                                        path_components(eviews[i as int].path),
                                    )) by {
                                        assert(path_components(dirp) =~= path_components(
                                            eviews[i as int].path,
                                        ).subrange(0, path_components(dirp).len() as int));
                                    }
                                    lemma_prefix_trans(
                                        path_components(root),
                                        path_components(dirp),
                                        path_components(eviews[i as int].path),
                                    );
                                    assert(result_ok(root, maxd, q, entry_of(eviews[i as int])));
                                }
                            } else if d == 0 {
                                proof {
                                    let sub = process_entries(
                                        rest,
                                        d as int,
                                        q,
                                        res_pre,
                                        maxr,
                                        maxd,
                                    );
                                    assert(rest.len() > 0);
                                    assert(res_pre.len() < maxr);
                                    assert(!hidden_name(rest[0].name));
                                    assert(contains_seq(lower_of(rest[0].name), q));
                                    assert(!rest[0].meta_ok);
                                    assert(sub.error == Some(SearchError::EntryReadError)
                                        && sub.results == res_pre);
                                    assert(goal.error == Some(SearchError::EntryReadError)
                                        && goal.results == res_pre);
                                }
                                self.stack.clear();
                                proof {
                                    assert(self.stack_spec() =~= Seq::<PendingView>::empty());
                                }
                                return Err(SearchError::EntryReadError);
                            }
                        }
                        if e.is_dir && d < self.max_depth {
                            let sub = PendingDir { path: e.path.clone(), depth: d + 1 };
                            proof {
                                assert(path_components(eviews[i as int].path) == path_components(
                                    dirp,
                                ).push(eviews[i as int].name));
                                assert(path_components(dirp).is_prefix_of(
                                    path_components(eviews[i as int].path),
                                )) by {
                                    assert(path_components(dirp) =~= path_components(
                                        eviews[i as int].path,
                                    ).subrange(0, path_components(dirp).len() as int));
                                }
                                lemma_prefix_trans(
                                    path_components(root),
                                    path_components(dirp),
                                    path_components(eviews[i as int].path),
                                );
                                assert(pending_ok(root, maxd, sub@));
                            }
                            let ghost st_pre = self.stack_spec();
                            self.stack.push(sub);
                            proof {
                                assert(self.stack_spec() =~= st_pre.push(
                                    PendingView { path: eviews[i as int].path, depth: d + 1 },
                                ));
                                assert(self.stack_spec().skip(base.len() as int) =~= acc_pre.push(
                                    PendingView { path: eviews[i as int].path, depth: d + 1 },
                                ));
                                assert(self.stack_spec().subrange(0, base.len() as int) =~= base);
                                assert(acc_pre.push(
                                    PendingView { path: eviews[i as int].path, depth: d + 1 },
                                ) + process_entries(
                                    eviews.skip(i + 1 as int),
                                    d as int,
                                    q,
                                    self.results_spec(),
                                    maxr,
                                    maxd,
                                ).pushes =~= acc_pre + (seq![
                                    PendingView { path: eviews[i as int].path, depth: d + 1 },
                                ] + process_entries(
                                    eviews.skip(i + 1 as int),
                                    d as int,
                                    q,
                                    self.results_spec(),
                                    maxr,
                                    maxd,
                                ).pushes));
                            }
                        }
                    }
                    i = i + 1;
                }
                proof {
                    assert(eviews.skip(n as int) =~= Seq::<EntryInfoView>::empty());
                    let sub = process_entries(
                        eviews.skip(n as int),
                        d as int,
                        q,
                        self.results_spec(),
                        maxr,
                        maxd,
                    );
                    assert(sub.error is None && !sub.cut && sub.results == self.results_spec());
                    assert(goal.error is None && !goal.cut && goal.results == self.results_spec());
                    let acc = self.stack_spec().skip(base.len() as int);
                    assert(goal.pushes == acc + Seq::<PendingView>::empty());
                    assert(goal.pushes =~= acc);
                    assert(self.stack_spec() =~= base + acc);
                }
                Ok(())
            },
        }
    }
}

} // verus!
