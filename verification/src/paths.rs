//! The sandbox policy: the allowed root directories, and the
//! segment-wise path containment check.
use vstd::prelude::*;

verus! {

/// The character sequences of a sequence of strings.
pub open spec fn views_of(v: Seq<String>) -> Seq<Seq<char>> {
    v.map_values(|s: String| s@)
}

/// The character sequence of an optional string.
pub open spec fn opt_view(o: Option<String>) -> Option<Seq<char>> {
    match o {
        Some(s) => Some(s@),
        None => None,
    }
}

/// The character sequences of a sequence of optional strings.
pub open spec fn opt_views(v: Seq<Option<String>>) -> Seq<Option<Seq<char>>> {
    v.map_values(|o: Option<String>| opt_view(o))
}

pub open spec fn comps_acc(s: Seq<char>, cur: Seq<char>) -> Seq<Seq<char>>
    decreases s.len(),
{
    if s.len() == 0 {
        if cur.len() == 0 {
            Seq::empty()
        } else {
            seq![cur]
        }
    } else if s[0] == '/' {
        if cur.len() == 0 {
            comps_acc(s.skip(1), Seq::empty())
        } else {
            seq![cur] + comps_acc(s.skip(1), Seq::empty())
        }
    } else {
        comps_acc(s.skip(1), cur.push(s[0]))
    }
}

/// The nonempty `/`-separated segments of a path, in order.
pub open spec fn path_components(s: Seq<char>) -> Seq<Seq<char>> {
    comps_acc(s, Seq::empty())
}

/// `root` contains `candidate`: the segments of `root` are a prefix of the
/// segments of `candidate`. This compares path components, never raw text,
/// so `/home/alice` does not contain `/home/alice2`.
pub open spec fn is_contained(root: Seq<char>, candidate: Seq<char>) -> bool {
    path_components(root).is_prefix_of(path_components(candidate))
}

/// `candidate` equals, or descends from, at least one of `roots`.
pub open spec fn path_allowed(candidate: Seq<char>, roots: Seq<Seq<char>>) -> bool {
    exists|i: int| 0 <= i < roots.len() && is_contained(#[trigger] roots[i], candidate)
}

/// Splits a path into its nonempty `/`-separated segments.
pub fn split_path(p: &str) -> (r: Vec<String>)
    ensures
        views_of(r@) == path_components(p@),
{
    let n = p.unicode_len();
    let mut acc: Vec<String> = Vec::new();
    let mut cur: String = String::new();
    let mut i: usize = 0;
    proof {
        assert(p@.skip(0) =~= p@);
        assert(views_of(acc@) =~= Seq::<Seq<char>>::empty());
        assert(Seq::<Seq<char>>::empty() + comps_acc(p@, Seq::empty()) =~= comps_acc(
            p@,
            Seq::empty(),
        ));
    }
    while i < n
        invariant
            n == p@.len(),
            0 <= i <= n,
            path_components(p@) == views_of(acc@) + comps_acc(p@.skip(i as int), cur@),
        decreases n - i,
    {
        let ghost pre_acc = views_of(acc@);
        let ghost pre_cur = cur@;
        let c = p.get_char(i);
        proof {
            assert(p@.skip(i as int)[0] == p@[i as int]);
            assert(p@.skip(i as int).skip(1) =~= p@.skip(i + 1 as int));
        }
        if c == '/' {
            if !cur.as_str().is_empty() {
                proof {
                    assert(pre_cur.len() != 0);
                }
                acc.push(cur);
                cur = String::new();
                proof {
                    assert(views_of(acc@) =~= pre_acc + seq![pre_cur]);
                    assert(comps_acc(p@.skip(i as int), pre_cur) == seq![pre_cur] + comps_acc(
                        p@.skip(i + 1 as int),
                        Seq::empty(),
                    ));
                    assert((pre_acc + seq![pre_cur]) + comps_acc(p@.skip(i + 1 as int), cur@)
                        =~= pre_acc + (seq![pre_cur] + comps_acc(p@.skip(i + 1 as int), cur@)));
                }
            } else {
                proof {
                    assert(cur@ =~= Seq::<char>::empty());
                    assert(comps_acc(p@.skip(i as int), cur@) == comps_acc(
                        p@.skip(i + 1 as int),
                        cur@,
                    ));
                }
            }
        } else {
            let piece = p.substring_char(i, i + 1);
            cur.append(piece);
            proof {
                assert(cur@ =~= pre_cur.push(p@[i as int]));
                assert(comps_acc(p@.skip(i as int), pre_cur) == comps_acc(
                    p@.skip(i + 1 as int),
                    cur@,
                ));
            }
        }
        i = i + 1;
    }
    proof {
        assert(p@.skip(n as int) =~= Seq::<char>::empty());
    }
    if !cur.as_str().is_empty() {
        let ghost pre_acc = views_of(acc@);
        let ghost pre_cur = cur@;
        acc.push(cur);
        proof {
            assert(views_of(acc@) =~= pre_acc + seq![pre_cur]);
            assert(path_components(p@) =~= views_of(acc@));
        }
    } else {
        proof {
            assert(path_components(p@) =~= views_of(acc@));
        }
    }
    acc
}

/// The segments of `root` are a prefix of the segments of `cand`.
fn components_prefix(root: &Vec<String>, cand: &Vec<String>) -> (r: bool)
    ensures
        r == views_of(root@).is_prefix_of(views_of(cand@)),
{
    if root.len() > cand.len() {
        return false;
    }
    let mut j: usize = 0;
    while j < root.len()
        invariant
            root@.len() <= cand@.len(),
            0 <= j <= root@.len(),
            forall|k: int| 0 <= k < j ==> views_of(root@)[k] == views_of(cand@)[k],
        decreases root@.len() - j,
    {
        if !crate::text::str_eq(root[j].as_str(), cand[j].as_str()) {
            proof {
                assert(views_of(root@)[j as int] != views_of(cand@)[j as int]);
                assert(!views_of(root@).is_prefix_of(views_of(cand@)));
            }
            return false;
        }
        j = j + 1;
    }
    proof {
        assert(views_of(root@) =~= views_of(cand@).subrange(0, root@.len() as int));
    }
    true
}

/// Segment-wise containment of one path in another.
pub fn is_contained_in(root: &str, candidate: &str) -> (r: bool)
    ensures
        r == is_contained(root@, candidate@),
{
    let rc = split_path(root);
    let cc = split_path(candidate);
    components_prefix(&rc, &cc)
}

/// Whether `path` equals, or descends from, one of `allowed_paths`.
pub fn is_path_allowed(path: &str, allowed_paths: &Vec<String>) -> (r: bool)
    ensures
        r == path_allowed(path@, views_of(allowed_paths@)),
{
    let cc = split_path(path);
    let mut i: usize = 0;
    while i < allowed_paths.len()
        invariant
            0 <= i <= allowed_paths@.len(),
            views_of(cc@) == path_components(path@),
            forall|k: int|
                0 <= k < i ==> !is_contained(#[trigger] views_of(allowed_paths@)[k], path@),
        decreases allowed_paths@.len() - i,
    {
        let rc = split_path(allowed_paths[i].as_str());
        if components_prefix(&rc, &cc) {
            proof {
                assert(is_contained(views_of(allowed_paths@)[i as int], path@));
            }
            return true;
        }
        i = i + 1;
    }
    false
}

/// Prefixes chain: a prefix of a prefix is a prefix.
pub proof fn lemma_prefix_trans(a: Seq<Seq<char>>, b: Seq<Seq<char>>, c: Seq<Seq<char>>)
    requires
        a.is_prefix_of(b),
        b.is_prefix_of(c),
    ensures
        a.is_prefix_of(c),
{
    assert(a =~= c.subrange(0, a.len() as int));
}

/// The shared entries of an optional-path sequence, in order.
pub open spec fn somes_of(s: Seq<Option<Seq<char>>>) -> Seq<Seq<char>>
    decreases s.len(),
{
    if s.len() == 0 {
        Seq::empty()
    } else {
        somes_of(s.drop_last()) + opt_seq(s.last())
    }
}

/// An optional path as a sequence of zero or one paths.
pub open spec fn opt_seq(o: Option<Seq<char>>) -> Seq<Seq<char>> {
    match o {
        Some(v) => seq![v],
        None => Seq::empty(),
    }
}

/// The allow-list assembled from the resolvable platform directories and
/// the resolvable fixed shared directories, in that order.
pub open spec fn assembled_roots(
    home: Option<Seq<char>>,
    documents: Option<Seq<char>>,
    downloads: Option<Seq<char>>,
    desktop: Option<Seq<char>>,
    shared: Seq<Option<Seq<char>>>,
) -> Seq<Seq<char>> {
    opt_seq(home) + opt_seq(documents) + opt_seq(downloads) + opt_seq(desktop) + somes_of(shared)
}

/// Builds the allow-list from already-resolved directories.
pub fn assemble_allowed_roots(
    home: Option<String>,
    documents: Option<String>,
    downloads: Option<String>,
    desktop: Option<String>,
    shared: &Vec<Option<String>>,
) -> (r: Vec<String>)
    ensures
        views_of(r@) == assembled_roots(
            opt_view(home),
            opt_view(documents),
            opt_view(downloads),
            opt_view(desktop),
            opt_views(shared@),
        ),
{
    let ghost goal_prefix = opt_seq(opt_view(home)) + opt_seq(opt_view(documents)) + opt_seq(
        opt_view(downloads),
    ) + opt_seq(opt_view(desktop));
    let mut out: Vec<String> = Vec::new();
    if let Some(h) = home {
        out.push(h);
    }
    if let Some(d) = documents {
        out.push(d);
    }
    if let Some(d) = downloads {
        out.push(d);
    }
    if let Some(d) = desktop {
        out.push(d);
    }
    proof {
        assert(views_of(out@) =~= goal_prefix);
    }
    let mut i: usize = 0;
    while i < shared.len()
        invariant
            0 <= i <= shared@.len(),
            views_of(out@) == goal_prefix + somes_of(opt_views(shared@).take(i as int)),
        decreases shared@.len() - i,
    {
        let ghost pre = views_of(out@);
        match &shared[i] {
            Some(s) => {
                out.push(s.clone());
                proof {
                    assert(views_of(out@) =~= pre + seq![shared@[i as int]->Some_0@]);
                }
            },
            None => {},
        }
        proof {
            let m = opt_views(shared@);
            assert(m.take(i + 1 as int).drop_last() =~= m.take(i as int));
            assert(m.take(i + 1 as int).last() == opt_view(shared@[i as int]));
            assert(somes_of(m.take(i + 1 as int)) == somes_of(m.take(i as int)) + opt_seq(
                opt_view(shared@[i as int]),
            ));
            assert(views_of(out@) =~= pre + opt_seq(opt_view(shared@[i as int])));
        }
        i = i + 1;
    }
    proof {
        assert(opt_views(shared@).take(shared@.len() as int) =~= opt_views(shared@));
    }
    out
}

/// Relies on `dirs::home_dir` and `std::path::Path::canonicalize`: the
/// platform home directory in canonical form, `None` where it cannot be
/// resolved and canonicalized; the result depends on the environment and
/// the disk, so nothing is promised of it.
#[verifier::external_body]
fn platform_home_dir() -> Option<String> {
    dirs::home_dir().and_then(|p| p.canonicalize().ok()).map(|p| p.to_string_lossy().into_owned())
}

/// Relies on `dirs::document_dir` and `std::path::Path::canonicalize`: the
/// platform documents directory in canonical form, `None` where it cannot
/// be resolved and canonicalized; the result depends on the environment and
/// the disk, so nothing is promised of it.
#[verifier::external_body]
fn platform_document_dir() -> Option<String> {
    dirs::document_dir().and_then(|p| p.canonicalize().ok()).map(
        |p| p.to_string_lossy().into_owned(),
    )
}

/// Relies on `dirs::download_dir` and `std::path::Path::canonicalize`: the
/// platform downloads directory in canonical form, `None` where it cannot
/// be resolved and canonicalized; the result depends on the environment and
/// the disk, so nothing is promised of it.
#[verifier::external_body]
fn platform_download_dir() -> Option<String> {
    dirs::download_dir().and_then(|p| p.canonicalize().ok()).map(
        |p| p.to_string_lossy().into_owned(),
    )
}

/// Relies on `dirs::desktop_dir` and `std::path::Path::canonicalize`: the
/// platform desktop directory in canonical form, `None` where it cannot be
/// resolved and canonicalized; the result depends on the environment and
/// the disk, so nothing is promised of it.
#[verifier::external_body]
fn platform_desktop_dir() -> Option<String> {
    dirs::desktop_dir().and_then(|p| p.canonicalize().ok()).map(
        |p| p.to_string_lossy().into_owned(),
    )
}

/// The fixed shared/temp directory candidates of the sandbox policy.
pub fn shared_dir_candidates() -> (r: Vec<String>)
    ensures
        views_of(r@) =~= seq!["/tmp"@, "/var/tmp"@, "/Users/Shared"@],
{
    let mut v: Vec<String> = Vec::new();
    v.push(String::from_str("/tmp"));
    v.push(String::from_str("/var/tmp"));
    v.push(String::from_str("/Users/Shared"));
    proof {
        assert(views_of(v@) =~= seq!["/tmp"@, "/var/tmp"@, "/Users/Shared"@]);
    }
    v
}

/// The allowed search roots: the platform home, documents, downloads and
/// desktop directories, each included only where the platform resolves it
/// and it canonicalizes, followed by those fixed shared directories the
/// caller resolved (`shared` holds, for each candidate of
/// `shared_dir_candidates`, its canonical path where it exists and is a
/// directory).
pub fn get_allowed_search_paths(shared: &Vec<Option<String>>) -> (r: Vec<String>)
    ensures
        exists|
            h: Option<Seq<char>>,
            d1: Option<Seq<char>>,
            d2: Option<Seq<char>>,
            d3: Option<Seq<char>>,
        |
            views_of(r@) == #[trigger] assembled_roots(h, d1, d2, d3, opt_views(shared@)),
{
    let home = platform_home_dir();
    let documents = platform_document_dir();
    let downloads = platform_download_dir();
    let desktop = platform_desktop_dir();
    let ghost hv = opt_view(home);
    let ghost d1v = opt_view(documents);
    let ghost d2v = opt_view(downloads);
    let ghost d3v = opt_view(desktop);
    let r = assemble_allowed_roots(home, documents, downloads, desktop, shared);
    proof {
        assert(views_of(r@) == assembled_roots(hv, d1v, d2v, d3v, opt_views(shared@)));
    }
    r
}

} // verus!
