//! The relevance scorer: an exact rational score per entry, and a verified
//! descending sort of search results.
use vstd::multiset::Multiset;
use vstd::prelude::*;

use crate::text::{
    contains_seq, contains_substring, lower_of, lowercase, starts_with_seq, starts_with_str,
    str_eq,
};
use crate::types::{FileEntryView, FileSearchResult};

verus! {

/// The match tier of a (lowercased) name against a (lowercased) query:
/// exact match 100, prefix match 80, substring match 60, otherwise 0.
pub open spec fn score_base(name: Seq<char>, query: Seq<char>) -> int {
    if name == query {
        100
    } else if starts_with_seq(name, query) {
        80
    } else if contains_seq(name, query) {
        60
    } else {
        0
    }
}

/// The length the bonus divides by: the number of characters of the name.
pub open spec fn name_len(name: Seq<char>) -> int {
    name.len() as int
}

/// Numerator of the exact score `base + 20/len` (the base alone when the
/// name is empty, so the bonus of an empty name is 0).
pub open spec fn score_num(name: Seq<char>, query: Seq<char>) -> int {
    if name_len(name) == 0 {
        score_base(name, query)
    } else {
        score_base(name, query) * name_len(name) + 20
    }
}

/// Denominator of the exact score.
pub open spec fn score_den(name: Seq<char>) -> int {
    if name_len(name) == 0 {
        1
    } else {
        name_len(name)
    }
}

/// Name `a` scores at least as high as name `b` for `query`: the exact
/// comparison of the rationals `base_a + 20/len_a` and `base_b + 20/len_b`.
pub open spec fn score_ge(a: Seq<char>, b: Seq<char>, query: Seq<char>) -> bool {
    score_num(a, query) * score_den(b) >= score_num(b, query) * score_den(a)
}

/// The relevance of a name for a query, as the exact rational
/// `base + 20/len`: never a rounded value.
#[derive(Debug, Clone, Copy, PartialEq, Eq, Structural)]
pub struct RelevanceScore {
    pub base: u64,
    pub len: usize,
}

/// Scores an already-lowercased filename against an already-lowercased query.
pub fn calculate_relevance_score(filename: &str, query: &str) -> (r: RelevanceScore)
    ensures
        r.base as int == score_base(filename@, query@),
        r.len as int == name_len(filename@),
{
    let base: u64 = if str_eq(filename, query) {
        100
    } else if starts_with_str(filename, query) {
        80
    } else if contains_substring(filename, query) {
        60
    } else {
        0
    };
    let len = filename.unicode_len();
    RelevanceScore { base, len }
}

/// Compares two already-lowercased names for `query`: exactly the rational
/// comparison that `score_ge` states.
pub fn score_ge_names(a: &str, b: &str, query: &str) -> (r: bool)
    ensures
        r == score_ge(a@, b@, query@),
{
    let sa = calculate_relevance_score(a, query);
    let sb = calculate_relevance_score(b, query);
    let ba = sa.base;
    let la = sa.len;
    let bb = sb.base;
    let lb = sb.len;
    let ghost q = query@;
    let ghost bai = score_base(a@, q);
    let ghost lai = name_len(a@);
    let ghost bbi = score_base(b@, q);
    let ghost lbi = name_len(b@);
    let ghost na = score_num(a@, q);
    let ghost da = score_den(a@);
    let ghost nb = score_num(b@, q);
    let ghost db = score_den(b@);
    proof {
        assert(bai == 0 || bai == 60 || bai == 80 || bai == 100);
        assert(bbi == 0 || bbi == 60 || bbi == 80 || bbi == 100);
        assert(ba as int == bai && la as int == lai && bb as int == bbi && lb as int == lbi);
    }
    if ba == bb {
        if la == 0 {
            let r = lb == 0;
            proof {
                if lbi != 0 {
                    assert(na * db == bai * lbi);
                    assert(nb * da == bbi * lbi + 20);
                }
            }
            r
        } else if lb == 0 {
            proof {
                assert(na * db == bai * lai + 20);
                assert(nb * da == bbi * lai);
            }
            true
        } else {
            let r = la <= lb;
            proof {
                assert((bai * lai + 20) * lbi >= (bbi * lbi + 20) * lai <==> lbi >= lai)
                    by (nonlinear_arith)
                    requires
                        bai == bbi,
                        bai >= 0,
                        lai >= 1,
                        lbi >= 1,
                ;
            }
            r
        }
    } else if ba > bb {
        proof {
            assert(bai >= bbi + 20);
            if lai == 0 {
                if lbi != 0 {
                    assert(bai * lbi >= bbi * lbi + 20) by (nonlinear_arith)
                        requires
                            bai >= bbi + 20,
                            lbi >= 1,
                            bbi >= 0,
                    ;
                }
            } else if lbi == 0 {
                assert(bai * lai + 20 >= bbi * lai) by (nonlinear_arith)
                    requires
                        bai >= bbi,
                        lai >= 1,
                        bbi >= 0,
                ;
            } else {
                assert((bai * lai + 20) * lbi >= (bbi * lbi + 20) * lai) by (nonlinear_arith)
                    requires
                        bai >= bbi + 20,
                        bbi >= 0,
                        lai >= 1,
                        lbi >= 1,
                ;
            }
        }
        true
    } else {
        let r = la == 1 && lb == 0 && ba + 20 == bb;
        proof {
            assert(bbi >= bai + 20);
            if lai == 1 && lbi == 0 && bai + 20 == bbi {
                assert(na == bai * 1 + 20);
                assert(na * db == nb * da);
            } else {
                if lai == 0 {
                    if lbi != 0 {
                        assert(bai * lbi < bbi * lbi + 20) by (nonlinear_arith)
                            requires
                                bbi >= bai + 20,
                                lbi >= 1,
                                bai >= 0,
                        ;
                    }
                } else if lbi == 0 {
                    if lai >= 2 {
                        assert(bai * lai + 20 < bbi * lai) by (nonlinear_arith)
                            requires
                                bbi >= bai + 20,
                                lai >= 2,
                                bai >= 0,
                        ;
                    } else {
                        assert(lai == 1);
                        assert(bbi >= bai + 40);
                        assert(bai * lai + 20 < bbi * lai) by (nonlinear_arith)
                            requires
                                bbi >= bai + 40,
                                lai == 1,
                        ;
                    }
                } else {
                    assert((bai * lai + 20) * lbi < (bbi * lbi + 20) * lai) by (nonlinear_arith)
                        requires
                            bbi >= bai + 20,
                            bai >= 0,
                            lai >= 1,
                            lbi >= 1,
                    ;
                }
            }
        }
        r
    }
}

/// Any two names are comparable.
pub proof fn lemma_score_ge_total(a: Seq<char>, b: Seq<char>, q: Seq<char>)
    ensures
        score_ge(a, b, q) || score_ge(b, a, q),
{
}

/// The score comparison is transitive.
pub proof fn lemma_score_ge_trans(a: Seq<char>, b: Seq<char>, c: Seq<char>, q: Seq<char>)
    requires
        score_ge(a, b, q),
        score_ge(b, c, q),
    ensures
        score_ge(a, c, q),
{
    let na = score_num(a, q);
    let da = score_den(a);
    let nb = score_num(b, q);
    let db = score_den(b);
    let nc = score_num(c, q);
    let dc = score_den(c);
    assert(da >= 1 && db >= 1 && dc >= 1);
    assert(na * dc >= nc * da) by (nonlinear_arith)
        requires
            na * db >= nb * da,
            nb * dc >= nc * db,
            da >= 1,
            db >= 1,
            dc >= 1,
    ;
}

/// Entry `a` ranks at least as high as entry `b`: the scores of the
/// lowercased names are compared exactly.
pub open spec fn entry_ge(a: FileEntryView, b: FileEntryView, query: Seq<char>) -> bool {
    score_ge(lower_of(a.name), lower_of(b.name), query)
}

/// The mathematical shadows of a sequence of results.
pub open spec fn entry_views(s: Seq<FileSearchResult>) -> Seq<FileEntryView> {
    s.map_values(|e: FileSearchResult| e@)
}

/// Descending relevance order.
pub open spec fn sorted_by_relevance(s: Seq<FileEntryView>, query: Seq<char>) -> bool {
    forall|i: int, j: int| 0 <= i <= j < s.len() ==> entry_ge(#[trigger] s[i], #[trigger] s[j], query)
}

fn entry_ge_exec(a: &FileSearchResult, b: &FileSearchResult, query: &str) -> (r: bool)
    ensures
        r == entry_ge(a@, b@, query@),
{
    let la = lowercase(a.name.as_str());
    let lb = lowercase(b.name.as_str());
    score_ge_names(la.as_str(), lb.as_str(), query)
}

/// Orders the collected entries by descending relevance for the
/// (lowercased) query; the entries themselves are reordered, never altered.
pub fn sort_by_relevance(results: Vec<FileSearchResult>, query: &str) -> (r: Vec<FileSearchResult>)
    ensures
        r@.len() == results@.len(),
        sorted_by_relevance(entry_views(r@), query@),
        entry_views(r@).to_multiset() == entry_views(results@).to_multiset(),
{
    broadcast use vstd::seq_lib::group_to_multiset_ensures;

    let ghost orig = results@;
    let mut remaining = results;
    let mut out: Vec<FileSearchResult> = Vec::new();
    proof {
        assert(entry_views(out@) =~= Seq::<FileEntryView>::empty());
        assert(entry_views(out@).to_multiset().add(entry_views(remaining@).to_multiset()) =~= entry_views(orig).to_multiset());
    }
    while remaining.len() > 0
        invariant
            out@.len() + remaining@.len() == orig.len(),
            entry_views(out@).to_multiset().add(entry_views(remaining@).to_multiset())
                == entry_views(orig).to_multiset(),
            sorted_by_relevance(entry_views(out@), query@),
            forall|x: int, y: int|
                0 <= x < out@.len() && 0 <= y < remaining@.len() ==> entry_ge(
                    #[trigger] out@[x]@,
                    #[trigger] remaining@[y]@,
                    query@,
                ),
        decreases remaining@.len(),
    {
        let mut best: usize = 0;
        let mut j: usize = 1;
        while j < remaining.len()
            invariant
                remaining@.len() > 0,
                0 <= best < j,
                1 <= j <= remaining@.len(),
                forall|k: int|
                    0 <= k < j ==> entry_ge(
                        remaining@[best as int]@,
                        #[trigger] remaining@[k]@,
                        query@,
                    ),
            decreases remaining@.len() - j,
        {
            if !entry_ge_exec(&remaining[best], &remaining[j], query) {
                proof {
                    lemma_score_ge_total(
                        lower_of(remaining@[best as int]@.name),
                        lower_of(remaining@[j as int]@.name),
                        query@,
                    );
                    assert forall|k: int| 0 <= k < j + 1 implies entry_ge(
                        remaining@[j as int]@,
                        #[trigger] remaining@[k]@,
                        query@,
                    ) by {
                        if k < j {
                            lemma_score_ge_trans(
                                lower_of(remaining@[j as int]@.name),
                                lower_of(remaining@[best as int]@.name),
                                lower_of(remaining@[k]@.name),
                                query@,
                            );
                        }
                    }
                }
                best = j;
            }
            j = j + 1;
        }
        let ghost pre_rem = remaining@;
        let ghost pre_out = out@;
        let picked = remaining.remove(best);
        out.push(picked);
        proof {
            let ghost pv = pre_rem[best as int]@;
            assert(entry_views(remaining@) =~= entry_views(pre_rem).remove(best as int));
            assert(entry_views(out@) =~= entry_views(pre_out).push(pv));
            assert(entry_views(pre_rem)[best as int] == pv);
            entry_views(pre_rem).to_multiset_ensures();
            entry_views(pre_out).to_multiset_ensures();
            assert(entry_views(pre_rem).remove(best as int).to_multiset() =~= entry_views(
                pre_rem,
            ).to_multiset().remove(entry_views(pre_rem)[best as int]));
            assert(entry_views(remaining@).to_multiset() == entry_views(pre_rem).remove(
                best as int,
            ).to_multiset());
            assert(entry_views(pre_out).push(pv).to_multiset() =~= entry_views(
                pre_out,
            ).to_multiset().insert(pv));
            assert(entry_views(out@).to_multiset() == entry_views(pre_out).push(pv).to_multiset());
            assert(entry_views(remaining@).to_multiset() == entry_views(pre_rem).to_multiset()
                .remove(pv));
            assert(entry_views(out@).to_multiset() == entry_views(pre_out).to_multiset().insert(
                pv,
            ));
            assert(entry_views(pre_rem).to_multiset().count(pv) > 0);
            assert(entry_views(out@).to_multiset().add(entry_views(remaining@).to_multiset())
                =~= entry_views(pre_out).to_multiset().add(entry_views(pre_rem).to_multiset()));
            // the new last entry of `out` ranks at least as high as everything left
            assert forall|y: int| 0 <= y < remaining@.len() implies entry_ge(
                pv,
                #[trigger] remaining@[y]@,
                query@,
            ) by {
                if y < best {
                    assert(remaining@[y] == pre_rem[y]);
                } else {
                    assert(remaining@[y] == pre_rem[y + 1]);
                }
            }
            // sortedness of the extended prefix
            assert forall|x: int, y: int|
                0 <= x <= y < out@.len() implies entry_ge(
                #[trigger] entry_views(out@)[x],
                #[trigger] entry_views(out@)[y],
                query@,
            ) by {
                if y < out@.len() - 1 {
                    assert(entry_ge(entry_views(pre_out)[x], entry_views(pre_out)[y], query@));
                } else if x < y {
                    assert(entry_ge(pre_out[x]@, pre_rem[best as int]@, query@));
                } else {
                    lemma_score_ge_total(lower_of(pv.name), lower_of(pv.name), query@);
                }
            }
        }
    }
    proof {
        assert(remaining@.len() == 0);
        assert(entry_views(remaining@) =~= Seq::<FileEntryView>::empty());
        assert(entry_views(remaining@).to_multiset() =~= Multiset::<FileEntryView>::empty());
        assert(entry_views(out@).to_multiset().add(Multiset::<FileEntryView>::empty())
            =~= entry_views(out@).to_multiset());
    }
    out
}

} // verus!
