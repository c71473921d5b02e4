//! The ranked window selector.
//!
//! Criteria are applied in priority order to a group structure over one
//! owned document vector.  A group is an index range of documents still tied
//! under every criterion applied so far.  Only groups whose positions
//! overlap the requested window are sorted and split into runs of
//! equivalent documents; a group wholly outside the window is carried along
//! untouched, since none of its members can land inside the window.

use core::cmp::Ordering;
use vstd::prelude::*;
use crate::collect::{assembled_from, collect_documents, collected_bag, stream_wf};
use crate::criterion::{all_eq_exact, le_lex, Criterion};
use crate::matching::Document;
use crate::stream::{Automaton, StreamEntry};

verus! {

broadcast use vstd::seq_lib::group_to_multiset_ensures;

/// A criterion whose equivalence is exactly its ordering-equality.
pub open spec fn eq_exact_one<C: Criterion>(c: C) -> bool {
    forall|a: Document, b: Document| #[trigger] c.eq_spec(a, b) <==> c.cmp_spec(a, b)
        == Ordering::Equal
}

/// `a` is not ranked after `b` under criterion `c`.
pub open spec fn cmp_le<C: Criterion>(c: C, a: Document, b: Document) -> bool {
    c.cmp_spec(a, b) != Ordering::Greater
}

/// Whether criterion `c` ranks `a` no later than `b`.
pub fn evaluate_le<C: Criterion>(c: &C, a: &Document, b: &Document) -> (r: bool)
    ensures
        r == cmp_le(*c, *a, *b),
{
    let o = c.evaluate(a, b);
    match o {
        Ordering::Greater => false,
        _ => true,
    }
}

/// The slice `[lo, hi)` of `docs` is sorted under criterion `c`.
pub open spec fn sorted_range<C: Criterion>(c: C, docs: Seq<Document>, lo: int, hi: int) -> bool {
    forall|i: int, j: int| lo <= i < j < hi ==> #[trigger] cmp_le(c, docs[i], docs[j])
}

/// Only the slice `[lo, hi)` changed, and only by reordering.
pub open spec fn permuted_range(
    docs1: Seq<Document>,
    docs2: Seq<Document>,
    lo: int,
    hi: int,
) -> bool {
    &&& docs1.len() == docs2.len()
    &&& forall|i: int| 0 <= i < docs1.len() && !(lo <= i < hi) ==> docs1[i] == docs2[i]
    &&& docs1.subrange(lo, hi).to_multiset() == docs2.subrange(lo, hi).to_multiset()
}

/// Every document of a permuted slice was already in the slice.
proof fn lemma_perm_witness(s1: Seq<Document>, s2: Seq<Document>, i: int)
    requires
        s1.to_multiset() == s2.to_multiset(),
        0 <= i < s2.len(),
    ensures
        exists|j: int| 0 <= j < s1.len() && s1[j] == s2[i],
{
    assert(s2.to_multiset().count(s2[i]) > 0) by {
        assert(s2.contains(s2[i]));
    }
    assert(s1.contains(s2[i]));
}

/// Where a document of the new sequence came from: itself outside the
/// permuted slice, some old slice position inside it.
proof fn lemma_origin(docs1: Seq<Document>, docs2: Seq<Document>, lo: int, hi: int, i: int)
    requires
        permuted_range(docs1, docs2, lo, hi),
        0 <= lo <= hi <= docs1.len(),
        0 <= i < docs2.len(),
    ensures
        lo <= i < hi ==> exists|j: int| lo <= j < hi && docs1[j] == docs2[i],
        !(lo <= i < hi) ==> docs1[i] == docs2[i],
{
    if lo <= i < hi {
        let sub1 = docs1.subrange(lo, hi);
        let sub2 = docs2.subrange(lo, hi);
        lemma_perm_witness(sub1, sub2, i - lo);
        let j = choose|j: int| 0 <= j < sub1.len() && sub1[j] == sub2[i - lo];
        assert(docs1[lo + j] == docs2[i]);
    }
}

/// Sorts `docs[lo..hi]` in place under criterion `c` (insertion sort).
pub fn sort_range<C: Criterion>(docs: &mut Vec<Document>, lo: usize, hi: usize, c: &C)
    requires
        lo <= hi <= old(docs)@.len(),
    ensures
        permuted_range(old(docs)@, final(docs)@, lo as int, hi as int),
        sorted_range(*c, final(docs)@, lo as int, hi as int),
{
    let ghost orig = docs@;
    proof {
        assert(orig.subrange(lo as int, hi as int).to_multiset() =~= orig.subrange(
            lo as int,
            hi as int,
        ).to_multiset());
    }
    if hi - lo <= 1 {
        return ;
    }
    let mut i: usize = lo + 1;
    while i < hi
        invariant
            lo < i <= hi <= docs@.len(),
            permuted_range(orig, docs@, lo as int, hi as int),
            sorted_range(*c, docs@, lo as int, i as int),
        decreases hi - i,
    {
        let ghost before = docs@;
        let x = docs.remove(i);
        proof {
            assert(x == before[i as int]);
            assert(forall|k: int| 0 <= k < i ==> docs@[k] == before[k]);
        }
        let mut p: usize = lo;
        while p < i && evaluate_le(c, &docs[p], &x)
            invariant
                lo <= p <= i < before.len(),
                docs@ == before.remove(i as int),
                x == before[i as int],
                forall|k: int| 0 <= k < i ==> docs@[k] == before[k],
                forall|k: int| lo <= k < p ==> #[trigger] cmp_le(*c, before[k], x),
            decreases i - p,
        {
            p += 1;
        }
        docs.insert(p, x);
        proof {
            let after = docs@;
            assert(after == before.remove(i as int).insert(p as int, x));
            let pi = p as int;
            let ii = i as int;
            let loi = lo as int;
            let hii = hi as int;
            // The step is itself a permutation of [lo, hi).
            assert(forall|k: int| 0 <= k < loi ==> after[k] == before[k]);
            assert(forall|k: int| hii <= k < after.len() ==> after[k] == before[k]);
            assert(after.subrange(loi, hii).to_multiset() =~= before.subrange(
                loi,
                hii,
            ).to_multiset()) by {
                assert(after.to_multiset() =~= before.to_multiset()) by {
                    assert(before.remove(ii).to_multiset() =~= before.to_multiset().remove(
                        before[ii],
                    ));
                    assert(before.remove(ii).insert(pi, x).to_multiset() =~= before.remove(
                        ii,
                    ).to_multiset().insert(x));
                }
                lemma_multiset_of_equal_outside(before, after, loi, hii);
            }
            // Sortedness of the prefix grew by one.
            assert forall|a: int, b: int| loi <= a < b < ii + 1 implies #[trigger] cmp_le(
                *c,
                after[a],
                after[b],
            ) by {
                assert(forall|k: int| loi <= k < pi ==> after[k] == before[k]);
                assert(forall|k: int| pi < k <= ii ==> after[k] == before[k - 1]);
                assert(after[pi] == x);
                assert forall|u: int, w: int| loi <= u < w < ii implies #[trigger] cmp_le(
                    *c,
                    before[u],
                    before[w],
                ) by {}
                if b < pi {
                    assert(cmp_le(*c, before[a], before[b]));
                } else if a < pi && b == pi {
                    assert(cmp_le(*c, before[a], x));
                } else if a < pi && b > pi {
                    assert(cmp_le(*c, before[a], before[b - 1]));
                } else if a == pi && b > pi {
                    assert(p < i);
                    assert(!cmp_le(*c, before[pi], x));
                    c.lemma_laws(before[pi], x, before[b - 1]);
                    c.lemma_laws(x, before[pi], before[b - 1]);
                    assert(c.cmp_spec(before[pi], x) == Ordering::Greater);
                    assert(c.cmp_spec(x, before[pi]) == Ordering::Less);
                    assert(cmp_le(*c, before[pi], before[b - 1]));
                    assert(cmp_le(*c, x, before[b - 1]));
                } else {
                    assert(cmp_le(*c, before[a - 1], before[b - 1]));
                }
            }
        }
        i += 1;
    }
}

/// Two sequences equal outside `[lo, hi)` with equal whole multisets have
/// equal slice multisets.
proof fn lemma_multiset_of_equal_outside(s1: Seq<Document>, s2: Seq<Document>, lo: int, hi: int)
    requires
        s1.len() == s2.len(),
        0 <= lo <= hi <= s1.len(),
        forall|k: int| 0 <= k < lo ==> s1[k] == s2[k],
        forall|k: int| hi <= k < s1.len() ==> s1[k] == s2[k],
        s1.to_multiset() == s2.to_multiset(),
    ensures
        s1.subrange(lo, hi).to_multiset() == s2.subrange(lo, hi).to_multiset(),
{
    let pre1 = s1.subrange(0, lo);
    let mid1 = s1.subrange(lo, hi);
    let post1 = s1.subrange(hi, s1.len() as int);
    let pre2 = s2.subrange(0, lo);
    let mid2 = s2.subrange(lo, hi);
    let post2 = s2.subrange(hi, s2.len() as int);
    assert(pre1 =~= pre2);
    assert(post1 =~= post2);
    assert(s1 =~= pre1 + mid1 + post1);
    assert(s2 =~= pre2 + mid2 + post2);
    vstd::seq_lib::lemma_multiset_commutative(pre1 + mid1, post1);
    vstd::seq_lib::lemma_multiset_commutative(pre2 + mid2, post2);
    vstd::seq_lib::lemma_multiset_commutative(pre1, mid1);
    vstd::seq_lib::lemma_multiset_commutative(pre2, mid2);
    assert(pre1.to_multiset().add(mid1.to_multiset()).add(post1.to_multiset())
        == pre2.to_multiset().add(mid2.to_multiset()).add(post2.to_multiset()));
    assert forall|x: Document| true implies mid1.to_multiset().count(x) == mid2.to_multiset().count(
        x,
    ) by {
        assert(pre1.to_multiset().add(mid1.to_multiset()).add(post1.to_multiset()).count(x)
            == pre1.to_multiset().count(x) + mid1.to_multiset().count(x) + post1.to_multiset().count(
            x,
        ));
        assert(pre2.to_multiset().add(mid2.to_multiset()).add(post2.to_multiset()).count(x)
            == pre2.to_multiset().count(x) + mid2.to_multiset().count(x) + post2.to_multiset().count(
            x,
        ));
    }
    assert(mid1.to_multiset() =~= mid2.to_multiset());
}

/// All documents of `[a, b)` are mutually equivalent under criterion `c`.
pub open spec fn run_eq<C: Criterion>(c: C, docs: Seq<Document>, a: int, b: int) -> bool {
    forall|x: int, y: int| a <= x < b && a <= y < b ==> #[trigger] c.eq_spec(docs[x], docs[y])
}

/// Everything left of `m` inside `[lo, hi)` is strictly before everything
/// at or right of `m`, under criterion `c`.
pub open spec fn strict_sep_at<C: Criterion>(
    c: C,
    docs: Seq<Document>,
    lo: int,
    m: int,
    hi: int,
) -> bool {
    forall|x: int, y: int| lo <= x < m <= y < hi ==> #[trigger] c.cmp_spec(docs[x], docs[y])
        == Ordering::Less
}

/// The runs partition `[lo, hi)` into non-empty consecutive ranges.
pub open spec fn runs_partition(runs: Seq<(usize, usize)>, lo: int, hi: int) -> bool {
    &&& (runs.len() == 0 <==> lo == hi)
    &&& (runs.len() > 0 ==> runs[0].0 == lo && runs[runs.len() - 1].1 == hi)
    &&& forall|k: int|
        0 <= k < runs.len() ==> lo <= (#[trigger] runs[k]).0 < runs[k].1 <= hi
    &&& forall|k: int| 0 <= k < runs.len() - 1 ==> (#[trigger] runs[k]).1 == runs[k + 1].0
}

/// A non-equivalent adjacent pair in a sorted slice separates it strictly.
proof fn lemma_boundary_sep<C: Criterion>(c: C, docs: Seq<Document>, lo: int, m: int, hi: int)
    requires
        eq_exact_one(c),
        sorted_range(c, docs, lo, hi),
        0 <= lo < m < hi <= docs.len(),
        !c.eq_spec(docs[m - 1], docs[m]),
    ensures
        strict_sep_at(c, docs, lo, m, hi),
{
    assert(cmp_le(c, docs[m - 1], docs[m]));
    assert(c.cmp_spec(docs[m - 1], docs[m]) == Ordering::Less);
    assert forall|x: int, y: int| lo <= x < m <= y < hi implies #[trigger] c.cmp_spec(
        docs[x],
        docs[y],
    ) == Ordering::Less by {
        if x < m - 1 {
            assert(cmp_le(c, docs[x], docs[m - 1]));
        }
        c.lemma_laws(docs[x], docs[m - 1], docs[m]);
        if y > m {
            assert(cmp_le(c, docs[m], docs[y]));
        }
        c.lemma_laws(docs[x], docs[m], docs[y]);
    }
}

/// A run grows by one equivalent neighbour.
proof fn lemma_run_extend<C: Criterion>(c: C, docs: Seq<Document>, rs: int, ii: int)
    requires
        0 <= rs < ii < docs.len(),
        run_eq(c, docs, rs, ii),
        c.eq_spec(docs[ii - 1], docs[ii]),
    ensures
        run_eq(c, docs, rs, ii + 1),
{
    assert forall|x: int, y: int| rs <= x < ii + 1 && rs <= y < ii + 1 implies #[trigger] c.eq_spec(
        docs[x],
        docs[y],
    ) by {
        c.lemma_laws(docs[x], docs[ii - 1], docs[ii]);
        c.lemma_laws(docs[y], docs[ii - 1], docs[ii]);
        c.lemma_laws(docs[y], docs[ii], docs[ii]);
    }
}

/// A single document is a run.
proof fn lemma_run_singleton<C: Criterion>(c: C, docs: Seq<Document>, i: int)
    requires
        0 <= i < docs.len(),
    ensures
        run_eq(c, docs, i, i + 1),
{
    c.lemma_laws(docs[i], docs[i], docs[i]);
}

/// Every interior run boundary of a sorted slice separates it strictly.
proof fn lemma_all_boundaries_sep<C: Criterion>(
    c: C,
    docs: Seq<Document>,
    lo: int,
    hi: int,
    runs: Seq<(usize, usize)>,
)
    requires
        eq_exact_one(c),
        sorted_range(c, docs, lo, hi),
        0 <= lo <= hi <= docs.len(),
        runs_partition(runs, lo, hi),
        forall|k: int|
            1 <= k < runs.len() ==> !c.eq_spec(
                docs[(#[trigger] runs[k]).0 as int - 1],
                docs[runs[k].0 as int],
            ),
    ensures
        forall|k: int|
            1 <= k < runs.len() ==> strict_sep_at(c, docs, lo, (#[trigger] runs[k]).0 as int, hi),
{
    assert forall|k: int| 1 <= k < runs.len() implies strict_sep_at(
        c,
        docs,
        lo,
        (#[trigger] runs[k]).0 as int,
        hi,
    ) by {
        assert(runs[k - 1].1 == runs[k].0);
        assert(lo <= runs[k - 1].0 < runs[k - 1].1);
        lemma_boundary_sep(c, docs, lo, runs[k].0 as int, hi);
    }
}

/// Partitions the sorted slice `[lo, hi)` into maximal runs of adjacent
/// documents equivalent under `c`.
#[verifier::rlimit(100)]
#[verifier::spinoff_prover]
pub fn split_runs<C: Criterion>(docs: &Vec<Document>, lo: usize, hi: usize, c: &C) -> (runs: Vec<
    (usize, usize),
>)
    requires
        lo <= hi <= docs@.len(),
        sorted_range(*c, docs@, lo as int, hi as int),
    ensures
        runs_partition(runs@, lo as int, hi as int),
        forall|k: int|
            0 <= k < runs@.len() ==> run_eq(*c, docs@, (#[trigger] runs@[k]).0 as int, runs@[k].1 as int),
        eq_exact_one(*c) ==> forall|k: int|
            1 <= k < runs@.len() ==> strict_sep_at(
                *c,
                docs@,
                lo as int,
                (#[trigger] runs@[k]).0 as int,
                hi as int,
            ),
{
    let mut runs: Vec<(usize, usize)> = Vec::new();
    if lo == hi {
        return runs;
    }
    let mut run_start: usize = lo;
    let mut i: usize = lo + 1;
    proof {
        lemma_run_singleton(*c, docs@, lo as int);
    }
    while i < hi
        invariant
            lo <= run_start < i <= hi <= docs@.len(),
            sorted_range(*c, docs@, lo as int, hi as int),
            runs_partition(runs@, lo as int, run_start as int),
            run_eq(*c, docs@, run_start as int, i as int),
            forall|k: int|
                0 <= k < runs@.len() ==> run_eq(
                    *c,
                    docs@,
                    (#[trigger] runs@[k]).0 as int,
                    runs@[k].1 as int,
                ),
            forall|k: int|
                1 <= k < runs@.len() ==> !c.eq_spec(
                    docs@[(#[trigger] runs@[k]).0 as int - 1],
                    docs@[runs@[k].0 as int],
                ),
            runs@.len() > 0 ==> !c.eq_spec(
                docs@[run_start as int - 1],
                docs@[run_start as int],
            ),
        decreases hi - i,
    {
        let same = c.eq(&docs[i - 1], &docs[i]);
        if same {
            proof {
                lemma_run_extend(*c, docs@, run_start as int, i as int);
            }
        } else {
            let ghost old_runs = runs@;
            runs.push((run_start, i));
            proof {
                assert(forall|k: int|
                    0 <= k < old_runs.len() ==> runs@[k] == #[trigger] old_runs[k]);
                assert(runs@[runs@.len() - 1] == (run_start, i));
                lemma_run_singleton(*c, docs@, i as int);
            }
            run_start = i;
        }
        i += 1;
    }
    let ghost old_runs = runs@;
    runs.push((run_start, hi));
    proof {
        assert(forall|k: int| 0 <= k < old_runs.len() ==> runs@[k] == #[trigger] old_runs[k]);
        assert(runs@[runs@.len() - 1] == (run_start, hi));
        assert forall|k: int| 1 <= k < runs@.len() implies !c.eq_spec(
            docs@[(#[trigger] runs@[k]).0 as int - 1],
            docs@[runs@[k].0 as int],
        ) by {
            if k < old_runs.len() {
                assert(runs@[k] == old_runs[k]);
            } else {
                assert(runs@[k] == (run_start, hi));
            }
        }
        if eq_exact_one(*c) {
            lemma_all_boundaries_sep(*c, docs@, lo as int, hi as int, runs@);
        }
    }
    runs
}

/// The groups partition `[0, n)` into consecutive ranges.
pub open spec fn partition_groups(groups: Seq<(usize, usize)>, n: int) -> bool {
    &&& (groups.len() == 0 ==> n == 0)
    &&& (groups.len() > 0 ==> groups[0].0 == 0 && groups[groups.len() - 1].1 == n)
    &&& forall|g: int| 0 <= g < groups.len() ==> (#[trigger] groups[g]).0 <= groups[g].1 <= n
    &&& forall|g: int| 0 <= g < groups.len() - 1 ==> (#[trigger] groups[g]).1 == groups[g + 1].0
}

/// Everything before position `m` is ranked no later, under the whole
/// criteria list, than everything at or after `m`.
pub open spec fn sep_full_at<C: Criterion>(cs: Seq<C>, docs: Seq<Document>, m: int) -> bool {
    forall|x: int, y: int| 0 <= x < m <= y < docs.len() ==> #[trigger] le_lex(cs, docs[x], docs[y])
}

/// Every group start is a separation point of the document order.
pub open spec fn all_bounds_sep<C: Criterion>(
    cs: Seq<C>,
    docs: Seq<Document>,
    groups: Seq<(usize, usize)>,
) -> bool {
    forall|g: int| 0 <= g < groups.len() ==> sep_full_at(cs, docs, (#[trigger] groups[g]).0 as int)
}

/// The first `k` criteria order every pair of `[a, b)` equal.
pub open spec fn mutual_eq_prefix<C: Criterion>(
    cs: Seq<C>,
    k: int,
    docs: Seq<Document>,
    a: int,
    b: int,
) -> bool {
    forall|x: int, y: int, l: int|
        a <= x < b && a <= y < b && 0 <= l < k ==> #[trigger] cs[l].cmp_spec(docs[x], docs[y])
            == Ordering::Equal
}

/// Whether a group of positions `[a, b)` could place a document inside the
/// requested window `[s, e)`.
pub open spec fn group_overlaps(a: int, b: int, s: int, e: int) -> bool {
    s < e && a < e && s < b
}

/// Every group that could reach the window is, after `k` criteria, a class
/// of documents those criteria order equal.
pub open spec fn groups_window_eq<C: Criterion>(
    cs: Seq<C>,
    k: int,
    docs: Seq<Document>,
    groups: Seq<(usize, usize)>,
    s: int,
    e: int,
) -> bool {
    forall|g: int|
        0 <= g < groups.len() && group_overlaps(
            (#[trigger] groups[g]).0 as int,
            groups[g].1 as int,
            s,
            e,
        ) ==> mutual_eq_prefix(cs, k, docs, groups[g].0 as int, groups[g].1 as int)
}

/// The result of ranking: every document of the window is ranked no earlier
/// than everything before it and no later than everything after it, and the
/// window itself is ordered.
pub open spec fn window_ranked<C: Criterion>(cs: Seq<C>, t: Seq<Document>, s: int, e: int) -> bool {
    forall|i: int, j: int|
        0 <= i < j < t.len() && (s <= i < e || s <= j < e) ==> #[trigger] le_lex(cs, t[i], t[j])
}

/// Earlier groups end before later groups start.
proof fn lemma_partition_ordered(groups: Seq<(usize, usize)>, n: int, g1: int, g2: int)
    requires
        partition_groups(groups, n),
        0 <= g1 < g2 < groups.len(),
    ensures
        groups[g1].1 <= groups[g2].0,
    decreases g2 - g1,
{
    if g1 + 1 < g2 {
        lemma_partition_ordered(groups, n, g1, g2 - 1);
    }
}

/// Every position belongs to some group.
proof fn lemma_partition_find(groups: Seq<(usize, usize)>, n: int, pos: int)
    requires
        partition_groups(groups, n),
        0 <= pos < n,
    ensures
        exists|g: int|
            0 <= g < groups.len() && (#[trigger] groups[g]).0 <= pos < groups[g].1,
    decreases groups.len(),
{
    let m = groups.len() - 1;
    if pos >= groups[m].0 {
        assert(groups[m].0 <= pos < groups[m].1);
    } else {
        let gs = groups.drop_last();
        let nn = groups[m].0 as int;
        assert forall|g: int| 0 <= g < gs.len() implies (#[trigger] gs[g]).0 <= gs[g].1 <= nn by {
            assert(gs[g] == groups[g]);
            if g < m - 1 {
                lemma_partition_ordered(groups, n, g, m);
            }
        }
        assert(partition_groups(gs, nn));
        lemma_partition_find(gs, nn, pos);
        let g = choose|g: int| 0 <= g < gs.len() && (#[trigger] gs[g]).0 <= pos < gs[g].1;
        assert(groups[g].0 <= pos < groups[g].1);
    }
}

/// A separation point outside a reordered slice keeps separating.
proof fn lemma_sep_preserved<C: Criterion>(
    cs: Seq<C>,
    d1: Seq<Document>,
    d2: Seq<Document>,
    lo: int,
    hi: int,
    m: int,
)
    requires
        permuted_range(d1, d2, lo, hi),
        0 <= lo <= hi <= d1.len(),
        m <= lo || m >= hi,
        0 <= m <= d1.len(),
        sep_full_at(cs, d1, m),
    ensures
        sep_full_at(cs, d2, m),
{
    assert forall|x: int, y: int| 0 <= x < m <= y < d2.len() implies #[trigger] le_lex(
        cs,
        d2[x],
        d2[y],
    ) by {
        lemma_origin(d1, d2, lo, hi, x);
        lemma_origin(d1, d2, lo, hi, y);
        if lo <= x < hi {
            let j = choose|j: int| lo <= j < hi && d1[j] == d2[x];
            assert(j < m);
            if lo <= y < hi {
                let j2 = choose|j2: int| lo <= j2 < hi && d1[j2] == d2[y];
                assert(le_lex(cs, d1[j], d1[j2]));
            } else {
                assert(le_lex(cs, d1[j], d1[y]));
            }
        } else {
            if lo <= y < hi {
                let j2 = choose|j2: int| lo <= j2 < hi && d1[j2] == d2[y];
                assert(j2 >= m);
                assert(le_lex(cs, d1[x], d1[j2]));
            } else {
                assert(le_lex(cs, d1[x], d1[y]));
            }
        }
    }
}

/// Mutual equality of a reordered slice is kept.
proof fn lemma_mutual_eq_preserved<C: Criterion>(
    cs: Seq<C>,
    k: int,
    d1: Seq<Document>,
    d2: Seq<Document>,
    a: int,
    b: int,
)
    requires
        permuted_range(d1, d2, a, b),
        0 <= a <= b <= d1.len(),
        mutual_eq_prefix(cs, k, d1, a, b),
    ensures
        mutual_eq_prefix(cs, k, d2, a, b),
{
    assert forall|x: int, y: int, l: int|
        a <= x < b && a <= y < b && 0 <= l < k implies #[trigger] cs[l].cmp_spec(d2[x], d2[y])
        == Ordering::Equal by {
        lemma_origin(d1, d2, a, b, x);
        lemma_origin(d1, d2, a, b, y);
        let j = choose|j: int| a <= j < b && d1[j] == d2[x];
        let j2 = choose|j2: int| a <= j2 < b && d1[j2] == d2[y];
        assert(cs[l].cmp_spec(d1[j], d1[j2]) == Ordering::Equal);
    }
}

/// The whole list defines its equality exactly when each criterion does.
proof fn lemma_eq_exact_at<C: Criterion>(cs: Seq<C>, k: int)
    requires
        all_eq_exact(cs),
        0 <= k < cs.len(),
    ensures
        eq_exact_one(cs[k]),
{
    assert forall|a: Document, b: Document| #[trigger] cs[k].eq_spec(a, b) <==> cs[k].cmp_spec(a, b)
        == Ordering::Equal by {
        assert(cs[k].eq_spec(a, b) <==> cs[k].cmp_spec(a, b) == Ordering::Equal);
    }
}

/// A strict boundary inside a group whose pairs tie on the first `k`
/// criteria separates the whole order.
proof fn lemma_new_boundary_sep<C: Criterion>(
    cs: Seq<C>,
    k: int,
    docs: Seq<Document>,
    a: int,
    m: int,
    b: int,
)
    requires
        0 <= k < cs.len(),
        0 <= a <= m <= b <= docs.len(),
        sep_full_at(cs, docs, a),
        sep_full_at(cs, docs, b),
        mutual_eq_prefix(cs, k, docs, a, b),
        strict_sep_at(cs[k], docs, a, m, b),
    ensures
        sep_full_at(cs, docs, m),
{
    assert forall|x: int, y: int| 0 <= x < m <= y < docs.len() implies #[trigger] le_lex(
        cs,
        docs[x],
        docs[y],
    ) by {
        if x < a {
            assert(le_lex(cs, docs[x], docs[y]));
        } else if y >= b {
            assert(le_lex(cs, docs[x], docs[y]));
        } else {
            assert(cs[k].cmp_spec(docs[x], docs[y]) == Ordering::Less);
            assert(crate::criterion::eq_prefix(cs, k, docs[x], docs[y]));
            crate::criterion::lemma_le_lex_from_split(cs, k, docs[x], docs[y]);
        }
    }
}

/// A run of documents a criterion holds equivalent extends their mutual
/// equality one criterion deeper.
proof fn lemma_run_deepens<C: Criterion>(
    cs: Seq<C>,
    k: int,
    docs: Seq<Document>,
    a: int,
    b: int,
    ra: int,
    rb: int,
)
    requires
        0 <= k < cs.len(),
        0 <= a <= ra <= rb <= b <= docs.len(),
        mutual_eq_prefix(cs, k, docs, a, b),
        run_eq(cs[k], docs, ra, rb),
    ensures
        mutual_eq_prefix(cs, k + 1, docs, ra, rb),
{
    assert forall|x: int, y: int, l: int|
        ra <= x < rb && ra <= y < rb && 0 <= l < k + 1 implies #[trigger] cs[l].cmp_spec(
        docs[x],
        docs[y],
    ) == Ordering::Equal by {
        if l == k {
            assert(cs[k].eq_spec(docs[x], docs[y]));
            cs[k].lemma_laws(docs[x], docs[y], docs[y]);
        }
    }
}

/// With every group boundary separating and every window group tied under
/// all criteria, the order is ranked on the window.
proof fn lemma_final_window<C: Criterion>(
    cs: Seq<C>,
    docs: Seq<Document>,
    groups: Seq<(usize, usize)>,
    s: int,
    e: int,
)
    requires
        partition_groups(groups, docs.len() as int),
        all_bounds_sep(cs, docs, groups),
        groups_window_eq(cs, cs.len() as int, docs, groups, s, e),
    ensures
        window_ranked(cs, docs, s, e),
{
    let n = docs.len() as int;
    assert forall|i: int, j: int|
        0 <= i < j < n && (s <= i < e || s <= j < e) implies #[trigger] le_lex(
        cs,
        docs[i],
        docs[j],
    ) by {
        lemma_partition_find(groups, n, i);
        lemma_partition_find(groups, n, j);
        let gi = choose|g: int| 0 <= g < groups.len() && (#[trigger] groups[g]).0 <= i < groups[g].1;
        let gj = choose|g: int| 0 <= g < groups.len() && (#[trigger] groups[g]).0 <= j < groups[g].1;
        if gi == gj {
            let a = groups[gi].0 as int;
            let b = groups[gi].1 as int;
            assert(group_overlaps(a, b, s, e));
            assert(mutual_eq_prefix(cs, cs.len() as int, docs, a, b));
            assert(crate::criterion::eq_prefix(cs, cs.len() as int, docs[i], docs[j]));
            crate::criterion::lemma_le_lex_all_eq(cs, docs[i], docs[j]);
        } else {
            if gj < gi {
                lemma_partition_ordered(groups, n, gj, gi);
                assert(false);
            }
            lemma_partition_ordered(groups, n, gi, gj);
            let m = groups[gj].0 as int;
            assert(i < m <= j);
            assert(sep_full_at(cs, docs, m));
        }
    }
}

/// A permutation of a slice is a permutation of the whole.
proof fn lemma_perm_whole(d1: Seq<Document>, d2: Seq<Document>, lo: int, hi: int)
    requires
        permuted_range(d1, d2, lo, hi),
        0 <= lo <= hi <= d1.len(),
    ensures
        d1.to_multiset() == d2.to_multiset(),
{
    let pre1 = d1.subrange(0, lo);
    let mid1 = d1.subrange(lo, hi);
    let post1 = d1.subrange(hi, d1.len() as int);
    let pre2 = d2.subrange(0, lo);
    let mid2 = d2.subrange(lo, hi);
    let post2 = d2.subrange(hi, d2.len() as int);
    assert(pre1 =~= pre2);
    assert(post1 =~= post2);
    assert(d1 =~= pre1 + mid1 + post1);
    assert(d2 =~= pre2 + mid2 + post2);
    vstd::seq_lib::lemma_multiset_commutative(pre1 + mid1, post1);
    vstd::seq_lib::lemma_multiset_commutative(pre2 + mid2, post2);
    vstd::seq_lib::lemma_multiset_commutative(pre1, mid1);
    vstd::seq_lib::lemma_multiset_commutative(pre2, mid2);
    assert(d1.to_multiset() =~= d2.to_multiset());
}

/// Mutual equality of an untouched slice is kept.
proof fn lemma_mutual_eq_untouched<C: Criterion>(
    cs: Seq<C>,
    k: int,
    d1: Seq<Document>,
    d2: Seq<Document>,
    a2: int,
    b2: int,
)
    requires
        d1.len() == d2.len(),
        0 <= a2 <= b2 <= d1.len(),
        forall|i: int| a2 <= i < b2 ==> d1[i] == d2[i],
        mutual_eq_prefix(cs, k, d1, a2, b2),
    ensures
        mutual_eq_prefix(cs, k, d2, a2, b2),
{
    assert forall|x: int, y: int, l: int|
        a2 <= x < b2 && a2 <= y < b2 && 0 <= l < k implies #[trigger] cs[l].cmp_spec(d2[x], d2[y])
        == Ordering::Equal by {
        assert(cs[l].cmp_spec(d1[x], d1[y]) == Ordering::Equal);
    }
}

/// How much of the document vector the first `gi` groups cover.
pub open spec fn covered_up_to(groups: Seq<(usize, usize)>, gi: int) -> int {
    if gi == 0 {
        0
    } else {
        groups[gi - 1].1 as int
    }
}

/// Applies the criteria in priority order to the document vector, refining
/// only groups that could reach the window `[start, end)`; afterwards the
/// vector is ranked on that window.  Returns how many groups were sorted:
/// none when the window is empty or starts past the end.
#[verifier::rlimit(100)]
#[verifier::spinoff_prover]
pub fn rank_in_place<C: Criterion>(
    docs: &mut Vec<Document>,
    criteria: &Vec<C>,
    start: usize,
    end: usize,
) -> (sorts: u64)
    ensures
        final(docs)@.len() == old(docs)@.len(),
        final(docs)@.to_multiset() == old(docs)@.to_multiset(),
        all_eq_exact(criteria@) ==> window_ranked(
            criteria@,
            final(docs)@,
            start as int,
            end as int,
        ),
        start >= end ==> sorts == 0,
        start >= old(docs)@.len() ==> sorts == 0,
        criteria@.len() == 0 ==> sorts == 0,
{
    let ghost cs = criteria@;
    let ghost orig = docs@;
    let n = docs.len();
    let mut sorts: u64 = 0;
    let mut groups: Vec<(usize, usize)> = Vec::new();
    groups.push((0, n));
    let mut k: usize = 0;
    while k < criteria.len()
        invariant
            criteria@ == cs,
            orig.len() == n,
            docs@.len() == n,
            docs@.to_multiset() == orig.to_multiset(),
            0 <= k <= cs.len(),
            partition_groups(groups@, n as int),
            all_eq_exact(cs) ==> all_bounds_sep(cs, docs@, groups@),
            groups_window_eq(cs, k as int, docs@, groups@, start as int, end as int),
            (start >= end || start >= n || cs.len() == 0) ==> sorts == 0,
        decreases cs.len() - k,
    {
        let ghost ck = cs[k as int];
        let mut ng: Vec<(usize, usize)> = Vec::new();
        proof {
            assert(groups@.skip(0) =~= groups@);
        }
        let mut gi: usize = 0;
        while gi < groups.len()
            invariant
                criteria@ == cs,
                0 <= k < cs.len(),
                ck == cs[k as int],
                0 <= gi <= groups@.len(),
                orig.len() == n,
                docs@.len() == n,
                docs@.to_multiset() == orig.to_multiset(),
                partition_groups(groups@, n as int),
                partition_groups(ng@, covered_up_to(groups@, gi as int)),
                covered_up_to(groups@, gi as int) <= n,
                all_eq_exact(cs) ==> all_bounds_sep(cs, docs@, ng@),
                all_eq_exact(cs) ==> all_bounds_sep(cs, docs@, groups@.skip(gi as int)),
                groups_window_eq(cs, k as int + 1, docs@, ng@, start as int, end as int),
                groups_window_eq(cs, k as int, docs@, groups@.skip(gi as int), start as int, end as int),
                (start >= end || start >= n || cs.len() == 0) ==> sorts == 0,
            decreases groups@.len() - gi,
        {
            let (a, b) = groups[gi];
            let ghost gii = gi as int;
            proof {
                assert(groups@.skip(gii)[0] == groups@[gii]);
                assert(covered_up_to(groups@, gii + 1) == b as int);
                if gi > 0 {
                    assert(groups@[gii - 1].1 == groups@[gii].0);
                }
            }
            if start < end && a < end && start < b {
                if sorts < u64::MAX {
                    sorts = sorts + 1;
                }
                let ghost pre = docs@;
                sort_range(docs, a, b, &criteria[k]);
                proof {
                    let ai = a as int;
                    let bi = b as int;
                    lemma_perm_whole(pre, docs@, ai, bi);
                    if all_eq_exact(cs) {
                        assert forall|g: int| 0 <= g < ng@.len() implies sep_full_at(
                            cs,
                            docs@,
                            (#[trigger] ng@[g]).0 as int,
                        ) by {
                            lemma_sep_preserved(cs, pre, docs@, ai, bi, ng@[g].0 as int);
                        }
                        assert forall|g: int| 0 <= g < groups@.skip(gii).len() implies sep_full_at(
                            cs,
                            docs@,
                            (#[trigger] groups@.skip(gii)[g]).0 as int,
                        ) by {
                            assert(groups@.skip(gii)[g] == groups@[gii + g]);
                            if g > 0 {
                                lemma_partition_ordered(groups@, n as int, gii, gii + g);
                            }
                            lemma_sep_preserved(
                                cs,
                                pre,
                                docs@,
                                ai,
                                bi,
                                groups@[gii + g].0 as int,
                            );
                        }
                    }
                    assert forall|g: int|
                        0 <= g < ng@.len() && group_overlaps(
                            (#[trigger] ng@[g]).0 as int,
                            ng@[g].1 as int,
                            start as int,
                            end as int,
                        ) implies mutual_eq_prefix(
                        cs,
                        k as int + 1,
                        docs@,
                        ng@[g].0 as int,
                        ng@[g].1 as int,
                    ) by {
                        lemma_mutual_eq_untouched(
                            cs,
                            k as int + 1,
                            pre,
                            docs@,
                            ng@[g].0 as int,
                            ng@[g].1 as int,
                        );
                    }
                    assert forall|g: int|
                        0 <= g < groups@.skip(gii).len() && group_overlaps(
                            (#[trigger] groups@.skip(gii)[g]).0 as int,
                            groups@.skip(gii)[g].1 as int,
                            start as int,
                            end as int,
                        ) implies mutual_eq_prefix(
                        cs,
                        k as int,
                        docs@,
                        groups@.skip(gii)[g].0 as int,
                        groups@.skip(gii)[g].1 as int,
                    ) by {
                        assert(groups@.skip(gii)[g] == groups@[gii + g]);
                        if g == 0 {
                            lemma_mutual_eq_preserved(cs, k as int, pre, docs@, ai, bi);
                        } else {
                            lemma_partition_ordered(groups@, n as int, gii, gii + g);
                            lemma_mutual_eq_untouched(
                                cs,
                                k as int,
                                pre,
                                docs@,
                                groups@[gii + g].0 as int,
                                groups@[gii + g].1 as int,
                            );
                        }
                    }
                }
                let mut runs = split_runs(docs, a, b, &criteria[k]);
                let ghost runs_view = runs@;
                let ghost old_ng = ng@;
                ng.append(&mut runs);
                proof {
                    let ai = a as int;
                    let bi = b as int;
                    assert(ng@ == old_ng + runs_view);
                    assert(forall|g: int| 0 <= g < old_ng.len() ==> ng@[g] == #[trigger] old_ng[g]);
                    assert(forall|r: int|
                        0 <= r < runs_view.len() ==> ng@[old_ng.len() + r] == #[trigger] runs_view[r]);
                    // The combined list still partitions a prefix.
                    assert(partition_groups(ng@, covered_up_to(groups@, gii + 1)));
                    // The group itself was tied on the first k criteria.
                    assert(group_overlaps(ai, bi, start as int, end as int));
                    assert(mutual_eq_prefix(cs, k as int, docs@, ai, bi));
                    // New boundaries separate, and runs are tied one deeper.
                    if all_eq_exact(cs) {
                        lemma_eq_exact_at(cs, k as int);
                        assert(sep_full_at(cs, docs@, bi)) by {
                            if gii + 1 < groups@.len() {
                                assert(groups@.skip(gii)[1] == groups@[gii + 1]);
                                assert(groups@[gii + 1].0 == b);
                            }
                        }
                        assert forall|g: int| 0 <= g < ng@.len() implies sep_full_at(
                            cs,
                            docs@,
                            (#[trigger] ng@[g]).0 as int,
                        ) by {
                            if g < old_ng.len() {
                                assert(ng@[g] == old_ng[g]);
                            } else {
                                let r = g - old_ng.len();
                                assert(ng@[g] == runs_view[r]);
                                if r == 0 {
                                    assert(runs_view[0].0 == a);
                                    assert(groups@.skip(gii)[0] == groups@[gii]);
                                    assert(sep_full_at(cs, docs@, ai));
                                } else {
                                    assert(strict_sep_at(
                                        cs[k as int],
                                        docs@,
                                        ai,
                                        runs_view[r].0 as int,
                                        bi,
                                    ));
                                    lemma_new_boundary_sep(
                                        cs,
                                        k as int,
                                        docs@,
                                        ai,
                                        runs_view[r].0 as int,
                                        bi,
                                    );
                                }
                            }
                        }
                    }
                    assert forall|g: int|
                        0 <= g < ng@.len() && group_overlaps(
                            (#[trigger] ng@[g]).0 as int,
                            ng@[g].1 as int,
                            start as int,
                            end as int,
                        ) implies mutual_eq_prefix(
                        cs,
                        k as int + 1,
                        docs@,
                        ng@[g].0 as int,
                        ng@[g].1 as int,
                    ) by {
                        if g < old_ng.len() {
                            assert(ng@[g] == old_ng[g]);
                        } else {
                            let r = g - old_ng.len();
                            assert(ng@[g] == runs_view[r]);
                            assert(run_eq(cs[k as int], docs@, runs_view[r].0 as int, runs_view[r].1 as int));
                            lemma_run_deepens(
                                cs,
                                k as int,
                                docs@,
                                ai,
                                bi,
                                runs_view[r].0 as int,
                                runs_view[r].1 as int,
                            );
                        }
                    }
                }
            } else {
                let ghost old_ng = ng@;
                ng.push((a, b));
                proof {
                    assert(forall|g: int| 0 <= g < old_ng.len() ==> ng@[g] == #[trigger] old_ng[g]);
                    assert(ng@[ng@.len() - 1] == (a, b));
                    assert(groups@.skip(gii)[0] == groups@[gii]);
                    assert(partition_groups(ng@, covered_up_to(groups@, gii + 1)));
                }
            }
            proof {
                assert(groups@.skip(gii).drop_first() =~= groups@.skip(gii + 1));
                assert(forall|g: int|
                    0 <= g < groups@.skip(gii + 1).len() ==> #[trigger] groups@.skip(gii + 1)[g]
                        == groups@.skip(gii)[g + 1]);
            }
            gi += 1;
        }
        proof {
            assert(covered_up_to(groups@, groups@.len() as int) == n as int);
        }
        groups = ng;
        k += 1;
    }
    proof {
        if all_eq_exact(cs) {
            lemma_final_window(cs, docs@, groups@, start as int, end as int);
        }
    }
    sorts
}

/// The clamped lower bound of the returned window.
pub open spec fn window_lo(start: int, n: int) -> int {
    if start < n {
        start
    } else {
        n
    }
}

/// The clamped upper bound of the returned window.
pub open spec fn window_hi(start: int, end: int, n: int) -> int {
    let lo = window_lo(start, n);
    let width = if end >= start {
        end - start
    } else {
        0
    };
    if lo + width < n {
        lo + width
    } else {
        n
    }
}

/// Cuts the requested window out of the ranked document vector: the start
/// is clamped to the length, and the tail is truncated to the requested
/// width, so a window past the end comes back short or empty, never a
/// failure.
pub fn window_slice(documents: Vec<Document>, start: usize, end: usize) -> (r: Vec<Document>)
    ensures
        r@ == documents@.subrange(
            window_lo(start as int, documents@.len() as int),
            window_hi(start as int, end as int, documents@.len() as int),
        ),
{
    let mut docs = documents;
    let ghost whole = docs@;
    let n = docs.len();
    let s = if start < n {
        start
    } else {
        n
    };
    let mut tail = docs.split_off(s);
    let width = if end >= start {
        end - start
    } else {
        0
    };
    tail.truncate(width);
    proof {
        let si = s as int;
        let ni = n as int;
        let wi = width as int;
        if wi <= ni - si {
            assert(tail@ == whole.subrange(si, ni).subrange(0, wi));
            assert(tail@ =~= whole.subrange(si, si + wi));
        } else {
            assert(tail@ =~= whole.subrange(si, ni));
        }
    }
    tail
}

/// What the lazy ranking returns for a request `[start, end)` on documents
/// `d0`: some reordering `t` of `d0`, ranked on the window whenever every
/// criterion equates exactly its ordering-equal documents, of which the
/// result is the clamped `[start, end)` slice.
pub open spec fn ranked_window_of<C: Criterion>(
    cs: Seq<C>,
    d0: Seq<Document>,
    t: Seq<Document>,
    start: int,
    end: int,
    r: Seq<Document>,
) -> bool {
    &&& t.len() == d0.len()
    &&& t.to_multiset() == d0.to_multiset()
    &&& (all_eq_exact(cs) ==> window_ranked(cs, t, start, end))
    &&& r == t.subrange(window_lo(start, t.len() as int), window_hi(start, end, t.len() as int))
}

/// Ranks the documents under the criteria list and returns exactly the
/// requested window of the full order, together with the number of groups
/// that had to be sorted to resolve it.
///
/// Some permutation of the input — the one the lazy ranking produced —
/// is ranked on the window and the result is its clamped slice
/// `[start, end)`.  When every criterion equates documents exactly when it
/// orders them equal, that permutation is observationally a full sort: the
/// window holds the same documents, in an order the criteria accept, as a
/// full multi-key sort followed by slicing.  An empty window, or one that
/// starts past the last document, sorts nothing at all.
pub fn rank_window<C: Criterion>(
    documents: Vec<Document>,
    criteria: &Vec<C>,
    start: usize,
    end: usize,
) -> (r: (Vec<Document>, u64))
    ensures
        exists|t: Seq<Document>|
            #[trigger] ranked_window_of(criteria@, documents@, t, start as int, end as int, r.0@),
        start >= end ==> r.1 == 0,
        start >= documents@.len() ==> r.1 == 0,
        criteria@.len() == 0 ==> r.1 == 0,
{
    let ghost d0 = documents@;
    let mut docs = documents;
    let sorts = rank_in_place(&mut docs, criteria, start, end);
    let ghost t = docs@;
    let out = window_slice(docs, start, end);
    let r = (out, sorts);
    proof {
        assert(ranked_window_of(criteria@, d0, t, start as int, end as int, r.0@));
        assert(exists|tt: Seq<Document>|
            #[trigger] ranked_window_of(criteria@, d0, tt, start as int, end as int, r.0@));
    }
    r
}

/// What a retrieval returns: the documents assembled from the stream, in
/// some order ranked on the requested window, sliced to that window.
pub open spec fn retrieval_post<A: Automaton, C: Criterion>(
    autos: Seq<A>,
    entries: Seq<StreamEntry>,
    cs: Seq<C>,
    start: int,
    end: int,
    r: Seq<Document>,
) -> bool {
    exists|full: Seq<Document>, t: Seq<Document>|
        assembled_from(collected_bag(autos, entries), full) && #[trigger] ranked_window_of(
            cs,
            full,
            t,
            start,
            end,
            r,
        )
}

/// Builds retrieval handles.
///
/// The builder owns the automaton set compiled from the query, the entries
/// the indexed stream source produced for that set, and the criteria the
/// caller wants applied, most significant first.
pub struct RankedStreamBuilder<A: Automaton, C: Criterion> {
    entries: Vec<StreamEntry>,
    automatons: Vec<A>,
    criteria: Vec<C>,
}

impl<A: Automaton, C: Criterion> RankedStreamBuilder<A, C> {
    /// The stream entries, for specifications.
    pub closed spec fn entries_spec(&self) -> Seq<StreamEntry> {
        self.entries@
    }

    /// The automaton set, for specifications.
    pub closed spec fn automatons_spec(&self) -> Seq<A> {
        self.automatons@
    }

    /// The criteria list, for specifications.
    pub closed spec fn criteria_spec(&self) -> Seq<C> {
        self.criteria@
    }

    /// A handle is well formed when its stream names only automatons of
    /// its set.
    pub open spec fn wf(&self) -> bool {
        stream_wf(self.automatons_spec(), self.entries_spec())
    }

    /// Starts a builder from the drained stream and the automaton set,
    /// with no criteria yet.
    pub fn new(entries: Vec<StreamEntry>, automatons: Vec<A>) -> (b: RankedStreamBuilder<A, C>)
        requires
            stream_wf(automatons@, entries@),
        ensures
            b.entries_spec() == entries@,
            b.automatons_spec() == automatons@,
            b.criteria_spec() == Seq::<C>::empty(),
            b.wf(),
    {
        RankedStreamBuilder { entries, automatons, criteria: Vec::new() }
    }

    /// Sets the criteria to rank with, most significant first.
    pub fn criteria(&mut self, criteria: Vec<C>)
        ensures
            final(self).entries_spec() == old(self).entries_spec(),
            final(self).automatons_spec() == old(self).automatons_spec(),
            final(self).criteria_spec() == criteria@,
            old(self).wf() ==> final(self).wf(),
    {
        self.criteria = criteria;
    }

    /// Turns the builder into a retrieval handle.
    pub fn build(self) -> (s: RankedStream<A, C>)
        ensures
            s.entries_spec() == self.entries_spec(),
            s.automatons_spec() == self.automatons_spec(),
            s.criteria_spec() == self.criteria_spec(),
            self.wf() ==> s.wf(),
    {
        RankedStream {
            entries: self.entries,
            automatons: self.automatons,
            criteria: self.criteria,
        }
    }
}

/// A retrieval handle: drains its stream, aggregates the evidence per
/// document, and serves ranked windows of the result.
pub struct RankedStream<A: Automaton, C: Criterion> {
    entries: Vec<StreamEntry>,
    automatons: Vec<A>,
    criteria: Vec<C>,
}

impl<A: Automaton, C: Criterion> RankedStream<A, C> {
    /// The stream entries, for specifications.
    pub closed spec fn entries_spec(&self) -> Seq<StreamEntry> {
        self.entries@
    }

    /// The automaton set, for specifications.
    pub closed spec fn automatons_spec(&self) -> Seq<A> {
        self.automatons@
    }

    /// The criteria list, for specifications.
    pub closed spec fn criteria_spec(&self) -> Seq<C> {
        self.criteria@
    }

    /// A handle is well formed when its stream names only automatons of
    /// its set.
    pub open spec fn wf(&self) -> bool {
        stream_wf(self.automatons_spec(), self.entries_spec())
    }

    /// Retrieves the documents occupying `range` of the ranked order:
    /// evidence is collected for every document first, then only the groups
    /// that could reach the window are sorted, and the clamped window is
    /// sliced out — degenerate ranges give an empty result, never an error.
    pub fn retrieve_documents(&self, range: core::ops::Range<usize>) -> (r: Vec<Document>)
        requires
            self.wf(),
        ensures
            retrieval_post(
                self.automatons_spec(),
                self.entries_spec(),
                self.criteria_spec(),
                range.start as int,
                range.end as int,
                r@,
            ),
    {
        let docs = collect_documents(&self.automatons, &self.entries);
        let ghost full = docs@;
        let (out, _sorts) = rank_window(docs, &self.criteria, range.start, range.end);
        proof {
            let t = choose|t: Seq<Document>|
                #[trigger] ranked_window_of(
                    self.criteria_spec(),
                    full,
                    t,
                    range.start as int,
                    range.end as int,
                    out@,
                );
            assert(assembled_from(
                collected_bag(self.automatons_spec(), self.entries_spec()),
                full,
            ) && ranked_window_of(
                self.criteria_spec(),
                full,
                t,
                range.start as int,
                range.end as int,
                out@,
            ));
        }
        out
    }
}

} // verus!
