//! Match records and per-document evidence.
//!
//! A `Match` is the evidence that one query term matched at one location of a
//! document, together with the edit distance the term's automaton reported and
//! whether the match was exact.  Matches carry a canonical total order —
//! by query index, then distance, then attribute, then position inside the
//! attribute, then exactness — and every `Document` holds its matches sorted
//! under that order.

use vstd::prelude::*;

verus! {

broadcast use vstd::seq_lib::group_to_multiset_ensures;

/// Evidence that one query term matched at one location.
#[derive(Clone, Copy, Debug, PartialEq, Eq, Structural)]
pub struct Match {
    /// Position of the originating automaton in the automaton set.
    pub query_index: u32,
    /// Edit distance the automaton reported for the matched string.
    pub distance: u8,
    /// Attribute of the document in which the string occurred.
    pub attribute: u16,
    /// Position of the occurrence inside that attribute.
    pub attribute_index: u32,
    /// Whether the match is exact: zero distance and equal lengths.
    pub is_exact: bool,
}

pub open spec fn bool_rank(b: bool) -> int {
    if b {
        1
    } else {
        0
    }
}

/// The canonical total order on matches: lexicographic on
/// (query index, distance, attribute, attribute position, exactness).
pub open spec fn match_le(a: Match, b: Match) -> bool {
    if a.query_index != b.query_index {
        a.query_index < b.query_index
    } else if a.distance != b.distance {
        a.distance < b.distance
    } else if a.attribute != b.attribute {
        a.attribute < b.attribute
    } else if a.attribute_index != b.attribute_index {
        a.attribute_index < b.attribute_index
    } else {
        bool_rank(a.is_exact) <= bool_rank(b.is_exact)
    }
}

/// A sequence of matches is sorted when adjacent-free pairs respect the
/// canonical order.
pub open spec fn sorted_matches(s: Seq<Match>) -> bool {
    forall|i: int, j: int| 0 <= i <= j < s.len() ==> match_le(s[i], s[j])
}

/// Exact comparison under the canonical match order.
pub fn match_le_exec(a: &Match, b: &Match) -> (r: bool)
    ensures
        r == match_le(*a, *b),
{
    if a.query_index != b.query_index {
        a.query_index < b.query_index
    } else if a.distance != b.distance {
        a.distance < b.distance
    } else if a.attribute != b.attribute {
        a.attribute < b.attribute
    } else if a.attribute_index != b.attribute_index {
        a.attribute_index < b.attribute_index
    } else {
        !a.is_exact || b.is_exact
    }
}

/// Sorts a vector of matches under the canonical order (insertion sort).
pub fn sort_matches(v: &mut Vec<Match>)
    ensures
        final(v)@.len() == old(v)@.len(),
        final(v)@.to_multiset() == old(v)@.to_multiset(),
        sorted_matches(final(v)@),
{
    if v.len() <= 1 {
        return ;
    }
    let mut i: usize = 1;
    while i < v.len()
        invariant
            1 <= i <= v@.len(),
            v@.len() == old(v)@.len(),
            v@.to_multiset() == old(v)@.to_multiset(),
            sorted_matches(v@.subrange(0, i as int)),
        decreases v@.len() - i,
    {
        let x = v[i];
        let ghost before = v@;
        let mut p: usize = 0;
        while p < i && match_le_exec(&v[p], &x)
            invariant
                0 <= p <= i < v@.len(),
                v@ == before,
                forall|k: int| 0 <= k < p ==> match_le(v@[k], x),
            decreases i - p,
        {
            p += 1;
        }
        let y = v.remove(i);
        v.insert(p, y);
        proof {
            assert(y == x);
            let after = v@;
            assert(after == before.remove(i as int).insert(p as int, x));
            assert(after.to_multiset() =~= before.to_multiset()) by {
                assert(before.remove(i as int).to_multiset() =~= before.to_multiset().remove(
                    before[i as int],
                ));
                assert(before.remove(i as int).insert(p as int, x).to_multiset()
                    =~= before.remove(i as int).to_multiset().insert(x));
            }
            let pi = p as int;
            let ii = i as int;
            assert forall|a: int, b: int| 0 <= a <= b < i + 1 implies match_le(
                after[a],
                after[b],
            ) by {
                // Where each position of `after` comes from.
                assert(forall|k: int| 0 <= k < pi ==> after[k] == before[k]);
                assert(forall|k: int| pi < k <= ii ==> after[k] == before[k - 1]);
                assert(after[pi] == x);
                // The prefix of `before` was sorted.
                assert(forall|u: int, w: int|
                    0 <= u <= w < ii ==> match_le(
                        #[trigger] before.subrange(0, ii)[u],
                        #[trigger] before.subrange(0, ii)[w],
                    ));
                assert forall|u: int, w: int| 0 <= u <= w < ii implies match_le(
                    before[u],
                    before[w],
                ) by {
                    assert(before.subrange(0, ii)[u] == before[u]);
                    assert(before.subrange(0, ii)[w] == before[w]);
                }
                // Case analysis on where a and b sit relative to p.
                if b < pi {
                    assert(match_le(before[a], before[b]));
                } else if a < pi && b == pi {
                    assert(match_le(before[a], x));
                } else if a < pi && b > pi {
                    assert(match_le(before[a], before[b - 1]));
                } else if a == pi && b > pi {
                    assert(!match_le(before[pi], x));
                    assert(match_le(x, before[pi]));
                    assert(match_le(before[pi], before[b - 1]));
                    assert(match_le(x, before[b - 1]));
                } else if a > pi {
                    assert(match_le(before[a - 1], before[b - 1]));
                }
            }
        }
        i += 1;
    }
    proof {
        assert(v@.subrange(0, v@.len() as int) == v@);
    }
}

/// The canonical order leaves no room: two sorted match lists holding the
/// same matches are the same list.
pub proof fn lemma_sorted_matches_unique(s1: Seq<Match>, s2: Seq<Match>)
    requires
        sorted_matches(s1),
        sorted_matches(s2),
        s1.to_multiset() == s2.to_multiset(),
    ensures
        s1 == s2,
    decreases s1.len(),
{
    assert(s1.to_multiset().len() == s1.len());
    assert(s2.to_multiset().len() == s2.len());
    if s1.len() == 0 {
        assert(s1 =~= s2);
    } else {
        assert(s1.to_multiset().count(s1[0]) > 0) by {
            assert(s1.contains(s1[0]));
        }
        assert(s2.contains(s1[0]));
        assert(s2.to_multiset().count(s2[0]) > 0) by {
            assert(s2.contains(s2[0]));
        }
        assert(s1.contains(s2[0]));
        let j = choose|j: int| 0 <= j < s2.len() && s2[j] == s1[0];
        let i = choose|i: int| 0 <= i < s1.len() && s1[i] == s2[0];
        assert(match_le(s2[0], s1[0]));
        assert(match_le(s1[0], s2[0]));
        assert(s1[0] == s2[0]);
        let r1 = s1.drop_first();
        let r2 = s2.drop_first();
        assert(r1.to_multiset() =~= s1.to_multiset().remove(s1[0])) by {
            assert(s1.remove(0) =~= r1);
        }
        assert(r2.to_multiset() =~= s2.to_multiset().remove(s2[0])) by {
            assert(s2.remove(0) =~= r2);
        }
        assert(r1.to_multiset() == r2.to_multiset());
        assert(sorted_matches(r1)) by {
            assert(forall|a: int| 0 <= a < r1.len() ==> r1[a] == s1[a + 1]);
        }
        assert(sorted_matches(r2)) by {
            assert(forall|a: int| 0 <= a < r2.len() ==> r2[a] == s2[a + 1]);
        }
        lemma_sorted_matches_unique(r1, r2);
        assert forall|a: int| 0 <= a < s1.len() implies s1[a] == s2[a] by {
            if a > 0 {
                assert(s1[a] == r1[a - 1]);
                assert(s2[a] == r2[a - 1]);
            }
        }
        assert(s1 =~= s2);
    }
}

/// The aggregated evidence for one result candidate.
///
/// The match list is private so that every constructed document is sorted
/// under the canonical match order: both constructors guarantee it.
#[derive(Clone, Debug, PartialEq)]
pub struct Document {
    id: u64,
    matches: Vec<Match>,
}

impl Document {
    /// The document identifier, for specifications.
    pub closed spec fn id_spec(&self) -> u64 {
        self.id
    }

    /// The match list, for specifications.
    pub closed spec fn matches_spec(&self) -> Seq<Match> {
        self.matches@
    }

    /// Identifier of the document in the index.
    pub fn id(&self) -> (r: u64)
        ensures
            r == self.id_spec(),
    {
        self.id
    }

    /// Every document built by this crate keeps its matches sorted.
    pub open spec fn wf(&self) -> bool {
        sorted_matches(self.matches_spec())
    }

    /// Builds a document from a match list that is already sorted; the
    /// assembler calls this right after sorting the bag itself.
    pub fn from_sorted_matches(id: u64, matches: Vec<Match>) -> (d: Document)
        requires
            sorted_matches(matches@),
        ensures
            d.id_spec() == id,
            d.matches_spec() == matches@,
            d.wf(),
    {
        Document { id, matches }
    }

    /// Builds a document from an arbitrary match bag, sorting it first.
    /// There is no path around the sort.
    pub fn from_matches(id: u64, matches: Vec<Match>) -> (d: Document)
        ensures
            d.id_spec() == id,
            d.matches_spec().to_multiset() == matches@.to_multiset(),
            d.wf(),
    {
        let mut matches = matches;
        sort_matches(&mut matches);
        Document { id, matches }
    }

    /// Read access to the sorted match list.
    pub fn matches(&self) -> (m: &Vec<Match>)
        ensures
            m@ == self.matches_spec(),
    {
        &self.matches
    }
}

} // verus!
