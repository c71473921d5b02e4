//! Ranking criteria.
//!
//! A criterion compares two documents (`evaluate`) and tells whether two
//! documents are equivalent under it (`eq`).  Criteria are applied in a
//! caller-chosen priority order; the first criterion is the most significant.
//! Every criterion must be a total preorder, and equivalent documents must
//! compare equal; the converse is not required, so a criterion may distinguish
//! documents that it still orders equal.

use core::cmp::Ordering;
use vstd::prelude::*;
use crate::matching::Document;

verus! {

/// One ranking rule over documents.
///
/// `lemma_laws` is the proof obligation that makes a criterion usable for
/// sorting: the ordering must be reflexive, antisymmetric under swap, and
/// compose transitively; the equivalence must be an equivalence relation
/// that refines ordering-equality.
pub trait Criterion: Sized {
    /// How the criterion orders two documents.
    spec fn cmp_spec(&self, a: Document, b: Document) -> Ordering;

    /// When the criterion considers two documents equivalent.
    spec fn eq_spec(&self, a: Document, b: Document) -> bool;

    /// The laws every criterion obeys.
    proof fn lemma_laws(&self, a: Document, b: Document, c: Document)
        ensures
            self.cmp_spec(a, a) == Ordering::Equal,
            self.cmp_spec(a, b) == Ordering::Less <==> self.cmp_spec(b, a) == Ordering::Greater,
            self.cmp_spec(a, b) == Ordering::Less && self.cmp_spec(b, c) == Ordering::Less
                ==> self.cmp_spec(a, c) == Ordering::Less,
            self.cmp_spec(a, b) == Ordering::Less && self.cmp_spec(b, c) == Ordering::Equal
                ==> self.cmp_spec(a, c) == Ordering::Less,
            self.cmp_spec(a, b) == Ordering::Equal && self.cmp_spec(b, c) == Ordering::Less
                ==> self.cmp_spec(a, c) == Ordering::Less,
            self.cmp_spec(a, b) == Ordering::Equal && self.cmp_spec(b, c) == Ordering::Equal
                ==> self.cmp_spec(a, c) == Ordering::Equal,
            self.eq_spec(a, b) ==> self.cmp_spec(a, b) == Ordering::Equal,
            self.eq_spec(a, a),
            self.eq_spec(a, b) == self.eq_spec(b, a),
            self.eq_spec(a, b) && self.eq_spec(b, c) ==> self.eq_spec(a, c),
    ;

    /// Orders two documents.
    fn evaluate(&self, a: &Document, b: &Document) -> (r: Ordering)
        ensures
            r == self.cmp_spec(*a, *b),
    ;

    /// Tests equivalence of two documents under this criterion.
    fn eq(&self, a: &Document, b: &Document) -> (r: bool)
        ensures
            r == self.eq_spec(*a, *b),
    ;
}

/// How integers order, used by the concrete criteria.
pub open spec fn cmp_of(x: int, y: int) -> Ordering {
    if x < y {
        Ordering::Less
    } else if x == y {
        Ordering::Equal
    } else {
        Ordering::Greater
    }
}

/// Orders two machine integers.
pub fn cmp_u64(x: u64, y: u64) -> (r: Ordering)
    ensures
        r == cmp_of(x as int, y as int),
{
    if x < y {
        Ordering::Less
    } else if x == y {
        Ordering::Equal
    } else {
        Ordering::Greater
    }
}

/// The order the whole criteria list defines: the first criterion that does
/// not order two documents equal decides; documents equal under every
/// criterion tie, and tie both ways.
pub open spec fn le_lex<C: Criterion>(cs: Seq<C>, a: Document, b: Document) -> bool
    decreases cs.len(),
{
    if cs.len() == 0 {
        true
    } else {
        match cs[0].cmp_spec(a, b) {
            Ordering::Less => true,
            Ordering::Greater => false,
            Ordering::Equal => le_lex(cs.drop_first(), a, b),
        }
    }
}

/// The first `k` criteria of `cs` all order `a` and `b` equal.
pub open spec fn eq_prefix<C: Criterion>(cs: Seq<C>, k: int, a: Document, b: Document) -> bool {
    forall|l: int| 0 <= l < k ==> #[trigger] cs[l].cmp_spec(a, b) == Ordering::Equal
}

/// Every criterion of the list defines its equivalence exactly as
/// ordering-equality.  Under such criteria the lazy ranking is
/// observationally a full sort followed by slicing.
pub open spec fn all_eq_exact<C: Criterion>(cs: Seq<C>) -> bool {
    forall|l: int, a: Document, b: Document|
        0 <= l < cs.len() ==> (#[trigger] cs[l].eq_spec(a, b) <==> cs[l].cmp_spec(a, b)
            == Ordering::Equal)
}

/// Documents equal under every criterion of the list tie under the list.
pub proof fn lemma_le_lex_all_eq<C: Criterion>(cs: Seq<C>, a: Document, b: Document)
    requires
        eq_prefix(cs, cs.len() as int, a, b),
    ensures
        le_lex(cs, a, b),
    decreases cs.len(),
{
    if cs.len() > 0 {
        assert(cs[0].cmp_spec(a, b) == Ordering::Equal);
        let rest = cs.drop_first();
        assert forall|l: int| 0 <= l < rest.len() implies #[trigger] rest[l].cmp_spec(a, b)
            == Ordering::Equal by {
            assert(rest[l] == cs[l + 1]);
        }
        lemma_le_lex_all_eq(rest, a, b);
    }
}

/// If the first `k` criteria order `a` and `b` equal and criterion `k`
/// orders `a` strictly first, the list places `a` strictly before `b`.
pub proof fn lemma_le_lex_from_split<C: Criterion>(cs: Seq<C>, k: int, a: Document, b: Document)
    requires
        0 <= k < cs.len(),
        eq_prefix(cs, k, a, b),
        cs[k].cmp_spec(a, b) == Ordering::Less,
    ensures
        le_lex(cs, a, b),
        !le_lex(cs, b, a),
    decreases k,
{
    cs[0].lemma_laws(a, b, b);
    cs[0].lemma_laws(b, a, a);
    if k == 0 {
        assert(cs[0].cmp_spec(b, a) == Ordering::Greater);
    } else {
        assert(cs[0].cmp_spec(a, b) == Ordering::Equal);
        assert(cs[0].cmp_spec(b, a) == Ordering::Equal);
        let rest = cs.drop_first();
        assert forall|l: int| 0 <= l < k - 1 implies #[trigger] rest[l].cmp_spec(a, b)
            == Ordering::Equal by {
            assert(rest[l] == cs[l + 1]);
        }
        assert(rest[k - 1] == cs[k]);
        lemma_le_lex_from_split(rest, k - 1, a, b);
    }
}

/// The list order is total: two documents always relate one way or the other.
pub proof fn lemma_le_lex_total<C: Criterion>(cs: Seq<C>, a: Document, b: Document)
    ensures
        le_lex(cs, a, b) || le_lex(cs, b, a),
    decreases cs.len(),
{
    if cs.len() > 0 {
        cs[0].lemma_laws(a, b, b);
        cs[0].lemma_laws(b, a, a);
        if cs[0].cmp_spec(a, b) == Ordering::Equal {
            assert(cs[0].cmp_spec(b, a) == Ordering::Equal);
            lemma_le_lex_total(cs.drop_first(), a, b);
        }
    }
}

/// The list order is transitive.
pub proof fn lemma_le_lex_trans<C: Criterion>(cs: Seq<C>, a: Document, b: Document, c: Document)
    requires
        le_lex(cs, a, b),
        le_lex(cs, b, c),
    ensures
        le_lex(cs, a, c),
    decreases cs.len(),
{
    if cs.len() > 0 {
        cs[0].lemma_laws(a, b, c);
        cs[0].lemma_laws(b, c, a);
        cs[0].lemma_laws(a, c, b);
        if cs[0].cmp_spec(a, b) == Ordering::Equal && cs[0].cmp_spec(b, c) == Ordering::Equal {
            lemma_le_lex_trans(cs.drop_first(), a, b, c);
        }
    }
}

/// The built-in ranking rules, a closed set dispatched exhaustively.
///
/// `WordCount` ranks documents with more matches first; `Exactness` ranks
/// documents with more exact matches first; `DocumentId` orders by
/// ascending identifier, a tie breaker that never leaves two distinct
/// documents unordered.
#[derive(Clone, Copy, Debug, PartialEq, Eq, Structural)]
pub enum RankingRule {
    /// More matches first.
    WordCount,
    /// More exact matches first.
    Exactness,
    /// Ascending document identifier.
    DocumentId,
}

/// The number of exact matches in a match list.
pub open spec fn exact_count(s: Seq<crate::matching::Match>) -> int
    decreases s.len(),
{
    if s.len() == 0 {
        0
    } else {
        exact_count(s.drop_last()) + if s.last().is_exact {
            1int
        } else {
            0int
        }
    }
}

/// The key a ranking rule compares documents by: rules ranking "more
/// first" negate by comparing the other way around.
pub open spec fn rule_key(rule: RankingRule, d: Document) -> int {
    match rule {
        RankingRule::WordCount => d.matches_spec().len() as int,
        RankingRule::Exactness => exact_count(d.matches_spec()),
        RankingRule::DocumentId => d.id_spec() as int,
    }
}

impl Criterion for RankingRule {
    open spec fn cmp_spec(&self, a: Document, b: Document) -> Ordering {
        match *self {
            RankingRule::DocumentId => cmp_of(rule_key(*self, a), rule_key(*self, b)),
            _ => cmp_of(rule_key(*self, b), rule_key(*self, a)),
        }
    }

    open spec fn eq_spec(&self, a: Document, b: Document) -> bool {
        rule_key(*self, a) == rule_key(*self, b)
    }

    proof fn lemma_laws(&self, a: Document, b: Document, c: Document) {
    }

    fn evaluate(&self, a: &Document, b: &Document) -> (r: Ordering) {
        match self {
            RankingRule::WordCount => cmp_u64(b.matches().len() as u64, a.matches().len() as u64),
            RankingRule::Exactness => cmp_u64(count_exact(b.matches()), count_exact(a.matches())),
            RankingRule::DocumentId => cmp_u64(a.id(), b.id()),
        }
    }

    fn eq(&self, a: &Document, b: &Document) -> (r: bool) {
        match self {
            RankingRule::WordCount => a.matches().len() == b.matches().len(),
            RankingRule::Exactness => count_exact(a.matches()) == count_exact(b.matches()),
            RankingRule::DocumentId => a.id() == b.id(),
        }
    }
}

/// Counts the exact matches of a sorted match list.
pub fn count_exact(matches: &Vec<crate::matching::Match>) -> (n: u64)
    ensures
        n == exact_count(matches@),
{
    let mut n: u64 = 0;
    let mut i: usize = 0;
    while i < matches.len()
        invariant
            0 <= i <= matches@.len(),
            n == exact_count(matches@.subrange(0, i as int)),
            n <= i,
        decreases matches@.len() - i,
    {
        let ghost pre = matches@.subrange(0, i as int);
        if matches[i].is_exact {
            n = n + 1;
        }
        proof {
            let cur = matches@.subrange(0, i + 1);
            assert(cur.drop_last() == pre);
            assert(cur.last() == matches@[i as int]);
        }
        i += 1;
    }
    proof {
        assert(matches@.subrange(0, matches@.len() as int) == matches@);
    }
    n
}

} // verus!
