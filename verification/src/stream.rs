//! What the external stream source hands the core.
//!
//! The indexed stream source — outside this crate — yields, in ascending
//! string order, each candidate string together with, per automaton that
//! reached it, the list of places where the string occurs.  The core drains
//! that stream eagerly, so here it arrives as an owned vector of entries.

use vstd::prelude::*;

verus! {

/// One physical location where a candidate string occurs.
#[derive(Clone, Copy, Debug, PartialEq, Eq, Structural)]
pub struct DocIndex {
    /// Identifier of the document.
    pub document: u64,
    /// Attribute of the document holding the occurrence.
    pub attribute: u16,
    /// Position of the occurrence inside the attribute.
    pub attribute_index: u32,
}

/// The occurrences of one candidate string for one automaton.
#[derive(Clone, Debug)]
pub struct IndexedValue {
    /// Position of the automaton in the automaton set (the query index).
    pub index: usize,
    /// Where the string occurs.
    pub doc_indexes: Vec<DocIndex>,
}

/// One entry of the merged stream: a candidate string and its occurrences.
#[derive(Clone, Debug)]
pub struct StreamEntry {
    /// The candidate string, as the index stores it.
    pub string: Vec<u8>,
    /// Its occurrences, one record per automaton that reached it.
    pub values: Vec<IndexedValue>,
}

/// A compiled matcher for one query term.
///
/// Evaluation is a pure function of the candidate string: it reports a
/// capped edit distance, with zero meaning the automaton took the string
/// as the query term itself.
pub trait Automaton: Sized {
    /// The distance the automaton reports for a candidate string.
    spec fn eval_spec(&self, s: Seq<u8>) -> u8;

    /// The length of the query term the automaton was built from.
    spec fn query_len_spec(&self) -> int;

    /// Evaluates a candidate string.
    fn eval(&self, s: &Vec<u8>) -> (d: u8)
        ensures
            d == self.eval_spec(s@),
    ;

    /// The length of the query term.
    fn query_len(&self) -> (n: usize)
        ensures
            n as int == self.query_len_spec(),
    ;
}

/// Byte-for-byte equality of two strings.
pub fn eq_bytes(a: &Vec<u8>, b: &Vec<u8>) -> (r: bool)
    ensures
        r == (a@ == b@),
{
    if a.len() != b.len() {
        proof {
            assert(a@ != b@);
        }
        return false;
    }
    let mut i: usize = 0;
    while i < a.len()
        invariant
            0 <= i <= a@.len(),
            a@.len() == b@.len(),
            forall|k: int| 0 <= k < i ==> a@[k] == b@[k],
        decreases a@.len() - i,
    {
        if a[i] != b[i] {
            proof {
                assert(a@ != b@);
            }
            return false;
        }
        i += 1;
    }
    proof {
        assert(a@ =~= b@);
    }
    true
}

/// The simplest automaton: it reaches only the query term itself, at
/// distance zero; anything else is at the distance cap.
pub struct ExactAutomaton {
    /// The query term.
    pub query: Vec<u8>,
}

impl Automaton for ExactAutomaton {
    open spec fn eval_spec(&self, s: Seq<u8>) -> u8 {
        if s == self.query@ {
            0
        } else {
            1
        }
    }

    open spec fn query_len_spec(&self) -> int {
        self.query@.len() as int
    }

    fn eval(&self, s: &Vec<u8>) -> (d: u8) {
        if eq_bytes(s, &self.query) {
            0
        } else {
            1
        }
    }

    fn query_len(&self) -> (n: usize) {
        self.query.len()
    }
}

/// An automaton stub that reports the same distance for every candidate
/// string; with a distance of zero, exactness then turns on the string's
/// length alone.
pub struct ConstantAutomaton {
    /// The distance reported for every candidate.
    pub distance: u8,
    /// The length of the query term the stub stands for.
    pub query_len: usize,
}

impl Automaton for ConstantAutomaton {
    open spec fn eval_spec(&self, s: Seq<u8>) -> u8 {
        self.distance
    }

    open spec fn query_len_spec(&self) -> int {
        self.query_len as int
    }

    fn eval(&self, s: &Vec<u8>) -> (d: u8) {
        self.distance
    }

    fn query_len(&self) -> (n: usize) {
        self.query_len
    }
}

} // verus!
