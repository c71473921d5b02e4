//! The match collector and the document assembler.
//!
//! The collector drains the merged stream completely — a later entry may
//! still add evidence to any document — and files every match under its
//! document identifier.  The assembler then sorts each document's bag under
//! the canonical match order and builds one `Document` per distinct
//! identifier.

use vstd::prelude::*;
use crate::matching::{Document, Match};
use crate::stream::{Automaton, DocIndex, IndexedValue, StreamEntry};

verus! {

/// The per-document bags of matches, keyed by document identifier; each bag
/// keeps the order in which its matches were filed.
pub type MatchBag = Map<u64, Seq<Match>>;

/// Per-document accumulation of matches, keyed by document identifier in
/// an fnv-hashed map.  The map itself is outside what the verifier reads;
/// `acc_contents` names what it holds.
#[verifier::external_body]
pub struct MatchAccumulator {
    map: fnv::FnvHashMap<u64, Vec<Match>>,
}

pub uninterp spec fn acc_contents(acc: MatchAccumulator) -> MatchBag;

/// The bag with nothing filed yet.
pub open spec fn empty_bag() -> MatchBag {
    Map::<u64, Seq<Match>>::empty()
}

/// Files one more match under a document: appends it to the document's bag,
/// or opens a bag of one.
pub open spec fn bag_push(bag: MatchBag, d: u64, m: Match) -> MatchBag {
    bag.insert(
        d,
        if bag.contains_key(d) {
            bag[d].push(m)
        } else {
            seq![m]
        },
    )
}

impl MatchAccumulator {
    /// Relies on HashMap::default for fnv's hasher: a fresh map is empty.
    #[verifier::external_body]
    pub(crate) fn new() -> (acc: MatchAccumulator)
        ensures
            acc_contents(acc) == empty_bag(),
    {
        MatchAccumulator { map: fnv::FnvHashMap::default() }
    }

    /// Relies on HashMap::entry and Entry::or_insert_with: the match is
    /// appended to the vector stored under `document`, other keys keep
    /// their vectors.
    #[verifier::external_body]
    pub(crate) fn push(&mut self, document: u64, m: Match)
        ensures
            acc_contents(*final(self)) == bag_push(acc_contents(*old(self)), document, m),
    {
        self.map.entry(document).or_insert_with(Vec::new).push(m);
    }

    /// Relies on HashMap::into_iter: every key comes out exactly once, in no
    /// fixed order, paired with the vector stored under it.
    #[verifier::external_body]
    pub(crate) fn into_entries(self) -> (v: Vec<(u64, Vec<Match>)>)
        ensures
            forall|i: int, j: int|
                0 <= i < j < v@.len() ==> (#[trigger] v@[i]).0 != (#[trigger] v@[j]).0,
            forall|i: int|
                0 <= i < v@.len() ==> acc_contents(self).contains_key((#[trigger] v@[i]).0)
                    && v@[i].1@ == acc_contents(self)[v@[i].0],
            forall|d: u64|
                acc_contents(self).contains_key(d) ==> exists|i: int|
                    0 <= i < v@.len() && (#[trigger] v@[i]).0 == d,
    {
        self.map.into_iter().collect()
    }
}

/// The match derived from one occurrence of string `s` under the automaton
/// at query index `qi`: the automaton's distance, and exactness exactly when
/// the distance is zero and the string is as long as the query term.
pub open spec fn match_of<A: Automaton>(autos: Seq<A>, s: Seq<u8>, qi: int, di: DocIndex) -> Match {
    Match {
        query_index: qi as u32,
        distance: autos[qi].eval_spec(s),
        attribute: di.attribute,
        attribute_index: di.attribute_index,
        is_exact: autos[qi].eval_spec(s) == 0 && s.len() as int == autos[qi].query_len_spec(),
    }
}

/// A match is exact if and only if its distance is zero and the matched
/// string is exactly as long as the query term.
pub proof fn lemma_exactness_rule<A: Automaton>(autos: Seq<A>, s: Seq<u8>, qi: int, di: DocIndex)
    ensures
        match_of(autos, s, qi, di).is_exact <==> (match_of(autos, s, qi, di).distance == 0
            && s.len() as int == autos[qi].query_len_spec()),
{
}

/// Files the matches of one occurrence list, in order.
pub open spec fn collect_doc_indexes<A: Automaton>(
    autos: Seq<A>,
    s: Seq<u8>,
    qi: int,
    dis: Seq<DocIndex>,
    bag: MatchBag,
) -> MatchBag
    decreases dis.len(),
{
    if dis.len() == 0 {
        bag
    } else {
        collect_doc_indexes(
            autos,
            s,
            qi,
            dis.drop_first(),
            bag_push(bag, dis[0].document, match_of(autos, s, qi, dis[0])),
        )
    }
}

/// Files the matches of one stream entry, occurrence list by occurrence list.
pub open spec fn collect_values<A: Automaton>(
    autos: Seq<A>,
    s: Seq<u8>,
    vals: Seq<IndexedValue>,
    bag: MatchBag,
) -> MatchBag
    decreases vals.len(),
{
    if vals.len() == 0 {
        bag
    } else {
        collect_values(
            autos,
            s,
            vals.drop_first(),
            collect_doc_indexes(autos, s, vals[0].index as int, vals[0].doc_indexes@, bag),
        )
    }
}

/// Files the matches of the whole stream, entry by entry.
pub open spec fn collect_entries<A: Automaton>(
    autos: Seq<A>,
    entries: Seq<StreamEntry>,
    bag: MatchBag,
) -> MatchBag
    decreases entries.len(),
{
    if entries.len() == 0 {
        bag
    } else {
        collect_entries(
            autos,
            entries.drop_first(),
            collect_values(autos, entries[0].string@, entries[0].values@, bag),
        )
    }
}

/// Everything the stream holds, filed per document.
pub open spec fn collected_bag<A: Automaton>(autos: Seq<A>, entries: Seq<StreamEntry>) -> MatchBag {
    collect_entries(autos, entries, Map::<u64, Seq<Match>>::empty())
}

/// A well-formed stream names only automatons of the set, and the set is
/// small enough for query indexes to be tagged.
pub open spec fn stream_wf<A: Automaton>(autos: Seq<A>, entries: Seq<StreamEntry>) -> bool {
    &&& autos.len() <= u32::MAX
    &&& forall|i: int, j: int|
        0 <= i < entries.len() && 0 <= j < entries[i].values@.len() ==> (#[trigger] entries[i].values@[j]).index
            < autos.len()
}

/// Drains the stream into per-document match bags.
pub(crate) fn collect_matches<A: Automaton>(automatons: &Vec<A>, entries: &Vec<StreamEntry>) -> (acc:
    MatchAccumulator)
    requires
        stream_wf(automatons@, entries@),
    ensures
        acc_contents(acc) == collected_bag(automatons@, entries@),
{
    let ghost autos = automatons@;
    let mut acc = MatchAccumulator::new();
    let ghost target = collected_bag(autos, entries@);
    proof {
        assert(entries@.skip(0) =~= entries@);
    }
    let mut e: usize = 0;
    while e < entries.len()
        invariant
            stream_wf(autos, entries@),
            automatons@ == autos,
            0 <= e <= entries@.len(),
            collect_entries(autos, entries@.skip(e as int), acc_contents(acc)) == target,
        decreases entries@.len() - e,
    {
        let entry = &entries[e];
        let ghost entry_target = collect_values(autos, entry.string@, entry.values@, acc_contents(acc));
        proof {
            let rest = entries@.skip(e as int);
            assert(rest[0] == entries@[e as int]);
            assert(rest.drop_first() =~= entries@.skip(e as int + 1));
            assert(entry.values@.skip(0) =~= entry.values@);
        }
        let mut v: usize = 0;
        while v < entry.values.len()
            invariant
                stream_wf(autos, entries@),
                automatons@ == autos,
                0 <= e < entries@.len(),
                entry == &entries@[e as int],
                0 <= v <= entry.values@.len(),
                collect_values(autos, entry.string@, entry.values@.skip(v as int), acc_contents(acc))
                    == entry_target,
            decreases entry.values@.len() - v,
        {
            let iv = &entry.values[v];
            proof {
                assert(entries@[e as int].values@[v as int] == entry.values@[v as int]);
            }
            let automaton = &automatons[iv.index];
            let distance = automaton.eval(&entry.string);
            let is_exact = distance == 0 && entry.string.len() == automaton.query_len();
            let ghost value_target = collect_doc_indexes(
                autos,
                entry.string@,
                iv.index as int,
                iv.doc_indexes@,
                acc_contents(acc),
            );
            proof {
                let rest = entry.values@.skip(v as int);
                assert(rest[0] == entry.values@[v as int]);
                assert(rest.drop_first() =~= entry.values@.skip(v as int + 1));
                assert(iv.doc_indexes@.skip(0) =~= iv.doc_indexes@);
            }
            let mut d: usize = 0;
            while d < iv.doc_indexes.len()
                invariant
                    automatons@ == autos,
                    0 <= d <= iv.doc_indexes@.len(),
                    iv.index < autos.len(),
                    distance == autos[iv.index as int].eval_spec(entry.string@),
                    is_exact == (distance == 0 && entry.string@.len() as int == autos[iv.index as int].query_len_spec()),
                    collect_doc_indexes(
                        autos,
                        entry.string@,
                        iv.index as int,
                        iv.doc_indexes@.skip(d as int),
                        acc_contents(acc),
                    ) == value_target,
                decreases iv.doc_indexes@.len() - d,
            {
                let di = iv.doc_indexes[d];
                let m = Match {
                    query_index: iv.index as u32,
                    distance,
                    attribute: di.attribute,
                    attribute_index: di.attribute_index,
                    is_exact,
                };
                proof {
                    let rest = iv.doc_indexes@.skip(d as int);
                    assert(rest[0] == iv.doc_indexes@[d as int]);
                    assert(rest.drop_first() =~= iv.doc_indexes@.skip(d as int + 1));
                    assert(m == match_of(autos, entry.string@, iv.index as int, di));
                }
                acc.push(di.document, m);
                d += 1;
            }
            proof {
                assert(iv.doc_indexes@.skip(iv.doc_indexes@.len() as int) =~= Seq::<
                    DocIndex,
                >::empty());
            }
            v += 1;
        }
        proof {
            assert(entry.values@.skip(entry.values@.len() as int) =~= Seq::<
                IndexedValue,
            >::empty());
        }
        e += 1;
    }
    proof {
        assert(entries@.skip(entries@.len() as int) =~= Seq::<StreamEntry>::empty());
    }
    acc
}

/// What it means for a document list to be the assembly of a bag: one
/// document per filed identifier, each carrying exactly its bag, sorted.
pub open spec fn assembled_from(bag: MatchBag, docs: Seq<Document>) -> bool {
    &&& forall|i: int, j: int|
        0 <= i < j < docs.len() ==> (#[trigger] docs[i]).id_spec() != (#[trigger] docs[j]).id_spec()
    &&& forall|i: int|
        0 <= i < docs.len() ==> {
            &&& (#[trigger] docs[i]).wf()
            &&& bag.contains_key(docs[i].id_spec())
            &&& docs[i].matches_spec().to_multiset() == bag[docs[i].id_spec()].to_multiset()
        }
    &&& forall|d: u64|
        bag.contains_key(d) ==> exists|i: int| 0 <= i < docs.len() && (#[trigger] docs[i]).id_spec()
            == d
}

/// Drains the stream and assembles one sorted document per distinct
/// document identifier the stream names.
pub fn collect_documents<A: Automaton>(automatons: &Vec<A>, entries: &Vec<StreamEntry>) -> (docs:
    Vec<Document>)
    requires
        stream_wf(automatons@, entries@),
    ensures
        assembled_from(collected_bag(automatons@, entries@), docs@),
{
    let acc = collect_matches(automatons, entries);
    let ghost bag = acc_contents(acc);
    let mut pairs = acc.into_entries();
    let ghost all_pairs = pairs@;
    let mut docs: Vec<Document> = Vec::new();
    while pairs.len() > 0
        invariant
            pairs@ == all_pairs.subrange(0, pairs@.len() as int),
            docs@.len() + pairs@.len() == all_pairs.len(),
            forall|a: int, b: int|
                0 <= a < b < all_pairs.len() ==> (#[trigger] all_pairs[a]).0 != (
                #[trigger] all_pairs[b]).0,
            forall|a: int|
                0 <= a < all_pairs.len() ==> bag.contains_key((#[trigger] all_pairs[a]).0)
                    && all_pairs[a].1@ == bag[all_pairs[a].0],
            forall|a: int|
                0 <= a < docs@.len() ==> (#[trigger] docs@[a]).id_spec() == all_pairs[all_pairs.len()
                    - 1 - a].0,
            forall|a: int|
                0 <= a < docs@.len() ==> (#[trigger] docs@[a]).wf()
                    && docs@[a].matches_spec().to_multiset() == bag[docs@[a].id_spec()].to_multiset(),
        decreases pairs@.len(),
    {
        let ghost before = pairs@;
        let pair = pairs.pop().unwrap();
        let (id, matches) = pair;
        proof {
            assert(before.last() == all_pairs[before.len() - 1]);
            assert(pairs@ =~= all_pairs.subrange(0, pairs@.len() as int));
        }
        let doc = Document::from_matches(id, matches);
        docs.push(doc);
    }
    proof {
        assert forall|d: u64| bag.contains_key(d) implies exists|a: int|
            0 <= a < docs@.len() && (#[trigger] docs@[a]).id_spec() == d by {
            let a = choose|a: int| 0 <= a < all_pairs.len() && (#[trigger] all_pairs[a]).0 == d;
            assert(docs@[all_pairs.len() - 1 - a].id_spec() == d);
        }
        assert forall|i: int, j: int| 0 <= i < j < docs@.len() implies (
        #[trigger] docs@[i]).id_spec() != (#[trigger] docs@[j]).id_spec() by {
            assert(docs@[i].id_spec() == all_pairs[all_pairs.len() - 1 - i].0);
            assert(docs@[j].id_spec() == all_pairs[all_pairs.len() - 1 - j].0);
        }
    }
    docs
}

/// Some document of the list carries this identifier.
pub open spec fn has_doc_id(docs: Seq<Document>, d: u64) -> bool {
    exists|i: int| 0 <= i < docs.len() && (#[trigger] docs[i]).id_spec() == d
}

/// Assembling the same collected evidence twice gives the same documents up
/// to order: the same identifiers appear, and documents with the same
/// identifier carry the same match list.
pub proof fn lemma_assembly_set_equal(bag: MatchBag, docs1: Seq<Document>, docs2: Seq<Document>)
    requires
        assembled_from(bag, docs1),
        assembled_from(bag, docs2),
    ensures
        forall|d: u64| #[trigger] has_doc_id(docs1, d) <==> #[trigger] has_doc_id(docs2, d),
        forall|i: int, j: int|
            0 <= i < docs1.len() && 0 <= j < docs2.len() && docs1[i].id_spec() == docs2[j].id_spec()
                ==> (#[trigger] docs1[i]).matches_spec() == (#[trigger] docs2[j]).matches_spec(),
{
    assert forall|i: int, j: int|
        0 <= i < docs1.len() && 0 <= j < docs2.len() && docs1[i].id_spec()
            == docs2[j].id_spec() implies (#[trigger] docs1[i]).matches_spec() == (
    #[trigger] docs2[j]).matches_spec() by {
        crate::matching::lemma_sorted_matches_unique(
            docs1[i].matches_spec(),
            docs2[j].matches_spec(),
        );
    }
    assert forall|d: u64| #[trigger] has_doc_id(docs1, d) implies #[trigger] has_doc_id(
        docs2,
        d,
    ) by {
        let i = choose|i: int| 0 <= i < docs1.len() && (#[trigger] docs1[i]).id_spec() == d;
        assert(bag.contains_key(d));
    }
    assert forall|d: u64| #[trigger] has_doc_id(docs2, d) implies #[trigger] has_doc_id(
        docs1,
        d,
    ) by {
        let i = choose|i: int| 0 <= i < docs2.len() && (#[trigger] docs2[i]).id_spec() == d;
        assert(bag.contains_key(d));
    }
}

} // verus!
