use ranked_stream::criterion::RankingRule;
use ranked_stream::matching::{Document, Match};
use ranked_stream::rank::{rank_window, RankedStreamBuilder};
use ranked_stream::stream::{Automaton, ConstantAutomaton, DocIndex, ExactAutomaton, IndexedValue, StreamEntry};

fn m(query_index: u32, distance: u8, attribute: u16, attribute_index: u32, is_exact: bool) -> Match {
    Match { query_index, distance, attribute, attribute_index, is_exact }
}

fn doc_with_matches(id: u64, n: usize) -> Document {
    let mut ms = Vec::new();
    for i in 0..n {
        ms.push(m(0, 1, 0, i as u32, false));
    }
    Document::from_matches(id, ms)
}

fn entry(string: &[u8], values: Vec<IndexedValue>) -> StreamEntry {
    StreamEntry { string: string.to_vec(), values }
}

fn occ(index: usize, locations: Vec<(u64, u16, u32)>) -> IndexedValue {
    IndexedValue {
        index,
        doc_indexes: locations
            .into_iter()
            .map(|(document, attribute, attribute_index)| DocIndex {
                document,
                attribute,
                attribute_index,
            })
            .collect(),
    }
}

/// An empty window returns nothing and sorts nothing at all.
#[test]
fn empty_range_sorts_nothing() {
    let docs = vec![doc_with_matches(1, 3), doc_with_matches(2, 1), doc_with_matches(3, 2)];
    let criteria = vec![RankingRule::WordCount];
    let (out, sorts) = rank_window(docs, &criteria, 0, 0);
    assert!(out.is_empty());
    assert_eq!(sorts, 0);
}

/// A window starting past the last document returns nothing, without error.
#[test]
fn range_beyond_documents_is_empty() {
    let docs = vec![doc_with_matches(1, 3), doc_with_matches(2, 1)];
    let criteria = vec![RankingRule::WordCount];
    let (out, sorts) = rank_window(docs, &criteria, 10, 20);
    assert!(out.is_empty());
    assert_eq!(sorts, 0);
}

/// One criterion, five documents ranked `[3, 1, 4, 1, 5]`, window `[1, 3)`:
/// the result is positions 1 and 2 of the fully sorted `[1, 1, 3, 4, 5]`.
#[test]
fn window_of_partially_sorted_documents() {
    let docs: Vec<Document> = [3u64, 1, 4, 1, 5]
        .iter()
        .map(|&id| Document::from_matches(id, vec![m(0, 0, 0, 0, true)]))
        .collect();
    let criteria = vec![RankingRule::DocumentId];
    let (out, _) = rank_window(docs, &criteria, 1, 3);
    let ids: Vec<u64> = out.iter().map(|d| d.id()).collect();
    assert_eq!(ids, vec![1, 3]);
}

/// The lazy ranking equals a full sort followed by slicing, for every range.
#[test]
fn every_window_matches_the_full_sort() {
    let counts = [4usize, 1, 7, 2, 2, 9, 1, 5];
    let full: Vec<u64> = {
        let docs: Vec<Document> = counts
            .iter()
            .enumerate()
            .map(|(id, &n)| doc_with_matches(id as u64, n))
            .collect();
        let criteria = vec![RankingRule::WordCount, RankingRule::DocumentId];
        let (out, _) = rank_window(docs, &criteria, 0, counts.len());
        out.iter().map(|d| d.id()).collect()
    };
    // More matches first, ties by ascending identifier.
    assert_eq!(full, vec![5, 2, 7, 0, 3, 4, 1, 6]);
    for start in 0..counts.len() + 2 {
        for end in start..counts.len() + 2 {
            let docs: Vec<Document> = counts
                .iter()
                .enumerate()
                .map(|(id, &n)| doc_with_matches(id as u64, n))
                .collect();
            let criteria = vec![RankingRule::WordCount, RankingRule::DocumentId];
            let (out, _) = rank_window(docs, &criteria, start, end);
            let ids: Vec<u64> = out.iter().map(|d| d.id()).collect();
            let lo = start.min(full.len());
            let hi = end.min(full.len()).max(lo);
            assert_eq!(ids, full[lo..hi].to_vec(), "window [{start}, {end})");
        }
    }
}

/// Documents are built sorted whatever order their matches arrive in.
#[test]
fn constructed_documents_are_sorted() {
    let unsorted = vec![
        m(2, 1, 0, 9, false),
        m(0, 3, 1, 4, false),
        m(0, 0, 0, 2, true),
        m(1, 2, 5, 0, false),
        m(0, 0, 0, 1, true),
    ];
    let doc = Document::from_matches(42, unsorted);
    let ms = doc.matches();
    for w in ms.windows(2) {
        let key = |x: &Match| (x.query_index, x.distance, x.attribute, x.attribute_index, x.is_exact);
        assert!(key(&w[0]) <= key(&w[1]));
    }
    assert_eq!(ms.len(), 5);
}

/// A stream entry matching one document under two automatons yields one
/// document holding both matches, tagged by their query indexes.
#[test]
fn two_automatons_one_document() {
    let automatons = vec![
        ExactAutomaton { query: b"rust".to_vec() },
        ExactAutomaton { query: b"rust".to_vec() },
    ];
    let entries = vec![entry(b"rust", vec![occ(0, vec![(7, 0, 1)]), occ(1, vec![(7, 2, 5)])])];
    let mut builder = RankedStreamBuilder::new(entries, automatons);
    builder.criteria(vec![RankingRule::WordCount]);
    let stream = builder.build();
    let out = stream.retrieve_documents(0..10);
    assert_eq!(out.len(), 1);
    assert_eq!(out[0].id(), 7);
    let ms = out[0].matches();
    assert_eq!(ms.len(), 2);
    assert_eq!(ms[0].query_index, 0);
    assert_eq!(ms[1].query_index, 1);
    assert!(ms[0].is_exact && ms[1].is_exact);
}

/// An empty automaton set gives an empty document sequence.
#[test]
fn empty_automaton_set_is_empty() {
    let automatons: Vec<ExactAutomaton> = Vec::new();
    let entries: Vec<StreamEntry> = Vec::new();
    let mut builder = RankedStreamBuilder::new(entries, automatons);
    builder.criteria(vec![RankingRule::WordCount]);
    let stream = builder.build();
    let out = stream.retrieve_documents(0..10);
    assert!(out.is_empty());
}

/// A match is exact exactly when the distance is zero and the matched
/// string is as long as the query term.
#[test]
fn exactness_needs_equal_lengths() {
    let automatons = vec![ConstantAutomaton { distance: 0, query_len: 2 }];
    let entries = vec![
        entry(b"ab", vec![occ(0, vec![(1, 0, 0)])]),
        entry(b"abcd", vec![occ(0, vec![(2, 0, 0)])]),
    ];
    let mut builder = RankedStreamBuilder::new(entries, automatons);
    builder.criteria(vec![RankingRule::Exactness]);
    let stream = builder.build();
    let out = stream.retrieve_documents(0..10);
    assert_eq!(out.len(), 2);
    for d in &out {
        let ms = d.matches();
        assert_eq!(ms.len(), 1);
        assert_eq!(ms[0].distance, 0);
        if d.id() == 1 {
            assert!(ms[0].is_exact, "equal lengths and zero distance must be exact");
        } else {
            assert!(!ms[0].is_exact, "longer string must not be exact despite zero distance");
        }
    }
}

/// Zero distance on the query itself is exact; any other string is not.
#[test]
fn exact_automaton_distances() {
    let a = ExactAutomaton { query: b"word".to_vec() };
    assert_eq!(a.eval(&b"word".to_vec()), 0);
    assert_eq!(a.eval(&b"sword".to_vec()), 1);
    assert_eq!(a.query_len(), 4);
}

/// Collecting the same stream twice yields the same documents: the same
/// identifiers, each with the same match list.
#[test]
fn assembly_is_idempotent() {
    let automatons = || {
        vec![
            ExactAutomaton { query: b"one".to_vec() },
            ExactAutomaton { query: b"two".to_vec() },
        ]
    };
    let entries = || {
        vec![
            entry(b"one", vec![occ(0, vec![(3, 0, 0), (1, 1, 2), (3, 2, 4)])]),
            entry(b"two", vec![occ(1, vec![(1, 0, 7), (2, 0, 0)])]),
        ]
    };
    let run = || {
        let mut builder = RankedStreamBuilder::new(entries(), automatons());
        builder.criteria(vec![RankingRule::DocumentId]);
        let stream = builder.build();
        let mut out = stream.retrieve_documents(0..100);
        out.sort_by_key(|d| d.id());
        out
    };
    let first = run();
    let second = run();
    assert_eq!(first.len(), second.len());
    for (a, b) in first.iter().zip(second.iter()) {
        assert_eq!(a.id(), b.id());
        assert_eq!(a.matches(), b.matches());
    }
}

/// Zero criteria leave the arrival order, clamped to the window.
#[test]
fn no_criteria_keeps_order() {
    let docs = vec![doc_with_matches(9, 1), doc_with_matches(4, 2), doc_with_matches(6, 3)];
    let criteria: Vec<RankingRule> = Vec::new();
    let (out, sorts) = rank_window(docs, &criteria, 1, 5);
    let ids: Vec<u64> = out.iter().map(|d| d.id()).collect();
    assert_eq!(ids, vec![4, 6]);
    assert_eq!(sorts, 0);
}
