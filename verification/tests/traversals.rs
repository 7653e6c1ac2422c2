use commit_graph::ancestors_stream::AncestorsStreamBuilder;
use commit_graph::memory::InMemoryCommitGraphStorage;
use commit_graph::traversal::CommitGraph;
use commit_graph::types::{ChangesetId, CommitGraphError};

fn id(n: u8) -> ChangesetId {
    ChangesetId::from_bytes([n; 32])
}

fn ids(ns: &[u8]) -> Vec<ChangesetId> {
    ns.iter().map(|n| id(*n)).collect()
}

fn graph_of(edges: &[(u8, &[u8])]) -> CommitGraph<InMemoryCommitGraphStorage> {
    let mut graph = CommitGraph::new(InMemoryCommitGraphStorage::new());
    for (cs, parents) in edges {
        assert_eq!(graph.add(id(*cs), ids(parents)), Ok(true));
    }
    graph
}

fn long_chain(n: u8) -> CommitGraph<InMemoryCommitGraphStorage> {
    let mut graph = CommitGraph::new(InMemoryCommitGraphStorage::new());
    assert_eq!(graph.add(id(1), vec![]), Ok(true));
    for k in 2..=n {
        assert_eq!(graph.add(id(k), vec![id(k - 1)]), Ok(true));
    }
    graph
}

// 1 <- 2 <- 3 <- 6, 1 <- 4 <- 5 <- 6, 6 <- 7, 5 <- 8
fn merged() -> CommitGraph<InMemoryCommitGraphStorage> {
    graph_of(&[
        (1, &[]),
        (2, &[1]),
        (3, &[2]),
        (4, &[1]),
        (5, &[4]),
        (6, &[3, 5]),
        (7, &[6]),
        (8, &[5]),
    ])
}

fn sorted(mut v: Vec<ChangesetId>) -> Vec<ChangesetId> {
    v.sort();
    v
}

#[test]
fn difference_gives_each_changeset_once_children_first() {
    let graph = merged();
    let out = graph.ancestors_difference(ids(&[7, 8]), ids(&[2])).unwrap();
    assert_eq!(sorted(out.clone()), ids(&[3, 4, 5, 6, 7, 8]));
    for (i, x) in out.iter().enumerate() {
        for y in &out[i + 1..] {
            assert_ne!(x, y);
            assert_eq!(graph.is_ancestor(*x, *y), Ok(false));
        }
        assert_eq!(graph.is_ancestor(*x, id(2)), Ok(false));
    }
    assert_eq!(out[0], id(7));
    assert_eq!(sorted(out[1..3].to_vec()), ids(&[6, 8]));
}

#[test]
fn difference_without_common_gives_all_ancestors() {
    let graph = merged();
    let out = graph.ancestors_difference(ids(&[6]), vec![]).unwrap();
    assert_eq!(sorted(out), ids(&[1, 2, 3, 4, 5, 6]));
    let out = graph.ancestors_difference(ids(&[3, 3]), vec![]).unwrap();
    assert_eq!(out, ids(&[3, 2, 1]));
}

#[test]
fn difference_with_common_above_heads_is_empty() {
    let graph = merged();
    assert_eq!(graph.ancestors_difference(ids(&[3, 5]), ids(&[7])), Ok(vec![]));
    assert_eq!(graph.ancestors_difference(vec![], ids(&[7])), Ok(vec![]));
    assert_eq!(graph.ancestors_difference(vec![], vec![]), Ok(vec![]));
}

#[test]
fn stream_hands_out_one_changeset_at_a_time() {
    let graph = long_chain(5);
    let mut stream = graph.ancestors_difference_stream(ids(&[5]), ids(&[2])).unwrap();
    assert_eq!(stream.next(&graph), Ok(Some(id(5))));
    assert_eq!(stream.next(&graph), Ok(Some(id(4))));
    assert_eq!(stream.try_collect(&graph), Ok(ids(&[3])));
    assert_eq!(stream.next(&graph), Ok(None));
    assert_eq!(stream.next(&graph), Ok(None));
}

#[test]
fn builder_restricts_to_descendants() {
    let graph = merged();
    let mut stream = AncestorsStreamBuilder::new(ids(&[7]))
        .descendants_of(id(4))
        .build(&graph)
        .unwrap();
    assert_eq!(stream.try_collect(&graph), Ok(ids(&[7, 6, 5, 4])));
    let mut stream = AncestorsStreamBuilder::new(ids(&[7]))
        .exclude_ancestors_of(ids(&[5]))
        .descendants_of(id(2))
        .build(&graph)
        .unwrap();
    assert_eq!(stream.try_collect(&graph), Ok(ids(&[7, 6, 3, 2])));
    let missing = AncestorsStreamBuilder::new(ids(&[7])).descendants_of(id(9)).build(&graph);
    assert_eq!(missing.err(), Some(CommitGraphError::NotFound(id(9))));
}

#[test]
fn range_of_a_changeset_to_itself_is_that_changeset() {
    let graph = merged();
    for c in 1..=8u8 {
        assert_eq!(graph.range_stream(id(c), id(c)), Ok(vec![id(c)]));
    }
}

#[test]
fn range_is_empty_where_start_is_no_ancestor_of_end() {
    let graph = merged();
    assert_eq!(graph.range_stream(id(7), id(1)), Ok(vec![]));
    assert_eq!(graph.range_stream(id(2), id(5)), Ok(vec![]));
    assert_eq!(graph.range_stream(id(8), id(7)), Ok(vec![]));
}

#[test]
fn range_goes_from_start_up_to_end() {
    let graph = merged();
    assert_eq!(graph.range_stream(id(4), id(7)), Ok(ids(&[4, 5, 6, 7])));
    assert_eq!(graph.range_stream(id(2), id(6)), Ok(ids(&[2, 3, 6])));
    let all = graph.range_stream(id(1), id(7)).unwrap();
    assert_eq!(all.first(), Some(&id(1)));
    assert_eq!(all.last(), Some(&id(7)));
    assert_eq!(sorted(all), ids(&[1, 2, 3, 4, 5, 6, 7]));
    let chain = long_chain(50);
    let range = chain.range_stream(id(10), id(20)).unwrap();
    assert_eq!(range, (10..=20u8).map(id).collect::<Vec<_>>());
}

fn keep_all(asked: Vec<ChangesetId>) -> Result<Vec<ChangesetId>, CommitGraphError> {
    Ok(asked)
}

#[test]
fn slices_of_a_chain_start_one_above_multiples_of_the_size() {
    let graph = long_chain(10);
    let slices = graph.slice_ancestors(ids(&[10]), keep_all, 3).unwrap();
    assert_eq!(
        slices,
        vec![(1, ids(&[3])), (4, ids(&[6])), (7, ids(&[9])), (10, ids(&[10]))]
    );
    let slices = graph.slice_ancestors(ids(&[9]), keep_all, 3).unwrap();
    assert_eq!(slices, vec![(1, ids(&[3])), (4, ids(&[6])), (7, ids(&[9]))]);
    let slices = graph.slice_ancestors(ids(&[4]), keep_all, 10).unwrap();
    assert_eq!(slices, vec![(1, ids(&[4]))]);
    let slices = graph.slice_ancestors(ids(&[3]), keep_all, 1).unwrap();
    assert_eq!(slices, vec![(1, ids(&[1])), (2, ids(&[2])), (3, ids(&[3]))]);
}

#[test]
fn slices_cover_every_ancestor_without_repeating_any() {
    let graph = merged();
    let slices = graph.slice_ancestors(ids(&[7, 8]), keep_all, 2).unwrap();
    let starts: Vec<u64> = slices.iter().map(|s| s.0).collect();
    assert_eq!(starts, vec![1, 3, 5]);
    let mut seen: Vec<ChangesetId> = Vec::new();
    for (start, band) in &slices {
        for c in band {
            assert!(!seen.contains(c));
            seen.push(*c);
            let generation = graph.changeset_generation_required(*c).unwrap().value();
            assert!(*start <= generation && generation < *start + 2);
        }
    }
    for x in 1..=8u8 {
        let generation = graph.changeset_generation_required(id(x)).unwrap().value();
        let band = slices.iter().find(|s| s.0 <= generation && generation < s.0 + 2).unwrap();
        assert!(band.1.iter().any(|c| graph.is_ancestor(id(x), *c) == Ok(true)));
    }
    assert_eq!(sorted(slices[2].1.clone()), ids(&[7]));
    assert_eq!(sorted(slices[1].1.clone()), ids(&[6, 8]));
    assert_eq!(sorted(slices[0].1.clone()), ids(&[2, 4]));
}

#[test]
fn slicing_stops_at_what_is_processed() {
    let graph = long_chain(10);
    let above_four = |asked: Vec<ChangesetId>| -> Result<Vec<ChangesetId>, CommitGraphError> {
        Ok(asked.into_iter().filter(|c| *c > id(4)).collect())
    };
    let slices = graph.slice_ancestors(ids(&[10]), above_four, 3).unwrap();
    assert_eq!(slices, vec![(4, ids(&[6])), (7, ids(&[9])), (10, ids(&[10]))]);
    let nothing = |_: Vec<ChangesetId>| -> Result<Vec<ChangesetId>, CommitGraphError> {
        Ok(vec![])
    };
    assert_eq!(graph.slice_ancestors(ids(&[10]), nothing, 3), Ok(vec![]));
    assert_eq!(graph.slice_ancestors(vec![], keep_all, 3), Ok(vec![]));
}

#[test]
fn slicing_hands_on_the_error_of_the_predicate() {
    let graph = long_chain(10);
    let broken = |_: Vec<ChangesetId>| -> Result<Vec<ChangesetId>, CommitGraphError> {
        Err(CommitGraphError::StorageFailure("index is down".to_string()))
    };
    assert_eq!(
        graph.slice_ancestors(ids(&[10]), broken, 3),
        Err(CommitGraphError::StorageFailure("index is down".to_string()))
    );
    assert_eq!(
        graph.slice_ancestors(ids(&[11]), keep_all, 3),
        Err(CommitGraphError::NotFound(id(11)))
    );
}

#[test]
fn frontier_with_finds_where_the_property_starts_to_hold() {
    let graph = merged();
    let at_most_four = |c: ChangesetId| -> Result<bool, CommitGraphError> { Ok(c <= id(4)) };
    let found = graph.ancestors_frontier_with(ids(&[7]), at_most_four).unwrap();
    assert_eq!(sorted(found), ids(&[3, 4]));
    let always = |_: ChangesetId| -> Result<bool, CommitGraphError> { Ok(true) };
    assert_eq!(graph.ancestors_frontier_with(ids(&[7, 8]), always), Ok(ids(&[7, 8])));
    let never = |_: ChangesetId| -> Result<bool, CommitGraphError> { Ok(false) };
    assert_eq!(graph.ancestors_frontier_with(ids(&[7, 8]), never), Ok(vec![]));
    let chain = long_chain(30);
    let below_ten = |c: ChangesetId| -> Result<bool, CommitGraphError> { Ok(c < id(10)) };
    assert_eq!(chain.ancestors_frontier_with(ids(&[30]), below_ten), Ok(ids(&[9])));
}

#[test]
fn frontier_with_hands_on_errors() {
    let graph = merged();
    let broken = |_: ChangesetId| -> Result<bool, CommitGraphError> {
        Err(CommitGraphError::StorageFailure("lookup failed".to_string()))
    };
    assert_eq!(
        graph.ancestors_frontier_with(ids(&[7]), broken),
        Err(CommitGraphError::StorageFailure("lookup failed".to_string()))
    );
    let always = |_: ChangesetId| -> Result<bool, CommitGraphError> { Ok(true) };
    assert_eq!(
        graph.ancestors_frontier_with(ids(&[9]), always),
        Err(CommitGraphError::NotFound(id(9)))
    );
}
