use commit_graph::debugstore::{aliases, doc, synopsis};
use commit_graph::frontier::ChangesetFrontier;
use commit_graph::memory::InMemoryCommitGraphStorage;
use commit_graph::order::{insert_sorted, sort_changeset_ids};
use commit_graph::storage::CommitGraphStorage;
use commit_graph::traversal::CommitGraph;
use commit_graph::types::{
    ChangesetEdges, ChangesetId, ChangesetNode, CommitGraphError, Generation, Prefetch,
};

fn id(n: u8) -> ChangesetId {
    ChangesetId::from_bytes([n; 32])
}

fn node(n: u8, generation: u64) -> ChangesetNode {
    ChangesetNode::new(id(n), Generation::new(generation))
}

#[test]
fn debugstore_presents_itself() {
    assert_eq!(aliases(), "debugstore");
    assert_eq!(doc(), "print information about blobstore");
    assert_eq!(synopsis(), None);
}

#[test]
fn identifiers_are_ordered_as_their_bytes() {
    let mut low = [0u8; 32];
    let mut high = [0u8; 32];
    low[31] = 200;
    high[0] = 1;
    let low = ChangesetId::from_bytes(low);
    let high = ChangesetId::from_bytes(high);
    assert!(low.precedes(&high));
    assert!(!high.precedes(&low));
    assert!(!low.precedes(&low));
    assert!(low.same_as(&low));
    assert!(!low.same_as(&high));
    assert_eq!(low.precedes(&high), low < high);
    assert_eq!(id(3).precedes(&id(2)), id(3) < id(2));
}

#[test]
fn sorting_orders_and_drops_repetitions() {
    let sorted = sort_changeset_ids(&vec![id(5), id(1), id(3), id(1), id(4)]);
    assert_eq!(sorted, vec![id(1), id(3), id(4), id(5)]);
    let mut list = vec![id(1), id(4)];
    insert_sorted(&mut list, id(2));
    insert_sorted(&mut list, id(4));
    insert_sorted(&mut list, id(9));
    insert_sorted(&mut list, id(0));
    assert_eq!(list, vec![id(0), id(1), id(2), id(4), id(9)]);
}

#[test]
fn frontier_keeps_nodes_by_generation() {
    let mut frontier = ChangesetFrontier::new();
    assert!(frontier.is_empty());
    assert_eq!(frontier.last_generation(), None);
    assert_eq!(frontier.pop_last(), None);
    frontier.insert(node(1, 3));
    frontier.insert(node(2, 5));
    frontier.insert(node(3, 1));
    frontier.insert(node(4, 5));
    frontier.insert(node(2, 5));
    assert!(!frontier.is_empty());
    assert_eq!(frontier.last_generation(), Some(Generation::new(5)));
    assert!(frontier.contains(&node(1, 3)));
    assert!(!frontier.contains(&node(1, 4)));
    assert!(frontier.highest_generation_contains(id(2), Generation::new(5)));
    assert!(!frontier.highest_generation_contains(id(1), Generation::new(3)));
    assert!(!frontier.highest_generation_contains(id(1), Generation::new(5)));
    assert_eq!(frontier.changesets(), vec![id(3), id(1), id(2), id(4)]);
    assert_eq!(
        frontier.changesets_in_range(Generation::new(3), Generation::new(5)),
        vec![id(1)]
    );
    assert_eq!(
        frontier.changesets_in_range(Generation::new(1), Generation::new(6)),
        vec![id(3), id(1), id(2), id(4)]
    );
    assert_eq!(frontier.changesets_from(Generation::new(4)), vec![id(2), id(4)]);
    let (generation, mut top) = frontier.pop_last().unwrap();
    top.sort();
    assert_eq!(generation, Generation::new(5));
    assert_eq!(top, vec![id(2), id(4)]);
    assert_eq!(frontier.last_generation(), Some(Generation::new(3)));
    assert_eq!(frontier.last_node(), Some(node(1, 3)));
}

#[test]
fn frontier_set_operations() {
    let mut left = ChangesetFrontier::new();
    left.extend(&vec![node(1, 4), node(2, 4), node(3, 2)]);
    let mut right = ChangesetFrontier::new();
    right.extend(&vec![node(2, 4), node(5, 4), node(6, 2)]);
    assert_eq!(left.highest_generation_intersection(&right), vec![id(2)]);
    assert!(!left.is_disjoint(&right));
    let mut lower = ChangesetFrontier::new();
    lower.extend(&vec![node(1, 3), node(3, 1)]);
    assert_eq!(left.highest_generation_intersection(&lower), vec![]);
    assert!(left.is_disjoint(&lower));
    assert!(left.is_disjoint(&ChangesetFrontier::new()));
    let copy = left.duplicate();
    assert_eq!(copy.changesets(), left.changesets());
    let flat = left.into_flat();
    assert_eq!(
        flat,
        vec![
            (id(3), Generation::new(2)),
            (id(1), Generation::new(4)),
            (id(2), Generation::new(4))
        ]
    );
    let rebuilt = ChangesetFrontier::from_flat(&flat);
    assert_eq!(rebuilt.changesets(), copy.changesets());
}

#[test]
fn lowering_a_frontier_keeps_what_is_low_enough() {
    let mut graph = CommitGraph::new(InMemoryCommitGraphStorage::new());
    assert_eq!(graph.add(id(1), vec![]), Ok(true));
    for k in 2..=9u8 {
        assert_eq!(graph.add(id(k), vec![id(k - 1)]), Ok(true));
    }
    assert_eq!(graph.add(id(10), vec![id(2)]), Ok(true));
    let mut frontier = graph.frontier(&vec![id(9), id(10)]).unwrap();
    assert_eq!(frontier.last_generation(), Some(Generation::new(9)));
    assert_eq!(graph.lower_frontier(&mut frontier, Generation::new(4)), Ok(()));
    assert_eq!(frontier.changesets(), vec![id(10), id(4)]);
    assert_eq!(graph.lower_frontier(&mut frontier, Generation::new(2)), Ok(()));
    assert_eq!(frontier.changesets(), vec![id(2)]);
    assert_eq!(graph.lower_frontier_highest_generation(&mut frontier), Ok(()));
    assert_eq!(frontier.changesets(), vec![id(1)]);
    assert_eq!(graph.lower_frontier_highest_generation(&mut frontier), Ok(()));
    assert!(frontier.is_empty());
    assert_eq!(graph.lower_frontier_highest_generation(&mut frontier), Ok(()));
    let single = graph.single_frontier(id(7)).unwrap();
    assert_eq!(single.changesets(), vec![id(7)]);
    assert_eq!(graph.single_frontier(id(77)).err(), Some(CommitGraphError::NotFound(id(77))));
}

#[test]
fn storage_keeps_what_was_added() {
    let mut storage = InMemoryCommitGraphStorage::new();
    let root = ChangesetEdges {
        node: node(1, 1),
        parents: vec![],
        skip_tree_skew_ancestor: None,
    };
    let child = ChangesetEdges {
        node: node(2, 2),
        parents: vec![node(1, 1)],
        skip_tree_skew_ancestor: Some(node(1, 1)),
    };
    assert_eq!(storage.add(child.duplicate()), Err(CommitGraphError::NotFound(id(1))));
    assert_eq!(storage.add(root.duplicate()), Ok(true));
    assert_eq!(storage.add(root.duplicate()), Ok(false));
    assert_eq!(storage.add(child.duplicate()), Ok(true));
    assert_eq!(storage.len(), 2);
    assert_eq!(storage.fetch_edges(id(2)), Ok(Some(child.duplicate())));
    assert_eq!(storage.fetch_edges(id(3)), Ok(None));
    assert_eq!(
        storage.fetch_many_edges(&vec![id(2), id(3), id(1)], Prefetch::NoHint),
        Ok(vec![Some(child), None, Some(root)])
    );
    assert_eq!(storage.fetch_children(id(1)), Ok(vec![id(2)]));
}

#[test]
fn built_edges_point_to_skew_ancestors() {
    let mut graph = CommitGraph::new(InMemoryCommitGraphStorage::new());
    assert_eq!(graph.add(id(1), vec![]), Ok(true));
    for k in 2..=8u8 {
        assert_eq!(graph.add(id(k), vec![id(k - 1)]), Ok(true));
    }
    let skew = |k: u8| graph.fetch_edges_required(id(k)).unwrap().skip_tree_skew_ancestor;
    assert_eq!(skew(1), None);
    assert_eq!(skew(2), Some(node(1, 1)));
    assert_eq!(skew(3), Some(node(2, 2)));
    assert_eq!(skew(4), Some(node(1, 1)));
    assert_eq!(skew(5), Some(node(4, 4)));
    assert_eq!(skew(6), Some(node(5, 5)));
    assert_eq!(skew(7), Some(node(4, 4)));
    assert_eq!(skew(8), Some(node(1, 1)));
    assert_eq!(graph.add(id(9), vec![id(8), id(3)]), Ok(true));
    let merge = graph.fetch_edges_required(id(9)).unwrap();
    assert_eq!(merge.skip_tree_skew_ancestor, None);
    assert_eq!(merge.node, node(9, 9));
    assert_eq!(merge.parents, vec![node(8, 8), node(3, 3)]);
    assert_eq!(
        graph.fetch_many_edges_required(&vec![id(1), id(42)], Prefetch::NoHint).err(),
        Some(CommitGraphError::NotFound(id(42)))
    );
}
