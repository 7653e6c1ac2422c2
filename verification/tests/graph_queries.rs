use commit_graph::memory::InMemoryCommitGraphStorage;
use commit_graph::traversal::{next_generation, CommitGraph};
use commit_graph::types::{
    ChangesetId, ChangesetIdPrefix, ChangesetIdsResolvedFromPrefix, CommitGraphError, Generation,
};

fn id(n: u8) -> ChangesetId {
    ChangesetId::from_bytes([n; 32])
}

fn graph_of(edges: &[(u8, &[u8])]) -> CommitGraph<InMemoryCommitGraphStorage> {
    let mut graph = CommitGraph::new(InMemoryCommitGraphStorage::new());
    for (cs, parents) in edges {
        let parents: Vec<ChangesetId> = parents.iter().map(|p| id(*p)).collect();
        assert_eq!(graph.add(id(*cs), parents), Ok(true));
    }
    graph
}

const A: u8 = 1;
const B: u8 = 2;
const C: u8 = 3;
const D: u8 = 4;
const E: u8 = 5;
const F: u8 = 6;

fn chain() -> CommitGraph<InMemoryCommitGraphStorage> {
    graph_of(&[(A, &[]), (B, &[A]), (C, &[B]), (D, &[C])])
}

fn diamond() -> CommitGraph<InMemoryCommitGraphStorage> {
    graph_of(&[(A, &[]), (B, &[A]), (C, &[A]), (D, &[B, C])])
}

fn long_chain(n: u8) -> CommitGraph<InMemoryCommitGraphStorage> {
    let mut graph = CommitGraph::new(InMemoryCommitGraphStorage::new());
    assert_eq!(graph.add(id(1), vec![]), Ok(true));
    for k in 2..=n {
        assert_eq!(graph.add(id(k), vec![id(k - 1)]), Ok(true));
    }
    graph
}

#[test]
fn linear_chain_scenario() {
    let graph = chain();
    assert_eq!(graph.is_ancestor(id(A), id(D)), Ok(true));
    assert_eq!(graph.changeset_generation(id(D)), Ok(Some(Generation::new(4))));
    assert_eq!(graph.common_base(id(B), id(D)), Ok(vec![id(B)]));
    assert_eq!(graph.ancestors_difference(vec![id(D)], vec![id(B)]), Ok(vec![id(D), id(C)]));
}

#[test]
fn diamond_scenario() {
    let graph = diamond();
    assert_eq!(graph.common_base(id(B), id(C)), Ok(vec![id(A)]));
    assert_eq!(graph.changeset_parents(id(D)), Ok(Some(vec![id(B), id(C)])));
}

#[test]
fn every_changeset_is_its_own_ancestor() {
    let graph = diamond();
    for c in [A, B, C, D] {
        assert_eq!(graph.is_ancestor(id(c), id(c)), Ok(true));
    }
}

#[test]
fn parents_are_ancestors_and_generation_follows_them() {
    let graph = graph_of(&[(A, &[]), (B, &[A]), (C, &[B]), (D, &[A]), (E, &[C, D])]);
    for p in [C, D] {
        assert_eq!(graph.is_ancestor(id(p), id(E)), Ok(true));
    }
    assert_eq!(graph.changeset_generation(id(A)), Ok(Some(Generation::new(1))));
    assert_eq!(graph.changeset_generation(id(C)), Ok(Some(Generation::new(3))));
    assert_eq!(graph.changeset_generation(id(D)), Ok(Some(Generation::new(2))));
    assert_eq!(graph.changeset_generation(id(E)), Ok(Some(Generation::new(4))));
    assert_eq!(graph.changeset_generation_required(id(E)), Ok(Generation::new(4)));
}

#[test]
fn descendants_are_no_ancestors() {
    let graph = chain();
    assert_eq!(graph.is_ancestor(id(D), id(A)), Ok(false));
    assert_eq!(graph.is_ancestor(id(C), id(B)), Ok(false));
    let graph = diamond();
    assert_eq!(graph.is_ancestor(id(B), id(C)), Ok(false));
    assert_eq!(graph.is_ancestor(id(A), id(D)), Ok(true));
}

#[test]
fn ancestry_over_a_long_chain_uses_skip_pointers() {
    let graph = long_chain(200);
    assert_eq!(graph.is_ancestor(id(1), id(200)), Ok(true));
    assert_eq!(graph.is_ancestor(id(37), id(200)), Ok(true));
    assert_eq!(graph.is_ancestor(id(200), id(37)), Ok(false));
    assert_eq!(graph.changeset_generation(id(200)), Ok(Some(Generation::new(200))));
    assert_eq!(graph.common_base(id(150), id(90)), Ok(vec![id(90)]));
}

#[test]
fn common_base_is_symmetric() {
    let graph = graph_of(&[
        (A, &[]),
        (B, &[A]),
        (C, &[A]),
        (D, &[B, C]),
        (E, &[B, C]),
        (F, &[E]),
    ]);
    for (u, v) in [(D, F), (B, C), (D, E), (A, F), (F, F)] {
        assert_eq!(graph.common_base(id(u), id(v)), graph.common_base(id(v), id(u)));
    }
    assert_eq!(graph.common_base(id(D), id(F)), Ok(vec![id(B), id(C)]));
    assert_eq!(graph.common_base(id(D), id(E)), Ok(vec![id(B), id(C)]));
    assert_eq!(graph.common_base(id(F), id(F)), Ok(vec![id(F)]));
}

#[test]
fn common_base_members_are_common_ancestors() {
    let graph = graph_of(&[
        (A, &[]),
        (B, &[A]),
        (C, &[A]),
        (D, &[B, C]),
        (E, &[B, C]),
        (F, &[E]),
    ]);
    let bases = graph.common_base(id(D), id(F)).unwrap();
    for base in &bases {
        assert_eq!(graph.is_ancestor(*base, id(D)), Ok(true));
        assert_eq!(graph.is_ancestor(*base, id(F)), Ok(true));
    }
    for other in [D, E, F] {
        let both = graph.is_ancestor(id(other), id(D)).unwrap()
            && graph.is_ancestor(id(other), id(F)).unwrap();
        assert!(!both);
    }
}

#[test]
fn common_base_of_unrelated_histories_is_empty() {
    let graph = graph_of(&[(A, &[]), (B, &[A]), (C, &[]), (D, &[C])]);
    assert_eq!(graph.common_base(id(B), id(D)), Ok(vec![]));
    assert_eq!(graph.common_base(id(A), id(C)), Ok(vec![]));
}

#[test]
fn common_base_near_a_merge_falls_back_to_single_steps() {
    // 1 <- 2 <- ... <- 20, with 21 a child of 10, and 22 merging 20 and 21.
    let mut graph = long_chain(20);
    assert_eq!(graph.add(id(21), vec![id(10)]), Ok(true));
    assert_eq!(graph.add(id(22), vec![id(20), id(21)]), Ok(true));
    assert_eq!(graph.add(id(23), vec![id(21)]), Ok(true));
    assert_eq!(graph.common_base(id(22), id(23)), Ok(vec![id(21)]));
    assert_eq!(graph.common_base(id(20), id(23)), Ok(vec![id(10)]));
    assert_eq!(graph.common_base(id(15), id(21)), Ok(vec![id(10)]));
}

#[test]
fn add_is_idempotent() {
    let mut graph = chain();
    assert_eq!(graph.add(id(D), vec![id(C)]), Ok(false));
    assert_eq!(graph.add(id(D), vec![id(A)]), Ok(false));
    assert_eq!(graph.changeset_parents(id(D)), Ok(Some(vec![id(C)])));
    assert_eq!(graph.changeset_generation(id(D)), Ok(Some(Generation::new(4))));
}

#[test]
fn add_needs_every_parent() {
    let mut graph = chain();
    assert_eq!(graph.add(id(E), vec![id(D), id(F)]), Err(CommitGraphError::NotFound(id(F))));
    assert_eq!(graph.changeset_exists(id(E)), Ok(false));
}

#[test]
fn generation_that_does_not_fit_is_an_invariant_violation() {
    assert_eq!(next_generation(id(A), 0), Ok(Generation::new(1)));
    assert_eq!(next_generation(id(A), 41), Ok(Generation::new(42)));
    assert_eq!(
        next_generation(id(A), u64::MAX),
        Err(CommitGraphError::InvariantViolation(id(A)))
    );
}

#[test]
fn existence_parents_generation_of_unknown_changesets() {
    let graph = chain();
    assert_eq!(graph.changeset_exists(id(A)), Ok(true));
    assert_eq!(graph.changeset_exists(id(F)), Ok(false));
    assert_eq!(graph.changeset_parents(id(F)), Ok(None));
    assert_eq!(graph.changeset_generation(id(F)), Ok(None));
    assert_eq!(graph.changeset_parents(id(A)), Ok(Some(vec![])));
    assert_eq!(graph.changeset_parents_required(id(B)), Ok(vec![id(A)]));
    assert_eq!(graph.changeset_parents_required(id(F)), Err(CommitGraphError::NotFound(id(F))));
    assert_eq!(
        graph.changeset_generation_required(id(F)),
        Err(CommitGraphError::NotFound(id(F)))
    );
}

#[test]
fn queries_on_unknown_changesets_fail() {
    let graph = chain();
    assert_eq!(graph.is_ancestor(id(A), id(F)), Err(CommitGraphError::NotFound(id(F))));
    assert_eq!(graph.is_ancestor(id(F), id(A)), Err(CommitGraphError::NotFound(id(F))));
    assert_eq!(graph.common_base(id(F), id(A)), Err(CommitGraphError::NotFound(id(F))));
    assert_eq!(graph.common_base(id(A), id(F)), Err(CommitGraphError::NotFound(id(F))));
    assert_eq!(
        graph.ancestors_difference(vec![id(D), id(F)], vec![]),
        Err(CommitGraphError::NotFound(id(F)))
    );
    assert_eq!(
        graph.ancestors_difference(vec![id(D)], vec![id(F)]),
        Err(CommitGraphError::NotFound(id(F)))
    );
    assert_eq!(graph.range_stream(id(F), id(D)), Err(CommitGraphError::NotFound(id(F))));
    assert_eq!(graph.range_stream(id(A), id(F)), Err(CommitGraphError::NotFound(id(F))));
}

#[test]
fn children_are_the_changesets_that_name_the_parent() {
    let graph = diamond();
    let mut children = graph.changeset_children(id(A)).unwrap();
    children.sort();
    assert_eq!(children, vec![id(B), id(C)]);
    assert_eq!(graph.changeset_children(id(B)), Ok(vec![id(D)]));
    assert_eq!(graph.changeset_children(id(D)), Ok(vec![]));
}

fn named(first: u8, second: u8) -> ChangesetId {
    let mut bytes = [0u8; 32];
    bytes[0] = first;
    bytes[1] = second;
    ChangesetId::from_bytes(bytes)
}

#[test]
fn prefixes_resolve_to_the_changesets_that_start_with_them() {
    let mut graph = CommitGraph::new(InMemoryCommitGraphStorage::new());
    for (a, b) in [(1, 1), (1, 2), (1, 3), (2, 1)] {
        assert_eq!(graph.add(named(a, b), vec![]), Ok(true));
    }
    let prefix = |bytes: &[u8]| ChangesetIdPrefix::from_bytes(bytes.to_vec());
    assert_eq!(
        graph.find_by_prefix(&prefix(&[3]), 10),
        Ok(ChangesetIdsResolvedFromPrefix::NoMatch)
    );
    assert_eq!(
        graph.find_by_prefix(&prefix(&[2]), 10),
        Ok(ChangesetIdsResolvedFromPrefix::Single(named(2, 1)))
    );
    assert_eq!(
        graph.find_by_prefix(&prefix(&[1, 2]), 10),
        Ok(ChangesetIdsResolvedFromPrefix::Single(named(1, 2)))
    );
    assert_eq!(
        graph.find_by_prefix(&prefix(&[1]), 10),
        Ok(ChangesetIdsResolvedFromPrefix::Multiple(vec![named(1, 1), named(1, 2), named(1, 3)]))
    );
    assert_eq!(
        graph.find_by_prefix(&prefix(&[1]), 2),
        Ok(ChangesetIdsResolvedFromPrefix::TooMany(vec![named(1, 1), named(1, 2)]))
    );
    assert_eq!(
        graph.find_by_prefix(&prefix(&[]), 4),
        Ok(ChangesetIdsResolvedFromPrefix::Multiple(vec![
            named(1, 1),
            named(1, 2),
            named(1, 3),
            named(2, 1)
        ]))
    );
    assert_eq!(
        graph.find_by_prefix(&prefix(&[0; 33]), 4),
        Ok(ChangesetIdsResolvedFromPrefix::NoMatch)
    );
}
