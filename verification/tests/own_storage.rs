use commit_graph::storage::CommitGraphStorage;
use commit_graph::traversal::CommitGraph;
use commit_graph::types::{
    ChangesetEdges, ChangesetId, ChangesetIdPrefix, ChangesetIdsResolvedFromPrefix,
    CommitGraphError, EdgesView, Prefetch,
};

/// A storage that holds nothing and fails from a given request on.
struct Flaky {
    good_requests: std::cell::Cell<usize>,
}

impl Flaky {
    fn answer<T>(&self, value: T) -> Result<T, CommitGraphError> {
        if self.good_requests.get() == 0 {
            Err(CommitGraphError::StorageFailure("backend unreachable".to_string()))
        } else {
            self.good_requests.set(self.good_requests.get() - 1);
            Ok(value)
        }
    }
}

impl CommitGraphStorage for Flaky {
    fn graph(&self) -> vstd::map::Map<ChangesetId, EdgesView> {
        unreachable!()
    }

    fn reliable(&self) -> bool {
        false
    }

    fn wf(&self) -> bool {
        true
    }

    fn fetch_edges(
        &self,
        _cs_id: ChangesetId,
    ) -> Result<Option<ChangesetEdges>, CommitGraphError> {
        self.answer(None)
    }

    fn fetch_many_edges(
        &self,
        cs_ids: &Vec<ChangesetId>,
        _prefetch: Prefetch,
    ) -> Result<Vec<Option<ChangesetEdges>>, CommitGraphError> {
        self.answer(cs_ids.iter().map(|_| None).collect())
    }

    fn add(&mut self, _edges: ChangesetEdges) -> Result<bool, CommitGraphError> {
        Err(CommitGraphError::StorageFailure("backend is read-only".to_string()))
    }

    fn find_by_prefix(
        &self,
        _prefix: &ChangesetIdPrefix,
        _limit: usize,
    ) -> Result<ChangesetIdsResolvedFromPrefix, CommitGraphError> {
        self.answer(ChangesetIdsResolvedFromPrefix::NoMatch)
    }

    fn fetch_children(&self, _cs_id: ChangesetId) -> Result<Vec<ChangesetId>, CommitGraphError> {
        self.answer(vec![])
    }
}

fn id(n: u8) -> ChangesetId {
    ChangesetId::from_bytes([n; 32])
}

#[test]
fn storage_failures_are_handed_on() {
    let down = CommitGraphError::StorageFailure("backend unreachable".to_string());
    let mut graph = CommitGraph::new(Flaky { good_requests: std::cell::Cell::new(0) });
    assert_eq!(graph.changeset_exists(id(1)), Err(down.clone()));
    assert_eq!(graph.changeset_parents(id(1)), Err(down.clone()));
    assert_eq!(graph.changeset_generation(id(1)), Err(down.clone()));
    assert_eq!(graph.changeset_children(id(1)), Err(down.clone()));
    assert_eq!(graph.is_ancestor(id(1), id(2)), Err(down.clone()));
    assert_eq!(graph.common_base(id(1), id(2)), Err(down.clone()));
    assert_eq!(graph.ancestors_difference(vec![id(1)], vec![]), Err(down.clone()));
    assert_eq!(graph.range_stream(id(1), id(2)), Err(down.clone()));
    assert_eq!(
        graph.find_by_prefix(&ChangesetIdPrefix::from_bytes(vec![1]), 3),
        Err(down.clone())
    );
    assert_eq!(graph.add(id(2), vec![id(1)]), Err(down));
}

#[test]
fn missing_changesets_are_told_from_storage_failures() {
    let mut graph = CommitGraph::new(Flaky { good_requests: std::cell::Cell::new(1) });
    assert_eq!(graph.is_ancestor(id(1), id(2)), Err(CommitGraphError::NotFound(id(2))));
    assert_eq!(
        graph.add(id(2), vec![]),
        Err(CommitGraphError::StorageFailure("backend unreachable".to_string()))
    );
    let mut graph = CommitGraph::new(Flaky { good_requests: std::cell::Cell::new(1) });
    assert_eq!(
        graph.add(id(2), vec![]),
        Err(CommitGraphError::StorageFailure("backend is read-only".to_string()))
    );
}
