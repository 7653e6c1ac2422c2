//! Where the edge records live: the operations that the commit graph asks
//! of a storage, and a storage that keeps the records in memory.

use vstd::prelude::*;
use crate::graph::{is_parent, Graph};
use crate::types::{
    has_prefix, ChangesetEdges, ChangesetId, ChangesetIdPrefix, ChangesetIdsResolvedFromPrefix,
    CommitGraphError, Prefetch,
};

verus! {

/// What a lookup of `cs_id` in the graph gives.
pub open spec fn lookup_matches(g: Graph, cs_id: ChangesetId, found: Option<ChangesetEdges>) -> bool {
    match found {
        Some(e) => g.contains_key(cs_id) && e@ == g[cs_id],
        None => !g.contains_key(cs_id),
    }
}

/// Whether `res` is the answer to a prefix query on the graph with the given
/// limit.
pub open spec fn resolves_prefix(
    g: Graph,
    prefix: Seq<u8>,
    limit: usize,
    res: ChangesetIdsResolvedFromPrefix,
) -> bool {
    match res {
        ChangesetIdsResolvedFromPrefix::NoMatch => forall|x: ChangesetId| #[trigger]
            g.contains_key(x) ==> !has_prefix(x, prefix),
        ChangesetIdsResolvedFromPrefix::Single(id) => g.contains_key(id) && has_prefix(id, prefix)
            && forall|x: ChangesetId| #[trigger]
            g.contains_key(x) && has_prefix(x, prefix) ==> x == id,
        ChangesetIdsResolvedFromPrefix::Multiple(ids) => 2 <= ids@.len() <= limit
            && ids@.no_duplicates() && forall|x: ChangesetId|
            ids@.contains(x) <==> g.contains_key(x) && has_prefix(x, prefix),
        ChangesetIdsResolvedFromPrefix::TooMany(ids) => ids@.len() == limit
            && ids@.no_duplicates() && (forall|x: ChangesetId|
            ids@.contains(x) ==> g.contains_key(x) && has_prefix(x, prefix)) && (exists|
            x: ChangesetId,
            y: ChangesetId,
        |
            x != y && #[trigger] g.contains_key(x) && has_prefix(x, prefix) && #[trigger] g.contains_key(y)
                && has_prefix(y, prefix) && !ids@.contains(x)),
    }
}

/// The operations that the commit graph asks of the place where edge records
/// are kept.
pub trait CommitGraphStorage: Sized {
    /// The records that the storage holds, by changeset.
    spec fn graph(&self) -> Graph;

    /// Whether the storage answers every request.
    spec fn reliable(&self) -> bool;

    /// The storage's own invariant.
    spec fn wf(&self) -> bool;

    /// The record of one changeset, if it is stored.
    fn fetch_edges(&self, cs_id: ChangesetId) -> (r: Result<
        Option<ChangesetEdges>,
        CommitGraphError,
    >)
        requires
            self.wf(),
        ensures
            r matches Ok(found) ==> lookup_matches(self.graph(), cs_id, found),
            r matches Err(e) ==> e is StorageFailure,
            self.reliable() ==> r is Ok,
    ;

    /// The records of several changesets, in the order asked, each where it
    /// is stored.
    fn fetch_many_edges(&self, cs_ids: &Vec<ChangesetId>, prefetch: Prefetch) -> (r: Result<
        Vec<Option<ChangesetEdges>>,
        CommitGraphError,
    >)
        requires
            self.wf(),
        ensures
            r matches Ok(found) ==> found@.len() == cs_ids@.len() && forall|i: int|
                0 <= i < cs_ids@.len() ==> lookup_matches(
                    self.graph(),
                    cs_ids@[i],
                    #[trigger] found@[i],
                ),
            r matches Err(e) ==> e is StorageFailure,
            self.reliable() ==> r is Ok,
    ;

    /// Stores a record under its changeset, unless one is stored already.
    /// Every parent that the record names has to be stored before.
    fn add(&mut self, edges: ChangesetEdges) -> (r: Result<bool, CommitGraphError>)
        requires
            old(self).wf(),
        ensures
            final(self).wf(),
            final(self).reliable() == old(self).reliable(),
            r matches Ok(true) ==> !old(self).graph().contains_key(edges.node.cs_id)
                && final(self).graph() == old(self).graph().insert(edges.node.cs_id, edges@),
            r matches Ok(false) ==> old(self).graph().contains_key(edges.node.cs_id)
                && final(self).graph() == old(self).graph(),
            r is Ok ==> forall|i: int|
                0 <= i < edges.parents@.len() ==> old(self).graph().contains_key(
                    (#[trigger] edges.parents@[i]).cs_id,
                ),
            r is Err ==> final(self).graph() == old(self).graph(),
            r matches Err(e) ==> e is StorageFailure || (e matches CommitGraphError::NotFound(p)
                && !old(self).graph().contains_key(p) && exists|i: int|
                0 <= i < edges.parents@.len() && (#[trigger] edges.parents@[i]).cs_id == p),
            old(self).reliable() && (forall|i: int|
                0 <= i < edges.parents@.len() ==> old(self).graph().contains_key(
                    (#[trigger] edges.parents@[i]).cs_id,
                )) ==> r is Ok,
    ;

    /// The stored changesets whose identifier starts with the prefix.
    fn find_by_prefix(&self, prefix: &ChangesetIdPrefix, limit: usize) -> (r: Result<
        ChangesetIdsResolvedFromPrefix,
        CommitGraphError,
    >)
        requires
            self.wf(),
        ensures
            r matches Ok(res) ==> resolves_prefix(self.graph(), prefix.bytes@, limit, res),
            r matches Err(e) ==> e is StorageFailure,
            self.reliable() ==> r is Ok,
    ;

    /// The stored changesets that name `cs_id` as a parent.
    fn fetch_children(&self, cs_id: ChangesetId) -> (r: Result<Vec<ChangesetId>, CommitGraphError>)
        requires
            self.wf(),
        ensures
            r matches Ok(children) ==> children@.no_duplicates() && forall|c: ChangesetId|
                children@.contains(c) <==> is_parent(self.graph(), cs_id, c),
            r matches Err(e) ==> e is StorageFailure,
            self.reliable() ==> r is Ok,
    ;
}

} // verus!
