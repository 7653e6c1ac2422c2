//! The commit graph and the core of every traversal: building frontiers
//! from heads and lowering them towards the roots.

use vstd::prelude::*;
use crate::frontier::ChangesetFrontier;
use crate::graph::{
    edges_wf, frontier_in_graph, generation_of, graph_wf, is_ancestor, lemma_ancestor_generation,
    lemma_ancestor_transitive, lemma_new_edges_wf, lemma_parent_below,
    lemma_strict_ancestor_parent, lowered, max_generation, new_edges, nodes_of, parent_nodes,
    partially_lowered, reaches, skew_choice, Graph,
};
use crate::storage::{lookup_matches, CommitGraphStorage};
use crate::types::{
    node_at,     ChangesetEdges, ChangesetId, ChangesetNode, CommitGraphError, Generation, Prefetch,
};

verus! {

/// The graph of all changesets of a repository, over a storage that holds
/// their edge records.
pub struct CommitGraph<S: CommitGraphStorage> {
    pub(crate) storage: S,
}

impl<S: CommitGraphStorage> View for CommitGraph<S> {
    type V = Graph;

    open(crate) spec fn view(&self) -> Graph {
        self.storage.graph()
    }
}

/// The generation of a changeset whose highest parent generation is given,
/// where there is one.
pub fn next_generation(cs_id: ChangesetId, highest_parent: u64) -> (r: Result<
    Generation,
    CommitGraphError,
>)
    ensures
        highest_parent < u64::MAX ==> r == Ok::<Generation, CommitGraphError>(
            Generation { value: (highest_parent + 1) as u64 },
        ),
        highest_parent == u64::MAX ==> r == Err::<Generation, CommitGraphError>(
            CommitGraphError::InvariantViolation(cs_id),
        ),
{
    if highest_parent == u64::MAX {
        Err(CommitGraphError::InvariantViolation(cs_id))
    } else {
        Ok(Generation::new(highest_parent + 1))
    }
}

/// Whether the error is a failure of a storage that may fail.
pub open spec fn fetch_failure(e: CommitGraphError, reliable: bool) -> bool {
    e is StorageFailure && !reliable
}

impl<S: CommitGraphStorage> CommitGraph<S> {
    /// The storage is sound and holds a well-formed graph.
    pub open(crate) spec fn wf(&self) -> bool {
        self.storage.wf() && graph_wf(self@)
    }

    /// Whether the storage answers every request.
    pub open(crate) spec fn reliable(&self) -> bool {
        self.storage.reliable()
    }

    /// The commit graph over the given storage.
    pub fn new(storage: S) -> (graph: CommitGraph<S>)
        requires
            storage.wf(),
            graph_wf(storage.graph()),
        ensures
            graph.wf(),
            graph@ == storage.graph(),
            graph.reliable() == storage.reliable(),
    {
        CommitGraph { storage }
    }

    /// The record of a changeset that has to exist.
    pub fn fetch_edges_required(&self, cs_id: ChangesetId) -> (r: Result<
        ChangesetEdges,
        CommitGraphError,
    >)
        requires
            self.wf(),
        ensures
            r matches Ok(e) ==> self@.contains_key(cs_id) && e@ == self@[cs_id],
            r matches Err(e) ==> fetch_failure(e, self.reliable()) || (e
                == CommitGraphError::NotFound(cs_id) && !self@.contains_key(cs_id)),
            self.reliable() && self@.contains_key(cs_id) ==> r is Ok,
    {
        match self.storage.fetch_edges(cs_id) {
            Ok(Some(edges)) => Ok(edges),
            Ok(None) => Err(CommitGraphError::NotFound(cs_id)),
            Err(e) => Err(e),
        }
    }

    /// The records of changesets that all have to exist, in the order asked.
    /// Where some are missing, the first of them is reported.
    pub fn fetch_many_edges_required(&self, cs_ids: &Vec<ChangesetId>, prefetch: Prefetch) -> (r:
        Result<Vec<ChangesetEdges>, CommitGraphError>)
        requires
            self.wf(),
        ensures
            r matches Ok(all) ==> all@.len() == cs_ids@.len() && forall|i: int|
                0 <= i < cs_ids@.len() ==> self@.contains_key(#[trigger] cs_ids@[i]) && all@[i]@
                    == self@[cs_ids@[i]],
            r matches Err(e) ==> fetch_failure(e, self.reliable()) || exists|i: int|
                0 <= i < cs_ids@.len() && e == CommitGraphError::NotFound(#[trigger] cs_ids@[i])
                    && !self@.contains_key(cs_ids@[i]) && forall|j: int|
                    0 <= j < i ==> self@.contains_key(#[trigger] cs_ids@[j]),
            self.reliable() && (forall|i: int|
                0 <= i < cs_ids@.len() ==> self@.contains_key(#[trigger] cs_ids@[i])) ==> r is Ok,
    {
        let found = match self.storage.fetch_many_edges(cs_ids, prefetch) {
            Ok(found) => found,
            Err(e) => {
                return Err(e);
            },
        };
        let mut all: Vec<ChangesetEdges> = Vec::new();
        let mut i: usize = 0;
        while i < found.len()
            invariant
                i <= found.len(),
                found@.len() == cs_ids@.len(),
                forall|k: int|
                    0 <= k < cs_ids@.len() ==> lookup_matches(
                        self@,
                        cs_ids@[k],
                        #[trigger] found@[k],
                    ),
                all@.len() == i,
                forall|k: int|
                    0 <= k < i ==> self@.contains_key(#[trigger] cs_ids@[k]) && all@[k]@
                        == self@[cs_ids@[k]],
            decreases found.len() - i,
        {
            match &found[i] {
                Some(edges) => {
                    all.push(edges.duplicate());
                },
                None => {
                    return Err(CommitGraphError::NotFound(cs_ids[i]));
                },
            }
            i += 1;
        }
        Ok(all)
    }

    /// The frontier that holds exactly the given heads, which must all exist.
    pub fn frontier(&self, cs_ids: &Vec<ChangesetId>) -> (r: Result<
        ChangesetFrontier,
        CommitGraphError,
    >)
        requires
            self.wf(),
        ensures
            r matches Ok(f) ==> f.wf() && frontier_in_graph(self@, f@) && f@ == nodes_of(
                self@,
                cs_ids@,
            ) && forall|i: int| 0 <= i < cs_ids@.len() ==> self@.contains_key(#[trigger] cs_ids@[i]),
            r matches Err(e) ==> fetch_failure(e, self.reliable()) || exists|i: int|
                0 <= i < cs_ids@.len() && e == CommitGraphError::NotFound(#[trigger] cs_ids@[i])
                    && !self@.contains_key(cs_ids@[i]) && forall|j: int|
                    0 <= j < i ==> self@.contains_key(#[trigger] cs_ids@[j]),
            self.reliable() && (forall|i: int|
                0 <= i < cs_ids@.len() ==> self@.contains_key(#[trigger] cs_ids@[i])) ==> r is Ok,
    {
        let all = self.fetch_many_edges_required(cs_ids, Prefetch::NoHint)?;
        let mut f = ChangesetFrontier::new();
        let mut i: usize = 0;
        while i < all.len()
            invariant
                i <= all.len(),
                all@.len() == cs_ids@.len(),
                self.wf(),
                forall|k: int|
                    0 <= k < cs_ids@.len() ==> self@.contains_key(#[trigger] cs_ids@[k])
                        && all@[k]@ == self@[cs_ids@[k]],
                f.wf(),
                forall|n: ChangesetNode|
                    f@.contains(n) <==> self@.contains_key(n.cs_id) && self@[n.cs_id].node == n
                        && exists|k: int| 0 <= k < i && #[trigger] cs_ids@[k] == n.cs_id,
            decreases all.len() - i,
        {
            let ghost prev = f@;
            let node = all[i].node;
            f.insert(node);
            proof {
                assert(all@[i as int]@ == self@[cs_ids@[i as int]]);
                assert(self@[cs_ids@[i as int]].node.cs_id == cs_ids@[i as int]);
                assert forall|n: ChangesetNode|
                    f@.contains(n) <==> self@.contains_key(n.cs_id) && self@[n.cs_id].node == n
                        && exists|k: int| 0 <= k < i + 1 && #[trigger] cs_ids@[k] == n.cs_id by {
                    if f@.contains(n) {
                        if n == node {
                            assert(cs_ids@[i as int] == n.cs_id);
                        } else {
                            assert(prev.contains(n));
                            let k = choose|k: int| 0 <= k < i && #[trigger] cs_ids@[k] == n.cs_id;
                            assert(cs_ids@[k] == n.cs_id);
                        }
                    }
                    if self@.contains_key(n.cs_id) && self@[n.cs_id].node == n && exists|k: int|
                        0 <= k < i + 1 && #[trigger] cs_ids@[k] == n.cs_id {
                        let k = choose|k: int| 0 <= k < i + 1 && #[trigger] cs_ids@[k] == n.cs_id;
                        if k < i {
                            assert(prev.contains(n));
                        }
                    }
                }
            }
            i += 1;
        }
        proof {
            assert forall|n: ChangesetNode| f@.contains(n) <==> nodes_of(self@, cs_ids@).contains(
                n,
            ) by {
                if nodes_of(self@, cs_ids@).contains(n) {
                    let k = choose|k: int| 0 <= k < cs_ids@.len() && cs_ids@[k] == n.cs_id;
                    assert(cs_ids@[k] == n.cs_id);
                }
                if f@.contains(n) {
                    let k = choose|k: int| 0 <= k < i && #[trigger] cs_ids@[k] == n.cs_id;
                    assert(cs_ids@.contains(n.cs_id));
                }
            }
            assert(f@ =~= nodes_of(self@, cs_ids@));
        }
        Ok(f)
    }

    /// The frontier that holds one changeset, which must exist.
    pub fn single_frontier(&self, cs_id: ChangesetId) -> (r: Result<
        ChangesetFrontier,
        CommitGraphError,
    >)
        requires
            self.wf(),
        ensures
            r matches Ok(f) ==> f.wf() && frontier_in_graph(self@, f@) && self@.contains_key(cs_id)
                && f@ == set![self@[cs_id].node],
            r matches Err(e) ==> fetch_failure(e, self.reliable()) || (e
                == CommitGraphError::NotFound(cs_id) && !self@.contains_key(cs_id)),
            self.reliable() && self@.contains_key(cs_id) ==> r is Ok,
    {
        let edges = self.fetch_edges_required(cs_id)?;
        let mut f = ChangesetFrontier::new();
        f.insert(edges.node);
        assert(f@ =~= set![self@[cs_id].node]);
        Ok(f)
    }

    /// Lowers the frontier until no node of it is above `generation`: each
    /// node above it is replaced by its skip ancestor where that is not below
    /// `generation`, and by its parents otherwise.
    #[verifier::rlimit(30)]
    pub fn lower_frontier(&self, frontier: &mut ChangesetFrontier, generation: Generation) -> (r:
        Result<(), CommitGraphError>)
        requires
            self.wf(),
            old(frontier).wf(),
            frontier_in_graph(self@, old(frontier)@),
        ensures
            final(frontier).wf(),
            frontier_in_graph(self@, final(frontier)@),
            r is Ok ==> lowered(
                self@,
                old(frontier)@,
                final(frontier)@,
                generation.value as nat,
            ),
            r matches Err(e) ==> fetch_failure(e, self.reliable()),
            self.reliable() ==> r is Ok,
    {
        let ghost g = self@;
        let ghost start = frontier@;
        let ghost bound = generation.value as nat;
        proof {
            assert forall|n: ChangesetNode| #[trigger] start.contains(n) implies reaches(
                g,
                start,
                n.cs_id,
            ) by {
                assert(is_ancestor(g, n.cs_id, n.cs_id));
            }
        }
        loop
            invariant
                self.wf(),
                g == self@,
                start == old(frontier)@,
                bound == generation.value as nat,
                frontier.wf(),
                frontier_in_graph(g, start),
                frontier_in_graph(g, frontier@),
                partially_lowered(g, start, frontier@, bound),
            decreases frontier.highest(),
        {
            match frontier.last_generation() {
                None => {
                    return Ok(());
                },
                Some(top) => {
                    if top.value <= generation.value {
                        return Ok(());
                    }
                },
            }
            let ghost before = frontier@;
            let (top, cs_ids) = match frontier.pop_last() {
                Some(popped) => popped,
                None => {
                    return Ok(());
                },
            };
            proof {
                assert forall|k: int| 0 <= k < cs_ids@.len() implies g.contains_key(
                    #[trigger] cs_ids@[k],
                ) && g[cs_ids@[k]].node == (ChangesetNode { cs_id: cs_ids@[k], generation: top })
                    && before.contains(ChangesetNode { cs_id: cs_ids@[k], generation: top }) by {
                    assert(cs_ids@.contains(cs_ids@[k]));
                }
            }
            let all = match self.fetch_many_edges_required(&cs_ids, Prefetch::Hint(generation)) {
                Ok(all) => all,
                Err(e) => {
                    proof {
                        if !fetch_failure(e, self.reliable()) {
                            let i = choose|i: int|
                                0 <= i < cs_ids@.len() && e == CommitGraphError::NotFound(
                                    #[trigger] cs_ids@[i],
                                ) && !self@.contains_key(cs_ids@[i]);
                            assert(g.contains_key(cs_ids@[i]));
                        }
                    }
                    return Err(e);
                },
            };
            proof {
                lemma_popped_covers(g, start, before, frontier@, top, cs_ids@, bound);
            }
            self.replace_generation(
                frontier,
                &cs_ids,
                &all,
                top,
                generation,
                Ghost(start),
            );
            proof {
                frontier.lemma_highest();
            }
        }
    }

    /// Replaces the changesets of one generation, which were taken out of
    /// the frontier, by their skip ancestors or parents.
    fn replace_generation(
        &self,
        frontier: &mut ChangesetFrontier,
        cs_ids: &Vec<ChangesetId>,
        all: &Vec<ChangesetEdges>,
        top: Generation,
        generation: Generation,
        Ghost(start): Ghost<Set<ChangesetNode>>,
    )
        requires
            self.wf(),
            generation.value < top.value,
            old(frontier).wf(),
            frontier_in_graph(self@, old(frontier)@),
            all@.len() == cs_ids@.len(),
            forall|k: int|
                0 <= k < cs_ids@.len() ==> self@.contains_key(#[trigger] cs_ids@[k]) && all@[k]@
                    == self@[cs_ids@[k]] && self@[cs_ids@[k]].node.generation == top && reaches(
                    self@,
                    start,
                    cs_ids@[k],
                ),
            forall|n: ChangesetNode| #[trigger]
                old(frontier)@.contains(n) ==> n.generation.value < top.value && reaches(
                    self@,
                    start,
                    n.cs_id,
                ),
            forall|n: ChangesetNode| #[trigger]
                start.contains(n) && n.generation.value <= generation.value
                    ==> old(frontier)@.contains(n),
            forall|x: ChangesetId| #[trigger]
                reaches(self@, start, x) && generation_of(self@, x) <= generation.value
                    ==> reaches(self@, old(frontier)@, x) || exists|k: int|
                    0 <= k < cs_ids@.len() && is_ancestor(self@, x, #[trigger] cs_ids@[k]),
        ensures
            final(frontier).wf(),
            frontier_in_graph(self@, final(frontier)@),
            partially_lowered(self@, start, final(frontier)@, generation.value as nat),
            forall|n: ChangesetNode| #[trigger]
                final(frontier)@.contains(n) ==> n.generation.value < top.value,
    {
        let ghost g = self@;
        let ghost bound = generation.value as nat;
        let mut i: usize = 0;
        while i < all.len()
            invariant
                i <= all.len(),
                self.wf(),
                g == self@,
                bound == generation.value as nat,
                bound < top.value,
                frontier.wf(),
                frontier_in_graph(g, frontier@),
                all@.len() == cs_ids@.len(),
                forall|k: int|
                    0 <= k < cs_ids@.len() ==> g.contains_key(#[trigger] cs_ids@[k])
                        && all@[k]@ == g[cs_ids@[k]] && g[cs_ids@[k]].node.generation == top
                        && reaches(g, start, cs_ids@[k]),
                forall|n: ChangesetNode| #[trigger]
                    frontier@.contains(n) ==> n.generation.value < top.value && reaches(
                        g,
                        start,
                        n.cs_id,
                    ),
                forall|n: ChangesetNode| #[trigger]
                    start.contains(n) && n.generation.value <= bound ==> frontier@.contains(n),
                forall|x: ChangesetId| #[trigger]
                    reaches(g, start, x) && generation_of(g, x) <= bound ==> reaches(
                        g,
                        frontier@,
                        x,
                    ) || exists|k: int|
                        i <= k < cs_ids@.len() && is_ancestor(g, x, #[trigger] cs_ids@[k]),
            decreases all.len() - i,
        {
            let ghost prev = frontier@;
            let ghost c = cs_ids@[i as int];
            let edges = &all[i];
            assert(edges@ == g[c]);
            let jump = match edges.skip_tree_skew_ancestor {
                Some(ancestor) => {
                    if ancestor.generation.value >= generation.value {
                        Some(ancestor)
                    } else {
                        None
                    }
                },
                None => None,
            };
            match jump {
                Some(ancestor) => {
                    frontier.insert(ancestor);
                    proof {
                        assert forall|n: ChangesetNode| #[trigger]
                            start.contains(n) && n.generation.value
                                <= bound implies frontier@.contains(n) by {
                            assert(prev.contains(n));
                        }
                        lemma_lower_jump(g, start, prev, frontier@, c, ancestor, bound);
                        assert forall|x: ChangesetId| #[trigger]
                            reaches(g, start, x) && generation_of(g, x)
                                <= bound implies reaches(g, frontier@, x) || exists|k: int|
                            i + 1 <= k < cs_ids@.len() && is_ancestor(
                                g,
                                x,
                                #[trigger] cs_ids@[k],
                            ) by {
                            if reaches(g, prev, x) {
                            } else {
                                let k = choose|k: int|
                                    i <= k < cs_ids@.len() && is_ancestor(
                                        g,
                                        x,
                                        #[trigger] cs_ids@[k],
                                    );
                                if k == i {
                                    assert(is_ancestor(g, x, c));
                                }
                            }
                        }
                    }
                },
                None => {
                    frontier.extend(&edges.parents);
                    proof {
                        assert(edges.parents@ == g[c].parents);
                        assert forall|n: ChangesetNode| #[trigger]
                            start.contains(n) && n.generation.value
                                <= bound implies frontier@.contains(n) by {
                            assert(prev.contains(n));
                        }
                        lemma_lower_parents(g, start, prev, frontier@, c, bound);
                        assert forall|x: ChangesetId| #[trigger]
                            reaches(g, start, x) && generation_of(g, x)
                                <= bound implies reaches(g, frontier@, x) || exists|k: int|
                            i + 1 <= k < cs_ids@.len() && is_ancestor(
                                g,
                                x,
                                #[trigger] cs_ids@[k],
                            ) by {
                            if reaches(g, prev, x) {
                            } else {
                                let k = choose|k: int|
                                    i <= k < cs_ids@.len() && is_ancestor(
                                        g,
                                        x,
                                        #[trigger] cs_ids@[k],
                                    );
                                if k == i {
                                    assert(is_ancestor(g, x, c));
                                }
                            }
                        }
                    }
                },
            }
            i += 1;
        }
        proof {
            assert forall|x: ChangesetId| #[trigger]
                reaches(g, start, x) && generation_of(g, x) <= bound implies reaches(
                g,
                frontier@,
                x,
            ) by {
                if !reaches(g, frontier@, x) {
                    let k = choose|k: int|
                        i <= k < cs_ids@.len() && is_ancestor(g, x, #[trigger] cs_ids@[k]);
                }
            }
        }
    }
}

/// After the highest generation was taken out of the frontier, what the
/// frontier led to is reached from what is left or from what was taken out.
proof fn lemma_popped_covers(
    g: Graph,
    start: Set<ChangesetNode>,
    before: Set<ChangesetNode>,
    after: Set<ChangesetNode>,
    top: Generation,
    cs_ids: Seq<ChangesetId>,
    bound: nat,
)
    requires
        partially_lowered(g, start, before, bound),
        forall|id: ChangesetId|
            cs_ids.contains(id) <==> before.contains(ChangesetNode { cs_id: id, generation: top }),
        forall|n: ChangesetNode|
            after.contains(n) <==> before.contains(n) && n.generation.value < top.value,
        forall|n: ChangesetNode| #[trigger] before.contains(n) ==> n.generation.value <= top.value,
    ensures
        forall|x: ChangesetId| #[trigger]
            reaches(g, start, x) && generation_of(g, x) <= bound ==> reaches(g, after, x)
                || exists|k: int| 0 <= k < cs_ids.len() && is_ancestor(g, x, #[trigger] cs_ids[k]),
{
    assert forall|x: ChangesetId| #[trigger]
        reaches(g, start, x) && generation_of(g, x) <= bound implies reaches(g, after, x)
        || exists|k: int| 0 <= k < cs_ids.len() && is_ancestor(g, x, #[trigger] cs_ids[k]) by {
        assert(reaches(g, before, x));
        let n = choose|n: ChangesetNode| #[trigger]
            before.contains(n) && is_ancestor(g, x, n.cs_id);
        if n.generation.value < top.value {
            assert(after.contains(n));
        } else {
            assert(n == ChangesetNode { cs_id: n.cs_id, generation: top });
            assert(cs_ids.contains(n.cs_id));
            let k = choose|k: int| 0 <= k < cs_ids.len() && cs_ids[k] == n.cs_id;
            assert(is_ancestor(g, x, cs_ids[k]));
        }
    }
}

/// Replacing `c` by its skip ancestor at or above `bound` keeps the frontier
/// in the graph, below `c`, descending from `start`, and leading to every
/// ancestor of `c` at or below `bound`.
proof fn lemma_lower_jump(
    g: Graph,
    start: Set<ChangesetNode>,
    prev: Set<ChangesetNode>,
    next: Set<ChangesetNode>,
    c: ChangesetId,
    ancestor: ChangesetNode,
    bound: nat,
)
    requires
        graph_wf(g),
        g.contains_key(c),
        g[c].skew_ancestor == Some(ancestor),
        ancestor.generation.value >= bound,
        reaches(g, start, c),
        frontier_in_graph(g, prev),
        next == prev.insert(ancestor),
        forall|n: ChangesetNode| #[trigger]
            prev.contains(n) ==> n.generation.value < generation_of(g, c) && reaches(
                g,
                start,
                n.cs_id,
            ),
    ensures
        frontier_in_graph(g, next),
        forall|n: ChangesetNode| #[trigger]
            next.contains(n) ==> n.generation.value < generation_of(g, c) && reaches(
                g,
                start,
                n.cs_id,
            ),
        forall|x: ChangesetId| #[trigger] reaches(g, prev, x) ==> reaches(g, next, x),
        forall|x: ChangesetId|
            #[trigger] is_ancestor(g, x, c) && generation_of(g, x) <= bound ==> reaches(g, next, x),
{
    assert(crate::graph::edges_wf(g, c));
    lemma_ancestor_generation(g, ancestor.cs_id, c);
    let h = choose|h: ChangesetNode| #[trigger] start.contains(h) && is_ancestor(g, c, h.cs_id);
    lemma_ancestor_transitive(g, ancestor.cs_id, c, h.cs_id);
    assert(next.contains(ancestor));
    assert forall|x: ChangesetId| #[trigger] reaches(g, prev, x) implies reaches(g, next, x) by {
        let n = choose|n: ChangesetNode| #[trigger] prev.contains(n) && is_ancestor(g, x, n.cs_id);
        assert(next.contains(n));
    }
    assert forall|x: ChangesetId|
        #[trigger] is_ancestor(g, x, c) && generation_of(g, x) <= bound implies reaches(
        g,
        next,
        x,
    ) by {
        assert(is_ancestor(g, x, ancestor.cs_id));
    }
}

/// Replacing `c`, which lies above `bound`, by its parents keeps the frontier
/// in the graph, below `c`, descending from `start`, and leading to every
/// ancestor of `c` at or below `bound`.
proof fn lemma_lower_parents(
    g: Graph,
    start: Set<ChangesetNode>,
    prev: Set<ChangesetNode>,
    next: Set<ChangesetNode>,
    c: ChangesetId,
    bound: nat,
)
    requires
        graph_wf(g),
        g.contains_key(c),
        bound < generation_of(g, c),
        reaches(g, start, c),
        frontier_in_graph(g, prev),
        forall|n: ChangesetNode|
            next.contains(n) <==> prev.contains(n) || g[c].parents.contains(n),
        forall|n: ChangesetNode| #[trigger]
            prev.contains(n) ==> n.generation.value < generation_of(g, c) && reaches(
                g,
                start,
                n.cs_id,
            ),
    ensures
        frontier_in_graph(g, next),
        forall|n: ChangesetNode| #[trigger]
            next.contains(n) ==> n.generation.value < generation_of(g, c) && reaches(
                g,
                start,
                n.cs_id,
            ),
        forall|x: ChangesetId| #[trigger] reaches(g, prev, x) ==> reaches(g, next, x),
        forall|x: ChangesetId|
            #[trigger] is_ancestor(g, x, c) && generation_of(g, x) <= bound ==> reaches(g, next, x),
{
    let h = choose|h: ChangesetNode| #[trigger] start.contains(h) && is_ancestor(g, c, h.cs_id);
    assert forall|n: ChangesetNode| #[trigger] next.contains(n) implies g.contains_key(n.cs_id)
        && g[n.cs_id].node == n && n.generation.value < generation_of(g, c) && reaches(
        g,
        start,
        n.cs_id,
    ) by {
        if !prev.contains(n) {
            let i = choose|i: int| 0 <= i < g[c].parents.len() && g[c].parents[i] == n;
            lemma_parent_below(g, c, i);
            lemma_ancestor_transitive(g, n.cs_id, c, h.cs_id);
        }
    }
    assert forall|x: ChangesetId| #[trigger] reaches(g, prev, x) implies reaches(g, next, x) by {
        let n = choose|n: ChangesetNode| #[trigger] prev.contains(n) && is_ancestor(g, x, n.cs_id);
        assert(next.contains(n));
    }
    assert forall|x: ChangesetId|
        #[trigger] is_ancestor(g, x, c) && generation_of(g, x) <= bound implies reaches(
        g,
        next,
        x,
    ) by {
        let i = lemma_strict_ancestor_parent(g, x, c);
        let p = g[c].parents[i];
        assert(g[c].parents.contains(p));
        assert(next.contains(p));
    }
}

impl<S: CommitGraphStorage> CommitGraph<S> {
    /// Builds the record of a new changeset from the records of its parents:
    /// its generation is one more than the highest among them, and its skip
    /// pointer is chosen from theirs.
    pub fn build_edges(
        &self,
        cs_id: ChangesetId,
        parents: &Vec<ChangesetId>,
        parent_edges: &Vec<ChangesetEdges>,
    ) -> (r: Result<ChangesetEdges, CommitGraphError>)
        requires
            self.wf(),
            parent_edges@.len() == parents@.len(),
            forall|i: int|
                0 <= i < parents@.len() ==> self@.contains_key(#[trigger] parents@[i])
                    && parent_edges@[i]@ == self@[parents@[i]],
        ensures
            r matches Ok(e) ==> e@ == new_edges(self@, cs_id, parents@) && 1 + max_generation(
                parent_nodes(self@, parents@),
            ) <= u64::MAX,
            r matches Err(e) ==> fetch_failure(e, self.reliable()) || (e
                == CommitGraphError::InvariantViolation(cs_id) && max_generation(
                parent_nodes(self@, parents@),
            ) == u64::MAX),
            self.reliable() && max_generation(parent_nodes(self@, parents@)) < u64::MAX ==> r is Ok,
    {
        let ghost g = self@;
        let ghost want = parent_nodes(g, parents@);
        let mut nodes: Vec<ChangesetNode> = Vec::new();
        let mut highest: u64 = 0;
        let mut i: usize = 0;
        while i < parent_edges.len()
            invariant
                i <= parent_edges.len(),
                parent_edges@.len() == parents@.len(),
                g == self@,
                want == parent_nodes(g, parents@),
                forall|k: int|
                    0 <= k < parents@.len() ==> g.contains_key(#[trigger] parents@[k])
                        && parent_edges@[k]@ == g[parents@[k]],
                nodes@ == want.subrange(0, i as int),
                highest == max_generation(nodes@),
            decreases parent_edges.len() - i,
        {
            let node = parent_edges[i].node;
            proof {
                assert(g.contains_key(parents@[i as int]));
                assert(node == want[i as int]);
                let next = want.subrange(0, i + 1);
                assert(next.drop_last() =~= want.subrange(0, i as int));
                assert(next.last() == node);
            }
            nodes.push(node);
            if node.generation.value > highest {
                highest = node.generation.value;
            }
            i += 1;
            assert(nodes@ =~= want.subrange(0, i as int));
        }
        assert(nodes@ =~= want);
        let generation = match next_generation(cs_id, highest) {
            Ok(generation) => generation,
            Err(e) => {
                return Err(e);
            },
        };
        let skew = if nodes.len() == 1 {
            let parent = nodes[0];
            proof {
                assert(g.contains_key(parents@[0]));
                assert(edges_wf(g, parents@[0]));
                assert(parent.cs_id == parents@[0]);
            }
            match parent_edges[0].skip_tree_skew_ancestor {
                None => Some(parent),
                Some(first) => {
                    proof {
                        lemma_ancestor_generation(g, first.cs_id, parent.cs_id);
                        assert(edges_wf(g, first.cs_id));
                    }
                    let first_edges = match self.fetch_edges_required(first.cs_id) {
                        Ok(edges) => edges,
                        Err(e) => {
                            return Err(e);
                        },
                    };
                    match first_edges.skip_tree_skew_ancestor {
                        None => Some(parent),
                        Some(second) => {
                            proof {
                                lemma_ancestor_generation(g, second.cs_id, first.cs_id);
                            }
                            if parent.generation.value - first.generation.value
                                == first.generation.value - second.generation.value {
                                Some(second)
                            } else {
                                Some(parent)
                            }
                        },
                    }
                },
            }
        } else {
            None
        };
        assert(skew == skew_choice(g, want));
        Ok(
            ChangesetEdges {
                node: ChangesetNode { cs_id, generation },
                parents: nodes,
                skip_tree_skew_ancestor: skew,
            },
        )
    }

    /// Takes the highest generation out of the frontier and asks `property`
    /// of each of its changesets: those for which it holds are returned, the
    /// others are replaced in the frontier by their parents. Returns nothing
    /// where the frontier is empty.
    pub fn lower_frontier_step<P: Fn(ChangesetId) -> Result<bool, CommitGraphError>>(
        &self,
        frontier: &mut ChangesetFrontier,
        property: &P,
        prefetch: Prefetch,
    ) -> (r: Result<Option<Vec<ChangesetId>>, CommitGraphError>)
        requires
            self.wf(),
            old(frontier).wf(),
            frontier_in_graph(self@, old(frontier)@),
            forall|id: ChangesetId| #[trigger] call_requires(property, (id,)),
        ensures
            final(frontier).wf(),
            frontier_in_graph(self@, final(frontier)@),
            r matches Ok(None) ==> old(frontier)@ == Set::<ChangesetNode>::empty() && final(frontier)@ == old(frontier)@,
            r matches Ok(Some(found)) ==> {
                let top = old(frontier).highest();
                &&& old(frontier)@ != Set::<ChangesetNode>::empty()
                &&& final(frontier).highest() < top
                &&& found@.no_duplicates()
                &&& forall|id: ChangesetId| #[trigger]
                    found@.contains(id) ==> old(frontier)@.contains(node_at(id, top))
                        && call_ensures(property, (id,), Ok(true))
                &&& forall|id: ChangesetId| #[trigger]
                    old(frontier)@.contains(node_at(id, top)) ==> found@.contains(id) || (
                    call_ensures(property, (id,), Ok(false)) && forall|j: int|
                        0 <= j < self@[id].parents.len() ==> final(frontier)@.contains(
                            #[trigger] self@[id].parents[j],
                        ))
                &&& forall|n: ChangesetNode| #[trigger]
                    old(frontier)@.contains(n) && n.generation.value < top ==> final(frontier)@.contains(n)
                &&& forall|n: ChangesetNode| #[trigger]
                    final(frontier)@.contains(n) ==> (old(frontier)@.contains(n)
                        && n.generation.value < top) || exists|id: ChangesetId| #[trigger]
                        old(frontier)@.contains(node_at(id, top)) && !found@.contains(id)
                            && self@[id].parents.contains(n)
            },
            r matches Err(e) ==> fetch_failure(e, self.reliable()) || exists|id: ChangesetId| #[trigger]
                call_ensures(property, (id,), Err(e)),
    {
        let ghost g = self@;
        let ghost before = frontier@;
        let ghost t = frontier.highest();
        proof {
            frontier.lemma_highest();
        }
        let (top, cs_ids) = match frontier.pop_last() {
            Some(popped) => popped,
            None => {
                return Ok(None);
            },
        };
        let ghost base = frontier@;
        proof {
            assert forall|k: int| 0 <= k < cs_ids@.len() implies g.contains_key(
                #[trigger] cs_ids@[k],
            ) && g[cs_ids@[k]].node == node_at(cs_ids@[k], t) && before.contains(
                node_at(cs_ids@[k], t),
            ) by {
                assert(cs_ids@.contains(cs_ids@[k]));
                assert(node_at(cs_ids@[k], t) == ChangesetNode {
                    cs_id: cs_ids@[k],
                    generation: top,
                });
            }
            assert(edges_wf(g, cs_ids@[0]));
        }
        let all = match self.fetch_many_edges_required(&cs_ids, prefetch) {
            Ok(all) => all,
            Err(e) => {
                proof {
                    if !fetch_failure(e, self.reliable()) {
                        let i = choose|i: int|
                            0 <= i < cs_ids@.len() && e == CommitGraphError::NotFound(
                                #[trigger] cs_ids@[i],
                            ) && !self@.contains_key(cs_ids@[i]);
                        assert(g.contains_key(cs_ids@[i]));
                    }
                }
                return Err(e);
            },
        };
        let mut found: Vec<ChangesetId> = Vec::new();
        let ghost mut src: Seq<int> = Seq::empty();
        let mut i: usize = 0;
        while i < all.len()
            invariant
                i <= all.len(),
                self.wf(),
                g == self@,
                t == top.value,
                t > 0,
                frontier.wf(),
                frontier_in_graph(g, frontier@),
                forall|id: ChangesetId| #[trigger] call_requires(property, (id,)),
                all@.len() == cs_ids@.len(),
                cs_ids@.no_duplicates(),
                forall|k: int|
                    0 <= k < cs_ids@.len() ==> g.contains_key(#[trigger] cs_ids@[k]) && all@[k]@
                        == g[cs_ids@[k]] && g[cs_ids@[k]].node == node_at(cs_ids@[k], t),
                src.len() == found@.len(),
                forall|a: int|
                    0 <= a < found@.len() ==> 0 <= #[trigger] src[a] < i && found@[a]
                        == cs_ids@[src[a]] && call_ensures(
                        property,
                        (found@[a],),
                        Ok(true),
                    ),
                forall|a: int, b: int| 0 <= a < b < found@.len() ==> src[a] < src[b],
                forall|k: int|
                    0 <= k < i ==> found@.contains(#[trigger] cs_ids@[k]) || (call_ensures(
                        property,
                        (cs_ids@[k],),
                        Ok(false),
                    ) && forall|j: int|
                        0 <= j < g[cs_ids@[k]].parents.len() ==> frontier@.contains(
                            #[trigger] g[cs_ids@[k]].parents[j],
                        )),
                forall|n: ChangesetNode| #[trigger] base.contains(n) ==> frontier@.contains(n),
                forall|n: ChangesetNode| #[trigger]
                    frontier@.contains(n) ==> n.generation.value < t && (base.contains(n)
                        || exists|k: int|
                        0 <= k < i && !found@.contains(#[trigger] cs_ids@[k])
                            && g[cs_ids@[k]].parents.contains(n)),
            decreases all.len() - i,
        {
            let ghost prev = frontier@;
            let ghost prev_found = found@;
            let cs_id = cs_ids[i];
            let node = ChangesetNode { cs_id, generation: top };
            assert(node == node_at(cs_id, t));
            assert(g.contains_key(cs_ids@[i as int]));
            let holds = match property(cs_id) {
                Ok(holds) => holds,
                Err(e) => {
                    return Err(e);
                },
            };
            if holds {
                found.push(cs_id);
                proof {
                    src = src.push(i as int);
                    assert(found@[prev_found.len() as int] == cs_id);
                    assert forall|k: int| 0 <= k < i + 1 implies found@.contains(
                        #[trigger] cs_ids@[k],
                    ) || (call_ensures(property, (cs_ids@[k],), Ok(false))
                        && forall|j: int|
                        0 <= j < g[cs_ids@[k]].parents.len() ==> frontier@.contains(
                            #[trigger] g[cs_ids@[k]].parents[j],
                        )) by {
                        if k < i && prev_found.contains(cs_ids@[k]) {
                            let a = choose|a: int|
                                0 <= a < prev_found.len() && prev_found[a] == cs_ids@[k];
                            assert(found@[a] == cs_ids@[k]);
                        }
                    }
                    assert forall|n: ChangesetNode| #[trigger]
                        frontier@.contains(n) implies n.generation.value < t && (base.contains(n)
                        || exists|k: int|
                        0 <= k < i + 1 && !found@.contains(#[trigger] cs_ids@[k])
                            && g[cs_ids@[k]].parents.contains(n)) by {
                        if !base.contains(n) {
                            let k = choose|k: int|
                                0 <= k < i && !prev_found.contains(#[trigger] cs_ids@[k])
                                    && g[cs_ids@[k]].parents.contains(n);
                            if found@.contains(cs_ids@[k]) {
                                let a = choose|a: int|
                                    0 <= a < found@.len() && found@[a] == cs_ids@[k];
                                if a < prev_found.len() {
                                    assert(prev_found[a] == cs_ids@[k]);
                                }
                            }
                        }
                    }
                }
            } else {
                frontier.extend(&all[i].parents);
                proof {
                    assert(all@[i as int].parents@ == g[cs_id].parents);
                    assert forall|n: ChangesetNode| #[trigger]
                        frontier@.contains(n) implies g.contains_key(n.cs_id) && g[n.cs_id].node
                        == n && n.generation.value < t && (base.contains(n) || exists|k: int|
                        0 <= k < i + 1 && !found@.contains(#[trigger] cs_ids@[k])
                            && g[cs_ids@[k]].parents.contains(n)) by {
                        if prev.contains(n) {
                            if !base.contains(n) {
                                let k = choose|k: int|
                                    0 <= k < i && !found@.contains(#[trigger] cs_ids@[k])
                                        && g[cs_ids@[k]].parents.contains(n);
                            }
                        } else {
                            let j = choose|j: int|
                                0 <= j < g[cs_id].parents.len() && g[cs_id].parents[j] == n;
                            lemma_parent_below(g, cs_id, j);
                            assert(!found@.contains(cs_ids@[i as int])) by {
                                if found@.contains(cs_id) {
                                    let a = choose|a: int|
                                        0 <= a < found@.len() && found@[a] == cs_id;
                                    assert(cs_ids@[src[a]] == cs_ids@[i as int]);
                                }
                            }
                        }
                    }
                    assert forall|k: int| 0 <= k < i + 1 implies found@.contains(
                        #[trigger] cs_ids@[k],
                    ) || (call_ensures(property, (cs_ids@[k],), Ok(false))
                        && forall|j: int|
                        0 <= j < g[cs_ids@[k]].parents.len() ==> frontier@.contains(
                            #[trigger] g[cs_ids@[k]].parents[j],
                        )) by {
                        if k < i && !found@.contains(cs_ids@[k]) {
                            assert forall|j: int|
                                0 <= j < g[cs_ids@[k]].parents.len() implies frontier@.contains(
                                #[trigger] g[cs_ids@[k]].parents[j],
                            ) by {
                                assert(prev.contains(g[cs_ids@[k]].parents[j]));
                            }
                        }
                    }
                }
            }
            i += 1;
        }
        proof {
            frontier.lemma_highest();
            assert forall|a: int, b: int| 0 <= a < b < found@.len() implies found@[a]
                != found@[b] by {
                assert(src[a] < src[b]);
            }
            assert forall|id: ChangesetId| #[trigger] found@.contains(id) implies before.contains(
                node_at(id, t),
            ) && call_ensures(property, (id,), Ok(true)) by {
                let a = choose|a: int| 0 <= a < found@.len() && found@[a] == id;
                assert(0 <= src[a] < i);
                assert(g.contains_key(cs_ids@[src[a]]));
                assert(cs_ids@.contains(id));
            }
            assert forall|id: ChangesetId| #[trigger]
                before.contains(node_at(id, t)) implies found@.contains(id) || (call_ensures(
                property,
                (id,),
                Ok(false),
            ) && forall|j: int|
                0 <= j < g[id].parents.len() ==> frontier@.contains(
                    #[trigger] g[id].parents[j],
                )) by {
                assert(node_at(id, t) == ChangesetNode { cs_id: id, generation: top });
                assert(cs_ids@.contains(id));
                let k = choose|k: int| 0 <= k < cs_ids@.len() && cs_ids@[k] == id;
                assert(found@.contains(cs_ids@[k]) || call_ensures(
                    property,
                    (cs_ids@[k],),
                    Ok(false),
                ));
            }
            assert forall|n: ChangesetNode| #[trigger] frontier@.contains(n) implies (
            before.contains(n) && n.generation.value < t) || exists|id: ChangesetId| #[trigger]
                before.contains(node_at(id, t)) && !found@.contains(id) && g[id].parents.contains(
                    n,
                ) by {
                if !base.contains(n) {
                    let k = choose|k: int|
                        0 <= k < i && !found@.contains(#[trigger] cs_ids@[k])
                            && g[cs_ids@[k]].parents.contains(n);
                    assert(g.contains_key(cs_ids@[k]));
                    assert(cs_ids@.contains(cs_ids@[k]));
                    assert(before.contains(node_at(cs_ids@[k], t)));
                }
            }
        }
        Ok(Some(found))
    }

    /// Replaces the changesets of the highest generation of the frontier by
    /// their parents.
    pub fn lower_frontier_highest_generation(&self, frontier: &mut ChangesetFrontier) -> (r:
        Result<(), CommitGraphError>)
        requires
            self.wf(),
            old(frontier).wf(),
            frontier_in_graph(self@, old(frontier)@),
        ensures
            final(frontier).wf(),
            frontier_in_graph(self@, final(frontier)@),
            r is Ok ==> {
                let top = old(frontier).highest();
                &&& old(frontier)@ == Set::<ChangesetNode>::empty() ==> final(frontier)@ == old(frontier)@
                &&& old(frontier)@ != Set::<ChangesetNode>::empty() ==> final(frontier).highest()
                    < top
                &&& forall|n: ChangesetNode| #[trigger]
                    old(frontier)@.contains(n) && n.generation.value < top ==> final(frontier)@.contains(n)
                &&& forall|id: ChangesetId, j: int|
                    old(frontier)@.contains(node_at(id, top)) && 0 <= j
                        < self@[id].parents.len() ==> final(frontier)@.contains(
                        #[trigger] self@[id].parents[j],
                    )
                &&& forall|n: ChangesetNode| #[trigger]
                    final(frontier)@.contains(n) ==> (old(frontier)@.contains(n)
                        && n.generation.value < top) || exists|id: ChangesetId| #[trigger]
                        old(frontier)@.contains(node_at(id, top)) && self@[id].parents.contains(n)
            },
            r matches Err(e) ==> fetch_failure(e, self.reliable()),
            self.reliable() ==> r is Ok,
    {
        let never = |cs_id: ChangesetId| -> (holds: Result<bool, CommitGraphError>)
            ensures
                holds == Ok::<bool, CommitGraphError>(false),
            { Ok(false) };
        match self.lower_frontier_step(frontier, &never, Prefetch::NoHint) {
            Ok(Some(found)) => {
                proof {
                    let top = old(frontier).highest();
                    assert forall|id: ChangesetId| !found@.contains(id) by {
                        if found@.contains(id) {
                            assert(call_ensures(never, (id,), Ok(true)));
                        }
                    }
                    assert forall|id: ChangesetId, j: int|
                        old(frontier)@.contains(node_at(id, top)) && 0 <= j
                            < self@[id].parents.len() implies frontier@.contains(
                        #[trigger] self@[id].parents[j],
                    ) by {
                        assert(!found@.contains(id));
                    }
                }
                Ok(())
            },
            Ok(None) => Ok(()),
            Err(e) => {
                proof {
                    if !fetch_failure(e, self.reliable()) {
                        let id = choose|id: ChangesetId| #[trigger]
                            call_ensures(never, (id,), Err(e));
                        assert(false);
                    }
                }
                Err(e)
            },
        }
    }

    /// Adds a changeset with the given parents, which must all be there
    /// already. Returns whether the changeset is new: one that is there
    /// already is left as it is.
    pub fn add(&mut self, cs_id: ChangesetId, parents: Vec<ChangesetId>) -> (r: Result<
        bool,
        CommitGraphError,
    >)
        requires
            old(self).wf(),
        ensures
            final(self).wf(),
            final(self).reliable() == old(self).reliable(),
            r matches Ok(true) ==> !old(self)@.contains_key(cs_id) && final(self)@
                == old(self)@.insert(cs_id, new_edges(old(self)@, cs_id, parents@)),
            r matches Ok(false) ==> old(self)@.contains_key(cs_id) && final(self)@ == old(self)@,
            r is Ok ==> forall|i: int|
                0 <= i < parents@.len() ==> old(self)@.contains_key(#[trigger] parents@[i]),
            r is Err ==> final(self)@ == old(self)@,
            r matches Err(e) ==> {
                ||| fetch_failure(e, old(self).reliable())
                ||| exists|i: int|
                    0 <= i < parents@.len() && e == CommitGraphError::NotFound(
                        #[trigger] parents@[i],
                    ) && !old(self)@.contains_key(parents@[i]) && forall|j: int|
                        0 <= j < i ==> old(self)@.contains_key(#[trigger] parents@[j])
                ||| e == CommitGraphError::InvariantViolation(cs_id) && max_generation(
                    parent_nodes(old(self)@, parents@),
                ) == u64::MAX && forall|i: int|
                    0 <= i < parents@.len() ==> old(self)@.contains_key(#[trigger] parents@[i])
            },
            old(self).reliable() && (forall|i: int|
                0 <= i < parents@.len() ==> old(self)@.contains_key(#[trigger] parents@[i]))
                && max_generation(parent_nodes(old(self)@, parents@)) < u64::MAX ==> r is Ok,
    {
        let parent_edges = match self.fetch_many_edges_required(&parents, Prefetch::NoHint) {
            Ok(all) => all,
            Err(e) => {
                return Err(e);
            },
        };
        let edges = match self.build_edges(cs_id, &parents, &parent_edges) {
            Ok(edges) => edges,
            Err(e) => {
                return Err(e);
            },
        };
        proof {
            assert forall|i: int| 0 <= i < edges.parents@.len() implies self@.contains_key(
                (#[trigger] edges.parents@[i]).cs_id,
            ) by {
                assert(self@.contains_key(parents@[i]));
                assert(edges_wf(self@, parents@[i]));
            }
            if !self@.contains_key(cs_id) {
                lemma_new_edges_wf(self@, cs_id, parents@);
            }
        }
        match self.storage.add(edges) {
            Ok(added) => Ok(added),
            Err(e) => {
                proof {
                    if !fetch_failure(e, old(self).reliable()) {
                        let p = e->NotFound_0;
                        let i = choose|i: int|
                            0 <= i < edges.parents@.len() && (#[trigger] edges.parents@[i]).cs_id
                                == p;
                        assert(old(self)@.contains_key(edges.parents@[i].cs_id));
                    }
                }
                Err(e)
            },
        }
    }
}

} // verus!
