//! What the commit graph answers: whether a changeset exists, its parents,
//! its generation, its children, ancestry and common bases.

use vstd::prelude::*;
use crate::graph::{
    edges_wf, frontier_in_graph, generation_of, is_ancestor, is_common_ancestor, is_common_base,
    is_parent, graph_wf, lemma_ancestor_at_generation, lemma_ancestor_generation, lemma_ancestor_transitive,
    lemma_lowered_exact, lemma_parent_below, lemma_reached_at_top,
    lemma_reached_is_ancestor, lemma_strict_ancestor_parent, lowered, parent_ids, reaches, Graph,
};
use crate::order::{sort_changeset_ids, strictly_ascending};
use crate::storage::{resolves_prefix, CommitGraphStorage};
use crate::traversal::{fetch_failure, CommitGraph};
use crate::types::{
    node_at,     ChangesetId, ChangesetIdPrefix, ChangesetIdsResolvedFromPrefix, ChangesetNode,
    CommitGraphError, Generation,
};

verus! {

/// The identifiers of the given nodes, in their order.
fn ids_of(nodes: &Vec<ChangesetNode>) -> (ids: Vec<ChangesetId>)
    ensures
        ids@.len() == nodes@.len(),
        forall|i: int| 0 <= i < nodes@.len() ==> #[trigger] ids@[i] == nodes@[i].cs_id,
{
    let mut ids: Vec<ChangesetId> = Vec::new();
    let mut i: usize = 0;
    while i < nodes.len()
        invariant
            i <= nodes.len(),
            ids@.len() == i,
            forall|k: int| 0 <= k < i ==> #[trigger] ids@[k] == nodes@[k].cs_id,
        decreases nodes.len() - i,
    {
        ids.push(nodes[i].cs_id);
        i += 1;
    }
    ids
}

impl<S: CommitGraphStorage> CommitGraph<S> {
    /// The stored changesets whose identifier starts with the prefix.
    pub fn find_by_prefix(&self, cs_prefix: &ChangesetIdPrefix, limit: usize) -> (r: Result<
        ChangesetIdsResolvedFromPrefix,
        CommitGraphError,
    >)
        requires
            self.wf(),
        ensures
            r matches Ok(res) ==> resolves_prefix(self@, cs_prefix.bytes@, limit, res),
            r matches Err(e) ==> fetch_failure(e, self.reliable()),
            self.reliable() ==> r is Ok,
    {
        self.storage.find_by_prefix(cs_prefix, limit)
    }

    /// Whether the changeset is in the graph.
    pub fn changeset_exists(&self, cs_id: ChangesetId) -> (r: Result<bool, CommitGraphError>)
        requires
            self.wf(),
        ensures
            r matches Ok(found) ==> found == self@.contains_key(cs_id),
            r matches Err(e) ==> fetch_failure(e, self.reliable()),
            self.reliable() ==> r is Ok,
    {
        match self.storage.fetch_edges(cs_id) {
            Ok(edges) => Ok(edges.is_some()),
            Err(e) => Err(e),
        }
    }

    /// The parents of a changeset in their recorded order, if the changeset
    /// is in the graph.
    pub fn changeset_parents(&self, cs_id: ChangesetId) -> (r: Result<
        Option<Vec<ChangesetId>>,
        CommitGraphError,
    >)
        requires
            self.wf(),
        ensures
            r matches Ok(Some(parents)) ==> self@.contains_key(cs_id) && parents@ == parent_ids(
                self@,
                cs_id,
            ),
            r matches Ok(None) ==> !self@.contains_key(cs_id),
            r matches Err(e) ==> fetch_failure(e, self.reliable()),
            self.reliable() ==> r is Ok,
    {
        match self.storage.fetch_edges(cs_id) {
            Ok(Some(edges)) => {
                let parents = ids_of(&edges.parents);
                assert(parents@ =~= parent_ids(self@, cs_id));
                Ok(Some(parents))
            },
            Ok(None) => Ok(None),
            Err(e) => Err(e),
        }
    }

    /// The parents of a changeset that must be in the graph.
    pub fn changeset_parents_required(&self, cs_id: ChangesetId) -> (r: Result<
        Vec<ChangesetId>,
        CommitGraphError,
    >)
        requires
            self.wf(),
        ensures
            r matches Ok(parents) ==> self@.contains_key(cs_id) && parents@ == parent_ids(
                self@,
                cs_id,
            ),
            r matches Err(e) ==> fetch_failure(e, self.reliable()) || (e
                == CommitGraphError::NotFound(cs_id) && !self@.contains_key(cs_id)),
            self.reliable() && self@.contains_key(cs_id) ==> r is Ok,
    {
        match self.fetch_edges_required(cs_id) {
            Ok(edges) => {
                let parents = ids_of(&edges.parents);
                assert(parents@ =~= parent_ids(self@, cs_id));
                Ok(parents)
            },
            Err(e) => Err(e),
        }
    }

    /// The generation of a changeset, if the changeset is in the graph.
    pub fn changeset_generation(&self, cs_id: ChangesetId) -> (r: Result<
        Option<Generation>,
        CommitGraphError,
    >)
        requires
            self.wf(),
        ensures
            r matches Ok(Some(generation)) ==> self@.contains_key(cs_id) && generation
                == self@[cs_id].node.generation,
            r matches Ok(None) ==> !self@.contains_key(cs_id),
            r matches Err(e) ==> fetch_failure(e, self.reliable()),
            self.reliable() ==> r is Ok,
    {
        match self.storage.fetch_edges(cs_id) {
            Ok(Some(edges)) => Ok(Some(edges.node.generation)),
            Ok(None) => Ok(None),
            Err(e) => Err(e),
        }
    }

    /// The generation of a changeset that must be in the graph.
    pub fn changeset_generation_required(&self, cs_id: ChangesetId) -> (r: Result<
        Generation,
        CommitGraphError,
    >)
        requires
            self.wf(),
        ensures
            r matches Ok(generation) ==> self@.contains_key(cs_id) && generation
                == self@[cs_id].node.generation,
            r matches Err(e) ==> fetch_failure(e, self.reliable()) || (e
                == CommitGraphError::NotFound(cs_id) && !self@.contains_key(cs_id)),
            self.reliable() && self@.contains_key(cs_id) ==> r is Ok,
    {
        match self.fetch_edges_required(cs_id) {
            Ok(edges) => Ok(edges.node.generation),
            Err(e) => Err(e),
        }
    }

    /// The changesets that name `cs_id` as a parent.
    pub fn changeset_children(&self, cs_id: ChangesetId) -> (r: Result<
        Vec<ChangesetId>,
        CommitGraphError,
    >)
        requires
            self.wf(),
        ensures
            r matches Ok(children) ==> children@.no_duplicates() && forall|c: ChangesetId|
                children@.contains(c) <==> is_parent(self@, cs_id, c),
            r matches Err(e) ==> fetch_failure(e, self.reliable()),
            self.reliable() ==> r is Ok,
    {
        self.storage.fetch_children(cs_id)
    }

    /// Whether `ancestor` is `descendant` itself or one of its ancestors.
    /// Both must be in the graph; where neither is, `descendant` is reported.
    pub fn is_ancestor(&self, ancestor: ChangesetId, descendant: ChangesetId) -> (r: Result<
        bool,
        CommitGraphError,
    >)
        requires
            self.wf(),
        ensures
            r matches Ok(yes) ==> self@.contains_key(ancestor) && self@.contains_key(descendant)
                && yes == is_ancestor(self@, ancestor, descendant),
            r matches Err(e) ==> {
                ||| fetch_failure(e, self.reliable())
                ||| e == CommitGraphError::NotFound(descendant) && !self@.contains_key(descendant)
                ||| e == CommitGraphError::NotFound(ancestor) && !self@.contains_key(ancestor)
                    && self@.contains_key(descendant)
            },
            self.reliable() && self@.contains_key(ancestor) && self@.contains_key(descendant)
                ==> r is Ok,
    {
        let mut frontier = match self.single_frontier(descendant) {
            Ok(frontier) => frontier,
            Err(e) => {
                return Err(e);
            },
        };
        let target = match self.changeset_generation_required(ancestor) {
            Ok(target) => target,
            Err(e) => {
                return Err(e);
            },
        };
        let ghost start = frontier@;
        match self.lower_frontier(&mut frontier, target) {
            Ok(()) => {},
            Err(e) => {
                return Err(e);
            },
        }
        let yes = frontier.highest_generation_contains(ancestor, target);
        proof {
            let g = self@;
            assert(edges_wf(g, ancestor));
            assert(edges_wf(g, descendant));
            assert(g[ancestor].node == ChangesetNode { cs_id: ancestor, generation: target });
            lemma_lowered_exact(g, start, frontier@, ancestor);
            if is_ancestor(g, ancestor, descendant) {
                assert(start.contains(g[descendant].node));
                assert(reaches(g, start, ancestor));
            }
            if reaches(g, start, ancestor) {
                let n = choose|n: ChangesetNode| #[trigger]
                    start.contains(n) && is_ancestor(g, ancestor, n.cs_id);
                assert(n == g[descendant].node);
            }
        }
        Ok(yes)
    }

    /// The common ancestors of `u` and `v` of the highest generation at which
    /// they have any, in ascending order of identifier.
    pub fn common_base(&self, u: ChangesetId, v: ChangesetId) -> (r: Result<
        Vec<ChangesetId>,
        CommitGraphError,
    >)
        requires
            self.wf(),
        ensures
            r matches Ok(bases) ==> self@.contains_key(u) && self@.contains_key(v)
                && strictly_ascending(bases@) && forall|x: ChangesetId|
                bases@.contains(x) <==> is_common_base(self@, x, u, v),
            r matches Err(e) ==> {
                ||| fetch_failure(e, self.reliable())
                ||| e == CommitGraphError::NotFound(u) && !self@.contains_key(u)
                ||| e == CommitGraphError::NotFound(v) && !self@.contains_key(v)
                    && self@.contains_key(u)
            },
            self.reliable() && self@.contains_key(u) && self@.contains_key(v) ==> r is Ok,
    {
        let ghost g = self@;
        let mut u_frontier = match self.single_frontier(u) {
            Ok(frontier) => frontier,
            Err(e) => {
                return Err(e);
            },
        };
        let mut v_frontier = match self.single_frontier(v) {
            Ok(frontier) => frontier,
            Err(e) => {
                return Err(e);
            },
        };
        proof {
            lemma_base_start(g, u, v);
        }
        loop
            invariant
                self.wf(),
                g == self@,
                g.contains_key(u),
                g.contains_key(v),
                u_frontier.wf(),
                v_frontier.wf(),
                base_search(g, u, v, u_frontier@, v_frontier@),
            decreases u_frontier.highest(),
        {
            let u_gen = match u_frontier.last_generation() {
                Some(generation) => generation,
                None => {
                    let none: Vec<ChangesetId> = Vec::new();
                    proof {
                        lemma_base_empty(g, u, v, u_frontier@, v_frontier@);
                    }
                    return Ok(none);
                },
            };
            let ghost t = u_gen.value as nat;
            let ghost v_before = v_frontier@;
            match self.lower_frontier(&mut v_frontier, u_gen) {
                Ok(()) => {},
                Err(e) => {
                    return Err(e);
                },
            }
            proof {
                u_frontier.lemma_highest();
                v_frontier.lemma_highest();
                lemma_base_lower_v(g, u, v, u_frontier@, v_before, v_frontier@, t);
            }
            let intersection = u_frontier.highest_generation_intersection(&v_frontier);
            proof {
                lemma_base_top(
                    g,
                    u,
                    v,
                    u_frontier@,
                    v_frontier@,
                    t,
                    v_frontier.highest(),
                    intersection@,
                );
            }
            if intersection.len() > 0 {
                let bases = sort_changeset_ids(&intersection);
                return Ok(bases);
            }
            let first = match u_frontier.last_node() {
                Some(node) => node,
                None => {
                    let none: Vec<ChangesetId> = Vec::new();
                    return Ok(none);
                },
            };
            let first_edges = match self.fetch_edges_required(first.cs_id) {
                Ok(edges) => edges,
                Err(e) => {
                    return Err(e);
                },
            };
            let mut skipped = false;
            match first_edges.skip_tree_skew_ancestor {
                Some(ancestor) => {
                    let mut lowered_u = u_frontier.duplicate();
                    let mut lowered_v = v_frontier.duplicate();
                    match self.lower_frontier(&mut lowered_u, ancestor.generation) {
                        Ok(()) => {},
                        Err(e) => {
                            return Err(e);
                        },
                    }
                    match self.lower_frontier(&mut lowered_v, ancestor.generation) {
                        Ok(()) => {},
                        Err(e) => {
                            return Err(e);
                        },
                    }
                    if lowered_u.is_disjoint(&lowered_v) {
                        proof {
                            assert(edges_wf(g, first.cs_id));
                            assert(edges_wf(g, ancestor.cs_id));
                            lemma_ancestor_generation(g, ancestor.cs_id, first.cs_id);
                            lowered_u.lemma_highest();
                            lemma_base_skip(
                                g,
                                u,
                                v,
                                u_frontier@,
                                v_frontier@,
                                lowered_u@,
                                lowered_v@,
                                ancestor.generation.value as nat,
                            );
                        }
                        u_frontier = lowered_u;
                        v_frontier = lowered_v;
                        skipped = true;
                    }
                },
                None => {},
            }
            if !skipped {
                let ghost u_before = u_frontier@;
                match self.lower_frontier_highest_generation(&mut u_frontier) {
                    Ok(()) => {},
                    Err(e) => {
                        return Err(e);
                    },
                }
                proof {
                    lemma_base_step(g, u, v, u_before, v_frontier@, u_frontier@, t);
                }
            }
        }
    }
}

/// What the search for a common base keeps true of its two frontiers: each
/// holds ancestors of its own changeset only, and both still lead to every
/// common ancestor.
pub open spec fn base_search(
    g: Graph,
    u: ChangesetId,
    v: ChangesetId,
    fu: Set<ChangesetNode>,
    fv: Set<ChangesetNode>,
) -> bool {
    &&& frontier_in_graph(g, fu)
    &&& frontier_in_graph(g, fv)
    &&& forall|n: ChangesetNode| #[trigger] fu.contains(n) ==> is_ancestor(g, n.cs_id, u)
    &&& forall|n: ChangesetNode| #[trigger] fv.contains(n) ==> is_ancestor(g, n.cs_id, v)
    &&& forall|x: ChangesetId| #[trigger]
        is_common_ancestor(g, x, u, v) ==> reaches(g, fu, x) && reaches(g, fv, x)
}

proof fn lemma_base_start(g: Graph, u: ChangesetId, v: ChangesetId)
    requires
        graph_wf(g),
        g.contains_key(u),
        g.contains_key(v),
    ensures
        base_search(g, u, v, set![g[u].node], set![g[v].node]),
{
    let fu = set![g[u].node];
    let fv = set![g[v].node];
    assert(edges_wf(g, u));
    assert(edges_wf(g, v));
    assert(is_ancestor(g, u, u));
    assert(is_ancestor(g, v, v));
    assert forall|x: ChangesetId| #[trigger] is_common_ancestor(g, x, u, v) implies reaches(
        g,
        fu,
        x,
    ) && reaches(g, fv, x) by {
        assert(fu.contains(g[u].node));
        assert(fv.contains(g[v].node));
    }
}

proof fn lemma_base_empty(
    g: Graph,
    u: ChangesetId,
    v: ChangesetId,
    fu: Set<ChangesetNode>,
    fv: Set<ChangesetNode>,
)
    requires
        base_search(g, u, v, fu, fv),
        fu == Set::<ChangesetNode>::empty(),
    ensures
        forall|x: ChangesetId| !is_common_base(g, x, u, v),
{
    assert forall|x: ChangesetId| !is_common_base(g, x, u, v) by {
        if is_common_ancestor(g, x, u, v) {
            assert(reaches(g, fu, x));
        }
    }
}

proof fn lemma_base_lower_v(
    g: Graph,
    u: ChangesetId,
    v: ChangesetId,
    fu: Set<ChangesetNode>,
    fv: Set<ChangesetNode>,
    fv2: Set<ChangesetNode>,
    t: nat,
)
    requires
        base_search(g, u, v, fu, fv),
        frontier_in_graph(g, fv2),
        lowered(g, fv, fv2, t),
        forall|n: ChangesetNode| #[trigger] fu.contains(n) ==> n.generation.value <= t,
    ensures
        base_search(g, u, v, fu, fv2),
        forall|x: ChangesetId| #[trigger]
            is_common_ancestor(g, x, u, v) ==> generation_of(g, x) <= t,
{
    assert forall|n: ChangesetNode| #[trigger] fv2.contains(n) implies is_ancestor(
        g,
        n.cs_id,
        v,
    ) by {
        lemma_reached_is_ancestor(g, fv, n.cs_id, v);
    }
    assert forall|x: ChangesetId| #[trigger] is_common_ancestor(g, x, u, v) implies reaches(
        g,
        fv2,
        x,
    ) && generation_of(g, x) <= t by {
        let n = choose|n: ChangesetNode| #[trigger] fu.contains(n) && is_ancestor(g, x, n.cs_id);
        lemma_ancestor_generation(g, x, n.cs_id);
        assert(reaches(g, fv, x));
    }
}

proof fn lemma_base_top(
    g: Graph,
    u: ChangesetId,
    v: ChangesetId,
    fu: Set<ChangesetNode>,
    fv: Set<ChangesetNode>,
    t: nat,
    hv: nat,
    found: Seq<ChangesetId>,
)
    requires
        graph_wf(g),
        base_search(g, u, v, fu, fv),
        t <= u64::MAX,
        forall|n: ChangesetNode| #[trigger] fu.contains(n) ==> n.generation.value <= t,
        forall|n: ChangesetNode| #[trigger] fv.contains(n) ==> n.generation.value <= t,
        forall|n: ChangesetNode| #[trigger] fv.contains(n) ==> n.generation.value <= hv,
        fv == Set::<ChangesetNode>::empty() ==> hv == 0,
        fv != Set::<ChangesetNode>::empty() ==> exists|n: ChangesetNode| #[trigger]
            fv.contains(n) && n.generation.value == hv,
        forall|x: ChangesetId|
            found.contains(x) <==> t == hv && fu.contains(node_at(x, t)) && fv.contains(
                node_at(x, t),
            ),
    ensures
        found.len() > 0 ==> forall|x: ChangesetId|
            found.contains(x) <==> is_common_base(g, x, u, v),
        found.len() == 0 ==> forall|x: ChangesetId| #[trigger]
            is_common_ancestor(g, x, u, v) ==> generation_of(g, x) < t,
{
    assert forall|x: ChangesetId| #[trigger] is_common_ancestor(g, x, u, v) implies generation_of(
        g,
        x,
    ) <= t && (generation_of(g, x) == t ==> found.contains(x)) by {
        let n = choose|n: ChangesetNode| #[trigger] fu.contains(n) && is_ancestor(g, x, n.cs_id);
        lemma_ancestor_generation(g, x, n.cs_id);
        if generation_of(g, x) == t {
            lemma_reached_at_top(g, fu, x, t);
            lemma_reached_at_top(g, fv, x, t);
            assert(edges_wf(g, x));
            assert(g[x].node == node_at(x, t));
            assert(fv.contains(node_at(x, t)));
            assert(hv == t);
        }
    }
    assert forall|x: ChangesetId| found.contains(x) implies is_common_ancestor(g, x, u, v)
        && generation_of(g, x) == t by {
        assert(fu.contains(node_at(x, t)));
        assert(fv.contains(node_at(x, t)));
    }
    if found.len() > 0 {
        let z = found[0];
        assert(found.contains(z));
        assert forall|x: ChangesetId| found.contains(x) <==> is_common_base(g, x, u, v) by {
            if is_common_base(g, x, u, v) {
                assert(is_common_ancestor(g, z, u, v));
                assert(is_common_ancestor(g, x, u, v));
                assert(generation_of(g, x) == t);
            }
            if found.contains(x) {
                assert(is_common_ancestor(g, x, u, v));
            }
        }
    } else {
        assert forall|x: ChangesetId| #[trigger]
            is_common_ancestor(g, x, u, v) implies generation_of(g, x) < t by {
            if generation_of(g, x) == t {
                assert(found.contains(x));
            }
        }
    }
}

proof fn lemma_base_skip(
    g: Graph,
    u: ChangesetId,
    v: ChangesetId,
    fu: Set<ChangesetNode>,
    fv: Set<ChangesetNode>,
    lu: Set<ChangesetNode>,
    lv: Set<ChangesetNode>,
    a: nat,
)
    requires
        graph_wf(g),
        base_search(g, u, v, fu, fv),
        frontier_in_graph(g, lu),
        frontier_in_graph(g, lv),
        lowered(g, fu, lu, a),
        lowered(g, fv, lv, a),
        lu.disjoint(lv),
        a >= 1,
    ensures
        base_search(g, u, v, lu, lv),
{
    assert forall|n: ChangesetNode| #[trigger] lu.contains(n) implies is_ancestor(
        g,
        n.cs_id,
        u,
    ) by {
        lemma_reached_is_ancestor(g, fu, n.cs_id, u);
    }
    assert forall|n: ChangesetNode| #[trigger] lv.contains(n) implies is_ancestor(
        g,
        n.cs_id,
        v,
    ) by {
        lemma_reached_is_ancestor(g, fv, n.cs_id, v);
    }
    assert forall|x: ChangesetId| #[trigger] is_common_ancestor(g, x, u, v) implies reaches(
        g,
        lu,
        x,
    ) && reaches(g, lv, x) by {
        if generation_of(g, x) > a {
            let y = lemma_ancestor_at_generation(g, x, a);
            lemma_ancestor_transitive(g, y, x, u);
            lemma_ancestor_transitive(g, y, x, v);
            assert(is_common_ancestor(g, y, u, v));
            assert(reaches(g, fu, y) && reaches(g, fv, y));
            assert(reaches(g, lu, y));
            assert(reaches(g, lv, y));
            lemma_reached_at_top(g, lu, y, a);
            lemma_reached_at_top(g, lv, y, a);
            assert(lu.contains(g[y].node) && lv.contains(g[y].node));
            assert(false);
        }
        assert(reaches(g, fu, x) && reaches(g, fv, x));
    }
}

#[verifier::rlimit(30)]
proof fn lemma_base_step(
    g: Graph,
    u: ChangesetId,
    v: ChangesetId,
    fu: Set<ChangesetNode>,
    fv: Set<ChangesetNode>,
    fu2: Set<ChangesetNode>,
    t: nat,
)
    requires
        graph_wf(g),
        base_search(g, u, v, fu, fv),
        frontier_in_graph(g, fu2),
        forall|x: ChangesetId| #[trigger]
            is_common_ancestor(g, x, u, v) ==> generation_of(g, x) < t,
        forall|n: ChangesetNode| #[trigger]
            fu.contains(n) && n.generation.value < t ==> fu2.contains(n),
        forall|n: ChangesetNode| #[trigger] fu.contains(n) ==> n.generation.value <= t,
        forall|id: ChangesetId, j: int|
            fu.contains(node_at(id, t)) && 0 <= j < g[id].parents.len() ==> fu2.contains(
                #[trigger] g[id].parents[j],
            ),
        forall|n: ChangesetNode| #[trigger]
            fu2.contains(n) ==> (fu.contains(n) && n.generation.value < t) || exists|
                id: ChangesetId,
            | #[trigger] fu.contains(node_at(id, t)) && g[id].parents.contains(n),
    ensures
        base_search(g, u, v, fu2, fv),
{
    assert forall|n: ChangesetNode| #[trigger] fu2.contains(n) implies is_ancestor(
        g,
        n.cs_id,
        u,
    ) by {
        if !fu.contains(n) {
            let id = choose|id: ChangesetId| #[trigger]
                fu.contains(node_at(id, t)) && g[id].parents.contains(n);
            let j = choose|j: int| 0 <= j < g[id].parents.len() && g[id].parents[j] == n;
            assert(g.contains_key(node_at(id, t).cs_id));
            lemma_parent_below(g, id, j);
            assert(is_ancestor(g, node_at(id, t).cs_id, u));
            lemma_ancestor_transitive(g, n.cs_id, id, u);
        }
    }
    assert forall|x: ChangesetId| #[trigger] is_common_ancestor(g, x, u, v) implies reaches(
        g,
        fu2,
        x,
    ) by {
        let n = choose|n: ChangesetNode| #[trigger] fu.contains(n) && is_ancestor(g, x, n.cs_id);
        if n.generation.value < t {
            assert(fu2.contains(n));
        } else {
            assert(n == node_at(n.cs_id, t));
            let j = lemma_strict_ancestor_parent(g, x, n.cs_id);
            assert(fu2.contains(g[n.cs_id].parents[j]));
        }
    }
}

} // verus!
