//! The search for the ancestors of some heads at which a property that
//! passes from a changeset to its parents first holds.

use vstd::prelude::*;
use crate::graph::{
    edges_wf, frontier_in_graph, generation_of, graph_wf, is_ancestor, is_ancestor_of_any,
    is_parent, lemma_ancestor_transitive, lemma_parent_below,
    lemma_reaches_nodes_of, lemma_strict_ancestor_parent, nodes_of, reaches, Graph,
};
use crate::storage::CommitGraphStorage;
use crate::traversal::{fetch_failure, CommitGraph};
use crate::types::{node_at, ChangesetId, ChangesetNode, CommitGraphError, Prefetch};

verus! {

/// `answer` is what the property may say of the changeset.
pub open spec fn says<P: Fn(ChangesetId) -> Result<bool, CommitGraphError>>(
    property: P,
    id: ChangesetId,
    answer: bool,
) -> bool {
    call_ensures(property, (id,), Ok::<bool, CommitGraphError>(answer))
}

/// `x` is an ancestor of one of the changesets found.
pub open spec fn covered(g: Graph, out: Seq<ChangesetId>, x: ChangesetId) -> bool {
    exists|c: ChangesetId| #[trigger] out.contains(c) && is_ancestor(g, x, c)
}

/// The path starts at one of the heads and goes from each changeset to one
/// of its parents, and the property was denied of every changeset on it but
/// the last.
pub open spec fn failing_path(
    g: Graph,
    heads: Seq<ChangesetId>,
    fails: spec_fn(ChangesetId) -> bool,
    path: Seq<ChangesetId>,
) -> bool {
    &&& path.len() > 0
    &&& heads.contains(path[0])
    &&& forall|i: int|
        0 <= i < path.len() - 1 ==> fails(#[trigger] path[i]) && is_parent(g, path[i + 1], path[i])
}

/// The search comes to `x`: it is a head, or a parent of a changeset that
/// the search comes to and of which the property is denied.
pub open spec fn explored(
    g: Graph,
    heads: Seq<ChangesetId>,
    fails: spec_fn(ChangesetId) -> bool,
    x: ChangesetId,
) -> bool {
    exists|path: Seq<ChangesetId>| #[trigger]
        failing_path(g, heads, fails, path) && path.last() == x
}

/// The property never both holds and fails for one changeset.
pub open spec fn decided<P: Fn(ChangesetId) -> Result<bool, CommitGraphError>>(property: P) -> bool {
    forall|id: ChangesetId| !(#[trigger] says(property, id, true) && says(property, id, false))
}

/// What the search keeps true of the changesets found so far and of the
/// frontier that is still to be gone through.
pub open spec fn search_state(
    g: Graph,
    heads: Seq<ChangesetId>,
    holds: spec_fn(ChangesetId) -> bool,
    fails: spec_fn(ChangesetId) -> bool,
    out: Seq<ChangesetId>,
    f: Set<ChangesetNode>,
) -> bool {
    &&& forall|x: ChangesetId| #[trigger]
        out.contains(x) ==> is_ancestor_of_any(g, x, heads) && holds(x) && explored(
            g,
            heads,
            fails,
            x,
        )
    &&& forall|x: ChangesetId| #[trigger]
        is_ancestor_of_any(g, x, heads) ==> covered(g, out, x) || reaches(g, f, x) || fails(x)
    &&& forall|n: ChangesetNode| #[trigger]
        f.contains(n) ==> is_ancestor_of_any(g, n.cs_id, heads) && explored(
            g,
            heads,
            fails,
            n.cs_id,
        )
}

/// Every path of the search has a changeset in the frontier, unless its
/// last changeset was found or denied the property.
pub open spec fn paths_on_the_way(
    g: Graph,
    heads: Seq<ChangesetId>,
    fails: spec_fn(ChangesetId) -> bool,
    out: Seq<ChangesetId>,
    f: Set<ChangesetNode>,
) -> bool {
    forall|path: Seq<ChangesetId>| #[trigger]
        failing_path(g, heads, fails, path) ==> on_the_way(g, path, out, f) || fails(path.last())
}

/// A changeset of the path is in the frontier, or the last one was found.
pub open spec fn on_the_way(
    g: Graph,
    path: Seq<ChangesetId>,
    out: Seq<ChangesetId>,
    f: Set<ChangesetNode>,
) -> bool {
    out.contains(path.last()) || exists|i: int|
        0 <= i < path.len() && g.contains_key(#[trigger] path[i]) && f.contains(g[path[i]].node)
}

proof fn lemma_search_begin(
    g: Graph,
    heads: Seq<ChangesetId>,
    holds: spec_fn(ChangesetId) -> bool,
    fails: spec_fn(ChangesetId) -> bool,
)
    requires
        graph_wf(g),
        forall|i: int| 0 <= i < heads.len() ==> g.contains_key(#[trigger] heads[i]),
    ensures
        search_state(g, heads, holds, fails, Seq::<ChangesetId>::empty(), nodes_of(g, heads)),
        paths_on_the_way(g, heads, fails, Seq::<ChangesetId>::empty(), nodes_of(g, heads)),
{
    let f = nodes_of(g, heads);
    assert forall|x: ChangesetId| #[trigger] is_ancestor_of_any(g, x, heads) implies reaches(
        g,
        f,
        x,
    ) by {
        lemma_reaches_nodes_of(g, heads, x);
    }
    assert forall|n: ChangesetNode| #[trigger] f.contains(n) implies is_ancestor_of_any(
        g,
        n.cs_id,
        heads,
    ) && explored(g, heads, fails, n.cs_id) by {
        let i = choose|i: int| 0 <= i < heads.len() && heads[i] == n.cs_id;
        assert(is_ancestor(g, n.cs_id, heads[i]));
        let path = seq![n.cs_id];
        assert(failing_path(g, heads, fails, path));
    }
    assert forall|path: Seq<ChangesetId>| #[trigger]
        failing_path(g, heads, fails, path) implies on_the_way(
        g,
        path,
        Seq::<ChangesetId>::empty(),
        f,
    ) by {
        let k = choose|k: int| 0 <= k < heads.len() && heads[k] == path[0];
        assert(g.contains_key(heads[k]));
        assert(edges_wf(g, path[0]));
        assert(f.contains(g[path[0]].node));
    }
}

#[verifier::rlimit(30)]
proof fn lemma_search_advance(
    g: Graph,
    heads: Seq<ChangesetId>,
    holds: spec_fn(ChangesetId) -> bool,
    fails: spec_fn(ChangesetId) -> bool,
    out: Seq<ChangesetId>,
    found: Seq<ChangesetId>,
    f: Set<ChangesetNode>,
    f2: Set<ChangesetNode>,
    t: nat,
)
    requires
        graph_wf(g),
        frontier_in_graph(g, f),
        search_state(g, heads, holds, fails, out, f),
        t <= u64::MAX,
        forall|n: ChangesetNode| #[trigger] f.contains(n) ==> n.generation.value <= t,
        out.no_duplicates(),
        found.no_duplicates(),
        forall|x: ChangesetId| #[trigger]
            out.contains(x) ==> g.contains_key(x) && generation_of(g, x) > t,
        forall|id: ChangesetId| #[trigger]
            found.contains(id) ==> f.contains(node_at(id, t)) && holds(id),
        forall|id: ChangesetId| #[trigger]
            f.contains(node_at(id, t)) ==> found.contains(id) || (fails(id) && forall|j: int|
                0 <= j < g[id].parents.len() ==> f2.contains(#[trigger] g[id].parents[j])),
        forall|n: ChangesetNode| #[trigger]
            f.contains(n) && n.generation.value < t ==> f2.contains(n),
        forall|n: ChangesetNode| #[trigger]
            f2.contains(n) ==> (f.contains(n) && n.generation.value < t) || exists|
                id: ChangesetId,
            | #[trigger]
                f.contains(node_at(id, t)) && !found.contains(id) && g[id].parents.contains(n),
    ensures
        search_state(g, heads, holds, fails, out + found, f2),
        (out + found).no_duplicates(),
        forall|x: ChangesetId| #[trigger]
            (out + found).contains(x) ==> g.contains_key(x) && generation_of(g, x) >= t,
{
    let all = out + found;
    assert forall|x: ChangesetId| all.contains(x) <==> out.contains(x) || found.contains(x) by {
        if all.contains(x) {
            let k = choose|k: int| 0 <= k < all.len() && all[k] == x;
            if k < out.len() {
                assert(out[k] == x);
            } else {
                assert(found[k - out.len()] == x);
            }
        }
        if out.contains(x) {
            let k = choose|k: int| 0 <= k < out.len() && out[k] == x;
            assert(all[k] == x);
        }
        if found.contains(x) {
            let k = choose|k: int| 0 <= k < found.len() && found[k] == x;
            assert(all[out.len() + k] == x);
        }
    }
    assert forall|x: ChangesetId| #[trigger] found.contains(x) implies g.contains_key(x)
        && generation_of(g, x) == t && is_ancestor_of_any(g, x, heads) && explored(
        g,
        heads,
        fails,
        x,
    ) by {
        let n = node_at(x, t);
        assert(f.contains(n));
    }
    assert forall|a: int, b: int| 0 <= a < b < all.len() implies all[a] != all[b] by {
        if a < out.len() && b >= out.len() {
            assert(out.contains(out[a]));
            assert(found.contains(found[b - out.len()]));
        }
    }
    assert forall|n: ChangesetNode| #[trigger] f2.contains(n) implies is_ancestor_of_any(
        g,
        n.cs_id,
        heads,
    ) && explored(g, heads, fails, n.cs_id) by {
        if !(f.contains(n) && n.generation.value < t) {
            let id = choose|id: ChangesetId| #[trigger]
                f.contains(node_at(id, t)) && !found.contains(id) && g[id].parents.contains(n);
            let c = node_at(id, t);
            assert(f.contains(c));
            assert(fails(id));
            let j = choose|j: int| 0 <= j < g[id].parents.len() && g[id].parents[j] == n;
            lemma_parent_below(g, id, j);
            let h = choose|h: int| 0 <= h < heads.len() && is_ancestor(g, id, #[trigger] heads[h]);
            lemma_ancestor_transitive(g, n.cs_id, id, heads[h]);
            assert(is_parent(g, n.cs_id, id));
            assert(explored(g, heads, fails, c.cs_id));
            lemma_explored_parent(g, heads, fails, id, n.cs_id);
        }
    }
    assert forall|x: ChangesetId| #[trigger] is_ancestor_of_any(g, x, heads) implies covered(
        g,
        all,
        x,
    ) || reaches(g, f2, x) || fails(x) by {
        if covered(g, out, x) {
            let c = choose|c: ChangesetId| #[trigger] out.contains(c) && is_ancestor(g, x, c);
            assert(all.contains(c));
        } else if reaches(g, f, x) {
            let n = choose|n: ChangesetNode| #[trigger] f.contains(n) && is_ancestor(g, x, n.cs_id);
            if n.generation.value < t {
                assert(f2.contains(n));
            } else {
                assert(n == node_at(n.cs_id, t));
                if found.contains(n.cs_id) {
                    assert(all.contains(n.cs_id));
                } else if x != n.cs_id {
                    let j = lemma_strict_ancestor_parent(g, x, n.cs_id);
                    assert(f2.contains(g[n.cs_id].parents[j]));
                }
            }
        }
    }
}

/// Going through one generation keeps every path of the search on its way,
/// where the property never both holds and fails.
proof fn lemma_search_paths(
    g: Graph,
    heads: Seq<ChangesetId>,
    holds: spec_fn(ChangesetId) -> bool,
    fails: spec_fn(ChangesetId) -> bool,
    out: Seq<ChangesetId>,
    found: Seq<ChangesetId>,
    f: Set<ChangesetNode>,
    f2: Set<ChangesetNode>,
    t: nat,
)
    requires
        graph_wf(g),
        frontier_in_graph(g, f),
        paths_on_the_way(g, heads, fails, out, f),
        forall|id: ChangesetId| !(#[trigger] holds(id) && fails(id)),
        t <= u64::MAX,
        forall|n: ChangesetNode| #[trigger] f.contains(n) ==> n.generation.value <= t,
        forall|id: ChangesetId| #[trigger]
            found.contains(id) ==> f.contains(node_at(id, t)) && holds(id),
        forall|id: ChangesetId| #[trigger]
            f.contains(node_at(id, t)) ==> found.contains(id) || (fails(id) && forall|j: int|
                0 <= j < g[id].parents.len() ==> f2.contains(#[trigger] g[id].parents[j])),
        forall|n: ChangesetNode| #[trigger]
            f.contains(n) && n.generation.value < t ==> f2.contains(n),
    ensures
        paths_on_the_way(g, heads, fails, out + found, f2),
{
    let all = out + found;
    assert forall|path: Seq<ChangesetId>| #[trigger]
        failing_path(g, heads, fails, path) implies on_the_way(g, path, all, f2) || fails(
        path.last(),
    ) by {
        if on_the_way(g, path, out, f) {
            if out.contains(path.last()) {
                let k = choose|k: int| 0 <= k < out.len() && out[k] == path.last();
                assert(all[k] == path.last());
            } else {
                let i = choose|i: int|
                    0 <= i < path.len() && g.contains_key(#[trigger] path[i]) && f.contains(
                        g[path[i]].node,
                    );
                lemma_path_step(g, heads, holds, fails, out, found, f, f2, t, path, i);
            }
        }
    }
}

/// One path of the search, a changeset of which is in the frontier, stays
/// on its way through one generation.
proof fn lemma_path_step(
    g: Graph,
    heads: Seq<ChangesetId>,
    holds: spec_fn(ChangesetId) -> bool,
    fails: spec_fn(ChangesetId) -> bool,
    out: Seq<ChangesetId>,
    found: Seq<ChangesetId>,
    f: Set<ChangesetNode>,
    f2: Set<ChangesetNode>,
    t: nat,
    path: Seq<ChangesetId>,
    i: int,
)
    requires
        graph_wf(g),
        frontier_in_graph(g, f),
        failing_path(g, heads, fails, path),
        0 <= i < path.len(),
        g.contains_key(path[i]),
        f.contains(g[path[i]].node),
        forall|id: ChangesetId| !(#[trigger] holds(id) && fails(id)),
        t <= u64::MAX,
        forall|n: ChangesetNode| #[trigger] f.contains(n) ==> n.generation.value <= t,
        forall|id: ChangesetId| #[trigger]
            found.contains(id) ==> f.contains(node_at(id, t)) && holds(id),
        forall|id: ChangesetId| #[trigger]
            f.contains(node_at(id, t)) ==> found.contains(id) || (fails(id) && forall|j: int|
                0 <= j < g[id].parents.len() ==> f2.contains(#[trigger] g[id].parents[j])),
        forall|n: ChangesetNode| #[trigger]
            f.contains(n) && n.generation.value < t ==> f2.contains(n),
    ensures
        on_the_way(g, path, out + found, f2) || fails(path.last()),
{
    let all = out + found;
    let n = g[path[i]].node;
    assert(edges_wf(g, path[i]));
    if n.generation.value < t {
        assert(f2.contains(n));
    } else {
        assert(n == node_at(path[i], t));
        if i < path.len() - 1 {
            assert(fails(path[i]) && is_parent(g, path[i + 1], path[i]));
            assert(!holds(path[i]));
            let j = choose|j: int|
                0 <= j < g[path[i]].parents.len() && (#[trigger] g[path[i]].parents[j]).cs_id
                    == path[i + 1];
            assert(f2.contains(g[path[i]].parents[j]));
            assert(g.contains_key(path[i + 1]));
            assert(g[path[i + 1]].node == g[path[i]].parents[j]);
            assert(f2.contains(g[path[i + 1]].node));
        } else {
            if found.contains(path[i]) {
                let k = choose|k: int| 0 <= k < found.len() && found[k] == path[i];
                assert(all[out.len() + k] == path.last());
                assert(all.contains(path.last()));
            }
        }
    }
}

/// A parent of a changeset that the search comes to, and of which the
/// property is denied, is a changeset that the search comes to.
proof fn lemma_explored_parent(
    g: Graph,
    heads: Seq<ChangesetId>,
    fails: spec_fn(ChangesetId) -> bool,
    c: ChangesetId,
    p: ChangesetId,
)
    requires
        explored(g, heads, fails, c),
        fails(c),
        is_parent(g, p, c),
    ensures
        explored(g, heads, fails, p),
{
    let path = choose|path: Seq<ChangesetId>| #[trigger]
        failing_path(g, heads, fails, path) && path.last() == c;
    let longer = path.push(p);
    assert forall|i: int| 0 <= i < longer.len() - 1 implies fails(#[trigger] longer[i])
        && is_parent(g, longer[i + 1], longer[i]) by {
        if i < path.len() - 1 {
            assert(fails(path[i]) && is_parent(g, path[i + 1], path[i]));
            assert(longer[i] == path[i]);
            assert(longer[i + 1] == path[i + 1]);
        } else {
            assert(longer[i] == c);
            assert(longer[i + 1] == p);
        }
    }
    assert(longer[0] == path[0]);
    assert(failing_path(g, heads, fails, longer));
    assert(longer.last() == p);
}

impl<S: CommitGraphStorage> CommitGraph<S> {
    /// The ancestors of `heads` at which the property first holds, going
    /// down from the heads: each is a head or a parent of an ancestor of
    /// which the property was denied, and every ancestor of the heads is an
    /// ancestor of one of them or was denied the property. The property is
    /// meant to pass from a changeset to its parents.
    pub fn ancestors_frontier_with<P: Fn(ChangesetId) -> Result<bool, CommitGraphError>>(
        &self,
        heads: Vec<ChangesetId>,
        monotonic_property: P,
    ) -> (r: Result<Vec<ChangesetId>, CommitGraphError>)
        requires
            self.wf(),
            forall|id: ChangesetId| #[trigger] call_requires(monotonic_property, (id,)),
        ensures
            r matches Ok(out) ==> {
                &&& out@.no_duplicates()
                &&& forall|x: ChangesetId| #[trigger]
                    out@.contains(x) ==> is_ancestor_of_any(self@, x, heads@) && says(
                        monotonic_property,
                        x,
                        true,
                    ) && explored(
                        self@,
                        heads@,
                        |id: ChangesetId| says(monotonic_property, id, false),
                        x,
                    )
                &&& forall|x: ChangesetId| #[trigger]
                    is_ancestor_of_any(self@, x, heads@) ==> covered(self@, out@, x) || says(
                        monotonic_property,
                        x,
                        false,
                    )
                &&& decided(monotonic_property) ==> forall|x: ChangesetId|
                    explored(
                        self@,
                        heads@,
                        |id: ChangesetId| says(monotonic_property, id, false),
                        x,
                    ) && says(monotonic_property, x, true) ==> out@.contains(x)
            },
            r matches Err(e) ==> {
                ||| fetch_failure(e, self.reliable())
                ||| e matches CommitGraphError::NotFound(id) && heads@.contains(id)
                    && !self@.contains_key(id)
                ||| exists|id: ChangesetId| #[trigger]
                    call_ensures(monotonic_property, (id,), Err::<bool, CommitGraphError>(e))
            },
    {
        let ghost g = self@;
        let ghost holds = |id: ChangesetId| says(monotonic_property, id, true);
        let ghost fails = |id: ChangesetId| says(monotonic_property, id, false);
        let mut frontier = match self.frontier(&heads) {
            Ok(frontier) => frontier,
            Err(e) => {
                proof {
                    if !fetch_failure(e, self.reliable()) {
                        let i = choose|i: int|
                            0 <= i < heads@.len() && e == CommitGraphError::NotFound(
                                #[trigger] heads@[i],
                            ) && !self@.contains_key(heads@[i]);
                        assert(heads@.contains(heads@[i]));
                    }
                }
                return Err(e);
            },
        };
        let mut out: Vec<ChangesetId> = Vec::new();
        proof {
            lemma_search_begin(g, heads@, holds, fails);
            frontier.lemma_highest();
        }
        loop
            invariant
                self.wf(),
                g == self@,
                holds == |id: ChangesetId| says(monotonic_property, id, true),
                fails == |id: ChangesetId| says(monotonic_property, id, false),
                forall|id: ChangesetId| #[trigger] call_requires(monotonic_property, (id,)),
                frontier.wf(),
                frontier_in_graph(g, frontier@),
                search_state(g, heads@, holds, fails, out@, frontier@),
                decided(monotonic_property) ==> paths_on_the_way(
                    g,
                    heads@,
                    fails,
                    out@,
                    frontier@,
                ),
                out@.no_duplicates(),
                forall|x: ChangesetId| #[trigger]
                    out@.contains(x) ==> g.contains_key(x) && generation_of(g, x)
                        > frontier.highest(),
            decreases frontier.highest(),
        {
            let ghost f = frontier@;
            let ghost t = frontier.highest();
            let ghost before = out@;
            proof {
                frontier.lemma_highest();
            }
            match self.lower_frontier_step(&mut frontier, &monotonic_property, Prefetch::NoHint) {
                Ok(Some(found)) => {
                    let mut found = found;
                    proof {
                        assert forall|id: ChangesetId| #[trigger]
                            f.contains(node_at(id, t)) implies found@.contains(id) || (fails(id)
                            && forall|j: int|
                            0 <= j < g[id].parents.len() ==> frontier@.contains(
                                #[trigger] g[id].parents[j],
                            )) by {
                            if !found@.contains(id) {
                                assert(call_ensures(monotonic_property, (id,), Ok(false)));
                            }
                        }
                        assert forall|id: ChangesetId| #[trigger]
                            found@.contains(id) implies f.contains(node_at(id, t)) && holds(
                            id,
                        ) by {
                            assert(call_ensures(monotonic_property, (id,), Ok(true)));
                        }
                        lemma_search_advance(
                            g,
                            heads@,
                            holds,
                            fails,
                            before,
                            found@,
                            f,
                            frontier@,
                            t,
                        );
                        if decided(monotonic_property) {
                            assert forall|id: ChangesetId| !(#[trigger] holds(id) && fails(id)) by {
                                assert(!(says(monotonic_property, id, true) && says(
                                    monotonic_property,
                                    id,
                                    false,
                                )));
                            }
                            lemma_search_paths(
                                g,
                                heads@,
                                holds,
                                fails,
                                before,
                                found@,
                                f,
                                frontier@,
                                t,
                            );
                        }
                    }
                    out.append(&mut found);
                },
                Ok(None) => {
                    proof {
                        assert forall|x: ChangesetId| #[trigger]
                            is_ancestor_of_any(g, x, heads@) implies covered(g, out@, x) || says(
                            monotonic_property,
                            x,
                            false,
                        ) by {
                            assert(covered(g, out@, x) || reaches(g, frontier@, x) || fails(x));
                        }
                        if decided(monotonic_property) {
                            assert forall|id: ChangesetId| !(#[trigger] holds(id) && fails(id)) by {
                                assert(!(says(monotonic_property, id, true) && says(
                                    monotonic_property,
                                    id,
                                    false,
                                )));
                            }
                            assert forall|x: ChangesetId|
                                explored(g, heads@, fails, x) && says(
                                    monotonic_property,
                                    x,
                                    true,
                                ) implies out@.contains(x) by {
                                let path = choose|path: Seq<ChangesetId>| #[trigger]
                                    failing_path(g, heads@, fails, path) && path.last() == x;
                                assert(on_the_way(g, path, out@, frontier@) || fails(x));
                                assert(holds(x));
                            }
                        }
                    }
                    return Ok(out);
                },
                Err(e) => {
                    proof {

                    }
                    return Err(e);
                },
            }
        }
    }
}

} // verus!
