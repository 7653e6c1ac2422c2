//! The mathematical model of the commit graph: a map from changeset
//! identifiers to edge records, what makes such a map a well-formed graph,
//! and what ancestry means in it.

use vstd::prelude::*;
use crate::types::{node_at, ChangesetId, ChangesetNode, EdgesView, Generation};

verus! {

/// The graph as a map from each stored changeset to its edge record.
pub type Graph = Map<ChangesetId, EdgesView>;

/// The generation recorded for a stored changeset.
pub open spec fn generation_of(g: Graph, id: ChangesetId) -> nat {
    g[id].node.generation.value as nat
}

/// The highest generation among the given nodes, and 0 where there are none.
pub open spec fn max_generation(nodes: Seq<ChangesetNode>) -> nat
    decreases nodes.len(),
{
    if nodes.len() == 0 {
        0
    } else {
        let rest = max_generation(nodes.drop_last());
        let last = nodes.last().generation.value as nat;
        if last > rest {
            last
        } else {
            rest
        }
    }
}

/// `p` is one of the recorded parents of `c`.
pub open spec fn is_parent(g: Graph, p: ChangesetId, c: ChangesetId) -> bool {
    g.contains_key(c) && exists|i: int|
        0 <= i < g[c].parents.len() && (#[trigger] g[c].parents[i]).cs_id == p
}

/// `a` is `d` itself or can be reached from `d` by following parents.
pub open spec fn is_ancestor(g: Graph, a: ChangesetId, d: ChangesetId) -> bool
    decreases generation_of(g, d),
{
    &&& g.contains_key(a)
    &&& g.contains_key(d)
    &&& (a == d || exists|i: int|
        0 <= i < g[d].parents.len() && g.contains_key((#[trigger] g[d].parents[i]).cs_id)
            && generation_of(g, g[d].parents[i].cs_id) < generation_of(g, d) && is_ancestor(
            g,
            a,
            g[d].parents[i].cs_id,
        ))
}

/// `s` is an ancestor of `c` through which every ancestor of `c` at or below
/// the generation of `s` is reached.
pub open spec fn dominates(g: Graph, s: ChangesetId, c: ChangesetId) -> bool {
    &&& is_ancestor(g, s, c)
    &&& forall|x: ChangesetId|
        #[trigger] is_ancestor(g, x, c) && generation_of(g, x) <= generation_of(g, s)
            ==> is_ancestor(g, x, s)
}

/// The record stored for `id` agrees with the rest of the graph.
pub open spec fn edges_wf(g: Graph, id: ChangesetId) -> bool {
    let e = g[id];
    &&& e.node.cs_id == id
    &&& e.node.generation.value == 1 + max_generation(e.parents)
    &&& forall|i: int|
        0 <= i < e.parents.len() ==> g.contains_key((#[trigger] e.parents[i]).cs_id)
            && g[e.parents[i].cs_id].node == e.parents[i]
    &&& match e.skew_ancestor {
        Some(s) => g.contains_key(s.cs_id) && g[s.cs_id].node == s && s.cs_id != id && dominates(
            g,
            s.cs_id,
            id,
        ),
        None => true,
    }
}

/// Every stored record agrees with the rest of the graph: parents are stored,
/// generations are one more than the highest parent generation, and skip
/// pointers lead to dominating ancestors.
pub open spec fn graph_wf(g: Graph) -> bool {
    forall|id: ChangesetId| #[trigger] g.contains_key(id) ==> edges_wf(g, id)
}

/// Every node of the frontier is stored in the graph with that generation.
pub open spec fn frontier_in_graph(g: Graph, f: Set<ChangesetNode>) -> bool {
    forall|n: ChangesetNode| #[trigger]
        f.contains(n) ==> g.contains_key(n.cs_id) && g[n.cs_id].node == n
}

/// `x` is an ancestor of some node of the frontier.
pub open spec fn reaches(g: Graph, f: Set<ChangesetNode>, x: ChangesetId) -> bool {
    exists|n: ChangesetNode| #[trigger] f.contains(n) && is_ancestor(g, x, n.cs_id)
}

/// The nodes that the graph stores for the given changesets.
pub open spec fn nodes_of(g: Graph, ids: Seq<ChangesetId>) -> Set<ChangesetNode> {
    Set::new(
        |n: ChangesetNode| ids.contains(n.cs_id) && g.contains_key(n.cs_id) && g[n.cs_id].node == n,
    )
}

/// `x` is an ancestor of one of the given changesets.
pub open spec fn is_ancestor_of_any(g: Graph, x: ChangesetId, heads: Seq<ChangesetId>) -> bool {
    exists|i: int| 0 <= i < heads.len() && is_ancestor(g, x, #[trigger] heads[i])
}

/// `cur` is on the way from `start` down to `bound`: its nodes descend from
/// `start`, it still holds what `start` had at or below `bound`, and it still
/// leads to every ancestor of `start` at or below `bound`.
pub open spec fn partially_lowered(
    g: Graph,
    start: Set<ChangesetNode>,
    cur: Set<ChangesetNode>,
    bound: nat,
) -> bool {
    &&& forall|n: ChangesetNode| #[trigger] cur.contains(n) ==> reaches(g, start, n.cs_id)
    &&& forall|n: ChangesetNode| #[trigger]
        start.contains(n) && n.generation.value <= bound ==> cur.contains(n)
    &&& forall|x: ChangesetId| #[trigger]
        reaches(g, start, x) && generation_of(g, x) <= bound ==> reaches(g, cur, x)
}

/// `after` is `before` lowered to `bound`: no node of it is above `bound`,
/// each descends from `before`, and nothing that `before` led to at or below
/// `bound` was lost.
pub open spec fn lowered(
    g: Graph,
    before: Set<ChangesetNode>,
    after: Set<ChangesetNode>,
    bound: nat,
) -> bool {
    &&& partially_lowered(g, before, after, bound)
    &&& forall|n: ChangesetNode| #[trigger] after.contains(n) ==> n.generation.value <= bound
}

/// No node is above its own highest generation.
pub proof fn lemma_max_generation_bounds(nodes: Seq<ChangesetNode>, i: int)
    requires
        0 <= i < nodes.len(),
    ensures
        nodes[i].generation.value <= max_generation(nodes),
    decreases nodes.len(),
{
    if i < nodes.len() - 1 {
        lemma_max_generation_bounds(nodes.drop_last(), i);
    }
}

/// The highest generation is the generation of one of the nodes.
pub proof fn lemma_max_generation_witness(nodes: Seq<ChangesetNode>) -> (i: int)
    requires
        nodes.len() > 0,
    ensures
        0 <= i < nodes.len(),
        nodes[i].generation.value == max_generation(nodes),
    decreases nodes.len(),
{
    let last = nodes.last().generation.value as nat;
    if nodes.len() == 1 {
        assert(max_generation(nodes.drop_last()) == 0);
        0
    } else if last > max_generation(nodes.drop_last()) {
        nodes.len() - 1
    } else {
        lemma_max_generation_witness(nodes.drop_last())
    }
}

/// In a well-formed graph a parent is stored and lies strictly below its child.
pub proof fn lemma_parent_below(g: Graph, c: ChangesetId, i: int)
    requires
        graph_wf(g),
        g.contains_key(c),
        0 <= i < g[c].parents.len(),
    ensures
        g.contains_key(g[c].parents[i].cs_id),
        g[g[c].parents[i].cs_id].node == g[c].parents[i],
        generation_of(g, g[c].parents[i].cs_id) < generation_of(g, c),
        is_ancestor(g, g[c].parents[i].cs_id, c),
{
    lemma_max_generation_bounds(g[c].parents, i);
    let p = g[c].parents[i];
    assert(g.contains_key(p.cs_id));
    assert(is_ancestor(g, p.cs_id, p.cs_id));
}

/// An ancestor has a generation no higher than its descendant, and the same
/// generation only where the two are the same changeset.
pub proof fn lemma_ancestor_generation(g: Graph, a: ChangesetId, d: ChangesetId)
    requires
        is_ancestor(g, a, d),
    ensures
        g.contains_key(a),
        g.contains_key(d),
        generation_of(g, a) <= generation_of(g, d),
        generation_of(g, a) == generation_of(g, d) ==> a == d,
    decreases generation_of(g, d),
{
    if a != d {
        let i = choose|i: int|
            0 <= i < g[d].parents.len() && g.contains_key((#[trigger] g[d].parents[i]).cs_id)
                && generation_of(g, g[d].parents[i].cs_id) < generation_of(g, d) && is_ancestor(
                g,
                a,
                g[d].parents[i].cs_id,
            );
        lemma_ancestor_generation(g, a, g[d].parents[i].cs_id);
    }
}

/// Ancestry is transitive.
pub proof fn lemma_ancestor_transitive(g: Graph, a: ChangesetId, b: ChangesetId, c: ChangesetId)
    requires
        is_ancestor(g, a, b),
        is_ancestor(g, b, c),
    ensures
        is_ancestor(g, a, c),
    decreases generation_of(g, c),
{
    if b != c {
        let i = choose|i: int|
            0 <= i < g[c].parents.len() && g.contains_key((#[trigger] g[c].parents[i]).cs_id)
                && generation_of(g, g[c].parents[i].cs_id) < generation_of(g, c) && is_ancestor(
                g,
                b,
                g[c].parents[i].cs_id,
            );
        lemma_ancestor_transitive(g, a, b, g[c].parents[i].cs_id);
    }
}

/// An ancestor of a parent is an ancestor of the child.
pub proof fn lemma_ancestor_through_parent(g: Graph, a: ChangesetId, c: ChangesetId, i: int)
    requires
        graph_wf(g),
        g.contains_key(c),
        0 <= i < g[c].parents.len(),
        is_ancestor(g, a, g[c].parents[i].cs_id),
    ensures
        is_ancestor(g, a, c),
{
    lemma_parent_below(g, c, i);
    lemma_ancestor_transitive(g, a, g[c].parents[i].cs_id, c);
}

/// A strict ancestor is an ancestor of one of the parents.
pub proof fn lemma_strict_ancestor_parent(g: Graph, a: ChangesetId, d: ChangesetId) -> (i: int)
    requires
        is_ancestor(g, a, d),
        a != d,
    ensures
        0 <= i < g[d].parents.len(),
        is_ancestor(g, a, g[d].parents[i].cs_id),
{
    choose|i: int|
        0 <= i < g[d].parents.len() && g.contains_key((#[trigger] g[d].parents[i]).cs_id)
            && generation_of(g, g[d].parents[i].cs_id) < generation_of(g, d) && is_ancestor(
            g,
            a,
            g[d].parents[i].cs_id,
        )
}

/// A changeset has an ancestor at every generation from 1 up to its own.
pub proof fn lemma_ancestor_at_generation(g: Graph, d: ChangesetId, k: nat) -> (x: ChangesetId)
    requires
        graph_wf(g),
        g.contains_key(d),
        1 <= k <= generation_of(g, d),
    ensures
        is_ancestor(g, x, d),
        generation_of(g, x) == k,
    decreases generation_of(g, d),
{
    if generation_of(g, d) == k {
        d
    } else {
        let i = lemma_max_generation_witness(g[d].parents);
        lemma_parent_below(g, d, i);
        let x = lemma_ancestor_at_generation(g, g[d].parents[i].cs_id, k);
        lemma_ancestor_through_parent(g, x, d, i);
        x
    }
}

/// Domination carries over from a dominated changeset to what it dominates.
pub proof fn lemma_dominates_transitive(g: Graph, a: ChangesetId, b: ChangesetId, c: ChangesetId)
    requires
        dominates(g, a, b),
        dominates(g, b, c),
    ensures
        dominates(g, a, c),
{
    lemma_ancestor_transitive(g, a, b, c);
    lemma_ancestor_generation(g, a, b);
    assert forall|x: ChangesetId|
        #[trigger] is_ancestor(g, x, c) && generation_of(g, x) <= generation_of(
            g,
            a,
        ) implies is_ancestor(g, x, a) by {
        assert(is_ancestor(g, x, b));
    }
}

/// The skip pointer given to a new changeset with the given parent nodes:
/// none unless it has exactly one parent; otherwise the skip ancestor of the
/// parent's skip ancestor where the two jumps are equally long, and the
/// parent itself where they are not.
pub open spec fn skew_choice(g: Graph, parents: Seq<ChangesetNode>) -> Option<ChangesetNode> {
    if parents.len() != 1 {
        None
    } else {
        let p = parents[0];
        match g[p.cs_id].skew_ancestor {
            None => Some(p),
            Some(ps) => match g[ps.cs_id].skew_ancestor {
                None => Some(p),
                Some(pss) => if p.generation.value - ps.generation.value == ps.generation.value
                    - pss.generation.value {
                    Some(pss)
                } else {
                    Some(p)
                },
            },
        }
    }
}

/// The nodes stored for the given parents, in their order.
pub open spec fn parent_nodes(g: Graph, parents: Seq<ChangesetId>) -> Seq<ChangesetNode> {
    Seq::new(parents.len(), |i: int| g[parents[i]].node)
}

/// The record built for a new changeset with the given parents.
pub open spec fn new_edges(g: Graph, cs_id: ChangesetId, parents: Seq<ChangesetId>) -> EdgesView {
    let nodes = parent_nodes(g, parents);
    EdgesView {
        node: ChangesetNode {
            cs_id,
            generation: Generation { value: (1 + max_generation(nodes)) as u64 },
        },
        parents: nodes,
        skew_ancestor: skew_choice(g, nodes),
    }
}

/// Adding a changeset changes nothing about the ancestry of those that were
/// there before.
pub proof fn lemma_insert_keeps_ancestry(
    g: Graph,
    id: ChangesetId,
    e: EdgesView,
    x: ChangesetId,
    y: ChangesetId,
)
    requires
        graph_wf(g),
        !g.contains_key(id),
        g.contains_key(y),
    ensures
        is_ancestor(g.insert(id, e), x, y) == is_ancestor(g, x, y),
    decreases generation_of(g, y),
{
    let h = g.insert(id, e);
    assert(h[y] == g[y]);
    assert forall|i: int| 0 <= i < g[y].parents.len() implies is_ancestor(
        h,
        x,
        (#[trigger] g[y].parents[i]).cs_id,
    ) == is_ancestor(g, x, g[y].parents[i].cs_id) && g.contains_key(g[y].parents[i].cs_id)
        && generation_of(g, g[y].parents[i].cs_id) < generation_of(g, y) by {
        lemma_parent_below(g, y, i);
        lemma_insert_keeps_ancestry(g, id, e, x, g[y].parents[i].cs_id);
    }
    if x != y {
        if is_ancestor(h, x, y) {
            let i = choose|i: int|
                0 <= i < h[y].parents.len() && h.contains_key((#[trigger] h[y].parents[i]).cs_id)
                    && generation_of(h, h[y].parents[i].cs_id) < generation_of(h, y)
                    && is_ancestor(h, x, h[y].parents[i].cs_id);
            assert(is_ancestor(g, x, g[y].parents[i].cs_id));
            lemma_ancestor_generation(g, x, g[y].parents[i].cs_id);
            assert(is_ancestor(g, x, y));
        }
        if is_ancestor(g, x, y) {
            let i = choose|i: int|
                0 <= i < g[y].parents.len() && g.contains_key((#[trigger] g[y].parents[i]).cs_id)
                    && generation_of(g, g[y].parents[i].cs_id) < generation_of(g, y)
                    && is_ancestor(g, x, g[y].parents[i].cs_id);
            assert(is_ancestor(h, x, h[y].parents[i].cs_id));
            assert(h[h[y].parents[i].cs_id] == g[g[y].parents[i].cs_id]);
            assert(is_ancestor(h, x, y));
        }
    }
}

/// Domination among the changesets that were there before is kept when a
/// changeset is added.
pub proof fn lemma_insert_keeps_domination(
    g: Graph,
    id: ChangesetId,
    e: EdgesView,
    s: ChangesetId,
    c: ChangesetId,
)
    requires
        graph_wf(g),
        !g.contains_key(id),
        dominates(g, s, c),
    ensures
        dominates(g.insert(id, e), s, c),
{
    let h = g.insert(id, e);
    lemma_ancestor_generation(g, s, c);
    lemma_insert_keeps_ancestry(g, id, e, s, c);
    assert forall|x: ChangesetId|
        #[trigger] is_ancestor(h, x, c) && generation_of(h, x) <= generation_of(
            h,
            s,
        ) implies is_ancestor(h, x, s) by {
        lemma_insert_keeps_ancestry(g, id, e, x, c);
        lemma_ancestor_generation(g, x, c);
        assert(h[x] == g[x]);
        assert(h[s] == g[s]);
        assert(is_ancestor(g, x, s));
        lemma_insert_keeps_ancestry(g, id, e, x, s);
    }
}

/// A record that names stored parents, has the generation that follows from
/// them and points, if anywhere, to its only parent or to a changeset that
/// dominates that parent, can be added to a well-formed graph.
pub proof fn lemma_insert_wf(g: Graph, id: ChangesetId, e: EdgesView)
    requires
        graph_wf(g),
        !g.contains_key(id),
        e.node.cs_id == id,
        e.node.generation.value == 1 + max_generation(e.parents),
        forall|i: int|
            0 <= i < e.parents.len() ==> g.contains_key((#[trigger] e.parents[i]).cs_id)
                && g[e.parents[i].cs_id].node == e.parents[i],
        match e.skew_ancestor {
            Some(s) => e.parents.len() == 1 && g.contains_key(s.cs_id) && g[s.cs_id].node == s
                && dominates(g, s.cs_id, e.parents[0].cs_id),
            None => true,
        },
    ensures
        graph_wf(g.insert(id, e)),
{
    let h = g.insert(id, e);
    assert forall|k: ChangesetId| #[trigger] h.contains_key(k) implies edges_wf(h, k) by {
        if k == id {
            assert forall|i: int| 0 <= i < e.parents.len() implies h.contains_key(
                (#[trigger] e.parents[i]).cs_id,
            ) && h[e.parents[i].cs_id].node == e.parents[i] by {
                assert(g.contains_key(e.parents[i].cs_id));
            }
            match e.skew_ancestor {
                Some(s) => {
                    let p = e.parents[0];
                    lemma_max_generation_bounds(e.parents, 0);
                    assert(h[p.cs_id] == g[p.cs_id]);
                    assert(h[s.cs_id] == g[s.cs_id]);
                    assert(is_ancestor(g, p.cs_id, p.cs_id));
                    lemma_insert_keeps_ancestry(g, id, e, p.cs_id, p.cs_id);
                    assert(h.contains_key(h[id].parents[0].cs_id));
                    assert(is_ancestor(h, p.cs_id, id));
                    lemma_insert_keeps_ancestry(g, id, e, s.cs_id, p.cs_id);
                    lemma_ancestor_transitive(h, s.cs_id, p.cs_id, id);
                    lemma_ancestor_generation(g, s.cs_id, p.cs_id);
                    assert forall|x: ChangesetId|
                        #[trigger] is_ancestor(h, x, id) && generation_of(h, x) <= generation_of(
                            h,
                            s.cs_id,
                        ) implies is_ancestor(h, x, s.cs_id) by {
                        if x != id {
                            let i = lemma_strict_ancestor_parent(h, x, id);
                            lemma_insert_keeps_ancestry(g, id, e, x, p.cs_id);
                            lemma_ancestor_generation(g, x, p.cs_id);
                            assert(h[x] == g[x]);
                            assert(is_ancestor(g, x, s.cs_id));
                            lemma_insert_keeps_ancestry(g, id, e, x, s.cs_id);
                        }
                    }
                },
                None => {},
            }
        } else {
            assert(h[k] == g[k]);
            assert(edges_wf(g, k));
            assert forall|i: int| 0 <= i < g[k].parents.len() implies h.contains_key(
                (#[trigger] g[k].parents[i]).cs_id,
            ) && h[g[k].parents[i].cs_id].node == g[k].parents[i] by {
                assert(g.contains_key(g[k].parents[i].cs_id));
            }
            match g[k].skew_ancestor {
                Some(s) => {
                    lemma_insert_keeps_domination(g, id, e, s.cs_id, k);
                    assert(h[s.cs_id] == g[s.cs_id]);
                },
                None => {},
            }
        }
    }
}

/// The record built for a new changeset whose parents are all stored can be
/// added to a well-formed graph, as long as its generation fits.
pub proof fn lemma_new_edges_wf(g: Graph, cs_id: ChangesetId, parents: Seq<ChangesetId>)
    requires
        graph_wf(g),
        !g.contains_key(cs_id),
        forall|i: int| 0 <= i < parents.len() ==> g.contains_key(#[trigger] parents[i]),
        1 + max_generation(parent_nodes(g, parents)) <= u64::MAX,
    ensures
        graph_wf(g.insert(cs_id, new_edges(g, cs_id, parents))),
{
    let e = new_edges(g, cs_id, parents);
    let nodes = parent_nodes(g, parents);
    assert forall|i: int| 0 <= i < nodes.len() implies g.contains_key((#[trigger] nodes[i]).cs_id)
        && g[nodes[i].cs_id].node == nodes[i] by {
        assert(g.contains_key(parents[i]));
        assert(edges_wf(g, parents[i]));
    }
    if nodes.len() == 1 {
        let p = nodes[0];
        assert(g.contains_key(p.cs_id));
        assert(edges_wf(g, p.cs_id));
        assert(is_ancestor(g, p.cs_id, p.cs_id));
        assert(dominates(g, p.cs_id, p.cs_id));
        match g[p.cs_id].skew_ancestor {
            None => {},
            Some(ps) => {
                assert(edges_wf(g, ps.cs_id));
                match g[ps.cs_id].skew_ancestor {
                    None => {},
                    Some(pss) => {
                        lemma_dominates_transitive(g, pss.cs_id, ps.cs_id, p.cs_id);
                    },
                }
            },
        }
    }
    lemma_insert_wf(g, cs_id, e);
}

/// The identifiers of the parents recorded for a changeset, in their order.
pub open spec fn parent_ids(g: Graph, id: ChangesetId) -> Seq<ChangesetId> {
    Seq::new(g[id].parents.len(), |i: int| g[id].parents[i].cs_id)
}

/// `x` is an ancestor of both `u` and `v`.
pub open spec fn is_common_ancestor(g: Graph, x: ChangesetId, u: ChangesetId, v: ChangesetId) -> bool {
    is_ancestor(g, x, u) && is_ancestor(g, x, v)
}

/// `x` is a common ancestor of `u` and `v`, and none has a higher generation.
pub open spec fn is_common_base(g: Graph, x: ChangesetId, u: ChangesetId, v: ChangesetId) -> bool {
    &&& is_common_ancestor(g, x, u, v)
    &&& forall|y: ChangesetId| #[trigger]
        is_common_ancestor(g, y, u, v) ==> generation_of(g, y) <= generation_of(g, x)
}

/// What a frontier in the graph leads to at or above its own generation is
/// one of its nodes.
pub proof fn lemma_reached_at_top(g: Graph, f: Set<ChangesetNode>, x: ChangesetId, bound: nat)
    requires
        frontier_in_graph(g, f),
        reaches(g, f, x),
        forall|n: ChangesetNode| #[trigger] f.contains(n) ==> n.generation.value <= bound,
        generation_of(g, x) >= bound,
    ensures
        g.contains_key(x),
        f.contains(g[x].node),
        generation_of(g, x) == bound,
{
    let n = choose|n: ChangesetNode| #[trigger] f.contains(n) && is_ancestor(g, x, n.cs_id);
    lemma_ancestor_generation(g, x, n.cs_id);
}

/// What a frontier reaches, whose nodes are all ancestors of `d`, is an
/// ancestor of `d`.
pub proof fn lemma_reached_is_ancestor(g: Graph, f: Set<ChangesetNode>, x: ChangesetId, d: ChangesetId)
    requires
        reaches(g, f, x),
        forall|n: ChangesetNode| #[trigger] f.contains(n) ==> is_ancestor(g, n.cs_id, d),
    ensures
        is_ancestor(g, x, d),
{
    let n = choose|n: ChangesetNode| #[trigger] f.contains(n) && is_ancestor(g, x, n.cs_id);
    lemma_ancestor_transitive(g, x, n.cs_id, d);
}

/// After lowering to the generation of `x`, the frontier holds `x` exactly
/// where the frontier before led to it.
pub proof fn lemma_lowered_exact(
    g: Graph,
    before: Set<ChangesetNode>,
    after: Set<ChangesetNode>,
    x: ChangesetId,
)
    requires
        graph_wf(g),
        frontier_in_graph(g, after),
        g.contains_key(x),
        lowered(g, before, after, generation_of(g, x)),
    ensures
        after.contains(g[x].node) <==> reaches(g, before, x),
{
    if reaches(g, before, x) {
        assert(reaches(g, after, x));
        lemma_reached_at_top(g, after, x, generation_of(g, x));
    }
    if after.contains(g[x].node) {
        assert(edges_wf(g, x));
        assert(reaches(g, before, g[x].node.cs_id));
    }
}

/// A frontier made of the nodes of some changesets leads to the ancestors of
/// those changesets.
pub proof fn lemma_reaches_nodes_of(g: Graph, ids: Seq<ChangesetId>, x: ChangesetId)
    requires
        graph_wf(g),
    ensures
        reaches(g, nodes_of(g, ids), x) <==> is_ancestor_of_any(g, x, ids),
{
    let f = nodes_of(g, ids);
    if reaches(g, f, x) {
        let n = choose|n: ChangesetNode| #[trigger] f.contains(n) && is_ancestor(g, x, n.cs_id);
        let i = choose|i: int| 0 <= i < ids.len() && ids[i] == n.cs_id;
        assert(is_ancestor(g, x, ids[i]));
    }
    if is_ancestor_of_any(g, x, ids) {
        let i = choose|i: int| 0 <= i < ids.len() && is_ancestor(g, x, #[trigger] ids[i]);
        assert(edges_wf(g, ids[i]));
        assert(ids.contains(ids[i]));
        assert(f.contains(g[ids[i]].node));
    }
}

/// Lowering what was lowered part of the way gives what lowering from the
/// start gives.
pub proof fn lemma_lowered_further(
    g: Graph,
    start: Set<ChangesetNode>,
    mid: Set<ChangesetNode>,
    end: Set<ChangesetNode>,
    bound: nat,
)
    requires
        partially_lowered(g, start, mid, bound),
        lowered(g, mid, end, bound),
    ensures
        lowered(g, start, end, bound),
{
    assert forall|n: ChangesetNode| #[trigger] end.contains(n) implies reaches(
        g,
        start,
        n.cs_id,
    ) by {
        let m = choose|m: ChangesetNode| #[trigger]
            mid.contains(m) && is_ancestor(g, n.cs_id, m.cs_id);
        let h = choose|h: ChangesetNode| #[trigger]
            start.contains(h) && is_ancestor(g, m.cs_id, h.cs_id);
        lemma_ancestor_transitive(g, n.cs_id, m.cs_id, h.cs_id);
    }
    assert forall|x: ChangesetId| #[trigger]
        reaches(g, start, x) && generation_of(g, x) <= bound implies reaches(g, end, x) by {
        assert(reaches(g, mid, x));
    }
}

/// One generation of a traversal: the changesets of the highest generation
/// that are admitted are taken out and their parents put in; those that are
/// not admitted are dropped. Where admission passes from a changeset to its
/// descendants, the admitted changesets that the frontier led to before are
/// those taken out and those that it leads to now.
pub proof fn lemma_generation_step(
    g: Graph,
    before: Set<ChangesetNode>,
    after: Set<ChangesetNode>,
    t: nat,
    kept: Seq<ChangesetId>,
    admits: spec_fn(ChangesetId) -> bool,
)
    requires
        graph_wf(g),
        frontier_in_graph(g, before),
        t <= u64::MAX,
        forall|n: ChangesetNode| #[trigger] before.contains(n) ==> n.generation.value <= t,
        forall|id: ChangesetId|
            kept.contains(id) <==> before.contains(node_at(id, t)) && admits(id),
        forall|n: ChangesetNode|
            after.contains(n) <==> (before.contains(n) && n.generation.value < t) || exists|
                id: ChangesetId,
            | #[trigger] kept.contains(id) && g[id].parents.contains(n),
        forall|x: ChangesetId, c: ChangesetId|
            #![trigger is_ancestor(g, x, c), admits(x)]
            is_ancestor(g, x, c) && admits(x) ==> admits(c),
    ensures
        frontier_in_graph(g, after),
        forall|n: ChangesetNode| #[trigger] after.contains(n) ==> n.generation.value < t,
        forall|x: ChangesetId|
            admits(x) ==> (reaches(g, before, x) <==> kept.contains(x) || reaches(g, after, x)),
{
    assert forall|n: ChangesetNode| #[trigger] after.contains(n) implies g.contains_key(n.cs_id)
        && g[n.cs_id].node == n && n.generation.value < t && reaches(g, before, n.cs_id) by {
        if before.contains(n) && n.generation.value < t {
            assert(is_ancestor(g, n.cs_id, n.cs_id));
        } else {
            let id = choose|id: ChangesetId| #[trigger]
                kept.contains(id) && g[id].parents.contains(n);
            let j = choose|j: int| 0 <= j < g[id].parents.len() && g[id].parents[j] == n;
            let c = node_at(id, t);
            assert(before.contains(c));
            lemma_parent_below(g, id, j);
        }
    }
    assert forall|x: ChangesetId| admits(x) implies (reaches(g, before, x) <==> kept.contains(x)
        || reaches(g, after, x)) by {
        if reaches(g, before, x) {
            let n = choose|n: ChangesetNode| #[trigger]
                before.contains(n) && is_ancestor(g, x, n.cs_id);
            if n.generation.value < t {
                assert(after.contains(n));
            } else {
                assert(n == node_at(n.cs_id, t));
                assert(admits(n.cs_id));
                assert(kept.contains(n.cs_id));
                if x != n.cs_id {
                    let j = lemma_strict_ancestor_parent(g, x, n.cs_id);
                    let p = g[n.cs_id].parents[j];
                    assert(g[n.cs_id].parents.contains(p));
                    assert(after.contains(p));
                }
            }
        }
        if kept.contains(x) {
            let c = node_at(x, t);
            assert(before.contains(c));
            assert(is_ancestor(g, x, x));
        }
        if reaches(g, after, x) {
            let n = choose|n: ChangesetNode| #[trigger]
                after.contains(n) && is_ancestor(g, x, n.cs_id);
            let h = choose|h: ChangesetNode| #[trigger]
                before.contains(h) && is_ancestor(g, n.cs_id, h.cs_id);
            lemma_ancestor_transitive(g, x, n.cs_id, h.cs_id);
        }
    }
}

} // verus!
