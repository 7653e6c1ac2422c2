//! Ancestors of some heads, handed out one at a time from the highest
//! generation down, leaving out the ancestors of other changesets or what
//! does not descend from a given changeset.

use vstd::prelude::*;
use crate::frontier::ChangesetFrontier;
use crate::graph::{
    edges_wf, frontier_in_graph, generation_of, graph_wf, is_ancestor, is_ancestor_of_any,
    lemma_ancestor_generation, lemma_ancestor_transitive, lemma_generation_step,
    lemma_lowered_exact, lemma_lowered_further, lemma_reaches_nodes_of, lowered, nodes_of,
    partially_lowered, reaches, Graph,
};
use crate::storage::CommitGraphStorage;
use crate::traversal::{fetch_failure, CommitGraph};
use crate::types::{
    node_at, ChangesetEdges, ChangesetId, ChangesetNode, CommitGraphError, Generation, Prefetch,
};

verus! {

/// `x` is an ancestor of one of `heads`, of none of `common`, and, where
/// `within` names a changeset, a descendant of that changeset.
pub open spec fn in_difference(
    g: Graph,
    heads: Seq<ChangesetId>,
    common: Seq<ChangesetId>,
    within: Option<ChangesetId>,
    x: ChangesetId,
) -> bool {
    &&& is_ancestor_of_any(g, x, heads)
    &&& !is_ancestor_of_any(g, x, common)
    &&& (within matches Some(d) ==> is_ancestor(g, d, x))
}

/// The generations never rise along the list.
pub open spec fn generations_descend(g: Graph, ids: Seq<ChangesetId>) -> bool {
    forall|i: int, j: int|
        0 <= i < j < ids.len() ==> generation_of(g, ids[i]) >= generation_of(g, ids[j])
}

/// What a traversal is asked for: the heads to start from, the changesets
/// whose ancestors are left out, and the changeset that all results must
/// descend from.
#[derive(Debug)]
pub struct AncestorsStreamBuilder {
    heads: Vec<ChangesetId>,
    common: Vec<ChangesetId>,
    descendants_of: Option<ChangesetId>,
}

/// A traversal under way: each call of [`AncestorsStream::next`] hands out
/// one more changeset.
#[derive(Debug)]
pub struct AncestorsStream {
    heads: ChangesetFrontier,
    common: ChangesetFrontier,
    common_heads: Vec<ChangesetId>,
    descendants_of: Option<ChangesetId>,
    pending: Vec<ChangesetId>,
    pending_generation: Generation,
}

impl AncestorsStreamBuilder {
    /// The heads whose ancestors are asked for.
    pub closed spec fn heads(&self) -> Seq<ChangesetId> {
        self.heads@
    }

    /// The changesets whose ancestors are left out.
    pub closed spec fn common(&self) -> Seq<ChangesetId> {
        self.common@
    }

    /// The changeset that every result must descend from, if any.
    pub closed spec fn within(&self) -> Option<ChangesetId> {
        self.descendants_of
    }

    /// A traversal of all ancestors of the heads.
    pub fn new(heads: Vec<ChangesetId>) -> (b: AncestorsStreamBuilder)
        ensures
            b.heads() == heads@,
            b.common() == Seq::<ChangesetId>::empty(),
            b.within() == None::<ChangesetId>,
    {
        AncestorsStreamBuilder { heads, common: Vec::new(), descendants_of: None }
    }

    /// Leaves out every ancestor of the given changesets.
    pub fn exclude_ancestors_of(self, common: Vec<ChangesetId>) -> (b: AncestorsStreamBuilder)
        ensures
            b.heads() == self.heads(),
            b.common() == common@,
            b.within() == self.within(),
    {
        AncestorsStreamBuilder { heads: self.heads, common, descendants_of: self.descendants_of }
    }

    /// Keeps only the descendants of the given changeset.
    pub fn descendants_of(self, cs_id: ChangesetId) -> (b: AncestorsStreamBuilder)
        ensures
            b.heads() == self.heads(),
            b.common() == self.common(),
            b.within() == Some(cs_id),
    {
        AncestorsStreamBuilder { heads: self.heads, common: self.common, descendants_of: Some(cs_id) }
    }

    /// Starts the traversal. Every changeset named has to be in the graph.
    pub fn build<S: CommitGraphStorage>(self, graph: &CommitGraph<S>) -> (r: Result<
        AncestorsStream,
        CommitGraphError,
    >)
        requires
            graph.wf(),
        ensures
            r matches Ok(stream) ==> stream.inv(graph@) && forall|x: ChangesetId|
                stream.remaining(graph@).contains(x) <==> in_difference(
                    graph@,
                    self.heads(),
                    self.common(),
                    self.within(),
                    x,
                ),
            r is Ok ==> {
                &&& forall|i: int|
                    0 <= i < self.heads().len() ==> graph@.contains_key(#[trigger] self.heads()[i])
                &&& forall|i: int|
                    0 <= i < self.common().len() ==> graph@.contains_key(
                        #[trigger] self.common()[i],
                    )
                &&& (self.within() matches Some(d) ==> graph@.contains_key(d))
            },
            r matches Err(e) ==> fetch_failure(e, graph.reliable()) || (e matches CommitGraphError::NotFound(
                id,
            ) && !graph@.contains_key(id) && (self.heads().contains(id) || self.common().contains(
                id,
            ) || self.within() == Some(id))),
    {
        let heads = match graph.frontier(&self.heads) {
            Ok(frontier) => frontier,
            Err(e) => {
                proof {
                    if !fetch_failure(e, graph.reliable()) {
                        let i = choose|i: int|
                            0 <= i < self.heads@.len() && e == CommitGraphError::NotFound(
                                #[trigger] self.heads@[i],
                            ) && !graph@.contains_key(self.heads@[i]);
                        assert(self.heads@.contains(self.heads@[i]));
                    }
                }
                return Err(e);
            },
        };
        let common = match graph.frontier(&self.common) {
            Ok(frontier) => frontier,
            Err(e) => {
                proof {
                    if !fetch_failure(e, graph.reliable()) {
                        let i = choose|i: int|
                            0 <= i < self.common@.len() && e == CommitGraphError::NotFound(
                                #[trigger] self.common@[i],
                            ) && !graph@.contains_key(self.common@[i]);
                        assert(self.common@.contains(self.common@[i]));
                    }
                }
                return Err(e);
            },
        };
        match self.descendants_of {
            Some(cs_id) => {
                match graph.changeset_generation_required(cs_id) {
                    Ok(_) => {},
                    Err(e) => {
                        return Err(e);
                    },
                }
            },
            None => {},
        }
        let stream = AncestorsStream {
            heads,
            common,
            common_heads: self.common,
            descendants_of: self.descendants_of,
            pending: Vec::new(),
            pending_generation: Generation::new(0),
        };
        proof {
            let g = graph@;
            assert forall|n: ChangesetNode| #[trigger] stream.common@.contains(n) implies reaches(
                g,
                stream.common@,
                n.cs_id,
            ) by {
                assert(is_ancestor(g, n.cs_id, n.cs_id));
            }
            assert forall|x: ChangesetId|
                stream.remaining(g).contains(x) <==> in_difference(
                    g,
                    self.heads(),
                    self.common(),
                    self.within(),
                    x,
                ) by {
                lemma_reaches_nodes_of(g, self.heads@, x);
            }
        }
        Ok(stream)
    }
}

/// Whether a changeset passes what the traversal leaves out.
pub open spec fn admitted(
    g: Graph,
    common: Seq<ChangesetId>,
    within: Option<ChangesetId>,
    x: ChangesetId,
) -> bool {
    !is_ancestor_of_any(g, x, common) && (within matches Some(d) ==> is_ancestor(g, d, x))
}

/// A descendant of an admitted changeset is admitted.
proof fn lemma_admitted_descends(
    g: Graph,
    common: Seq<ChangesetId>,
    within: Option<ChangesetId>,
    x: ChangesetId,
    c: ChangesetId,
)
    requires
        is_ancestor(g, x, c),
        admitted(g, common, within, x),
    ensures
        admitted(g, common, within, c),
{
    if is_ancestor_of_any(g, c, common) {
        let i = choose|i: int| 0 <= i < common.len() && is_ancestor(g, c, #[trigger] common[i]);
        lemma_ancestor_transitive(g, x, c, common[i]);
        assert(is_ancestor_of_any(g, x, common));
    }
    match within {
        Some(d) => {
            lemma_ancestor_transitive(g, d, x, c);
        },
        None => {},
    }
}

/// Adds the parents of the given changesets to the frontier.
fn add_parents(
    heads: &mut ChangesetFrontier,
    all: &Vec<ChangesetEdges>,
    Ghost(g): Ghost<Graph>,
    Ghost(ids): Ghost<Seq<ChangesetId>>,
)
    requires
        old(heads).wf(),
        all@.len() == ids.len(),
        forall|k: int| 0 <= k < ids.len() ==> g.contains_key(#[trigger] ids[k]) && all@[k]@ == g[ids[k]],
    ensures
        final(heads).wf(),
        forall|n: ChangesetNode|
            #![trigger final(heads)@.contains(n)]
            final(heads)@.contains(n) <==> old(heads)@.contains(n) || parent_of_any(g, ids, n),
{
    let mut j: usize = 0;
    while j < all.len()
        invariant
            j <= all.len(),
            heads.wf(),
            all@.len() == ids.len(),
            forall|k: int|
                0 <= k < ids.len() ==> g.contains_key(#[trigger] ids[k]) && all@[k]@ == g[ids[k]],
            forall|n: ChangesetNode|
                #![trigger heads@.contains(n)]
                heads@.contains(n) <==> old(heads)@.contains(n) || parent_of_any(
                    g,
                    ids.subrange(0, j as int),
                    n,
                ),
        decreases all.len() - j,
    {
        let ghost prev = heads@;
        assert(g.contains_key(ids[j as int]));
        heads.extend(&all[j].parents);
        proof {
            assert(all@[j as int].parents@ == g[ids[j as int]].parents);
            let before = ids.subrange(0, j as int);
            let after = ids.subrange(0, j + 1);
            assert forall|n: ChangesetNode|
                #![trigger heads@.contains(n)]
                heads@.contains(n) <==> old(heads)@.contains(n) || parent_of_any(g, after, n) by {
                if heads@.contains(n) && !old(heads)@.contains(n) {
                    if prev.contains(n) {
                        let id = choose|id: ChangesetId| #[trigger]
                            before.contains(id) && g[id].parents.contains(n);
                        let k = choose|k: int| 0 <= k < before.len() && before[k] == id;
                        assert(after[k] == id);
                        assert(after.contains(id));
                        assert(parent_of_any(g, after, n));
                    } else {
                        assert(after[j as int] == ids[j as int]);
                        assert(after.contains(ids[j as int]));
                        assert(g[ids[j as int]].parents.contains(n));
                        assert(parent_of_any(g, after, n));
                    }
                }
                if parent_of_any(g, after, n) {
                    let id = choose|id: ChangesetId| #[trigger]
                        after.contains(id) && g[id].parents.contains(n);
                    let k = choose|k: int| 0 <= k < after.len() && after[k] == id;
                    if k < j {
                        assert(before[k] == id);
                        assert(before.contains(id));
                        assert(parent_of_any(g, before, n));
                        assert(prev.contains(n));
                    } else {
                        assert(id == ids[j as int]);
                    }
                    assert(heads@.contains(n));
                }
            }
        }
        j += 1;
    }
    assert(ids.subrange(0, j as int) =~= ids);
}

/// `n` is a recorded parent of one of the given changesets.
pub open spec fn parent_of_any(g: Graph, ids: Seq<ChangesetId>, n: ChangesetNode) -> bool {
    exists|id: ChangesetId| #[trigger] ids.contains(id) && g[id].parents.contains(n)
}

/// Going through one generation leaves the admitted changesets that the
/// traversal still leads to as they were.
proof fn lemma_advance(
    g: Graph,
    before: Set<ChangesetNode>,
    base: Set<ChangesetNode>,
    after: Set<ChangesetNode>,
    t: nat,
    cs_ids: Seq<ChangesetId>,
    kept: Seq<ChangesetId>,
    common: Seq<ChangesetId>,
    within: Option<ChangesetId>,
)
    requires
        graph_wf(g),
        frontier_in_graph(g, before),
        t <= u64::MAX,
        forall|n: ChangesetNode| #[trigger] before.contains(n) ==> n.generation.value <= t,
        forall|id: ChangesetId| cs_ids.contains(id) <==> before.contains(node_at(id, t)),
        forall|n: ChangesetNode| base.contains(n) <==> before.contains(n) && n.generation.value < t,
        forall|id: ChangesetId|
            kept.contains(id) <==> cs_ids.contains(id) && admitted(g, common, within, id),
        forall|n: ChangesetNode|
            #![trigger after.contains(n)]
            after.contains(n) <==> base.contains(n) || parent_of_any(g, kept, n),
    ensures
        frontier_in_graph(g, after),
        forall|n: ChangesetNode| #[trigger] after.contains(n) ==> n.generation.value < t,
        forall|x: ChangesetId|
            admitted(g, common, within, x) ==> (reaches(g, before, x) <==> kept.contains(x)
                || reaches(g, after, x)),
{
    let admits = |x: ChangesetId| admitted(g, common, within, x);
    assert forall|x: ChangesetId, c: ChangesetId|
        #![trigger is_ancestor(g, x, c), admits(x)]
        is_ancestor(g, x, c) && admits(x) implies admits(c) by {
        lemma_admitted_descends(g, common, within, x, c);
    }
    assert forall|n: ChangesetNode|
        after.contains(n) <==> (before.contains(n) && n.generation.value < t) || exists|
            id: ChangesetId,
        | #[trigger] kept.contains(id) && g[id].parents.contains(n) by {
    }
    lemma_generation_step(g, before, after, t, kept, admits);
}

impl AncestorsStream {
    /// The changesets that are still to come.
    pub closed spec fn remaining(&self, g: Graph) -> Set<ChangesetId> {
        Set::new(
            |x: ChangesetId|
                admitted(g, self.common_heads@, self.descendants_of, x) && (
                self.pending@.contains(x) || reaches(g, self.heads@, x)),
        )
    }

    /// The traversal is consistent with the graph.
    pub closed spec fn inv(&self, g: Graph) -> bool {
        &&& self.heads.wf()
        &&& self.common.wf()
        &&& frontier_in_graph(g, self.heads@)
        &&& frontier_in_graph(g, self.common@)
        &&& partially_lowered(
            g,
            nodes_of(g, self.common_heads@),
            self.common@,
            self.heads.highest(),
        )
        &&& self.pending@.no_duplicates()
        &&& forall|i: int|
            0 <= i < self.pending@.len() ==> g.contains_key(#[trigger] self.pending@[i])
                && generation_of(g, self.pending@[i]) == self.pending_generation.value && admitted(
                g,
                self.common_heads@,
                self.descendants_of,
                self.pending@[i],
            )
        &&& self.pending@.len() > 0 ==> self.heads.highest() < self.pending_generation.value
        &&& (self.descendants_of matches Some(d) ==> g.contains_key(d))
    }

    /// The highest generation that the traversal has not gone through yet.
    pub closed spec fn level(&self) -> nat {
        self.heads.highest()
    }

    /// How many changesets of the generation gone through last are still to
    /// be handed out.
    pub closed spec fn queued(&self) -> nat {
        self.pending@.len()
    }

    /// The changesets of one generation that the traversal admits, given the
    /// frontier of what is left out, lowered to that generation.
    fn admit_generation<S: CommitGraphStorage>(
        &self,
        graph: &CommitGraph<S>,
        common: &ChangesetFrontier,
        top: Generation,
        cs_ids: &Vec<ChangesetId>,
    ) -> (r: Result<Vec<ChangesetId>, CommitGraphError>)
        requires
            graph.wf(),
            self.inv(graph@),
            common.wf(),
            frontier_in_graph(graph@, common@),
            lowered(graph@, nodes_of(graph@, self.common_heads@), common@, top.value as nat),
            cs_ids@.no_duplicates(),
            forall|k: int|
                0 <= k < cs_ids@.len() ==> graph@.contains_key(#[trigger] cs_ids@[k])
                    && graph@[cs_ids@[k]].node == node_at(cs_ids@[k], top.value as nat),
        ensures
            r matches Ok(kept) ==> kept@.no_duplicates() && forall|id: ChangesetId|
                kept@.contains(id) <==> cs_ids@.contains(id) && admitted(
                    graph@,
                    self.common_heads@,
                    self.descendants_of,
                    id,
                ),
            r matches Err(e) ==> fetch_failure(e, graph.reliable()),
    {
        let ghost g = graph@;
        let ghost t = top.value as nat;
        let ghost common_start = nodes_of(g, self.common_heads@);
        let mut kept: Vec<ChangesetId> = Vec::new();
        let ghost mut src: Seq<int> = Seq::empty();
        let mut i: usize = 0;
        while i < cs_ids.len()
            invariant
                i <= cs_ids.len(),
                graph.wf(),
                g == graph@,
                self.inv(g),
                common.wf(),
                frontier_in_graph(g, common@),
                common_start == nodes_of(g, self.common_heads@),
                lowered(g, common_start, common@, t),
                t == top.value,
                forall|k: int|
                    0 <= k < cs_ids@.len() ==> g.contains_key(#[trigger] cs_ids@[k])
                        && g[cs_ids@[k]].node == node_at(cs_ids@[k], t),
                src.len() == kept@.len(),
                forall|a: int|
                    0 <= a < kept@.len() ==> 0 <= #[trigger] src[a] < i && kept@[a]
                        == cs_ids@[src[a]] && admitted(
                        g,
                        self.common_heads@,
                        self.descendants_of,
                        kept@[a],
                    ),
                forall|a: int, b: int| 0 <= a < b < kept@.len() ==> src[a] < src[b],
                forall|k: int|
                    0 <= k < i && admitted(
                        g,
                        self.common_heads@,
                        self.descendants_of,
                        #[trigger] cs_ids@[k],
                    ) ==> kept@.contains(cs_ids@[k]),
            decreases cs_ids.len() - i,
        {
            let cs_id = cs_ids[i];
            let ghost prev = kept@;
            assert(g.contains_key(cs_ids@[i as int]));
            let excluded = common.highest_generation_contains(cs_id, top);
            proof {
                lemma_lowered_exact(g, common_start, common@, cs_id);
                lemma_reaches_nodes_of(g, self.common_heads@, cs_id);
                assert(g[cs_id].node == ChangesetNode { cs_id, generation: top });
            }
            let mut keep = !excluded;
            if keep {
                match self.descendants_of {
                    Some(d) => {
                        match graph.is_ancestor(d, cs_id) {
                            Ok(yes) => {
                                keep = yes;
                            },
                            Err(e) => {
                                return Err(e);
                            },
                        }
                    },
                    None => {},
                }
            }
            assert(keep == admitted(g, self.common_heads@, self.descendants_of, cs_id));
            if keep {
                kept.push(cs_id);
                proof {
                    src = src.push(i as int);
                    assert(kept@[prev.len() as int] == cs_id);
                    assert forall|k: int|
                        0 <= k < i + 1 && admitted(
                            g,
                            self.common_heads@,
                            self.descendants_of,
                            #[trigger] cs_ids@[k],
                        ) implies kept@.contains(cs_ids@[k]) by {
                        if k < i {
                            assert(prev.contains(cs_ids@[k]));
                            let a = choose|a: int| 0 <= a < prev.len() && prev[a] == cs_ids@[k];
                            assert(kept@[a] == cs_ids@[k]);
                        }
                    }
                }
            }
            i += 1;
        }
        proof {
            assert forall|a: int, b: int| 0 <= a < b < kept@.len() implies kept@[a] != kept@[b] by {
                assert(src[a] < src[b]);
                assert(cs_ids@[src[a]] != cs_ids@[src[b]]);
            }
            assert forall|id: ChangesetId|
                kept@.contains(id) <==> cs_ids@.contains(id) && admitted(
                    g,
                    self.common_heads@,
                    self.descendants_of,
                    id,
                ) by {
                if kept@.contains(id) {
                    let a = choose|a: int| 0 <= a < kept@.len() && kept@[a] == id;
                    assert(0 <= src[a] < cs_ids@.len());
                    assert(cs_ids@.contains(cs_ids@[src[a]]));
                }
                if cs_ids@.contains(id) && admitted(
                    g,
                    self.common_heads@,
                    self.descendants_of,
                    id,
                ) {
                    let k = choose|k: int| 0 <= k < cs_ids@.len() && cs_ids@[k] == id;
                    assert(kept@.contains(cs_ids@[k]));
                }
            }
        }
        Ok(kept)
    }

    /// Goes through the highest generation of the frontier: its admitted
    /// changesets are queued and replaced by their parents. Returns whether
    /// there was a generation to go through.
    fn advance<S: CommitGraphStorage>(&mut self, graph: &CommitGraph<S>) -> (r: Result<
        bool,
        CommitGraphError,
    >)
        requires
            graph.wf(),
            old(self).inv(graph@),
            old(self).pending@.len() == 0,
        ensures
            final(self).inv(graph@),
            final(self).remaining(graph@) == old(self).remaining(graph@),
            r matches Ok(true) ==> final(self).level() < old(self).level(),
            r matches Ok(false) ==> *final(self) == *old(self) && old(self).heads@
                == Set::<ChangesetNode>::empty(),
            r matches Err(e) ==> fetch_failure(e, graph.reliable()) && *final(self) == *old(self),
    {
        let ghost g = graph@;
        let ghost before = self.heads@;
        let ghost common_start = nodes_of(g, self.common_heads@);
        let mut heads = self.heads.duplicate();
        proof {
            self.heads.lemma_highest();
        }
        let (top, cs_ids) = match heads.pop_last() {
            Some(popped) => popped,
            None => {
                return Ok(false);
            },
        };
        let ghost t = top.value as nat;
        let ghost base = heads@;
        let mut common = self.common.duplicate();
        match graph.lower_frontier(&mut common, top) {
            Ok(()) => {},
            Err(e) => {
                return Err(e);
            },
        }
        proof {
            lemma_lowered_further(g, common_start, self.common@, common@, t);
            assert forall|k: int| 0 <= k < cs_ids@.len() implies g.contains_key(
                #[trigger] cs_ids@[k],
            ) && g[cs_ids@[k]].node == node_at(cs_ids@[k], t) by {
                assert(cs_ids@.contains(cs_ids@[k]));
                assert(node_at(cs_ids@[k], t) == ChangesetNode {
                    cs_id: cs_ids@[k],
                    generation: top,
                });
            }
            assert(edges_wf(g, cs_ids@[0]));
        }
        let kept = match self.admit_generation(graph, &common, top, &cs_ids) {
            Ok(kept) => kept,
            Err(e) => {
                return Err(e);
            },
        };
        proof {
            assert forall|k: int| 0 <= k < kept@.len() implies g.contains_key(
                #[trigger] kept@[k],
            ) by {
                assert(kept@.contains(kept@[k]));
                let c = choose|c: int| 0 <= c < cs_ids@.len() && cs_ids@[c] == kept@[k];
                assert(g.contains_key(cs_ids@[c]));
            }
        }
        let all = match graph.fetch_many_edges_required(&kept, Prefetch::NoHint) {
            Ok(all) => all,
            Err(e) => {
                proof {
                    if !fetch_failure(e, graph.reliable()) {
                        let k = choose|k: int|
                            0 <= k < kept@.len() && e == CommitGraphError::NotFound(
                                #[trigger] kept@[k],
                            ) && !g.contains_key(kept@[k]);
                        assert(g.contains_key(kept@[k]));
                    }
                }
                return Err(e);
            },
        };
        add_parents(&mut heads, &all, Ghost(g), Ghost(kept@));
        proof {
            lemma_advance(
                g,
                before,
                base,
                heads@,
                t,
                cs_ids@,
                kept@,
                self.common_heads@,
                self.descendants_of,
            );
            heads.lemma_highest();
        }
        let ghost old_remaining = self.remaining(g);
        self.heads = heads;
        self.common = common;
        self.pending = kept;
        self.pending_generation = top;
        proof {
            assert(self.remaining(g) =~= old_remaining);
            assert forall|k: int| 0 <= k < self.pending@.len() implies g.contains_key(
                #[trigger] self.pending@[k],
            ) && generation_of(g, self.pending@[k]) == self.pending_generation.value && admitted(
                g,
                self.common_heads@,
                self.descendants_of,
                self.pending@[k],
            ) by {
                assert(kept@.contains(kept@[k]));
                let c = choose|c: int| 0 <= c < cs_ids@.len() && cs_ids@[c] == kept@[k];
                assert(g.contains_key(cs_ids@[c]));
            }
        }
        Ok(true)
    }

    /// The next changeset of the traversal, if any is left. None that comes
    /// later has a higher generation.
    pub fn next<S: CommitGraphStorage>(&mut self, graph: &CommitGraph<S>) -> (r: Result<
        Option<ChangesetId>,
        CommitGraphError,
    >)
        requires
            graph.wf(),
            old(self).inv(graph@),
        ensures
            final(self).inv(graph@),
            r matches Ok(Some(x)) ==> {
                &&& graph@.contains_key(x)
                &&& old(self).remaining(graph@).contains(x)
                &&& final(self).remaining(graph@) == old(self).remaining(graph@).remove(x)
                &&& forall|y: ChangesetId|
                    final(self).remaining(graph@).contains(y) ==> generation_of(graph@, y)
                        <= generation_of(graph@, x)
                &&& (final(self).level() < old(self).level() || (final(self).level() == old(self).level() && final(self).queued() < old(self).queued()))
            },
            r matches Ok(None) ==> old(self).remaining(graph@) == Set::<ChangesetId>::empty()
                && final(self).remaining(graph@) == Set::<ChangesetId>::empty(),
            r matches Err(e) ==> fetch_failure(e, graph.reliable()) && final(self).remaining(
                graph@,
            ) == old(self).remaining(graph@),
    {
        let ghost g = graph@;
        loop
            invariant
                graph.wf(),
                g == graph@,
                self.inv(g),
                self.remaining(g) == old(self).remaining(g),
                self.level() < old(self).level() || (self.level() == old(self).level()
                    && self.queued() == old(self).queued()),
            decreases self.heads.highest(),
        {
            if self.pending.len() > 0 {
                let ghost before = self.pending@;
                let ghost rem = self.remaining(g);
                let x = self.pending.pop().unwrap();
                proof {
                    self.heads.lemma_highest();
                    let n = before.len() - 1;
                    assert(before[n] == x);
                    assert(before.contains(x));
                    assert(g.contains_key(before[n]));
                    assert forall|y: ChangesetId| reaches(g, self.heads@, y) implies generation_of(
                        g,
                        y,
                    ) < self.pending_generation.value by {
                        let m = choose|m: ChangesetNode| #[trigger]
                            self.heads@.contains(m) && is_ancestor(g, y, m.cs_id);
                        lemma_ancestor_generation(g, y, m.cs_id);
                    }
                    assert forall|y: ChangesetId|
                        self.pending@.contains(y) <==> before.contains(y) && y != x by {
                        if self.pending@.contains(y) {
                            let k = choose|k: int|
                                0 <= k < self.pending@.len() && self.pending@[k] == y;
                            assert(before[k] == y);
                        }
                        if before.contains(y) && y != x {
                            let k = choose|k: int| 0 <= k < before.len() && before[k] == y;
                            assert(self.pending@[k] == y);
                        }
                    }
                    assert(self.remaining(g) =~= rem.remove(x));
                    assert forall|y: ChangesetId|
                        self.remaining(g).contains(y) implies generation_of(g, y) <= generation_of(
                        g,
                        x,
                    ) by {
                        if self.pending@.contains(y) {
                            let k = choose|k: int|
                                0 <= k < self.pending@.len() && self.pending@[k] == y;
                            assert(before[k] == y);
                            assert(g.contains_key(before[k]));
                        }
                    }
                }
                return Ok(Some(x));
            }
            match self.advance(graph) {
                Ok(true) => {},
                Ok(false) => {
                    proof {
                        assert(self.remaining(g) =~= Set::<ChangesetId>::empty());
                    }
                    return Ok(None);
                },
                Err(e) => {
                    return Err(e);
                },
            }
        }
    }

    /// All the changesets that the traversal still has to hand out, in the
    /// order in which it hands them out.
    pub fn try_collect<S: CommitGraphStorage>(&mut self, graph: &CommitGraph<S>) -> (r: Result<
        Vec<ChangesetId>,
        CommitGraphError,
    >)
        requires
            graph.wf(),
            old(self).inv(graph@),
        ensures
            final(self).inv(graph@),
            r matches Ok(out) ==> {
                &&& out@.no_duplicates()
                &&& forall|x: ChangesetId|
                    out@.contains(x) <==> old(self).remaining(graph@).contains(x)
                &&& generations_descend(graph@, out@)
                &&& final(self).remaining(graph@) == Set::<ChangesetId>::empty()
            },
            r matches Err(e) ==> fetch_failure(e, graph.reliable()),
    {
        let ghost g = graph@;
        let ghost all = self.remaining(g);
        let mut out: Vec<ChangesetId> = Vec::new();
        loop
            invariant
                graph.wf(),
                g == graph@,
                self.inv(g),
                all == old(self).remaining(g),
                out@.no_duplicates(),
                generations_descend(g, out@),
                forall|x: ChangesetId|
                    all.contains(x) <==> out@.contains(x) || self.remaining(g).contains(x),
                forall|x: ChangesetId| out@.contains(x) ==> !self.remaining(g).contains(x),
                forall|i: int, y: ChangesetId|
                    #![trigger out@[i], self.remaining(g).contains(y)]
                    0 <= i < out@.len() && self.remaining(g).contains(y) ==> generation_of(g, y)
                        <= generation_of(g, out@[i]),
            decreases self.level(), self.queued(),
        {
            let ghost prev = out@;
            let ghost rem = self.remaining(g);
            match self.next(graph) {
                Ok(Some(x)) => {
                    out.push(x);
                    proof {
                        assert(out@[prev.len() as int] == x);
                        assert forall|a: int, b: int| 0 <= a < b < out@.len() implies out@[a]
                            != out@[b] && generation_of(g, out@[a]) >= generation_of(
                            g,
                            out@[b],
                        ) by {
                            if b == prev.len() {
                                assert(prev.contains(prev[a]));
                                assert(rem.contains(x));
                            }
                        }
                        assert forall|y: ChangesetId|
                            all.contains(y) <==> out@.contains(y) || self.remaining(g).contains(
                                y,
                            ) by {
                            if out@.contains(y) {
                                let k = choose|k: int| 0 <= k < out@.len() && out@[k] == y;
                                if k < prev.len() {
                                    assert(prev.contains(y));
                                }
                            }
                            if prev.contains(y) {
                                let k = choose|k: int| 0 <= k < prev.len() && prev[k] == y;
                                assert(out@[k] == y);
                            }
                        }
                        assert forall|y: ChangesetId| out@.contains(y) implies !self.remaining(
                            g,
                        ).contains(y) by {
                            let k = choose|k: int| 0 <= k < out@.len() && out@[k] == y;
                            if k < prev.len() {
                                assert(prev.contains(y));
                            }
                        }
                    }
                },
                Ok(None) => {
                    return Ok(out);
                },
                Err(e) => {
                    return Err(e);
                },
            }
        }
    }
}

/// The list in the opposite order.
fn reversed(ids: &Vec<ChangesetId>) -> (out: Vec<ChangesetId>)
    ensures
        out@ == ids@.reverse(),
{
    let n = ids.len();
    let mut out: Vec<ChangesetId> = Vec::new();
    let mut i: usize = 0;
    while i < n
        invariant
            i <= n,
            n == ids@.len(),
            out@.len() == i,
            forall|k: int| 0 <= k < i ==> out@[k] == ids@[n - 1 - k],
        decreases n - i,
    {
        out.push(ids[n - 1 - i]);
        i += 1;
    }
    assert(out@ =~= ids@.reverse());
    out
}

/// The generations never fall along the list.
pub open spec fn generations_ascend(g: Graph, ids: Seq<ChangesetId>) -> bool {
    forall|i: int, j: int|
        0 <= i < j < ids.len() ==> generation_of(g, ids[i]) <= generation_of(g, ids[j])
}

/// `x` descends from `start` and is an ancestor of `end`.
pub open spec fn in_range(g: Graph, start: ChangesetId, end: ChangesetId, x: ChangesetId) -> bool {
    is_ancestor(g, start, x) && is_ancestor(g, x, end)
}

/// A list without repetition that holds exactly the changesets between
/// `start` and `end` is the single `start` where the two are the same, and
/// empty where `start` is no ancestor of `end`.
pub proof fn lemma_range_ends(g: Graph, start: ChangesetId, end: ChangesetId, ids: Seq<ChangesetId>)
    requires
        g.contains_key(start),
        g.contains_key(end),
        ids.no_duplicates(),
        forall|x: ChangesetId| ids.contains(x) <==> in_range(g, start, end, x),
    ensures
        start == end ==> ids == seq![start],
        !is_ancestor(g, start, end) ==> ids.len() == 0,
{
    if start == end {
        assert(is_ancestor(g, start, start));
        assert(ids.contains(start));
        assert forall|i: int| 0 <= i < ids.len() implies ids[i] == start by {
            assert(ids.contains(ids[i]));
            lemma_ancestor_generation(g, start, ids[i]);
            lemma_ancestor_generation(g, ids[i], start);
        }
        if ids.len() > 1 {
            assert(ids[0] == ids[1]);
        }
        assert(ids =~= seq![start]);
    }
    if !is_ancestor(g, start, end) {
        if ids.len() > 0 {
            assert(ids.contains(ids[0]));
            lemma_ancestor_transitive(g, start, ids[0], end);
        }
    }
}

impl<S: CommitGraphStorage> CommitGraph<S> {
    /// A traversal of the ancestors of `heads` that are ancestors of none of
    /// `common`, from the highest generation down.
    pub fn ancestors_difference_stream(
        &self,
        heads: Vec<ChangesetId>,
        common: Vec<ChangesetId>,
    ) -> (r: Result<AncestorsStream, CommitGraphError>)
        requires
            self.wf(),
        ensures
            r matches Ok(stream) ==> stream.inv(self@) && forall|x: ChangesetId|
                stream.remaining(self@).contains(x) <==> in_difference(
                    self@,
                    heads@,
                    common@,
                    None,
                    x,
                ),
            r matches Err(e) ==> fetch_failure(e, self.reliable()) || (e matches CommitGraphError::NotFound(
                id,
            ) && !self@.contains_key(id) && (heads@.contains(id) || common@.contains(id))),
    {
        AncestorsStreamBuilder::new(heads).exclude_ancestors_of(common).build(self)
    }

    /// The ancestors of `heads` that are ancestors of none of `common`,
    /// each once, from the highest generation down: no changeset comes
    /// before one of its descendants.
    pub fn ancestors_difference(&self, heads: Vec<ChangesetId>, common: Vec<ChangesetId>) -> (r:
        Result<Vec<ChangesetId>, CommitGraphError>)
        requires
            self.wf(),
        ensures
            r matches Ok(out) ==> {
                &&& out@.no_duplicates()
                &&& forall|x: ChangesetId|
                    out@.contains(x) <==> in_difference(self@, heads@, common@, None, x)
                &&& generations_descend(self@, out@)
            },
            r matches Err(e) ==> fetch_failure(e, self.reliable()) || (e matches CommitGraphError::NotFound(
                id,
            ) && !self@.contains_key(id) && (heads@.contains(id) || common@.contains(id))),
            self.reliable() && (forall|id: ChangesetId|
                heads@.contains(id) || common@.contains(id) ==> self@.contains_key(id)) ==> r is Ok,
    {
        let mut stream = match self.ancestors_difference_stream(heads, common) {
            Ok(stream) => stream,
            Err(e) => {
                return Err(e);
            },
        };
        stream.try_collect(self)
    }

    /// The changesets that descend from `start_id` and are ancestors of
    /// `end_id`, each once, from the lowest generation up.
    pub fn range_stream(&self, start_id: ChangesetId, end_id: ChangesetId) -> (r: Result<
        Vec<ChangesetId>,
        CommitGraphError,
    >)
        requires
            self.wf(),
        ensures
            r matches Ok(out) ==> {
                &&& self@.contains_key(start_id)
                &&& self@.contains_key(end_id)
                &&& out@.no_duplicates()
                &&& forall|x: ChangesetId| out@.contains(x) <==> in_range(self@, start_id, end_id, x)
                &&& generations_ascend(self@, out@)
                &&& start_id == end_id ==> out@ == seq![start_id]
                &&& !is_ancestor(self@, start_id, end_id) ==> out@.len() == 0
            },
            r matches Err(e) ==> {
                ||| fetch_failure(e, self.reliable())
                ||| e == CommitGraphError::NotFound(end_id) && !self@.contains_key(end_id)
                ||| e == CommitGraphError::NotFound(start_id) && !self@.contains_key(start_id)
            },
            self.reliable() && self@.contains_key(start_id) && self@.contains_key(end_id) ==> r is Ok,
    {
        let ghost g = self@;
        let mut heads: Vec<ChangesetId> = Vec::new();
        heads.push(end_id);
        let ghost heads_seq = heads@;
        let built = AncestorsStreamBuilder::new(heads).descendants_of(start_id).build(self);
        let mut stream = match built {
            Ok(stream) => stream,
            Err(e) => {
                proof {
                    if !fetch_failure(e, self.reliable()) {
                        let id = e->NotFound_0;
                        if heads_seq.contains(id) {
                            let k = choose|k: int| 0 <= k < heads_seq.len() && heads_seq[k] == id;
                            assert(id == end_id);
                        }
                        assert(!Seq::<ChangesetId>::empty().contains(id));
                    }
                }
                return Err(e);
            },
        };
        let down = match stream.try_collect(self) {
            Ok(down) => down,
            Err(e) => {
                return Err(e);
            },
        };
        let out = reversed(&down);
        proof {
            let none = Seq::<ChangesetId>::empty();
            assert(heads_seq[0] == end_id);
            assert forall|x: ChangesetId| out@.contains(x) <==> in_range(
                g,
                start_id,
                end_id,
                x,
            ) by {
                if out@.contains(x) {
                    let k = choose|k: int| 0 <= k < out@.len() && out@[k] == x;
                    assert(down@[down@.len() - 1 - k] == x);
                    assert(down@.contains(x));
                    assert(in_difference(g, heads_seq, none, Some(start_id), x));
                    let h = choose|h: int|
                        0 <= h < heads_seq.len() && is_ancestor(g, x, #[trigger] heads_seq[h]);
                }
                if in_range(g, start_id, end_id, x) {
                    assert(is_ancestor(g, x, heads_seq[0]));
                    assert(in_difference(g, heads_seq, none, Some(start_id), x));
                    assert(down@.contains(x));
                    let k = choose|k: int| 0 <= k < down@.len() && down@[k] == x;
                    assert(out@[down@.len() - 1 - k] == x);
                }
            }
            assert forall|i: int, j: int| 0 <= i < j < out@.len() implies out@[i] != out@[j]
                && generation_of(g, out@[i]) <= generation_of(g, out@[j]) by {
                let n = down@.len();
                assert(out@[i] == down@[n - 1 - i]);
                assert(out@[j] == down@[n - 1 - j]);
            }
            assert(g.contains_key(heads_seq[0]));
            lemma_range_ends(g, start_id, end_id, out@);
        }
        Ok(out)
    }
}

} // verus!
