//! The frontier: a wavefront of changesets, kept by generation, that a
//! traversal lowers step by step towards the roots of the graph.

use vstd::prelude::*;
use crate::types::{node_at, ChangesetId, ChangesetNode, Generation};

verus! {

/// A set of changeset nodes ordered by generation.
#[derive(Clone, Debug)]
pub struct ChangesetFrontier {
    nodes: Vec<ChangesetNode>,
}

/// No two nodes of the set name the same changeset.
pub open spec fn distinct_ids(f: Set<ChangesetNode>) -> bool {
    forall|n: ChangesetNode, m: ChangesetNode|
        #![trigger f.contains(n), f.contains(m)]
        f.contains(n) && f.contains(m) && n.cs_id == m.cs_id ==> n == m
}

spec fn ascending(s: Seq<ChangesetNode>) -> bool {
    forall|i: int, j: int|
        0 <= i < j < s.len() ==> s[i].generation.value <= s[j].generation.value
}

proof fn lemma_insert_contains(s: Seq<ChangesetNode>, pos: int, node: ChangesetNode)
    requires
        0 <= pos <= s.len(),
    ensures
        s.insert(pos, node).to_set() =~= s.to_set().insert(node),
{
    let t = s.insert(pos, node);
    s.insert_ensures(pos, node);
    assert forall|x: ChangesetNode| t.contains(x) <==> (x == node || s.contains(x)) by {
        if t.contains(x) {
            let i = choose|i: int| 0 <= i < t.len() && t[i] == x;
            if i < pos {
                assert(s[i] == x);
            } else if i > pos {
                assert(t[(i - 1) + 1] == s[i - 1]);
                assert(s[i - 1] == x);
            }
        }
        if s.contains(x) {
            let i = choose|i: int| 0 <= i < s.len() && s[i] == x;
            if i < pos {
                assert(t[i] == x);
            } else {
                assert(t[i + 1] == x);
            }
        }
        if x == node {
            assert(t[pos] == x);
        }
    }
}

impl View for ChangesetFrontier {
    type V = Set<ChangesetNode>;

    closed spec fn view(&self) -> Set<ChangesetNode> {
        self.nodes@.to_set()
    }
}

impl ChangesetFrontier {
    /// The nodes are kept in ascending order of generation, each once.
    pub closed spec fn wf(&self) -> bool {
        ascending(self.nodes@) && self.nodes@.no_duplicates()
    }

    /// The highest generation in the frontier, and 0 where it is empty.
    pub closed spec fn highest(&self) -> nat {
        if self.nodes@.len() == 0 {
            0
        } else {
            self.nodes@.last().generation.value as nat
        }
    }

    /// What the highest generation is, in terms of the set of nodes.
    pub proof fn lemma_highest(&self)
        requires
            self.wf(),
        ensures
            forall|n: ChangesetNode| #[trigger]
                self@.contains(n) ==> n.generation.value <= self.highest(),
            self@ =~= Set::<ChangesetNode>::empty() ==> self.highest() == 0,
            !(self@ =~= Set::<ChangesetNode>::empty()) ==> exists|n: ChangesetNode| #[trigger]
                self@.contains(n) && n.generation.value == self.highest(),
            self@.finite(),
    {
        let s = self.nodes@;
        assert forall|n: ChangesetNode| #[trigger]
            self@.contains(n) implies n.generation.value <= self.highest() by {
            let i = choose|i: int| 0 <= i < s.len() && s[i] == n;
            if i < s.len() - 1 {
                assert(s[i].generation.value <= s[s.len() - 1].generation.value);
            }
        }
        if s.len() == 0 {
        } else {
            assert(s.contains(s.last()));
            assert(self@.contains(s.last()));
        }
        vstd::seq_lib::seq_to_set_is_finite(s);
    }

    /// The empty frontier.
    pub fn new() -> (f: ChangesetFrontier)
        ensures
            f.wf(),
            f@ == Set::<ChangesetNode>::empty(),
            f.highest() == 0,
    {
        let f = ChangesetFrontier { nodes: Vec::new() };
        assert(f@ =~= Set::<ChangesetNode>::empty());
        f
    }

    /// Whether the frontier holds no node.
    pub fn is_empty(&self) -> (r: bool)
        ensures
            r == (self@ == Set::<ChangesetNode>::empty()),
    {
        let r = self.nodes.len() == 0;
        proof {
            if r {
                assert(self@ =~= Set::<ChangesetNode>::empty());
            } else {
                assert(self.nodes@.contains(self.nodes@[0]));
                assert(self@.contains(self.nodes@[0]));
            }
        }
        r
    }

    /// Whether the node is in the frontier.
    pub fn contains(&self, node: &ChangesetNode) -> (r: bool)
        ensures
            r == self@.contains(*node),
    {
        let mut i: usize = 0;
        while i < self.nodes.len()
            invariant
                i <= self.nodes.len(),
                forall|j: int| 0 <= j < i ==> self.nodes@[j] != *node,
            decreases self.nodes.len() - i,
        {
            if self.nodes[i].same_as(node) {
                assert(self.nodes@.contains(*node));
                return true;
            }
            i += 1;
        }
        false
    }

    /// Adds the node to the frontier, if it is not there yet.
    pub fn insert(&mut self, node: ChangesetNode)
        requires
            old(self).wf(),
        ensures
            final(self).wf(),
            final(self)@ == old(self)@.insert(node),
            final(self).highest() == if node.generation.value > old(self).highest() {
                node.generation.value as nat
            } else {
                old(self).highest()
            },
    {
        let ghost before = self.nodes@;
        if self.contains(&node) {
            proof {
                self.lemma_highest();
                assert(self@ =~= self@.insert(node));
            }
            return ;
        }
        let n = self.nodes.len();
        let mut i: usize = 0;
        while i < n && self.nodes[i].generation.value <= node.generation.value
            invariant
                i <= n,
                n == self.nodes.len(),
                self.nodes@ == before,
                forall|j: int| 0 <= j < i ==> before[j].generation.value <= node.generation.value,
            decreases n - i,
        {
            i += 1;
        }
        self.nodes.insert(i, node);
        proof {
            let after = self.nodes@;
            before.insert_ensures(i as int, node);
            lemma_insert_contains(before, i as int, node);
            assert(!before.contains(node));
            assert forall|a: int, b: int| 0 <= a < b < after.len() implies after[a].generation.value
                <= after[b].generation.value && after[a] != after[b] by {
                if b < i {
                } else if b == i {
                    assert(after[a] == before[a]);
                } else {
                    assert(after[(b - 1) + 1] == before[b - 1]);
                    if a < i {
                        assert(after[a] == before[a]);
                        if i < n {
                            assert(before[i as int].generation.value <= before[b
                                - 1].generation.value || i == b - 1);
                        }
                    } else if a == i {
                        assert(before[i as int].generation.value <= before[b
                            - 1].generation.value || i == b - 1);
                    } else {
                        assert(after[(a - 1) + 1] == before[a - 1]);
                    }
                }
            }
            if i == n {
                assert(after.last() == node);
            } else {
                assert(after[(n - 1) + 1] == before[n - 1]);
            }
        }
    }

    /// Adds each of the nodes to the frontier.
    pub fn extend(&mut self, nodes: &Vec<ChangesetNode>)
        requires
            old(self).wf(),
        ensures
            final(self).wf(),
            forall|n: ChangesetNode|
                #![trigger final(self)@.contains(n)]
                #![trigger old(self)@.contains(n)]
                final(self)@.contains(n) <==> old(self)@.contains(n) || nodes@.contains(n),
            forall|i: int| 0 <= i < nodes@.len() ==> final(self)@.contains(#[trigger] nodes@[i]),
    {
        let mut i: usize = 0;
        while i < nodes.len()
            invariant
                i <= nodes.len(),
                self.wf(),
                forall|n: ChangesetNode|
                    self@.contains(n) <==> old(self)@.contains(n) || exists|j: int|
                        0 <= j < i && #[trigger] nodes@[j] == n,
            decreases nodes.len() - i,
        {
            let ghost prev = self@;
            self.insert(nodes[i]);
            proof {
                assert forall|n: ChangesetNode|
                    self@.contains(n) <==> old(self)@.contains(n) || exists|j: int|
                        0 <= j < i + 1 && #[trigger] nodes@[j] == n by {
                    if self@.contains(n) && !old(self)@.contains(n) {
                        if n == nodes@[i as int] {
                        } else {
                            assert(prev.contains(n));
                            let j = choose|j: int| 0 <= j < i && #[trigger] nodes@[j] == n;
                            assert(nodes@[j] == n);
                        }
                    }
                    if exists|j: int| 0 <= j < i + 1 && #[trigger] nodes@[j] == n {
                        let j = choose|j: int| 0 <= j < i + 1 && #[trigger] nodes@[j] == n;
                        if j < i {
                            assert(prev.contains(n));
                        }
                    }
                }
            }
            i += 1;
        }
    }

    /// The highest generation in the frontier, if the frontier is not empty.
    pub fn last_generation(&self) -> (r: Option<Generation>)
        requires
            self.wf(),
        ensures
            r is None <==> self@ == Set::<ChangesetNode>::empty(),
            r matches Some(g) ==> g.value == self.highest() && (exists|n: ChangesetNode| #[trigger]
                self@.contains(n) && n.generation == g) && (forall|n: ChangesetNode| #[trigger]
                self@.contains(n) ==> n.generation.value <= g.value),
    {
        proof {
            self.lemma_highest();
        }
        let n = self.nodes.len();
        if n == 0 {
            assert(self@ =~= Set::<ChangesetNode>::empty());
            None
        } else {
            assert(self.nodes@.contains(self.nodes@.last()));
            assert(self@.contains(self.nodes@.last()));
            Some(self.nodes[n - 1].generation)
        }
    }

    /// One of the nodes of the highest generation, if the frontier is not
    /// empty.
    pub fn last_node(&self) -> (r: Option<ChangesetNode>)
        requires
            self.wf(),
        ensures
            r is None <==> self@ == Set::<ChangesetNode>::empty(),
            r matches Some(n) ==> self@.contains(n) && n.generation.value == self.highest(),
    {
        let n = self.nodes.len();
        if n == 0 {
            assert(self@ =~= Set::<ChangesetNode>::empty());
            None
        } else {
            assert(self.nodes@.contains(self.nodes@.last()));
            assert(self@.contains(self.nodes@.last()));
            Some(self.nodes[n - 1])
        }
    }

    /// Takes the nodes of the highest generation out of the frontier and
    /// returns that generation with their identifiers.
    pub fn pop_last(&mut self) -> (r: Option<(Generation, Vec<ChangesetId>)>)
        requires
            old(self).wf(),
        ensures
            final(self).wf(),
            r is None <==> old(self)@ == Set::<ChangesetNode>::empty(),
            r is None ==> final(self)@ == old(self)@,
            r matches Some((g, ids)) ==> {
                &&& g.value == old(self).highest()
                &&& ids@.len() > 0
                &&& ids@.no_duplicates()
                &&& forall|id: ChangesetId|
                    ids@.contains(id) <==> old(self)@.contains(
                        ChangesetNode { cs_id: id, generation: g },
                    )
                &&& forall|n: ChangesetNode|
                    final(self)@.contains(n) <==> old(self)@.contains(n) && n.generation.value
                        < g.value
                &&& final(self).highest() <= g.value
                &&& g.value > 0 ==> final(self).highest() < g.value
            },
    {
        let ghost before = self.nodes@;
        let n = self.nodes.len();
        if n == 0 {
            assert(self@ =~= Set::<ChangesetNode>::empty());
            return None;
        }
        let g = self.nodes[n - 1].generation;
        let mut ids: Vec<ChangesetId> = Vec::new();
        let mut k: usize = n;
        while k > 0 && self.nodes[k - 1].generation.value == g.value
            invariant
                k <= n,
                n == before.len(),
                ascending(before),
                before.no_duplicates(),
                g == before[n - 1].generation,
                self.nodes@ == before.subrange(0, k as int),
                ids@.len() == n - k,
                forall|j: int|
                    0 <= j < ids@.len() ==> ids@[j] == (#[trigger] before[n - 1 - j]).cs_id,
                forall|j: int| k <= j < n ==> (#[trigger] before[j]).generation == g,
            decreases k,
        {
            let node = self.nodes.pop().unwrap();
            ids.push(node.cs_id);
            k -= 1;
            assert(self.nodes@ =~= before.subrange(0, k as int));
            assert(before[n - 1 - (n - k - 1)] == before[k as int]);
        }
        proof {
            let after = self.nodes@;
            assert(before.contains(before[n - 1]));
            assert(!(before.to_set() =~= Set::<ChangesetNode>::empty())) by {
                assert(before.to_set().contains(before[n - 1]));
            }
            assert(k < n);
            assert forall|a: int, b: int| 0 <= a < b < ids@.len() implies ids@[a] != ids@[b] by {
                assert(before[n - 1 - a] != before[n - 1 - b]);
                assert(before[n - 1 - a].generation == g);
                assert(before[n - 1 - b].generation == g);
            }
            assert forall|id: ChangesetId|
                ids@.contains(id) <==> before.to_set().contains(
                    ChangesetNode { cs_id: id, generation: g },
                ) by {
                let node = ChangesetNode { cs_id: id, generation: g };
                if ids@.contains(id) {
                    let j = choose|j: int| 0 <= j < ids@.len() && ids@[j] == id;
                    assert(before[n - 1 - j] == node);
                    assert(before.contains(node));
                }
                if before.contains(node) {
                    let j = choose|j: int| 0 <= j < before.len() && before[j] == node;
                    if j < k {
                        assert(after[j] == before[j]);
                        assert(after[k - 1] == before[k - 1]);
                        assert(before[j].generation.value <= before[k - 1].generation.value);
                        assert(before[k - 1].generation.value <= before[n - 1].generation.value);
                        assert(false);
                    }
                    assert(ids@[n - 1 - j] == before[n - 1 - (n - 1 - j)].cs_id);
                }
            }
            assert forall|x: ChangesetNode|
                after.to_set().contains(x) <==> before.to_set().contains(x) && x.generation.value
                    < g.value by {
                if after.contains(x) {
                    let j = choose|j: int| 0 <= j < after.len() && after[j] == x;
                    assert(before[j] == x);
                    assert(before.contains(x));
                    assert(after[k - 1] == before[k - 1]);
                    assert(before[j].generation.value <= before[k - 1].generation.value);
                    assert(before[k - 1].generation.value <= before[n - 1].generation.value);
                }
                if before.contains(x) && x.generation.value < g.value {
                    let j = choose|j: int| 0 <= j < before.len() && before[j] == x;
                    assert(j < k);
                    assert(after[j] == x);
                }
            }
            if k > 0 {
                assert(after.last() == before[k - 1]);
                assert(before[k - 1].generation.value <= before[n - 1].generation.value);
            }
        }
        Some((g, ids))
    }

    /// Whether `generation` is the highest generation of the frontier and
    /// the changeset is in the frontier at that generation.
    pub fn highest_generation_contains(&self, cs_id: ChangesetId, generation: Generation) -> (r:
        bool)
        requires
            self.wf(),
        ensures
            r == (self@.contains(ChangesetNode { cs_id, generation }) && forall|n: ChangesetNode|
             #[trigger] self@.contains(n) ==> n.generation.value <= generation.value),
    {
        let node = ChangesetNode { cs_id, generation };
        match self.last_generation() {
            None => false,
            Some(highest) => {
                if highest.value == generation.value {
                    self.contains(&node)
                } else {
                    proof {
                        if self@.contains(node) {
                            assert(node.generation.value <= highest.value);
                        }
                    }
                    false
                }
            },
        }
    }

    /// The changesets that are in both frontiers at their highest generation,
    /// where the two frontiers have the same highest generation.
    pub fn highest_generation_intersection(&self, other: &ChangesetFrontier) -> (r: Vec<
        ChangesetId,
    >)
        requires
            self.wf(),
            other.wf(),
        ensures
            r@.no_duplicates(),
            forall|id: ChangesetId|
                r@.contains(id) <==> self.highest() == other.highest() && self@.contains(
                    node_at(id, self.highest()),
                ) && other@.contains(node_at(id, self.highest())),
    {
        let mut out: Vec<ChangesetId> = Vec::new();
        let n = self.nodes.len();
        if n == 0 {
            assert(self@ =~= Set::<ChangesetNode>::empty());
            return out;
        }
        let g = self.nodes[n - 1].generation;
        match other.last_generation() {
            None => {
                return out;
            },
            Some(og) => {
                if og.value != g.value {
                    return out;
                }
            },
        }
        let ghost s = self.nodes@;
        let mut k: usize = n;
        while k > 0 && self.nodes[k - 1].generation.value == g.value
            invariant
                k <= n,
                n == s.len(),
                s == self.nodes@,
                ascending(s),
                s.no_duplicates(),
                g == s[n - 1].generation,
                g.value == self.highest(),
                self.highest() == other.highest(),
                forall|j: int| k <= j < n ==> (#[trigger] s[j]).generation == g,
                forall|a: int, b: int| 0 <= a < b < out@.len() ==> out@[a] != out@[b],
                forall|id: ChangesetId|
                    out@.contains(id) <==> other@.contains(node_at(id, self.highest())) && exists|
                        j: int,
                    | k <= j < n && #[trigger] s[j] == node_at(id, self.highest()),
            decreases k,
        {
            let node = self.nodes[k - 1];
            let ghost prev = out@;
            assert(node == node_at(node.cs_id, self.highest()));
            if other.contains(&node) {
                out.push(node.cs_id);
                proof {
                    assert forall|a: int, b: int| 0 <= a < b < out@.len() implies out@[a]
                        != out@[b] by {
                        if b == prev.len() {
                            assert(prev.contains(prev[a]));
                            let j = choose|j: int|
                                k <= j < n && #[trigger] s[j] == node_at(prev[a], self.highest());
                            assert(s[j] != s[k - 1]);
                        }
                    }
                    assert forall|id: ChangesetId|
                        out@.contains(id) <==> other@.contains(node_at(id, self.highest()))
                            && exists|j: int|
                            k - 1 <= j < n && #[trigger] s[j] == node_at(id, self.highest()) by {
                        if out@.contains(id) {
                            let a = choose|a: int| 0 <= a < out@.len() && out@[a] == id;
                            if a < prev.len() {
                                assert(prev.contains(id));
                            } else {
                                assert(s[k - 1] == node_at(id, self.highest()));
                            }
                        }
                        if other@.contains(node_at(id, self.highest())) && exists|j: int|
                            k - 1 <= j < n && #[trigger] s[j] == node_at(id, self.highest()) {
                            let j = choose|j: int|
                                k - 1 <= j < n && #[trigger] s[j] == node_at(id, self.highest());
                            if j == k - 1 {
                                assert(out@[prev.len() as int] == id);
                            } else {
                                assert(prev.contains(id));
                                let a = choose|a: int| 0 <= a < prev.len() && prev[a] == id;
                                assert(out@[a] == id);
                            }
                        }
                    }
                }
            } else {
                proof {
                    assert forall|id: ChangesetId|
                        out@.contains(id) <==> other@.contains(node_at(id, self.highest()))
                            && exists|j: int|
                            k - 1 <= j < n && #[trigger] s[j] == node_at(id, self.highest()) by {
                        if other@.contains(node_at(id, self.highest())) && exists|j: int|
                            k - 1 <= j < n && #[trigger] s[j] == node_at(id, self.highest()) {
                            let j = choose|j: int|
                                k - 1 <= j < n && #[trigger] s[j] == node_at(id, self.highest());
                            assert(j != k - 1);
                        }
                    }
                }
            }
            k -= 1;
        }
        proof {
            assert forall|id: ChangesetId|
                out@.contains(id) <==> self.highest() == other.highest() && self@.contains(
                    node_at(id, self.highest()),
                ) && other@.contains(node_at(id, self.highest())) by {
                let node = node_at(id, self.highest());
                if self@.contains(node) && other@.contains(node) {
                    let j = choose|j: int| 0 <= j < s.len() && s[j] == node;
                    if j < k {
                        assert(s[j].generation.value <= s[k - 1].generation.value);
                        assert(s[k - 1].generation.value <= s[n - 1].generation.value);
                        assert(false);
                    }
                }
                if out@.contains(id) {
                    let j = choose|j: int| k <= j < n && #[trigger] s[j] == node;
                    assert(s.contains(node));
                }
            }
        }
        out
    }

    /// Whether the two frontiers have no node in common.
    pub fn is_disjoint(&self, other: &ChangesetFrontier) -> (r: bool)
        ensures
            r == self@.disjoint(other@),
    {
        let mut i: usize = 0;
        while i < self.nodes.len()
            invariant
                i <= self.nodes.len(),
                forall|j: int| 0 <= j < i ==> !other@.contains(#[trigger] self.nodes@[j]),
            decreases self.nodes.len() - i,
        {
            if other.contains(&self.nodes[i]) {
                assert(self.nodes@.contains(self.nodes@[i as int]));
                assert(self@.contains(self.nodes@[i as int]));
                return false;
            }
            i += 1;
        }
        proof {
            assert forall|x: ChangesetNode| !(self@.contains(x) && other@.contains(x)) by {
                if self@.contains(x) {
                    let j = choose|j: int| 0 <= j < self.nodes@.len() && self.nodes@[j] == x;
                    assert(!other@.contains(self.nodes@[j]));
                }
            }
        }
        true
    }

    /// The changesets of the frontier at generations from `start` up to, but
    /// not including, `end`.
    pub fn changesets_in_range(&self, start: Generation, end: Generation) -> (r: Vec<ChangesetId>)
        ensures
            forall|id: ChangesetId|
                r@.contains(id) <==> exists|n: ChangesetNode| #[trigger]
                    self@.contains(n) && n.cs_id == id && start.value <= n.generation.value
                        < end.value,
            self.wf() && distinct_ids(self@) ==> r@.no_duplicates(),
    {
        let mut out: Vec<ChangesetId> = Vec::new();
        let ghost mut src: Seq<int> = Seq::empty();
        let mut i: usize = 0;
        while i < self.nodes.len()
            invariant
                i <= self.nodes.len(),
                src.len() == out@.len(),
                forall|a: int|
                    0 <= a < out@.len() ==> 0 <= #[trigger] src[a] < i && out@[a]
                        == self.nodes@[src[a]].cs_id && start.value
                        <= self.nodes@[src[a]].generation.value < end.value,
                forall|a: int, b: int| 0 <= a < b < out@.len() ==> src[a] < src[b],
                forall|j: int|
                    0 <= j < i && start.value <= (#[trigger] self.nodes@[j]).generation.value
                        < end.value ==> out@.contains(self.nodes@[j].cs_id),
            decreases self.nodes.len() - i,
        {
            let node = self.nodes[i];
            if start.value <= node.generation.value && node.generation.value < end.value {
                let ghost prev = out@;
                out.push(node.cs_id);
                proof {
                    src = src.push(i as int);
                    assert forall|j: int|
                        0 <= j < i + 1 && start.value <= (
                        #[trigger] self.nodes@[j]).generation.value
                            < end.value implies out@.contains(self.nodes@[j].cs_id) by {
                        if j < i {
                            assert(prev.contains(self.nodes@[j].cs_id));
                            let a = choose|a: int|
                                0 <= a < prev.len() && prev[a] == self.nodes@[j].cs_id;
                            assert(out@[a] == self.nodes@[j].cs_id);
                        } else {
                            assert(out@[prev.len() as int] == node.cs_id);
                        }
                    }
                }
            }
            i += 1;
        }
        proof {
            assert forall|id: ChangesetId|
                out@.contains(id) <==> exists|n: ChangesetNode| #[trigger]
                    self@.contains(n) && n.cs_id == id && start.value <= n.generation.value
                        < end.value by {
                if out@.contains(id) {
                    let a = choose|a: int| 0 <= a < out@.len() && out@[a] == id;
                    let n = self.nodes@[src[a]];
                    assert(self.nodes@.contains(n));
                    assert(self@.contains(n));
                }
                if exists|n: ChangesetNode| #[trigger]
                    self@.contains(n) && n.cs_id == id && start.value <= n.generation.value
                        < end.value {
                    let n = choose|n: ChangesetNode| #[trigger]
                        self@.contains(n) && n.cs_id == id && start.value <= n.generation.value
                            < end.value;
                    let j = choose|j: int| 0 <= j < self.nodes@.len() && self.nodes@[j] == n;
                    assert(out@.contains(self.nodes@[j].cs_id));
                }
            }
            if self.wf() && distinct_ids(self@) {
                assert forall|a: int, b: int| 0 <= a < b < out@.len() implies out@[a]
                    != out@[b] by {
                    let n = self.nodes@[src[a]];
                    let m = self.nodes@[src[b]];
                    assert(self.nodes@.contains(n));
                    assert(self.nodes@.contains(m));
                    assert(self@.contains(n) && self@.contains(m));
                    assert(n != m);
                }
            }
        }
        out
    }

    /// The changesets of the frontier at generation `start` and above.
    pub fn changesets_from(&self, start: Generation) -> (r: Vec<ChangesetId>)
        ensures
            forall|id: ChangesetId|
                r@.contains(id) <==> exists|n: ChangesetNode| #[trigger]
                    self@.contains(n) && n.cs_id == id && start.value <= n.generation.value,
            self.wf() && distinct_ids(self@) ==> r@.no_duplicates(),
    {
        let mut out: Vec<ChangesetId> = Vec::new();
        let ghost mut src: Seq<int> = Seq::empty();
        let mut i: usize = 0;
        while i < self.nodes.len()
            invariant
                i <= self.nodes.len(),
                src.len() == out@.len(),
                forall|a: int|
                    0 <= a < out@.len() ==> 0 <= #[trigger] src[a] < i && out@[a]
                        == self.nodes@[src[a]].cs_id && start.value
                        <= self.nodes@[src[a]].generation.value,
                forall|a: int, b: int| 0 <= a < b < out@.len() ==> src[a] < src[b],
                forall|j: int|
                    0 <= j < i && start.value <= (#[trigger] self.nodes@[j]).generation.value
                        ==> out@.contains(self.nodes@[j].cs_id),
            decreases self.nodes.len() - i,
        {
            let node = self.nodes[i];
            if start.value <= node.generation.value {
                let ghost prev = out@;
                out.push(node.cs_id);
                proof {
                    src = src.push(i as int);
                    assert forall|j: int|
                        0 <= j < i + 1 && start.value <= (
                        #[trigger] self.nodes@[j]).generation.value implies out@.contains(
                        self.nodes@[j].cs_id,
                    ) by {
                        if j < i {
                            assert(prev.contains(self.nodes@[j].cs_id));
                            let a = choose|a: int|
                                0 <= a < prev.len() && prev[a] == self.nodes@[j].cs_id;
                            assert(out@[a] == self.nodes@[j].cs_id);
                        } else {
                            assert(out@[prev.len() as int] == node.cs_id);
                        }
                    }
                }
            }
            i += 1;
        }
        proof {
            assert forall|id: ChangesetId|
                out@.contains(id) <==> exists|n: ChangesetNode| #[trigger]
                    self@.contains(n) && n.cs_id == id && start.value <= n.generation.value by {
                if out@.contains(id) {
                    let a = choose|a: int| 0 <= a < out@.len() && out@[a] == id;
                    let n = self.nodes@[src[a]];
                    assert(self.nodes@.contains(n));
                    assert(self@.contains(n));
                }
                if exists|n: ChangesetNode| #[trigger]
                    self@.contains(n) && n.cs_id == id && start.value <= n.generation.value {
                    let n = choose|n: ChangesetNode| #[trigger]
                        self@.contains(n) && n.cs_id == id && start.value <= n.generation.value;
                    let j = choose|j: int| 0 <= j < self.nodes@.len() && self.nodes@[j] == n;
                    assert(out@.contains(self.nodes@[j].cs_id));
                }
            }
            if self.wf() && distinct_ids(self@) {
                assert forall|a: int, b: int| 0 <= a < b < out@.len() implies out@[a]
                    != out@[b] by {
                    let n = self.nodes@[src[a]];
                    let m = self.nodes@[src[b]];
                    assert(self.nodes@.contains(n));
                    assert(self.nodes@.contains(m));
                    assert(self@.contains(n) && self@.contains(m));
                    assert(n != m);
                }
            }
        }
        out
    }

    /// All the changesets of the frontier.
    pub fn changesets(&self) -> (r: Vec<ChangesetId>)
        ensures
            forall|id: ChangesetId|
                r@.contains(id) <==> exists|n: ChangesetNode| #[trigger]
                    self@.contains(n) && n.cs_id == id,
            self.wf() && distinct_ids(self@) ==> r@.no_duplicates(),
    {
        self.changesets_from(Generation { value: 0 })
    }

    /// The nodes of the frontier as pairs, in ascending order of generation.
    pub fn into_flat(self) -> (r: Vec<(ChangesetId, Generation)>)
        requires
            self.wf(),
        ensures
            r@.no_duplicates(),
            forall|id: ChangesetId, g: Generation|
                r@.contains((id, g)) <==> self@.contains(ChangesetNode { cs_id: id, generation: g }),
            forall|i: int, j: int| 0 <= i < j < r@.len() ==> r@[i].1.value <= r@[j].1.value,
    {
        let mut out: Vec<(ChangesetId, Generation)> = Vec::new();
        let mut i: usize = 0;
        while i < self.nodes.len()
            invariant
                i <= self.nodes.len(),
                out@.len() == i,
                forall|j: int|
                    0 <= j < i ==> #[trigger] out@[j] == (
                        self.nodes@[j].cs_id,
                        self.nodes@[j].generation,
                    ),
            decreases self.nodes.len() - i,
        {
            let node = self.nodes[i];
            out.push((node.cs_id, node.generation));
            i += 1;
        }
        proof {
            assert forall|a: int, b: int| 0 <= a < b < out@.len() implies out@[a] != out@[b]
                && out@[a].1.value <= out@[b].1.value by {
                assert(self.nodes@[a] != self.nodes@[b]);
            }
            assert forall|id: ChangesetId, g: Generation|
                out@.contains((id, g)) <==> self@.contains(
                    ChangesetNode { cs_id: id, generation: g },
                ) by {
                let node = ChangesetNode { cs_id: id, generation: g };
                if out@.contains((id, g)) {
                    let j = choose|j: int| 0 <= j < out@.len() && out@[j] == (id, g);
                    assert(self.nodes@[j] == node);
                    assert(self.nodes@.contains(node));
                }
                if self@.contains(node) {
                    let j = choose|j: int| 0 <= j < self.nodes@.len() && self.nodes@[j] == node;
                    assert(out@[j] == (id, g));
                }
            }
        }
        out
    }

    /// The frontier that holds the given pairs.
    pub fn from_flat(pairs: &Vec<(ChangesetId, Generation)>) -> (f: ChangesetFrontier)
        ensures
            f.wf(),
            forall|n: ChangesetNode| f@.contains(n) <==> pairs@.contains((n.cs_id, n.generation)),
    {
        let mut f = ChangesetFrontier::new();
        let mut i: usize = 0;
        while i < pairs.len()
            invariant
                i <= pairs.len(),
                f.wf(),
                forall|n: ChangesetNode|
                    f@.contains(n) <==> exists|j: int|
                        0 <= j < i && #[trigger] pairs@[j] == (n.cs_id, n.generation),
            decreases pairs.len() - i,
        {
            let ghost prev = f@;
            let (cs_id, generation) = pairs[i];
            let node = ChangesetNode { cs_id, generation };
            f.insert(node);
            proof {
                assert forall|n: ChangesetNode|
                    f@.contains(n) <==> exists|j: int|
                        0 <= j < i + 1 && #[trigger] pairs@[j] == (n.cs_id, n.generation) by {
                    if f@.contains(n) {
                        if n == node {
                            assert(pairs@[i as int] == (n.cs_id, n.generation));
                        } else {
                            assert(prev.contains(n));
                        }
                    }
                    if exists|j: int|
                        0 <= j < i + 1 && #[trigger] pairs@[j] == (n.cs_id, n.generation) {
                        let j = choose|j: int|
                            0 <= j < i + 1 && #[trigger] pairs@[j] == (n.cs_id, n.generation);
                        if j < i {
                            assert(prev.contains(n));
                        }
                    }
                }
            }
            i += 1;
        }
        f
    }

    /// A copy of the frontier.
    pub fn duplicate(&self) -> (f: ChangesetFrontier)
        ensures
            f@ == self@,
            f.wf() == self.wf(),
            f.highest() == self.highest(),
    {
        let mut nodes: Vec<ChangesetNode> = Vec::new();
        let mut i: usize = 0;
        while i < self.nodes.len()
            invariant
                i <= self.nodes.len(),
                nodes@ == self.nodes@.subrange(0, i as int),
            decreases self.nodes.len() - i,
        {
            nodes.push(self.nodes[i]);
            i += 1;
            assert(nodes@ =~= self.nodes@.subrange(0, i as int));
        }
        assert(nodes@ =~= self.nodes@);
        ChangesetFrontier { nodes }
    }
}

} // verus!
