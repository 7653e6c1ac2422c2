//! A storage that keeps every edge record in memory.

use vstd::prelude::*;
use crate::graph::{is_parent, Graph};
use crate::storage::{lookup_matches, CommitGraphStorage};
use crate::types::{
    has_prefix, ChangesetEdges, ChangesetId, ChangesetIdPrefix, ChangesetIdsResolvedFromPrefix,
    CommitGraphError, Prefetch,
};

verus! {

/// Edge records in the order in which they were added.
#[derive(Debug)]
pub struct InMemoryCommitGraphStorage {
    records: Vec<ChangesetEdges>,
}

spec fn holds(s: Seq<ChangesetEdges>, id: ChangesetId) -> bool {
    exists|i: int| 0 <= i < s.len() && (#[trigger] s[i]).node.cs_id == id
}

spec fn position(s: Seq<ChangesetEdges>, id: ChangesetId) -> int {
    choose|i: int| 0 <= i < s.len() && (#[trigger] s[i]).node.cs_id == id
}

spec fn as_graph(s: Seq<ChangesetEdges>) -> Graph {
    Map::new(|id: ChangesetId| holds(s, id), |id: ChangesetId| s[position(s, id)]@)
}

spec fn distinct(s: Seq<ChangesetEdges>) -> bool {
    forall|i: int, j: int|
        0 <= i < j < s.len() ==> (#[trigger] s[i]).node.cs_id != (#[trigger] s[j]).node.cs_id
}

proof fn lemma_position(s: Seq<ChangesetEdges>, i: int)
    requires
        distinct(s),
        0 <= i < s.len(),
    ensures
        holds(s, s[i].node.cs_id),
        position(s, s[i].node.cs_id) == i,
        as_graph(s).contains_key(s[i].node.cs_id),
        as_graph(s)[s[i].node.cs_id] == s[i]@,
{
    let id = s[i].node.cs_id;
    assert(holds(s, id));
    let j = position(s, id);
    if j < i {
        assert(s[j].node.cs_id != s[i].node.cs_id);
    } else if i < j {
        assert(s[i].node.cs_id != s[j].node.cs_id);
    }
}

proof fn lemma_push(s: Seq<ChangesetEdges>, e: ChangesetEdges)
    requires
        distinct(s),
        !holds(s, e.node.cs_id),
    ensures
        distinct(s.push(e)),
        as_graph(s.push(e)) == as_graph(s).insert(e.node.cs_id, e@),
{
    let t = s.push(e);
    assert forall|i: int, j: int| 0 <= i < j < t.len() implies (#[trigger] t[i]).node.cs_id != (
    #[trigger] t[j]).node.cs_id by {
        if j == s.len() {
            assert(s[i].node.cs_id != e.node.cs_id);
        } else {
            assert(s[i].node.cs_id != s[j].node.cs_id);
        }
    }
    assert forall|id: ChangesetId| holds(t, id) <==> (holds(s, id) || id == e.node.cs_id) by {
        if holds(t, id) {
            let i = position(t, id);
            if i < s.len() {
                assert(s[i].node.cs_id == id);
            }
        }
        if holds(s, id) {
            let i = position(s, id);
            assert(t[i].node.cs_id == id);
        }
        if id == e.node.cs_id {
            assert(t[s.len() as int].node.cs_id == id);
        }
    }
    assert forall|id: ChangesetId| holds(t, id) implies #[trigger] as_graph(t)[id] == as_graph(
        s,
    ).insert(e.node.cs_id, e@)[id] by {
        if id == e.node.cs_id {
            lemma_position(t, s.len() as int);
        } else {
            let i = position(s, id);
            lemma_position(s, i);
            assert(t[i] == s[i]);
            lemma_position(t, i);
        }
    }
    assert(as_graph(t) =~= as_graph(s).insert(e.node.cs_id, e@));
}

/// Whether the record names `cs_id` among its parents.
fn names_parent(edges: &ChangesetEdges, cs_id: &ChangesetId) -> (r: bool)
    ensures
        r == exists|i: int|
            0 <= i < edges.parents@.len() && (#[trigger] edges.parents@[i]).cs_id == *cs_id,
{
    let mut i: usize = 0;
    while i < edges.parents.len()
        invariant
            i <= edges.parents.len(),
            forall|j: int| 0 <= j < i ==> (#[trigger] edges.parents@[j]).cs_id != *cs_id,
        decreases edges.parents.len() - i,
    {
        if edges.parents[i].cs_id.same_as(cs_id) {
            return true;
        }
        i += 1;
    }
    false
}

impl InMemoryCommitGraphStorage {
    /// A storage that holds no record.
    pub fn new() -> (s: InMemoryCommitGraphStorage)
        ensures
            s.wf(),
            s.reliable(),
            s.graph() == Map::<ChangesetId, crate::types::EdgesView>::empty(),
            s.count() == 0,
    {
        let s = InMemoryCommitGraphStorage { records: Vec::new() };
        assert(s.graph() =~= Map::<ChangesetId, crate::types::EdgesView>::empty());
        s
    }

    /// How many records are stored.
    pub fn len(&self) -> (n: usize)
        ensures
            n == self.count(),
    {
        self.records.len()
    }

    /// The number of stored records.
    pub closed spec fn count(&self) -> nat {
        self.records@.len()
    }

    fn find(&self, cs_id: &ChangesetId) -> (r: Option<usize>)
        requires
            self.wf(),
        ensures
            match r {
                Some(i) => i < self.records@.len() && self.records@[i as int].node.cs_id == *cs_id
                    && self.graph().contains_key(*cs_id) && self.graph()[*cs_id]
                    == self.records@[i as int]@,
                None => !self.graph().contains_key(*cs_id),
            },
    {
        let mut i: usize = 0;
        while i < self.records.len()
            invariant
                i <= self.records.len(),
                self.wf(),
                forall|j: int| 0 <= j < i ==> (#[trigger] self.records@[j]).node.cs_id != *cs_id,
            decreases self.records.len() - i,
        {
            if self.records[i].node.cs_id.same_as(cs_id) {
                proof {
                    lemma_position(self.records@, i as int);
                }
                return Some(i);
            }
            i += 1;
        }
        None
    }
}

impl CommitGraphStorage for InMemoryCommitGraphStorage {
    closed spec fn graph(&self) -> Graph {
        as_graph(self.records@)
    }

    closed spec fn reliable(&self) -> bool {
        true
    }

    closed spec fn wf(&self) -> bool {
        distinct(self.records@)
    }

    fn fetch_edges(&self, cs_id: ChangesetId) -> (r: Result<
        Option<ChangesetEdges>,
        CommitGraphError,
    >) {
        match self.find(&cs_id) {
            Some(i) => Ok(Some(self.records[i].duplicate())),
            None => Ok(None),
        }
    }

    fn fetch_many_edges(&self, cs_ids: &Vec<ChangesetId>, prefetch: Prefetch) -> (r: Result<
        Vec<Option<ChangesetEdges>>,
        CommitGraphError,
    >) {
        let mut found: Vec<Option<ChangesetEdges>> = Vec::new();
        let mut i: usize = 0;
        while i < cs_ids.len()
            invariant
                i <= cs_ids.len(),
                self.wf(),
                found@.len() == i,
                forall|j: int|
                    0 <= j < i ==> lookup_matches(self.graph(), cs_ids@[j], #[trigger] found@[j]),
            decreases cs_ids.len() - i,
        {
            match self.find(&cs_ids[i]) {
                Some(k) => found.push(Some(self.records[k].duplicate())),
                None => found.push(None),
            }
            i += 1;
        }
        Ok(found)
    }

    fn add(&mut self, edges: ChangesetEdges) -> (r: Result<bool, CommitGraphError>) {
        let mut i: usize = 0;
        while i < edges.parents.len()
            invariant
                i <= edges.parents.len(),
                self.wf(),
                *self == *old(self),
                forall|j: int|
                    0 <= j < i ==> self.graph().contains_key((#[trigger] edges.parents@[j]).cs_id),
            decreases edges.parents.len() - i,
        {
            let parent = edges.parents[i].cs_id;
            if self.find(&parent).is_none() {
                return Err(CommitGraphError::NotFound(parent));
            }
            i += 1;
        }
        if self.find(&edges.node.cs_id).is_some() {
            return Ok(false);
        }
        proof {
            lemma_push(self.records@, edges);
        }
        self.records.push(edges);
        Ok(true)
    }

    fn find_by_prefix(&self, prefix: &ChangesetIdPrefix, limit: usize) -> (r: Result<
        ChangesetIdsResolvedFromPrefix,
        CommitGraphError,
    >) {
        let ghost s = self.records@;
        let mut found: Vec<ChangesetId> = Vec::new();
        let mut i: usize = 0;
        while i < self.records.len()
            invariant
                i <= self.records.len(),
                s == self.records@,
                distinct(s),
                found@.len() <= i,
                forall|a: int|
                    0 <= a < found@.len() ==> has_prefix(#[trigger] found@[a], prefix.bytes@)
                        && exists|j: int| 0 <= j < i && (#[trigger] s[j]).node.cs_id == found@[a],
                forall|a: int, b: int| 0 <= a < b < found@.len() ==> found@[a] != found@[b],
                forall|j: int|
                    0 <= j < i && has_prefix((#[trigger] s[j]).node.cs_id, prefix.bytes@)
                        ==> found@.contains(s[j].node.cs_id),
            decreases self.records.len() - i,
        {
            let id = self.records[i].node.cs_id;
            if prefix.matches(&id) {
                let ghost prev = found@;
                found.push(id);
                proof {
                    assert forall|a: int, b: int| 0 <= a < b < found@.len() implies found@[a]
                        != found@[b] by {
                        if b == prev.len() {
                            let j = choose|j: int|
                                0 <= j < i && (#[trigger] s[j]).node.cs_id == prev[a];
                            assert(s[j].node.cs_id != s[i as int].node.cs_id);
                        }
                    }
                    assert forall|a: int| 0 <= a < found@.len() implies has_prefix(
                        #[trigger] found@[a],
                        prefix.bytes@,
                    ) && exists|j: int|
                        0 <= j < i + 1 && (#[trigger] s[j]).node.cs_id == found@[a] by {
                        if a < prev.len() {
                            let j = choose|j: int|
                                0 <= j < i && (#[trigger] s[j]).node.cs_id == prev[a];
                            assert(s[j].node.cs_id == found@[a]);
                        } else {
                            assert(s[i as int].node.cs_id == found@[a]);
                        }
                    }
                    assert forall|j: int|
                        0 <= j < i + 1 && has_prefix(
                            (#[trigger] s[j]).node.cs_id,
                            prefix.bytes@,
                        ) implies found@.contains(s[j].node.cs_id) by {
                        if j < i {
                            assert(prev.contains(s[j].node.cs_id));
                            let a = choose|a: int|
                                0 <= a < prev.len() && prev[a] == s[j].node.cs_id;
                            assert(found@[a] == s[j].node.cs_id);
                        } else {
                            assert(found@[prev.len() as int] == id);
                        }
                    }
                }
            }
            i += 1;
        }
        proof {
            assert forall|x: ChangesetId|
                found@.contains(x) <==> self.graph().contains_key(x) && has_prefix(
                    x,
                    prefix.bytes@,
                ) by {
                if found@.contains(x) {
                    let a = choose|a: int| 0 <= a < found@.len() && found@[a] == x;
                    let j = choose|j: int|
                        0 <= j < s.len() && (#[trigger] s[j]).node.cs_id == found@[a];
                    assert(holds(s, x));
                }
                if self.graph().contains_key(x) && has_prefix(x, prefix.bytes@) {
                    let j = position(s, x);
                    assert(found@.contains(s[j].node.cs_id));
                }
            }
        }
        let n = found.len();
        if n == 0 {
            proof {
                assert forall|x: ChangesetId| #[trigger]
                    self.graph().contains_key(x) implies !has_prefix(x, prefix.bytes@) by {
                    if has_prefix(x, prefix.bytes@) {
                        assert(found@.contains(x));
                    }
                }
            }
            Ok(ChangesetIdsResolvedFromPrefix::NoMatch)
        } else if n == 1 {
            let id = found[0];
            proof {
                assert(found@.contains(id));
                assert forall|x: ChangesetId| #[trigger]
                    self.graph().contains_key(x) && has_prefix(x, prefix.bytes@) implies x
                    == id by {
                    assert(found@.contains(x));
                }
            }
            Ok(ChangesetIdsResolvedFromPrefix::Single(id))
        } else if n <= limit {
            Ok(ChangesetIdsResolvedFromPrefix::Multiple(found))
        } else {
            let ghost all = found@;
            found.truncate(limit);
            proof {
                let kept = found@;
                assert(kept == all.subrange(0, limit as int));
                assert forall|x: ChangesetId| kept.contains(x) implies self.graph().contains_key(
                    x,
                ) && has_prefix(x, prefix.bytes@) by {
                    let a = choose|a: int| 0 <= a < kept.len() && kept[a] == x;
                    assert(all[a] == x);
                    assert(all.contains(x));
                }
                let x = all[n - 1];
                let y = all[0];
                assert(all.contains(x) && all.contains(y));
                assert(x != y);
                assert(!kept.contains(x)) by {
                    if kept.contains(x) {
                        let a = choose|a: int| 0 <= a < kept.len() && kept[a] == x;
                        assert(all[a] == all[n - 1]);
                    }
                }
                assert(self.graph().contains_key(x) && has_prefix(x, prefix.bytes@)
                    && self.graph().contains_key(y) && has_prefix(y, prefix.bytes@));
            }
            Ok(ChangesetIdsResolvedFromPrefix::TooMany(found))
        }
    }

    fn fetch_children(&self, cs_id: ChangesetId) -> (r: Result<Vec<ChangesetId>, CommitGraphError>) {
        let ghost s = self.records@;
        let mut children: Vec<ChangesetId> = Vec::new();
        let ghost mut src: Seq<int> = Seq::empty();
        let mut i: usize = 0;
        while i < self.records.len()
            invariant
                i <= self.records.len(),
                s == self.records@,
                distinct(s),
                src.len() == children@.len(),
                forall|a: int|
                    0 <= a < children@.len() ==> 0 <= #[trigger] src[a] < i && children@[a]
                        == s[src[a]].node.cs_id && is_parent(self.graph(), cs_id, children@[a]),
                forall|a: int, b: int| 0 <= a < b < children@.len() ==> src[a] < src[b],
                forall|j: int|
                    0 <= j < i && is_parent(self.graph(), cs_id, (#[trigger] s[j]).node.cs_id)
                        ==> children@.contains(s[j].node.cs_id),
            decreases self.records.len() - i,
        {
            proof {
                lemma_position(s, i as int);
            }
            if names_parent(&self.records[i], &cs_id) {
                let ghost prev = children@;
                children.push(self.records[i].node.cs_id);
                proof {
                    src = src.push(i as int);
                    let e = s[i as int];
                    let k = choose|k: int|
                        0 <= k < e.parents@.len() && (#[trigger] e.parents@[k]).cs_id == cs_id;
                    assert(self.graph()[e.node.cs_id].parents[k].cs_id == cs_id);
                    assert(is_parent(self.graph(), cs_id, s[i as int].node.cs_id));
                    assert forall|j: int|
                        0 <= j < i + 1 && is_parent(
                            self.graph(),
                            cs_id,
                            (#[trigger] s[j]).node.cs_id,
                        ) implies children@.contains(s[j].node.cs_id) by {
                        if j < i {
                            assert(prev.contains(s[j].node.cs_id));
                            let a = choose|a: int|
                                0 <= a < prev.len() && prev[a] == s[j].node.cs_id;
                            assert(children@[a] == s[j].node.cs_id);
                        } else {
                            assert(children@[prev.len() as int] == s[i as int].node.cs_id);
                        }
                    }
                }
            } else {
                proof {
                    let e = s[i as int];
                    if is_parent(self.graph(), cs_id, e.node.cs_id) {
                        let k = choose|k: int|
                            0 <= k < self.graph()[e.node.cs_id].parents.len() && (
                            #[trigger] self.graph()[e.node.cs_id].parents[k]).cs_id == cs_id;
                        assert(e.parents@[k].cs_id == cs_id);
                    }
                }
            }
            i += 1;
        }
        proof {
            assert forall|a: int, b: int| 0 <= a < b < children@.len() implies children@[a]
                != children@[b] by {
                assert(s[src[a]].node.cs_id != s[src[b]].node.cs_id);
            }
            assert forall|c: ChangesetId|
                children@.contains(c) <==> is_parent(self.graph(), cs_id, c) by {
                if children@.contains(c) {
                    let a = choose|a: int| 0 <= a < children@.len() && children@[a] == c;
                    assert(0 <= src[a] < i);
                }
                if is_parent(self.graph(), cs_id, c) {
                    let j = position(s, c);
                    assert(children@.contains(s[j].node.cs_id));
                }
            }
        }
        Ok(children)
    }
}

} // verus!
