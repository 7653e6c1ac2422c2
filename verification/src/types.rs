//! Plain data carried through the commit graph: identifiers, generation
//! numbers, nodes, edge records and errors.

use vstd::prelude::*;

verus! {

/// Identifier of a changeset: 32 raw bytes derived from its content.
///
/// Two identifiers are equal when all their bytes are equal, and they are
/// ordered as their byte strings are.
#[derive(Clone, Copy, Debug, PartialEq, Eq, PartialOrd, Ord, Hash)]
pub struct ChangesetId {
    pub bytes: [u8; 32],
}

/// Lexicographic order on the bytes of two identifiers.
pub open spec fn id_lt(a: ChangesetId, b: ChangesetId) -> bool {
    exists|k: int|
        0 <= k < 32 && #[trigger] a.bytes[k] < b.bytes[k] && forall|j: int|
            0 <= j < k ==> a.bytes[j] == b.bytes[j]
}

/// The order on identifiers is transitive.
pub proof fn lemma_id_lt_transitive(a: ChangesetId, b: ChangesetId, c: ChangesetId)
    requires
        id_lt(a, b),
        id_lt(b, c),
    ensures
        id_lt(a, c),
{
    let k1 = choose|k: int|
        0 <= k < 32 && #[trigger] a.bytes[k] < b.bytes[k] && forall|j: int|
            0 <= j < k ==> a.bytes[j] == b.bytes[j];
    let k2 = choose|k: int|
        0 <= k < 32 && #[trigger] b.bytes[k] < c.bytes[k] && forall|j: int|
            0 <= j < k ==> b.bytes[j] == c.bytes[j];
    let k = if k1 <= k2 { k1 } else { k2 };
    assert(a.bytes[k] < c.bytes[k]);
}

/// Two different identifiers are ordered one way or the other.
pub proof fn lemma_id_lt_total(a: ChangesetId, b: ChangesetId)
    ensures
        a == b || id_lt(a, b) || id_lt(b, a),
{
    if a.bytes =~= b.bytes {
    } else {
        lemma_first_difference(a, b, 32);
    }
}

proof fn lemma_first_difference(a: ChangesetId, b: ChangesetId, n: int)
    requires
        0 <= n <= 32,
        exists|i: int| 0 <= i < n && a.bytes[i] != b.bytes[i],
    ensures
        id_lt(a, b) || id_lt(b, a),
    decreases n,
{
    if exists|i: int| 0 <= i < n - 1 && a.bytes[i] != b.bytes[i] {
        lemma_first_difference(a, b, n - 1);
    } else {
        let k = n - 1;
        assert(a.bytes[k] != b.bytes[k]);
        if a.bytes[k] < b.bytes[k] {
            assert(id_lt(a, b));
        } else {
            assert(b.bytes[k] < a.bytes[k]);
            assert(id_lt(b, a));
        }
    }
}

impl ChangesetId {
    /// The identifier made of the given bytes.
    pub fn from_bytes(bytes: [u8; 32]) -> (id: ChangesetId)
        ensures
            id.bytes == bytes,
    {
        ChangesetId { bytes }
    }

    /// Whether two identifiers are the same.
    pub fn same_as(&self, other: &ChangesetId) -> (r: bool)
        ensures
            r == (*self == *other),
    {
        let mut i: usize = 0;
        while i < 32
            invariant
                0 <= i <= 32,
                forall|j: int| 0 <= j < i ==> self.bytes[j] == other.bytes[j],
            decreases 32 - i,
        {
            if self.bytes[i] != other.bytes[i] {
                return false;
            }
            i += 1;
        }
        assert(self.bytes =~= other.bytes);
        true
    }

    /// Whether this identifier comes strictly before the other.
    pub fn precedes(&self, other: &ChangesetId) -> (r: bool)
        ensures
            r == id_lt(*self, *other),
    {
        let mut i: usize = 0;
        while i < 32
            invariant
                0 <= i <= 32,
                forall|j: int| 0 <= j < i ==> self.bytes[j] == other.bytes[j],
            decreases 32 - i,
        {
            if self.bytes[i] < other.bytes[i] {
                assert(id_lt(*self, *other));
                return true;
            }
            if self.bytes[i] > other.bytes[i] {
                assert(!id_lt(*self, *other)) by {
                    if id_lt(*self, *other) {
                        let k = choose|k: int|
                            0 <= k < 32 && #[trigger] self.bytes[k] < other.bytes[k] && forall|
                                j: int,
                            | 0 <= j < k ==> self.bytes[j] == other.bytes[j];
                        assert(k != i);
                    }
                }
                return false;
            }
            i += 1;
        }
        assert(self.bytes =~= other.bytes);
        false
    }
}

/// Generation number of a changeset: one more than the highest generation
/// among its parents, and 1 where it has none.
#[derive(Clone, Copy, Debug, PartialEq, Eq, Structural, PartialOrd, Ord, Hash)]
pub struct Generation {
    pub value: u64,
}

impl Generation {
    pub fn new(value: u64) -> (g: Generation)
        ensures
            g.value == value,
    {
        Generation { value }
    }

    pub fn value(&self) -> (v: u64)
        ensures
            v == self.value,
    {
        self.value
    }
}

/// A changeset together with its generation number.
#[derive(Clone, Copy, Debug, PartialEq, Eq, PartialOrd, Ord, Hash)]
pub struct ChangesetNode {
    pub cs_id: ChangesetId,
    pub generation: Generation,
}

impl ChangesetNode {
    pub fn new(cs_id: ChangesetId, generation: Generation) -> (n: ChangesetNode)
        ensures
            n.cs_id == cs_id,
            n.generation == generation,
    {
        ChangesetNode { cs_id, generation }
    }

    /// Whether two nodes name the same changeset at the same generation.
    pub fn same_as(&self, other: &ChangesetNode) -> (r: bool)
        ensures
            r == (*self == *other),
    {
        self.generation.value == other.generation.value && self.cs_id.same_as(&other.cs_id)
    }
}

/// The node that names `cs_id` at generation `generation`.
pub open spec fn node_at(cs_id: ChangesetId, generation: nat) -> ChangesetNode {
    ChangesetNode { cs_id, generation: Generation { value: generation as u64 } }
}

/// What is stored for one changeset: its node, the nodes of its parents in
/// their given order, and an optional pointer to a distant ancestor that
/// traversals may jump to.
#[derive(Clone, Debug, PartialEq, Eq)]
pub struct ChangesetEdges {
    pub node: ChangesetNode,
    pub parents: Vec<ChangesetNode>,
    pub skip_tree_skew_ancestor: Option<ChangesetNode>,
}

/// The mathematical content of a [`ChangesetEdges`].
pub struct EdgesView {
    pub node: ChangesetNode,
    pub parents: Seq<ChangesetNode>,
    pub skew_ancestor: Option<ChangesetNode>,
}

impl View for ChangesetEdges {
    type V = EdgesView;

    open spec fn view(&self) -> EdgesView {
        EdgesView {
            node: self.node,
            parents: self.parents@,
            skew_ancestor: self.skip_tree_skew_ancestor,
        }
    }
}

impl ChangesetEdges {
    /// A copy of the record.
    pub fn duplicate(&self) -> (r: ChangesetEdges)
        ensures
            r@ == self@,
    {
        let mut parents: Vec<ChangesetNode> = Vec::new();
        let mut i: usize = 0;
        while i < self.parents.len()
            invariant
                i <= self.parents.len(),
                parents@ == self.parents@.subrange(0, i as int),
            decreases self.parents.len() - i,
        {
            parents.push(self.parents[i]);
            i += 1;
            assert(parents@ =~= self.parents@.subrange(0, i as int));
        }
        assert(parents@ =~= self.parents@);
        ChangesetEdges {
            node: self.node,
            parents,
            skip_tree_skew_ancestor: self.skip_tree_skew_ancestor,
        }
    }
}

/// The leading bytes of a changeset identifier.
#[derive(Clone, Debug, PartialEq, Eq)]
pub struct ChangesetIdPrefix {
    pub bytes: Vec<u8>,
}

/// Whether the identifier starts with the given bytes.
pub open spec fn has_prefix(id: ChangesetId, prefix: Seq<u8>) -> bool {
    prefix.len() <= 32 && forall|i: int| 0 <= i < prefix.len() ==> id.bytes[i] == prefix[i]
}

impl ChangesetIdPrefix {
    /// The prefix made of the given bytes.
    pub fn from_bytes(bytes: Vec<u8>) -> (p: ChangesetIdPrefix)
        ensures
            p.bytes@ == bytes@,
    {
        ChangesetIdPrefix { bytes }
    }

    /// Whether the identifier starts with this prefix.
    pub fn matches(&self, id: &ChangesetId) -> (r: bool)
        ensures
            r == has_prefix(*id, self.bytes@),
    {
        if self.bytes.len() > 32 {
            return false;
        }
        let mut i: usize = 0;
        while i < self.bytes.len()
            invariant
                i <= self.bytes.len() <= 32,
                forall|j: int| 0 <= j < i ==> id.bytes[j] == self.bytes@[j],
            decreases self.bytes.len() - i,
        {
            if id.bytes[i] != self.bytes[i] {
                return false;
            }
            i += 1;
        }
        true
    }
}

/// The changesets that a prefix stands for.
#[derive(Clone, Debug, PartialEq, Eq)]
pub enum ChangesetIdsResolvedFromPrefix {
    /// Exactly one changeset has the prefix.
    Single(ChangesetId),
    /// Several changesets have the prefix, and no more than the limit.
    Multiple(Vec<ChangesetId>),
    /// More changesets have the prefix than the limit: as many as the limit
    /// of them.
    TooMany(Vec<ChangesetId>),
    /// No changeset has the prefix.
    NoMatch,
}

/// A hint to the storage about what a traversal will ask for next.
#[derive(Clone, Copy, Debug, PartialEq, Eq)]
pub enum Prefetch {
    /// No hint.
    NoHint,
    /// The traversal is heading down to this generation.
    Hint(Generation),
}

/// Why an operation on the commit graph failed.
#[derive(Clone, Debug, PartialEq, Eq)]
pub enum CommitGraphError {
    /// A changeset that had to exist is not in the graph.
    NotFound(ChangesetId),
    /// The storage could not answer.
    StorageFailure(String),
    /// A record contradicts the rules of the graph.
    InvariantViolation(ChangesetId),
}

} // verus!
