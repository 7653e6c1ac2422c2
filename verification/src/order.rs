//! Putting changeset identifiers in order.

use vstd::prelude::*;
use crate::types::{id_lt, lemma_id_lt_total, lemma_id_lt_transitive, ChangesetId};

verus! {

/// The identifiers ascend strictly, so none occurs twice.
pub open spec fn strictly_ascending(ids: Seq<ChangesetId>) -> bool {
    forall|i: int, j: int| 0 <= i < j < ids.len() ==> id_lt(ids[i], ids[j])
}

/// Adds the identifier to an ascending list at its place, unless it is there.
pub fn insert_sorted(ids: &mut Vec<ChangesetId>, id: ChangesetId)
    requires
        strictly_ascending(old(ids)@),
    ensures
        strictly_ascending(final(ids)@),
        forall|x: ChangesetId| final(ids)@.contains(x) <==> old(ids)@.contains(x) || x == id,
{
    let ghost before = ids@;
    let n = ids.len();
    let mut i: usize = 0;
    while i < n && ids[i].precedes(&id)
        invariant
            i <= n,
            n == ids.len(),
            ids@ == before,
            forall|j: int| 0 <= j < i ==> id_lt(before[j], id),
        decreases n - i,
    {
        i += 1;
    }
    if i < n && ids[i].same_as(&id) {
        assert(before.contains(id));
        return ;
    }
    ids.insert(i, id);
    proof {
        let after = ids@;
        before.insert_ensures(i as int, id);
        if i < n {
            lemma_id_lt_total(before[i as int], id);
        }
        assert forall|a: int, b: int| 0 <= a < b < after.len() implies id_lt(
            after[a],
            after[b],
        ) by {
            if b < i {
            } else if b == i {
                assert(after[a] == before[a]);
            } else {
                assert(after[(b - 1) + 1] == before[b - 1]);
                if a < i {
                    assert(after[a] == before[a]);
                    if b - 1 > i {
                        assert(id_lt(before[i as int], before[b - 1]));
                    }
                    lemma_id_lt_transitive(before[a], id, before[i as int]);
                    if b - 1 > i {
                        lemma_id_lt_transitive(before[a], before[i as int], before[b - 1]);
                    }
                } else if a == i {
                    if b - 1 > i {
                        assert(id_lt(before[i as int], before[b - 1]));
                        lemma_id_lt_transitive(id, before[i as int], before[b - 1]);
                    }
                } else {
                    assert(after[(a - 1) + 1] == before[a - 1]);
                }
            }
        }
        assert forall|x: ChangesetId| after.contains(x) <==> before.contains(x) || x == id by {
            if after.contains(x) {
                let k = choose|k: int| 0 <= k < after.len() && after[k] == x;
                if k < i {
                    assert(before[k] == x);
                } else if k > i {
                    assert(after[(k - 1) + 1] == before[k - 1]);
                    assert(before[k - 1] == x);
                }
            }
            if before.contains(x) {
                let k = choose|k: int| 0 <= k < before.len() && before[k] == x;
                if k < i {
                    assert(after[k] == x);
                } else {
                    assert(after[k + 1] == x);
                }
            }
            if x == id {
                assert(after[i as int] == x);
            }
        }
    }
}

/// The same identifiers in ascending order, each once.
pub fn sort_changeset_ids(ids: &Vec<ChangesetId>) -> (sorted: Vec<ChangesetId>)
    ensures
        strictly_ascending(sorted@),
        forall|x: ChangesetId| sorted@.contains(x) <==> ids@.contains(x),
{
    let mut sorted: Vec<ChangesetId> = Vec::new();
    let mut i: usize = 0;
    while i < ids.len()
        invariant
            i <= ids.len(),
            strictly_ascending(sorted@),
            forall|x: ChangesetId|
                sorted@.contains(x) <==> exists|j: int| 0 <= j < i && #[trigger] ids@[j] == x,
        decreases ids.len() - i,
    {
        let ghost prev = sorted@;
        insert_sorted(&mut sorted, ids[i]);
        proof {
            assert forall|x: ChangesetId|
                sorted@.contains(x) <==> exists|j: int| 0 <= j < i + 1 && #[trigger] ids@[j] == x by {
                if sorted@.contains(x) {
                    if prev.contains(x) {
                        let j = choose|j: int| 0 <= j < i && #[trigger] ids@[j] == x;
                        assert(ids@[j] == x);
                    } else {
                        assert(ids@[i as int] == x);
                    }
                }
                if exists|j: int| 0 <= j < i + 1 && #[trigger] ids@[j] == x {
                    let j = choose|j: int| 0 <= j < i + 1 && #[trigger] ids@[j] == x;
                    if j < i {
                        assert(prev.contains(x));
                    }
                }
            }
        }
        i += 1;
    }
    proof {
        assert forall|x: ChangesetId| sorted@.contains(x) <==> ids@.contains(x) by {
            if sorted@.contains(x) {
                let j = choose|j: int| 0 <= j < i && #[trigger] ids@[j] == x;
                assert(ids@[j] == x);
            }
            if ids@.contains(x) {
                let j = choose|j: int| 0 <= j < ids@.len() && ids@[j] == x;
                assert(ids@[j] == x);
            }
        }
    }
    sorted
}

/// An ascending list is decided by the identifiers that it holds.
pub proof fn lemma_ascending_unique(a: Seq<ChangesetId>, b: Seq<ChangesetId>)
    requires
        strictly_ascending(a),
        strictly_ascending(b),
        forall|x: ChangesetId| a.contains(x) <==> b.contains(x),
    ensures
        a == b,
    decreases a.len(),
{
    if a.len() == 0 {
        if b.len() > 0 {
            assert(b.contains(b[0]));
        }
        assert(a =~= b);
    } else if b.len() == 0 {
        assert(a.contains(a[0]));
    } else {
        let la = a.last();
        let lb = b.last();
        assert(a.contains(la));
        assert(b.contains(lb));
        let ia = choose|i: int| 0 <= i < b.len() && b[i] == la;
        let ib = choose|i: int| 0 <= i < a.len() && a[i] == lb;
        if la != lb {
            assert(id_lt(la, lb) || ia == b.len() - 1);
            assert(id_lt(lb, la) || ib == a.len() - 1);
            lemma_id_lt_transitive(la, lb, la);
        }
        let a0 = a.drop_last();
        let b0 = b.drop_last();
        assert forall|x: ChangesetId| a0.contains(x) <==> b0.contains(x) by {
            if a0.contains(x) {
                let i = choose|i: int| 0 <= i < a0.len() && a0[i] == x;
                assert(a[i] == x);
                assert(id_lt(a[i], la));
                assert(a.contains(x));
                let j = choose|j: int| 0 <= j < b.len() && b[j] == x;
                assert(j < b.len() - 1);
                assert(b0[j] == x);
            }
            if b0.contains(x) {
                let i = choose|i: int| 0 <= i < b0.len() && b0[i] == x;
                assert(b[i] == x);
                assert(id_lt(b[i], lb));
                assert(b.contains(x));
                let j = choose|j: int| 0 <= j < a.len() && a[j] == x;
                assert(j < a.len() - 1);
                assert(a0[j] == x);
            }
        }
        lemma_ascending_unique(a0, b0);
        assert(a =~= a0.push(la));
        assert(b =~= b0.push(lb));
    }
}

} // verus!
