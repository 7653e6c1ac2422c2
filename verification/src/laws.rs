//! What holds of every well-formed graph and of every answer that the
//! commit graph gives.

use vstd::prelude::*;
use crate::ancestors_stream::{generations_descend, in_difference, in_range, lemma_range_ends};
use crate::graph::{
    generation_of, graph_wf, is_ancestor, is_ancestor_of_any, is_common_ancestor, is_common_base,
    lemma_ancestor_generation, lemma_parent_below, max_generation, Graph,
};
use crate::order::{lemma_ascending_unique, strictly_ascending};
use crate::slicing::{band_covers, band_wf, keeps_all, slice_ids, slice_start};
use crate::types::{ChangesetId, CommitGraphError};

verus! {

/// Every changeset of the graph is its own ancestor.
pub proof fn law_ancestry_reflexive(g: Graph, c: ChangesetId)
    requires
        g.contains_key(c),
    ensures
        is_ancestor(g, c, c),
{
}

/// Each parent of a changeset is an ancestor of it, and the generation of
/// the changeset is one more than the highest generation among its parents,
/// which makes it 1 where there are none.
pub proof fn law_parents_and_generation(g: Graph, c: ChangesetId)
    requires
        graph_wf(g),
        g.contains_key(c),
    ensures
        forall|i: int|
            0 <= i < g[c].parents.len() ==> is_ancestor(g, (#[trigger] g[c].parents[i]).cs_id, c),
        generation_of(g, c) == 1 + max_generation(g[c].parents),
        g[c].parents.len() == 0 ==> generation_of(g, c) == 1,
{
    assert forall|i: int| 0 <= i < g[c].parents.len() implies is_ancestor(
        g,
        (#[trigger] g[c].parents[i]).cs_id,
        c,
    ) by {
        lemma_parent_below(g, c, i);
    }
}

/// The common bases of `u` and `v` are those of `v` and `u`: two lists that
/// give them in ascending order are the same list.
pub proof fn law_common_base_symmetric(
    g: Graph,
    u: ChangesetId,
    v: ChangesetId,
    first: Seq<ChangesetId>,
    second: Seq<ChangesetId>,
)
    requires
        strictly_ascending(first),
        strictly_ascending(second),
        forall|x: ChangesetId| first.contains(x) <==> is_common_base(g, x, u, v),
        forall|x: ChangesetId| second.contains(x) <==> is_common_base(g, x, v, u),
    ensures
        first == second,
{
    assert forall|x: ChangesetId| is_common_base(g, x, u, v) <==> is_common_base(g, x, v, u) by {
        if is_common_base(g, x, u, v) {
            assert forall|y: ChangesetId| #[trigger]
                is_common_ancestor(g, y, v, u) implies generation_of(g, y) <= generation_of(
                g,
                x,
            ) by {
                assert(is_common_ancestor(g, y, u, v));
            }
        }
        if is_common_base(g, x, v, u) {
            assert forall|y: ChangesetId| #[trigger]
                is_common_ancestor(g, y, u, v) implies generation_of(g, y) <= generation_of(
                g,
                x,
            ) by {
                assert(is_common_ancestor(g, y, v, u));
            }
        }
    }
    lemma_ascending_unique(first, second);
}

/// A common base of `u` and `v` is an ancestor of both, and no changeset
/// that strictly descends from it is an ancestor of both.
pub proof fn law_common_base_highest(
    g: Graph,
    u: ChangesetId,
    v: ChangesetId,
    x: ChangesetId,
    y: ChangesetId,
)
    requires
        is_common_base(g, x, u, v),
        is_ancestor(g, x, y),
        y != x,
    ensures
        is_ancestor(g, x, u),
        is_ancestor(g, x, v),
        !is_common_ancestor(g, y, u, v),
{
    lemma_ancestor_generation(g, x, y);
}

/// In a list whose generations never rise and that holds no changeset
/// twice, no changeset comes before one of its descendants.
pub proof fn law_descending_is_topological(g: Graph, out: Seq<ChangesetId>, i: int, j: int)
    requires
        out.no_duplicates(),
        generations_descend(g, out),
        0 <= i < j < out.len(),
    ensures
        !is_ancestor(g, out[i], out[j]),
{
    if is_ancestor(g, out[i], out[j]) {
        lemma_ancestor_generation(g, out[i], out[j]);
    }
}

/// No changeset that an ancestors difference gives is an ancestor of one of
/// the changesets that were to be left out.
pub proof fn law_difference_excludes(
    g: Graph,
    heads: Seq<ChangesetId>,
    common: Seq<ChangesetId>,
    x: ChangesetId,
    k: int,
)
    requires
        in_difference(g, heads, common, None, x),
        0 <= k < common.len(),
    ensures
        !is_ancestor(g, x, common[k]),
{
}

/// A list that gives an ancestors difference without repetition and with
/// generations that never rise gives every ancestor of the heads that is no
/// ancestor of the changesets left out, gives no ancestor of those, and
/// gives no changeset before one of its descendants.
pub proof fn law_ancestors_difference(
    g: Graph,
    heads: Seq<ChangesetId>,
    common: Seq<ChangesetId>,
    out: Seq<ChangesetId>,
)
    requires
        out.no_duplicates(),
        forall|x: ChangesetId| out.contains(x) <==> in_difference(g, heads, common, None, x),
        generations_descend(g, out),
    ensures
        forall|i: int, j: int| 0 <= i < j < out.len() ==> out[i] != out[j],
        forall|i: int, k: int|
            0 <= i < out.len() && 0 <= k < common.len() ==> !is_ancestor(g, out[i], common[k]),
        forall|x: ChangesetId|
            is_ancestor_of_any(g, x, heads) && !is_ancestor_of_any(g, x, common) ==> out.contains(
                x,
            ),
        forall|i: int, j: int| 0 <= i < j < out.len() ==> !is_ancestor(g, out[i], out[j]),
{
    assert forall|i: int, k: int| 0 <= i < out.len() && 0 <= k < common.len() implies !is_ancestor(
        g,
        out[i],
        common[k],
    ) by {
        assert(out.contains(out[i]));
    }
    assert forall|i: int, j: int| 0 <= i < j < out.len() implies !is_ancestor(
        g,
        out[i],
        out[j],
    ) by {
        law_descending_is_topological(g, out, i, j);
    }
}

/// The range from a changeset to itself is that changeset alone, and the
/// range from a changeset to one that does not descend from it is empty.
pub proof fn law_range_ends(g: Graph, start: ChangesetId, end: ChangesetId, out: Seq<ChangesetId>)
    requires
        g.contains_key(start),
        g.contains_key(end),
        out.no_duplicates(),
        forall|x: ChangesetId| out.contains(x) <==> in_range(g, start, end, x),
    ensures
        start == end ==> out == seq![start],
        !is_ancestor(g, start, end) ==> out.len() == 0,
{
    lemma_range_ends(g, start, end, out);
}

/// Where every changeset needs processing, the bands leave no gap, give no
/// changeset twice, and hold for each ancestor of the heads, in the band of
/// its generation, that ancestor or one of its descendants.
pub proof fn law_slices_partition<
    P: Fn(Vec<ChangesetId>) -> Result<Vec<ChangesetId>, CommitGraphError>,
>(
    g: Graph,
    heads: Seq<ChangesetId>,
    needs_processing: P,
    size: u64,
    slices: Seq<(u64, Vec<ChangesetId>)>,
)
    requires
        size > 0,
        keeps_all(needs_processing),
        forall|k: int|
            0 <= k < slices.len() ==> #[trigger] band_wf(g, heads, needs_processing, size, slices, k),
        forall|k: int|
            0 <= k < slices.len() - 1 ==> slice_start(slices, k + 1) == #[trigger] slice_start(
                slices,
                k,
            ) + size,
        forall|x: ChangesetId| #[trigger]
            is_ancestor_of_any(g, x, heads) ==> band_covers(g, slices, size, x),
    ensures
        forall|k: int|
            0 <= k < slices.len() - 1 ==> slice_start(slices, k + 1) == #[trigger] slice_start(
                slices,
                k,
            ) + size,
        forall|i: int, j: int, x: ChangesetId|
            0 <= i < j < slices.len() ==> !(#[trigger] slice_ids(slices, i).contains(x)
                && #[trigger] slice_ids(slices, j).contains(x)),
        forall|i: int| 0 <= i < slices.len() ==> (#[trigger] slice_ids(slices, i)).no_duplicates(),
        forall|x: ChangesetId| #[trigger]
            is_ancestor_of_any(g, x, heads) ==> band_covers(g, slices, size, x),
{
    assert forall|i: int, j: int, x: ChangesetId| 0 <= i < j < slices.len() implies !(
    #[trigger] slice_ids(slices, i).contains(x) && #[trigger] slice_ids(slices, j).contains(
        x,
    )) by {
        law_bands_disjoint(g, heads, needs_processing, size, slices, i, j, x);
    }
    assert forall|i: int| 0 <= i < slices.len() implies (#[trigger] slice_ids(
        slices,
        i,
    )).no_duplicates() by {
        assert(band_wf(g, heads, needs_processing, size, slices, i));
    }
}

/// Bands that follow each other at the distance of their size share no
/// changeset: none is given twice.
pub proof fn law_bands_disjoint<
    P: Fn(Vec<ChangesetId>) -> Result<Vec<ChangesetId>, CommitGraphError>,
>(
    g: Graph,
    heads: Seq<ChangesetId>,
    needs_processing: P,
    size: u64,
    slices: Seq<(u64, Vec<ChangesetId>)>,
    i: int,
    j: int,
    x: ChangesetId,
)
    requires
        size > 0,
        forall|k: int|
            0 <= k < slices.len() ==> #[trigger] band_wf(g, heads, needs_processing, size, slices, k),
        forall|k: int|
            0 <= k < slices.len() - 1 ==> slice_start(slices, k + 1) == #[trigger] slice_start(
                slices,
                k,
            ) + size,
        0 <= i < j < slices.len(),
    ensures
        !(slice_ids(slices, i).contains(x) && slice_ids(slices, j).contains(x)),
{
    lemma_starts_rise(slices, size, i, j);
    assert(band_wf(g, heads, needs_processing, size, slices, i));
    assert(band_wf(g, heads, needs_processing, size, slices, j));
}

proof fn lemma_starts_rise(slices: Seq<(u64, Vec<ChangesetId>)>, size: u64, i: int, j: int)
    requires
        forall|k: int|
            0 <= k < slices.len() - 1 ==> slice_start(slices, k + 1) == #[trigger] slice_start(
                slices,
                k,
            ) + size,
        0 <= i < j < slices.len(),
    ensures
        slice_start(slices, j) >= slice_start(slices, i) + size,
    decreases j - i,
{
    assert(slice_start(slices, j) == slice_start(slices, j - 1) + size);
    if i < j - 1 {
        lemma_starts_rise(slices, size, i, j - 1);
    }
}

} // verus!
