//! Cutting the ancestors of some heads into bands of generations, so that
//! they can be worked on band by band from the roots up.

use vstd::prelude::*;
use crate::frontier::{distinct_ids, ChangesetFrontier};
use crate::graph::{
    edges_wf, frontier_in_graph, generation_of, graph_wf, is_ancestor, is_ancestor_of_any,
    lemma_ancestor_generation, lemma_ancestor_transitive, lemma_reaches_nodes_of, lowered,
    nodes_of, reaches, Graph,
};
use crate::search::covered;
use crate::storage::CommitGraphStorage;
use crate::traversal::{fetch_failure, CommitGraph};
use crate::types::{ChangesetId, ChangesetNode, CommitGraphError, Generation};

verus! {

/// The generation at which band number `i` starts.
pub open spec fn slice_start(slices: Seq<(u64, Vec<ChangesetId>)>, i: int) -> u64 {
    slices[i].0
}

/// The changesets given for band number `i`.
pub open spec fn slice_ids(slices: Seq<(u64, Vec<ChangesetId>)>, i: int) -> Seq<ChangesetId> {
    slices[i].1@
}

/// The generation of `x` lies in the band of `size` generations that starts
/// at `start`.
pub open spec fn in_band(g: Graph, start: u64, size: u64, x: ChangesetId) -> bool {
    start <= generation_of(g, x) < start + size
}

/// Whatever it is asked about, the predicate says of each changeset that it
/// needs processing.
pub open spec fn keeps_all<P: Fn(Vec<ChangesetId>) -> Result<Vec<ChangesetId>, CommitGraphError>>(
    needs_processing: P,
) -> bool {
    forall|ids: Vec<ChangesetId>, r: Result<Vec<ChangesetId>, CommitGraphError>| #[trigger]
        call_ensures(needs_processing, (ids,), r) ==> (r matches Ok(kept) && forall|
            x: ChangesetId,
        |
            ids@.contains(x) ==> kept@.contains(x))
}

/// The predicate said of `x` that it needs processing.
pub open spec fn reported<P: Fn(Vec<ChangesetId>) -> Result<Vec<ChangesetId>, CommitGraphError>>(
    needs_processing: P,
    x: ChangesetId,
) -> bool {
    exists|ids: Vec<ChangesetId>, kept: Vec<ChangesetId>| #[trigger]
        call_ensures(needs_processing, (ids,), Ok::<Vec<ChangesetId>, CommitGraphError>(kept))
            && kept@.contains(x)
}

/// The predicate was asked about all of the heads and reported none of
/// them.
pub open spec fn reported_no_head<
    P: Fn(Vec<ChangesetId>) -> Result<Vec<ChangesetId>, CommitGraphError>,
>(needs_processing: P, heads: Seq<ChangesetId>) -> bool {
    exists|asked: Vec<ChangesetId>, kept: Vec<ChangesetId>| #[trigger]
        call_ensures(needs_processing, (asked,), Ok::<Vec<ChangesetId>, CommitGraphError>(kept))
            && forall|h: ChangesetId|
            heads.contains(h) ==> asked@.contains(h) && !kept@.contains(h)
}

/// Some band holds a descendant of `x`, or `x` itself, and is the band of
/// the generation of `x`.
pub open spec fn band_covers(
    g: Graph,
    slices: Seq<(u64, Vec<ChangesetId>)>,
    size: u64,
    x: ChangesetId,
) -> bool {
    exists|i: int|
        0 <= i < slices.len() && in_band(g, #[trigger] slice_start(slices, i), size, x) && covered(
            g,
            slice_ids(slices, i),
            x,
        )
}

/// What holds of each band: it starts one above a multiple of the size and
/// gives, each once, ancestors of the heads of its own generations that the
/// predicate reported.
pub open spec fn band_wf<P: Fn(Vec<ChangesetId>) -> Result<Vec<ChangesetId>, CommitGraphError>>(
    g: Graph,
    heads: Seq<ChangesetId>,
    needs_processing: P,
    size: u64,
    slices: Seq<(u64, Vec<ChangesetId>)>,
    i: int,
) -> bool {
    &&& slice_start(slices, i) >= 1
    &&& (slice_start(slices, i) - 1) % (size as int) == 0
    &&& slice_ids(slices, i).no_duplicates()
    &&& forall|x: ChangesetId| #[trigger]
        slice_ids(slices, i).contains(x) ==> is_ancestor_of_any(g, x, heads) && in_band(
            g,
            slice_start(slices, i),
            size,
            x,
        ) && reported(needs_processing, x)
}

/// The start of the band that holds generation `m`.
proof fn lemma_anchor(m: u64, k: u64)
    requires
        m >= 1,
        k >= 1,
    ensures
        ((m - 1) / (k as int)) * k + 1 <= m,
        m < ((m - 1) / (k as int)) * k + 1 + k,
        (((m - 1) / (k as int)) * k) % (k as int) == 0,
        0 <= ((m - 1) / (k as int)) * k,
        0 <= (m - 1) / (k as int) <= m - 1,
{
    let x = (m - 1) as int;
    let d = k as int;
    vstd::arithmetic::div_mod::lemma_fundamental_div_mod(x, d);
    vstd::arithmetic::div_mod::lemma_mod_bound(x, d);
    vstd::arithmetic::div_mod::lemma_mod_multiples_basic(x / d, d);
    vstd::arithmetic::div_mod::lemma_div_pos_is_pos(x, d);
    assert(d * (x / d) == (x / d) * d) by (nonlinear_arith);
    assert(x / d <= x) by (nonlinear_arith)
        requires
            x == d * (x / d) + (x % d),
            0 <= x % d,
            d >= 1,
            x / d >= 0,
    ;
}

/// A band that does not start at 1 has a whole band below it.
proof fn lemma_band_below(s: u64, k: u64)
    requires
        s > 1,
        k >= 1,
        (s - 1) % (k as int) == 0,
    ensures
        s - k >= 1,
        (s - k - 1) % (k as int) == 0,
{
    let x = (s - 1) as int;
    let d = k as int;
    vstd::arithmetic::div_mod::lemma_fundamental_div_mod(x, d);
    assert(x / d >= 1) by (nonlinear_arith)
        requires
            x == d * (x / d),
            x >= 1,
            d >= 1,
    ;
    assert(x >= d) by (nonlinear_arith)
        requires
            x == d * (x / d),
            x / d >= 1,
            d >= 1,
    ;
    vstd::arithmetic::div_mod::lemma_mod_sub_multiples_vanish(x, d);
}

/// Whether the identifier is in the list.
fn id_in(ids: &Vec<ChangesetId>, id: &ChangesetId) -> (r: bool)
    ensures
        r == ids@.contains(*id),
{
    let mut i: usize = 0;
    while i < ids.len()
        invariant
            i <= ids.len(),
            forall|j: int| 0 <= j < i ==> ids@[j] != *id,
        decreases ids.len() - i,
    {
        if ids[i].same_as(id) {
            return true;
        }
        i += 1;
    }
    false
}

/// The part of the frontier whose changesets are among `needed`.
fn retain_needed(frontier: ChangesetFrontier, needed: &Vec<ChangesetId>) -> (r: ChangesetFrontier)
    requires
        frontier.wf(),
    ensures
        r.wf(),
        forall|n: ChangesetNode|
            #![trigger r@.contains(n)]
            r@.contains(n) <==> frontier@.contains(n) && needed@.contains(n.cs_id),
{
    let flat = frontier.into_flat();
    let mut kept: Vec<(ChangesetId, Generation)> = Vec::new();
    let mut i: usize = 0;
    while i < flat.len()
        invariant
            i <= flat.len(),
            forall|p: (ChangesetId, Generation)|
                kept@.contains(p) <==> needed@.contains(p.0) && exists|j: int|
                    0 <= j < i && #[trigger] flat@[j] == p,
        decreases flat.len() - i,
    {
        let ghost prev = kept@;
        let pair = flat[i];
        if id_in(needed, &pair.0) {
            kept.push(pair);
            proof {
                assert(kept@[prev.len() as int] == pair);
                assert forall|p: (ChangesetId, Generation)|
                    kept@.contains(p) <==> needed@.contains(p.0) && exists|j: int|
                        0 <= j < i + 1 && #[trigger] flat@[j] == p by {
                    if kept@.contains(p) {
                        let a = choose|a: int| 0 <= a < kept@.len() && kept@[a] == p;
                        if a < prev.len() {
                            assert(prev.contains(p));
                            let j = choose|j: int| 0 <= j < i && #[trigger] flat@[j] == p;
                            assert(flat@[j] == p);
                        } else {
                            assert(flat@[i as int] == p);
                        }
                    }
                    if needed@.contains(p.0) && exists|j: int|
                        0 <= j < i + 1 && #[trigger] flat@[j] == p {
                        let j = choose|j: int| 0 <= j < i + 1 && #[trigger] flat@[j] == p;
                        if j < i {
                            assert(prev.contains(p));
                            let a = choose|a: int| 0 <= a < prev.len() && prev[a] == p;
                            assert(kept@[a] == p);
                        }
                    }
                }
            }
        } else {
            proof {
                assert forall|p: (ChangesetId, Generation)|
                    kept@.contains(p) <==> needed@.contains(p.0) && exists|j: int|
                        0 <= j < i + 1 && #[trigger] flat@[j] == p by {
                    if needed@.contains(p.0) && exists|j: int|
                        0 <= j < i + 1 && #[trigger] flat@[j] == p {
                        let j = choose|j: int| 0 <= j < i + 1 && #[trigger] flat@[j] == p;
                        assert(j < i);
                    }
                    if kept@.contains(p) {
                        let j = choose|j: int| 0 <= j < i && #[trigger] flat@[j] == p;
                        assert(flat@[j] == p);
                    }
                }
            }
        }
        i += 1;
    }
    let r = ChangesetFrontier::from_flat(&kept);
    proof {
        assert forall|n: ChangesetNode|
            #![trigger r@.contains(n)]
            r@.contains(n) <==> frontier@.contains(n) && needed@.contains(n.cs_id) by {
            let p = (n.cs_id, n.generation);
            assert(n == ChangesetNode { cs_id: n.cs_id, generation: n.generation });
            if kept@.contains(p) {
                let j = choose|j: int| 0 <= j < i && #[trigger] flat@[j] == p;
                assert(flat@.contains(p));
            }
            if frontier@.contains(n) && needed@.contains(n.cs_id) {
                assert(flat@.contains(p));
                let j = choose|j: int| 0 <= j < flat@.len() && flat@[j] == p;
                assert(flat@[j] == p);
            }
        }
    }
    r
}

/// The bands in the opposite order.
fn reverse_slices(slices: Vec<(u64, Vec<ChangesetId>)>) -> (out: Vec<(u64, Vec<ChangesetId>)>)
    ensures
        out@.len() == slices@.len(),
        forall|i: int|
            0 <= i < out@.len() ==> slice_start(out@, i) == slice_start(
                slices@,
                slices@.len() - 1 - i,
            ) && slice_ids(out@, i) == slice_ids(slices@, slices@.len() - 1 - i),
{
    let mut rest = slices;
    let mut out: Vec<(u64, Vec<ChangesetId>)> = Vec::new();
    let ghost all = rest@;
    let ghost n = all.len() as int;
    while rest.len() > 0
        invariant
            n == all.len(),
            rest@.len() + out@.len() == n,
            rest@ == all.subrange(0, rest@.len() as int),
            forall|i: int|
                0 <= i < out@.len() ==> slice_start(out@, i) == slice_start(all, n - 1 - i)
                    && slice_ids(out@, i) == slice_ids(all, n - 1 - i),
        decreases rest.len(),
    {
        let ghost prev = out@;
        let ghost m = rest@.len() as int;
        let last = rest.pop().unwrap();
        assert(last == all[m - 1]);
        out.push(last);
        proof {
            assert(rest@ =~= all.subrange(0, m - 1));
            assert forall|i: int| 0 <= i < out@.len() implies slice_start(out@, i) == slice_start(
                all,
                n - 1 - i,
            ) && slice_ids(out@, i) == slice_ids(all, n - 1 - i) by {
                if i < prev.len() {
                    assert(out@[i] == prev[i]);
                    assert(slice_start(prev, i) == slice_start(all, n - 1 - i));
                    assert(slice_ids(prev, i) == slice_ids(all, n - 1 - i));
                } else {
                    assert(out@[i] == last);
                }
            }
        }
    }
    out
}

/// What the slicing keeps true while it goes down band by band: `slices`
/// holds the bands given so far from the highest down, `start` is where the
/// next band starts, and `f` is the frontier that the next band is taken
/// from.
pub open spec fn slicing_state<
    P: Fn(Vec<ChangesetId>) -> Result<Vec<ChangesetId>, CommitGraphError>,
>(
    g: Graph,
    heads: Seq<ChangesetId>,
    needs_processing: P,
    size: u64,
    slices: Seq<(u64, Vec<ChangesetId>)>,
    start: u64,
    f: Set<ChangesetNode>,
) -> bool {
    &&& start >= 1
    &&& (start - 1) % (size as int) == 0
    &&& forall|i: int|
        0 <= i < slices.len() ==> #[trigger] band_wf(g, heads, needs_processing, size, slices, i)
    &&& forall|i: int|
        0 <= i < slices.len() - 1 ==> #[trigger] slice_start(slices, i) == slice_start(
            slices,
            i + 1,
        ) + size
    &&& slices.len() > 0 ==> slice_start(slices, slices.len() - 1) == start + size
    &&& frontier_in_graph(g, f)
    &&& forall|n: ChangesetNode| #[trigger]
        f.contains(n) ==> n.generation.value < start + size && is_ancestor_of_any(
            g,
            n.cs_id,
            heads,
        )
    &&& keeps_all(needs_processing) ==> forall|x: ChangesetId| #[trigger]
        is_ancestor_of_any(g, x, heads) ==> band_covers(g, slices, size, x) || (generation_of(g, x)
            < start + size && reaches(g, f, x))
}

proof fn lemma_slicing_begin<
    P: Fn(Vec<ChangesetId>) -> Result<Vec<ChangesetId>, CommitGraphError>,
>(g: Graph, heads: Seq<ChangesetId>, needs_processing: P, size: u64, start: u64, top: u64)
    requires
        graph_wf(g),
        start >= 1,
        (start - 1) % (size as int) == 0,
        top < start + size,
        forall|i: int| 0 <= i < heads.len() ==> g.contains_key(#[trigger] heads[i]),
        forall|n: ChangesetNode| #[trigger]
            nodes_of(g, heads).contains(n) ==> n.generation.value <= top,
    ensures
        slicing_state(
            g,
            heads,
            needs_processing,
            size,
            Seq::<(u64, Vec<ChangesetId>)>::empty(),
            start,
            nodes_of(g, heads),
        ),
{
    let f = nodes_of(g, heads);
    assert forall|n: ChangesetNode| #[trigger] f.contains(n) implies is_ancestor_of_any(
        g,
        n.cs_id,
        heads,
    ) by {
        let i = choose|i: int| 0 <= i < heads.len() && heads[i] == n.cs_id;
        assert(is_ancestor(g, n.cs_id, heads[i]));
    }
    assert forall|x: ChangesetId| #[trigger] is_ancestor_of_any(g, x, heads) implies generation_of(
        g,
        x,
    ) < start + size && reaches(g, f, x) by {
        lemma_reaches_nodes_of(g, heads, x);
        let n = choose|n: ChangesetNode| #[trigger] f.contains(n) && is_ancestor(g, x, n.cs_id);
        lemma_ancestor_generation(g, x, n.cs_id);
    }
}

/// Dropping from the frontier what the predicate did not report keeps the
/// state, and leaves reported changesets only.
proof fn lemma_slicing_filter<
    P: Fn(Vec<ChangesetId>) -> Result<Vec<ChangesetId>, CommitGraphError>,
>(
    g: Graph,
    heads: Seq<ChangesetId>,
    needs_processing: P,
    size: u64,
    slices: Seq<(u64, Vec<ChangesetId>)>,
    start: u64,
    f: Set<ChangesetNode>,
    f2: Set<ChangesetNode>,
    asked: Vec<ChangesetId>,
    needed: Vec<ChangesetId>,
)
    requires
        slicing_state(g, heads, needs_processing, size, slices, start, f),
        call_ensures(
            needs_processing,
            (asked,),
            Ok::<Vec<ChangesetId>, CommitGraphError>(needed),
        ),
        forall|id: ChangesetId|
            asked@.contains(id) <==> exists|n: ChangesetNode| #[trigger]
                f.contains(n) && n.cs_id == id,
        forall|n: ChangesetNode|
            #![trigger f2.contains(n)]
            f2.contains(n) <==> f.contains(n) && needed@.contains(n.cs_id),
    ensures
        slicing_state(g, heads, needs_processing, size, slices, start, f2),
        forall|n: ChangesetNode| #[trigger]
            f2.contains(n) ==> reported(needs_processing, n.cs_id),
{
    if keeps_all(needs_processing) {
        assert forall|n: ChangesetNode| f.contains(n) implies f2.contains(n) by {
            assert(asked@.contains(n.cs_id));
        }
        assert forall|x: ChangesetId| #[trigger] reaches(g, f, x) implies reaches(g, f2, x) by {
            let n = choose|n: ChangesetNode| #[trigger] f.contains(n) && is_ancestor(g, x, n.cs_id);
            assert(f2.contains(n));
        }
    }
}

/// With nothing left in the frontier, every ancestor of the heads is in a
/// band.
proof fn lemma_slicing_done<
    P: Fn(Vec<ChangesetId>) -> Result<Vec<ChangesetId>, CommitGraphError>,
>(
    g: Graph,
    heads: Seq<ChangesetId>,
    needs_processing: P,
    size: u64,
    slices: Seq<(u64, Vec<ChangesetId>)>,
    start: u64,
    f: Set<ChangesetNode>,
)
    requires
        slicing_state(g, heads, needs_processing, size, slices, start, f),
        f == Set::<ChangesetNode>::empty(),
    ensures
        keeps_all(needs_processing) ==> forall|x: ChangesetId| #[trigger]
            is_ancestor_of_any(g, x, heads) ==> band_covers(g, slices, size, x),
{
    if keeps_all(needs_processing) {
        assert forall|x: ChangesetId| #[trigger]
            is_ancestor_of_any(g, x, heads) implies band_covers(g, slices, size, x) by {
            if reaches(g, f, x) {
                let n = choose|n: ChangesetNode| #[trigger]
                    f.contains(n) && is_ancestor(g, x, n.cs_id);
            }
        }
    }
}

/// Giving the band that starts at `start` leaves, for the bands below, the
/// ancestors under `start` that the frontier leads to.
proof fn lemma_slicing_push<
    P: Fn(Vec<ChangesetId>) -> Result<Vec<ChangesetId>, CommitGraphError>,
>(
    g: Graph,
    heads: Seq<ChangesetId>,
    needs_processing: P,
    size: u64,
    slices: Seq<(u64, Vec<ChangesetId>)>,
    slices2: Seq<(u64, Vec<ChangesetId>)>,
    start: u64,
    f: Set<ChangesetNode>,
)
    requires
        graph_wf(g),
        size >= 1,
        slicing_state(g, heads, needs_processing, size, slices, start, f),
        forall|n: ChangesetNode| #[trigger] f.contains(n) ==> reported(needs_processing, n.cs_id),
        slices2.len() == slices.len() + 1,
        forall|i: int|
            0 <= i < slices.len() ==> slice_start(slices2, i) == slice_start(slices, i)
                && slice_ids(slices2, i) == slice_ids(slices, i),
        slice_start(slices2, slices.len() as int) == start,
        slice_ids(slices2, slices.len() as int).no_duplicates(),
        forall|id: ChangesetId|
            slice_ids(slices2, slices.len() as int).contains(id) <==> exists|n: ChangesetNode| #[trigger]
                f.contains(n) && n.cs_id == id && start <= n.generation.value,
    ensures
        forall|i: int|
            0 <= i < slices2.len() ==> #[trigger] band_wf(
                g,
                heads,
                needs_processing,
                size,
                slices2,
                i,
            ),
        forall|i: int|
            0 <= i < slices2.len() - 1 ==> #[trigger] slice_start(slices2, i) == slice_start(
                slices2,
                i + 1,
            ) + size,
        keeps_all(needs_processing) ==> forall|x: ChangesetId| #[trigger]
            is_ancestor_of_any(g, x, heads) ==> band_covers(g, slices2, size, x) || (generation_of(
                g,
                x,
            ) < start && reaches(g, f, x)),
{
    let last = slices.len() as int;
    let ids = slice_ids(slices2, last);
    assert forall|i: int| 0 <= i < slices2.len() implies #[trigger] band_wf(
        g,
        heads,
        needs_processing,
        size,
        slices2,
        i,
    ) by {
        if i < last {
            assert(band_wf(g, heads, needs_processing, size, slices, i));
        } else {
            assert forall|x: ChangesetId| #[trigger] ids.contains(x) implies is_ancestor_of_any(
                g,
                x,
                heads,
            ) && in_band(g, start, size, x) && reported(needs_processing, x) by {
                let n = choose|n: ChangesetNode| #[trigger]
                    f.contains(n) && n.cs_id == x && start <= n.generation.value;
                assert(g[n.cs_id].node == n);
            }
        }
    }
    assert forall|i: int| 0 <= i < slices2.len() - 1 implies #[trigger] slice_start(slices2, i)
        == slice_start(slices2, i + 1) + size by {
        if i < last - 1 {
            assert(slice_start(slices, i) == slice_start(slices, i + 1) + size);
        }
    }
    if keeps_all(needs_processing) {
        assert forall|x: ChangesetId| #[trigger]
            is_ancestor_of_any(g, x, heads) implies band_covers(g, slices2, size, x) || (
        generation_of(g, x) < start && reaches(g, f, x)) by {
            if band_covers(g, slices, size, x) {
                let i = choose|i: int|
                    0 <= i < slices.len() && in_band(g, #[trigger] slice_start(slices, i), size, x)
                        && covered(g, slice_ids(slices, i), x);
                assert(slice_start(slices2, i) == slice_start(slices, i));
                assert(band_covers(g, slices2, size, x));
            } else if generation_of(g, x) >= start {
                let n = choose|n: ChangesetNode| #[trigger]
                    f.contains(n) && is_ancestor(g, x, n.cs_id);
                lemma_ancestor_generation(g, x, n.cs_id);
                assert(g[n.cs_id].node == n);
                assert(ids.contains(n.cs_id));
                assert(covered(g, ids, x));
                assert(in_band(g, slice_start(slices2, last), size, x));
                assert(band_covers(g, slices2, size, x));
            }
        }
    }
}

/// Lowering the frontier to just under the band given last makes the state
/// for the band below.
proof fn lemma_slicing_lower<
    P: Fn(Vec<ChangesetId>) -> Result<Vec<ChangesetId>, CommitGraphError>,
>(
    g: Graph,
    heads: Seq<ChangesetId>,
    needs_processing: P,
    size: u64,
    slices2: Seq<(u64, Vec<ChangesetId>)>,
    start: u64,
    f: Set<ChangesetNode>,
    f2: Set<ChangesetNode>,
)
    requires
        size >= 1,
        start > 1,
        (start - 1) % (size as int) == 0,
        slices2.len() > 0,
        slice_start(slices2, slices2.len() - 1) == start,
        forall|i: int|
            0 <= i < slices2.len() ==> #[trigger] band_wf(
                g,
                heads,
                needs_processing,
                size,
                slices2,
                i,
            ),
        forall|i: int|
            0 <= i < slices2.len() - 1 ==> #[trigger] slice_start(slices2, i) == slice_start(
                slices2,
                i + 1,
            ) + size,
        keeps_all(needs_processing) ==> forall|x: ChangesetId| #[trigger]
            is_ancestor_of_any(g, x, heads) ==> band_covers(g, slices2, size, x) || (generation_of(
                g,
                x,
            ) < start && reaches(g, f, x)),
        forall|n: ChangesetNode| #[trigger] f.contains(n) ==> is_ancestor_of_any(g, n.cs_id, heads),
        frontier_in_graph(g, f2),
        lowered(g, f, f2, (start - 1) as nat),
    ensures
        start - size >= 1,
        slicing_state(g, heads, needs_processing, size, slices2, (start - size) as u64, f2),
{
    lemma_band_below(start, size);
    assert forall|n: ChangesetNode| #[trigger] f2.contains(n) implies is_ancestor_of_any(
        g,
        n.cs_id,
        heads,
    ) by {
        let m = choose|m: ChangesetNode| #[trigger]
            f.contains(m) && is_ancestor(g, n.cs_id, m.cs_id);
        let h = choose|h: int| 0 <= h < heads.len() && is_ancestor(g, m.cs_id, #[trigger] heads[h]);
        lemma_ancestor_transitive(g, n.cs_id, m.cs_id, heads[h]);
    }
}

/// Once the band that starts at 1 is given, every ancestor of the heads is
/// in a band.
proof fn lemma_slicing_bottom<
    P: Fn(Vec<ChangesetId>) -> Result<Vec<ChangesetId>, CommitGraphError>,
>(
    g: Graph,
    heads: Seq<ChangesetId>,
    needs_processing: P,
    size: u64,
    slices2: Seq<(u64, Vec<ChangesetId>)>,
    f: Set<ChangesetNode>,
)
    requires
        graph_wf(g),
        keeps_all(needs_processing) ==> forall|x: ChangesetId| #[trigger]
            is_ancestor_of_any(g, x, heads) ==> band_covers(g, slices2, size, x) || (generation_of(
                g,
                x,
            ) < 1 && reaches(g, f, x)),
    ensures
        keeps_all(needs_processing) ==> forall|x: ChangesetId| #[trigger]
            is_ancestor_of_any(g, x, heads) ==> band_covers(g, slices2, size, x),
{
    if keeps_all(needs_processing) {
        assert forall|x: ChangesetId| #[trigger]
            is_ancestor_of_any(g, x, heads) implies band_covers(g, slices2, size, x) by {
            let h = choose|h: int| 0 <= h < heads.len() && is_ancestor(g, x, #[trigger] heads[h]);
            assert(edges_wf(g, x));
        }
    }
}

/// The bands from the lowest up say of the heads what the bands from the
/// highest down say.
proof fn lemma_slicing_turn<
    P: Fn(Vec<ChangesetId>) -> Result<Vec<ChangesetId>, CommitGraphError>,
>(
    g: Graph,
    heads: Seq<ChangesetId>,
    needs_processing: P,
    size: u64,
    down: Seq<(u64, Vec<ChangesetId>)>,
    up: Seq<(u64, Vec<ChangesetId>)>,
)
    requires
        up.len() == down.len(),
        forall|i: int|
            0 <= i < up.len() ==> slice_start(up, i) == slice_start(down, down.len() - 1 - i)
                && slice_ids(up, i) == slice_ids(down, down.len() - 1 - i),
        forall|i: int|
            0 <= i < down.len() ==> #[trigger] band_wf(g, heads, needs_processing, size, down, i),
        forall|i: int|
            0 <= i < down.len() - 1 ==> #[trigger] slice_start(down, i) == slice_start(down, i + 1)
                + size,
    ensures
        forall|i: int|
            0 <= i < up.len() ==> #[trigger] band_wf(g, heads, needs_processing, size, up, i),
        forall|i: int|
            0 <= i < up.len() - 1 ==> slice_start(up, i + 1) == #[trigger] slice_start(up, i)
                + size,
        forall|x: ChangesetId|
            band_covers(g, down, size, x) ==> #[trigger] band_covers(g, up, size, x),
{
    let n = down.len() as int;
    assert forall|i: int| 0 <= i < up.len() implies #[trigger] band_wf(
        g,
        heads,
        needs_processing,
        size,
        up,
        i,
    ) by {
        assert(band_wf(g, heads, needs_processing, size, down, n - 1 - i));
    }
    assert forall|i: int| 0 <= i < up.len() - 1 implies slice_start(up, i + 1)
        == #[trigger] slice_start(up, i) + size by {
        assert(slice_start(down, n - 2 - i) == slice_start(down, n - 2 - i + 1) + size);
    }
    assert forall|x: ChangesetId| band_covers(g, down, size, x) implies #[trigger] band_covers(
        g,
        up,
        size,
        x,
    ) by {
        let i = choose|i: int|
            0 <= i < down.len() && in_band(g, #[trigger] slice_start(down, i), size, x) && covered(
                g,
                slice_ids(down, i),
                x,
            );
        assert(slice_start(up, n - 1 - i) == slice_start(down, i));
        assert(slice_ids(up, n - 1 - i) == slice_ids(down, i));
    }
}

impl<S: CommitGraphStorage> CommitGraph<S> {
    /// Cuts the ancestors of `heads` into bands of `slice_size` generations,
    /// the first of which starts at generation 1, and gives for each band,
    /// from the lowest up, the changesets of the band that the traversal
    /// arrives at from above. Of each of them every ancestor in the band is
    /// yet to be processed with it. Before each band `needs_processing` is
    /// asked which of the changesets arrived at need processing: the others
    /// are dropped with all their ancestors, and the slicing stops where none
    /// is left.
    pub fn slice_ancestors<
        P: Fn(Vec<ChangesetId>) -> Result<Vec<ChangesetId>, CommitGraphError>,
    >(&self, heads: Vec<ChangesetId>, needs_processing: P, slice_size: u64) -> (r: Result<
        Vec<(u64, Vec<ChangesetId>)>,
        CommitGraphError,
    >)
        requires
            self.wf(),
            slice_size > 0,
            forall|ids: Vec<ChangesetId>| #[trigger] call_requires(needs_processing, (ids,)),
        ensures
            r matches Ok(slices) ==> {
                &&& forall|i: int|
                    0 <= i < slices@.len() ==> #[trigger] band_wf(
                        self@,
                        heads@,
                        needs_processing,
                        slice_size,
                        slices@,
                        i,
                    )
                &&& forall|i: int|
                    0 <= i < slices@.len() - 1 ==> slice_start(slices@, i + 1)
                        == #[trigger] slice_start(slices@, i) + slice_size
                &&& slices@.len() > 0 ==> forall|k: int|
                    0 <= k < heads@.len() ==> generation_of(self@, #[trigger] heads@[k])
                        < slice_start(slices@, slices@.len() - 1) + slice_size
                &&& slices@.len() > 0 ==> exists|k: int|
                    0 <= k < heads@.len() && generation_of(self@, #[trigger] heads@[k])
                        >= slice_start(slices@, slices@.len() - 1)
                &&& slices@.len() == 0 ==> heads@.len() == 0 || reported_no_head(
                    needs_processing,
                    heads@,
                )
                &&& keeps_all(needs_processing) ==> forall|x: ChangesetId| #[trigger]
                    is_ancestor_of_any(self@, x, heads@) ==> band_covers(
                        self@,
                        slices@,
                        slice_size,
                        x,
                    )
            },
            r matches Err(e) ==> {
                ||| fetch_failure(e, self.reliable())
                ||| e matches CommitGraphError::NotFound(id) && heads@.contains(id)
                    && !self@.contains_key(id)
                ||| exists|ids: Vec<ChangesetId>| #[trigger]
                    call_ensures(
                        needs_processing,
                        (ids,),
                        Err::<Vec<ChangesetId>, CommitGraphError>(e),
                    )
            },
    {
        let ghost g = self@;
        let mut frontier = match self.frontier(&heads) {
            Ok(frontier) => frontier,
            Err(e) => {
                proof {
                    if !fetch_failure(e, self.reliable()) {
                        let i = choose|i: int|
                            0 <= i < heads@.len() && e == CommitGraphError::NotFound(
                                #[trigger] heads@[i],
                            ) && !self@.contains_key(heads@[i]);
                        assert(heads@.contains(heads@[i]));
                    }
                }
                return Err(e);
            },
        };
        let max_gen = match frontier.last_generation() {
            Some(generation) => generation,
            None => {
                let none: Vec<(u64, Vec<ChangesetId>)> = Vec::new();
                proof {
                    assert forall|x: ChangesetId| !is_ancestor_of_any(g, x, heads@) by {
                        lemma_reaches_nodes_of(g, heads@, x);
                        if reaches(g, frontier@, x) {
                            let n = choose|n: ChangesetNode| #[trigger]
                                frontier@.contains(n) && is_ancestor(g, x, n.cs_id);
                        }
                    }
                    if heads@.len() > 0 {
                        assert(heads@.contains(heads@[0]));
                        assert(edges_wf(g, heads@[0]));
                        assert(frontier@.contains(g[heads@[0]].node));
                    }
                }
                return Ok(none);
            },
        };
        proof {
            let top = choose|n: ChangesetNode| #[trigger]
                frontier@.contains(n) && n.generation == max_gen;
            assert(edges_wf(g, top.cs_id));
            lemma_anchor(max_gen.value, slice_size);
        }
        let anchor: u64 = ((max_gen.value - 1) / slice_size) * slice_size + 1;
        let mut start: u64 = anchor;
        let mut slices: Vec<(u64, Vec<ChangesetId>)> = Vec::new();
        proof {
            lemma_slicing_begin(g, heads@, needs_processing, slice_size, start, max_gen.value);
            assert forall|k: int| 0 <= k < heads@.len() implies generation_of(
                g,
                #[trigger] heads@[k],
            ) <= max_gen.value by {
                assert(heads@.contains(heads@[k]));
                assert(edges_wf(g, heads@[k]));
                assert(frontier@.contains(g[heads@[k]].node));
            }
            let top = choose|n: ChangesetNode| #[trigger]
                frontier@.contains(n) && n.generation == max_gen;
            let k = choose|k: int| 0 <= k < heads@.len() && heads@[k] == top.cs_id;
            assert(generation_of(g, heads@[k]) == max_gen.value);
        }
        loop
            invariant
                self.wf(),
                g == self@,
                slice_size > 0,
                forall|ids: Vec<ChangesetId>| #[trigger] call_requires(needs_processing, (ids,)),
                frontier.wf(),
                slicing_state(g, heads@, needs_processing, slice_size, slices@, start, frontier@),
                slices@.len() == 0 ==> start == anchor && frontier@ == nodes_of(g, heads@),
                slices@.len() > 0 ==> slice_start(slices@, 0) == anchor,
                forall|k: int| 0 <= k < heads@.len() ==> g.contains_key(#[trigger] heads@[k]),
                anchor <= max_gen.value < anchor + slice_size,
                forall|k: int|
                    0 <= k < heads@.len() ==> generation_of(g, #[trigger] heads@[k])
                        <= max_gen.value,
                exists|k: int|
                    0 <= k < heads@.len() && generation_of(g, #[trigger] heads@[k])
                        == max_gen.value,
            decreases start,
        {
            let asked = frontier.changesets();
            let ghost asked_copy = asked;
            let ghost before = frontier@;
            let needed = match needs_processing(asked) {
                Ok(needed) => needed,
                Err(e) => {
                    return Err(e);
                },
            };
            frontier = retain_needed(frontier, &needed);
            proof {
                lemma_slicing_filter(
                    g,
                    heads@,
                    needs_processing,
                    slice_size,
                    slices@,
                    start,
                    before,
                    frontier@,
                    asked_copy,
                    needed,
                );
            }
            if frontier.is_empty() {
                proof {
                    if slices@.len() == 0 {
                        assert forall|h: ChangesetId| heads@.contains(h) implies asked_copy@.contains(
                            h,
                        ) && !needed@.contains(h) by {
                            let k = choose|k: int| 0 <= k < heads@.len() && heads@[k] == h;
                            assert(g.contains_key(heads@[k]));
                            assert(edges_wf(g, h));
                            let n = g[h].node;
                            assert(before.contains(n));
                            if needed@.contains(h) {
                                assert(frontier@.contains(n));
                            }
                        }
                        assert(reported_no_head(needs_processing, heads@));
                    }
                    lemma_slicing_done(
                        g,
                        heads@,
                        needs_processing,
                        slice_size,
                        slices@,
                        start,
                        frontier@,
                    );
                }
                let ghost down = slices@;
                let out = reverse_slices(slices);
                proof {
                    lemma_slicing_turn(g, heads@, needs_processing, slice_size, down, out@);
                }
                return Ok(out);
            }
            proof {
                assert(distinct_ids(frontier@));
            }
            let ids = match start.checked_add(slice_size) {
                Some(end) => frontier.changesets_in_range(
                    Generation::new(start),
                    Generation::new(end),
                ),
                None => frontier.changesets_from(Generation::new(start)),
            };
            let ghost down = slices@;
            slices.push((start, ids));
            proof {
                assert forall|i: int| 0 <= i < down.len() implies slice_start(slices@, i)
                    == slice_start(down, i) && slice_ids(slices@, i) == slice_ids(down, i) by {
                    assert(slices@[i] == down[i]);
                }
                lemma_slicing_push(
                    g,
                    heads@,
                    needs_processing,
                    slice_size,
                    down,
                    slices@,
                    start,
                    frontier@,
                );
            }
            if start > 1 {
                let ghost kept = frontier@;
                match self.lower_frontier(&mut frontier, Generation::new(start - 1)) {
                    Ok(()) => {},
                    Err(e) => {
                        return Err(e);
                    },
                }
                proof {
                    lemma_slicing_lower(
                        g,
                        heads@,
                        needs_processing,
                        slice_size,
                        slices@,
                        start,
                        kept,
                        frontier@,
                    );
                }
                start = start - slice_size;
            } else {
                proof {
                    lemma_slicing_bottom(
                        g,
                        heads@,
                        needs_processing,
                        slice_size,
                        slices@,
                        frontier@,
                    );
                }
                let ghost down2 = slices@;
                let out = reverse_slices(slices);
                proof {
                    lemma_slicing_turn(g, heads@, needs_processing, slice_size, down2, out@);
                }
                return Ok(out);
            }
        }
    }
}

} // verus!
