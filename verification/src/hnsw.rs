//! The proximity graph (HNSW): layered search and construction.
//!
//! The graph has one adjacency structure per layer over the nodes
//! `0..N`. A search starts at the entry point, descends greedily through
//! the upper layers and explores the bottom layer with a bounded list of
//! the closest nodes seen. Distances are supplied by the caller as
//! single-precision bit patterns and only ever compared; a lower distance
//! is closer, and equal distances are told apart by the lower node number.

use vstd::prelude::*;
use std::collections::HashSet;
use crate::distance::{score_key, score_rank, Distance};
use crate::error::Error;

verus! {

broadcast use vstd::std_specs::hash::group_hash_axioms;

/// Largest layer a node can be assigned to.
pub const MAX_LEVEL: usize = 16;

/// Parameters of the graph.
#[derive(Debug, Clone, Copy, PartialEq, Eq, Structural)]
pub struct HnswParams {
    /// Largest number of neighbors a node has in one layer.
    pub m: usize,
    /// Size of the candidate list while building.
    pub ef_construction: usize,
    /// Default size of the candidate list while searching.
    pub ef_search: usize,
}

impl Default for HnswParams {
    fn default() -> (p: HnswParams)
        ensures
            p.m == 16,
            p.ef_construction == 64,
            p.ef_search == 32,
    {
        HnswParams { m: 16, ef_construction: 64, ef_search: 32 }
    }
}

impl HnswParams {
    /// Parameters for `m` neighbors per node: four times `m` candidates
    /// while building, twice `m` while searching.
    pub fn with_m(m: usize) -> (p: HnswParams)
        requires
            4 * m <= usize::MAX,
        ensures
            p.m == m,
            p.ef_construction == 4 * m,
            p.ef_search == 2 * m,
    {
        HnswParams { m, ef_construction: m * 4, ef_search: m * 2 }
    }

    /// The same parameters with another candidate list size for building.
    pub fn with_ef_construction(self, ef: usize) -> (p: HnswParams)
        ensures
            p.m == self.m,
            p.ef_construction == ef,
            p.ef_search == self.ef_search,
    {
        HnswParams { m: self.m, ef_construction: ef, ef_search: self.ef_search }
    }

    /// The same parameters with another candidate list size for searching.
    pub fn with_ef_search(self, ef: usize) -> (p: HnswParams)
        ensures
            p.m == self.m,
            p.ef_construction == self.ef_construction,
            p.ef_search == ef,
    {
        HnswParams { m: self.m, ef_construction: self.ef_construction, ef_search: ef }
    }
}

/// A node with its distance from the query.
#[derive(Debug, Clone, Copy, PartialEq, Eq, Structural)]
pub struct Candidate {
    /// Number of the node.
    pub node_id: u32,
    /// Distance from the query, as a single-precision bit pattern.
    pub distance: u32,
}

/// Whether `a` is strictly closer than `b`: its distance is lower, or the
/// same with the lower node number.
pub open spec fn closer(a: Candidate, b: Candidate) -> bool {
    score_rank(a.distance) < score_rank(b.distance) || (score_rank(a.distance) == score_rank(
        b.distance,
    ) && a.node_id < b.node_id)
}

/// The list runs from the closest to the farthest, strictly.
pub open spec fn ascending(s: Seq<Candidate>) -> bool {
    forall|i: int, j: int| 0 <= i < j < s.len() ==> closer(#[trigger] s[i], #[trigger] s[j])
}

/// No node occurs twice in the list.
pub open spec fn distinct_nodes(s: Seq<Candidate>) -> bool {
    forall|i: int, j: int|
        0 <= i < j < s.len() ==> (#[trigger] s[i]).node_id != (#[trigger] s[j]).node_id
}

/// Whether `a` is strictly closer than `b`.
pub fn is_closer(a: Candidate, b: Candidate) -> (r: bool)
    ensures
        r == closer(a, b),
{
    let x = score_key(a.distance);
    let y = score_key(b.distance);
    x < y || (x == y && a.node_id < b.node_id)
}

/// One layer of the graph: which nodes a node is linked to.
pub trait Layer {
    /// Number of nodes; node numbers are below it.
    spec fn node_count(&self) -> nat;

    /// The nodes that `node` is linked to, in order.
    spec fn neighbors(&self, node: u32) -> Seq<u32>;

    /// Every link leads to a node of the layer.
    spec fn layer_wf(&self) -> bool;

    /// Number of links of `node`.
    fn degree(&self, node: u32) -> (r: usize)
        requires
            self.layer_wf(),
            node < self.node_count(),
        ensures
            r == self.neighbors(node).len(),
    ;

    /// The `i`-th link of `node`.
    fn neighbor(&self, node: u32, i: usize) -> (r: u32)
        requires
            self.layer_wf(),
            node < self.node_count(),
            i < self.neighbors(node).len(),
        ensures
            r == self.neighbors(node)[i as int],
            r < self.node_count(),
    ;

    /// Number of nodes.
    fn size(&self) -> (r: usize)
        requires
            self.layer_wf(),
        ensures
            r == self.node_count(),
    ;
}

/// A source of distances from the query to the nodes.
pub trait Metric {
    /// Whether the distance of `node` may be asked for.
    spec fn covers(&self, node: u32) -> bool;

    /// Whether `d` is an answer for `node`.
    spec fn measures(&self, node: u32, d: Option<u32>) -> bool;

    /// The distance of `node` from the query; nothing if the node has no
    /// vector.
    fn distance_to(&self, node: u32) -> (d: Option<u32>)
        requires
            self.covers(node),
        ensures
            self.measures(node, d),
    ;
}

/// What a layer search found, from `entry`, with a list of at most `ef`
/// (at least one): the closest first, no node twice, each a node of the
/// layer with a distance that the metric gave for it, and the first at
/// least as close as the entry.
pub open spec fn found<M: Metric>(
    count: nat,
    metric: &M,
    entry: Candidate,
    ef: usize,
    cands: Seq<Candidate>,
) -> bool {
    &&& 1 <= cands.len()
    &&& cands.len() <= ef || cands.len() == 1
    &&& ascending(cands)
    &&& distinct_nodes(cands)
    &&& !closer(entry, cands[0])
    &&& forall|i: int|
        0 <= i < cands.len() ==> (#[trigger] cands[i]).node_id < count && metric.measures(
            cands[i].node_id,
            Some(cands[i].distance),
        )
}

/// Whether `node`, at distance `d`, is in the list with that distance, or
/// the list is full and the node is no nearer than the farthest kept.
pub open spec fn placed(ef: usize, cands: Seq<Candidate>, node: u32, d: u32) -> bool {
    cands.contains(Candidate { node_id: node, distance: d }) || (cands.len() >= ef && score_rank(d)
        >= score_rank(cands.last().distance))
}

/// Whether the search has dealt with `node`, for which the metric gave
/// `r`: a node with a distance is in the list with that distance, or the
/// list is full and the node is no nearer than the farthest kept.
pub open spec fn settled<M: Metric>(
    metric: &M,
    ef: usize,
    cands: Seq<Candidate>,
    node: u32,
    r: Option<u32>,
) -> bool {
    &&& metric.measures(node, r)
    &&& r matches Some(d) ==> placed(ef, cands, node, d)
}

/// Whether the search has dealt with `node` for some answer of the metric.
pub open spec fn accounted<M: Metric>(
    metric: &M,
    ef: usize,
    cands: Seq<Candidate>,
    node: u32,
) -> bool {
    exists|r: Option<u32>| #[trigger] settled(metric, ef, cands, node, r)
}

/// The link lists of a layer, by node.
pub open spec fn layer_lists<L: Layer>(layer: &L) -> Seq<Seq<u32>> {
    Seq::new(layer.node_count(), |n: int| layer.neighbors(n as u32))
}

/// Whether every node that `node` is linked to has been dealt with.
pub open spec fn links_accounted<M: Metric>(
    lists: Seq<Seq<u32>>,
    metric: &M,
    ef: usize,
    cands: Seq<Candidate>,
    node: u32,
) -> bool {
    forall|j: int|
        0 <= j < lists[node as int].len() ==> accounted(
            metric,
            ef,
            cands,
            #[trigger] lists[node as int][j],
        )
}

/// Whether node `i` of `work` was found through a link of one of the
/// first `taken` nodes before it.
pub open spec fn reached(lists: Seq<Seq<u32>>, work: Seq<Candidate>, taken: nat, i: int) -> bool {
    exists|j: int, p: int|
        0 <= j < taken && j < i && 0 <= p < lists[work[j].node_id as int].len()
            && #[trigger] lists[work[j].node_id as int][p] == work[i].node_id
}

/// How a layer search went that gave `cands`. `work` lists the nodes in
/// the order they were found, the entry first, each found through a link
/// of a node explored before it, each with a distance that the metric
/// gave for it; every node kept is among them. The first `taken` of them
/// were explored, the entry at least: every node they are linked to has
/// been dealt with. The search went on until every node found was
/// explored, or as many as the layer has nodes, or the list was full and
/// the next node found was farther than the farthest kept.
#[verifier::opaque]
pub open spec fn searched<M: Metric>(
    lists: Seq<Seq<u32>>,
    metric: &M,
    entry: Candidate,
    ef: usize,
    cands: Seq<Candidate>,
    work: Seq<Candidate>,
    taken: nat,
) -> bool {
    &&& 1 <= taken <= work.len()
    &&& work[0] == entry
    &&& forall|i: int|
        0 <= i < work.len() ==> (#[trigger] work[i]).node_id < lists.len() && metric.measures(
            work[i].node_id,
            Some(work[i].distance),
        )
    &&& forall|i: int| 0 <= i < cands.len() ==> work.contains(#[trigger] cands[i])
    &&& forall|i: int|
        0 <= i < taken ==> #[trigger] links_accounted(lists, metric, ef, cands, work[i].node_id)
    &&& forall|i: int| 1 <= i < work.len() ==> #[trigger] reached(lists, work, taken, i)
    &&& taken == work.len() || taken == lists.len() || (cands.len() >= ef && score_rank(
        work[taken as int].distance,
    ) > score_rank(cands.last().distance))
}

/// Whether every node that `node` is linked to in `layer` is in `seen`.
pub open spec fn links_seen<L: Layer>(layer: &L, node: u32, seen: Set<u32>) -> bool {
    forall|j: int|
        0 <= j < layer.neighbors(node).len() ==> seen.contains(#[trigger] layer.neighbors(node)[j])
}

/// Whether every node of `seen` has been dealt with, for the answer that
/// `dist` holds for it.
pub open spec fn all_settled<M: Metric>(
    metric: &M,
    ef: usize,
    cands: Seq<Candidate>,
    seen: Set<u32>,
    dist: Map<u32, Option<u32>>,
) -> bool {
    &&& forall|n: u32| #[trigger] seen.contains(n) ==> dist.contains_key(n)
    &&& forall|n: u32| seen.contains(n) ==> #[trigger] settled(metric, ef, cands, n, dist[n])
}

/// Putting a node into a list with room keeps every node dealt with.
proof fn lemma_settled_inserted<M: Metric>(
    metric: &M,
    ef: usize,
    before: Seq<Candidate>,
    seen: Set<u32>,
    dist: Map<u32, Option<u32>>,
    p: int,
    c: Candidate,
)
    requires
        all_settled(metric, ef, before, seen, dist),
        before.len() < ef,
        0 <= p <= before.len(),
        metric.measures(c.node_id, Some(c.distance)),
    ensures
        all_settled(
            metric,
            ef,
            before.insert(p, c),
            seen.insert(c.node_id),
            dist.insert(c.node_id, Some(c.distance)),
        ),
{
    let after = before.insert(p, c);
    let dist2 = dist.insert(c.node_id, Some(c.distance));
    assert forall|n: u32| seen.insert(c.node_id).contains(n) implies #[trigger] settled(
        metric,
        ef,
        after,
        n,
        dist2[n],
    ) by {
        if n == c.node_id {
            assert(after[p] == c);
        } else {
            assert(settled(metric, ef, before, n, dist[n]));
            if let Some(d) = dist[n] {
                let x = Candidate { node_id: n, distance: d };
                let i = choose|i: int| 0 <= i < before.len() && before[i] == x;
                if i < p {
                    assert(after[i] == x);
                } else {
                    assert(after[i + 1] == x);
                }
            }
        }
    }
}

/// Putting a strictly nearer node in place of the farthest of a full list
/// keeps every node dealt with.
proof fn lemma_settled_replaced<M: Metric>(
    metric: &M,
    ef: usize,
    before: Seq<Candidate>,
    seen: Set<u32>,
    dist: Map<u32, Option<u32>>,
    p: int,
    c: Candidate,
)
    requires
        all_settled(metric, ef, before, seen, dist),
        before.len() >= ef,
        before.len() >= 1,
        ascending(before),
        0 <= p <= before.len() - 1,
        score_rank(c.distance) < score_rank(before.last().distance),
        metric.measures(c.node_id, Some(c.distance)),
    ensures
        all_settled(
            metric,
            ef,
            before.drop_last().insert(p, c),
            seen.insert(c.node_id),
            dist.insert(c.node_id, Some(c.distance)),
        ),
{
    let kept = before.drop_last();
    let after = kept.insert(p, c);
    let dist2 = dist.insert(c.node_id, Some(c.distance));
    assert(score_rank(after.last().distance) <= score_rank(before.last().distance)) by {
        if p == kept.len() {
            assert(after.last() == c);
        } else {
            assert(after.last() == before[before.len() - 2]);
            assert(closer(before[before.len() - 2], before[before.len() - 1]));
        }
    }
    assert forall|n: u32| seen.insert(c.node_id).contains(n) implies #[trigger] settled(
        metric,
        ef,
        after,
        n,
        dist2[n],
    ) by {
        if n == c.node_id {
            assert(after[p] == c);
        } else {
            assert(settled(metric, ef, before, n, dist[n]));
            if let Some(d) = dist[n] {
                let x = Candidate { node_id: n, distance: d };
                if before.contains(x) {
                    let i = choose|i: int| 0 <= i < before.len() && before[i] == x;
                    if i < p {
                        assert(after[i] == x);
                    } else if i < before.len() - 1 {
                        assert(after[i + 1] == x);
                    }
                }
            }
        }
    }
}

/// Puts `c` into the ascending list at its place.
fn insert_ascending(cands: &mut Vec<Candidate>, c: Candidate) -> (p: usize)
    requires
        ascending(old(cands)@),
        forall|i: int| 0 <= i < old(cands)@.len() ==> (#[trigger] old(cands)@[i]).node_id != c.node_id,
    ensures
        p <= old(cands)@.len(),
        final(cands)@ == old(cands)@.insert(p as int, c),
        ascending(final(cands)@),
        p < old(cands)@.len() ==> closer(c, old(cands)@[p as int]),
{
    let mut p: usize = 0;
    while p < cands.len() && !is_closer(c, cands[p])
        invariant
            p <= cands@.len(),
            cands@ == old(cands)@,
            forall|i: int| 0 <= i < cands@.len() ==> (#[trigger] cands@[i]).node_id != c.node_id,
            forall|i: int| 0 <= i < p ==> closer(#[trigger] cands@[i], c),
        decreases cands@.len() - p,
    {
        assert(cands@[p as int].node_id != c.node_id);
        p += 1;
    }
    cands.insert(p, c);
    proof {
        let before = old(cands)@;
        let after = cands@;
        assert forall|i: int, j: int| 0 <= i < j < after.len() implies closer(
            #[trigger] after[i],
            #[trigger] after[j],
        ) by {
            let i0 = if i < p { i } else { i - 1 };
            let j0 = if j < p { j } else { j - 1 };
            if i == p {
                assert(after[j] == before[j0]);
                assert(closer(c, before[p as int]));
                if j0 > p {
                    assert(closer(before[p as int], before[j0]));
                }
            } else if j == p {
                assert(after[i] == before[i]);
            } else {
                assert(after[i] == before[i0]);
                assert(after[j] == before[j0]);
                assert(closer(before[i0], before[j0]));
            }
        }
    }
    p
}

/// Explores one layer from `entry`, keeping the `ef` closest nodes seen.
///
/// Nodes are taken in the order they were found. Exploring stops when the
/// list is full and the node taken is farther than the farthest kept. A
/// node found is kept while the list has room, or in place of the
/// farthest kept if it is strictly nearer (see [`searched`]).
pub fn search_layer<L: Layer, M: Metric>(layer: &L, metric: &M, entry: Candidate, ef: usize) -> (cands:
    Vec<Candidate>)
    requires
        layer.layer_wf(),
        entry.node_id < layer.node_count(),
        metric.measures(entry.node_id, Some(entry.distance)),
        forall|n: u32| n < layer.node_count() ==> metric.covers(n),
    ensures
        found(layer.node_count(), metric, entry, ef, cands@),
        exists|work: Seq<Candidate>, taken: nat| #[trigger]
            searched(layer_lists(layer), metric, entry, ef, cands@, work, taken),
{
    let limit = layer.size();
    let ghost lists = layer_lists(layer);
    let mut visited: HashSet<u32> = HashSet::new();
    visited.insert(entry.node_id);
    let mut cands: Vec<Candidate> = Vec::new();
    cands.push(entry);
    let mut work: Vec<Candidate> = Vec::new();
    work.push(entry);
    let ghost dist: Map<u32, Option<u32>> = Map::empty().insert(
        entry.node_id,
        Some(entry.distance),
    );
    let ghost done: nat = 0;
    proof {
        assert(cands@[0] == entry);
        assert(work@[0] == entry);
        assert(settled(metric, ef, cands@, entry.node_id, dist[entry.node_id]));
    }
    let mut idx: usize = 0;
    while idx < work.len() && idx < limit
        invariant_except_break
            done == idx,
        invariant
            layer.layer_wf(),
            limit == layer.node_count(),
            limit >= 1,
            lists == layer_lists(layer),
            entry.node_id < layer.node_count(),
            forall|n: u32| n < layer.node_count() ==> metric.covers(n),
            idx <= work@.len(),
            idx <= limit,
            done <= idx,
            work@.len() >= 1,
            work@[0] == entry,
            found(layer.node_count(), metric, entry, ef, cands@),
            forall|i: int| 0 <= i < cands@.len() ==> visited@.contains((#[trigger] cands@[i]).node_id),
            forall|i: int|
                0 <= i < work@.len() ==> (#[trigger] work@[i]).node_id < layer.node_count()
                    && metric.measures(work@[i].node_id, Some(work@[i].distance)),
            forall|i: int| 0 <= i < cands@.len() ==> work@.contains(#[trigger] cands@[i]),
            all_settled(metric, ef, cands@, visited@, dist),
            idx == 0 ==> cands@.len() == 1 && cands@[0] == entry,
            forall|i: int|
                0 <= i < done ==> #[trigger] links_seen(layer, work@[i].node_id, visited@),
            forall|i: int| 1 <= i < work@.len() ==> #[trigger] reached(lists, work@, done, i),
        ensures
            1 <= done <= work@.len(),
            done == work@.len() || done == limit || (cands@.len() >= ef && score_rank(
                work@[done as int].distance,
            ) > score_rank(cands@.last().distance)),
        decreases limit - idx,
    {
        let current = work[idx];
        idx += 1;
        let worst = cands[cands.len() - 1];
        if cands.len() >= ef && score_key(current.distance) > score_key(worst.distance) {
            break ;
        }
        proof {
            assert forall|i: int| 1 <= i < work@.len() implies #[trigger] reached(
                lists,
                work@,
                done + 1,
                i,
            ) by {
                assert(reached(lists, work@, done, i));
            }
        }
        let degree = layer.degree(current.node_id);
        let mut i: usize = 0;
        while i < degree
            invariant
                layer.layer_wf(),
                lists == layer_lists(layer),
                forall|n: u32| n < layer.node_count() ==> metric.covers(n),
                current.node_id < layer.node_count(),
                degree == layer.neighbors(current.node_id).len(),
                i <= degree,
                idx <= work@.len(),
                idx == done + 1,
                current == work@[done as int],
                work@.len() >= 1,
                work@[0] == entry,
                found(layer.node_count(), metric, entry, ef, cands@),
                forall|j: int|
                    0 <= j < cands@.len() ==> visited@.contains((#[trigger] cands@[j]).node_id),
                forall|j: int|
                    0 <= j < work@.len() ==> (#[trigger] work@[j]).node_id < layer.node_count()
                        && metric.measures(work@[j].node_id, Some(work@[j].distance)),
                forall|j: int| 0 <= j < cands@.len() ==> work@.contains(#[trigger] cands@[j]),
                all_settled(metric, ef, cands@, visited@, dist),
                forall|j: int|
                    0 <= j < done ==> #[trigger] links_seen(layer, work@[j].node_id, visited@),
                forall|j: int|
                    0 <= j < i ==> visited@.contains(#[trigger] layer.neighbors(current.node_id)[j]),
                forall|j: int|
                    1 <= j < work@.len() ==> #[trigger] reached(lists, work@, done + 1, j),
            decreases degree - i,
        {
            let nb = layer.neighbor(current.node_id, i);
            i += 1;
            if visited.contains(&nb) {
                continue ;
            }
            let ghost seen = visited@;
            let ghost known = dist;
            let ghost found_before = work@;
            visited.insert(nb);
            assert(!seen.contains(nb));
            proof {
                assert forall|j: int| 0 <= j < done implies #[trigger] links_seen(
                    layer,
                    work@[j].node_id,
                    visited@,
                ) by {
                    assert(links_seen(layer, work@[j].node_id, seen));
                }
            }
            match metric.distance_to(nb) {
                Some(d) => {
                    let c = Candidate { node_id: nb, distance: d };
                    let ghost before = cands@;
                    assert forall|j: int| 0 <= j < before.len() implies (#[trigger] before[j]).node_id
                        != nb by {
                        assert(seen.contains(before[j].node_id));
                    }
                    if cands.len() < ef {
                        let p = insert_ascending(&mut cands, c);
                        work.push(c);
                        proof {
                            lemma_inserted(layer.node_count(), metric, entry, ef, before, p as int, c);
                            lemma_settled_inserted(metric, ef, before, seen, known, p as int, c);
                            dist = known.insert(nb, Some(d));
                            assert forall|j: int| 0 <= j < cands@.len() implies visited@.contains(
                                (#[trigger] cands@[j]).node_id,
                            ) by {
                                if j < p {
                                    assert(cands@[j] == before[j]);
                                } else if j > p {
                                    assert(cands@[j] == before[j - 1]);
                                }
                            }
                            lemma_found_more(
                                lists,
                                found_before,
                                c,
                                done,
                                (i - 1) as int,
                                before,
                                cands@,
                            );
                        }
                    } else {
                        let worst = cands[cands.len() - 1];
                        if score_key(d) < score_key(worst.distance) {
                            let _ = cands.pop();
                            let ghost kept = cands@;
                            assert(kept =~= before.drop_last());
                            assert(ascending(kept)) by {
                                assert forall|a: int, b: int| 0 <= a < b < kept.len() implies closer(
                                    #[trigger] kept[a],
                                    #[trigger] kept[b],
                                ) by {
                                    assert(kept[a] == before[a]);
                                    assert(kept[b] == before[b]);
                                }
                            }
                            assert forall|j: int| 0 <= j < kept.len() implies (#[trigger] kept[j]).node_id
                                != nb by {
                                assert(kept[j] == before[j]);
                            }
                            let p = insert_ascending(&mut cands, c);
                            work.push(c);
                            proof {
                                lemma_replaced(
                                    layer.node_count(),
                                    metric,
                                    entry,
                                    ef,
                                    before,
                                    p as int,
                                    c,
                                );
                                lemma_settled_replaced(metric, ef, before, seen, known, p as int, c);
                                dist = known.insert(nb, Some(d));
                                assert forall|j: int|
                                    0 <= j < cands@.len() implies visited@.contains(
                                    (#[trigger] cands@[j]).node_id,
                                ) by {
                                    if j < p {
                                        assert(cands@[j] == before[j]);
                                    } else if j > p {
                                        assert(cands@[j] == before[j - 1]);
                                    }
                                }
                                lemma_found_more(
                                    lists,
                                    found_before,
                                    c,
                                    done,
                                    (i - 1) as int,
                                    before,
                                    cands@,
                                );
                            }
                        } else {
                            proof {
                                dist = known.insert(nb, Some(d));
                                assert forall|n: u32| visited@.contains(n) implies #[trigger] settled(
                                    metric,
                                    ef,
                                    cands@,
                                    n,
                                    dist[n],
                                ) by {
                                    if n != nb {
                                        assert(settled(metric, ef, cands@, n, known[n]));
                                    }
                                }
                            }
                        }
                    }
                },
                None => {
                    proof {
                        dist = known.insert(nb, None);
                        assert forall|n: u32| visited@.contains(n) implies #[trigger] settled(
                            metric,
                            ef,
                            cands@,
                            n,
                            dist[n],
                        ) by {
                            if n != nb {
                                assert(settled(metric, ef, cands@, n, known[n]));
                            }
                        }
                    }
                },
            }
        }
        proof {
            assert(links_seen(layer, work@[done as int].node_id, visited@));
            done = done + 1;
        }
    }
    proof {
        assert forall|i: int| 0 <= i < done implies #[trigger] links_accounted(
            lists,
            metric,
            ef,
            cands@,
            work@[i].node_id,
        ) by {
            let node = work@[i].node_id;
            assert(links_seen(layer, node, visited@));
            assert(lists[node as int] == layer.neighbors(node));
            assert forall|j: int| 0 <= j < lists[node as int].len() implies accounted(
                metric,
                ef,
                cands@,
                #[trigger] lists[node as int][j],
            ) by {
                let nb = layer.neighbors(node)[j];
                assert(visited@.contains(nb));
                assert(settled(metric, ef, cands@, nb, dist[nb]));
            }
        }
        reveal(searched);
        assert(searched(lists, metric, entry, ef, cands@, work@, done));
    }
    cands
}

/// Putting a node found through link `p` of node `done` behind the nodes
/// found keeps every node found through a link of a node before it, and
/// every node kept among the nodes found.
proof fn lemma_found_more(
    lists: Seq<Seq<u32>>,
    work: Seq<Candidate>,
    c: Candidate,
    done: nat,
    p: int,
    before: Seq<Candidate>,
    after: Seq<Candidate>,
)
    requires
        done < work.len(),
        0 <= p < lists[work[done as int].node_id as int].len(),
        lists[work[done as int].node_id as int][p] == c.node_id,
        forall|j: int| 1 <= j < work.len() ==> #[trigger] reached(lists, work, done + 1, j),
        forall|j: int| 0 <= j < before.len() ==> work.contains(#[trigger] before[j]),
        forall|j: int| 0 <= j < after.len() ==> after[j] == c || before.contains(#[trigger] after[j]),
    ensures
        forall|j: int| 1 <= j < work.push(c).len() ==> #[trigger] reached(
            lists,
            work.push(c),
            done + 1,
            j,
        ),
        forall|j: int| 0 <= j < after.len() ==> work.push(c).contains(#[trigger] after[j]),
{
    let more = work.push(c);
    assert forall|j: int| 1 <= j < more.len() implies #[trigger] reached(
        lists,
        more,
        done + 1,
        j,
    ) by {
        if j < work.len() {
            assert(reached(lists, work, done + 1, j));
            let (a, b) = choose|a: int, b: int|
                0 <= a < done + 1 && a < j && 0 <= b < lists[work[a].node_id as int].len()
                    && #[trigger] lists[work[a].node_id as int][b] == work[j].node_id;
            assert(more[a] == work[a]);
            assert(more[j] == work[j]);
            assert(lists[more[a].node_id as int][b] == more[j].node_id);
        } else {
            assert(more[done as int] == work[done as int]);
            assert(more[j] == c);
            assert(lists[more[done as int].node_id as int][p] == more[j].node_id);
        }
    }
    assert forall|j: int| 0 <= j < after.len() implies more.contains(#[trigger] after[j]) by {
        if after[j] == c {
            assert(more[work.len() as int] == c);
        } else {
            assert(before.contains(after[j]));
            let k = choose|k: int| 0 <= k < before.len() && before[k] == after[j];
            assert(work.contains(before[k]));
            let w = choose|w: int| 0 <= w < work.len() && work[w] == before[k];
            assert(more[w] == work[w]);
        }
    }
}

/// A list that was found, with a new node put in while it had room, is a
/// list that was found.
proof fn lemma_inserted<M: Metric>(
    count: nat,
    metric: &M,
    entry: Candidate,
    ef: usize,
    before: Seq<Candidate>,
    p: int,
    c: Candidate,
)
    requires
        found(count, metric, entry, ef, before),
        before.len() < ef,
        0 <= p <= before.len(),
        ascending(before.insert(p, c)),
        p < before.len() ==> closer(c, before[p]),
        c.node_id < count,
        metric.measures(c.node_id, Some(c.distance)),
        forall|i: int| 0 <= i < before.len() ==> (#[trigger] before[i]).node_id != c.node_id,
    ensures
        found(count, metric, entry, ef, before.insert(p, c)),
{
    let after = before.insert(p, c);
    assert forall|i: int, j: int| 0 <= i < j < after.len() implies (#[trigger] after[i]).node_id
        != (#[trigger] after[j]).node_id by {
        let i0 = if i < p { i } else { i - 1 };
        let j0 = if j < p { j } else { j - 1 };
        if i == p {
            assert(after[j] == before[j0]);
        } else if j == p {
            assert(after[i] == before[i0]);
        } else {
            assert(after[i] == before[i0]);
            assert(after[j] == before[j0]);
        }
    }
    assert forall|i: int| 0 <= i < after.len() implies (#[trigger] after[i]).node_id < count
        && metric.measures(after[i].node_id, Some(after[i].distance)) by {
        if i < p {
            assert(after[i] == before[i]);
        } else if i > p {
            assert(after[i] == before[i - 1]);
        }
    }
    if p == 0 {
        assert(after[0] == c);
        assert(closer(c, before[0]));
    } else {
        assert(after[0] == before[0]);
    }
}

/// A list that was found, with its farthest node replaced by a strictly
/// nearer new one, is a list that was found.
proof fn lemma_replaced<M: Metric>(
    count: nat,
    metric: &M,
    entry: Candidate,
    ef: usize,
    before: Seq<Candidate>,
    p: int,
    c: Candidate,
)
    requires
        found(count, metric, entry, ef, before),
        0 <= p <= before.len() - 1,
        ascending(before.drop_last().insert(p, c)),
        p < before.len() - 1 ==> closer(c, before[p]),
        score_rank(c.distance) < score_rank(before.last().distance),
        c.node_id < count,
        metric.measures(c.node_id, Some(c.distance)),
        forall|i: int| 0 <= i < before.len() ==> (#[trigger] before[i]).node_id != c.node_id,
    ensures
        found(count, metric, entry, ef, before.drop_last().insert(p, c)),
{
    let kept = before.drop_last();
    let after = kept.insert(p, c);
    assert forall|i: int, j: int| 0 <= i < j < after.len() implies (#[trigger] after[i]).node_id
        != (#[trigger] after[j]).node_id by {
        let i0 = if i < p { i } else { i - 1 };
        let j0 = if j < p { j } else { j - 1 };
        if i == p {
            assert(after[j] == before[j0]);
        } else if j == p {
            assert(after[i] == before[i0]);
        } else {
            assert(after[i] == before[i0]);
            assert(after[j] == before[j0]);
        }
    }
    assert forall|i: int| 0 <= i < after.len() implies (#[trigger] after[i]).node_id < count
        && metric.measures(after[i].node_id, Some(after[i].distance)) by {
        if i < p {
            assert(after[i] == before[i]);
        } else if i > p {
            assert(after[i] == before[i - 1]);
        }
    }
    if p == 0 {
        assert(after[0] == c);
        if kept.len() > 0 {
            assert(closer(c, before[0]));
        } else {
            assert(before.last() == before[0]);
        }
    } else {
        assert(after[0] == before[0]);
    }
}


/// Distances given by a function from node number to distance.
pub struct ByQuery<'a, F> {
    /// The function.
    pub f: &'a F,
}

impl<'a, F: Fn(u32) -> Option<u32>> Metric for ByQuery<'a, F> {
    open spec fn covers(&self, node: u32) -> bool {
        self.f.requires((node,))
    }

    open spec fn measures(&self, node: u32, d: Option<u32>) -> bool {
        self.f.ensures((node,), d)
    }

    fn distance_to(&self, node: u32) -> (d: Option<u32>) {
        (self.f)(node)
    }
}

/// A layer in compressed-sparse-row form: the links of node `i` are
/// `neighbors[offsets[i]..offsets[i + 1]]`.
pub struct CsrLayer<'a> {
    /// The links of all nodes, node after node.
    pub neighbors: &'a Vec<u32>,
    /// Where the links of each node start, and where the last end.
    pub offsets: &'a Vec<usize>,
    /// Number of nodes.
    pub count: usize,
}

/// A well-formed layer in compressed-sparse-row form over `count` nodes:
/// one offset more than nodes, the links of each node a range inside the
/// link array of at most `m` links, and every link a node.
pub open spec fn csr_wf(neighbors: Seq<u32>, offsets: Seq<usize>, count: nat, m: nat) -> bool {
    &&& offsets.len() == count + 1
    &&& forall|i: int|
        0 <= i < count ==> (#[trigger] offsets[i]) <= offsets[i + 1] && offsets[i + 1]
            <= neighbors.len() && offsets[i + 1] - offsets[i] <= m
    &&& forall|k: int| 0 <= k < neighbors.len() ==> (#[trigger] neighbors[k]) < count
}

/// The links of `node` in a layer in compressed-sparse-row form.
pub open spec fn csr_links(neighbors: Seq<u32>, offsets: Seq<usize>, node: int) -> Seq<u32> {
    neighbors.subrange(offsets[node] as int, offsets[node + 1] as int)
}

impl<'a> Layer for CsrLayer<'a> {
    open spec fn node_count(&self) -> nat {
        self.count as nat
    }

    open spec fn neighbors(&self, node: u32) -> Seq<u32> {
        csr_links(self.neighbors@, self.offsets@, node as int)
    }

    open spec fn layer_wf(&self) -> bool {
        csr_wf(self.neighbors@, self.offsets@, self.count as nat, usize::MAX as nat)
    }

    fn degree(&self, node: u32) -> (r: usize) {
        let n = node as usize;
        assert(self.offsets@[n as int] <= self.offsets@[n + 1]);
        self.offsets[n + 1] - self.offsets[n]
    }

    fn neighbor(&self, node: u32, i: usize) -> (r: u32) {
        let n = node as usize;
        assert(self.offsets@[n as int] <= self.offsets@[n + 1]);
        self.neighbors[self.offsets[n] + i]
    }

    fn size(&self) -> (r: usize) {
        self.count
    }
}

/// Decides whether a layer in compressed-sparse-row form is well-formed.
pub fn csr_ok(neighbors: &Vec<u32>, offsets: &Vec<usize>, count: usize, m: usize) -> (r: bool)
    ensures
        r == csr_wf(neighbors@, offsets@, count as nat, m as nat),
{
    if offsets.len() == 0 || offsets.len() - 1 != count {
        return false;
    }
    let mut i: usize = 0;
    while i < count
        invariant
            i <= count,
            offsets@.len() == count + 1,
            forall|j: int|
                0 <= j < i ==> (#[trigger] offsets@[j]) <= offsets@[j + 1] && offsets@[j + 1]
                    <= neighbors@.len() && offsets@[j + 1] - offsets@[j] <= m,
        decreases count - i,
    {
        if offsets[i] > offsets[i + 1] || offsets[i + 1] > neighbors.len() || offsets[i + 1]
            - offsets[i] > m {
            return false;
        }
        i += 1;
    }
    let mut k: usize = 0;
    while k < neighbors.len()
        invariant
            k <= neighbors@.len(),
            forall|j: int| 0 <= j < k ==> (#[trigger] neighbors@[j]) < count,
        decreases neighbors@.len() - k,
    {
        if neighbors[k] as usize >= count {
            return false;
        }
        k += 1;
    }
    true
}

/// The graph, ready for searches.
#[derive(Debug)]
pub struct HnswIndex {
    params: HnswParams,
    dimension: usize,
    distance: Distance,
    num_nodes: usize,
    entry_point: u32,
    num_layers: usize,
    layers: Vec<u8>,
    layer_neighbors: Vec<Vec<u32>>,
    layer_offsets: Vec<Vec<usize>>,
}

/// The parts of a well-formed graph: as many link arrays and offset
/// tables as layers, each a well-formed layer over all nodes; a layer tag
/// per node; and, where there are nodes, at least one layer and an entry
/// point that is a node.
pub open spec fn parts_wf(
    m: usize,
    num_nodes: usize,
    entry_point: u32,
    num_layers: usize,
    layers: Seq<u8>,
    layer_neighbors: Seq<Vec<u32>>,
    layer_offsets: Seq<Vec<usize>>,
) -> bool {
    &&& num_nodes <= u32::MAX
    &&& layers.len() == num_nodes
    &&& layer_neighbors.len() == num_layers
    &&& layer_offsets.len() == num_layers
    &&& num_nodes > 0 ==> entry_point < num_nodes && num_layers >= 1
    &&& forall|l: int|
        0 <= l < num_layers ==> csr_wf(
            (#[trigger] layer_neighbors[l])@,
            layer_offsets[l]@,
            num_nodes as nat,
            m as nat,
        )
}

/// A search result as a candidate.
pub open spec fn as_candidate(r: (u32, u32)) -> Candidate {
    Candidate { node_id: r.0, distance: r.1 }
}

/// What a search over `count` nodes from the entry point `entry` returns
/// for `k`: nodes with the distances the function gave for them, the
/// closest first, no node twice; at most `k` of them (one, where the graph
/// has a single node); the first at least as close as the entry point; and
/// none only if none was asked for, the graph is empty, or the function
/// gave no distance for the entry point.
pub open spec fn search_outcome<F: Fn(u32) -> Option<u32>>(
    count: nat,
    entry: u32,
    f: &F,
    k: usize,
    res: Seq<(u32, u32)>,
) -> bool {
    &&& count == 0 ==> res.len() == 0
    &&& count == 1 ==> res.len() <= 1
    &&& count > 1 ==> res.len() <= k
    &&& forall|i: int|
        0 <= i < res.len() ==> (#[trigger] res[i]).0 < count && f.ensures(
            (res[i].0,),
            Some(res[i].1),
        )
    &&& forall|i: int, j: int|
        0 <= i < j < res.len() ==> closer(as_candidate(#[trigger] res[i]), as_candidate(#[trigger] res[j]))
            && res[i].0 != res[j].0
    &&& res.len() > 0 ==> exists|d: u32|
        f.ensures((entry,), Some(d)) && !closer(
            Candidate { node_id: entry, distance: d },
            as_candidate(res[0]),
        )
    &&& res.len() == 0 ==> count == 0 || (count > 1 && k == 0) || f.ensures((entry,), None)
}

impl HnswIndex {
    /// Number of nodes.
    pub closed spec fn nodes(&self) -> nat {
        self.num_nodes as nat
    }

    /// The entry point; node 0 where the graph has a single node.
    pub closed spec fn entry(&self) -> u32 {
        if self.num_nodes == 1 {
            0
        } else {
            self.entry_point
        }
    }

    /// Number of components of the vectors the graph was built over.
    pub closed spec fn dim(&self) -> usize {
        self.dimension
    }

    /// The metric the graph was built with.
    pub closed spec fn metric(&self) -> Distance {
        self.distance
    }

    /// The parameters the graph was built with.
    pub closed spec fn settings(&self) -> HnswParams {
        self.params
    }

    /// Number of layers.
    pub closed spec fn layer_count(&self) -> nat {
        self.num_layers as nat
    }

    /// The layer tag of each node.
    pub closed spec fn tags(&self) -> Seq<u8> {
        self.layers@
    }

    /// The link array of each layer: the links of its nodes, one node
    /// after the other.
    pub closed spec fn arrays(&self) -> Seq<Seq<u32>> {
        Seq::new(self.layer_neighbors@.len(), |l: int| self.layer_neighbors@[l]@)
    }

    /// The offset table of each layer: where in the link array the links
    /// of each node start, and as last entry where they end.
    pub closed spec fn tables(&self) -> Seq<Seq<usize>> {
        Seq::new(self.layer_offsets@.len(), |l: int| self.layer_offsets@[l]@)
    }

    /// The links of `node` in `layer`.
    pub open spec fn links(&self, layer: int, node: int) -> Seq<u32> {
        csr_links(self.arrays()[layer], self.tables()[layer], node)
    }

    /// The link lists of `layer`, by node.
    pub open spec fn layer_links(&self, layer: int) -> Seq<Seq<u32>> {
        Seq::new(self.nodes(), |n: int| self.links(layer, n))
    }

    /// What exploring `layer` from `entry` with a list of `width` gave:
    /// a list as the layer search finds it, by a search that went as
    /// [`searched`] says.
    pub open spec fn layer_searched<F: Fn(u32) -> Option<u32>>(
        &self,
        f: &F,
        layer: int,
        entry: Candidate,
        width: usize,
        cands: Seq<Candidate>,
    ) -> bool {
        &&& entry.node_id < self.nodes()
        &&& found(self.nodes(), &ByQuery { f }, entry, width, cands)
        &&& exists|work: Seq<Candidate>, taken: nat| #[trigger]
            searched(self.layer_links(layer), &ByQuery { f }, entry, width, cands, work, taken)
    }

    /// Step `i` of a search, counted from the top layer: `steps[i]` is what
    /// exploring layer `layer_count() - 1 - i` gave, from `first` in the
    /// top layer and from the node that the step before ended at in the
    /// others, with a list of one in the layers above the bottom one and
    /// of `max(ef, k)` in the bottom layer.
    pub open spec fn step_taken<F: Fn(u32) -> Option<u32>>(
        &self,
        f: &F,
        k: usize,
        ef: usize,
        first: Candidate,
        steps: Seq<Seq<Candidate>>,
        i: int,
    ) -> bool {
        let layer = self.layer_count() - 1 - i;
        let entry = if i == 0 {
            first
        } else {
            steps[i - 1].last()
        };
        let width = if layer > 0 {
            1usize
        } else if ef > k {
            ef
        } else {
            k
        };
        self.layer_searched(f, layer, entry, width, steps[i])
    }

    /// How a search went that returned `res`: the entry point had the
    /// distance `first`; `steps` holds what each layer gave, from the top
    /// layer down (see [`HnswIndex::step_taken`]); and `res` is the first
    /// `k` of what the bottom layer gave, or all of it where it is less.
    pub open spec fn descended<F: Fn(u32) -> Option<u32>>(
        &self,
        f: &F,
        k: usize,
        ef: usize,
        res: Seq<(u32, u32)>,
        first: u32,
        steps: Seq<Seq<Candidate>>,
    ) -> bool {
        &&& f.ensures((self.entry(),), Some(first))
        &&& steps.len() == self.layer_count()
        &&& steps.len() >= 1
        &&& forall|i: int|
            0 <= i < steps.len() ==> #[trigger] self.step_taken(
                f,
                k,
                ef,
                Candidate { node_id: self.entry(), distance: first },
                steps,
                i,
            )
        &&& res.len() == (if steps.last().len() < k {
            steps.last().len()
        } else {
            k as nat
        })
        &&& forall|i: int| 0 <= i < res.len() ==> as_candidate(#[trigger] res[i]) == steps.last()[i]
    }

    /// What a search of a graph with more than one node returns: nothing,
    /// where the function gave no distance for the entry point; else the
    /// nearest of what exploring layer after layer gave (see
    /// [`HnswIndex::descended`]).
    pub open spec fn explored<F: Fn(u32) -> Option<u32>>(
        &self,
        f: &F,
        k: usize,
        ef: usize,
        res: Seq<(u32, u32)>,
    ) -> bool {
        ||| res.len() == 0 && f.ensures((self.entry(),), None)
        ||| exists|first: u32, steps: Seq<Seq<Candidate>>| #[trigger]
            self.descended(f, k, ef, res, first, steps)
    }

    /// The graph's invariant (see [`parts_wf`]).
    pub closed spec fn wf(&self) -> bool {
        parts_wf(
            self.params.m,
            self.num_nodes,
            self.entry_point,
            self.num_layers,
            self.layers@,
            self.layer_neighbors@,
            self.layer_offsets@,
        )
    }

    /// In a well-formed graph no node has more than `m` links in a layer,
    /// and every link leads to a node.
    pub proof fn law_links_bounded(&self, layer: int, node: int)
        requires
            self.wf(),
            0 <= layer < self.layer_count(),
            0 <= node < self.nodes(),
        ensures
            self.links(layer, node).len() <= self.settings().m,
            forall|i: int|
                0 <= i < self.links(layer, node).len() ==> (#[trigger] self.links(layer, node)[i])
                    < self.nodes(),
    {
        let nb = self.layer_neighbors@[layer]@;
        let off = self.layer_offsets@[layer]@;
        assert(csr_wf(nb, off, self.num_nodes as nat, self.params.m as nat));
        assert(off[node] <= off[node + 1]);
    }

    /// Puts a graph together from its parts. Fails with `Serialization`
    /// exactly when the parts are not those of a well-formed graph.
    pub fn from_parts(
        params: HnswParams,
        dimension: usize,
        distance: Distance,
        num_nodes: usize,
        entry_point: u32,
        num_layers: usize,
        layers: Vec<u8>,
        layer_neighbors: Vec<Vec<u32>>,
        layer_offsets: Vec<Vec<usize>>,
    ) -> (r: Result<HnswIndex, Error>)
        ensures
            match r {
                Ok(index) => {
                    &&& parts_wf(
                        params.m,
                        num_nodes,
                        entry_point,
                        num_layers,
                        layers@,
                        layer_neighbors@,
                        layer_offsets@,
                    )
                    &&& index.wf()
                    &&& index.settings() == params
                    &&& index.dim() == dimension
                    &&& index.metric() == distance
                    &&& index.nodes() == num_nodes
                    &&& index.layer_count() == num_layers
                    &&& index.tags() == layers@
                    &&& forall|l: int, n: int|
                        0 <= l < num_layers && 0 <= n < num_nodes ==> #[trigger] index.links(l, n)
                            == csr_links(layer_neighbors@[l]@, layer_offsets@[l]@, n)
                },
                Err(e) => e is Serialization && !parts_wf(
                    params.m,
                    num_nodes,
                    entry_point,
                    num_layers,
                    layers@,
                    layer_neighbors@,
                    layer_offsets@,
                ),
            },
    {
        if num_nodes > 0xFFFF_FFFF || layers.len() != num_nodes || layer_neighbors.len()
            != num_layers || layer_offsets.len() != num_layers {
            return Err(Error::Serialization("malformed index".to_owned()));
        }
        if num_nodes > 0 && (entry_point as usize >= num_nodes || num_layers == 0) {
            return Err(Error::Serialization("malformed index".to_owned()));
        }
        let mut l: usize = 0;
        while l < num_layers
            invariant
                l <= num_layers,
                layer_neighbors@.len() == num_layers,
                layer_offsets@.len() == num_layers,
                forall|j: int|
                    0 <= j < l ==> csr_wf(
                        (#[trigger] layer_neighbors@[j])@,
                        layer_offsets@[j]@,
                        num_nodes as nat,
                        params.m as nat,
                    ),
            decreases num_layers - l,
        {
            if !csr_ok(&layer_neighbors[l], &layer_offsets[l], num_nodes, params.m) {
                return Err(Error::Serialization("malformed index".to_owned()));
            }
            l += 1;
        }
        Ok(
            HnswIndex {
                params,
                dimension,
                distance,
                num_nodes,
                entry_point,
                num_layers,
                layers,
                layer_neighbors,
                layer_offsets,
            },
        )
    }

    /// The parameters the graph was built with.
    pub fn params(&self) -> (r: &HnswParams)
        ensures
            *r == self.settings(),
    {
        &self.params
    }

    /// Number of components of the vectors the graph was built over.
    pub fn dimension(&self) -> (r: usize)
        ensures
            r == self.dim(),
    {
        self.dimension
    }

    /// The metric the graph was built with.
    pub fn distance(&self) -> (r: Distance)
        ensures
            r == self.metric(),
    {
        self.distance
    }

    /// Number of nodes.
    pub fn num_nodes(&self) -> (r: usize)
        ensures
            r == self.nodes(),
    {
        self.num_nodes
    }

    /// Number of layers.
    pub fn num_layers(&self) -> (r: usize)
        ensures
            r == self.layer_count(),
    {
        self.num_layers
    }

    /// The entry point as it is stored.
    pub fn entry_point(&self) -> (r: u32)
        ensures
            self.nodes() != 1 ==> r == self.entry(),
    {
        self.entry_point
    }

    /// The layer tag of each node.
    pub fn layers(&self) -> (r: &Vec<u8>)
        requires
            self.wf(),
        ensures
            r@.len() == self.nodes(),
            r@ == self.tags(),
    {
        &self.layers
    }

    /// The link arrays, one per layer.
    pub fn layer_neighbors(&self) -> (r: &Vec<Vec<u32>>)
        requires
            self.wf(),
        ensures
            r@.len() == self.layer_count(),
            self.arrays().len() == self.layer_count(),
            forall|l: int| 0 <= l < self.layer_count() ==> (#[trigger] r@[l])@ == self.arrays()[l],
    {
        &self.layer_neighbors
    }

    /// The offset tables, one per layer.
    pub fn layer_offsets(&self) -> (r: &Vec<Vec<usize>>)
        requires
            self.wf(),
        ensures
            r@.len() == self.layer_count(),
            self.tables().len() == self.layer_count(),
            forall|l: int| 0 <= l < self.layer_count() ==> (#[trigger] r@[l])@ == self.tables()[l],
    {
        &self.layer_offsets
    }

    /// Searches the graph for the nodes nearest to the query.
    ///
    /// `distance` gives the distance from the query to a node, or nothing
    /// for a node without a vector. From the entry point the search
    /// descends through the layers above the bottom one, moving to the
    /// nearest node it finds in each, then explores the bottom layer with a
    /// list of `max(ef, k)` and returns its `k` nearest (see
    /// [`search_outcome`]). A graph of one node gives that node.
    ///
    /// Fails with `WrongDimension` when the query does not have the
    /// dimension of the graph.
    pub fn search<F: Fn(u32) -> Option<u32>>(
        &self,
        query: &[u32],
        k: usize,
        ef: usize,
        distance: &F,
    ) -> (r: Result<Vec<(u32, u32)>, Error>)
        requires
            self.wf(),
            forall|n: u32| n < self.nodes() ==> distance.requires((n,)),
        ensures
            query@.len() != self.dim() ==> (r matches Err(Error::WrongDimension { expected, got })
                && expected == self.dim() && got == query@.len()),
            query@.len() == self.dim() ==> (r matches Ok(res) && search_outcome(
                self.nodes(),
                self.entry(),
                distance,
                k,
                res@,
            ) && (self.nodes() > 1 ==> self.explored(distance, k, ef, res@))),
    {
        if query.len() != self.dimension {
            return Err(Error::WrongDimension { expected: self.dimension, got: query.len() });
        }
        let mut out: Vec<(u32, u32)> = Vec::new();
        if self.num_nodes == 0 {
            return Ok(out);
        }
        if self.num_nodes == 1 {
            match distance(0) {
                Some(d) => {
                    out.push((0, d));
                    assert(distance.ensures((0u32,), Some(d)) && !closer(
                        Candidate { node_id: 0, distance: d },
                        as_candidate(out@[0]),
                    ));
                },
                None => {},
            }
            return Ok(out);
        }
        let metric = ByQuery { f: distance };
        let first = match distance(self.entry_point) {
            Some(d) => Candidate { node_id: self.entry_point, distance: d },
            None => { return Ok(out); },
        };
        let mut ep = first;
        let ghost steps: Seq<Seq<Candidate>> = Seq::empty();
        let mut layer: usize = self.num_layers - 1;
        while layer > 0
            invariant
                self.wf(),
                self.nodes() > 1,
                layer < self.num_layers,
                metric.f == distance,
                forall|n: u32| n < self.nodes() ==> distance.requires((n,)),
                ep.node_id < self.num_nodes,
                distance.ensures((ep.node_id,), Some(ep.distance)),
                !closer(first, ep),
                first.node_id == self.entry(),
                steps.len() == self.num_layers - 1 - layer,
                ep == if steps.len() == 0 {
                    first
                } else {
                    steps.last().last()
                },
                forall|i: int|
                    0 <= i < steps.len() ==> #[trigger] self.step_taken(
                        distance,
                        k,
                        ef,
                        first,
                        steps,
                        i,
                    ),
            decreases layer,
        {
            let view = CsrLayer {
                neighbors: &self.layer_neighbors[layer],
                offsets: &self.layer_offsets[layer],
                count: self.num_nodes,
            };
            let cands = search_layer(&view, &metric, ep, 1);
            proof {
                self.lemma_step(distance, k, ef, first, steps, layer as int, ep, 1, cands@, &view, &metric);
                steps = steps.push(cands@);
            }
            ep = cands[cands.len() - 1];
            layer -= 1;
        }
        let view = CsrLayer {
            neighbors: &self.layer_neighbors[0],
            offsets: &self.layer_offsets[0],
            count: self.num_nodes,
        };
        let width = if ef > k {
            ef
        } else {
            k
        };
        let cands = search_layer(&view, &metric, ep, width);
        let mut i: usize = 0;
        while i < cands.len() && i < k
            invariant
                i <= cands@.len(),
                i <= k,
                out@.len() == i,
                forall|j: int| 0 <= j < i ==> as_candidate(#[trigger] out@[j]) == cands@[j],
            decreases cands@.len() - i,
        {
            out.push((cands[i].node_id, cands[i].distance));
            i += 1;
        }
        proof {
            let res = out@;
            assert forall|a: int, b: int| 0 <= a < b < res.len() implies closer(
                as_candidate(#[trigger] res[a]),
                as_candidate(#[trigger] res[b]),
            ) && res[a].0 != res[b].0 by {
                assert(closer(cands@[a], cands@[b]));
                assert(cands@[a].node_id != cands@[b].node_id);
            }
            assert forall|j: int| 0 <= j < res.len() implies (#[trigger] res[j]).0 < self.nodes()
                && distance.ensures((res[j].0,), Some(res[j].1)) by {
                assert(as_candidate(res[j]) == cands@[j]);
            }
            if res.len() > 0 {
                assert(as_candidate(res[0]) == cands@[0]);
                assert(!closer(first, cands@[0]));
            }
            self.lemma_step(distance, k, ef, first, steps, 0, ep, width, cands@, &view, &metric);
            steps = steps.push(cands@);
            assert(self.descended(distance, k, ef, res, first.distance, steps));
        }
        Ok(out)
    }

    /// What the layer search gave for a layer of the graph is the next
    /// step of the search.
    proof fn lemma_step<'a, F: Fn(u32) -> Option<u32>>(
        &self,
        f: &F,
        k: usize,
        ef: usize,
        first: Candidate,
        steps: Seq<Seq<Candidate>>,
        layer: int,
        entry: Candidate,
        width: usize,
        cands: Seq<Candidate>,
        view: &CsrLayer<'a>,
        metric: &ByQuery<'a, F>,
    )
        requires
            self.wf(),
            0 <= layer < self.layer_count(),
            steps.len() == self.layer_count() - 1 - layer,
            metric.f == f,
            view.count == self.nodes(),
            view.neighbors@ == self.arrays()[layer],
            view.offsets@ == self.tables()[layer],
            entry.node_id < self.nodes(),
            entry == if steps.len() == 0 {
                first
            } else {
                steps.last().last()
            },
            width == (if layer > 0 {
                1usize
            } else if ef > k {
                ef
            } else {
                k
            }),
            found(self.nodes(), metric, entry, width, cands),
            exists|work: Seq<Candidate>, taken: nat| #[trigger]
                searched(layer_lists(view), metric, entry, width, cands, work, taken),
            forall|i: int| 0 <= i < steps.len() ==> #[trigger] self.step_taken(f, k, ef, first, steps, i),
        ensures
            forall|i: int|
                0 <= i < steps.len() + 1 ==> #[trigger] self.step_taken(
                    f,
                    k,
                    ef,
                    first,
                    steps.push(cands),
                    i,
                ),
    {
        let next = steps.push(cands);
        assert(*metric == (ByQuery { f }));
        assert(layer_lists(view) =~= self.layer_links(layer));
        assert(self.layer_searched(f, layer, entry, width, cands));
        assert forall|i: int| 0 <= i < next.len() implies #[trigger] self.step_taken(
            f,
            k,
            ef,
            first,
            next,
            i,
        ) by {
            if i < steps.len() {
                assert(self.step_taken(f, k, ef, first, steps, i));
                assert(next[i] == steps[i]);
                if i > 0 {
                    assert(next[i - 1] == steps[i - 1]);
                }
            } else {
                assert(next[i] == cands);
                if i > 0 {
                    assert(next[i - 1] == steps.last());
                }
            }
        }
    }
}


/// A layer under construction: one list of links per node.
pub struct ListLayer<'a> {
    /// The links of each node.
    pub lists: &'a Vec<Vec<u32>>,
}

/// A well-formed layer under construction: every link leads to a node of
/// the layer, and no node has more than `m` links.
pub open spec fn lists_wf(lists: Seq<Vec<u32>>, m: nat) -> bool {
    &&& lists.len() <= u32::MAX
    &&& forall|n: int| 0 <= n < lists.len() ==> (#[trigger] lists[n])@.len() <= m
    &&& forall|n: int, i: int|
        0 <= n < lists.len() && 0 <= i < lists[n]@.len() ==> (#[trigger] lists[n]@[i])
            < lists.len()
}

impl<'a> Layer for ListLayer<'a> {
    open spec fn node_count(&self) -> nat {
        self.lists@.len()
    }

    open spec fn neighbors(&self, node: u32) -> Seq<u32> {
        self.lists@[node as int]@
    }

    open spec fn layer_wf(&self) -> bool {
        lists_wf(self.lists@, usize::MAX as nat)
    }

    fn degree(&self, node: u32) -> (r: usize) {
        self.lists[node as usize].len()
    }

    fn neighbor(&self, node: u32, i: usize) -> (r: u32) {
        self.lists[node as usize][i]
    }

    fn size(&self) -> (r: usize) {
        self.lists.len()
    }
}

/// Distances between a fixed stored vector and the others, given by a
/// function of two vectors.
pub struct ByPair<'a, F> {
    /// The stored vectors.
    pub vectors: &'a Vec<Vec<u32>>,
    /// Number of the vector that distances are taken from.
    pub query: usize,
    /// The function.
    pub f: &'a F,
}

impl<'a, F: Fn(&Vec<u32>, &Vec<u32>) -> u32> Metric for ByPair<'a, F> {
    open spec fn covers(&self, node: u32) -> bool {
        &&& self.query < self.vectors@.len()
        &&& node < self.vectors@.len()
        &&& self.f.requires((&self.vectors@[self.query as int], &self.vectors@[node as int]))
    }

    open spec fn measures(&self, node: u32, d: Option<u32>) -> bool {
        &&& self.query < self.vectors@.len()
        &&& node < self.vectors@.len()
        &&& d matches Some(x) && self.f.ensures(
            (&self.vectors@[self.query as int], &self.vectors@[node as int]),
            x,
        )
    }

    fn distance_to(&self, node: u32) -> (d: Option<u32>) {
        Some((self.f)(&self.vectors[self.query], &self.vectors[node as usize]))
    }
}

/// Two graphs with the same layers and the same nodes in each.
pub open spec fn same_shape(a: Seq<Vec<Vec<u32>>>, b: Seq<Vec<Vec<u32>>>) -> bool {
    &&& a.len() == b.len()
    &&& forall|l: int| 0 <= l < a.len() ==> (#[trigger] a[l])@.len() == b[l]@.len()
}

/// Every layer of the graph is well-formed.
pub open spec fn layers_ok(g: Seq<Vec<Vec<u32>>>, m: nat) -> bool {
    forall|l: int| 0 <= l < g.len() ==> lists_wf((#[trigger] g[l])@, m)
}

/// The shape of a graph over `count` nodes: at most 17 layers, the bottom
/// one over all nodes, each layer over no more nodes than the one below.
pub open spec fn shape_ok(g: Seq<Vec<Vec<u32>>>, count: nat) -> bool {
    &&& g.len() <= MAX_LEVEL + 1
    &&& count <= u32::MAX
    &&& count > 0 ==> g.len() >= 1 && g[0]@.len() == count
    &&& count == 0 ==> g.len() == 0
    &&& forall|l: int| 0 <= l < g.len() ==> (#[trigger] g[l])@.len() <= count
    &&& forall|l: int| 0 <= l < g.len() - 1 ==> g[l + 1]@.len() <= (#[trigger] g[l])@.len()
}

/// Whether `e` is a node of every layer.
pub open spec fn in_all_layers(g: Seq<Vec<Vec<u32>>>, e: u32) -> bool {
    forall|l: int| 0 <= l < g.len() ==> e < (#[trigger] g[l])@.len()
}

/// The link lists of a layer as sequences.
pub open spec fn lists_view(lists: Seq<Vec<u32>>) -> Seq<Seq<u32>> {
    Seq::new(lists.len(), |n: int| lists[n]@)
}

/// The lists with the link `node -> target` put behind the links of
/// `node`, unless `node` has `m` links already.
pub open spec fn linked(lists: Seq<Seq<u32>>, node: int, target: u32, m: nat) -> Seq<Seq<u32>> {
    if 0 <= node < lists.len() && lists[node].len() < m {
        lists.update(node, lists[node].push(target))
    } else {
        lists
    }
}

/// The lists with `from` linked to each of `targets`, in order.
pub open spec fn linked_out(lists: Seq<Seq<u32>>, from: int, targets: Seq<u32>, m: nat) -> Seq<
    Seq<u32>,
>
    decreases targets.len(),
{
    if targets.len() == 0 {
        lists
    } else {
        linked(linked_out(lists, from, targets.drop_last(), m), from, targets.last(), m)
    }
}

/// The lists with each of `sources`, in order, linked to `target`.
pub open spec fn linked_back(lists: Seq<Seq<u32>>, sources: Seq<u32>, target: u32, m: nat) -> Seq<
    Seq<u32>,
>
    decreases sources.len(),
{
    if sources.len() == 0 {
        lists
    } else {
        linked(linked_back(lists, sources.drop_last(), target, m), sources.last() as int, target, m)
    }
}

/// The lists with edges between `from` and each node of `to_list`: first
/// `from` is linked to each of them, then each of them to `from`. A node
/// that has `m` links gets no more, so an edge may stay one-way.
pub open spec fn with_edges(lists: Seq<Seq<u32>>, from: u32, to_list: Seq<u32>, m: nat) -> Seq<
    Seq<u32>,
> {
    linked_back(linked_out(lists, from as int, to_list, m), to_list, from, m)
}

/// Adds the link `node -> target` in `layer` if `node` has fewer than `m`
/// links there. Nothing else changes.
fn link(graphs: &mut Vec<Vec<Vec<u32>>>, layer: usize, node: usize, target: u32, m: usize)
    requires
        layer < old(graphs)@.len(),
        node < old(graphs)@[layer as int]@.len(),
        target < old(graphs)@[layer as int]@.len(),
        layers_ok(old(graphs)@, m as nat),
    ensures
        same_shape(old(graphs)@, final(graphs)@),
        layers_ok(final(graphs)@, m as nat),
        lists_view(final(graphs)@[layer as int]@) == linked(
            lists_view(old(graphs)@[layer as int]@),
            node as int,
            target,
            m as nat,
        ),
        forall|l: int|
            0 <= l < old(graphs)@.len() && l != layer ==> #[trigger] final(graphs)@[l] == old(graphs)@[l],
{
    if graphs[layer][node].len() < m {
        let ghost before = graphs@;
        graphs[layer][node].push(target);
        proof {
            let after = graphs@;
            assert(lists_wf(before[layer as int]@, m as nat));
            assert forall|l: int| 0 <= l < after.len() implies lists_wf(
                (#[trigger] after[l])@,
                m as nat,
            ) by {
                if l != layer {
                    assert(after[l] == before[l]);
                } else {
                    let lists = after[l]@;
                    let old_lists = before[l]@;
                    assert forall|n: int| 0 <= n < lists.len() implies (#[trigger] lists[n])@.len()
                        <= m by {
                        if n != node {
                            assert(lists[n] == old_lists[n]);
                        }
                    }
                    assert forall|n: int, i: int|
                        0 <= n < lists.len() && 0 <= i < lists[n]@.len() implies (
                    #[trigger] lists[n]@[i]) < lists.len() by {
                        if n != node {
                            assert(lists[n] == old_lists[n]);
                        } else if i < old_lists[n]@.len() {
                            assert(lists[n]@[i] == old_lists[n]@[i]);
                        }
                    }
                }
            }
            assert forall|l: int| 0 <= l < before.len() implies (#[trigger] before[l])@.len()
                == after[l]@.len() by {
                if l != layer {
                    assert(after[l] == before[l]);
                }
            }
            let new_view = lists_view(after[layer as int]@);
            let old_view = lists_view(before[layer as int]@);
            assert forall|n: int| 0 <= n < new_view.len() implies new_view[n] == linked(
                old_view,
                node as int,
                target,
                m as nat,
            )[n] by {
                if n != node {
                    assert(after[layer as int]@[n] == before[layer as int]@[n]);
                }
            }
            assert(new_view =~= linked(old_view, node as int, target, m as nat));
        }
    }
}

/// Links `from` to each node of `to_list` in `layer`, then each of them
/// back to `from`; a node that already has `m` links gets no more. The
/// other layers stay as they are.
fn add_edges(
    graphs: &mut Vec<Vec<Vec<u32>>>,
    from: u32,
    to_list: &Vec<u32>,
    layer: usize,
    m: usize,
)
    requires
        layer < old(graphs)@.len(),
        from < old(graphs)@[layer as int]@.len(),
        forall|i: int|
            0 <= i < to_list@.len() ==> (#[trigger] to_list@[i]) < old(graphs)@[layer as int]@.len(),
        layers_ok(old(graphs)@, m as nat),
    ensures
        same_shape(old(graphs)@, final(graphs)@),
        layers_ok(final(graphs)@, m as nat),
        lists_view(final(graphs)@[layer as int]@) == with_edges(
            lists_view(old(graphs)@[layer as int]@),
            from,
            to_list@,
            m as nat,
        ),
        forall|l: int|
            0 <= l < old(graphs)@.len() && l != layer ==> #[trigger] final(graphs)@[l] == old(graphs)@[l],
{
    let ghost start = lists_view(graphs@[layer as int]@);
    let mut i: usize = 0;
    while i < to_list.len()
        invariant
            i <= to_list@.len(),
            layer < graphs@.len(),
            same_shape(old(graphs)@, graphs@),
            layers_ok(graphs@, m as nat),
            from < old(graphs)@[layer as int]@.len(),
            forall|j: int|
                0 <= j < to_list@.len() ==> (#[trigger] to_list@[j]) < old(graphs)@[layer as int]@.len(),
            start == lists_view(old(graphs)@[layer as int]@),
            lists_view(graphs@[layer as int]@) == linked_out(
                start,
                from as int,
                to_list@.take(i as int),
                m as nat,
            ),
            forall|l: int|
                0 <= l < old(graphs)@.len() && l != layer ==> #[trigger] graphs@[l] == old(graphs)@[l],
        decreases to_list@.len() - i,
    {
        let ghost mid = graphs@;
        assert(mid[layer as int]@.len() == old(graphs)@[layer as int]@.len());
        link(graphs, layer, from as usize, to_list[i], m);
        proof {
            lemma_same_shape(old(graphs)@, mid, graphs@);
            let next = to_list@.take(i + 1);
            assert(next.drop_last() =~= to_list@.take(i as int));
            assert(next.last() == to_list@[i as int]);
        }
        i += 1;
    }
    assert(to_list@.take(i as int) =~= to_list@);
    let ghost out = lists_view(graphs@[layer as int]@);
    let mut k: usize = 0;
    while k < to_list.len()
        invariant
            k <= to_list@.len(),
            layer < graphs@.len(),
            same_shape(old(graphs)@, graphs@),
            layers_ok(graphs@, m as nat),
            from < old(graphs)@[layer as int]@.len(),
            forall|j: int|
                0 <= j < to_list@.len() ==> (#[trigger] to_list@[j]) < old(graphs)@[layer as int]@.len(),
            out == linked_out(start, from as int, to_list@, m as nat),
            start == lists_view(old(graphs)@[layer as int]@),
            lists_view(graphs@[layer as int]@) == linked_back(
                out,
                to_list@.take(k as int),
                from,
                m as nat,
            ),
            forall|l: int|
                0 <= l < old(graphs)@.len() && l != layer ==> #[trigger] graphs@[l] == old(graphs)@[l],
        decreases to_list@.len() - k,
    {
        let ghost mid = graphs@;
        assert(mid[layer as int]@.len() == old(graphs)@[layer as int]@.len());
        link(graphs, layer, to_list[k] as usize, from, m);
        proof {
            lemma_same_shape(old(graphs)@, mid, graphs@);
            let next = to_list@.take(k + 1);
            assert(next.drop_last() =~= to_list@.take(k as int));
            assert(next.last() == to_list@[k as int]);
        }
        k += 1;
    }
    assert(to_list@.take(k as int) =~= to_list@);
}

/// Having the same shape carries over.
proof fn lemma_same_shape(a: Seq<Vec<Vec<u32>>>, b: Seq<Vec<Vec<u32>>>, c: Seq<Vec<Vec<u32>>>)
    requires
        same_shape(a, b),
        same_shape(b, c),
    ensures
        same_shape(a, c),
{
    assert forall|l: int| 0 <= l < a.len() implies (#[trigger] a[l])@.len() == c[l]@.len() by {
        assert(a[l]@.len() == b[l]@.len());
        assert(b[l]@.len() == c[l]@.len());
    }
}

/// What a search for the nodes near stored vector `query` gives in a
/// layer with the link lists `lists`, started at `entry` with room for
/// `ef`, the distances being those that `f` gives between the vector and
/// the others (see [`ByPair`]): a list as the layer search finds it (see
/// [`found`]), by a search that went as [`searched`] says.
pub open spec fn near_nodes<F: Fn(&Vec<u32>, &Vec<u32>) -> u32>(
    vectors: &Vec<Vec<u32>>,
    query: u32,
    f: &F,
    lists: Seq<Seq<u32>>,
    entry: Candidate,
    ef: usize,
    cands: Seq<Candidate>,
) -> bool {
    &&& query < vectors@.len()
    &&& entry.node_id < lists.len()
    &&& found(lists.len(), &ByPair { vectors, query: query as usize, f }, entry, ef, cands)
    &&& exists|work: Seq<Candidate>, taken: nat| #[trigger]
        searched(lists, &ByPair { vectors, query: query as usize, f }, entry, ef, cands, work, taken)
}

/// What the layer search gives for the distances between stored vectors
/// is a list of near nodes.
proof fn lemma_near_nodes<'a, F: Fn(&Vec<u32>, &Vec<u32>) -> u32>(
    view: &ListLayer<'a>,
    metric: &ByPair<'a, F>,
    entry: Candidate,
    ef: usize,
    cands: Seq<Candidate>,
)
    requires
        found(view.node_count(), metric, entry, ef, cands),
        exists|work: Seq<Candidate>, taken: nat| #[trigger]
            searched(layer_lists(view), metric, entry, ef, cands, work, taken),
        entry.node_id < view.lists@.len(),
        view.lists@.len() <= u32::MAX,
        metric.query < metric.vectors@.len(),
        metric.query <= u32::MAX,
    ensures
        near_nodes(
            metric.vectors,
            metric.query as u32,
            metric.f,
            lists_view(view.lists@),
            entry,
            ef,
            cands,
        ),
{
    assert forall|n: int| 0 <= n < view.lists@.len() implies #[trigger] layer_lists(view)[n]
        == lists_view(view.lists@)[n] by {
        assert((n as u32) as int == n);
    }
    assert(layer_lists(view) =~= lists_view(view.lists@));
    assert(*metric == (ByPair {
        vectors: metric.vectors,
        query: (metric.query as u32) as usize,
        f: metric.f,
    }));
}

/// The nodes of the first `m` candidates, or of all where there are fewer.
pub open spec fn nearest_ids(cands: Seq<Candidate>, m: nat) -> Seq<u32> {
    Seq::new(
        if cands.len() < m {
            cands.len()
        } else {
            m
        },
        |j: int| cands[j].node_id,
    )
}

/// Step `k` of an insertion, counted from the top layer: `steps[k]` is
/// what the search found in layer `before.len() - 1 - k`, started at
/// `start` in the top layer and at the closest node of the step before in
/// the others. Above `new_level` the search keeps one node and the layer
/// stays as it was; from `new_level` down it keeps `ef_construction` and
/// the layer gains the edges between `new_id` and the `m` nearest found.
pub open spec fn step_done<F: Fn(&Vec<u32>, &Vec<u32>) -> u32>(
    vectors: &Vec<Vec<u32>>,
    before: Seq<Seq<Seq<u32>>>,
    after: Seq<Seq<Seq<u32>>>,
    params: HnswParams,
    new_id: u32,
    new_level: nat,
    start: Candidate,
    f: &F,
    steps: Seq<Seq<Candidate>>,
    k: int,
) -> bool {
    let l = before.len() - 1 - k;
    let entry = if k == 0 {
        start
    } else {
        steps[k - 1][0]
    };
    if l > new_level {
        &&& near_nodes(vectors, new_id, f, before[l], entry, 1, steps[k])
        &&& after[l] == before[l]
    } else {
        &&& near_nodes(vectors, new_id, f, before[l], entry, params.ef_construction, steps[k])
        &&& after[l] == with_edges(
            before[l],
            new_id,
            nearest_ids(steps[k], params.m as nat),
            params.m as nat,
        )
    }
}

/// Whether `after` is `before` with node `new_id` put in from layer
/// `new_level` down, by the searches `steps`, one for each layer from the
/// top, the first started at `entry_point` with its distance `first`.
#[verifier::opaque]
pub open spec fn inserted<F: Fn(&Vec<u32>, &Vec<u32>) -> u32>(
    vectors: &Vec<Vec<u32>>,
    before: Seq<Seq<Seq<u32>>>,
    after: Seq<Seq<Seq<u32>>>,
    params: HnswParams,
    new_id: u32,
    new_level: nat,
    entry_point: u32,
    f: &F,
    first: u32,
    steps: Seq<Seq<Candidate>>,
) -> bool {
    &&& new_id < vectors@.len()
    &&& entry_point < vectors@.len()
    &&& f.ensures((&vectors@[new_id as int], &vectors@[entry_point as int]), first)
    &&& after.len() == before.len()
    &&& steps.len() == before.len()
    &&& forall|k: int|
        0 <= k < steps.len() ==> #[trigger] step_done(
            vectors,
            before,
            after,
            params,
            new_id,
            new_level,
            Candidate { node_id: entry_point, distance: first },
            f,
            steps,
            k,
        )
}

/// Puts node `new_id` into the graph, from layer `new_level` down.
///
/// From the entry point the search descends through the layers above
/// `new_level`, moving to the nearest node found in each. In each layer
/// from `new_level` down it collects up to `ef_construction` near nodes,
/// links the new node with the `m` nearest of them, and goes on from the
/// nearest.
fn insert_node<F: Fn(&Vec<u32>, &Vec<u32>) -> u32>(
    vectors: &Vec<Vec<u32>>,
    graphs: &mut Vec<Vec<Vec<u32>>>,
    params: HnswParams,
    new_id: u32,
    new_level: usize,
    entry_point: u32,
    f: &F,
)
    requires
        forall|a: &Vec<u32>, b: &Vec<u32>| f.requires((a, b)),
        new_id < vectors@.len(),
        new_level < old(graphs)@.len(),
        shape_ok(old(graphs)@, vectors@.len()),
        layers_ok(old(graphs)@, params.m as nat),
        in_all_layers(old(graphs)@, entry_point),
        forall|l: int| 0 <= l <= new_level ==> new_id < (#[trigger] old(graphs)@[l])@.len(),
    ensures
        same_shape(old(graphs)@, final(graphs)@),
        layers_ok(final(graphs)@, params.m as nat),
        exists|first: u32, steps: Seq<Seq<Candidate>>| #[trigger]
            inserted(
                vectors,
                graph_view(old(graphs)@),
                graph_view(final(graphs)@),
                params,
                new_id,
                new_level as nat,
                entry_point,
                f,
                first,
                steps,
            ),
{
    let metric = ByPair { vectors, query: new_id as usize, f };
    let first = f(&vectors[new_id as usize], &vectors[entry_point as usize]);
    let ghost start = Candidate { node_id: entry_point, distance: first };
    let ghost steps: Seq<Seq<Candidate>> = Seq::empty();
    let mut cur = Candidate { node_id: entry_point, distance: first };
    let mut layer: usize = graphs.len() - 1;
    assert(graphs@[layer as int]@.len() <= vectors@.len());
    while layer > new_level
        invariant
            new_level <= layer < graphs@.len(),
            graphs@ == old(graphs)@,
            metric.vectors == vectors,
            metric.query == new_id,
            metric.f == f,
            new_id < vectors@.len(),
            forall|a: &Vec<u32>, b: &Vec<u32>| f.requires((a, b)),
            shape_ok(graphs@, vectors@.len()),
            layers_ok(graphs@, params.m as nat),
            cur.node_id < graphs@[layer as int]@.len(),
            metric.measures(cur.node_id, Some(cur.distance)),
            steps.len() == graphs@.len() - 1 - layer,
            cur == if steps.len() == 0 {
                start
            } else {
                steps.last()[0]
            },
            forall|k: int|
                0 <= k < steps.len() ==> #[trigger] step_done(
                    vectors,
                    graph_view(old(graphs)@),
                    graph_view(graphs@),
                    params,
                    new_id,
                    new_level as nat,
                    start,
                    f,
                    steps,
                    k,
                ),
        decreases layer,
    {
        let view = ListLayer { lists: &graphs[layer] };
        proof {
            lemma_lists_wf_wider(graphs@[layer as int]@, params.m as nat);
            assert(graphs@[layer as int]@.len() <= vectors@.len());
        }
        let cands = search_layer(&view, &metric, cur, 1);
        proof {
            let earlier = steps;
            steps = steps.push(cands@);
            lemma_near_nodes(&view, &metric, cur, 1, cands@);
            assert(graph_view(old(graphs)@)[layer as int] == lists_view(view.lists@));
            assert forall|k: int| 0 <= k < steps.len() implies #[trigger] step_done(
                vectors,
                graph_view(old(graphs)@),
                graph_view(graphs@),
                params,
                new_id,
                new_level as nat,
                start,
                f,
                steps,
                k,
            ) by {
                if k < earlier.len() {
                    assert(step_done(
                        vectors,
                        graph_view(old(graphs)@),
                        graph_view(graphs@),
                        params,
                        new_id,
                        new_level as nat,
                        start,
                        f,
                        earlier,
                        k,
                    ));
                    assert(steps[k] == earlier[k]);
                    if k > 0 {
                        assert(steps[k - 1] == earlier[k - 1]);
                    }
                }
            }
        }
        cur = cands[0];
        assert(graphs@[layer as int]@.len() <= graphs@[layer - 1]@.len());
        layer -= 1;
    }
    let mut down: usize = new_level + 1;
    while down > 0
        invariant
            down <= new_level + 1,
            new_level < graphs@.len(),
            same_shape(old(graphs)@, graphs@),
            metric.vectors == vectors,
            metric.query == new_id,
            metric.f == f,
            new_id < vectors@.len(),
            forall|a: &Vec<u32>, b: &Vec<u32>| f.requires((a, b)),
            shape_ok(old(graphs)@, vectors@.len()),
            layers_ok(graphs@, params.m as nat),
            forall|l: int| 0 <= l <= new_level ==> new_id < (#[trigger] old(graphs)@[l])@.len(),
            down > 0 ==> cur.node_id < graphs@[down - 1]@.len(),
            metric.measures(cur.node_id, Some(cur.distance)),
            steps.len() == graphs@.len() - down,
            cur == if steps.len() == 0 {
                start
            } else {
                steps.last()[0]
            },
            forall|l: int| 0 <= l < down ==> #[trigger] graphs@[l] == old(graphs)@[l],
            forall|k: int|
                0 <= k < steps.len() ==> #[trigger] step_done(
                    vectors,
                    graph_view(old(graphs)@),
                    graph_view(graphs@),
                    params,
                    new_id,
                    new_level as nat,
                    start,
                    f,
                    steps,
                    k,
                ),
        decreases down,
    {
        let layer = down - 1;
        let ghost mid = graphs@;
        let ghost earlier = steps;
        assert(mid[layer as int]@.len() == old(graphs)@[layer as int]@.len());
        assert(mid[layer as int] == old(graphs)@[layer as int]);
        let mut nearest: Vec<u32> = Vec::new();
        {
            let view = ListLayer { lists: &graphs[layer] };
            proof {
                lemma_lists_wf_wider(graphs@[layer as int]@, params.m as nat);
                assert(old(graphs)@[layer as int]@.len() <= vectors@.len());
            }
            let cands = search_layer(&view, &metric, cur, params.ef_construction);
            let mut i: usize = 0;
            while i < cands.len() && i < params.m
                invariant
                    i <= cands@.len(),
                    i <= params.m,
                    nearest@.len() == i,
                    forall|j: int| 0 <= j < i ==> (#[trigger] nearest@[j]) == cands@[j].node_id,
                decreases cands@.len() - i,
            {
                nearest.push(cands[i].node_id);
                i += 1;
            }
            proof {
                assert(nearest@ =~= nearest_ids(cands@, params.m as nat));
                lemma_near_nodes(&view, &metric, cur, params.ef_construction, cands@);
                assert(graph_view(old(graphs)@)[layer as int] == lists_view(view.lists@));
                steps = steps.push(cands@);
            }
            cur = cands[0];
            assert forall|j: int| 0 <= j < nearest@.len() implies (#[trigger] nearest@[j])
                < mid[layer as int]@.len() by {
                assert(cands@[j].node_id < mid[layer as int]@.len());
            }
        }
        assert(new_id < old(graphs)@[layer as int]@.len());
        add_edges(graphs, new_id, &nearest, layer, params.m);
        proof {
            lemma_same_shape(old(graphs)@, mid, graphs@);
            if layer > 0 {
                assert(old(graphs)@[layer as int]@.len() <= old(graphs)@[layer - 1]@.len());
                assert(graphs@[layer - 1]@.len() == old(graphs)@[layer - 1]@.len());
            }
            assert forall|l: int| 0 <= l < layer implies #[trigger] graphs@[l] == old(graphs)@[l] by {
                assert(graphs@[l] == mid[l]);
            }
            assert forall|k: int| 0 <= k < steps.len() implies #[trigger] step_done(
                vectors,
                graph_view(old(graphs)@),
                graph_view(graphs@),
                params,
                new_id,
                new_level as nat,
                start,
                f,
                steps,
                k,
            ) by {
                if k < earlier.len() {
                    assert(step_done(
                        vectors,
                        graph_view(old(graphs)@),
                        graph_view(mid),
                        params,
                        new_id,
                        new_level as nat,
                        start,
                        f,
                        earlier,
                        k,
                    ));
                    assert(steps[k] == earlier[k]);
                    if k > 0 {
                        assert(steps[k - 1] == earlier[k - 1]);
                    }
                    assert(graphs@[old(graphs)@.len() - 1 - k] == mid[old(graphs)@.len() - 1 - k]);
                } else {
                    assert(graph_view(graphs@)[layer as int] == lists_view(graphs@[layer as int]@));
                }
            }
        }
        down -= 1;
    }
    reveal(inserted);
    assert(inserted(
        vectors,
        graph_view(old(graphs)@),
        graph_view(graphs@),
        params,
        new_id,
        new_level as nat,
        entry_point,
        f,
        first,
        steps,
    ));
}

/// A layer with at most `m` links per node has at most `usize::MAX`.
proof fn lemma_lists_wf_wider(lists: Seq<Vec<u32>>, m: nat)
    requires
        lists_wf(lists, m),
    ensures
        lists_wf(lists, usize::MAX as nat),
{
    assert forall|n: int| 0 <= n < lists.len() implies (#[trigger] lists[n])@.len()
        <= usize::MAX as nat by {
        assert(lists[n]@.len() == lists[n].len());
    }
}


/// The layer tag of `node`, looking at the layers below `upto`: the highest
/// of them in which the node has links or is the entry point, 0 if there
/// is none.
pub open spec fn layer_tag(graphs: Seq<Vec<Vec<u32>>>, entry: u32, node: int, upto: int) -> u8
    decreases upto,
{
    if upto <= 0 {
        0
    } else if node < graphs[upto - 1]@.len() && (graphs[upto - 1]@[node]@.len() > 0 || node
        == entry) {
        (upto - 1) as u8
    } else {
        layer_tag(graphs, entry, node, upto - 1)
    }
}

/// The link lists of every layer as sequences.
pub open spec fn graph_view(g: Seq<Vec<Vec<u32>>>) -> Seq<Seq<Seq<u32>>> {
    Seq::new(g.len(), |l: int| lists_view(g[l]@))
}

/// The lists of a layer with empty lists added up to node `id`.
pub open spec fn padded(lists: Seq<Seq<u32>>, id: nat) -> Seq<Seq<u32>> {
    if lists.len() <= id {
        lists + Seq::new((id + 1 - lists.len()) as nat, |n: int| Seq::<u32>::empty())
    } else {
        lists
    }
}

/// The graph with room for node `id` in the layers up to `level`: layers
/// without nodes are added up to `level`, and each layer up to `level`
/// gets empty lists up to node `id`.
pub open spec fn widened(g: Seq<Seq<Seq<u32>>>, level: nat, id: nat) -> Seq<Seq<Seq<u32>>> {
    Seq::new(
        if g.len() > level + 1 {
            g.len()
        } else {
            level + 1
        },
        |l: int|
            {
                let base = if l < g.len() {
                    g[l]
                } else {
                    Seq::<Seq<u32>>::empty()
                };
                if l <= level {
                    padded(base, id)
                } else {
                    base
                }
            },
    )
}

/// Makes room for a new node numbered `id` in the layers up to `level`:
/// layers are added up to `level`, and each layer up to `level` gets empty
/// link lists up to the new node.
fn extend_graph(graphs: &mut Vec<Vec<Vec<u32>>>, level: usize, id: usize, m: usize)
    requires
        level <= MAX_LEVEL,
        id < u32::MAX,
        shape_ok(old(graphs)@, id as nat),
        layers_ok(old(graphs)@, m as nat),
    ensures
        shape_ok(final(graphs)@, (id + 1) as nat),
        layers_ok(final(graphs)@, m as nat),
        final(graphs)@.len() == (if old(graphs)@.len() > level + 1 {
            old(graphs)@.len()
        } else {
            (level + 1) as nat
        }),
        forall|l: int| 0 <= l <= level ==> (#[trigger] final(graphs)@[l])@.len() == id + 1,
        forall|l: int|
            0 <= l < old(graphs)@.len() ==> (#[trigger] old(graphs)@[l])@.len()
                <= final(graphs)@[l]@.len(),
        graph_view(final(graphs)@) == widened(graph_view(old(graphs)@), level as nat, id as nat),
{
    let ghost g0 = graphs@;
    while graphs.len() <= level
        invariant
            level <= MAX_LEVEL,
            g0.len() <= graphs@.len() <= MAX_LEVEL + 1,
            graphs@.len() <= level + 1 || graphs@.len() == g0.len(),
            layers_ok(graphs@, m as nat),
            forall|l: int| 0 <= l < g0.len() ==> (#[trigger] graphs@[l]) == g0[l],
            forall|l: int| g0.len() <= l < graphs@.len() ==> (#[trigger] graphs@[l])@.len() == 0,
        decreases level + 1 - graphs@.len(),
    {
        let ghost before = graphs@;
        graphs.push(Vec::new());
        proof {
            assert forall|l: int| 0 <= l < graphs@.len() implies lists_wf(
                (#[trigger] graphs@[l])@,
                m as nat,
            ) by {
                if l < before.len() {
                    assert(graphs@[l] == before[l]);
                }
            }
        }
    }
    let ghost g1 = graphs@;
    let mut l: usize = 0;
    while l <= level
        invariant
            l <= level + 1,
            level <= MAX_LEVEL,
            level < graphs@.len(),
            graphs@.len() == g1.len(),
            id < u32::MAX,
            shape_ok(g0, id as nat),
            g0.len() <= g1.len(),
            forall|j: int| 0 <= j < g0.len() ==> (#[trigger] g1[j]) == g0[j],
            forall|j: int| g0.len() <= j < g1.len() ==> (#[trigger] g1[j])@.len() == 0,
            layers_ok(graphs@, m as nat),
            forall|j: int| 0 <= j < l ==> (#[trigger] graphs@[j])@.len() == id + 1,
            forall|j: int| l <= j < graphs@.len() ==> (#[trigger] graphs@[j]) == g1[j],
            forall|j: int|
                0 <= j < l ==> lists_view((#[trigger] graphs@[j])@) == padded(
                    lists_view(g1[j]@),
                    id as nat,
                ),
        decreases level + 1 - l,
    {
        assert(graphs@[l as int] == g1[l as int]);
        assert(g1[l as int]@.len() <= id) by {
            if l < g0.len() {
                assert(g1[l as int] == g0[l as int]);
            }
        }
        while graphs[l].len() <= id
            invariant
                l <= level,
                level <= MAX_LEVEL,
                level < graphs@.len(),
                graphs@.len() == g1.len(),
                id < u32::MAX,
                layers_ok(graphs@, m as nat),
                graphs@[l as int]@.len() <= id + 1,
                forall|j: int| 0 <= j < l ==> (#[trigger] graphs@[j])@.len() == id + 1,
                forall|j: int| l < j < graphs@.len() ==> (#[trigger] graphs@[j]) == g1[j],
                forall|j: int|
                    0 <= j < l ==> lists_view((#[trigger] graphs@[j])@) == padded(
                        lists_view(g1[j]@),
                        id as nat,
                    ),
                g1[l as int]@.len() <= graphs@[l as int]@.len(),
                g1[l as int]@.len() <= id,
                forall|n: int|
                    0 <= n < g1[l as int]@.len() ==> (#[trigger] graphs@[l as int]@[n]) == g1[l as int]@[n],
                forall|n: int|
                    g1[l as int]@.len() <= n < graphs@[l as int]@.len() ==> (
                    #[trigger] graphs@[l as int]@[n])@.len() == 0,
            decreases id + 1 - graphs@[l as int]@.len(),
        {
            let ghost before = graphs@;
            graphs[l].push(Vec::new());
            proof {
                let after = graphs@;
                assert(lists_wf(before[l as int]@, m as nat));
                assert forall|j: int| 0 <= j < after.len() implies lists_wf(
                    (#[trigger] after[j])@,
                    m as nat,
                ) by {
                    if j != l {
                        assert(after[j] == before[j]);
                    } else {
                        let lists = after[j]@;
                        let old_lists = before[j]@;
                        assert forall|n: int| 0 <= n < lists.len() implies (
                        #[trigger] lists[n])@.len() <= m by {
                            if n < old_lists.len() {
                                assert(lists[n] == old_lists[n]);
                            }
                        }
                        assert forall|n: int, i: int|
                            0 <= n < lists.len() && 0 <= i < lists[n]@.len() implies (
                        #[trigger] lists[n]@[i]) < lists.len() by {
                            if n < old_lists.len() {
                                assert(lists[n] == old_lists[n]);
                                assert(old_lists[n]@[i] < old_lists.len());
                            }
                        }
                    }
                }
                assert forall|j: int| 0 <= j < l implies (#[trigger] after[j])@.len() == id + 1 by {
                    assert(after[j] == before[j]);
                }
                assert forall|j: int| l < j < after.len() implies (#[trigger] after[j]) == g1[j] by {
                    assert(after[j] == before[j]);
                }
                assert forall|j: int| 0 <= j < l implies lists_view((#[trigger] after[j])@)
                    == padded(lists_view(g1[j]@), id as nat) by {
                    assert(after[j] == before[j]);
                }
                assert forall|n: int| 0 <= n < g1[l as int]@.len() implies (
                #[trigger] after[l as int]@[n]) == g1[l as int]@[n] by {
                    assert(after[l as int]@[n] == before[l as int]@[n]);
                }
                assert forall|n: int|
                    g1[l as int]@.len() <= n < after[l as int]@.len() implies (
                #[trigger] after[l as int]@[n])@.len() == 0 by {
                    if n < before[l as int]@.len() {
                        assert(after[l as int]@[n] == before[l as int]@[n]);
                    }
                }
            }
        }
        proof {
            let now = lists_view(graphs@[l as int]@);
            let then = padded(lists_view(g1[l as int]@), id as nat);
            assert(now.len() == then.len());
            assert forall|n: int| 0 <= n < now.len() implies now[n] =~= then[n] by {
                if n < g1[l as int]@.len() {
                    assert(graphs@[l as int]@[n] == g1[l as int]@[n]);
                } else {
                    assert(graphs@[l as int]@[n]@.len() == 0);
                }
            }
            assert(now =~= then);
        }
        l += 1;
    }
    proof {
        let g = graphs@;
        let wide = widened(graph_view(g0), level as nat, id as nat);
        assert(graph_view(g).len() == wide.len());
        assert forall|j: int| 0 <= j < g.len() implies graph_view(g)[j] == wide[j] by {
            if j <= level {
                assert(lists_view(g[j]@) == padded(lists_view(g1[j]@), id as nat));
                if j < g0.len() {
                    assert(g1[j] == g0[j]);
                } else {
                    assert(g1[j]@.len() == 0);
                    assert(lists_view(g1[j]@) =~= Seq::<Seq<u32>>::empty());
                }
            } else {
                assert(g[j] == g1[j]);
                assert(g1[j] == g0[j]);
            }
        }
        assert(graph_view(g) =~= wide);
        assert forall|j: int| 0 <= j < g.len() implies (#[trigger] g[j])@.len() <= id + 1 by {
            if j > level {
                assert(g[j] == g1[j]);
                assert(g1[j] == g0[j]);
            }
        }
        assert forall|j: int| 0 <= j < g.len() - 1 implies g[j + 1]@.len() <= (#[trigger] g[j])@.len() by {
            if j + 1 > level {
                assert(g[j + 1] == g1[j + 1]);
                assert(g1[j + 1] == g0[j + 1]);
                assert(g0[j + 1]@.len() <= id);
                if j > level {
                    assert(g[j] == g1[j]);
                    assert(g1[j] == g0[j]);
                    assert(g0[j + 1]@.len() <= g0[j]@.len());
                }
            }
        }
        assert forall|j: int| 0 <= j < g0.len() implies (#[trigger] g0[j])@.len() <= g[j]@.len() by {
            if j > level {
                assert(g[j] == g1[j]);
                assert(g1[j] == g0[j]);
            }
        }
    }
}

/// The layer in compressed-sparse-row form over `count` nodes; nodes that
/// the layer does not have get no links.
fn to_csr(lists: &Vec<Vec<u32>>, count: usize, m: usize) -> (r: (Vec<u32>, Vec<usize>))
    requires
        lists_wf(lists@, m as nat),
        lists@.len() <= count,
    ensures
        csr_wf(r.0@, r.1@, count as nat, m as nat),
        forall|n: int| 0 <= n < lists@.len() ==> #[trigger] csr_links(r.0@, r.1@, n) == lists@[n]@,
        forall|n: int|
            lists@.len() <= n < count ==> (#[trigger] csr_links(r.0@, r.1@, n)).len() == 0,
{
    let mut neighbors: Vec<u32> = Vec::new();
    let mut offsets: Vec<usize> = Vec::new();
    offsets.push(0);
    let mut n: usize = 0;
    while n < lists.len()
        invariant
            n <= lists@.len(),
            lists@.len() <= count,
            lists_wf(lists@, m as nat),
            offsets@.len() == n + 1,
            offsets@[n as int] == neighbors@.len(),
            forall|j: int|
                0 <= j < n ==> (#[trigger] offsets@[j]) <= offsets@[j + 1] && offsets@[j + 1]
                    <= neighbors@.len() && offsets@[j + 1] - offsets@[j] <= m,
            forall|k: int| 0 <= k < neighbors@.len() ==> (#[trigger] neighbors@[k]) < count,
            forall|j: int| 0 <= j < n ==> #[trigger] csr_links(neighbors@, offsets@, j) == lists@[j]@,
        decreases lists@.len() - n,
    {
        let ghost nb0 = neighbors@;
        let ghost off0 = offsets@;
        let list = &lists[n];
        let mut i: usize = 0;
        while i < list.len()
            invariant
                i <= list@.len(),
                n < lists@.len(),
                lists@.len() <= count,
                *list == lists@[n as int],
                lists_wf(lists@, m as nat),
                neighbors@ == nb0 + list@.subrange(0, i as int),
                forall|k: int| 0 <= k < neighbors@.len() ==> (#[trigger] neighbors@[k]) < count,
            decreases list@.len() - i,
        {
            assert(lists@[n as int]@[i as int] < lists@.len());
            neighbors.push(list[i]);
            i += 1;
            assert(neighbors@ =~= nb0 + list@.subrange(0, i as int));
        }
        assert(list@.subrange(0, list@.len() as int) =~= list@);
        offsets.push(neighbors.len());
        proof {
            assert forall|j: int| 0 <= j < n + 1 implies #[trigger] csr_links(
                neighbors@,
                offsets@,
                j,
            ) == lists@[j]@ by {
                if j < n {
                    assert(offsets@[j] == off0[j]);
                    assert(offsets@[j + 1] == off0[j + 1]);
                    assert(off0[j] <= off0[j + 1] && off0[j + 1] <= nb0.len());
                    assert(csr_links(neighbors@, offsets@, j) =~= csr_links(nb0, off0, j));
                } else {
                    assert(csr_links(neighbors@, offsets@, j) =~= list@);
                }
            }
            assert forall|j: int| 0 <= j < n + 1 implies (#[trigger] offsets@[j]) <= offsets@[j
                + 1] && offsets@[j + 1] <= neighbors@.len() && offsets@[j + 1] - offsets@[j]
                <= m by {
                if j < n {
                    assert(offsets@[j] == off0[j]);
                    assert(offsets@[j + 1] == off0[j + 1]);
                    assert(off0[j] <= off0[j + 1] && off0[j + 1] <= nb0.len());
                } else {
                    assert(lists@[n as int]@.len() <= m);
                }
            }
        }
        n += 1;
    }
    let ghost off1 = offsets@;
    let filled = lists.len();
    while offsets.len() <= count
        invariant
            filled == lists@.len(),
            filled <= count,
            filled + 1 <= offsets@.len() <= count + 1,
            forall|j: int| 0 <= j <= filled ==> (#[trigger] offsets@[j]) == off1[j],
            forall|j: int| filled <= j < offsets@.len() ==> (#[trigger] offsets@[j]) == neighbors@.len(),
        decreases count + 1 - offsets@.len(),
    {
        offsets.push(neighbors.len());
    }
    proof {
        assert forall|j: int| 0 <= j < count implies (#[trigger] offsets@[j]) <= offsets@[j + 1]
            && offsets@[j + 1] <= neighbors@.len() && offsets@[j + 1] - offsets@[j] <= m by {
            if j < filled {
                assert(offsets@[j] == off1[j]);
                assert(offsets@[j + 1] == off1[j + 1]);
                assert(off1[j] <= off1[j + 1] && off1[j + 1] <= neighbors@.len());
            }
        }
        assert forall|j: int| 0 <= j < filled implies #[trigger] csr_links(
            neighbors@,
            offsets@,
            j,
        ) == lists@[j]@ by {
            assert(offsets@[j] == off1[j]);
            assert(offsets@[j + 1] == off1[j + 1]);
            assert(csr_links(neighbors@, offsets@, j) =~= csr_links(neighbors@, off1, j));
        }
    }
    (neighbors, offsets)
}

/// The highest layer of a node added with `level`: `level`, but at most 16.
pub open spec fn top_level(level: usize) -> nat {
    if level > MAX_LEVEL {
        MAX_LEVEL as nat
    } else {
        level as nat
    }
}

/// Builds the graph node by node.
#[derive(Debug)]
pub struct HnswBuilder {
    params: HnswParams,
    dimension: usize,
    distance: Distance,
    vectors: Vec<Vec<u32>>,
    graphs: Vec<Vec<Vec<u32>>>,
    entry_point: Option<u32>,
}

impl HnswBuilder {
    /// The vectors held.
    pub closed spec fn held(&self) -> Vec<Vec<u32>> {
        self.vectors
    }

    /// The vectors of the nodes, in the order they were added.
    pub open spec fn rows(&self) -> Seq<Vec<u32>> {
        self.held()@
    }

    /// The link lists: for each layer, for each node of it, its links.
    pub closed spec fn graph(&self) -> Seq<Seq<Seq<u32>>> {
        graph_view(self.graphs@)
    }

    /// Number of nodes added.
    pub open spec fn count(&self) -> nat {
        self.rows().len()
    }

    /// The vector of node `i`.
    pub open spec fn stored(&self, i: int) -> Seq<u32> {
        self.rows()[i]@
    }

    /// The entry point, once a node was added.
    pub closed spec fn entry(&self) -> Option<u32> {
        self.entry_point
    }

    /// Number of layers.
    pub open spec fn layer_count(&self) -> nat {
        self.graph().len()
    }

    /// Number of nodes that `layer` holds link lists for.
    pub open spec fn layer_size(&self, layer: int) -> nat {
        self.graph()[layer].len()
    }

    /// The links of `node` in `layer`.
    pub open spec fn links(&self, layer: int, node: int) -> Seq<u32> {
        self.graph()[layer][node]
    }

    /// The layer tag of `node`: the highest layer in which it has links or
    /// is the entry point, 0 if there is none.
    pub closed spec fn tag_of(&self, node: int) -> u8 {
        layer_tag(
            self.graphs@,
            match self.entry_point {
                Some(e) => e,
                None => 0,
            },
            node,
            self.graphs@.len() as int,
        )
    }

    /// The parameters.
    pub closed spec fn settings(&self) -> HnswParams {
        self.params
    }

    /// The dimension.
    pub closed spec fn dim(&self) -> usize {
        self.dimension
    }

    /// The metric.
    pub closed spec fn metric(&self) -> Distance {
        self.distance
    }

    /// The builder's invariant: every vector has the dimension; the graph
    /// has at most 17 layers, the bottom one over all nodes and each over
    /// no more nodes than the one below; no node has more than `m` links
    /// in a layer and every link leads to a node of its layer; and the
    /// entry point, which exists as soon as a node does, is a node of
    /// every layer.
    pub closed spec fn wf(&self) -> bool {
        &&& shape_ok(self.graphs@, self.vectors@.len())
        &&& layers_ok(self.graphs@, self.params.m as nat)
        &&& (self.vectors@.len() == 0) == (self.entry_point is None)
        &&& self.entry_point matches Some(e) ==> in_all_layers(self.graphs@, e)
        &&& forall|i: int|
            0 <= i < self.vectors@.len() ==> (#[trigger] self.vectors@[i])@.len() == self.dimension
    }

    /// Whether `next` is this builder after `vector` was added with
    /// `level`: the vector is stored behind the others; the graph has room
    /// for the new node in the layers up to its top layer; where there was
    /// an entry point, the node is linked in from there (see [`inserted`]);
    /// and the node is the entry point if its top layer is the graph's.
    pub open spec fn added<F: Fn(&Vec<u32>, &Vec<u32>) -> u32>(
        &self,
        next: &HnswBuilder,
        vector: Seq<u32>,
        level: usize,
        f: &F,
    ) -> bool {
        &&& next.settings() == self.settings()
        &&& next.dim() == self.dim()
        &&& next.metric() == self.metric()
        &&& next.rows().len() == self.rows().len() + 1
        &&& next.rows().take(self.rows().len() as int) == self.rows()
        &&& next.rows().last()@ == vector
        &&& next.graph().len() == widened(self.graph(), top_level(level), self.count()).len()
        &&& next.entry() == (if top_level(level) + 1 > self.graph().len() {
            Some(self.count() as u32)
        } else {
            self.entry()
        })
        &&& self.entry() is None ==> next.graph() == widened(
            self.graph(),
            top_level(level),
            self.count(),
        )
        &&& self.entry() is Some ==> exists|first: u32, steps: Seq<Seq<Candidate>>| #[trigger]
            inserted(
                &next.held(),
                widened(self.graph(), top_level(level), self.count()),
                next.graph(),
                self.settings(),
                self.count() as u32,
                top_level(level),
                self.entry().unwrap(),
                f,
                first,
                steps,
            )
    }

    /// Whether `index` is the graph of this builder: the same nodes,
    /// layers, parameters and entry point, each node with its layer tag
    /// and, in every layer, with the links it has here (none in a layer
    /// that does not hold it).
    pub open spec fn built(&self, index: &HnswIndex) -> bool {
        &&& index.wf()
        &&& index.nodes() == self.count()
        &&& index.layer_count() == self.layer_count()
        &&& index.settings() == self.settings()
        &&& index.dim() == self.dim()
        &&& index.metric() == self.metric()
        &&& (self.count() > 1 ==> Some(index.entry()) == self.entry())
        &&& index.tags().len() == self.count()
        &&& forall|n: int| 0 <= n < self.count() ==> #[trigger] index.tags()[n] == self.tag_of(n)
        &&& forall|l: int, n: int|
            0 <= l < self.layer_count() && 0 <= n < self.count() ==> #[trigger] index.links(l, n)
                == (if n < self.layer_size(l) {
                self.links(l, n)
            } else {
                Seq::<u32>::empty()
            })
    }

    /// In a well-formed builder no node has more than `m` links in a
    /// layer, every link leads to a node of its layer, and the entry
    /// point is a node of every layer.
    pub proof fn law_graph_bounded(&self, layer: int, node: int)
        requires
            self.wf(),
            0 <= layer < self.layer_count(),
            0 <= node < self.layer_size(layer),
        ensures
            self.layer_count() <= 17,
            self.layer_size(layer) <= self.count(),
            self.links(layer, node).len() <= self.settings().m,
            forall|i: int|
                0 <= i < self.links(layer, node).len() ==> (#[trigger] self.links(layer, node)[i])
                    < self.layer_size(layer),
            self.entry() matches Some(e) && e < self.layer_size(layer),
    {
        assert(lists_wf(self.graphs@[layer]@, self.params.m as nat));
    }

    /// A builder without nodes.
    pub fn new(dimension: usize, distance: Distance, params: HnswParams) -> (b: HnswBuilder)
        ensures
            b.wf(),
            b.count() == 0,
            b.layer_count() == 0,
            b.entry() is None,
            b.settings() == params,
            b.dim() == dimension,
            b.metric() == distance,
    {
        HnswBuilder {
            params,
            dimension,
            distance,
            vectors: Vec::new(),
            graphs: Vec::new(),
            entry_point: None,
        }
    }

    /// Adds a vector as the next node, assigned to the layers up to
    /// `level` (at most 16), and links it into the graph. `between` gives
    /// the distance between two vectors.
    ///
    /// The first node becomes the entry point; a later node becomes the
    /// entry point when its level is above the top layer. Fails, changing
    /// nothing, with `WrongDimension` when the vector does not have the
    /// dimension, and with `InvalidArgument` when `u32::MAX` nodes are held.
    pub fn add<F: Fn(&Vec<u32>, &Vec<u32>) -> u32>(
        &mut self,
        vector: Vec<u32>,
        level: usize,
        between: &F,
    ) -> (r: Result<u32, Error>)
        requires
            old(self).wf(),
            forall|a: &Vec<u32>, b: &Vec<u32>| between.requires((a, b)),
        ensures
            final(self).wf(),
            final(self).settings() == old(self).settings(),
            final(self).dim() == old(self).dim(),
            final(self).metric() == old(self).metric(),
            vector@.len() != old(self).dim() ==> (r matches Err(
                Error::WrongDimension { expected, got },
            ) && expected == old(self).dim() && got == vector@.len()),
            vector@.len() == old(self).dim() && old(self).count() >= u32::MAX ==> r matches Err(
                Error::InvalidArgument { .. },
            ),
            r is Err ==> {
                &&& final(self).count() == old(self).count()
                &&& final(self).entry() == old(self).entry()
                &&& final(self).layer_count() == old(self).layer_count()
            },
            vector@.len() == old(self).dim() && old(self).count() < u32::MAX ==> {
                let top = if level > MAX_LEVEL {
                    MAX_LEVEL as nat
                } else {
                    level as nat
                };
                &&& r == Ok::<u32, Error>(old(self).count() as u32)
                &&& final(self).count() == old(self).count() + 1
                &&& final(self).stored(old(self).count() as int) == vector@
                &&& forall|i: int|
                    0 <= i < old(self).count() ==> #[trigger] final(self).stored(i)
                        == old(self).stored(i)
                &&& final(self).layer_count() == (if old(self).layer_count() > top + 1 {
                    old(self).layer_count()
                } else {
                    top + 1
                })
                &&& final(self).entry() == (if top + 1 > old(self).layer_count() {
                    Some(old(self).count() as u32)
                } else {
                    old(self).entry()
                })
            },
            r is Ok ==> final(self).rows() == old(self).rows().push(vector),
            r is Ok ==> old(self).added(final(self), vector@, level, between),
    {
        if vector.len() != self.dimension {
            return Err(Error::WrongDimension { expected: self.dimension, got: vector.len() });
        }
        if self.vectors.len() >= 0xFFFF_FFFF {
            return Err(Error::invalid_arg("vectors", "index is full"));
        }
        let top: usize = if level > MAX_LEVEL {
            MAX_LEVEL
        } else {
            level
        };
        let id = self.vectors.len();
        let layers_before = self.graphs.len();
        let ghost old_vectors = self.vectors@;
        let ghost g0 = self.graphs@;
        let ghost first_seen: u32 = 0;
        let ghost steps_seen: Seq<Seq<Candidate>> = Seq::empty();
        self.vectors.push(vector);
        extend_graph(&mut self.graphs, top, id, self.params.m);
        proof {
            assert(self.vectors@ == old_vectors.push(vector));
            assert forall|i: int| 0 <= i < self.vectors@.len() implies (
            #[trigger] self.vectors@[i])@.len() == self.dimension by {
                if i < id {
                    assert(self.vectors@[i] == old_vectors[i]);
                }
            }
        }
        match self.entry_point {
            Some(ep) => {
                let ghost g1 = self.graphs@;
                proof {
                    assert forall|l: int| 0 <= l < g1.len() implies ep < (#[trigger] g1[l])@.len() by {
                        if l < g0.len() {
                            assert(ep < g0[l]@.len());
                            assert(g0[l]@.len() <= g1[l]@.len());
                        } else {
                            assert(g1[l]@.len() == id + 1);
                            assert(ep < g0[0]@.len());
                        }
                    }
                }
                insert_node(
                    &self.vectors,
                    &mut self.graphs,
                    self.params,
                    id as u32,
                    top,
                    ep,
                    between,
                );
                proof {
                    let g2 = self.graphs@;
                    let (first, steps) = choose|first: u32, steps: Seq<Seq<Candidate>>| #[trigger]
                        inserted(
                            &self.vectors,
                            graph_view(g1),
                            graph_view(g2),
                            self.params,
                            id as u32,
                            top as nat,
                            ep,
                            between,
                            first,
                            steps,
                        );
                    assert(graph_view(g1) == widened(graph_view(g0), top as nat, id as nat));
                    first_seen = first;
                    steps_seen = steps;
                    lemma_shape_kept(g1, g2, (id + 1) as nat);
                    assert forall|l: int| 0 <= l < g2.len() implies ep < (#[trigger] g2[l])@.len() by {
                        assert(g1[l]@.len() == g2[l]@.len());
                    }
                    if top + 1 > g0.len() {
                        assert forall|l: int| 0 <= l < g2.len() implies id < (
                        #[trigger] g2[l])@.len() by {
                            assert(g1[l]@.len() == g2[l]@.len());
                            assert(g1[l]@.len() == id + 1);
                        }
                    }
                }
                if top + 1 > layers_before {
                    self.entry_point = Some(id as u32);
                }
            },
            None => {
                self.entry_point = Some(id as u32);
            },
        }
        proof {
            assert(top as nat == top_level(level));
            assert(self.rows().take(old(self).rows().len() as int) =~= old(self).rows());
            assert(self.rows().last() == vector);
            assert(graph_view(old(self).graphs@).len() == old(self).graphs@.len());
            if let Some(ep) = old(self).entry_point {
                assert(inserted(
                    &self.held(),
                    widened(old(self).graph(), top_level(level), old(self).count()),
                    self.graph(),
                    old(self).settings(),
                    old(self).count() as u32,
                    top_level(level),
                    old(self).entry().unwrap(),
                    between,
                    first_seen,
                    steps_seen,
                ));
            }
        }
        Ok(id as u32)
    }

    /// Turns the builder into a graph in compressed-sparse-row form.
    /// Fails with `InvalidArgument` when no node was added.
    pub fn build(self) -> (r: Result<HnswIndex, Error>)
        requires
            self.wf(),
        ensures
            self.count() == 0 ==> r matches Err(Error::InvalidArgument { .. }),
            self.count() > 0 ==> (r matches Ok(index) && self.built(&index)),
            self.count() > 0 ==> {
                &&& r matches Ok(index)
                &&& index.wf()
                &&& index.nodes() == self.count()
                &&& index.layer_count() == self.layer_count()
                &&& index.settings() == self.settings()
                &&& index.dim() == self.dim()
                &&& index.metric() == self.metric()
                &&& (self.count() > 1 ==> Some(index.entry()) == self.entry())
                &&& index.tags().len() == self.count()
                &&& forall|n: int| 0 <= n < self.count() ==> #[trigger] index.tags()[n] == self.tag_of(n)
                &&& forall|l: int, n: int|
                    0 <= l < self.layer_count() && 0 <= n < self.count() ==> #[trigger] index.links(
                        l,
                        n,
                    ) == (if n < self.layer_size(l) {
                        self.links(l, n)
                    } else {
                        Seq::<u32>::empty()
                    })
            },
    {
        if self.vectors.len() == 0 {
            return Err(Error::invalid_arg("vectors", "cannot build empty index"));
        }
        let num_nodes = self.vectors.len();
        let num_layers = self.graphs.len();
        let entry_point = match self.entry_point {
            Some(e) => e,
            None => 0,
        };
        let mut layers: Vec<u8> = Vec::new();
        let mut n: usize = 0;
        while n < num_nodes
            invariant
                n <= num_nodes,
                layers@.len() == n,
                forall|k: int| 0 <= k < n ==> #[trigger] layers@[k] == 0,
            decreases num_nodes - n,
        {
            layers.push(0);
            n += 1;
        }
        let mut layer_neighbors: Vec<Vec<u32>> = Vec::new();
        let mut layer_offsets: Vec<Vec<usize>> = Vec::new();
        let mut l: usize = 0;
        while l < num_layers
            invariant
                l <= num_layers,
                num_layers == self.graphs@.len(),
                num_layers <= MAX_LEVEL + 1,
                num_nodes == self.vectors@.len(),
                self.wf(),
                layers@.len() == num_nodes,
                entry_point == (match self.entry_point {
                    Some(e) => e,
                    None => 0u32,
                }),
                forall|n: int|
                    0 <= n < num_nodes ==> #[trigger] layers@[n] == layer_tag(
                        self.graphs@,
                        entry_point,
                        n,
                        l as int,
                    ),
                layer_neighbors@.len() == l,
                layer_offsets@.len() == l,
                forall|j: int|
                    0 <= j < l ==> csr_wf(
                        (#[trigger] layer_neighbors@[j])@,
                        layer_offsets@[j]@,
                        num_nodes as nat,
                        self.params.m as nat,
                    ),
                forall|j: int, node: int|
                    0 <= j < l && 0 <= node < num_nodes ==> #[trigger] csr_links(
                        layer_neighbors@[j]@,
                        layer_offsets@[j]@,
                        node,
                    ) == (if node < self.graphs@[j]@.len() {
                        self.graphs@[j]@[node]@
                    } else {
                        Seq::<u32>::empty()
                    }),
            decreases num_layers - l,
        {
            let graph = &self.graphs[l];
            assert(lists_wf(self.graphs@[l as int]@, self.params.m as nat));
            let mut node: usize = 0;
            while node < graph.len()
                invariant
                    node <= graph@.len(),
                    graph@.len() <= num_nodes,
                    layers@.len() == num_nodes,
                    l <= MAX_LEVEL,
                    l < self.graphs@.len(),
                    *graph == self.graphs@[l as int],
                    forall|n: int|
                        0 <= n < node ==> #[trigger] layers@[n] == layer_tag(
                            self.graphs@,
                            entry_point,
                            n,
                            l as int + 1,
                        ),
                    forall|n: int|
                        node <= n < num_nodes ==> #[trigger] layers@[n] == layer_tag(
                            self.graphs@,
                            entry_point,
                            n,
                            l as int,
                        ),
                decreases graph@.len() - node,
            {
                if graph[node].len() > 0 || node == entry_point as usize {
                    layers[node] = l as u8;
                }
                node += 1;
            }
            assert forall|n: int| 0 <= n < num_nodes implies #[trigger] layers@[n] == layer_tag(
                self.graphs@,
                entry_point,
                n,
                l as int + 1,
            ) by {}
            let (neighbors, offsets) = to_csr(graph, num_nodes, self.params.m);
            let ghost nbs = layer_neighbors@;
            let ghost offs = layer_offsets@;
            layer_neighbors.push(neighbors);
            layer_offsets.push(offsets);
            proof {
                assert forall|j: int| 0 <= j < l + 1 implies csr_wf(
                    (#[trigger] layer_neighbors@[j])@,
                    layer_offsets@[j]@,
                    num_nodes as nat,
                    self.params.m as nat,
                ) by {
                    if j < l {
                        assert(layer_neighbors@[j] == nbs[j]);
                        assert(layer_offsets@[j] == offs[j]);
                    }
                }
                assert forall|j: int, node: int|
                    0 <= j < l + 1 && 0 <= node < num_nodes implies #[trigger] csr_links(
                    layer_neighbors@[j]@,
                    layer_offsets@[j]@,
                    node,
                ) == (if node < self.graphs@[j]@.len() {
                    self.graphs@[j]@[node]@
                } else {
                    Seq::<u32>::empty()
                }) by {
                    if j < l {
                        assert(layer_neighbors@[j] == nbs[j]);
                        assert(layer_offsets@[j] == offs[j]);
                        assert(csr_links(nbs[j]@, offs[j]@, node) == (if node
                            < self.graphs@[j]@.len() {
                            self.graphs@[j]@[node]@
                        } else {
                            Seq::<u32>::empty()
                        }));
                    } else {
                        if node >= self.graphs@[j]@.len() {
                            assert(csr_links(neighbors@, offsets@, node).len() == 0);
                            assert(csr_links(neighbors@, offsets@, node) =~= Seq::<u32>::empty());
                        }
                    }
                }
            }
            l += 1;
        }
        Ok(
            HnswIndex {
                params: self.params,
                dimension: self.dimension,
                distance: self.distance,
                num_nodes,
                entry_point,
                num_layers,
                layers,
                layer_neighbors,
                layer_offsets,
            },
        )
    }

    /// The vectors of the nodes, in order.
    pub fn vectors(&self) -> (r: &Vec<Vec<u32>>)
        ensures
            r@.len() == self.count(),
            forall|i: int| 0 <= i < r@.len() ==> (#[trigger] r@[i])@ == self.stored(i),
    {
        &self.vectors
    }
}

/// A graph of the same shape over the same nodes keeps a good shape.
proof fn lemma_shape_kept(a: Seq<Vec<Vec<u32>>>, b: Seq<Vec<Vec<u32>>>, count: nat)
    requires
        shape_ok(a, count),
        same_shape(a, b),
    ensures
        shape_ok(b, count),
{
    assert forall|l: int| 0 <= l < b.len() implies (#[trigger] b[l])@.len() <= count by {
        assert(a[l]@.len() == b[l]@.len());
    }
    assert forall|l: int| 0 <= l < b.len() - 1 implies b[l + 1]@.len() <= (#[trigger] b[l])@.len() by {
        assert(a[l]@.len() == b[l]@.len());
        assert(a[l + 1]@.len() == b[l + 1]@.len());
        assert(a[l + 1]@.len() <= a[l]@.len());
    }
    if count > 0 {
        assert(a[0]@.len() == b[0]@.len());
    }
}

} // verus!
