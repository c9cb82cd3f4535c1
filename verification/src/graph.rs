//! The streaming step graph and its shortest-path extraction.
//!
//! Nodes are `(time, state)` pairs created as rows stream in; edges go from
//! the previous frontier to the nodes of the newest row, weighted by the
//! cost model. Because every edge leads from an older node to a newer one,
//! node ids grow along every path, and the cheapest start-to-frontier path
//! can be extracted by one forward relaxation pass over the ids.

use crate::cost::{total_cost, total_cost_spec, COST_CAP};
use crate::extensions::Key;
use crate::feet::{
    foot_placement_permutations, placement_in, toes_have_heels, valid_placement, FootPart,
    FootPlacement,
};
use crate::stage::{wf_stage, DanceStage};
use crate::state::{appended_final, wf_state, State};
use vstd::prelude::*;

verus! {

/// A node of the step graph: the foot state a row left behind, at its time.
/// The synthetic start node carries the smallest representable time.
#[derive(Debug, Clone, PartialEq, Eq, Hash)]
pub struct GraphState {
    pub time: i64,
    pub state: State,
}

impl GraphState {
    pub fn new(time: i64, state: State) -> (r: GraphState)
        ensures
            r.time == time,
            r.state == state,
    {
        GraphState { time, state }
    }
}

/// `r` is the state that playing placement `p` over `prev` leaves behind.
pub open spec fn is_appended(prev: State, p: Seq<FootPart>, r: State) -> bool {
    &&& r.activated_columns@ == p
    &&& r.final_columns@.len() == p.len()
    &&& forall|c: int|
        0 <= c < p.len() ==> r.final_columns@[c] == appended_final(prev.final_columns@, p, c)
}

/// Two states hold the same columns.
pub open spec fn state_views_equal(a: State, b: State) -> bool {
    a.activated_columns@ == b.activated_columns@ && a.final_columns@ == b.final_columns@
}

/// Every edge leads from a lower node id to a strictly higher one, stays
/// inside the graph, and carries a capped weight.
pub open spec fn wf_edges(edges: Seq<Vec<(usize, u64)>>) -> bool {
    forall|u: int, k: int|
        0 <= u < edges.len() && 0 <= k < edges[u]@.len() ==> u < (#[trigger] edges[u]@[k]).0
            < edges.len() && edges[u]@[k].1 <= COST_CAP
}

/// No adjacency list repeats an exact (target, weight) pair: parallel
/// edges between the same nodes exist only with distinct weights.
pub open spec fn edges_deduplicated(edges: Seq<Vec<(usize, u64)>>) -> bool {
    forall|u: int, k1: int, k2: int|
        0 <= u < edges.len() && 0 <= k1 < k2 < edges[u]@.len() ==> (#[trigger] edges[u]@[k1]) != (
        #[trigger] edges[u]@[k2])
}

/// Node `v` has an in-edge from some lower-numbered node.
pub open spec fn has_in_edge(edges: Seq<Vec<(usize, u64)>>, v: int) -> bool {
    exists|u: int, k: int|
        0 <= u < v && 0 <= k < edges[u]@.len() && (#[trigger] edges[u]@[k]).0 == v
}

/// The time gap an edge out of node `u` spans when the new row plays at
/// `time`: unbounded out of the start node, the microsecond difference
/// otherwise.
pub open spec fn dt_spec(nodes: Seq<GraphState>, u: int, time: i64) -> Option<u64> {
    if u == 0 {
        Option::None
    } else {
        Some((time - nodes[u].time) as u64)
    }
}

/// Some out-edge of node `u` leads to a node at `time` holding the state
/// that placement `p` produces over `u`'s state.
pub open spec fn edge_for_placement(
    nodes: Seq<GraphState>,
    edges: Seq<Vec<(usize, u64)>>,
    u: int,
    p: Seq<FootPart>,
    time: i64,
) -> bool {
    exists|k: int|
        0 <= k < edges[u]@.len() && is_appended(
            nodes[u].state,
            p,
            nodes[(#[trigger] edges[u]@[k]).0 as int].state,
        ) && nodes[edges[u]@[k].0 as int].time == time
}

/// Node `v` was made by this row: it carries the row's time and holds the
/// state some legal placement produces over some frontier state.
pub open spec fn node_origin_ok(
    nodes: Seq<GraphState>,
    old_nodes: Seq<GraphState>,
    old_queue: Seq<usize>,
    stage: DanceStage,
    row: Seq<Key>,
    time: i64,
    v: int,
) -> bool {
    &&& nodes[v].time == time
    &&& exists|qj: int, p: Seq<FootPart>|
        0 <= qj < old_queue.len() && valid_placement(stage, row, p) && #[trigger] is_appended(
            old_nodes[old_queue[qj] as int].state,
            p,
            nodes[v].state,
        )
}

/// Edge `(u, k)` was added by this row: it starts on a frontier node, ends
/// on a node of this row, carries the cost model's weight for its endpoint
/// states, and embodies some legal placement.
pub open spec fn new_edge_ok(
    nodes: Seq<GraphState>,
    edges: Seq<Vec<(usize, u64)>>,
    old_n: int,
    old_queue: Seq<usize>,
    stage: DanceStage,
    row: Seq<Key>,
    time: i64,
    u: int,
    k: int,
) -> bool {
    let e = edges[u]@[k];
    &&& old_n <= e.0 < nodes.len()
    &&& exists|qj: int| 0 <= qj < old_queue.len() && (#[trigger] old_queue[qj]) == u
    &&& e.1 == total_cost_spec(
        stage,
        row,
        nodes[u].state,
        nodes[e.0 as int].state,
        dt_spec(nodes, u, time),
    )
    &&& exists|p: Seq<FootPart>|
        #[trigger] valid_placement(stage, row, p) && is_appended(
            nodes[u].state,
            p,
            nodes[e.0 as int].state,
        )
}

/// An `edge_for_placement` witness survives any growth of the graph that
/// keeps the existing nodes and the existing out-edges of `u` in place.
proof fn lemma_edge_for_placement_stable(
    nodes1: Seq<GraphState>,
    edges1: Seq<Vec<(usize, u64)>>,
    nodes2: Seq<GraphState>,
    edges2: Seq<Vec<(usize, u64)>>,
    u: int,
    p: Seq<FootPart>,
    time: i64,
)
    requires
        edge_for_placement(nodes1, edges1, u, p, time),
        0 <= u < edges1.len(),
        edges1.len() == nodes1.len(),
        wf_edges(edges1),
        nodes2.len() >= nodes1.len(),
        forall|i: int| 0 <= i < nodes1.len() ==> nodes2[i] == nodes1[i],
        edges2.len() >= edges1.len(),
        edges2[u]@.len() >= edges1[u]@.len(),
        forall|k: int| 0 <= k < edges1[u]@.len() ==> edges2[u]@[k] == edges1[u]@[k],
    ensures
        edge_for_placement(nodes2, edges2, u, p, time),
{
    let k = choose|k: int|
        0 <= k < edges1[u]@.len() && is_appended(
            nodes1[u].state,
            p,
            nodes1[(#[trigger] edges1[u]@[k]).0 as int].state,
        ) && nodes1[edges1[u]@[k].0 as int].time == time;
    assert(edges2[u]@[k] == edges1[u]@[k]);
    assert(edges1[u]@[k].0 < nodes1.len());
    assert(is_appended(nodes2[u].state, p, nodes2[(edges2[u]@[k]).0 as int].state));
}

/// A `node_origin_ok` fact survives growth that keeps node `v` in place.
proof fn lemma_node_origin_stable(
    nodes1: Seq<GraphState>,
    nodes2: Seq<GraphState>,
    old_nodes: Seq<GraphState>,
    old_queue: Seq<usize>,
    stage: DanceStage,
    row: Seq<Key>,
    time: i64,
    v: int,
)
    requires
        node_origin_ok(nodes1, old_nodes, old_queue, stage, row, time, v),
        0 <= v < nodes1.len(),
        nodes2.len() >= nodes1.len(),
        forall|i: int| 0 <= i < nodes1.len() ==> nodes2[i] == nodes1[i],
    ensures
        node_origin_ok(nodes2, old_nodes, old_queue, stage, row, time, v),
{
    let (qj, p) = choose|qj: int, p: Seq<FootPart>|
        0 <= qj < old_queue.len() && valid_placement(stage, row, p) && #[trigger] is_appended(
            old_nodes[old_queue[qj] as int].state,
            p,
            nodes1[v].state,
        );
    assert(is_appended(old_nodes[old_queue[qj] as int].state, p, nodes2[v].state));
}

/// A `new_edge_ok` fact survives growth that keeps the edge and both of its
/// endpoints in place.
proof fn lemma_new_edge_stable(
    nodes1: Seq<GraphState>,
    edges1: Seq<Vec<(usize, u64)>>,
    nodes2: Seq<GraphState>,
    edges2: Seq<Vec<(usize, u64)>>,
    old_n: int,
    old_queue: Seq<usize>,
    stage: DanceStage,
    row: Seq<Key>,
    time: i64,
    u: int,
    k: int,
)
    requires
        new_edge_ok(nodes1, edges1, old_n, old_queue, stage, row, time, u, k),
        0 <= u < edges1.len(),
        0 <= k < edges1[u]@.len(),
        edges1.len() == nodes1.len(),
        wf_edges(edges1),
        nodes2.len() >= nodes1.len(),
        forall|i: int| 0 <= i < nodes1.len() ==> nodes2[i] == nodes1[i],
        edges2.len() >= edges1.len(),
        edges2[u]@.len() >= edges1[u]@.len(),
        forall|j: int| 0 <= j < edges1[u]@.len() ==> edges2[u]@[j] == edges1[u]@[j],
    ensures
        new_edge_ok(nodes2, edges2, old_n, old_queue, stage, row, time, u, k),
{
    let e = edges1[u]@[k];
    assert(edges2[u]@[k] == e);
    assert(e.0 < nodes1.len());
    assert(nodes2[e.0 as int] == nodes1[e.0 as int]);
    assert(nodes2[u] == nodes1[u]);
    assert(dt_spec(nodes2, u, time) == dt_spec(nodes1, u, time));
    let p = choose|p: Seq<FootPart>|
        #[trigger] valid_placement(stage, row, p) && is_appended(
            nodes1[u].state,
            p,
            nodes1[e.0 as int].state,
        );
    assert(is_appended(nodes2[u].state, p, nodes2[e.0 as int].state));
}

/// An in-edge survives any growth that keeps existing adjacency prefixes.
proof fn lemma_has_in_edge_stable(
    edges1: Seq<Vec<(usize, u64)>>,
    edges2: Seq<Vec<(usize, u64)>>,
    w: int,
)
    requires
        has_in_edge(edges1, w),
        w <= edges1.len(),
        edges2.len() >= edges1.len(),
        forall|u: int|
            0 <= u < edges1.len() ==> edges2[u]@.len() >= edges1[u]@.len() && (forall|k: int|
                0 <= k < edges1[u]@.len() ==> edges2[u]@[k] == edges1[u]@[k]),
    ensures
        has_in_edge(edges2, w),
{
    let (u, k) = choose|u: int, k: int|
        0 <= u < w && 0 <= k < edges1[u]@.len() && (#[trigger] edges1[u]@[k]).0 == w;
    assert(edges2[u]@[k] == edges1[u]@[k]);
    assert((edges2[u]@[k]).0 == w);
}

/// Appends one out-edge to the adjacency list of node `i`.
fn push_edge(edges: &mut Vec<Vec<(usize, u64)>>, i: usize, x: (usize, u64))
    requires
        i < old(edges)@.len(),
    ensures
        final(edges)@.len() == old(edges)@.len(),
        final(edges)@[i as int]@ == old(edges)@[i as int]@.push(x),
        forall|j: int|
            0 <= j < old(edges)@.len() && j != i ==> final(edges)@[j] == old(edges)@[j],
{
    edges[i].push(x);
}

/// `p` is a chain of edges (each a node id and an out-edge slot) leading
/// from node `from` to node `to`; the empty chain relates a node to itself.
pub open spec fn path_ok(
    edges: Seq<Vec<(usize, u64)>>,
    p: Seq<(int, int)>,
    from: int,
    to: int,
) -> bool {
    &&& forall|i: int|
        0 <= i < p.len() ==> 0 <= (#[trigger] p[i]).0 < edges.len() && 0 <= p[i].1
            < edges[p[i].0]@.len()
    &&& (p.len() == 0 ==> from == to)
    &&& (p.len() > 0 ==> p[0].0 == from && (edges[p[p.len() - 1].0]@[p[p.len() - 1].1]).0 == to)
    &&& forall|i: int|
        0 <= i < p.len() - 1 ==> (edges[(#[trigger] p[i]).0]@[p[i].1]).0 == p[i + 1].0
}

/// The summed weight of a chain of edges.
pub open spec fn path_cost(edges: Seq<Vec<(usize, u64)>>, p: Seq<(int, int)>) -> int
    decreases p.len(),
{
    if p.len() == 0 {
        0
    } else {
        path_cost(edges, p.drop_last()) + (edges[p.last().0]@[p.last().1]).1
    }
}

/// Dropping the last edge of a non-empty path leaves a path to that edge's
/// source.
proof fn lemma_path_prefix(edges: Seq<Vec<(usize, u64)>>, p: Seq<(int, int)>, from: int, to: int)
    requires
        path_ok(edges, p, from, to),
        p.len() > 0,
    ensures
        path_ok(edges, p.drop_last(), from, p.last().0),
{
    let q = p.drop_last();
    assert(forall|i: int| 0 <= i < q.len() ==> q[i] == p[i]);
}

/// Along a path all edge sources lie strictly below the destination.
proof fn lemma_sources_below(edges: Seq<Vec<(usize, u64)>>, p: Seq<(int, int)>, from: int, to: int)
    requires
        wf_edges(edges),
        path_ok(edges, p, from, to),
    ensures
        forall|i: int| 0 <= i < p.len() ==> (#[trigger] p[i]).0 < to,
    decreases p.len(),
{
    if p.len() > 0 {
        let q = p.drop_last();
        lemma_path_prefix(edges, p, from, to);
        lemma_sources_below(edges, q, from, p.last().0);
        assert(p.last().0 < to);
        assert forall|i: int| 0 <= i < p.len() implies (#[trigger] p[i]).0 < to by {
            if i < p.len() - 1 {
                assert(q[i] == p[i]);
                assert(q[i].0 < p.last().0);
            }
        }
    }
}

/// Path weights are sums of unsigned weights, so they are non-negative.
proof fn lemma_path_cost_nonneg(edges: Seq<Vec<(usize, u64)>>, p: Seq<(int, int)>)
    ensures
        path_cost(edges, p) >= 0,
    decreases p.len(),
{
    if p.len() > 0 {
        lemma_path_cost_nonneg(edges, p.drop_last());
    }
}

/// Extending a path by one edge out of its destination extends its cost by
/// that edge's weight.
proof fn lemma_path_extend(
    edges: Seq<Vec<(usize, u64)>>,
    p: Seq<(int, int)>,
    from: int,
    u: int,
    k: int,
)
    requires
        path_ok(edges, p, from, u),
        0 <= u < edges.len(),
        0 <= k < edges[u]@.len(),
    ensures
        path_ok(edges, p.push((u, k)), from, (edges[u]@[k]).0 as int),
        path_cost(edges, p.push((u, k))) == path_cost(edges, p) + (edges[u]@[k]).1,
{
    let q = p.push((u, k));
    assert(forall|i: int| 0 <= i < p.len() ==> q[i] == p[i]);
    assert(q.last() == (u, k));
    assert(q.drop_last() =~= p);
}

/// Prepending an edge whose target is the path's source keeps it a path and
/// adds the edge's weight.
proof fn lemma_path_prepend(
    edges: Seq<Vec<(usize, u64)>>,
    p: Seq<(int, int)>,
    mid: int,
    to: int,
    u: int,
    k: int,
)
    requires
        path_ok(edges, p, mid, to),
        0 <= u < edges.len(),
        0 <= k < edges[u]@.len(),
        (edges[u]@[k]).0 == mid,
    ensures
        path_ok(edges, seq![(u, k)] + p, u, if p.len() == 0 {
            mid
        } else {
            to
        }),
        path_cost(edges, seq![(u, k)] + p) == (edges[u]@[k]).1 + path_cost(edges, p),
    decreases p.len(),
{
    let q = seq![(u, k)] + p;
    assert(q.len() == p.len() + 1);
    assert(q[0] == (u, k));
    assert(forall|i: int| 1 <= i < q.len() ==> q[i] == p[i - 1]);
    assert forall|i: int| 0 <= i < q.len() implies 0 <= (#[trigger] q[i]).0 < edges.len() && 0
        <= q[i].1 < edges[q[i].0]@.len() by {
        if i >= 1 {
            assert(q[i] == p[i - 1]);
        }
    }
    assert forall|i: int| 0 <= i < q.len() - 1 implies (edges[(#[trigger] q[i]).0]@[q[i].1]).0
        == q[i + 1].0 by {
        if i == 0 {
            if p.len() > 0 {
                assert(q[1] == p[0]);
            }
        } else {
            assert(q[i] == p[i - 1] && q[i + 1] == p[i]);
        }
    }
    if p.len() == 0 {
        assert(q.len() == 1);
        assert(q.drop_last() =~= Seq::<(int, int)>::empty());
        assert(q.last() == (u, k));
        assert(path_cost(edges, q) == path_cost(edges, q.drop_last()) + (
        edges[q.last().0]@[q.last().1]).1);
        assert(path_cost(edges, q.drop_last()) == 0);
        assert(path_cost(edges, p) == 0);
    } else {
        lemma_path_prefix(edges, p, mid, to);
        lemma_path_prepend(edges, p.drop_last(), mid, p.last().0, u, k);
        assert(q.drop_last() =~= seq![(u, k)] + p.drop_last());
        assert(q.last() == p.last());
        assert(q[q.len() - 1] == p[p.len() - 1]);
        assert(path_cost(edges, q) == path_cost(edges, q.drop_last()) + (
        edges[q.last().0]@[q.last().1]).1);
        assert(path_cost(edges, q.drop_last()) == (edges[u]@[k]).1 + path_cost(
            edges,
            p.drop_last(),
        ));
        assert(path_cost(edges, p) == path_cost(edges, p.drop_last()) + (
        edges[p.last().0]@[p.last().1]).1);
    }
    assert(path_cost(edges, q) == (edges[u]@[k]).1 + path_cost(edges, p));
    assert(path_ok(edges, q, u, if p.len() == 0 { mid } else { to }));
}

/// In a graph whose every node has an in-edge from below, every node is
/// reachable from the start node.
proof fn lemma_reachable(edges: Seq<Vec<(usize, u64)>>, v: int)
    requires
        wf_edges(edges),
        forall|w: int| 1 <= w < edges.len() ==> #[trigger] has_in_edge(edges, w),
        0 <= v < edges.len(),
    ensures
        exists|p: Seq<(int, int)>| #[trigger] path_ok(edges, p, 0, v),
    decreases v,
{
    if v == 0 {
        let p = Seq::<(int, int)>::empty();
        assert(path_ok(edges, p, 0, 0));
    } else {
        assert(has_in_edge(edges, v));
        let (u, k) = choose|u: int, k: int|
            0 <= u < v && 0 <= k < edges[u]@.len() && (#[trigger] edges[u]@[k]).0 == v;
        lemma_reachable(edges, u);
        let p = choose|p: Seq<(int, int)>| #[trigger] path_ok(edges, p, 0, u);
        lemma_path_extend(edges, p, 0, u, k);
        assert(path_ok(edges, p.push((u, k)), 0, v));
    }
}

/// The distance entry holds a value.
pub open spec fn dsome(o: Option<u128>) -> bool {
    o is Some
}

/// The value of a distance entry (arbitrary placeholder when absent).
pub open spec fn dval(o: Option<u128>) -> int {
    match o {
        Some(v) => v as int,
        Option::None => -1,
    }
}

/// Every settled distance is witnessed by its predecessor edge: the chain
/// of predecessors walks back to the start, summing exactly the distance.
pub open spec fn chain_ok(
    edges: Seq<Vec<(usize, u64)>>,
    dist: Seq<Option<u128>>,
    pred: Seq<Option<(usize, usize)>>,
) -> bool {
    forall|v: int|
        0 <= v < dist.len() && #[trigger] dsome(dist[v]) ==> {
            &&& 0 <= dval(dist[v]) <= v * (COST_CAP as int)
            &&& (v == 0 ==> dval(dist[v]) == 0)
            &&& (v > 0 ==> match pred[v] {
                Some(pk) => 0 <= (pk.0 as int) < v && 0 <= (pk.1 as int) < edges[pk.0 as int]@.len()
                    && ((edges[pk.0 as int]@[pk.1 as int]).0 as int) == v && dsome(
                    dist[pk.0 as int],
                ) && dval(dist[pk.0 as int]) + (edges[pk.0 as int]@[pk.1 as int]).1 == dval(
                    dist[v],
                ),
                Option::None => false,
            })
        }
}

/// Distances dominate every path whose edge sources all lie below `u`.
pub open spec fn relaxed_below(edges: Seq<Vec<(usize, u64)>>, dist: Seq<Option<u128>>, u: int) -> bool {
    forall|v: int, p: Seq<(int, int)>|
        #[trigger] path_ok(edges, p, 0, v) && 0 <= v < dist.len() && (forall|i: int|
            0 <= i < p.len() ==> (#[trigger] p[i]).0 < u) ==> dsome(dist[v]) && dval(dist[v])
            <= path_cost(edges, p)
}

/// `r` annotates a cheapest start-to-frontier path: `p` leads from the
/// start node to the frontier node `f`, `r` lists the resting footprints of
/// the nodes along it, and no start-to-frontier path is cheaper.
pub open spec fn shortest_frontier_path(
    nodes: Seq<GraphState>,
    edges: Seq<Vec<(usize, u64)>>,
    queue: Seq<usize>,
    p: Seq<(int, int)>,
    f: int,
    r: Seq<FootPlacement>,
) -> bool {
    &&& path_ok(edges, p, 0, f)
    &&& exists|qi: int| 0 <= qi < queue.len() && (#[trigger] queue[qi]) == f
    &&& r.len() == p.len()
    &&& forall|i: int|
        0 <= i < p.len() ==> r[i]@ == nodes[(edges[(#[trigger] p[i]).0]@[p[i].1]).0 as int].state.final_columns@
    &&& forall|q: Seq<(int, int)>, g: int|
        #[trigger] path_ok(edges, q, 0, g) && (exists|qi: int|
            0 <= qi < queue.len() && (#[trigger] queue[qi]) == g) ==> path_cost(edges, q)
            >= path_cost(edges, p)
}

/// Stepping the distance bound from a node to a strictly later node stays
/// within 128 bits.
proof fn lemma_cap_step(u: int, tv: int)
    requires
        0 <= u,
        u + 1 <= tv,
        tv < 0x10000000000000000,
    ensures
        u * (COST_CAP as int) + COST_CAP == (u + 1) * (COST_CAP as int),
        (u + 1) * (COST_CAP as int) <= tv * (COST_CAP as int),
        tv * (COST_CAP as int) < 0x100000000000000000000000000000000int,
{
    assert(u * (COST_CAP as int) + COST_CAP == (u + 1) * (COST_CAP as int) && (u + 1) * (
    COST_CAP as int) <= tv * (COST_CAP as int) && tv * (COST_CAP as int)
        < 0x100000000000000000000000000000000int) by (nonlinear_arith)
        requires
            0 <= u,
            u + 1 <= tv,
            tv < 0x10000000000000000,
            COST_CAP == 0x1000000000000000;
}

/// Every settled predecessor edge starts below `b` — the relaxation pass
/// never rewrites a node's distance once the pass has moved beyond it.
pub open spec fn pred_below(
    dist: Seq<Option<u128>>,
    pred: Seq<Option<(usize, usize)>>,
    b: int,
) -> bool {
    forall|v: int|
        0 < v < dist.len() && #[trigger] dsome(dist[v]) ==> match pred[v] {
            Some(pk) => (pk.0 as int) < b,
            Option::None => false,
        }
}

/// The number of edges stored in the first `n` adjacency lists.
pub open spec fn edges_total(edges: Seq<Vec<(usize, u64)>>, n: int) -> int
    decreases n,
{
    if n <= 0 {
        0
    } else {
        edges_total(edges, n - 1) + edges[n - 1]@.len()
    }
}

/// One more adjacency list stays within one word's worth of edges.
proof fn lemma_edges_total_step(edges: Seq<Vec<(usize, u64)>>, u: int)
    requires
        0 <= u,
        edges_total(edges, u) <= u * 0x10000000000000000,
        edges[u]@.len() < 0x10000000000000000,
    ensures
        edges_total(edges, u + 1) == edges_total(edges, u) + edges[u]@.len(),
        edges_total(edges, u + 1) <= (u + 1) * 0x10000000000000000,
{
    assert((u + 1) * 0x10000000000000000 == u * 0x10000000000000000 + 0x10000000000000000)
        by (nonlinear_arith);
}

/// Every edge weight of a well-formed step graph is capped — and, being
/// unsigned, non-negative: no edge ever carries a negative or unbounded
/// weight.
pub proof fn lemma_edge_weights_bounded(g: StepGraph)
    requires
        g.wf(),
    ensures
        forall|u: int, k: int|
            0 <= u < g.edges_spec().len() && 0 <= k < g.edges_spec()[u]@.len() ==> 0 <= (
            #[trigger] g.edges_spec()[u]@[k]).1 <= COST_CAP,
{
    assert(wf_edges(g.edges_spec()));
}

/// A column its row does not press stays clear of feet: no legal placement
/// puts a part there, and nothing comes to rest there unless it already
/// rested there. In particular a mined column — mines demand release, never
/// a press — collects no foot when it starts clear, so every annotation of
/// such a row keeps it clear.
pub proof fn lemma_unpressed_column_stays_clear(
    stage: DanceStage,
    row: Seq<Key>,
    prev: State,
    p: Seq<FootPart>,
    r: State,
    c: int,
)
    requires
        valid_placement(stage, row, p),
        is_appended(prev, p, r),
        0 <= c < row.len(),
        !crate::extensions::press_required(row[c].key_type),
        prev.final_columns@[c] == FootPart::Empty,
    ensures
        r.final_columns@[c] == FootPart::Empty,
{
    assert(p[c] == FootPart::Empty);
    assert(r.final_columns@[c] == appended_final(prev.final_columns@, p, c));
}

/// The streaming step graph.
pub struct StepGraph {
    dance_stage: DanceStage,
    nodes: Vec<GraphState>,
    edges: Vec<Vec<(usize, u64)>>,
    queue: Vec<usize>,
    start_node: usize,
    last_time: i64,
}

impl StepGraph {
    pub closed spec fn stage_spec(self) -> DanceStage {
        self.dance_stage
    }

    pub closed spec fn nodes_spec(self) -> Seq<GraphState> {
        self.nodes@
    }

    pub closed spec fn edges_spec(self) -> Seq<Vec<(usize, u64)>> {
        self.edges@
    }

    pub closed spec fn queue_spec(self) -> Seq<usize> {
        self.queue@
    }

    pub closed spec fn last_time_spec(self) -> i64 {
        self.last_time
    }

    /// The structural invariant of the step graph.
    pub closed spec fn wf(self) -> bool {
        let n = self.nodes@.len();
        let cols = self.dance_stage.columns@.len() as nat;
        &&& wf_stage(self.dance_stage)
        &&& n >= 1
        &&& self.start_node == 0
        &&& self.edges@.len() == n
        &&& self.nodes@[0].time == i64::MIN
        &&& forall|v: int| 0 <= v < n ==> wf_state((#[trigger] self.nodes@[v]).state, cols)
        &&& forall|v: int|
            0 <= v < n ==> toes_have_heels((#[trigger] self.nodes@[v]).state.activated_columns@)
        &&& wf_edges(self.edges@)
        &&& edges_deduplicated(self.edges@)
        &&& forall|i: int|
            0 <= i < self.queue@.len() ==> (#[trigger] self.queue@[i]) < n
                && self.nodes@[self.queue@[i] as int].time == self.last_time
        &&& forall|v: int| 1 <= v < n ==> #[trigger] has_in_edge(self.edges@, v)
    }

    /// A fresh graph over `dance_stage`: one synthetic start node with the
    /// empty state, standing alone in the frontier.
    pub fn new(dance_stage: DanceStage) -> (r: StepGraph)
        requires
            wf_stage(dance_stage),
        ensures
            r.wf(),
            r.stage_spec() == dance_stage,
            r.nodes_spec().len() == 1,
            r.nodes_spec()[0].time == i64::MIN,
            r.edges_spec().len() == 1,
            r.edges_spec()[0]@.len() == 0,
            r.queue_spec().len() == 1,
            r.queue_spec()[0] == 0,
            r.last_time_spec() == i64::MIN,
            r.nodes_spec()[0].state.activated_columns@ =~= Seq::new(
                dance_stage.columns@.len(),
                |c: int| FootPart::Empty,
            ),
            r.nodes_spec()[0].state.final_columns@ =~= Seq::new(
                dance_stage.columns@.len(),
                |c: int| FootPart::Empty,
            ),
    {
        let cols = dance_stage.column_count();
        let start_state = GraphState::new(i64::MIN, State::new(cols));
        let mut nodes: Vec<GraphState> = Vec::new();
        nodes.push(start_state);
        let mut edges: Vec<Vec<(usize, u64)>> = Vec::new();
        edges.push(Vec::new());
        let mut queue: Vec<usize> = Vec::new();
        queue.push(0);
        StepGraph { dance_stage, nodes, edges, queue, start_node: 0, last_time: i64::MIN }
    }

    pub fn column_count(&self) -> (r: usize)
        ensures
            r == self.stage_spec().columns@.len(),
    {
        self.dance_stage.column_count()
    }

    /// How many nodes the graph holds.
    pub fn node_count(&self) -> (r: usize)
        ensures
            r == self.nodes_spec().len(),
    {
        self.nodes.len()
    }

    /// How many edges the graph holds, saturating at the word size.
    pub fn edge_count(&self) -> (r: usize)
        ensures
            r as int == if edges_total(self.edges_spec(), self.edges_spec().len() as int)
                > usize::MAX as int {
                usize::MAX as int
            } else {
                edges_total(self.edges_spec(), self.edges_spec().len() as int)
            },
    {
        let mut total: u128 = 0;
        let mut u: usize = 0;
        while u < self.edges.len()
            invariant
                u <= self.edges@.len(),
                total == edges_total(self.edges@, u as int),
                total <= (u as int) * 0x10000000000000000,
            decreases self.edges@.len() - u,
        {
            let l = self.edges[u].len();
            proof {
                lemma_edges_total_step(self.edges@, u as int);
            }
            total = total + l as u128;
            u = u + 1;
        }
        if total > usize::MAX as u128 {
            usize::MAX
        } else {
            total as usize
        }
    }

    /// Streams one row into the graph at `time` microseconds. Every frontier
    /// node is linked to the successor of every legal placement of the row;
    /// successors reached more than once are shared, and so are identical
    /// parallel edges. The new frontier is exactly the run of freshly
    /// created nodes, in creation order.
    pub fn append(&mut self, time: i64, row: &Vec<Key>)
        requires
            old(self).wf(),
            row@.len() == old(self).stage_spec().columns@.len(),
            time > old(self).last_time_spec(),
        ensures
            final(self).wf(),
            final(self).stage_spec() == old(self).stage_spec(),
            final(self).last_time_spec() == time,
            final(self).nodes_spec().len() >= old(self).nodes_spec().len(),
            forall|v: int|
                0 <= v < old(self).nodes_spec().len() ==> final(self).nodes_spec()[v] == old(self).nodes_spec()[v],
            final(self).edges_spec().len() == final(self).nodes_spec().len(),
            forall|u: int|
                0 <= u < old(self).edges_spec().len() ==> final(self).edges_spec()[u]@.len()
                    >= old(self).edges_spec()[u]@.len() && (forall|k: int|
                    0 <= k < old(self).edges_spec()[u]@.len() ==> final(self).edges_spec()[u]@[k]
                        == old(self).edges_spec()[u]@[k]),
            edges_deduplicated(final(self).edges_spec()),
            final(self).queue_spec().len() == final(self).nodes_spec().len() - old(self).nodes_spec().len(),
            forall|i: int|
                0 <= i < final(self).queue_spec().len() ==> final(self).queue_spec()[i] == old(self).nodes_spec().len() + i,
            forall|v: int|
                old(self).nodes_spec().len() <= v < final(self).nodes_spec().len()
                    ==> #[trigger] node_origin_ok(
                    final(self).nodes_spec(),
                    old(self).nodes_spec(),
                    old(self).queue_spec(),
                    old(self).stage_spec(),
                    row@,
                    time,
                    v,
                ),
            forall|v1: int, v2: int|
                old(self).nodes_spec().len() <= v1 < v2 < final(self).nodes_spec().len()
                    ==> !state_views_equal(
                    (#[trigger] final(self).nodes_spec()[v1]).state,
                    (#[trigger] final(self).nodes_spec()[v2]).state,
                ),
            forall|u: int, k: int|
                0 <= u < final(self).edges_spec().len() && (if u < old(self).edges_spec().len() {
                    old(self).edges_spec()[u]@.len()
                } else {
                    0
                }) <= k < final(self).edges_spec()[u]@.len() ==> #[trigger] new_edge_ok(
                    final(self).nodes_spec(),
                    final(self).edges_spec(),
                    old(self).nodes_spec().len() as int,
                    old(self).queue_spec(),
                    old(self).stage_spec(),
                    row@,
                    time,
                    u,
                    k,
                ),
            forall|qi: int, p: Seq<FootPart>|
                0 <= qi < old(self).queue_spec().len() && #[trigger] valid_placement(
                    old(self).stage_spec(),
                    row@,
                    p,
                ) ==> edge_for_placement(
                    final(self).nodes_spec(),
                    final(self).edges_spec(),
                    (#[trigger] old(self).queue_spec()[qi]) as int,
                    p,
                    time,
                ),
    {
        let permutations = foot_placement_permutations(&self.dance_stage, row);
        let ghost old_n = self.nodes@.len() as int;
        let ghost old_queue = self.queue@;
        let ghost old_edges = self.edges@;
        let ghost old_nodes = self.nodes@;
        let mut new_states: Vec<usize> = Vec::new();

        let mut qi: usize = 0;
        while qi < self.queue.len()
            invariant
                qi <= self.queue@.len(),
                self.queue@ == old_queue,
                self.dance_stage == old(self).stage_spec(),
                self.last_time == old(self).last_time_spec(),
                self.start_node == 0,
                old_n == old_nodes.len(),
                old_nodes == old(self).nodes_spec(),
                old_edges == old(self).edges_spec(),
                old_queue == old(self).queue_spec(),
                old_edges.len() == old_n,
                old_n >= 1,
                wf_stage(self.dance_stage),
                row@.len() == self.dance_stage.columns@.len(),
                time > self.last_time,
                self.nodes@[0].time == i64::MIN,
                forall|i: int|
                    0 <= i < old_queue.len() ==> (#[trigger] old_queue[i]) < old_n
                        && old_nodes[old_queue[i] as int].time == self.last_time,
                forall|i: int|
                    0 <= i < permutations@.len() ==> valid_placement(
                        self.dance_stage,
                        row@,
                        #[trigger] permutations@[i]@,
                    ),
                forall|s: Seq<FootPart>|
                    #[trigger] valid_placement(self.dance_stage, row@, s) ==> placement_in(
                        permutations@,
                        s,
                    ),
                self.nodes@.len() >= old_n,
                self.edges@.len() == self.nodes@.len(),
                forall|v: int| 0 <= v < old_n ==> self.nodes@[v] == old_nodes[v],
                forall|u: int|
                    0 <= u < old_n ==> self.edges@[u]@.len() >= old_edges[u]@.len() && (forall|
                        k: int,
                    |
                        0 <= k < old_edges[u]@.len() ==> self.edges@[u]@[k] == old_edges[u]@[k]),
                forall|v: int|
                    0 <= v < self.nodes@.len() ==> wf_state(
                        (#[trigger] self.nodes@[v]).state,
                        self.dance_stage.columns@.len() as nat,
                    ),
                forall|v: int|
                    0 <= v < self.nodes@.len() ==> toes_have_heels(
                        (#[trigger] self.nodes@[v]).state.activated_columns@,
                    ),
                wf_edges(self.edges@),
                edges_deduplicated(self.edges@),
                forall|v: int|
                    1 <= v < self.nodes@.len() ==> #[trigger] has_in_edge(self.edges@, v),
                new_states@.len() == self.nodes@.len() - old_n,
                forall|i: int| 0 <= i < new_states@.len() ==> new_states@[i] == old_n + i,
                forall|v: int|
                    old_n <= v < self.nodes@.len() ==> #[trigger] node_origin_ok(
                        self.nodes@,
                        old_nodes,
                        old_queue,
                        self.dance_stage,
                        row@,
                        time,
                        v,
                    ),
                forall|v1: int, v2: int|
                    old_n <= v1 < v2 < self.nodes@.len() ==> !state_views_equal(
                        (#[trigger] self.nodes@[v1]).state,
                        (#[trigger] self.nodes@[v2]).state,
                    ),
                forall|u: int, k: int|
                    0 <= u < self.edges@.len() && (if u < old_n {
                        old_edges[u]@.len()
                    } else {
                        0
                    }) <= k < self.edges@[u]@.len() ==> #[trigger] new_edge_ok(
                        self.nodes@,
                        self.edges@,
                        old_n,
                        old_queue,
                        self.dance_stage,
                        row@,
                        time,
                        u,
                        k,
                    ),
                forall|qj: int, p: Seq<FootPart>|
                    0 <= qj < qi && #[trigger] valid_placement(self.dance_stage, row@, p)
                        ==> edge_for_placement(
                        self.nodes@,
                        self.edges@,
                        (#[trigger] old_queue[qj]) as int,
                        p,
                        time,
                    ),
            decreases self.queue@.len() - qi,
        {
            let prev = self.queue[qi];
            let mut pi: usize = 0;
            while pi < permutations.len()
                invariant
                    qi < self.queue@.len(),
                    prev == old_queue[qi as int],
                    prev < old_n,
                    pi <= permutations@.len(),
                    self.queue@ == old_queue,
                    self.dance_stage == old(self).stage_spec(),
                    self.last_time == old(self).last_time_spec(),
                    self.start_node == 0,
                    old_n == old_nodes.len(),
                    old_nodes == old(self).nodes_spec(),
                    old_edges == old(self).edges_spec(),
                    old_queue == old(self).queue_spec(),
                    old_edges.len() == old_n,
                    old_n >= 1,
                    wf_stage(self.dance_stage),
                    row@.len() == self.dance_stage.columns@.len(),
                    time > self.last_time,
                    self.nodes@[0].time == i64::MIN,
                    forall|i: int|
                        0 <= i < old_queue.len() ==> (#[trigger] old_queue[i]) < old_n
                            && old_nodes[old_queue[i] as int].time == self.last_time,
                    forall|i: int|
                        0 <= i < permutations@.len() ==> valid_placement(
                            self.dance_stage,
                            row@,
                            #[trigger] permutations@[i]@,
                        ),
                    forall|s: Seq<FootPart>|
                        #[trigger] valid_placement(self.dance_stage, row@, s) ==> placement_in(
                            permutations@,
                            s,
                        ),
                    self.nodes@.len() >= old_n,
                    self.edges@.len() == self.nodes@.len(),
                    forall|v: int| 0 <= v < old_n ==> self.nodes@[v] == old_nodes[v],
                    forall|u: int|
                        0 <= u < old_n ==> self.edges@[u]@.len() >= old_edges[u]@.len() && (forall|
                            k: int,
                        |
                            0 <= k < old_edges[u]@.len() ==> self.edges@[u]@[k]
                                == old_edges[u]@[k]),
                    forall|v: int|
                        0 <= v < self.nodes@.len() ==> wf_state(
                            (#[trigger] self.nodes@[v]).state,
                            self.dance_stage.columns@.len() as nat,
                        ),
                    forall|v: int|
                        0 <= v < self.nodes@.len() ==> toes_have_heels(
                            (#[trigger] self.nodes@[v]).state.activated_columns@,
                        ),
                    wf_edges(self.edges@),
                    edges_deduplicated(self.edges@),
                    forall|v: int|
                        1 <= v < self.nodes@.len() ==> #[trigger] has_in_edge(self.edges@, v),
                    new_states@.len() == self.nodes@.len() - old_n,
                    forall|i: int| 0 <= i < new_states@.len() ==> new_states@[i] == old_n + i,
                    forall|v: int|
                        old_n <= v < self.nodes@.len() ==> #[trigger] node_origin_ok(
                            self.nodes@,
                            old_nodes,
                            old_queue,
                            self.dance_stage,
                            row@,
                            time,
                            v,
                        ),
                    forall|v1: int, v2: int|
                        old_n <= v1 < v2 < self.nodes@.len() ==> !state_views_equal(
                            (#[trigger] self.nodes@[v1]).state,
                            (#[trigger] self.nodes@[v2]).state,
                        ),
                    forall|u: int, k: int|
                        0 <= u < self.edges@.len() && (if u < old_n {
                            old_edges[u]@.len()
                        } else {
                            0
                        }) <= k < self.edges@[u]@.len() ==> #[trigger] new_edge_ok(
                            self.nodes@,
                            self.edges@,
                            old_n,
                            old_queue,
                            self.dance_stage,
                            row@,
                            time,
                            u,
                            k,
                        ),
                    forall|qj: int, p: Seq<FootPart>|
                        0 <= qj < qi && #[trigger] valid_placement(self.dance_stage, row@, p)
                            ==> edge_for_placement(
                            self.nodes@,
                            self.edges@,
                            (#[trigger] old_queue[qj]) as int,
                            p,
                            time,
                        ),
                    forall|pj: int|
                        0 <= pj < pi ==> edge_for_placement(
                            self.nodes@,
                            self.edges@,
                            prev as int,
                            #[trigger] permutations@[pj]@,
                            time,
                        ),
                decreases permutations@.len() - pi,
            {
                let ghost nodes0 = self.nodes@;
                let ghost edges0 = self.edges@;
                let p = &permutations[pi];
                let next_state = self.nodes[prev].state.append(p);
                proof {
                    assert(valid_placement(self.dance_stage, row@, p@));
                    assert(is_appended(self.nodes@[prev as int].state, p@, next_state));
                    assert(wf_state(next_state, self.dance_stage.columns@.len() as nat));
                }
                // look the successor state up among this row's new nodes
                let mut v_found: Option<usize> = Option::None;
                let mut si: usize = 0;
                while si < new_states.len()
                    invariant_except_break
                        si <= new_states@.len(),
                        v_found is None,
                        new_states@.len() == self.nodes@.len() - old_n,
                        old_n >= 0,
                        forall|i: int| 0 <= i < new_states@.len() ==> new_states@[i] == old_n + i,
                        forall|i: int|
                            0 <= i < si ==> !state_views_equal(
                                self.nodes@[(#[trigger] new_states@[i]) as int].state,
                                next_state,
                            ),
                    ensures
                        match v_found {
                            Some(w) => old_n <= w < self.nodes@.len() && state_views_equal(
                                self.nodes@[w as int].state,
                                next_state,
                            ),
                            Option::None => forall|i: int|
                                0 <= i < new_states@.len() ==> !state_views_equal(
                                    self.nodes@[(#[trigger] new_states@[i]) as int].state,
                                    next_state,
                                ),
                        },
                    decreases new_states@.len() - si,
                {
                    let w = new_states[si];
                    if self.nodes[w].state.activated_columns.same_columns(
                        &next_state.activated_columns,
                    ) && self.nodes[w].state.final_columns.same_columns(
                        &next_state.final_columns,
                    ) {
                        v_found = Some(w);
                        break ;
                    }
                    si = si + 1;
                }
                let v = match v_found {
                    Some(w) => w,
                    Option::None => {
                        let v = self.nodes.len();
                        self.nodes.push(GraphState { time, state: next_state });
                        self.edges.push(Vec::new());
                        new_states.push(v);
                        proof {
                            assert(self.nodes@[v as int].state == next_state);
                            assert(is_appended(
                                old_nodes[old_queue[qi as int] as int].state,
                                p@,
                                self.nodes@[v as int].state,
                            ));
                            assert(node_origin_ok(
                                self.nodes@,
                                old_nodes,
                                old_queue,
                                self.dance_stage,
                                row@,
                                time,
                                v as int,
                            ));
                        }
                        v
                    },
                };
                proof {
                    assert(old_n <= v < self.nodes@.len());
                    assert(state_views_equal(self.nodes@[v as int].state, next_state));
                    assert(is_appended(
                        self.nodes@[prev as int].state,
                        p@,
                        self.nodes@[v as int].state,
                    ));
                    // adjacency lists unchanged or extended by an empty one
                    assert forall|uu: int, k1: int, k2: int|
                        0 <= uu < self.edges@.len() && 0 <= k1 < k2
                            < self.edges@[uu]@.len() implies (#[trigger] self.edges@[uu]@[k1]) != (
                    #[trigger] self.edges@[uu]@[k2]) by {
                        assert(uu < edges0.len());
                        assert(self.edges@[uu]@[k1] == edges0[uu]@[k1] && self.edges@[uu]@[k2]
                            == edges0[uu]@[k2]);
                    }
                    assert(edges_deduplicated(self.edges@));
                    // re-establish the quantified facts over the grown graph
                    assert forall|w: int| old_n <= w < nodes0.len() implies #[trigger] node_origin_ok(
                        self.nodes@,
                        old_nodes,
                        old_queue,
                        self.dance_stage,
                        row@,
                        time,
                        w,
                    ) by {
                        lemma_node_origin_stable(
                            nodes0,
                            self.nodes@,
                            old_nodes,
                            old_queue,
                            self.dance_stage,
                            row@,
                            time,
                            w,
                        );
                    }
                    assert forall|u: int, k: int|
                        0 <= u < edges0.len() && (if u < old_n {
                            old_edges[u]@.len()
                        } else {
                            0
                        }) <= k < edges0[u]@.len() implies #[trigger] new_edge_ok(
                        self.nodes@,
                        self.edges@,
                        old_n,
                        old_queue,
                        self.dance_stage,
                        row@,
                        time,
                        u,
                        k,
                    ) by {
                        lemma_new_edge_stable(
                            nodes0,
                            edges0,
                            self.nodes@,
                            self.edges@,
                            old_n,
                            old_queue,
                            self.dance_stage,
                            row@,
                            time,
                            u,
                            k,
                        );
                    }
                }
                let dt: Option<u64> = if prev == 0 {
                    Option::None
                } else {
                    Some((time as i128 - self.nodes[prev].time as i128) as u64)
                };
                proof {
                    assert(dt == dt_spec(self.nodes@, prev as int, time));
                }
                let cost = total_cost(
                    &self.dance_stage,
                    row,
                    &self.nodes[prev].state,
                    &self.nodes[v].state,
                    dt,
                );
                // suppress an exact duplicate edge
                let ghost nodes1 = self.nodes@;
                let ghost edges1 = self.edges@;
                let mut dup_found = false;
                let mut ei: usize = 0;
                let elen = self.edges[prev].len();
                while ei < elen
                    invariant_except_break
                        ei <= elen,
                        !dup_found,
                        prev < self.edges@.len(),
                        elen == self.edges@[prev as int]@.len(),
                        self.edges@ == edges1,
                        forall|k: int|
                            0 <= k < ei ==> !((#[trigger] self.edges@[prev as int]@[k]).0 == v
                                && self.edges@[prev as int]@[k].1 == cost),
                    ensures
                        self.edges@ == edges1,
                        elen == self.edges@[prev as int]@.len(),
                        dup_found ==> exists|k: int|
                            0 <= k < elen && (#[trigger] self.edges@[prev as int]@[k]) == (v, cost),
                        !dup_found ==> forall|k: int|
                            0 <= k < elen ==> !((#[trigger] self.edges@[prev as int]@[k]).0 == v
                                && self.edges@[prev as int]@[k].1 == cost),
                    decreases elen - ei,
                {
                    let e = self.edges[prev][ei];
                    if e.0 == v && e.1 == cost {
                        dup_found = true;
                        proof {
                            assert(self.edges@[prev as int]@[ei as int] == (v, cost));
                        }
                        break ;
                    }
                    ei = ei + 1;
                }
                if !dup_found {
                    push_edge(&mut self.edges, prev, (v, cost));
                }
                proof {
                    // the edge for this placement now stands
                    if !dup_found {
                        assert(self.edges@[prev as int]@[elen as int] == (v, cost));
                    }
                    assert(exists|k: int|
                        0 <= k < self.edges@[prev as int]@.len() && (
                        #[trigger] self.edges@[prev as int]@[k]) == (v, cost));
                    let k0 = choose|k: int|
                        0 <= k < self.edges@[prev as int]@.len() && (
                        #[trigger] self.edges@[prev as int]@[k]) == (v, cost);
                    assert((self.edges@[prev as int]@[k0]).0 == v);
                    assert(node_origin_ok(
                        self.nodes@,
                        old_nodes,
                        old_queue,
                        self.dance_stage,
                        row@,
                        time,
                        v as int,
                    ));
                    assert(self.nodes@[v as int].time == time);
                    assert(is_appended(
                        self.nodes@[prev as int].state,
                        p@,
                        self.nodes@[(self.edges@[prev as int]@[k0]).0 as int].state,
                    ));
                    assert(edge_for_placement(
                        self.nodes@,
                        self.edges@,
                        prev as int,
                        p@,
                        time,
                    ));
                    // no two new nodes share a state
                    assert forall|v1: int, v2: int|
                        old_n <= v1 < v2 < self.nodes@.len() implies !state_views_equal(
                        (#[trigger] self.nodes@[v1]).state,
                        (#[trigger] self.nodes@[v2]).state,
                    ) by {
                        if v2 < nodes0.len() {
                            assert(!state_views_equal(nodes0[v1].state, nodes0[v2].state));
                        } else {
                            assert(new_states@[v1 - old_n] == v1);
                            assert(!state_views_equal(nodes0[v1].state, next_state));
                            assert(self.nodes@[v2].state == next_state);
                        }
                    }
                    // every node still has an in-edge
                    assert forall|w: int| 1 <= w < self.nodes@.len() implies #[trigger] has_in_edge(
                        self.edges@,
                        w,
                    ) by {
                        if w == v as int {
                            assert((self.edges@[prev as int]@[k0]).0 == w);
                            assert(has_in_edge(self.edges@, w));
                        } else {
                            assert(w < nodes0.len());
                            assert(has_in_edge(edges0, w));
                            lemma_has_in_edge_stable(edges0, self.edges@, w);
                        }
                    }
                    // a freshly pushed edge satisfies the edge soundness facts
                    if !dup_found {
                        assert(new_edge_ok(
                            self.nodes@,
                            self.edges@,
                            old_n,
                            old_queue,
                            self.dance_stage,
                            row@,
                            time,
                            prev as int,
                            elen as int,
                        )) by {
                            assert(old_queue[qi as int] == prev);
                            assert(valid_placement(self.dance_stage, row@, p@));
                        }
                    }
                    // the adjacency lists stay free of duplicate edges: a push
                    // happens only when the scan found no identical pair
                    assert forall|uu: int, k1: int, k2: int|
                        0 <= uu < self.edges@.len() && 0 <= k1 < k2
                            < self.edges@[uu]@.len() implies (#[trigger] self.edges@[uu]@[k1]) != (
                    #[trigger] self.edges@[uu]@[k2]) by {
                        if !dup_found && uu == prev as int && k2 == elen as int {
                            assert(!((self.edges@[uu]@[k1]).0 == v && (self.edges@[uu]@[k1]).1
                                == cost));
                            assert(self.edges@[uu]@[k2] == (v, cost));
                        } else {
                            assert(k2 < edges1[uu]@.len());
                            assert(self.edges@[uu]@[k1] == edges1[uu]@[k1] && self.edges@[uu]@[k2]
                                == edges1[uu]@[k2]);
                        }
                    }
                    assert(edges_deduplicated(self.edges@));
                    // stability of everything across the possible edge push
                    assert forall|u: int, k: int|
                        0 <= u < self.edges@.len() && (if u < old_n {
                            old_edges[u]@.len()
                        } else {
                            0
                        }) <= k < self.edges@[u]@.len() implies #[trigger] new_edge_ok(
                        self.nodes@,
                        self.edges@,
                        old_n,
                        old_queue,
                        self.dance_stage,
                        row@,
                        time,
                        u,
                        k,
                    ) by {
                        if u == prev as int && k == elen as int && !dup_found {
                        } else {
                            assert(0 <= k < edges1[u]@.len());
                            lemma_new_edge_stable(
                                nodes1,
                                edges1,
                                self.nodes@,
                                self.edges@,
                                old_n,
                                old_queue,
                                self.dance_stage,
                                row@,
                                time,
                                u,
                                k,
                            );
                        }
                    }
                    assert forall|qj: int, pq: Seq<FootPart>|
                        0 <= qj < qi && #[trigger] valid_placement(
                            self.dance_stage,
                            row@,
                            pq,
                        ) implies edge_for_placement(
                        self.nodes@,
                        self.edges@,
                        (#[trigger] old_queue[qj]) as int,
                        pq,
                        time,
                    ) by {
                        lemma_edge_for_placement_stable(
                            nodes0,
                            edges0,
                            self.nodes@,
                            self.edges@,
                            old_queue[qj] as int,
                            pq,
                            time,
                        );
                    }
                    assert forall|pj: int| 0 <= pj < pi + 1 implies edge_for_placement(
                        self.nodes@,
                        self.edges@,
                        prev as int,
                        #[trigger] permutations@[pj]@,
                        time,
                    ) by {
                        if pj < pi {
                            lemma_edge_for_placement_stable(
                                nodes0,
                                edges0,
                                self.nodes@,
                                self.edges@,
                                prev as int,
                                permutations@[pj]@,
                                time,
                            );
                        }
                    }
                }
                pi = pi + 1;
            }
            proof {
                // every legal placement is covered at this frontier node
                assert forall|pq: Seq<FootPart>|
                    #[trigger] valid_placement(self.dance_stage, row@, pq) implies edge_for_placement(
                    self.nodes@,
                    self.edges@,
                    prev as int,
                    pq,
                    time,
                ) by {
                    assert(placement_in(permutations@, pq));
                    let i = choose|i: int|
                        0 <= i < permutations@.len() && (#[trigger] permutations@[i])@ == pq;
                    assert(edge_for_placement(
                        self.nodes@,
                        self.edges@,
                        prev as int,
                        permutations@[i]@,
                        time,
                    ));
                }
            }
            qi = qi + 1;
        }
        self.queue = new_states;
        self.last_time = time;
        proof {
            assert forall|i: int| 0 <= i < self.queue@.len() implies (#[trigger] self.queue@[i])
                < self.nodes@.len() && self.nodes@[self.queue@[i] as int].time
                == self.last_time by {
                assert(node_origin_ok(
                    self.nodes@,
                    old_nodes,
                    old_queue,
                    self.dance_stage,
                    row@,
                    time,
                    old_n + i,
                ));
            }
        }
    }


    /// Settles the least start-to-node cost for every node by one forward
    /// relaxation pass in id order, recording predecessor edges.
    #[verifier::rlimit(60)]
    fn relax_distances(edges: &Vec<Vec<(usize, u64)>>) -> (dp: (
        Vec<Option<u128>>,
        Vec<Option<(usize, usize)>>,
    ))
        requires
            wf_edges(edges@),
            edges@.len() >= 1,
        ensures
            dp.0@.len() == edges@.len(),
            dp.1@.len() == edges@.len(),
            dsome(dp.0@[0]) && dval(dp.0@[0]) == 0,
            chain_ok(edges@, dp.0@, dp.1@),
            relaxed_below(edges@, dp.0@, edges@.len() as int),
    {
        let n = edges.len();
        let mut dist: Vec<Option<u128>> = Vec::new();
        let mut pred: Vec<Option<(usize, usize)>> = Vec::new();
        let mut i: usize = 0;
        while i < n
            invariant
                i <= n,
                dist@.len() == i,
                pred@.len() == i,
                forall|v: int| 0 <= v < i ==> !dsome(#[trigger] dist@[v]),
            decreases n - i,
        {
            dist.push(Option::None);
            pred.push(Option::None);
            i = i + 1;
        }
        dist.set(0, Some(0));
        proof {
            assert(dsome(dist@[0]));
            assert forall|v: int, p: Seq<(int, int)>|
                #[trigger] path_ok(edges@, p, 0, v) && 0 <= v < dist@.len() && (forall|i: int|
                    0 <= i < p.len() ==> (#[trigger] p[i]).0 < 0) implies dsome(dist@[v]) && dval(
                dist@[v],
            ) <= path_cost(edges@, p) by {
                if p.len() > 0 {
                    assert(p[0].0 >= 0 && p[0].0 < 0);
                }
                assert(v == 0);
            }
            assert(relaxed_below(edges@, dist@, 0));
        }
        let mut u: usize = 0;
        while u < n
            invariant
                true,
                wf_edges(edges@),
                u <= n,
                                n == edges@.len(),
                dist@.len() == n,
                pred@.len() == n,
                dsome(dist@[0]) && dval(dist@[0]) == 0,
                chain_ok(edges@, dist@, pred@),
                pred_below(dist@, pred@, u as int),
                relaxed_below(edges@, dist@, u as int),
            decreases n - u,
        {
            let ghost dist_u = dist@;
            let du_opt = dist[u];
            match du_opt {
                Some(du) => {
                    let mut k: usize = 0;
                    let elen = edges[u].len();
                    proof {
                        assert(dsome(dist@[u as int]));
                    }
                    while k < elen
                        invariant
                            true,
                            wf_edges(edges@),
                            u < n,
                            k <= elen,
                                                        n == edges@.len(),
                            elen == edges@[u as int]@.len(),
                            dist@.len() == n,
                            pred@.len() == n,
                            dsome(dist@[0]) && dval(dist@[0]) == 0,
                            chain_ok(edges@, dist@, pred@),
                            pred_below(dist@, pred@, u + 1int),
                            dist_u.len() == n,
                            forall|w: int| 0 <= w <= u ==> dist@[w] == dist_u[w],
                            dist@[u as int] == Some(du),
                            forall|v: int|
                                0 <= v < n && dsome(#[trigger] dist_u[v]) ==> dsome(dist@[v])
                                    && dval(dist@[v]) <= dval(dist_u[v]),
                            forall|kk: int|
                                0 <= kk < k ==> dsome(
                                    #[trigger] dist@[(edges@[u as int]@[kk]).0 as int],
                                ) && dval(dist@[(edges@[u as int]@[kk]).0 as int]) <= du
                                    + (edges@[u as int]@[kk]).1,
                        decreases elen - k,
                    {
                        let e = edges[u][k];
                        let tv = e.0;
                        let w = e.1;
                        proof {
                            assert(u < tv < n);
                            assert(w <= COST_CAP);
                            assert(dsome(dist@[u as int]));
                            assert(du <= (u as int) * (COST_CAP as int));
                            lemma_cap_step(u as int, tv as int);
                        }
                        let cand: u128 = du + w as u128;
                        let update = match dist[tv] {
                            Some(dv) => cand < dv,
                            Option::None => true,
                        };
                        if update {
                            dist.set(tv, Some(cand));
                            pred.set(tv, Some((u, k)));
                            proof {
                                assert(dsome(dist@[tv as int]));
                                assert(dval(dist@[tv as int]) == du + w);
                                assert(dval(dist@[u as int]) + w == dval(dist@[tv as int]));
                            }
                        }
                        proof {
                            assert(dsome(dist@[tv as int]) && dval(dist@[tv as int]) <= du + w);
                        }
                        k = k + 1;
                    }
                },
                Option::None => {},
            }
            proof {
                // distances now dominate every path whose sources lie below u+1
                assert forall|v: int, p: Seq<(int, int)>|
                    #[trigger] path_ok(edges@, p, 0, v) && 0 <= v < dist@.len() && (forall|
                        i: int,
                    |
                        0 <= i < p.len() ==> (#[trigger] p[i]).0 < u + 1) implies dsome(dist@[v])
                    && dval(dist@[v]) <= path_cost(edges@, p) by {
                    if forall|i: int| 0 <= i < p.len() ==> (#[trigger] p[i]).0 < u {
                        assert(dsome(dist_u[v]) && dval(dist_u[v]) <= path_cost(edges@, p));
                    } else {
                        let i0 = choose|i: int| 0 <= i < p.len() && !((#[trigger] p[i]).0 < u);
                        assert(p[i0].0 == u);
                        assert(p.len() > 0);
                        let q = p.drop_last();
                        lemma_path_prefix(edges@, p, 0, v);
                        lemma_sources_below(edges@, q, 0, p.last().0);
                        // the last edge leaves u: every earlier source lies below it
                        assert(p.last().0 == u) by {
                            if i0 < p.len() - 1 {
                                assert(q[i0] == p[i0]);
                                assert(q[i0].0 < p.last().0);
                                assert(p.last().0 < u + 1);
                            }
                        }
                        assert forall|i: int| 0 <= i < q.len() implies (#[trigger] q[i]).0 < u by {
                            assert(q[i] == p[i]);
                            assert(q[i].0 < p.last().0);
                        }
                        assert(dsome(dist_u[u as int]) && dval(dist_u[u as int]) <= path_cost(
                            edges@,
                            q,
                        ));
                        let kk = p.last().1;
                        assert(dist@[u as int] == dist_u[u as int]);
                        assert(dsome(dist@[(edges@[u as int]@[kk]).0 as int]) && dval(
                            dist@[(edges@[u as int]@[kk]).0 as int],
                        ) <= dval(dist_u[u as int]) + (edges@[u as int]@[kk]).1);
                        assert((edges@[u as int]@[kk]).0 == v);
                        assert(path_cost(edges@, p) == path_cost(edges@, q) + (
                        edges@[u as int]@[kk]).1);
                    }
                }
                assert(relaxed_below(edges@, dist@, u + 1int));
            }
            u = u + 1;
        }
        (dist, pred)
    }

    /// Extracts the cheapest annotation of the streamed rows: the resting
    /// footprints along a start-to-frontier path of minimal total weight
    /// (ties go to the frontier node created last). The graph is left exactly
    /// as it was, frontier included, so the extraction can be repeated and
    /// streaming can continue afterwards. Before any row the result is empty.
    #[verifier::rlimit(100)]
    pub fn compute_path(&mut self) -> (r: Vec<FootPlacement>)
        requires
            old(self).wf(),
        ensures
            final(self).wf(),
            final(self).nodes_spec() == old(self).nodes_spec(),
            final(self).edges_spec() == old(self).edges_spec(),
            final(self).stage_spec() == old(self).stage_spec(),
            final(self).last_time_spec() == old(self).last_time_spec(),
            final(self).queue_spec() == old(self).queue_spec(),
            old(self).queue_spec().len() == 0 ==> r@.len() == 0,
            old(self).queue_spec().len() > 0 ==> exists|p: Seq<(int, int)>, f: int|
                #[trigger] shortest_frontier_path(
                    old(self).nodes_spec(),
                    old(self).edges_spec(),
                    old(self).queue_spec(),
                    p,
                    f,
                    r@,
                ),
    {
        let ghost old_queue = self.queue@;
        if self.queue.len() == 0 {
            return Vec::new();
        }
        let n = self.nodes.len();
        let dp = StepGraph::relax_distances(&self.edges);
        let mut dist = dp.0;
        let mut pred = dp.1;
        proof {
            // full minimality and frontier reachability
            assert forall|j: int| 0 <= j < old_queue.len() implies dsome(
                #[trigger] dist@[old_queue[j] as int],
            ) by {
                lemma_reachable(self.edges@, old_queue[j] as int);
                let p = choose|p: Seq<(int, int)>|
                    #[trigger] path_ok(self.edges@, p, 0, old_queue[j] as int);
                assert(forall|i: int| 0 <= i < p.len() ==> (#[trigger] p[i]).0 < n);
            }
        }
        // choose the cheapest frontier node, the latest on a tie
        let mut best = self.queue[0];
        let ghost mut best_qi: int = 0;
        let mut j: usize = 1;
        while j < self.queue.len()
            invariant
                *self == *old(self),
                old(self).wf(),
                1 <= j <= self.queue@.len(),
                old_queue == self.queue@,
                n == self.nodes@.len(),
                n == self.edges@.len(),
                dist@.len() == n,
                pred@.len() == n,
                chain_ok(self.edges@, dist@, pred@),
                relaxed_below(self.edges@, dist@, n as int),
                dsome(dist@[0]) && dval(dist@[0]) == 0,
                forall|jj: int|
                    0 <= jj < old_queue.len() ==> dsome(#[trigger] dist@[old_queue[jj] as int]),
                0 <= best_qi < old_queue.len(),
                old_queue[best_qi] == best,
                best < n,
                forall|jj: int|
                    0 <= jj < j ==> dval(dist@[best as int]) <= dval(
                        #[trigger] dist@[old_queue[jj] as int],
                    ),
            decreases self.queue@.len() - j,
        {
            let f = self.queue[j];
            let db = match dist[best] {
                Some(d) => d,
                Option::None => 0,
            };
            let df = match dist[f] {
                Some(d) => d,
                Option::None => 0,
            };
            if df <= db {
                best = f;
                proof {
                    best_qi = j as int;
                }
            }
            j = j + 1;
        }
        // walk the predecessor chain back to the start
        let mut rev: Vec<FootPlacement> = Vec::new();
        let mut cur: usize = best;
        let ghost mut gpath: Seq<(int, int)> = Seq::empty();
        proof {
            assert(path_ok(self.edges@, gpath, best as int, best as int));
        }
        while cur != 0
            invariant
                *self == *old(self),
                old(self).wf(),
                cur < n,
                best < n,
                n == self.nodes@.len(),
                n == self.edges@.len(),
                dist@.len() == n,
                pred@.len() == n,
                chain_ok(self.edges@, dist@, pred@),
                dsome(dist@[cur as int]),
                dsome(dist@[best as int]),
                path_ok(self.edges@, gpath, cur as int, best as int),
                path_cost(self.edges@, gpath) + dval(dist@[cur as int]) == dval(
                    dist@[best as int],
                ),
                rev@.len() == gpath.len(),
                forall|jj: int|
                    0 <= jj < gpath.len() ==> (#[trigger] rev@[jj])@ == self.nodes@[(self.edges@[gpath[gpath.len()
                        - 1 - jj].0]@[gpath[gpath.len() - 1 - jj].1]).0 as int].state.final_columns@,
            decreases cur,
        {
            rev.push(self.nodes[cur].state.final_columns.duplicate());
            proof {
                assert(dsome(dist@[cur as int]));
            }
            let pk = match pred[cur] {
                Some(pk) => pk,
                Option::None => {
                    proof {
                        assert(false);
                    }
                    (0, 0)
                },
            };
            proof {
                let ghost old_gpath = gpath;
                lemma_path_prepend(
                    self.edges@,
                    gpath,
                    cur as int,
                    best as int,
                    pk.0 as int,
                    pk.1 as int,
                );
                gpath = seq![(pk.0 as int, pk.1 as int)] + gpath;
                assert(path_ok(self.edges@, gpath, pk.0 as int, best as int));
                assert((self.edges@[gpath[0].0]@[gpath[0].1]).0 == cur);
                assert forall|jj: int| 0 <= jj < gpath.len() implies (#[trigger] rev@[jj])@
                    == self.nodes@[(self.edges@[gpath[gpath.len() - 1 - jj].0]@[gpath[gpath.len()
                    - 1 - jj].1]).0 as int].state.final_columns@ by {
                    if jj < gpath.len() - 1 {
                        assert(gpath[gpath.len() - 1 - jj] == old_gpath[old_gpath.len() - 1 - jj]);
                    } else {
                        assert(gpath[0] == (pk.0 as int, pk.1 as int));
                    }
                }
            }
            cur = pk.0;
        }
        // the chain reached the start: gpath is a cheapest path to best
        proof {
            assert(dval(dist@[0]) == 0);
            assert(path_cost(self.edges@, gpath) == dval(dist@[best as int]));
        }
        let mut out: Vec<FootPlacement> = Vec::new();
        let mut t: usize = rev.len();
        while t > 0
            invariant
                t <= rev@.len(),
                out@.len() == rev@.len() - t,
                forall|ii: int|
                    0 <= ii < out@.len() ==> (#[trigger] out@[ii])@ == rev@[rev@.len() - 1 - ii]@,
            decreases t,
        {
            t = t - 1;
            out.push(rev[t].duplicate());
        }
        proof {
            assert forall|q: Seq<(int, int)>, g: int|
                #[trigger] path_ok(self.edges@, q, 0, g) && (exists|qi: int|
                    0 <= qi < old_queue.len() && (#[trigger] old_queue[qi]) == g) implies path_cost(
                self.edges@,
                q,
            ) >= path_cost(self.edges@, gpath) by {
                let qi = choose|qi: int|
                    0 <= qi < old_queue.len() && (#[trigger] old_queue[qi]) == g;
                assert(forall|i: int| 0 <= i < q.len() ==> (#[trigger] q[i]).0 < n);
                assert(dsome(dist@[g]) && dval(dist@[g]) <= path_cost(self.edges@, q));
                assert(dval(dist@[best as int]) <= dval(dist@[old_queue[qi] as int]));
            }
            assert forall|ii: int| 0 <= ii < gpath.len() implies (#[trigger] out@[ii])@
                == self.nodes@[(self.edges@[gpath[ii].0]@[gpath[ii].1]).0 as int].state.final_columns@ by {
                let jj = gpath.len() - 1 - ii;
                assert(out@[ii]@ == rev@[rev@.len() - 1 - ii]@);
                assert(rev@[jj]@ == self.nodes@[(self.edges@[gpath[gpath.len() - 1
                    - jj].0]@[gpath[gpath.len() - 1 - jj].1]).0 as int].state.final_columns@);
                assert(gpath[gpath.len() - 1 - jj] == gpath[ii]);
                assert(rev@.len() - 1 - ii == jj);
            }
            assert(self.nodes@ == old(self).nodes_spec());
            assert(self.edges@ == old(self).edges_spec());
            assert(old_queue == old(self).queue_spec());
            assert(shortest_frontier_path(
                old(self).nodes_spec(),
                old(self).edges_spec(),
                old(self).queue_spec(),
                gpath,
                best as int,
                out@,
            ));
        }
        out
    }
}

} // verus!
