//! Everything reachable within a budget: Dijkstra's algorithm on the
//! adjacency list, stopped at the budget.

use vstd::multiset::Multiset;
use vstd::prelude::*;
use crate::graph::{
    adjacency_closed, adjacency_edges, adjacency_view, edges_among, is_distance, is_path,
    is_shortest_path, lemma_distance_unique, lemma_path_nodes_among, lemma_path_push, path_nodes,
    path_weight,
};
use crate::queue::MinQueue;

verus! {

broadcast use vstd::multiset::group_multiset_axioms;

/// The largest cost that a search up to `max_cost` reaches. Costs are
/// summed in `u32` and held at its maximum, which also marks a node not
/// reached: so a node at exactly that distance is out of reach.
pub open spec fn budget(max_cost: u32) -> int {
    if max_cost == u32::MAX {
        u32::MAX - 1
    } else {
        max_cost as int
    }
}

/// Whether node `v` is among the entries of `out`.
pub open spec fn listed(out: Seq<(usize, u32)>, v: int) -> bool {
    exists|k: int| 0 <= k < out.len() && (#[trigger] out[k]).0 == v
}

/// Whether `out` is an isochrone of `graph` around `origin`: entries
/// `(node, cost)` of distinct nodes, each with its distance from the origin
/// as its cost, none beyond the budget, in order of cost, at most `cap` of
/// them; and whatever is within the budget and not listed was cut off by the
/// cap and is no nearer than anything listed.
pub open spec fn is_isochrone(
    graph: Set<(int, int, int)>,
    origin: int,
    max_cost: u32,
    cap: nat,
    out: Seq<(usize, u32)>,
) -> bool {
    &&& out.len() <= cap
    &&& forall|k: int|
        0 <= k < out.len() ==> (#[trigger] out[k]).1 <= budget(max_cost) && is_distance(
            graph,
            origin,
            out[k].0 as int,
            out[k].1 as int,
        )
    &&& forall|j: int, k: int|
        0 <= j < k < out.len() ==> (#[trigger] out[j]).0 != (#[trigger] out[k]).0 && out[j].1
            <= out[k].1
    &&& forall|v: int, d: int| #[trigger]
        is_distance(graph, origin, v, d) && d <= budget(max_cost) ==> listed(out, v) || (out.len()
            == cap && forall|k: int| 0 <= k < out.len() ==> (#[trigger] out[k]).1 <= d)
}

/// Whether some path from `source` to `target` weighs `d`.
spec fn reached_at(graph: Set<(int, int, int)>, source: int, target: int, d: int) -> bool {
    exists|path: Seq<(int, int, int)>| #[trigger]
        is_path(graph, source, target, path) && path_weight(path) == d
}

/// Every tentative cost is within the limit and is the weight of a path.
spec fn realized(graph: Set<(int, int, int)>, s: int, dist: Seq<u32>, max_cost: u32) -> bool {
    forall|v: int|
        0 <= v < dist.len() && (#[trigger] dist[v]) < u32::MAX ==> dist[v] <= max_cost
            && reached_at(graph, s, v, dist[v] as int)
}

/// The cost of every settled node is its distance, and at most `low`.
spec fn settled_exact(
    graph: Set<(int, int, int)>,
    s: int,
    dist: Seq<u32>,
    done: Seq<bool>,
    low: int,
) -> bool {
    forall|v: int|
        0 <= v < dist.len() && #[trigger] done[v] ==> dist[v] < u32::MAX && dist[v] <= low
            && is_distance(graph, s, v, dist[v] as int)
}

/// Every entry of the queue is for a node, at a cost within the limit, not
/// below the node's tentative cost nor below `low`, and above the cost of a
/// settled node.
spec fn queue_sound(
    queue: Multiset<(u32, usize)>,
    dist: Seq<u32>,
    done: Seq<bool>,
    max_cost: u32,
    low: int,
) -> bool {
    forall|e: (u32, usize)| #[trigger]
        queue.count(e) > 0 ==> {
            &&& e.1 < dist.len()
            &&& dist[e.1 as int] <= e.0
            &&& e.0 <= max_cost
            &&& e.0 < u32::MAX
            &&& low <= e.0
            &&& (done[e.1 as int] ==> dist[e.1 as int] < e.0)
        }
}

/// Every node that is reached and not settled waits in the queue at its
/// tentative cost.
spec fn queue_covers(queue: Multiset<(u32, usize)>, dist: Seq<u32>, done: Seq<bool>) -> bool {
    forall|v: int|
        0 <= v < dist.len() && !done[v] && (#[trigger] dist[v]) < u32::MAX ==> queue.count(
            (dist[v], v as usize),
        ) > 0
}

/// No node waits twice at its tentative cost.
spec fn queue_single(queue: Multiset<(u32, usize)>, dist: Seq<u32>) -> bool {
    forall|v: int| 0 <= v < dist.len() ==> queue.count((#[trigger] dist[v], v as usize)) <= 1
}

/// Every edge out of a settled node has been tried: its target costs no
/// more than the way over that edge, where that way is within budget `b`.
/// Of the edges of node `cur` only those before `upto` are meant.
spec fn relaxed(
    adj: Seq<Seq<(usize, u32)>>,
    dist: Seq<u32>,
    done: Seq<bool>,
    b: int,
    cur: int,
    upto: int,
) -> bool {
    forall|x: int, k: int|
        0 <= x < adj.len() && done[x] && 0 <= k < adj[x].len() && (x != cur || k < upto) && dist[x]
            + (#[trigger] adj[x][k]).1 <= b ==> dist[adj[x][k].0 as int] <= dist[x] + adj[x][k].1
}

/// What holds of the search between two steps.
spec fn search_holds(
    adj: Seq<Seq<(usize, u32)>>,
    s: int,
    max_cost: u32,
    dist: Seq<u32>,
    done: Seq<bool>,
    queue: Multiset<(u32, usize)>,
    low: int,
    cur: int,
    upto: int,
) -> bool {
    let graph = adjacency_edges(adj);
    &&& adjacency_closed(adj)
    &&& adj.len() <= usize::MAX
    &&& 0 <= s < adj.len()
    &&& dist.len() == adj.len()
    &&& done.len() == adj.len()
    &&& dist[s] == 0
    &&& 0 <= low
    &&& realized(graph, s, dist, max_cost)
    &&& settled_exact(graph, s, dist, done, low)
    &&& queue_sound(queue, dist, done, max_cost, low)
    &&& queue_covers(queue, dist, done)
    &&& queue_single(queue, dist)
    &&& relaxed(adj, dist, done, budget(max_cost), cur, upto)
}

/// The settled nodes in the order in which they were settled.
spec fn order_holds(
    order: Seq<(usize, u32)>,
    dist: Seq<u32>,
    done: Seq<bool>,
    low: int,
) -> bool {
    &&& forall|k: int|
        0 <= k < order.len() ==> {
            &&& (#[trigger] order[k]).0 < dist.len()
            &&& done[order[k].0 as int]
            &&& dist[order[k].0 as int] == order[k].1
            &&& order[k].1 <= low
        }
    &&& forall|j: int, k: int|
        0 <= j < k < order.len() ==> (#[trigger] order[j]).0 != (#[trigger] order[k]).0
            && order[j].1 <= order[k].1
    &&& forall|v: int| 0 <= v < done.len() && #[trigger] done[v] ==> listed(order, v)
}

/// How many nodes are settled.
spec fn count_done(done: Seq<bool>) -> nat
    decreases done.len(),
{
    if done.len() == 0 {
        0
    } else {
        count_done(done.drop_last()) + if done.last() {
            1nat
        } else {
            0nat
        }
    }
}

/// Where nothing is settled the count is zero.
proof fn lemma_count_done_none(done: Seq<bool>)
    requires
        forall|i: int| 0 <= i < done.len() ==> !done[i],
    ensures
        count_done(done) == 0,
    decreases done.len(),
{
    if done.len() > 0 {
        lemma_count_done_none(done.drop_last());
    }
}

/// No more nodes are settled than there are.
proof fn lemma_count_done_bound(done: Seq<bool>)
    ensures
        count_done(done) <= done.len(),
    decreases done.len(),
{
    if done.len() > 0 {
        lemma_count_done_bound(done.drop_last());
    }
}

/// Settling one more node raises the count by one.
proof fn lemma_count_done_update(done: Seq<bool>, v: int)
    requires
        0 <= v < done.len(),
        !done[v],
    ensures
        count_done(done.update(v, true)) == count_done(done) + 1,
    decreases done.len(),
{
    let after = done.update(v, true);
    if v == done.len() - 1 {
        assert(after.drop_last() =~= done.drop_last());
    } else {
        assert(after.drop_last() =~= done.drop_last().update(v, true));
        lemma_count_done_update(done.drop_last(), v);
    }
}

/// A path from the origin either ends at a settled node that costs no more
/// than the path, or weighs at least `m`, a bound under the cost of every
/// node that is reached and not settled, or is beyond the budget.
proof fn lemma_frontier(
    adj: Seq<Seq<(usize, u32)>>,
    s: int,
    b: int,
    dist: Seq<u32>,
    done: Seq<bool>,
    m: int,
    y: int,
    path: Seq<(int, int, int)>,
)
    requires
        adjacency_closed(adj),
        0 <= s < adj.len(),
        dist.len() == adj.len(),
        done.len() == adj.len(),
        dist[s] == 0,
        b < u32::MAX,
        relaxed(adj, dist, done, b, -1, 0),
        forall|v: int| 0 <= v < dist.len() && !done[v] && (#[trigger] dist[v]) < u32::MAX ==> m <= dist[v],
        is_path(adjacency_edges(adj), s, y, path),
    ensures
        0 <= y < adj.len(),
        (done[y] && dist[y] <= path_weight(path)) || path_weight(path) >= m || path_weight(path) > b,
    decreases path.len(),
{
    if path.len() == 0 {
        assert(y == s);
    } else {
        let e = path.last();
        let x = e.0;
        lemma_frontier(adj, s, b, dist, done, m, x, path.drop_last());
        let k = choose|k: int|
            0 <= k < adj[x].len() && (#[trigger] adj[x][k]).0 == e.1 && adj[x][k].1 == e.2;
        assert(adj[x][k].0 < adj.len());
        if done[x] && dist[x] <= path_weight(path.drop_last()) {
            if dist[x] + adj[x][k].1 <= b {
                assert(dist[adj[x][k].0 as int] <= dist[x] + adj[x][k].1);
            }
        }
    }
}

/// Taking a stale entry out of the queue leaves the search as it is.
proof fn lemma_pop_stale(
    adj: Seq<Seq<(usize, u32)>>,
    s: int,
    max_cost: u32,
    dist: Seq<u32>,
    done: Seq<bool>,
    queue: Multiset<(u32, usize)>,
    low: int,
    e: (u32, usize),
)
    requires
        search_holds(adj, s, max_cost, dist, done, queue, low, -1, 0),
        queue.count(e) > 0,
        e.0 > dist[e.1 as int],
    ensures
        search_holds(adj, s, max_cost, dist, done, queue.remove(e), low, -1, 0),
        queue.remove(e).len() == queue.len() - 1,
{
    let rest = queue.remove(e);
    assert forall|x: (u32, usize)| #[trigger] rest.count(x) > 0 implies queue.count(x) > 0 by {}
    assert forall|v: int|
        0 <= v < dist.len() && !done[v] && (#[trigger] dist[v]) < u32::MAX implies rest.count(
        (dist[v], v as usize),
    ) > 0 by {
        assert(queue.count((dist[v], v as usize)) > 0);
        assert((dist[v], v as usize) != e);
    }
    assert forall|v: int| 0 <= v < dist.len() implies rest.count(
        (#[trigger] dist[v], v as usize),
    ) <= 1 by {
        assert(queue.count((dist[v], v as usize)) <= 1);
    }
}

/// An entry of least cost that is not stale settles its node: the node was
/// not settled, and its cost is its distance.
proof fn lemma_settle(
    adj: Seq<Seq<(usize, u32)>>,
    s: int,
    max_cost: u32,
    dist: Seq<u32>,
    done: Seq<bool>,
    queue: Multiset<(u32, usize)>,
    low: int,
    e: (u32, usize),
)
    requires
        search_holds(adj, s, max_cost, dist, done, queue, low, -1, 0),
        queue.count(e) > 0,
        forall|x: (u32, usize)| queue.count(x) > 0 ==> e.0 <= x.0,
        e.0 <= dist[e.1 as int],
    ensures
        e.1 < dist.len(),
        e.0 == dist[e.1 as int],
        !done[e.1 as int],
        low <= e.0 <= budget(max_cost),
        search_holds(
            adj,
            s,
            max_cost,
            dist,
            done.update(e.1 as int, true),
            queue.remove(e),
            e.0 as int,
            e.1 as int,
            0,
        ),
        queue.remove(e).len() == queue.len() - 1,
{
    let graph = adjacency_edges(adj);
    let b = budget(max_cost);
    let cost = e.0;
    let node = e.1 as int;
    let rest = queue.remove(e);
    let done1 = done.update(node, true);
    assert(cost == dist[node]);
    assert(!done[node]);
    assert forall|v: int|
        0 <= v < dist.len() && !done[v] && (#[trigger] dist[v]) < u32::MAX implies cost
        <= dist[v] by {
        assert(queue.count((dist[v], v as usize)) > 0);
    }
    assert(reached_at(graph, s, node, cost as int));
    let witness = choose|p: Seq<(int, int, int)>| #[trigger]
        is_path(graph, s, node, p) && path_weight(p) == cost;
    assert forall|other: Seq<(int, int, int)>| #[trigger]
        is_path(graph, s, node, other) implies path_weight(witness) <= path_weight(other) by {
        lemma_frontier(adj, s, b, dist, done, cost as int, node, other);
    }
    assert(is_shortest_path(graph, s, node, witness));
    assert(is_distance(graph, s, node, cost as int));
    assert forall|x: (u32, usize)| #[trigger] rest.count(x) > 0 implies queue.count(x) > 0 by {}
    assert forall|x: (u32, usize)| #[trigger] rest.count(x) > 0 implies {
        &&& x.1 < dist.len()
        &&& dist[x.1 as int] <= x.0
        &&& x.0 <= max_cost
        &&& x.0 < u32::MAX
        &&& cost <= x.0
        &&& (done1[x.1 as int] ==> dist[x.1 as int] < x.0)
    } by {
        assert(queue.count(x) > 0);
        if x.1 == node && x.0 == cost {
            assert(x == e);
            assert(queue.count((dist[node], node as usize)) <= 1);
            assert(false);
        }
    }
    assert forall|v: int|
        0 <= v < dist.len() && !done1[v] && (#[trigger] dist[v]) < u32::MAX implies rest.count(
        (dist[v], v as usize),
    ) > 0 by {
        assert(queue.count((dist[v], v as usize)) > 0);
        assert((dist[v], v as usize) != e);
    }
    assert forall|v: int| 0 <= v < dist.len() implies rest.count(
        (#[trigger] dist[v], v as usize),
    ) <= 1 by {
        assert(queue.count((dist[v], v as usize)) <= 1);
    }
    assert(settled_exact(graph, s, dist, done1, cost as int)) by {
        assert forall|v: int| 0 <= v < dist.len() && #[trigger] done1[v] implies dist[v]
            < u32::MAX && dist[v] <= cost && is_distance(graph, s, v, dist[v] as int) by {
            if v != node {
                assert(done[v]);
            }
        }
    }
    assert(relaxed(adj, dist, done1, b, node, 0)) by {
        assert forall|x: int, k: int|
            0 <= x < adj.len() && done1[x] && 0 <= k < adj[x].len() && (x != node || k < 0)
                && dist[x] + (#[trigger] adj[x][k]).1 <= b implies dist[adj[x][k].0 as int]
            <= dist[x] + adj[x][k].1 by {
            assert(done[x]);
        }
    }
}

/// The settled node joins the order of settling.
proof fn lemma_order_push(
    order: Seq<(usize, u32)>,
    dist: Seq<u32>,
    done: Seq<bool>,
    low: int,
    e: (u32, usize),
)
    requires
        order_holds(order, dist, done, low),
        dist.len() == done.len(),
        e.1 < dist.len(),
        !done[e.1 as int],
        dist[e.1 as int] == e.0,
        low <= e.0,
    ensures
        order_holds(order.push((e.1, e.0)), dist, done.update(e.1 as int, true), e.0 as int),
{
    let node = e.1 as int;
    let done1 = done.update(node, true);
    let order1 = order.push((e.1, e.0));
    assert forall|v: int| 0 <= v < done1.len() && #[trigger] done1[v] implies listed(
        order1,
        v,
    ) by {
        if v == node {
            assert(order1[order.len() as int].0 == v);
        } else {
            assert(done[v]);
            let k = choose|k: int| 0 <= k < order.len() && (#[trigger] order[k]).0 == v;
            assert(order1[k].0 == v);
        }
    }
    assert forall|j: int, k: int| 0 <= j < k < order1.len() implies (#[trigger] order1[j]).0 != (
    #[trigger] order1[k]).0 && order1[j].1 <= order1[k].1 by {
        assert(order1[j] == order[j]);
        if k < order.len() {
            assert(order1[k] == order[k]);
        }
    }
    assert forall|k: int| 0 <= k < order1.len() implies {
        &&& (#[trigger] order1[k]).0 < dist.len()
        &&& done1[order1[k].0 as int]
        &&& dist[order1[k].0 as int] == order1[k].1
        &&& order1[k].1 <= e.0
    } by {
        if k < order.len() {
            assert(order1[k] == order[k]);
        }
    }
}

/// An edge that brings its target nearer: the target takes the new cost
/// and waits in the queue at it.
proof fn lemma_relax(
    adj: Seq<Seq<(usize, u32)>>,
    s: int,
    max_cost: u32,
    dist: Seq<u32>,
    done: Seq<bool>,
    queue: Multiset<(u32, usize)>,
    node: int,
    k: int,
)
    requires
        0 <= node < adj.len(),
        0 <= k < adj[node].len(),
        done[node],
        search_holds(adj, s, max_cost, dist, done, queue, dist[node] as int, node, k),
        dist[node] + adj[node][k].1 <= max_cost,
        dist[node] + adj[node][k].1 < dist[adj[node][k].0 as int],
    ensures
        search_holds(
            adj,
            s,
            max_cost,
            dist.update(adj[node][k].0 as int, (dist[node] + adj[node][k].1) as u32),
            done,
            queue.insert(((dist[node] + adj[node][k].1) as u32, adj[node][k].0)),
            dist[node] as int,
            node,
            k + 1,
        ),
        !done[adj[node][k].0 as int],
{
    let graph = adjacency_edges(adj);
    let b = budget(max_cost);
    let cost = dist[node];
    let low = cost as int;
    let next = adj[node][k].0;
    let weight = adj[node][k].1;
    let nc = (cost + weight) as u32;
    assert(next < adj.len());
    assert(nc == cost + weight);
    assert(!done[next as int]);
    let dist1 = dist.update(next as int, nc);
    let added = (nc, next);
    let q1 = queue.insert(added);
    let p = choose|p: Seq<(int, int, int)>| #[trigger]
        is_path(graph, s, node, p) && path_weight(p) == cost;
    let edge = (node, next as int, weight as int);
    assert(adj[edge.0][k].0 == edge.1 && adj[edge.0][k].1 == edge.2);
    assert(graph.contains(edge));
    lemma_path_push(graph, s, p, edge);
    assert(reached_at(graph, s, next as int, nc as int));
    assert(queue.count(added) == 0) by {
        if queue.count(added) > 0 {
            assert(dist[next as int] <= nc);
        }
    }
    assert(realized(graph, s, dist1, max_cost)) by {
        assert forall|v: int| 0 <= v < dist1.len() && (#[trigger] dist1[v]) < u32::MAX implies dist1[v]
            <= max_cost && reached_at(graph, s, v, dist1[v] as int) by {
            if v != next {
                assert(dist1[v] == dist[v]);
            }
        }
    }
    assert(settled_exact(graph, s, dist1, done, low)) by {
        assert forall|v: int| 0 <= v < dist1.len() && #[trigger] done[v] implies dist1[v]
            < u32::MAX && dist1[v] <= low && is_distance(graph, s, v, dist1[v] as int) by {
            assert(dist1[v] == dist[v]);
        }
    }
    assert(queue_sound(q1, dist1, done, max_cost, low)) by {
        assert forall|x: (u32, usize)| #[trigger] q1.count(x) > 0 implies {
            &&& x.1 < dist1.len()
            &&& dist1[x.1 as int] <= x.0
            &&& x.0 <= max_cost
            &&& x.0 < u32::MAX
            &&& low <= x.0
            &&& (done[x.1 as int] ==> dist1[x.1 as int] < x.0)
        } by {
            if x != added {
                assert(queue.count(x) > 0);
                assert(dist1[x.1 as int] <= dist[x.1 as int]);
            }
        }
    }
    assert(queue_covers(q1, dist1, done)) by {
        assert forall|v: int|
            0 <= v < dist1.len() && !done[v] && (#[trigger] dist1[v]) < u32::MAX implies q1.count(
            (dist1[v], v as usize),
        ) > 0 by {
            if v != next {
                assert(dist1[v] == dist[v]);
                assert(queue.count((dist[v], v as usize)) > 0);
            }
        }
    }
    assert(queue_single(q1, dist1)) by {
        assert forall|v: int| 0 <= v < dist1.len() implies q1.count(
            (#[trigger] dist1[v], v as usize),
        ) <= 1 by {
            if v != next {
                assert(dist1[v] == dist[v]);
                assert((dist[v], v as usize) != added);
                assert(queue.count((dist[v], v as usize)) <= 1);
            }
        }
    }
    assert(relaxed(adj, dist1, done, b, node, k + 1)) by {
        assert forall|x: int, j: int|
            0 <= x < adj.len() && done[x] && 0 <= j < adj[x].len() && (x != node || j < k + 1)
                && dist1[x] + (#[trigger] adj[x][j]).1 <= b implies dist1[adj[x][j].0 as int]
            <= dist1[x] + adj[x][j].1 by {
            assert(dist1[x] == dist[x]);
            assert(adj[x][j].0 < adj.len());
            assert(dist1[adj[x][j].0 as int] <= dist[adj[x][j].0 as int]);
            if x == node && j == k {
            } else {
                assert(dist[adj[x][j].0 as int] <= dist[x] + adj[x][j].1);
            }
        }
    }
}

/// An edge that brings its target no nearer, or beyond the limit, changes
/// nothing.
proof fn lemma_no_relax(
    adj: Seq<Seq<(usize, u32)>>,
    s: int,
    max_cost: u32,
    dist: Seq<u32>,
    done: Seq<bool>,
    queue: Multiset<(u32, usize)>,
    node: int,
    k: int,
)
    requires
        0 <= node < adj.len(),
        0 <= k < adj[node].len(),
        done[node],
        search_holds(adj, s, max_cost, dist, done, queue, dist[node] as int, node, k),
        !(dist[node] + adj[node][k].1 <= max_cost && dist[node] + adj[node][k].1
            < dist[adj[node][k].0 as int]),
    ensures
        search_holds(adj, s, max_cost, dist, done, queue, dist[node] as int, node, k + 1),
{
    let b = budget(max_cost);
    assert(adj[node][k].0 < adj.len());
    assert forall|x: int, j: int|
        0 <= x < adj.len() && done[x] && 0 <= j < adj[x].len() && (x != node || j < k + 1)
            && dist[x] + (#[trigger] adj[x][j]).1 <= b implies dist[adj[x][j].0 as int] <= dist[x]
        + adj[x][j].1 by {
        if x == node && j == k {
        } else {
            assert(dist[adj[x][j].0 as int] <= dist[x] + adj[x][j].1);
        }
    }
}

/// Once every edge of the settled node has been tried, the search is
/// between two steps again.
proof fn lemma_edges_done(
    adj: Seq<Seq<(usize, u32)>>,
    s: int,
    max_cost: u32,
    dist: Seq<u32>,
    done: Seq<bool>,
    queue: Multiset<(u32, usize)>,
    low: int,
    node: int,
)
    requires
        0 <= node < adj.len(),
        search_holds(adj, s, max_cost, dist, done, queue, low, node, adj[node].len() as int),
    ensures
        search_holds(adj, s, max_cost, dist, done, queue, low, -1, 0),
{
    let b = budget(max_cost);
    assert forall|x: int, j: int|
        0 <= x < adj.len() && done[x] && 0 <= j < adj[x].len() && (x != -1 || j < 0) && dist[x] + (
        #[trigger] adj[x][j]).1 <= b implies dist[adj[x][j].0 as int] <= dist[x] + adj[x][j].1 by {
        if x == node {
            assert(j < adj[node].len());
        }
    }
}

/// When the queue has run empty, the first `cap` settled nodes are the
/// isochrone.
proof fn lemma_finish(
    adj: Seq<Seq<(usize, u32)>>,
    s: int,
    max_cost: u32,
    dist: Seq<u32>,
    done: Seq<bool>,
    queue: Multiset<(u32, usize)>,
    low: int,
    order: Seq<(usize, u32)>,
    cap: nat,
    out: Seq<(usize, u32)>,
)
    requires
        search_holds(adj, s, max_cost, dist, done, queue, low, -1, 0),
        order_holds(order, dist, done, low),
        queue.len() == 0,
        out.len() == if order.len() < cap {
            order.len()
        } else {
            cap
        },
        forall|k: int| 0 <= k < out.len() ==> out[k] == order[k],
    ensures
        is_isochrone(adjacency_edges(adj), s, max_cost, cap, out),
{
    let graph = adjacency_edges(adj);
    let b = budget(max_cost);
    assert forall|v: int| 0 <= v < dist.len() && !done[v] && (#[trigger] dist[v])
        < u32::MAX implies u32::MAX <= dist[v] by {
        assert(queue.count((dist[v], v as usize)) > 0);
    }
    assert forall|v: int, d: int| #[trigger]
        is_distance(graph, s, v, d) && d <= b implies listed(out, v) || (out.len() == cap
        && forall|k: int| 0 <= k < out.len() ==> (#[trigger] out[k]).1 <= d) by {
        let p = choose|p: Seq<(int, int, int)>| #[trigger]
            is_shortest_path(graph, s, v, p) && path_weight(p) == d;
        lemma_frontier(adj, s, b, dist, done, u32::MAX as int, v, p);
        assert(done[v]);
        lemma_distance_unique(graph, s, v, d, dist[v] as int);
        assert(listed(order, v));
        let i = choose|i: int| 0 <= i < order.len() && (#[trigger] order[i]).0 == v;
        if i < out.len() {
            assert(out[i].0 == v);
        } else {
            assert forall|k: int| 0 <= k < out.len() implies (#[trigger] out[k]).1 <= d by {
                assert(out[k] == order[k]);
                assert(order[k].1 <= order[i].1);
            }
        }
    }
    assert forall|j: int, k: int| 0 <= j < k < out.len() implies (#[trigger] out[j]).0 != (
    #[trigger] out[k]).0 && out[j].1 <= out[k].1 by {
        assert(out[j] == order[j]);
        assert(out[k] == order[k]);
    }
    assert forall|k: int| 0 <= k < out.len() implies (#[trigger] out[k]).1 <= b && is_distance(
        graph,
        s,
        out[k].0 as int,
        out[k].1 as int,
    ) by {
        assert(out[k] == order[k]);
        assert(done[order[k].0 as int]);
    }
}

/// At the start only the origin is reached, at cost zero, and waits in the
/// queue.
proof fn lemma_start(adj: Seq<Seq<(usize, u32)>>, s: int, max_cost: u32, dist: Seq<u32>)
    requires
        adjacency_closed(adj),
        adj.len() <= usize::MAX,
        0 <= s < adj.len(),
        dist.len() == adj.len(),
        forall|v: int| 0 <= v < dist.len() ==> dist[v] == if v == s {
            0u32
        } else {
            u32::MAX
        },
    ensures
        search_holds(
            adj,
            s,
            max_cost,
            dist,
            Seq::new(adj.len(), |i: int| false),
            Multiset::<(u32, usize)>::empty().insert((0u32, s as usize)),
            0,
            -1,
            0,
        ),
{
    let graph = adjacency_edges(adj);
    assert(is_path(graph, s, s, Seq::<(int, int, int)>::empty()));
    assert(path_weight(Seq::<(int, int, int)>::empty()) == 0);
    assert(reached_at(graph, s, s, 0));
}

/// The nodes within `max_cost` of `origin`, each with its distance, nearest
/// first, at most `cap` of them.
///
/// `adj` holds for each node its out-edges as pairs of target and weight.
/// Distances are sums of weights, in the unit of the weights.
pub fn reach_within(adj: &Vec<Vec<(usize, u32)>>, origin: usize, max_cost: u32, cap: usize) -> (out:
    Vec<(usize, u32)>)
    requires
        adjacency_closed(adjacency_view(adj@)),
        origin < adj.len(),
    ensures
        is_isochrone(
            adjacency_edges(adjacency_view(adj@)),
            origin as int,
            max_cost,
            cap as nat,
            out@,
        ),
{
    let n = adj.len();
    let ghost av = adjacency_view(adj@);
    let ghost s = origin as int;
    let mut dist: Vec<u32> = Vec::new();
    while dist.len() < n
        invariant
            dist.len() <= n,
            forall|i: int| 0 <= i < dist.len() ==> dist@[i] == u32::MAX,
        decreases n - dist.len(),
    {
        dist.push(u32::MAX);
    }
    let mut heap = MinQueue::new();
    dist.set(origin, 0);
    heap.push(0, origin);
    let mut out: Vec<(usize, u32)> = Vec::new();
    let ghost mut done: Seq<bool> = Seq::new(n as nat, |i: int| false);
    let ghost mut order: Seq<(usize, u32)> = Seq::empty();
    let ghost mut low: int = 0;
    proof {
        lemma_start(av, s, max_cost, dist@);
        lemma_count_done_bound(done);
        lemma_count_done_none(done);
    }
    while heap.len() > 0
        invariant
            n == adj.len(),
            av == adjacency_view(adj@),
            s == origin as int,
            heap.wf(),
            search_holds(av, s, max_cost, dist@, done, heap@, low, -1, 0),
            order_holds(order, dist@, done, low),
            order.len() == count_done(done),
            count_done(done) <= n,
            out@.len() == if order.len() < cap {
                order.len()
            } else {
                cap as nat
            },
            forall|k: int| 0 <= k < out@.len() ==> out@[k] == order[k],
        decreases n - count_done(done), heap@.len(),
    {
        let ghost q0 = heap@;
        let (cost, node) = match heap.pop() {
            Some(e) => e,
            None => {
                return out;
            },
        };
        assert(node < n) by {
            assert(q0.count((cost, node)) > 0);
        }
        if cost > dist[node] {
            proof {
                lemma_pop_stale(av, s, max_cost, dist@, done, q0, low, (cost, node));
            }
        } else {
            proof {
                lemma_settle(av, s, max_cost, dist@, done, q0, low, (cost, node));
                lemma_order_push(order, dist@, done, low, (cost, node));
                lemma_count_done_update(done, node as int);
                done = done.update(node as int, true);
                lemma_count_done_bound(done);
                order = order.push((node, cost));
                low = cost as int;
            }
            if out.len() < cap {
                out.push((node, cost));
            }
            let edges = &adj[node];
            let mut k: usize = 0;
            while k < edges.len()
                invariant
                    n == adj.len(),
                    av == adjacency_view(adj@),
                    s == origin as int,
                    node < n,
                    edges@ == av[node as int],
                    k <= edges.len(),
                    low == cost as int,
                    done[node as int],
                    done.len() == n,
                    dist@.len() == n,
                    dist@[node as int] == cost,
                    heap.wf(),
                    search_holds(av, s, max_cost, dist@, done, heap@, low, node as int, k as int),
                    order_holds(order, dist@, done, low),
                decreases edges.len() - k,
            {
                let (next, weight) = edges[k];
                let next_cost = cost.saturating_add(weight);
                let ghost dist1 = dist@;
                proof {
                    assert(av[node as int][k as int] == (next, weight));
                    assert(next < n);
                }
                if next_cost <= max_cost && next_cost < dist[next] {
                    proof {
                        lemma_relax(av, s, max_cost, dist@, done, heap@, node as int, k as int);
                    }
                    dist.set(next, next_cost);
                    heap.push(next_cost, next);
                    proof {
                        assert forall|i: int| 0 <= i < order.len() implies {
                            &&& (#[trigger] order[i]).0 < dist@.len()
                            &&& done[order[i].0 as int]
                            &&& dist@[order[i].0 as int] == order[i].1
                            &&& order[i].1 <= low
                        } by {
                            assert(dist@[order[i].0 as int] == dist1[order[i].0 as int]);
                        }
                    }
                } else {
                    proof {
                        lemma_no_relax(av, s, max_cost, dist@, done, heap@, node as int, k as int);
                    }
                }
                k += 1;
            }
            proof {
                lemma_edges_done(av, s, max_cost, dist@, done, heap@, low, node as int);
            }
        }
    }
    proof {
        lemma_finish(av, s, max_cost, dist@, done, heap@, low, order, cap as nat, out@);
    }
    out
}

/// A wider budget reaches everything that a narrower one reaches, at the
/// same costs, as long as the cap did not cut the wider result short.
pub proof fn lemma_isochrone_grows(
    graph: Set<(int, int, int)>,
    origin: int,
    narrow: u32,
    wide: u32,
    narrow_cap: nat,
    wide_cap: nat,
    inner: Seq<(usize, u32)>,
    outer: Seq<(usize, u32)>,
)
    requires
        narrow <= wide,
        is_isochrone(graph, origin, narrow, narrow_cap, inner),
        is_isochrone(graph, origin, wide, wide_cap, outer),
        outer.len() < wide_cap,
    ensures
        forall|k: int| 0 <= k < inner.len() ==> outer.contains(#[trigger] inner[k]),
{
    assert forall|k: int| 0 <= k < inner.len() implies outer.contains(#[trigger] inner[k]) by {
        let e = inner[k];
        assert(is_distance(graph, origin, e.0 as int, e.1 as int));
        assert(listed(outer, e.0 as int));
        let j = choose|j: int| 0 <= j < outer.len() && (#[trigger] outer[j]).0 == e.0;
        lemma_distance_unique(graph, origin, e.0 as int, e.1 as int, outer[j].1 as int);
        assert(outer[j] == e);
    }
}

/// Every entry of an isochrone is for a node of the graph.
pub proof fn lemma_isochrone_nodes(
    adj: Seq<Seq<(usize, u32)>>,
    origin: int,
    max_cost: u32,
    cap: nat,
    out: Seq<(usize, u32)>,
)
    requires
        adjacency_closed(adj),
        0 <= origin < adj.len(),
        is_isochrone(adjacency_edges(adj), origin, max_cost, cap, out),
    ensures
        forall|k: int| 0 <= k < out.len() ==> (#[trigger] out[k]).0 < adj.len(),
{
    let graph = adjacency_edges(adj);
    assert(edges_among(graph, adj.len() as int)) by {
        assert forall|e: (int, int, int)| #[trigger] graph.contains(e) implies 0 <= e.0 < adj.len()
            && 0 <= e.1 < adj.len() by {
            let k = choose|k: int|
                0 <= k < adj[e.0].len() && (#[trigger] adj[e.0][k]).0 == e.1 && adj[e.0][k].1
                    == e.2;
            assert(adj[e.0][k].0 < adj.len());
        }
    }
    assert forall|k: int| 0 <= k < out.len() implies (#[trigger] out[k]).0 < adj.len() by {
        let v = out[k].0 as int;
        assert(is_distance(graph, origin, v, out[k].1 as int));
        let p = choose|p: Seq<(int, int, int)>| #[trigger]
            is_shortest_path(graph, origin, v, p) && path_weight(p) == out[k].1;
        lemma_path_nodes_among(graph, adj.len() as int, origin, v, p);
        assert(path_nodes(origin, p)[p.len() as int] == v);
    }
}

} // verus!
