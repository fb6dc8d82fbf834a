//! Directed weighted graphs as sets of edges, their paths and distances.
//!
//! An edge is a triple `(from, to, weight)`. A path is the sequence of the
//! edges it walks along; the empty path stays where it is.

use vstd::prelude::*;

verus! {

/// Sum of the weights along `path`.
pub open spec fn path_weight(path: Seq<(int, int, int)>) -> int
    decreases path.len(),
{
    if path.len() == 0 {
        0
    } else {
        path_weight(path.drop_last()) + path.last().2
    }
}

/// Whether `path` leads from `source` to `target` along edges of `graph`.
pub open spec fn is_path(
    graph: Set<(int, int, int)>,
    source: int,
    target: int,
    path: Seq<(int, int, int)>,
) -> bool
    decreases path.len(),
{
    if path.len() == 0 {
        source == target
    } else {
        &&& graph.contains(path.last())
        &&& path.last().1 == target
        &&& is_path(graph, source, path.last().0, path.drop_last())
    }
}

/// The nodes that `path` visits when it starts at `source`, in order.
pub open spec fn path_nodes(source: int, path: Seq<(int, int, int)>) -> Seq<int> {
    seq![source] + path.map_values(|e: (int, int, int)| e.1)
}

/// Whether some path leads from `source` to `target`.
pub open spec fn reachable(graph: Set<(int, int, int)>, source: int, target: int) -> bool {
    exists|path: Seq<(int, int, int)>| is_path(graph, source, target, path)
}

/// Whether `path` leads from `source` to `target` and no path between them
/// weighs less.
pub open spec fn is_shortest_path(
    graph: Set<(int, int, int)>,
    source: int,
    target: int,
    path: Seq<(int, int, int)>,
) -> bool {
    &&& is_path(graph, source, target, path)
    &&& forall|other: Seq<(int, int, int)>| #[trigger]
        is_path(graph, source, target, other) ==> path_weight(path) <= path_weight(other)
}

/// Whether `d` is the weight of a shortest path from `source` to `target`.
pub open spec fn is_distance(graph: Set<(int, int, int)>, source: int, target: int, d: int) -> bool {
    exists|path: Seq<(int, int, int)>| #[trigger]
        is_shortest_path(graph, source, target, path) && path_weight(path) == d
}

/// The weight of a shortest path from `source` to `target`, or `None` where
/// no path of least weight exists (in particular where none exists at all).
pub open spec fn distance(graph: Set<(int, int, int)>, source: int, target: int) -> Option<int> {
    if exists|d: int| is_distance(graph, source, target, d) {
        Some(choose|d: int| is_distance(graph, source, target, d))
    } else {
        None
    }
}

/// Whether no edge of `graph` has a negative weight.
pub open spec fn non_negative(graph: Set<(int, int, int)>) -> bool {
    forall|e: (int, int, int)| #[trigger] graph.contains(e) ==> e.2 >= 0
}

/// Whether `graph` holds the reverse of each of its edges, at the same weight.
pub open spec fn symmetric(graph: Set<(int, int, int)>) -> bool {
    forall|e: (int, int, int)| #[trigger] graph.contains(e) ==> graph.contains((e.1, e.0, e.2))
}

/// Two distances between the same nodes are equal.
pub proof fn lemma_distance_unique(
    graph: Set<(int, int, int)>,
    source: int,
    target: int,
    d1: int,
    d2: int,
)
    requires
        is_distance(graph, source, target, d1),
        is_distance(graph, source, target, d2),
    ensures
        d1 == d2,
{
    let first = choose|p: Seq<(int, int, int)>| #[trigger]
        is_shortest_path(graph, source, target, p) && path_weight(p) == d1;
    let second = choose|p: Seq<(int, int, int)>| #[trigger]
        is_shortest_path(graph, source, target, p) && path_weight(p) == d2;
    assert(is_path(graph, source, target, first));
    assert(is_path(graph, source, target, second));
}

/// `distance` is the distance wherever there is one.
pub proof fn lemma_distance_is(graph: Set<(int, int, int)>, source: int, target: int, d: int)
    requires
        is_distance(graph, source, target, d),
    ensures
        distance(graph, source, target) == Some(d),
{
    let c = choose|c: int| is_distance(graph, source, target, c);
    lemma_distance_unique(graph, source, target, c, d);
}

/// Where nothing is reachable there is no distance.
pub proof fn lemma_unreachable_no_distance(graph: Set<(int, int, int)>, source: int, target: int)
    requires
        !reachable(graph, source, target),
    ensures
        distance(graph, source, target) is None,
{
    if exists|d: int| is_distance(graph, source, target, d) {
        let d = choose|d: int| is_distance(graph, source, target, d);
        let p = choose|p: Seq<(int, int, int)>| #[trigger]
            is_shortest_path(graph, source, target, p) && path_weight(p) == d;
        assert(is_path(graph, source, target, p));
    }
}

/// A path followed by one more edge is a path.
pub proof fn lemma_path_push(
    graph: Set<(int, int, int)>,
    source: int,
    path: Seq<(int, int, int)>,
    edge: (int, int, int),
)
    requires
        is_path(graph, source, edge.0, path),
        graph.contains(edge),
    ensures
        is_path(graph, source, edge.1, path.push(edge)),
        path_weight(path.push(edge)) == path_weight(path) + edge.2,
{
    assert(path.push(edge).drop_last() =~= path);
}

/// The edges of an adjacency list: entry `k` of list `u` is the pair of the
/// node that an edge out of `u` leads to and the weight of that edge.
pub open spec fn adjacency_edges(adjacency: Seq<Seq<(usize, u32)>>) -> Set<(int, int, int)> {
    Set::new(
        |e: (int, int, int)|
            0 <= e.0 < adjacency.len() && exists|k: int|
                0 <= k < adjacency[e.0].len() && (#[trigger] adjacency[e.0][k]).0 == e.1
                    && adjacency[e.0][k].1 == e.2,
    )
}

/// Whether every edge of an adjacency list leads to one of its nodes.
pub open spec fn adjacency_closed(adjacency: Seq<Seq<(usize, u32)>>) -> bool {
    forall|u: int, k: int|
        0 <= u < adjacency.len() && 0 <= k < adjacency[u].len() ==> (#[trigger] adjacency[u][k]).0
            < adjacency.len()
}

/// An adjacency list held in vectors, as sequences.
pub open spec fn adjacency_view(lists: Seq<Vec<(usize, u32)>>) -> Seq<Seq<(usize, u32)>> {
    Seq::new(lists.len(), |i: int| lists[i]@)
}

/// An edge followed by a path that starts where the edge ends is a path.
pub proof fn lemma_path_prepend(
    graph: Set<(int, int, int)>,
    edge: (int, int, int),
    target: int,
    path: Seq<(int, int, int)>,
)
    requires
        graph.contains(edge),
        is_path(graph, edge.1, target, path),
    ensures
        is_path(graph, edge.0, target, seq![edge] + path),
        path_weight(seq![edge] + path) == edge.2 + path_weight(path),
    decreases path.len(),
{
    let whole = seq![edge] + path;
    if path.len() == 0 {
        assert(whole =~= Seq::<(int, int, int)>::empty().push(edge));
        assert(whole.drop_last() =~= Seq::<(int, int, int)>::empty());
        assert(is_path(graph, edge.0, edge.0, whole.drop_last()));
        assert(path_weight(whole.drop_last()) == 0);
        assert(whole.last() == edge);
        assert(path_weight(whole) == path_weight(whole.drop_last()) + whole.last().2);
    } else {
        lemma_path_prepend(graph, edge, path.last().0, path.drop_last());
        assert(whole.drop_last() =~= seq![edge] + path.drop_last());
        assert(whole.last() == path.last());
    }
}

/// In a symmetric graph every path can be walked back at the same weight.
pub proof fn lemma_path_reverse(
    graph: Set<(int, int, int)>,
    source: int,
    target: int,
    path: Seq<(int, int, int)>,
) -> (back: Seq<(int, int, int)>)
    requires
        symmetric(graph),
        is_path(graph, source, target, path),
    ensures
        is_path(graph, target, source, back),
        path_weight(back) == path_weight(path),
    decreases path.len(),
{
    if path.len() == 0 {
        path
    } else {
        let e = path.last();
        let rest = lemma_path_reverse(graph, source, e.0, path.drop_last());
        let turned = (e.1, e.0, e.2);
        assert(graph.contains(turned));
        lemma_path_prepend(graph, turned, source, rest);
        seq![turned] + rest
    }
}

/// In a symmetric graph the distance from `a` to `b` is the distance from
/// `b` to `a`.
pub proof fn lemma_symmetric_is_distance(graph: Set<(int, int, int)>, a: int, b: int, d: int)
    requires
        symmetric(graph),
        is_distance(graph, a, b, d),
    ensures
        is_distance(graph, b, a, d),
{
    let p = choose|p: Seq<(int, int, int)>| #[trigger]
        is_shortest_path(graph, a, b, p) && path_weight(p) == d;
    let q = lemma_path_reverse(graph, a, b, p);
    assert forall|other: Seq<(int, int, int)>| #[trigger]
        is_path(graph, b, a, other) implies path_weight(q) <= path_weight(other) by {
        let turned = lemma_path_reverse(graph, b, a, other);
        assert(is_path(graph, a, b, turned));
    }
    assert(is_shortest_path(graph, b, a, q));
}

/// In a graph where every edge can be driven both ways at the same weight,
/// going costs as much as coming back.
pub proof fn lemma_symmetric_distance(graph: Set<(int, int, int)>, a: int, b: int)
    requires
        symmetric(graph),
    ensures
        distance(graph, a, b) == distance(graph, b, a),
{
    if exists|d: int| is_distance(graph, a, b, d) {
        let d = choose|d: int| is_distance(graph, a, b, d);
        lemma_symmetric_is_distance(graph, a, b, d);
        lemma_distance_is(graph, a, b, d);
        lemma_distance_is(graph, b, a, d);
    } else if exists|d: int| is_distance(graph, b, a, d) {
        let d = choose|d: int| is_distance(graph, b, a, d);
        lemma_symmetric_is_distance(graph, b, a, d);
    }
}

/// Whether every edge of `graph` joins two of the nodes `0 .. n`.
pub open spec fn edges_among(graph: Set<(int, int, int)>, n: int) -> bool {
    forall|e: (int, int, int)| #[trigger] graph.contains(e) ==> 0 <= e.0 < n && 0 <= e.1 < n
}

/// A path among `n` nodes that starts at one of them visits only them.
pub proof fn lemma_path_nodes_among(
    graph: Set<(int, int, int)>,
    n: int,
    source: int,
    target: int,
    path: Seq<(int, int, int)>,
)
    requires
        edges_among(graph, n),
        0 <= source < n,
        is_path(graph, source, target, path),
    ensures
        path_nodes(source, path).len() == path.len() + 1,
        path_nodes(source, path)[0] == source,
        path_nodes(source, path).last() == target,
        forall|i: int|
            0 <= i < path_nodes(source, path).len() ==> 0 <= #[trigger] path_nodes(source, path)[i]
                < n,
    decreases path.len(),
{
    let nodes = path_nodes(source, path);
    if path.len() > 0 {
        lemma_path_nodes_among(graph, n, source, path.last().0, path.drop_last());
        let before = path_nodes(source, path.drop_last());
        assert forall|i: int| 0 <= i < nodes.len() implies 0 <= #[trigger] nodes[i] < n by {
            if i < before.len() {
                assert(nodes[i] == before[i]);
            } else {
                assert(nodes[i] == path.last().1);
                assert(graph.contains(path.last()));
            }
        }
    }
}

/// Of the edges between each ordered pair of nodes, those of least weight.
pub open spec fn lightest(edges: Set<(int, int, int)>) -> Set<(int, int, int)> {
    Set::new(
        |e: (int, int, int)|
            edges.contains(e) && forall|w: int| #[trigger]
                edges.contains((e.0, e.1, w)) ==> e.2 <= w,
    )
}

/// The lightest edges of a graph that can be driven both ways can be driven
/// both ways.
pub proof fn lemma_lightest_symmetric(edges: Set<(int, int, int)>)
    requires
        symmetric(edges),
    ensures
        symmetric(lightest(edges)),
{
    assert forall|e: (int, int, int)| #[trigger] lightest(edges).contains(e) implies lightest(
        edges,
    ).contains((e.1, e.0, e.2)) by {
        assert(edges.contains(e));
        assert forall|w: int| #[trigger] edges.contains((e.1, e.0, w)) implies e.2 <= w by {
            assert(edges.contains(((e.1, e.0, w).1, (e.1, e.0, w).0, (e.1, e.0, w).2)));
        }
    }
}

/// Between the ends of every edge runs a lightest edge, no heavier.
proof fn lemma_lightest_exists(edges: Set<(int, int, int)>, e: (int, int, int)) -> (w: int)
    requires
        non_negative(edges),
        edges.contains(e),
    ensures
        lightest(edges).contains((e.0, e.1, w)),
        w <= e.2,
    decreases e.2,
{
    if forall|w: int| #[trigger] edges.contains((e.0, e.1, w)) ==> e.2 <= w {
        e.2
    } else {
        let lighter = choose|w: int| #[trigger] edges.contains((e.0, e.1, w)) && w < e.2;
        lemma_lightest_exists(edges, (e.0, e.1, lighter))
    }
}

/// Along every path runs a path over lightest edges, no heavier.
proof fn lemma_lighten_path(
    edges: Set<(int, int, int)>,
    source: int,
    target: int,
    path: Seq<(int, int, int)>,
) -> (light: Seq<(int, int, int)>)
    requires
        non_negative(edges),
        is_path(edges, source, target, path),
    ensures
        is_path(lightest(edges), source, target, light),
        path_weight(light) <= path_weight(path),
    decreases path.len(),
{
    if path.len() == 0 {
        path
    } else {
        let e = path.last();
        let before = lemma_lighten_path(edges, source, e.0, path.drop_last());
        let w = lemma_lightest_exists(edges, e);
        lemma_path_push(lightest(edges), source, before, (e.0, e.1, w));
        before.push((e.0, e.1, w))
    }
}

/// A path over lightest edges is a path.
proof fn lemma_light_path_is_path(
    edges: Set<(int, int, int)>,
    source: int,
    target: int,
    path: Seq<(int, int, int)>,
)
    requires
        is_path(lightest(edges), source, target, path),
    ensures
        is_path(edges, source, target, path),
    decreases path.len(),
{
    if path.len() > 0 {
        lemma_light_path_is_path(edges, source, path.last().0, path.drop_last());
    }
}

/// Heavier edges beside a lighter one between the same nodes change no
/// distance: over the lightest edges alone every distance is what it is
/// over all edges.
pub proof fn lemma_lightest_same_distance(edges: Set<(int, int, int)>, source: int, target: int)
    requires
        non_negative(edges),
    ensures
        distance(lightest(edges), source, target) == distance(edges, source, target),
{
    let light = lightest(edges);
    if exists|d: int| is_distance(edges, source, target, d) {
        let d = choose|d: int| is_distance(edges, source, target, d);
        let p = choose|p: Seq<(int, int, int)>| #[trigger]
            is_shortest_path(edges, source, target, p) && path_weight(p) == d;
        let q = lemma_lighten_path(edges, source, target, p);
        lemma_light_path_is_path(edges, source, target, q);
        assert(is_path(edges, source, target, q));
        assert forall|other: Seq<(int, int, int)>| #[trigger]
            is_path(light, source, target, other) implies path_weight(q) <= path_weight(
            other,
        ) by {
            lemma_light_path_is_path(edges, source, target, other);
            assert(is_path(edges, source, target, other));
        }
        assert(is_shortest_path(light, source, target, q));
        assert(is_distance(light, source, target, d));
        lemma_distance_is(edges, source, target, d);
        lemma_distance_is(light, source, target, d);
    } else if exists|d: int| is_distance(light, source, target, d) {
        let d = choose|d: int| is_distance(light, source, target, d);
        let p = choose|p: Seq<(int, int, int)>| #[trigger]
            is_shortest_path(light, source, target, p) && path_weight(p) == d;
        lemma_light_path_is_path(edges, source, target, p);
        assert forall|other: Seq<(int, int, int)>| #[trigger]
            is_path(edges, source, target, other) implies path_weight(p) <= path_weight(
            other,
        ) by {
            let q = lemma_lighten_path(edges, source, target, other);
            assert(is_path(light, source, target, q));
        }
        assert(is_shortest_path(edges, source, target, p));
        assert(is_distance(edges, source, target, d));
    }
}

} // verus!
