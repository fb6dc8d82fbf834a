//! The routing bundle of one transport mode and the queries on it.

use vstd::prelude::*;
use crate::graph::{
    adjacency_closed, adjacency_edges, adjacency_view, distance, edges_among, is_shortest_path,
    lemma_distance_is, lemma_lightest_same_distance, lemma_path_nodes_among,
    lemma_unreachable_no_distance, lightest, non_negative, path_nodes, path_weight,
};
use crate::hierarchy::{
    calc_nodes, calc_path, ch_edges, ch_nodes, ch_prepared, weights_fit,
};
use crate::isochrone::{
    is_isochrone, lemma_isochrone_grows, lemma_isochrone_nodes, reach_within,
};
use crate::spatial::{
    distance_2, index_points, is_nearest, main_points, nearest_node, Coord, SpatialIndex,
};

verus! {

/// What a bundle holds, as mathematics.
pub struct RoutingView {
    /// Position of each node; a node is its index in this sequence.
    pub positions: Seq<Coord>,
    /// For each node, whether it lies on a main road.
    pub main: Seq<bool>,
    /// For each node, its out-edges as pairs of target node and weight in
    /// milliseconds.
    pub adjacency: Seq<Seq<(usize, u32)>>,
    /// The edges that the contraction hierarchy stands for.
    pub hierarchy: Set<(int, int, int)>,
}

/// The routing bundle of one transport mode: node positions, the
/// contraction hierarchy, the spatial index over main-road nodes, and the
/// adjacency list. It does not change once made.
pub struct RoutingData {
    pub(crate) node_positions: Vec<Coord>,
    pub(crate) main_road: Vec<bool>,
    pub(crate) fast_graph: fast_paths::FastGraph,
    pub(crate) spatial_index: SpatialIndex,
    pub(crate) adj_list: Vec<Vec<(usize, u32)>>,
}

/// Whether the parts of a bundle fit together: one entry per node in each
/// list, edges that stay among the nodes, a prepared hierarchy over the same
/// nodes that stands for the lightest edges of the adjacency list, and an
/// index of exactly the main-road nodes.
pub open spec fn parts_fit(
    positions: Seq<Coord>,
    main: Seq<bool>,
    graph: fast_paths::FastGraph,
    index: SpatialIndex,
    adjacency: Seq<Seq<(usize, u32)>>,
) -> bool {
    &&& main.len() == positions.len()
    &&& adjacency.len() == positions.len()
    &&& adjacency_closed(adjacency)
    &&& ch_prepared(graph)
    &&& ch_nodes(graph) == positions.len()
    &&& ch_edges(graph) == lightest(adjacency_edges(adjacency))
    &&& weights_fit(adjacency_edges(adjacency), positions.len())
    &&& index_points(index) == main_points(positions, main)
}

impl View for RoutingData {
    type V = RoutingView;

    closed spec fn view(&self) -> RoutingView {
        RoutingView {
            positions: self.node_positions@,
            main: self.main_road@,
            adjacency: adjacency_view(self.adj_list@),
            hierarchy: ch_edges(self.fast_graph),
        }
    }
}

impl RoutingData {
    #[verifier::type_invariant]
    spec fn inv(self) -> bool {
        parts_fit(
            self.node_positions@,
            self.main_road@,
            self.fast_graph,
            self.spatial_index,
            adjacency_view(self.adj_list@),
        )
    }

    /// The spatial index of the bundle.
    pub closed spec fn index(&self) -> SpatialIndex {
        self.spatial_index
    }

    /// The contraction hierarchy of the bundle.
    pub closed spec fn graph(&self) -> fast_paths::FastGraph {
        self.fast_graph
    }

    /// Puts a bundle together from parts that fit.
    pub(crate) fn assemble(
        node_positions: Vec<Coord>,
        main_road: Vec<bool>,
        fast_graph: fast_paths::FastGraph,
        spatial_index: SpatialIndex,
        adj_list: Vec<Vec<(usize, u32)>>,
    ) -> (data: RoutingData)
        requires
            parts_fit(
                node_positions@,
                main_road@,
                fast_graph,
                spatial_index,
                adjacency_view(adj_list@),
            ),
        ensures
            data@.positions == node_positions@,
            data@.main == main_road@,
            data@.adjacency == adjacency_view(adj_list@),
            data@.hierarchy == ch_edges(fast_graph),
            data.index() == spatial_index,
            data.graph() == fast_graph,
    {
        RoutingData { node_positions, main_road, fast_graph, spatial_index, adj_list }
    }

    /// The node that a position snaps to: the main-road node nearest to it
    /// and, of several at the same distance, the one with the least index.
    /// `None` where no node is on a main road.
    pub open spec fn snapped(&self, at: Coord) -> Option<int> {
        nearest_node(main_points(self@.positions, self@.main), at.lon as int, at.lat as int)
    }

    /// The travel time in milliseconds between the nodes that two positions
    /// snap to: the weight of a shortest path in the hierarchy. `None` where
    /// a position does not snap or no path leads from the one node to the
    /// other.
    pub open spec fn travel_time(&self, from: Coord, to: Coord) -> Option<int> {
        match (self.snapped(from), self.snapped(to)) {
            (Some(a), Some(b)) => distance(self@.hierarchy, a, b),
            _ => None,
        }
    }

    /// The number of nodes.
    pub fn node_count(&self) -> (n: usize)
        ensures
            n == self@.positions.len(),
    {
        self.node_positions.len()
    }

    /// The main-road node nearest to a position, by planar distance on the
    /// raw coordinates.
    pub fn find_nearest_node(&self, lon: i32, lat: i32) -> (hit: Option<usize>)
        ensures
            hit is None <==> self.snapped(Coord { lon, lat }) is None,
            hit is None <==> forall|j: int| 0 <= j < self@.main.len() ==> !(#[trigger] self@.main[j]),
            hit matches Some(node) ==> {
                &&& self.snapped(Coord { lon, lat }) == Some(node as int)
                &&& node < self@.positions.len()
                &&& self@.main[node as int]
                &&& forall|j: int|
                    0 <= j < self@.main.len() && self@.main[j] ==> distance_2(
                        self@.positions[node as int].lon as int,
                        self@.positions[node as int].lat as int,
                        lon as int,
                        lat as int,
                    ) <= distance_2(
                        (#[trigger] self@.positions[j]).lon as int,
                        self@.positions[j].lat as int,
                        lon as int,
                        lat as int,
                    )
            },
    {
        proof {
            use_type_invariant(self);
        }
        let hit = self.spatial_index.nearest(lon, lat);
        proof {
            let points = main_points(self.node_positions@, self.main_road@);
            match hit {
                Some(node) => {
                    let (x, y) = choose|x: int, y: int|
                        {
                            &&& #[trigger] points.contains((x, y, node as int))
                            &&& forall|q: (int, int, int)| #[trigger]
                                points.contains(q) ==> distance_2(x, y, lon as int, lat as int)
                                    <= distance_2(q.0, q.1, lon as int, lat as int)
                        };
                    assert forall|j: int|
                        0 <= j < self.main_road@.len() && self.main_road@[j] implies distance_2(
                        x,
                        y,
                        lon as int,
                        lat as int,
                    ) <= distance_2(
                        (#[trigger] self.node_positions@[j]).lon as int,
                        self.node_positions@[j].lat as int,
                        lon as int,
                        lat as int,
                    ) by {
                        let q = (
                            self.node_positions@[j].lon as int,
                            self.node_positions@[j].lat as int,
                            j,
                        );
                        assert(points.contains(q));
                    }
                    assert(points.contains((x, y, node as int)));
                    assert(self@.main[node as int]);
                },
                None => {
                    assert forall|j: int| 0 <= j < self@.main.len() implies !(
                    #[trigger] self@.main[j]) by {
                        if self.main_road@[j] {
                            let q = (
                                self.node_positions@[j].lon as int,
                                self.node_positions@[j].lat as int,
                                j,
                            );
                            assert(points.contains(q));
                        }
                    }
                },
            }
        }
        hit
    }

    /// A calculator for shortest paths on this bundle. A calculator is
    /// scratch space: one at a time can use it.
    pub fn new_calculator(&self) -> (calc: fast_paths::PathCalculator)
        ensures
            calc_nodes(calc) == self@.positions.len(),
    {
        proof {
            use_type_invariant(self);
        }
        fast_paths::create_calculator(&self.fast_graph)
    }

    /// The shortest path in the hierarchy between the nodes that two
    /// positions snap to: its nodes and its weight.
    fn shortest(
        &self,
        calc: &mut fast_paths::PathCalculator,
        from: Coord,
        to: Coord,
    ) -> (found: Option<(Vec<usize>, usize)>)
        requires
            calc_nodes(*old(calc)) == self@.positions.len(),
        ensures
            calc_nodes(*final(calc)) == calc_nodes(*old(calc)),
            found is None <==> self.travel_time(from, to) is None,
            found matches Some(p) ==> {
                &&& self.travel_time(from, to) == Some(p.1 as int)
                &&& self.snapped(from) is Some
                &&& self.snapped(to) is Some
                &&& 0 <= self.snapped(from)->0 < self@.positions.len()
                &&& 0 <= self.snapped(to)->0 < self@.positions.len()
                &&& exists|path: Seq<(int, int, int)>|
                    {
                        &&& #[trigger] is_shortest_path(
                            self@.hierarchy,
                            self.snapped(from)->0,
                            self.snapped(to)->0,
                            path,
                        )
                        &&& path_weight(path) == p.1
                        &&& p.0@.map_values(|n: usize| n as int) == path_nodes(
                            self.snapped(from)->0,
                            path,
                        )
                    }
            },
    {
        proof {
            use_type_invariant(self);
        }
        let a = match self.find_nearest_node(from.lon, from.lat) {
            Some(a) => a,
            None => {
                return None;
            },
        };
        let b = match self.find_nearest_node(to.lon, to.lat) {
            Some(b) => b,
            None => {
                return None;
            },
        };
        proof {
            let all = adjacency_edges(adjacency_view(self.adj_list@));
            assert forall|e: (int, int, int)| #[trigger]
                lightest(all).contains(e) implies 2 * self.node_positions@.len() * e.2
                <= usize::MAX by {
                assert(all.contains(e));
            }
        }
        let found = calc_path(calc, &self.fast_graph, a, b);
        proof {
            let graph = ch_edges(self.fast_graph);
            match &found {
                Some(p) => {
                    let path = choose|path: Seq<(int, int, int)>|
                        {
                            &&& #[trigger] is_shortest_path(graph, a as int, b as int, path)
                            &&& path_weight(path) == p.1
                            &&& p.0@.map_values(|n: usize| n as int) == path_nodes(a as int, path)
                        };
                    assert(crate::graph::is_distance(graph, a as int, b as int, p.1 as int));
                    lemma_distance_is(graph, a as int, b as int, p.1 as int);
                },
                None => {
                    lemma_unreachable_no_distance(graph, a as int, b as int);
                },
            }
        }
        found
    }

    /// The travel time in milliseconds between two positions, with `calc`
    /// as scratch space.
    pub fn travel_time_with(
        &self,
        calc: &mut fast_paths::PathCalculator,
        from: Coord,
        to: Coord,
    ) -> (time_ms: Option<u64>)
        requires
            calc_nodes(*old(calc)) == self@.positions.len(),
        ensures
            calc_nodes(*final(calc)) == calc_nodes(*old(calc)),
            time_ms is None <==> self.travel_time(from, to) is None,
            time_ms matches Some(t) ==> self.travel_time(from, to) == Some(t as int),
    {
        match self.shortest(calc, from, to) {
            Some(p) => Some(p.1 as u64),
            None => None,
        }
    }

    /// The position of the main-road node nearest to `at`; `None` where no
    /// node is on a main road.
    pub fn snap(&self, at: Coord) -> (node_at: Option<Coord>)
        ensures
            node_at is None <==> self.snapped(at) is None,
            node_at matches Some(c) ==> 0 <= self.snapped(at)->0 < self@.positions.len() && c
                == self@.positions[self.snapped(at)->0],
    {
        match self.find_nearest_node(at.lon, at.lat) {
            Some(node) => Some(self.node_positions[node]),
            None => None,
        }
    }

    /// The route between two positions, with `calc` as scratch space: the
    /// positions of the first `max_points` nodes of a shortest path between
    /// the nodes that the two positions snap to, and the weight of the whole
    /// path.
    pub fn route_with(
        &self,
        calc: &mut fast_paths::PathCalculator,
        from: Coord,
        to: Coord,
        max_points: usize,
    ) -> (route: Option<Route>)
        requires
            calc_nodes(*old(calc)) == self@.positions.len(),
        ensures
            calc_nodes(*final(calc)) == calc_nodes(*old(calc)),
            route is None <==> self.travel_time(from, to) is None,
            route matches Some(r) ==> {
                &&& self.travel_time(from, to) == Some(r.duration_ms as int)
                &&& self.snapped(from) is Some
                &&& self.snapped(to) is Some
                &&& is_route(
                    self@,
                    self.snapped(from)->0,
                    self.snapped(to)->0,
                    max_points as nat,
                    r,
                )
            },
    {
        proof {
            use_type_invariant(self);
        }
        let (nodes, weight) = match self.shortest(calc, from, to) {
            Some(p) => p,
            None => {
                return None;
            },
        };
        let ghost a = self.snapped(from)->0;
        let ghost b = self.snapped(to)->0;
        let ghost graph = ch_edges(self.fast_graph);
        let ghost path = choose|path: Seq<(int, int, int)>|
            {
                &&& #[trigger] is_shortest_path(graph, a, b, path)
                &&& path_weight(path) == weight
                &&& nodes@.map_values(|n: usize| n as int) == path_nodes(a, path)
            };
        let ghost walk = path_nodes(a, path);
        proof {
            let n = self.node_positions@.len() as int;
            let adj = adjacency_view(self.adj_list@);
            assert(edges_among(graph, n)) by {
                assert forall|e: (int, int, int)| #[trigger] graph.contains(e) implies 0 <= e.0 < n
                    && 0 <= e.1 < n by {
                    assert(adjacency_edges(adj).contains(e));
                    let k = choose|k: int|
                        0 <= k < adj[e.0].len() && (#[trigger] adj[e.0][k]).0 == e.1
                            && adj[e.0][k].1 == e.2;
                    assert(adj[e.0][k].0 < adj.len());
                }
            }
            lemma_path_nodes_among(graph, n, a, b, path);
            assert(nodes@.len() == walk.len());
        }
        let count = if nodes.len() < max_points {
            nodes.len()
        } else {
            max_points
        };
        let mut points: Vec<RoutePoint> = Vec::new();
        let mut i: usize = 0;
        while i < count
            invariant
                i <= count <= nodes.len(),
                nodes@.map_values(|n: usize| n as int) == walk,
                forall|j: int| 0 <= j < walk.len() ==> 0 <= #[trigger] walk[j] < self.node_positions@.len(),
                points@.len() == i,
                forall|j: int|
                    0 <= j < i ==> #[trigger] points@[j] == (RoutePoint {
                        lat: self.node_positions@[walk[j]].lat,
                        lon: self.node_positions@[walk[j]].lon,
                    }),
            decreases count - i,
        {
            let node = nodes[i];
            proof {
                assert(nodes@.map_values(|n: usize| n as int)[i as int] == node as int);
                assert(0 <= walk[i as int] < self.node_positions@.len());
            }
            let c = self.node_positions[node];
            points.push(RoutePoint { lat: c.lat, lon: c.lon });
            i += 1;
        }
        let route = Route { points, duration_ms: weight as u64 };
        proof {
            assert(route.points@ =~= route_points(self@.positions, walk, max_points as nat));
            assert(is_shortest_path(self@.hierarchy, a, b, path));
        }
        Some(route)
    }

    /// The nodes within `max_cost_ms` milliseconds of the node that
    /// `origin` snaps to, nearest first, at most `max_results` of them, each
    /// with its position and its travel time. `None` where `origin` does not
    /// snap.
    pub fn isochrone(&self, origin: Coord, max_cost_ms: u32, max_results: usize) -> (found: Option<
        Vec<IsochroneResult>,
    >)
        ensures
            found is None <==> self.snapped(origin) is None,
            found matches Some(list) ==> exists|entries: Seq<(usize, u32)>|
                {
                    &&& #[trigger] is_isochrone(
                        adjacency_edges(self@.adjacency),
                        self.snapped(origin)->0,
                        max_cost_ms,
                        max_results as nat,
                        entries,
                    )
                    &&& list@ == isochrone_results(self@.positions, entries)
                },
    {
        proof {
            use_type_invariant(self);
        }
        let start = match self.find_nearest_node(origin.lon, origin.lat) {
            Some(node) => node,
            None => {
                return None;
            },
        };
        let entries = reach_within(&self.adj_list, start, max_cost_ms, max_results);
        proof {
            lemma_isochrone_nodes(
                adjacency_view(self.adj_list@),
                start as int,
                max_cost_ms,
                max_results as nat,
                entries@,
            );
        }
        let mut list: Vec<IsochroneResult> = Vec::new();
        let mut k: usize = 0;
        while k < entries.len()
            invariant
                k <= entries.len(),
                forall|j: int|
                    0 <= j < entries.len() ==> (#[trigger] entries@[j]).0
                        < self.node_positions@.len(),
                list@.len() == k,
                forall|j: int|
                    0 <= j < k ==> #[trigger] list@[j] == (IsochroneResult {
                        lat: self.node_positions@[entries@[j].0 as int].lat,
                        lon: self.node_positions@[entries@[j].0 as int].lon,
                        millis: entries@[j].1,
                    }),
            decreases entries.len() - k,
        {
            let (node, cost) = entries[k];
            let c = self.node_positions[node];
            list.push(IsochroneResult { lat: c.lat, lon: c.lon, millis: cost });
            k += 1;
        }
        proof {
            assert(list@ =~= isochrone_results(self@.positions, entries@));
            assert(Coord { lon: origin.lon, lat: origin.lat } == origin);
            assert(is_isochrone(
                adjacency_edges(self@.adjacency),
                self.snapped(origin)->0,
                max_cost_ms,
                max_results as nat,
                entries@,
            ));
        }
        Some(list)
    }
}

/// A point of a route.
#[derive(Clone, Copy, Debug, PartialEq, Eq, Structural)]
pub struct RoutePoint {
    pub lat: i32,
    pub lon: i32,
}

/// A route: the positions along it, as far as the caller left room for
/// them, and the travel time of the whole route in milliseconds.
pub struct Route {
    pub points: Vec<RoutePoint>,
    pub duration_ms: u64,
}

/// A node of an isochrone: its position and the travel time to it in
/// milliseconds.
#[derive(Clone, Copy, Debug, PartialEq, Eq, Structural)]
pub struct IsochroneResult {
    pub lat: i32,
    pub lon: i32,
    pub millis: u32,
}

/// The positions of the first `cap` of `nodes`.
pub open spec fn route_points(positions: Seq<Coord>, nodes: Seq<int>, cap: nat) -> Seq<RoutePoint> {
    Seq::new(
        if nodes.len() < cap {
            nodes.len()
        } else {
            cap
        },
        |i: int| RoutePoint { lat: positions[nodes[i]].lat, lon: positions[nodes[i]].lon },
    )
}

/// Whether `route` is a route from node `a` to node `b` with room for `cap`
/// points: some shortest path between them gives the duration by its weight
/// and the points by its first nodes.
pub open spec fn is_route(view: RoutingView, a: int, b: int, cap: nat, route: Route) -> bool {
    exists|path: Seq<(int, int, int)>|
        {
            &&& #[trigger] is_shortest_path(view.hierarchy, a, b, path)
            &&& route.duration_ms == path_weight(path)
            &&& route.points@ == route_points(view.positions, path_nodes(a, path), cap)
        }
}

/// The entries of an isochrone with the positions of their nodes.
pub open spec fn isochrone_results(positions: Seq<Coord>, entries: Seq<(usize, u32)>) -> Seq<
    IsochroneResult,
> {
    Seq::new(
        entries.len(),
        |k: int|
            IsochroneResult {
                lat: positions[entries[k].0 as int].lat,
                lon: positions[entries[k].0 as int].lon,
                millis: entries[k].1,
            },
    )
}

/// What a route comes to: its length in millimetres, its travel time in
/// milliseconds, and how many points of it were handed out.
#[derive(Clone, Copy, Debug, PartialEq, Eq, Structural)]
pub struct RouteResult {
    pub distance_mm: u64,
    pub duration_ms: u64,
    pub num_points: i32,
}

/// The sum of the lengths.
pub open spec fn total_length(lengths: Seq<u64>) -> nat
    decreases lengths.len(),
{
    if lengths.len() == 0 {
        0
    } else {
        total_length(lengths.drop_last()) + lengths.last() as nat
    }
}

/// Sums up a route. `hop_lengths_mm` holds the great-circle length of each
/// hop between two consecutive points of the route, so the distance is that
/// of the points handed out, while the duration is that of the whole route.
/// Distance and point count stop at the largest value of their type.
pub fn route_result(route: &Route, hop_lengths_mm: &Vec<u64>) -> (result: RouteResult)
    ensures
        result.duration_ms == route.duration_ms,
        result.distance_mm == if total_length(hop_lengths_mm@) > u64::MAX {
            u64::MAX as nat
        } else {
            total_length(hop_lengths_mm@)
        },
        result.num_points == if route.points@.len() > i32::MAX {
            i32::MAX as int
        } else {
            route.points@.len() as int
        },
{
    let mut sum: u64 = 0;
    let mut i: usize = 0;
    proof {
        assert(hop_lengths_mm@.take(0) =~= Seq::<u64>::empty());
    }
    while i < hop_lengths_mm.len()
        invariant
            i <= hop_lengths_mm.len(),
            sum == if total_length(hop_lengths_mm@.take(i as int)) > u64::MAX {
                u64::MAX as nat
            } else {
                total_length(hop_lengths_mm@.take(i as int))
            },
        decreases hop_lengths_mm.len() - i,
    {
        proof {
            assert(hop_lengths_mm@.take(i + 1).drop_last() =~= hop_lengths_mm@.take(i as int));
        }
        sum = sum.saturating_add(hop_lengths_mm[i]);
        i += 1;
    }
    proof {
        assert(hop_lengths_mm@.take(i as int) =~= hop_lengths_mm@);
    }
    let num_points: i32 = if route.points.len() > i32::MAX as usize {
        i32::MAX
    } else {
        route.points.len() as i32
    };
    RouteResult { distance_mm: sum, duration_ms: route.duration_ms, num_points }
}

/// The parts of a bundle that are kept on disk. The spatial index is not
/// among them: it is built anew from positions and main-road flags.
pub struct RoutingParts {
    pub node_positions: Vec<Coord>,
    pub main_road: Vec<bool>,
    pub fast_graph: fast_paths::FastGraph,
    pub adj_list: Vec<Vec<(usize, u32)>>,
}

/// Whether parts can be seen to fit: one entry per node in each list, edges
/// that stay among the nodes, a hierarchy over as many nodes, and weights
/// that fit the hierarchy.
pub open spec fn parts_sound(parts: RoutingParts) -> bool {
    let n = parts.node_positions@.len();
    let adj = adjacency_view(parts.adj_list@);
    &&& parts.main_road@.len() == n
    &&& adj.len() == n
    &&& adjacency_closed(adj)
    &&& ch_nodes(parts.fast_graph) == n
    &&& weights_fit(adjacency_edges(adj), n)
}

/// Whether the entries of the lists before list `u`, and of list `u` before
/// entry `k`, lead to nodes among `n` and weigh at most `heaviest`.
spec fn checked_upto(adj: Seq<Seq<(usize, u32)>>, n: int, heaviest: u32, u: int, k: int) -> bool {
    forall|x: int, j: int|
        0 <= x < adj.len() && 0 <= j < adj[x].len() && (x < u || (x == u && j < k)) ==> (
        #[trigger] adj[x][j]).0 < n && adj[x][j].1 <= heaviest
}

/// Whether `heaviest` is zero or the weight of an entry.
spec fn weight_seen(adj: Seq<Seq<(usize, u32)>>, heaviest: u32) -> bool {
    heaviest == 0 || exists|x: int, j: int|
        0 <= x < adj.len() && 0 <= j < adj[x].len() && (#[trigger] adj[x][j]).1 == heaviest
}

/// Checks that every edge stays among the nodes and that the weights fit
/// the hierarchy.
fn check_adjacency(adj_list: &Vec<Vec<(usize, u32)>>) -> (ok: bool)
    ensures
        ok == (adjacency_closed(adjacency_view(adj_list@)) && weights_fit(
            adjacency_edges(adjacency_view(adj_list@)),
            adj_list@.len(),
        )),
{
    let n = adj_list.len();
    let ghost adj = adjacency_view(adj_list@);
    let mut heaviest: u32 = 0;
    let mut u: usize = 0;
    while u < n
        invariant
            n == adj_list.len(),
            adj == adjacency_view(adj_list@),
            u <= n,
            checked_upto(adj, n as int, heaviest, u as int, 0),
            weight_seen(adj, heaviest),
        decreases n - u,
    {
        let list = &adj_list[u];
        let mut k: usize = 0;
        while k < list.len()
            invariant
                n == adj_list.len(),
                adj == adjacency_view(adj_list@),
                u < n,
                list@ == adj[u as int],
                k <= list.len(),
                checked_upto(adj, n as int, heaviest, u as int, k as int),
                weight_seen(adj, heaviest),
            decreases list.len() - k,
        {
            let (target, weight) = list[k];
            proof {
                assert(adj[u as int][k as int] == (target, weight));
            }
            if target >= n {
                return false;
            }
            if weight > heaviest {
                heaviest = weight;
            }
            k += 1;
        }
        u += 1;
    }
    assert((n as int) * (heaviest as int) <= 0xffff_ffff_ffff_ffff * 0xffff_ffff) by (nonlinear_arith)
        requires
            0 <= n <= 0xffff_ffff_ffff_ffff,
            0 <= heaviest <= 0xffff_ffff,
    ;
    let product: u128 = (n as u128) * (heaviest as u128);
    let fits = 2 * product <= usize::MAX as u128;
    proof {
        let graph = adjacency_edges(adj);
        assert(adjacency_closed(adj));
        if fits {
            assert forall|e: (int, int, int)| #[trigger] graph.contains(e) implies 2 * (n as nat)
                * e.2 <= usize::MAX by {
                let j = choose|j: int|
                    0 <= j < adj[e.0].len() && (#[trigger] adj[e.0][j]).0 == e.1 && adj[e.0][j].1
                        == e.2;
                assert(adj[e.0][j].1 <= heaviest);
                assert(2 * (n as nat) * e.2 <= 2 * ((n as int) * (heaviest as int))) by (nonlinear_arith)
                    requires
                        0 <= e.2 <= heaviest,
                ;
            }
        } else {
            assert(heaviest != 0) by {
                if heaviest == 0 {
                    assert((n as int) * (heaviest as int) == 0) by (nonlinear_arith)
                        requires
                            heaviest == 0,
                    ;
                }
            }
            let (x, j) = choose|x: int, j: int|
                0 <= x < adj.len() && 0 <= j < adj[x].len() && (#[trigger] adj[x][j]).1
                    == heaviest;
            let e = (x, adj[x][j].0 as int, heaviest as int);
            assert(graph.contains(e));
            assert(2 * (n as nat) * e.2 == 2 * ((n as int) * (heaviest as int))) by (nonlinear_arith)
                requires
                    e.2 == heaviest as int,
            ;
        }
    }
    fits
}

impl RoutingData {
    /// The position of each node.
    pub fn node_positions(&self) -> (positions: &Vec<Coord>)
        ensures
            positions@ == self@.positions,
    {
        &self.node_positions
    }

    /// For each node, whether it lies on a main road.
    pub fn main_road(&self) -> (main: &Vec<bool>)
        ensures
            main@ == self@.main,
    {
        &self.main_road
    }

    /// The contraction hierarchy.
    pub fn fast_graph(&self) -> (graph: &fast_paths::FastGraph)
        ensures
            *graph == self.graph(),
    {
        &self.fast_graph
    }

    /// For each node, its out-edges as pairs of target node and weight in
    /// milliseconds.
    pub fn adj_list(&self) -> (lists: &Vec<Vec<(usize, u32)>>)
        ensures
            adjacency_view(lists@) == self@.adjacency,
    {
        &self.adj_list
    }

    /// Takes a bundle apart, to be kept on disk.
    pub fn into_parts(self) -> (parts: RoutingParts)
        ensures
            parts.node_positions@ == self@.positions,
            parts.main_road@ == self@.main,
            adjacency_view(parts.adj_list@) == self@.adjacency,
            parts.fast_graph == self.graph(),
            ch_edges(parts.fast_graph) == self@.hierarchy,
            parts_sound(parts),
            ch_prepared(parts.fast_graph),
            ch_edges(parts.fast_graph) == lightest(
                adjacency_edges(adjacency_view(parts.adj_list@)),
            ),
    {
        proof {
            use_type_invariant(&self);
        }
        let parts = RoutingParts {
            node_positions: self.node_positions,
            main_road: self.main_road,
            fast_graph: self.fast_graph,
            adj_list: self.adj_list,
        };
        parts
    }

    /// Puts a bundle together from parts read back from disk. The hierarchy
    /// must be one that preparation built from the adjacency list: that is
    /// so for parts that `into_parts` gave, and cannot be tested here. All
    /// else is tested, and there is no bundle where the parts do not fit.
    pub fn from_parts(parts: RoutingParts) -> (data: Option<RoutingData>)
        requires
            ch_prepared(parts.fast_graph),
            ch_edges(parts.fast_graph) == lightest(
                adjacency_edges(adjacency_view(parts.adj_list@)),
            ),
        ensures
            data is Some <==> parts_sound(parts),
            data matches Some(d) ==> {
                &&& d@.positions == parts.node_positions@
                &&& d@.main == parts.main_road@
                &&& d@.adjacency == adjacency_view(parts.adj_list@)
                &&& d@.hierarchy == ch_edges(parts.fast_graph)
                &&& d@.hierarchy == lightest(adjacency_edges(d@.adjacency))
                &&& d.graph() == parts.fast_graph
            },
    {
        let n = parts.node_positions.len();
        if parts.main_road.len() != n || parts.adj_list.len() != n
            || parts.fast_graph.get_num_nodes() != n {
            return None;
        }
        if !check_adjacency(&parts.adj_list) {
            return None;
        }
        let index = SpatialIndex::from_nodes(&parts.node_positions, &parts.main_road);
        Some(
            RoutingData::assemble(
                parts.node_positions,
                parts.main_road,
                parts.fast_graph,
                index,
                parts.adj_list,
            ),
        )
    }
}

/// Two bundles with the same nodes and the same roads answer alike: each
/// position snaps to the same node in both, and each pair of positions has
/// the same travel time in both. So a bundle that was taken apart and put
/// together again answers as it did before.
pub proof fn lemma_answers_follow_view(a: RoutingData, b: RoutingData, from: Coord, to: Coord)
    requires
        a@.positions == b@.positions,
        a@.main == b@.main,
        a@.hierarchy == b@.hierarchy,
    ensures
        a.snapped(from) == b.snapped(from),
        a.travel_time(from, to) == b.travel_time(from, to),
{
}

/// A wider budget lists every node that a narrower one lists, with the same
/// position and travel time, as long as the cap did not cut the wider list
/// short.
pub proof fn lemma_isochrone_results_grow(
    positions: Seq<Coord>,
    graph: Set<(int, int, int)>,
    origin: int,
    narrow: u32,
    wide: u32,
    narrow_cap: nat,
    wide_cap: nat,
    inner: Seq<(usize, u32)>,
    outer: Seq<(usize, u32)>,
)
    requires
        narrow <= wide,
        is_isochrone(graph, origin, narrow, narrow_cap, inner),
        is_isochrone(graph, origin, wide, wide_cap, outer),
        outer.len() < wide_cap,
    ensures
        forall|k: int|
            0 <= k < inner.len() ==> isochrone_results(positions, outer).contains(
                #[trigger] isochrone_results(positions, inner)[k],
            ),
{
    lemma_isochrone_grows(graph, origin, narrow, wide, narrow_cap, wide_cap, inner, outer);
    assert forall|k: int| 0 <= k < inner.len() implies isochrone_results(
        positions,
        outer,
    ).contains(#[trigger] isochrone_results(positions, inner)[k]) by {
        assert(outer.contains(inner[k]));
        let j = choose|j: int| 0 <= j < outer.len() && outer[j] == inner[k];
        assert(isochrone_results(positions, outer)[j] == isochrone_results(positions, inner)[k]);
    }
}

/// Where the hierarchy stands for the lightest edges of the adjacency list,
/// as it does in every bundle, both give the same travel time between any
/// two nodes: routes and isochrones agree.
pub proof fn lemma_roads_agree(view: RoutingView, a: int, b: int)
    requires
        view.hierarchy == lightest(adjacency_edges(view.adjacency)),
    ensures
        distance(view.hierarchy, a, b) == distance(adjacency_edges(view.adjacency), a, b),
{
    let edges = adjacency_edges(view.adjacency);
    assert(non_negative(edges)) by {
        assert forall|e: (int, int, int)| #[trigger] edges.contains(e) implies e.2 >= 0 by {
            let k = choose|k: int|
                0 <= k < view.adjacency[e.0].len() && (#[trigger] view.adjacency[e.0][k]).0 == e.1
                    && view.adjacency[e.0][k].1 == e.2;
        }
    }
    lemma_lightest_same_distance(edges, a, b);
}

} // verus!
