use routing::builder::{build_graph_for_mode, OsmNode, OsmWay, WaySegment};
use routing::registry::{
    get_router_for_mode, routing_batch, routing_free, routing_is_loaded, routing_isochrone,
    routing_load, routing_node_count, routing_route, routing_route_geom, routing_snap,
    routing_travel_time, ModeSlot, RoutingError, Slot,
};
use routing::router::{
    route_result, IsochroneResult, Route, RoutePoint, RouteResult, RoutingData, RoutingParts,
};
use routing::spatial::Coord;

// Node `i` of the test maps lies at longitude `1000 * i`, latitude `7 * i`.
fn node(id: i64) -> OsmNode {
    OsmNode { id, lon: 1000 * id as i32, lat: 7 * id as i32 }
}

fn at(id: i64) -> Coord {
    Coord { lon: 1000 * id as i32, lat: 7 * id as i32 }
}

fn way(highway: &str, oneway: &str, segments: &[(i64, i64, u64)]) -> OsmWay {
    OsmWay {
        highway: highway.to_string(),
        oneway: oneway.to_string(),
        segments: segments
            .iter()
            .map(|&(from, to, length_mm)| WaySegment { from, to, length_mm })
            .collect(),
    }
}

fn nodes(ids: std::ops::Range<i64>) -> Vec<OsmNode> {
    ids.map(node).collect()
}

// A - B - C - D in a row, 50 m apart, on a residential street: by bicycle
// (18 km/h) each stretch takes ten seconds.
fn line() -> RoutingData {
    let ways = vec![way("residential", "", &[(1, 2, 50_000), (2, 3, 50_000), (3, 4, 50_000)])];
    build_graph_for_mode(&nodes(1..5), &ways, "bicycle").unwrap()
}

fn loaded(data: RoutingData) -> Slot {
    let mut slot = Slot::new();
    assert_eq!(routing_load(&mut slot, Some(data)), 0);
    slot
}

fn time(slot: &mut Slot, from: Coord, to: Coord) -> Result<u64, RoutingError> {
    routing_travel_time(slot, from.lat, from.lon, to.lat, to.lon)
}

#[test]
fn grid_travel_time() {
    let mut slot = loaded(line());
    assert_eq!(time(&mut slot, at(1), at(4)), Ok(30_000));
    assert_eq!(time(&mut slot, at(1), at(2)), Ok(10_000));
    assert_eq!(time(&mut slot, at(2), at(4)), Ok(20_000));
    assert_eq!(time(&mut slot, at(3), at(3)), Ok(0));
}

#[test]
fn grid_isochrone() {
    let slot = loaded(line());
    let a = at(1);
    let got = routing_isochrone(&slot, a.lat, a.lon, 25_000, 10).unwrap();
    let want: Vec<IsochroneResult> = [(1, 0u32), (2, 10_000), (3, 20_000)]
        .iter()
        .map(|&(id, millis)| IsochroneResult { lat: at(id).lat, lon: at(id).lon, millis })
        .collect();
    assert_eq!(got, want);
}

#[test]
fn grid_route() {
    let mut slot = loaded(line());
    let (a, d) = (at(1), at(4));
    let route = routing_route(&mut slot, a.lat, a.lon, d.lat, d.lon, 100).unwrap();
    let want: Vec<RoutePoint> =
        (1..5).map(|id| RoutePoint { lat: at(id).lat, lon: at(id).lon }).collect();
    assert_eq!(route.points, want);
    assert_eq!(route.duration_ms, 30_000);
    let result = route_result(&route, &vec![50_000, 50_000, 50_000]);
    assert_eq!(result, RouteResult { distance_mm: 150_000, duration_ms: 30_000, num_points: 4 });
}

#[test]
fn route_cut_short_keeps_its_duration() {
    let mut slot = loaded(line());
    let (a, d) = (at(1), at(4));
    let route = routing_route(&mut slot, a.lat, a.lon, d.lat, d.lon, 2).unwrap();
    let want: Vec<RoutePoint> =
        (1..3).map(|id| RoutePoint { lat: at(id).lat, lon: at(id).lon }).collect();
    assert_eq!(route.points, want);
    assert_eq!(route.duration_ms, 30_000);
    let result = route_result(&route, &vec![50_000]);
    assert_eq!(result, RouteResult { distance_mm: 50_000, duration_ms: 30_000, num_points: 2 });
    let route = routing_route(&mut slot, a.lat, a.lon, d.lat, d.lon, 1).unwrap();
    assert_eq!(route.points, vec![RoutePoint { lat: a.lat, lon: a.lon }]);
    assert_eq!(route.duration_ms, 30_000);
}

#[test]
fn route_to_the_same_node() {
    let mut slot = loaded(line());
    let b = at(2);
    let route = routing_route(&mut slot, b.lat, b.lon, b.lat, b.lon, 5).unwrap();
    assert_eq!(route.points, vec![RoutePoint { lat: b.lat, lon: b.lon }]);
    assert_eq!(route.duration_ms, 0);
    let result = route_result(&route, &Vec::new());
    assert_eq!(result, RouteResult { distance_mm: 0, duration_ms: 0, num_points: 1 });
}

#[test]
fn route_result_stops_at_the_largest_values() {
    let route = Route { points: Vec::new(), duration_ms: u64::MAX };
    let result = route_result(&route, &vec![u64::MAX, 1, u64::MAX]);
    assert_eq!(result, RouteResult { distance_mm: u64::MAX, duration_ms: u64::MAX, num_points: 0 });
    let result = route_result(&route, &vec![u64::MAX - 1, 1]);
    assert_eq!(result.distance_mm, u64::MAX);
    let result = route_result(&route, &vec![u64::MAX - 2, 1]);
    assert_eq!(result.distance_mm, u64::MAX - 1);
}

#[test]
fn unloaded_slot() {
    let mut slot = Slot::new();
    assert_eq!(routing_is_loaded(&slot), 0);
    assert_eq!(routing_node_count(&slot), -2);
    assert_eq!(time(&mut slot, at(1), at(2)), Err(RoutingError::NotLoaded));
    assert_eq!(RoutingError::NotLoaded.code(), -2);
    assert_eq!(routing_snap(&slot, 0, 0), Err(RoutingError::NotLoaded));
    assert_eq!(routing_isochrone(&slot, 0, 0, 1000, 5), Err(RoutingError::NotLoaded));
    assert_eq!(
        routing_route(&mut slot, 0, 0, 1, 1, 5).map(|r| r.duration_ms),
        Err(RoutingError::NotLoaded)
    );
    assert_eq!(
        routing_batch(&slot, &vec![0], &vec![0], &vec![0], &vec![0]),
        Err(RoutingError::NotLoaded)
    );
}

#[test]
fn load_and_free() {
    let mut slot = Slot::new();
    assert_eq!(routing_load(&mut slot, None), -1);
    assert_eq!(routing_is_loaded(&slot), 0);
    assert_eq!(routing_load(&mut slot, Some(line())), 0);
    assert_eq!(routing_is_loaded(&slot), 1);
    assert_eq!(routing_node_count(&slot), 4);
    // A failed load leaves the slot as it was.
    assert_eq!(routing_load(&mut slot, None), -1);
    assert_eq!(routing_is_loaded(&slot), 1);
    assert_eq!(routing_node_count(&slot), 4);
    assert_eq!(time(&mut slot, at(1), at(4)), Ok(30_000));
    // A second load takes the place of the first.
    let ways = vec![way("residential", "", &[(1, 2, 50_000)])];
    let small = build_graph_for_mode(&nodes(1..5), &ways, "bicycle").unwrap();
    assert_eq!(routing_load(&mut slot, Some(small)), 0);
    assert_eq!(routing_node_count(&slot), 2);
    routing_free(&mut slot);
    assert_eq!(routing_is_loaded(&slot), 0);
    assert_eq!(routing_node_count(&slot), -2);
    assert_eq!(time(&mut slot, at(1), at(2)), Err(RoutingError::NotLoaded));
    routing_free(&mut slot);
    assert_eq!(routing_is_loaded(&slot), 0);
}

#[test]
fn error_codes() {
    assert_eq!(RoutingError::NotLoaded.code(), -2);
    assert_eq!(RoutingError::BadArgument.code(), -1);
    assert_eq!(RoutingError::NoRoute.code(), -1);
}

#[test]
fn modes_select_slots() {
    assert_eq!(get_router_for_mode("auto"), ModeSlot::Auto);
    assert_eq!(get_router_for_mode("bicycle"), ModeSlot::Bicycle);
    assert_eq!(get_router_for_mode("pedestrian"), ModeSlot::Pedestrian);
    assert_eq!(get_router_for_mode("boat"), ModeSlot::Auto);
    assert_eq!(get_router_for_mode(""), ModeSlot::Auto);
}

#[test]
fn disconnected_pair() {
    let ways = vec![
        way("residential", "", &[(1, 2, 50_000)]),
        way("residential", "", &[(3, 4, 50_000)]),
    ];
    let mut slot = loaded(build_graph_for_mode(&nodes(1..5), &ways, "bicycle").unwrap());
    assert_eq!(time(&mut slot, at(1), at(2)), Ok(10_000));
    assert_eq!(time(&mut slot, at(3), at(4)), Ok(10_000));
    assert_eq!(time(&mut slot, at(1), at(4)), Err(RoutingError::NoRoute));
    assert_eq!(time(&mut slot, at(4), at(2)), Err(RoutingError::NoRoute));
    assert_eq!(RoutingError::NoRoute.code(), -1);
    let (a, d) = (at(1), at(4));
    assert_eq!(
        routing_route(&mut slot, a.lat, a.lon, d.lat, d.lon, 5).map(|r| r.duration_ms),
        Err(RoutingError::NoRoute)
    );
    let got = routing_isochrone(&slot, a.lat, a.lon, 1_000_000, 10).unwrap();
    assert_eq!(got.len(), 2);
}

#[test]
fn one_way() {
    let ways = vec![way("residential", "yes", &[(1, 2, 50_000)])];
    let mut slot = loaded(build_graph_for_mode(&nodes(1..3), &ways, "bicycle").unwrap());
    assert_eq!(time(&mut slot, at(1), at(2)), Ok(10_000));
    assert_eq!(time(&mut slot, at(2), at(1)), Err(RoutingError::NoRoute));
    let b = at(2);
    let got = routing_isochrone(&slot, b.lat, b.lon, 1_000_000, 10).unwrap();
    assert_eq!(got, vec![IsochroneResult { lat: b.lat, lon: b.lon, millis: 0 }]);
}

#[test]
fn one_way_is_routed_around() {
    // 1 -> 2 is one-way; the way back leads over 3.
    let ways = vec![
        way("residential", "yes", &[(1, 2, 50_000)]),
        way("residential", "", &[(2, 3, 50_000), (3, 1, 100_000)]),
    ];
    let mut slot = loaded(build_graph_for_mode(&nodes(1..4), &ways, "bicycle").unwrap());
    assert_eq!(time(&mut slot, at(1), at(2)), Ok(10_000));
    assert_eq!(time(&mut slot, at(2), at(1)), Ok(30_000));
}

#[test]
fn only_yes_makes_a_way_one_way() {
    for tag in ["", "no", "-1", "reversible", "true", "1", "Yes", "YES"] {
        let ways = vec![way("residential", tag, &[(1, 2, 50_000)])];
        let mut slot = loaded(build_graph_for_mode(&nodes(1..3), &ways, "bicycle").unwrap());
        assert_eq!(time(&mut slot, at(2), at(1)), Ok(10_000), "oneway={}", tag);
    }
}

#[test]
fn travel_time_is_symmetric_on_two_way_roads() {
    let ways = vec![
        way("residential", "", &[(1, 2, 50_000), (2, 3, 70_001), (3, 4, 12_345)]),
        way("primary", "", &[(1, 5, 400_000), (5, 4, 3_000)]),
        way("cycleway", "no", &[(2, 5, 9_999), (5, 6, 1_000_000)]),
    ];
    let mut slot = loaded(build_graph_for_mode(&nodes(1..7), &ways, "bicycle").unwrap());
    for a in 1..7 {
        for b in 1..7 {
            let there = time(&mut slot, at(a), at(b));
            let back = time(&mut slot, at(b), at(a));
            assert_eq!(there, back, "{} {}", a, b);
        }
    }
}

#[test]
fn snap_gives_the_nearest_node() {
    let slot = loaded(line());
    assert_eq!(routing_snap(&slot, at(2).lat, at(2).lon), Ok(at(2)));
    assert_eq!(routing_snap(&slot, 14 + 3, 2000 + 499), Ok(at(2)));
    assert_eq!(routing_snap(&slot, 14, 2000 + 501), Ok(at(3)));
    assert_eq!(routing_snap(&slot, -900_000_000, -1_800_000_000), Ok(at(1)));
    assert_eq!(routing_snap(&slot, 900_000_000, 1_800_000_000), Ok(at(4)));
}

#[test]
fn snap_goes_to_main_roads_only() {
    // 1 - 2 is a footway, 3 - 4 a street; 2 lies nearest to the probe.
    let ways =
        vec![way("footway", "", &[(1, 2, 50_000)]), way("residential", "", &[(3, 4, 50_000)])];
    let data = build_graph_for_mode(&nodes(1..5), &ways, "pedestrian").unwrap();
    assert_eq!(data.node_count(), 4);
    assert_eq!(data.find_nearest_node(at(2).lon, at(2).lat), Some(2));
    assert_eq!(data.snap(at(2)), Some(at(3)));
    assert_eq!(data.snap(at(1)), Some(at(3)));
    let mut slot = loaded(data);
    // Both ends snap to node 3.
    assert_eq!(time(&mut slot, at(1), at(2)), Ok(0));
}

#[test]
fn nothing_snaps_without_main_roads() {
    let ways = vec![way("footway", "", &[(1, 2, 50_000)])];
    let data = build_graph_for_mode(&nodes(1..3), &ways, "pedestrian").unwrap();
    assert_eq!(data.node_count(), 2);
    assert_eq!(data.find_nearest_node(0, 0), None);
    let mut slot = loaded(data);
    assert_eq!(routing_snap(&slot, 0, 0), Err(RoutingError::NoRoute));
    assert_eq!(time(&mut slot, at(1), at(2)), Err(RoutingError::NoRoute));
    assert_eq!(routing_isochrone(&slot, 0, 0, 1000, 5), Err(RoutingError::NoRoute));
}

#[test]
fn empty_graph_has_no_routes() {
    let data = build_graph_for_mode(&Vec::new(), &Vec::new(), "auto").unwrap();
    assert_eq!(data.node_count(), 0);
    let mut slot = loaded(data);
    assert_eq!(routing_is_loaded(&slot), 1);
    assert_eq!(routing_node_count(&slot), 0);
    assert_eq!(time(&mut slot, at(1), at(2)), Err(RoutingError::NoRoute));
    assert_eq!(routing_snap(&slot, 0, 0), Err(RoutingError::NoRoute));
    assert_eq!(
        routing_batch(&slot, &vec![1, 2], &vec![1, 2], &vec![1, 2], &vec![1, 2]),
        Ok((vec![None, None], 0))
    );
}

#[test]
fn bad_arguments() {
    let mut slot = loaded(line());
    let (a, d) = (at(1), at(4));
    for cap in [0, -1, i32::MIN] {
        assert_eq!(
            routing_route(&mut slot, a.lat, a.lon, d.lat, d.lon, cap).map(|r| r.duration_ms),
            Err(RoutingError::BadArgument)
        );
        assert_eq!(
            routing_isochrone(&slot, a.lat, a.lon, 1000, cap),
            Err(RoutingError::BadArgument)
        );
    }
    assert_eq!(
        routing_route_geom(&mut slot, None, Some(d), 5).map(|r| r.duration_ms),
        Err(RoutingError::BadArgument)
    );
    assert_eq!(
        routing_route_geom(&mut slot, Some(a), None, 5).map(|r| r.duration_ms),
        Err(RoutingError::BadArgument)
    );
    assert_eq!(
        routing_batch(&slot, &vec![0, 1], &vec![0], &vec![0, 1], &vec![0, 1]),
        Err(RoutingError::BadArgument)
    );
    assert_eq!(
        routing_batch(&slot, &vec![0], &vec![0], &vec![0], &Vec::new()),
        Err(RoutingError::BadArgument)
    );
    assert_eq!(RoutingError::BadArgument.code(), -1);
    // A bad argument is told before an empty slot is.
    let mut empty = Slot::new();
    assert_eq!(
        routing_route(&mut empty, 0, 0, 0, 0, 0).map(|r| r.duration_ms),
        Err(RoutingError::BadArgument)
    );
    assert_eq!(
        routing_route_geom(&mut empty, None, None, 5).map(|r| r.duration_ms),
        Err(RoutingError::BadArgument)
    );
    assert_eq!(
        routing_route_geom(&mut empty, Some(a), Some(d), 5).map(|r| r.duration_ms),
        Err(RoutingError::NotLoaded)
    );
    assert_eq!(routing_isochrone(&empty, 0, 0, 1000, 0), Err(RoutingError::BadArgument));
    assert_eq!(
        routing_batch(&empty, &vec![0], &Vec::new(), &vec![0], &vec![0]),
        Err(RoutingError::BadArgument)
    );
}

#[test]
fn route_from_geometries() {
    let mut slot = loaded(line());
    let route = routing_route_geom(&mut slot, Some(at(4)), Some(at(2)), 10).unwrap();
    let want: Vec<RoutePoint> =
        [4, 3, 2].iter().map(|&id| RoutePoint { lat: at(id).lat, lon: at(id).lon }).collect();
    assert_eq!(route.points, want);
    assert_eq!(route.duration_ms, 20_000);
}

#[test]
fn batch_gives_what_single_queries_give() {
    let mut slot = loaded(line());
    let pairs = [(1, 4), (4, 1), (2, 3), (3, 3), (1, 2)];
    let lats1: Vec<i32> = pairs.iter().map(|p| at(p.0).lat).collect();
    let lons1: Vec<i32> = pairs.iter().map(|p| at(p.0).lon).collect();
    let lats2: Vec<i32> = pairs.iter().map(|p| at(p.1).lat).collect();
    let lons2: Vec<i32> = pairs.iter().map(|p| at(p.1).lon).collect();
    let (times, successes) = routing_batch(&slot, &lats1, &lons1, &lats2, &lons2).unwrap();
    assert_eq!(times, vec![Some(30_000), Some(30_000), Some(10_000), Some(0), Some(10_000)]);
    assert_eq!(successes, 5);
    for (i, p) in pairs.iter().enumerate() {
        assert_eq!(time(&mut slot, at(p.0), at(p.1)).ok(), times[i]);
    }
}

#[test]
fn batch_of_one_pair_repeated() {
    let mut slot = loaded(line());
    let n = 50;
    let single = time(&mut slot, at(1), at(3)).ok();
    assert_eq!(single, Some(20_000));
    let (times, successes) = routing_batch(
        &slot,
        &vec![at(1).lat; n],
        &vec![at(1).lon; n],
        &vec![at(3).lat; n],
        &vec![at(3).lon; n],
    )
    .unwrap();
    assert_eq!(times, vec![single; n]);
    assert_eq!(successes, 50);
}

#[test]
fn batch_counts_successes() {
    let ways = vec![
        way("residential", "yes", &[(1, 2, 50_000)]),
        way("residential", "", &[(3, 4, 50_000)]),
    ];
    let slot = loaded(build_graph_for_mode(&nodes(1..5), &ways, "bicycle").unwrap());
    let pairs = [(1, 2), (2, 1), (3, 4), (1, 4), (4, 3)];
    let lats1: Vec<i32> = pairs.iter().map(|p| at(p.0).lat).collect();
    let lons1: Vec<i32> = pairs.iter().map(|p| at(p.0).lon).collect();
    let lats2: Vec<i32> = pairs.iter().map(|p| at(p.1).lat).collect();
    let lons2: Vec<i32> = pairs.iter().map(|p| at(p.1).lon).collect();
    let (times, successes) = routing_batch(&slot, &lats1, &lons1, &lats2, &lons2).unwrap();
    assert_eq!(times, vec![Some(10_000), None, Some(10_000), None, Some(10_000)]);
    assert_eq!(successes, 3);
    assert_eq!(
        routing_batch(&slot, &Vec::new(), &Vec::new(), &Vec::new(), &Vec::new()),
        Ok((Vec::new(), 0))
    );
}

#[test]
fn isochrone_grows_with_the_budget() {
    let ways = vec![
        way("residential", "", &[(1, 2, 50_000), (2, 3, 70_001), (3, 4, 12_345)]),
        way("primary", "", &[(1, 5, 400_000), (5, 4, 3_000)]),
        way("cycleway", "yes", &[(2, 5, 9_999), (5, 6, 1_000_000)]),
    ];
    let slot = loaded(build_graph_for_mode(&nodes(1..7), &ways, "bicycle").unwrap());
    let a = at(1);
    let budgets = [0u32, 1, 9_999, 10_000, 12_000, 24_000, 30_000, 250_000, u32::MAX];
    let mut last: Vec<IsochroneResult> = Vec::new();
    for budget in budgets {
        let got = routing_isochrone(&slot, a.lat, a.lon, budget, 100).unwrap();
        for e in &last {
            assert!(got.contains(e), "budget {}", budget);
        }
        for w in got.windows(2) {
            assert!(w[0].millis <= w[1].millis);
        }
        for e in &got {
            assert!(e.millis <= budget);
        }
        last = got;
    }
    assert_eq!(last.len(), 6);
}

#[test]
fn isochrone_nodes_carry_their_travel_times() {
    let ways = vec![
        way("residential", "", &[(1, 2, 50_000), (2, 3, 70_001), (3, 4, 12_345)]),
        way("primary", "", &[(1, 5, 400_000), (5, 4, 3_000)]),
    ];
    let mut slot = loaded(build_graph_for_mode(&nodes(1..6), &ways, "bicycle").unwrap());
    let a = at(1);
    let got = routing_isochrone(&slot, a.lat, a.lon, u32::MAX, 100).unwrap();
    assert_eq!(got.len(), 5);
    for e in got {
        let to = Coord { lon: e.lon, lat: e.lat };
        assert_eq!(time(&mut slot, a, to), Ok(u64::from(e.millis)));
    }
}

#[test]
fn isochrone_is_cut_at_the_cap() {
    let slot = loaded(line());
    let a = at(1);
    let all = routing_isochrone(&slot, a.lat, a.lon, 1_000_000, 100).unwrap();
    assert_eq!(all.len(), 4);
    for cap in 1..6 {
        let got = routing_isochrone(&slot, a.lat, a.lon, 1_000_000, cap).unwrap();
        let n = (cap as usize).min(4);
        assert_eq!(got, all[..n].to_vec());
    }
}

#[test]
fn isochrone_budget_edges() {
    let slot = loaded(line());
    let b = at(2);
    let got = routing_isochrone(&slot, b.lat, b.lon, 0, 10).unwrap();
    assert_eq!(got, vec![IsochroneResult { lat: b.lat, lon: b.lon, millis: 0 }]);
    let got = routing_isochrone(&slot, b.lat, b.lon, 9_999, 10).unwrap();
    assert_eq!(got.len(), 1);
    let got = routing_isochrone(&slot, b.lat, b.lon, 10_000, 10).unwrap();
    assert_eq!(got.len(), 3);
    assert_eq!(got[1].millis, 10_000);
    assert_eq!(got[2].millis, 10_000);
    let got = routing_isochrone(&slot, b.lat, b.lon, 20_000, 10).unwrap();
    assert_eq!(got.len(), 4);
    assert_eq!(got[3], IsochroneResult { lat: at(4).lat, lon: at(4).lon, millis: 20_000 });
}

#[test]
fn parts_come_back_as_the_same_bundle() {
    let ways = vec![
        way("residential", "", &[(1, 2, 50_000), (2, 3, 70_001), (3, 4, 12_345)]),
        way("footway", "", &[(4, 5, 400_000)]),
    ];
    let data = build_graph_for_mode(&nodes(1..6), &ways, "bicycle").unwrap();
    let mut before = loaded(build_graph_for_mode(&nodes(1..6), &ways, "bicycle").unwrap());
    let parts = data.into_parts();
    assert_eq!(parts.node_positions, (1..6).map(at).collect::<Vec<Coord>>());
    assert_eq!(parts.main_road, vec![true, true, true, true, false]);
    assert_eq!(parts.adj_list.len(), 5);
    let mut after = loaded(RoutingData::from_parts(parts).unwrap());
    assert_eq!(routing_node_count(&after), 5);
    for a in 1..6 {
        for b in 1..6 {
            assert_eq!(time(&mut before, at(a), at(b)), time(&mut after, at(a), at(b)));
        }
        let p = at(a);
        assert_eq!(routing_snap(&before, p.lat, p.lon), routing_snap(&after, p.lat, p.lon));
        assert_eq!(
            routing_isochrone(&before, p.lat, p.lon, 100_000, 10),
            routing_isochrone(&after, p.lat, p.lon, 100_000, 10)
        );
    }
}

fn parts() -> RoutingParts {
    line().into_parts()
}

#[test]
fn parts_that_do_not_fit_give_no_bundle() {
    assert!(RoutingData::from_parts(parts()).is_some());
    let mut p = parts();
    p.main_road.pop();
    assert!(RoutingData::from_parts(p).is_none());
    let mut p = parts();
    p.node_positions.push(at(9));
    p.main_road.push(true);
    assert!(RoutingData::from_parts(p).is_none());
    let mut p = parts();
    p.adj_list.push(Vec::new());
    assert!(RoutingData::from_parts(p).is_none());
}
