use routing::builder::{build_graph_for_mode, OsmNode, OsmWay, WaySegment};
use routing::router::RoutingParts;
use routing::spatial::Coord;

fn node(id: i64) -> OsmNode {
    OsmNode { id, lon: 1000 * id as i32, lat: -(id as i32) }
}

fn at(id: i64) -> Coord {
    Coord { lon: 1000 * id as i32, lat: -(id as i32) }
}

fn way(highway: &str, oneway: &str, segments: &[(i64, i64, u64)]) -> OsmWay {
    OsmWay {
        highway: highway.to_string(),
        oneway: oneway.to_string(),
        segments: segments
            .iter()
            .map(|&(from, to, length_mm)| WaySegment { from, to, length_mm })
            .collect(),
    }
}

fn build(nodes: &[i64], ways: Vec<OsmWay>, mode: &str) -> RoutingParts {
    let nodes: Vec<OsmNode> = nodes.iter().map(|&id| node(id)).collect();
    build_graph_for_mode(&nodes, &ways, mode).unwrap().into_parts()
}

#[test]
fn nodes_are_numbered_by_first_touch() {
    let ways = vec![
        way("residential", "", &[(30, 10, 50_000), (10, 20, 50_000)]),
        way("residential", "", &[(20, 30, 50_000), (30, 5, 50_000)]),
    ];
    let parts = build(&[5, 10, 20, 30, 40], ways, "bicycle");
    assert_eq!(parts.node_positions, vec![at(30), at(10), at(20), at(5)]);
    assert_eq!(parts.main_road, vec![true; 4]);
    assert_eq!(
        parts.adj_list,
        vec![
            vec![(1, 10_000), (2, 10_000), (3, 10_000)],
            vec![(0, 10_000), (2, 10_000)],
            vec![(1, 10_000), (0, 10_000)],
            vec![(0, 10_000)],
        ]
    );
}

#[test]
fn one_way_gives_the_forward_edge_only() {
    let ways = vec![way("residential", "yes", &[(1, 2, 50_000), (2, 3, 50_000)])];
    let parts = build(&[1, 2, 3], ways, "bicycle");
    assert_eq!(parts.adj_list, vec![vec![(1, 10_000)], vec![(2, 10_000)], vec![]]);
}

#[test]
fn weights_follow_length_and_speed() {
    let ways = vec![
        way("motorway", "yes", &[(1, 2, 1_000_000)]),
        way("path", "yes", &[(2, 3, 1_000_000)]),
        way("steps", "yes", &[(3, 4, 1_000)]),
    ];
    // By car only the motorway counts: one kilometre at 120 km/h.
    let parts = build(&[1, 2, 3, 4], ways, "auto");
    assert_eq!(parts.adj_list, vec![vec![(1, 30_000)], vec![]]);
    let ways = vec![
        way("motorway", "yes", &[(1, 2, 1_000_000)]),
        way("path", "yes", &[(2, 3, 1_000_000)]),
        way("steps", "yes", &[(3, 4, 1_000)]),
    ];
    // On foot: 3 km/h, 4.5 km/h and 3 km/h.
    let parts = build(&[1, 2, 3, 4], ways, "pedestrian");
    assert_eq!(
        parts.adj_list,
        vec![vec![(1, 1_200_000)], vec![(2, 800_000)], vec![(3, 1_200)], vec![]]
    );
    assert_eq!(parts.main_road, vec![true, true, false, false]);
}

#[test]
fn segments_without_travel_time_are_dropped() {
    let ways = vec![way(
        "residential",
        "",
        // 4 mm at 18 km/h are 0.8 ms; 5 mm are 1 ms.
        &[(1, 2, 0), (2, 3, 4), (3, 4, 5)],
    )];
    let parts = build(&[1, 2, 3, 4], ways, "bicycle");
    assert_eq!(parts.node_positions, vec![at(3), at(4)]);
    assert_eq!(parts.adj_list, vec![vec![(1, 1)], vec![(0, 1)]]);
}

#[test]
fn segments_with_unknown_ends_are_dropped() {
    let ways = vec![way("residential", "", &[(1, 2, 50_000), (2, 99, 50_000), (99, 3, 50_000)])];
    let parts = build(&[1, 2, 3], ways, "bicycle");
    assert_eq!(parts.node_positions, vec![at(1), at(2)]);
    assert_eq!(parts.adj_list, vec![vec![(1, 10_000)], vec![(0, 10_000)]]);
}

#[test]
fn segments_back_to_their_start_are_dropped() {
    let ways = vec![way("residential", "", &[(1, 1, 50_000), (1, 2, 50_000), (2, 2, 7)])];
    let parts = build(&[1, 2], ways, "bicycle");
    assert_eq!(parts.adj_list, vec![vec![(1, 10_000)], vec![(0, 10_000)]]);
}

#[test]
fn ways_that_the_mode_cannot_use_are_dropped() {
    let ways = vec![
        way("cycleway", "", &[(1, 2, 50_000)]),
        way("footway", "", &[(2, 3, 50_000)]),
        way("railway", "", &[(3, 4, 50_000)]),
        way("", "", &[(4, 5, 50_000)]),
    ];
    let nodes: Vec<OsmNode> = (1..6).map(node).collect();
    let data = build_graph_for_mode(&nodes, &ways, "auto").unwrap();
    assert_eq!(data.node_count(), 0);
    let data = build_graph_for_mode(&nodes, &ways, "bicycle").unwrap();
    assert_eq!(data.node_count(), 3);
    let data = build_graph_for_mode(&nodes, &ways, "horse").unwrap();
    assert_eq!(data.node_count(), 0);
}

#[test]
fn a_later_node_takes_the_place_of_an_earlier_one() {
    let nodes = vec![
        OsmNode { id: 1, lon: 10, lat: 20 },
        OsmNode { id: 2, lon: 30, lat: 40 },
        OsmNode { id: 1, lon: 50, lat: 60 },
    ];
    let ways = vec![way("residential", "", &[(1, 2, 50_000)])];
    let parts = build_graph_for_mode(&nodes, &ways, "bicycle").unwrap().into_parts();
    assert_eq!(parts.node_positions, vec![Coord { lon: 50, lat: 60 }, Coord { lon: 30, lat: 40 }]);
}

#[test]
fn only_nodes_on_main_roads_are_flagged() {
    let ways = vec![
        way("footway", "", &[(1, 2, 50_000)]),
        way("residential", "", &[(2, 3, 50_000)]),
        way("path", "", &[(3, 4, 50_000), (4, 5, 50_000)]),
        way("service", "", &[(5, 6, 0)]),
    ];
    let parts = build(&[1, 2, 3, 4, 5, 6], ways, "pedestrian");
    assert_eq!(parts.node_positions, vec![at(1), at(2), at(3), at(4), at(5)]);
    assert_eq!(parts.main_road, vec![false, true, true, false, false]);
}

#[test]
fn parallel_edges_are_kept() {
    let ways = vec![
        way("residential", "yes", &[(1, 2, 50_000)]),
        way("residential", "yes", &[(1, 2, 25_000)]),
        way("residential", "yes", &[(1, 2, 75_000)]),
    ];
    let parts = build(&[1, 2], ways, "bicycle");
    assert_eq!(parts.adj_list, vec![vec![(1, 10_000), (1, 5_000), (1, 15_000)], vec![]]);
}

#[test]
fn longest_times_stay_in_range() {
    let ways = vec![way("steps", "yes", &[(1, 2, u64::MAX)])];
    let parts = build(&[1, 2], ways, "pedestrian");
    assert_eq!(parts.adj_list, vec![vec![(1, u32::MAX)], vec![]]);
}

#[test]
fn empty_map_gives_an_empty_graph() {
    let data = build_graph_for_mode(&Vec::new(), &Vec::new(), "auto").unwrap();
    assert_eq!(data.node_count(), 0);
    let parts = data.into_parts();
    assert!(parts.node_positions.is_empty());
    assert!(parts.main_road.is_empty());
    assert!(parts.adj_list.is_empty());
}
