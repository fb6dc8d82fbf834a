use routing::spatial::{Coord, SpatialIndex};

fn degrees(lon: i32, lat: i32) -> Coord {
    Coord { lon: lon * 10_000_000, lat: lat * 10_000_000 }
}

#[test]
fn test_rtree_nearest() {
    let positions = vec![degrees(0, 0), degrees(1, 1), degrees(2, 2)];
    let main = vec![true, true, true];
    let tree = SpatialIndex::from_nodes(&positions, &main);

    let nearest = tree.nearest(1_000_000, 1_000_000).unwrap();
    assert_eq!(nearest, 0);

    let nearest = tree.nearest(19_000_000, 19_000_000).unwrap();
    assert_eq!(nearest, 2);
}

#[test]
fn empty_index_finds_nothing() {
    let tree = SpatialIndex::from_nodes(&Vec::new(), &Vec::new());
    assert_eq!(tree.nearest(0, 0), None);
    let tree = SpatialIndex::from_nodes(&vec![degrees(1, 1), degrees(2, 2)], &vec![false, false]);
    assert_eq!(tree.nearest(0, 0), None);
}

#[test]
fn index_holds_main_nodes_only() {
    let positions = vec![degrees(0, 0), degrees(1, 1), degrees(2, 2), degrees(3, 3)];
    let main = vec![false, true, false, true];
    let tree = SpatialIndex::from_nodes(&positions, &main);
    // Node 0 lies right at the probe but is on no main road.
    assert_eq!(tree.nearest(0, 0), Some(1));
    assert_eq!(tree.nearest(20_000_000, 20_000_000 + 1), Some(3));
    assert_eq!(tree.nearest(20_000_000, 20_000_000 - 1), Some(1));
    assert_eq!(tree.nearest(i32::MAX, i32::MAX), Some(3));
    assert_eq!(tree.nearest(i32::MIN, i32::MIN), Some(1));
}

#[test]
fn index_finds_the_nearest_of_many() {
    // A grid of 40 x 40 nodes, 1000 units apart.
    let mut positions = Vec::new();
    let mut main = Vec::new();
    for x in 0..40 {
        for y in 0..40 {
            positions.push(Coord { lon: x * 1000, lat: y * 1000 });
            main.push(true);
        }
    }
    let tree = SpatialIndex::from_nodes(&positions, &main);
    let probes = [(0, 0), (499, 499), (501, 499), (12_345, 6_789), (39_400, 39_600), (-5, 70_000)];
    for (lon, lat) in probes {
        let hit = tree.nearest(lon, lat).unwrap();
        let d = |c: &Coord| {
            let dx = i64::from(c.lon) - i64::from(lon);
            let dy = i64::from(c.lat) - i64::from(lat);
            dx * dx + dy * dy
        };
        let best = positions.iter().map(|c| d(c)).min().unwrap();
        assert_eq!(d(&positions[hit]), best, "{} {}", lon, lat);
    }
}

#[test]
fn index_works_across_the_whole_range() {
    let positions = vec![
        Coord { lon: -1_800_000_000, lat: -900_000_000 },
        Coord { lon: 1_800_000_000, lat: 900_000_000 },
        Coord { lon: i32::MAX, lat: i32::MIN },
    ];
    let tree = SpatialIndex::from_nodes(&positions, &vec![true, true, true]);
    assert_eq!(tree.nearest(-1_799_999_999, -900_000_000), Some(0));
    assert_eq!(tree.nearest(1_700_000_000, 800_000_000), Some(1));
    assert_eq!(tree.nearest(i32::MAX, i32::MIN), Some(2));
    assert_eq!(tree.nearest(i32::MIN, i32::MIN), Some(0));
}

#[test]
fn of_nodes_at_the_same_distance_the_least_index_is_found() {
    // Four nodes at the corners of a square, probed at its centre, in every
    // order of loading that the main-road flags can bring about.
    let positions = vec![
        Coord { lon: 10, lat: 10 },
        Coord { lon: -10, lat: 10 },
        Coord { lon: 10, lat: -10 },
        Coord { lon: -10, lat: -10 },
    ];
    for mask in 1..16u32 {
        let main: Vec<bool> = (0..4).map(|i| mask & (1 << i) != 0).collect();
        let tree = SpatialIndex::from_nodes(&positions, &main);
        let first = (0..4).find(|&i| main[i]).unwrap();
        assert_eq!(tree.nearest(0, 0), Some(first), "mask {}", mask);
    }
    // Many nodes at one position.
    let positions = vec![Coord { lon: 5, lat: 5 }; 200];
    let mut main = vec![true; 200];
    main[0] = false;
    main[1] = false;
    let tree = SpatialIndex::from_nodes(&positions, &main);
    assert_eq!(tree.nearest(-7, 300), Some(2));
}
