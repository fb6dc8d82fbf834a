use routing::speed::{
    get_speed_kmh, is_main_road, parse_highway, parse_mode, travel_time_ms, HighwayClass,
    TravelMode,
};

fn kmh(highway: &str, mode: &str) -> Option<f64> {
    get_speed_kmh(highway, mode).map(|v| f64::from(v) / 1000.0)
}

#[test]
fn test_speed_lookup() {
    assert_eq!(kmh("motorway", "auto"), Some(120.0));
    assert_eq!(kmh("cycleway", "bicycle"), Some(20.0));
    assert_eq!(kmh("footway", "pedestrian"), Some(5.0));
    assert_eq!(kmh("railway", "auto"), None);
}

#[test]
fn test_is_main_road() {
    assert!(is_main_road("motorway"));
    assert!(is_main_road("residential"));
    assert!(!is_main_road("footway"));
    assert!(!is_main_road("cycleway"));
}

#[test]
fn speed_table_auto() {
    let rows = [
        ("motorway", 120.0),
        ("motorway_link", 80.0),
        ("trunk", 100.0),
        ("trunk_link", 60.0),
        ("primary", 80.0),
        ("primary_link", 50.0),
        ("secondary", 60.0),
        ("secondary_link", 40.0),
        ("tertiary", 50.0),
        ("tertiary_link", 30.0),
        ("residential", 30.0),
        ("living_street", 20.0),
        ("service", 20.0),
        ("unclassified", 40.0),
    ];
    for (class, speed) in rows {
        assert_eq!(kmh(class, "auto"), Some(speed), "{}", class);
    }
    for class in ["cycleway", "path", "track", "bridleway", "footway", "pedestrian", "steps"] {
        assert_eq!(kmh(class, "auto"), None, "{}", class);
    }
}

#[test]
fn speed_table_bicycle() {
    let rows = [
        ("motorway", 5.0),
        ("motorway_link", 5.0),
        ("trunk", 12.0),
        ("trunk_link", 12.0),
        ("primary", 15.0),
        ("primary_link", 15.0),
        ("secondary", 18.0),
        ("secondary_link", 18.0),
        ("tertiary", 20.0),
        ("tertiary_link", 20.0),
        ("residential", 18.0),
        ("living_street", 15.0),
        ("service", 15.0),
        ("unclassified", 18.0),
        ("cycleway", 20.0),
        ("path", 15.0),
        ("track", 12.0),
        ("bridleway", 10.0),
        ("footway", 10.0),
        ("pedestrian", 8.0),
        ("steps", 3.0),
    ];
    for (class, speed) in rows {
        assert_eq!(kmh(class, "bicycle"), Some(speed), "{}", class);
    }
}

#[test]
fn speed_table_pedestrian() {
    let rows = [
        ("motorway", 3.0),
        ("motorway_link", 3.0),
        ("trunk", 5.0),
        ("trunk_link", 5.0),
        ("primary", 5.0),
        ("primary_link", 5.0),
        ("secondary", 5.0),
        ("secondary_link", 5.0),
        ("tertiary", 5.0),
        ("tertiary_link", 5.0),
        ("residential", 5.0),
        ("living_street", 5.0),
        ("service", 5.0),
        ("unclassified", 5.0),
        ("cycleway", 5.0),
        ("path", 4.5),
        ("track", 4.0),
        ("bridleway", 4.0),
        ("footway", 5.0),
        ("pedestrian", 5.0),
        ("steps", 3.0),
    ];
    for (class, speed) in rows {
        assert_eq!(kmh(class, "pedestrian"), Some(speed), "{}", class);
    }
}

#[test]
fn speed_of_unknown_input_is_absent() {
    assert_eq!(get_speed_kmh("", "auto"), None);
    assert_eq!(get_speed_kmh("Motorway", "auto"), None);
    assert_eq!(get_speed_kmh("motorway", "car"), None);
    assert_eq!(get_speed_kmh("motorway", ""), None);
    assert_eq!(get_speed_kmh("motorway ", "auto"), None);
}

#[test]
fn main_road_classes() {
    for class in [
        "motorway",
        "motorway_link",
        "trunk",
        "trunk_link",
        "primary",
        "primary_link",
        "secondary",
        "secondary_link",
        "tertiary",
        "tertiary_link",
        "residential",
        "living_street",
        "service",
        "unclassified",
    ] {
        assert!(is_main_road(class), "{}", class);
    }
    for class in
        ["cycleway", "path", "track", "bridleway", "footway", "pedestrian", "steps", "", "rail"]
    {
        assert!(!is_main_road(class), "{}", class);
    }
}

#[test]
fn parse_tags() {
    assert_eq!(parse_highway("steps"), Some(HighwayClass::Steps));
    assert_eq!(parse_highway("living_street"), Some(HighwayClass::LivingStreet));
    assert_eq!(parse_highway("stairs"), None);
    assert_eq!(parse_mode("auto"), Some(TravelMode::Auto));
    assert_eq!(parse_mode("bicycle"), Some(TravelMode::Bicycle));
    assert_eq!(parse_mode("pedestrian"), Some(TravelMode::Pedestrian));
    assert_eq!(parse_mode("foot"), None);
}

#[test]
fn travel_time_of_a_hundred_metres() {
    // 100 m at 36 km/h take ten seconds.
    assert_eq!(travel_time_ms(100_000, 36_000), 10_000);
    // 50 m at 18 km/h as well.
    assert_eq!(travel_time_ms(50_000, 18_000), 10_000);
    // 1 km at 120 km/h take thirty seconds.
    assert_eq!(travel_time_ms(1_000_000, 120_000), 30_000);
}

#[test]
fn travel_time_rounds_toward_zero() {
    // 1 mm at 4.5 km/h is 0.8 ms.
    assert_eq!(travel_time_ms(1, 4_500), 0);
    // 2 mm are 1.6 ms.
    assert_eq!(travel_time_ms(2, 4_500), 1);
    assert_eq!(travel_time_ms(0, 30_000), 0);
    // 10 m at 3 km/h are exactly 12 s.
    assert_eq!(travel_time_ms(10_000, 3_000), 12_000);
    assert_eq!(travel_time_ms(9_999, 3_000), 11_998);
}

#[test]
fn travel_time_stays_in_range() {
    assert_eq!(travel_time_ms(u64::MAX, 3_000), u32::MAX);
    assert_eq!(travel_time_ms(u64::MAX, 1), u32::MAX);
    assert_eq!(travel_time_ms(1, 0), u32::MAX);
    assert_eq!(travel_time_ms(0, 0), 0);
    // The last length whose time is below the cap, at 3.6 km/h (1 mm per ms).
    assert_eq!(travel_time_ms(4_294_967_294, 3_600), 4_294_967_294);
    assert_eq!(travel_time_ms(4_294_967_295, 3_600), u32::MAX);
}

#[test]
fn doubling_the_length_doubles_the_time() {
    for speed in [3_000u32, 4_500, 18_000, 30_000, 120_000] {
        for length in [0u64, 1, 2, 3, 7, 999, 50_000, 123_457, 9_999_999] {
            let once = u64::from(travel_time_ms(length, speed));
            let twice = u64::from(travel_time_ms(2 * length, speed));
            assert!(2 * once <= twice && twice <= 2 * once + 1, "{} {}", length, speed);
        }
    }
    assert_eq!(travel_time_ms(200_000, 36_000), 2 * travel_time_ms(100_000, 36_000));
}
