//! Speed profile: which road classes a transport mode may use, how fast it
//! travels on them, and how long a stretch of road takes.
//!
//! Speeds are whole metres per hour, so that every tabulated speed (the
//! slowest is 3 km/h, one is 4.5 km/h) is an integer. Lengths are whole
//! millimetres and travel times whole milliseconds.

use vstd::prelude::*;
use crate::text::str_eq;

verus! {

/// The value of a way's `highway` tag, where it names a road class that some
/// mode can use.
#[derive(Clone, Copy, Debug, PartialEq, Eq, Structural)]
pub enum HighwayClass {
    Motorway,
    MotorwayLink,
    Trunk,
    TrunkLink,
    Primary,
    PrimaryLink,
    Secondary,
    SecondaryLink,
    Tertiary,
    TertiaryLink,
    Residential,
    LivingStreet,
    Service,
    Unclassified,
    Cycleway,
    Path,
    Track,
    Bridleway,
    Footway,
    Pedestrian,
    Steps,
}

/// A transport mode.
#[derive(Clone, Copy, Debug, PartialEq, Eq, Structural)]
pub enum TravelMode {
    Auto,
    Bicycle,
    Pedestrian,
}

/// The road class that a `highway` tag value names, if any.
pub open spec fn highway_class(tag: Seq<char>) -> Option<HighwayClass> {
    if tag == "motorway"@ {
        Some(HighwayClass::Motorway)
    } else if tag == "motorway_link"@ {
        Some(HighwayClass::MotorwayLink)
    } else if tag == "trunk"@ {
        Some(HighwayClass::Trunk)
    } else if tag == "trunk_link"@ {
        Some(HighwayClass::TrunkLink)
    } else if tag == "primary"@ {
        Some(HighwayClass::Primary)
    } else if tag == "primary_link"@ {
        Some(HighwayClass::PrimaryLink)
    } else if tag == "secondary"@ {
        Some(HighwayClass::Secondary)
    } else if tag == "secondary_link"@ {
        Some(HighwayClass::SecondaryLink)
    } else if tag == "tertiary"@ {
        Some(HighwayClass::Tertiary)
    } else if tag == "tertiary_link"@ {
        Some(HighwayClass::TertiaryLink)
    } else if tag == "residential"@ {
        Some(HighwayClass::Residential)
    } else if tag == "living_street"@ {
        Some(HighwayClass::LivingStreet)
    } else if tag == "service"@ {
        Some(HighwayClass::Service)
    } else if tag == "unclassified"@ {
        Some(HighwayClass::Unclassified)
    } else if tag == "cycleway"@ {
        Some(HighwayClass::Cycleway)
    } else if tag == "path"@ {
        Some(HighwayClass::Path)
    } else if tag == "track"@ {
        Some(HighwayClass::Track)
    } else if tag == "bridleway"@ {
        Some(HighwayClass::Bridleway)
    } else if tag == "footway"@ {
        Some(HighwayClass::Footway)
    } else if tag == "pedestrian"@ {
        Some(HighwayClass::Pedestrian)
    } else if tag == "steps"@ {
        Some(HighwayClass::Steps)
    } else {
        None
    }
}

/// The transport mode that a mode string names, if any.
pub open spec fn travel_mode(name: Seq<char>) -> Option<TravelMode> {
    if name == "auto"@ {
        Some(TravelMode::Auto)
    } else if name == "bicycle"@ {
        Some(TravelMode::Bicycle)
    } else if name == "pedestrian"@ {
        Some(TravelMode::Pedestrian)
    } else {
        None
    }
}

/// Whether a road class belongs to the drivable network.
pub open spec fn main_class(class: HighwayClass) -> bool {
    match class {
        HighwayClass::Motorway
        | HighwayClass::MotorwayLink
        | HighwayClass::Trunk
        | HighwayClass::TrunkLink
        | HighwayClass::Primary
        | HighwayClass::PrimaryLink
        | HighwayClass::Secondary
        | HighwayClass::SecondaryLink
        | HighwayClass::Tertiary
        | HighwayClass::TertiaryLink
        | HighwayClass::Residential
        | HighwayClass::LivingStreet
        | HighwayClass::Service
        | HighwayClass::Unclassified => true,
        _ => false,
    }
}

/// Speed of a car in metres per hour; `None` where cars may not drive.
pub open spec fn auto_speed(class: HighwayClass) -> Option<u32> {
    match class {
        HighwayClass::Motorway => Some(120_000u32),
        HighwayClass::MotorwayLink => Some(80_000u32),
        HighwayClass::Trunk => Some(100_000u32),
        HighwayClass::TrunkLink => Some(60_000u32),
        HighwayClass::Primary => Some(80_000u32),
        HighwayClass::PrimaryLink => Some(50_000u32),
        HighwayClass::Secondary => Some(60_000u32),
        HighwayClass::SecondaryLink => Some(40_000u32),
        HighwayClass::Tertiary => Some(50_000u32),
        HighwayClass::TertiaryLink => Some(30_000u32),
        HighwayClass::Residential => Some(30_000u32),
        HighwayClass::LivingStreet => Some(20_000u32),
        HighwayClass::Service => Some(20_000u32),
        HighwayClass::Unclassified => Some(40_000u32),
        _ => None,
    }
}

/// Speed of a bicycle in metres per hour.
pub open spec fn bicycle_speed(class: HighwayClass) -> u32 {
    match class {
        HighwayClass::Motorway | HighwayClass::MotorwayLink => 5_000u32,
        HighwayClass::Trunk | HighwayClass::TrunkLink => 12_000u32,
        HighwayClass::Primary | HighwayClass::PrimaryLink => 15_000u32,
        HighwayClass::Secondary | HighwayClass::SecondaryLink => 18_000u32,
        HighwayClass::Tertiary | HighwayClass::TertiaryLink => 20_000u32,
        HighwayClass::Residential => 18_000u32,
        HighwayClass::LivingStreet => 15_000u32,
        HighwayClass::Service => 15_000u32,
        HighwayClass::Unclassified => 18_000u32,
        HighwayClass::Cycleway => 20_000u32,
        HighwayClass::Path => 15_000u32,
        HighwayClass::Track => 12_000u32,
        HighwayClass::Bridleway => 10_000u32,
        HighwayClass::Footway => 10_000u32,
        HighwayClass::Pedestrian => 8_000u32,
        HighwayClass::Steps => 3_000u32,
    }
}

/// Speed of a pedestrian in metres per hour.
pub open spec fn pedestrian_speed(class: HighwayClass) -> u32 {
    match class {
        HighwayClass::Motorway | HighwayClass::MotorwayLink => 3_000u32,
        HighwayClass::Path => 4_500u32,
        HighwayClass::Track | HighwayClass::Bridleway => 4_000u32,
        HighwayClass::Steps => 3_000u32,
        _ => 5_000u32,
    }
}

/// Speed in metres per hour at which `mode` travels on `class`; `None` where
/// the mode may not use the class.
pub open spec fn class_speed(class: HighwayClass, mode: TravelMode) -> Option<u32> {
    match mode {
        TravelMode::Auto => auto_speed(class),
        TravelMode::Bicycle => Some(bicycle_speed(class)),
        TravelMode::Pedestrian => Some(pedestrian_speed(class)),
    }
}

/// Speed in metres per hour for a `highway` tag value and a mode string;
/// `None` for an unknown tag value, an unknown mode, or a class that the mode
/// may not use.
pub open spec fn speed_of(highway_type: Seq<char>, mode: Seq<char>) -> Option<u32> {
    match (highway_class(highway_type), travel_mode(mode)) {
        (Some(class), Some(m)) => class_speed(class, m),
        _ => None,
    }
}

/// Whether a `highway` tag value names a class of the drivable network.
pub open spec fn main_road(highway_type: Seq<char>) -> bool {
    match highway_class(highway_type) {
        Some(class) => main_class(class),
        None => false,
    }
}

/// Reads a `highway` tag value.
pub fn parse_highway(tag: &str) -> (class: Option<HighwayClass>)
    ensures
        class == highway_class(tag@),
{
    if str_eq(tag, "motorway") {
        Some(HighwayClass::Motorway)
    } else if str_eq(tag, "motorway_link") {
        Some(HighwayClass::MotorwayLink)
    } else if str_eq(tag, "trunk") {
        Some(HighwayClass::Trunk)
    } else if str_eq(tag, "trunk_link") {
        Some(HighwayClass::TrunkLink)
    } else if str_eq(tag, "primary") {
        Some(HighwayClass::Primary)
    } else if str_eq(tag, "primary_link") {
        Some(HighwayClass::PrimaryLink)
    } else if str_eq(tag, "secondary") {
        Some(HighwayClass::Secondary)
    } else if str_eq(tag, "secondary_link") {
        Some(HighwayClass::SecondaryLink)
    } else if str_eq(tag, "tertiary") {
        Some(HighwayClass::Tertiary)
    } else if str_eq(tag, "tertiary_link") {
        Some(HighwayClass::TertiaryLink)
    } else if str_eq(tag, "residential") {
        Some(HighwayClass::Residential)
    } else if str_eq(tag, "living_street") {
        Some(HighwayClass::LivingStreet)
    } else if str_eq(tag, "service") {
        Some(HighwayClass::Service)
    } else if str_eq(tag, "unclassified") {
        Some(HighwayClass::Unclassified)
    } else if str_eq(tag, "cycleway") {
        Some(HighwayClass::Cycleway)
    } else if str_eq(tag, "path") {
        Some(HighwayClass::Path)
    } else if str_eq(tag, "track") {
        Some(HighwayClass::Track)
    } else if str_eq(tag, "bridleway") {
        Some(HighwayClass::Bridleway)
    } else if str_eq(tag, "footway") {
        Some(HighwayClass::Footway)
    } else if str_eq(tag, "pedestrian") {
        Some(HighwayClass::Pedestrian)
    } else if str_eq(tag, "steps") {
        Some(HighwayClass::Steps)
    } else {
        None
    }
}

/// Reads a mode string.
pub fn parse_mode(name: &str) -> (mode: Option<TravelMode>)
    ensures
        mode == travel_mode(name@),
{
    if str_eq(name, "auto") {
        Some(TravelMode::Auto)
    } else if str_eq(name, "bicycle") {
        Some(TravelMode::Bicycle)
    } else if str_eq(name, "pedestrian") {
        Some(TravelMode::Pedestrian)
    } else {
        None
    }
}

/// Whether `class` belongs to the drivable network.
pub fn is_main_class(class: HighwayClass) -> (main: bool)
    ensures
        main == main_class(class),
{
    match class {
        HighwayClass::Cycleway
        | HighwayClass::Path
        | HighwayClass::Track
        | HighwayClass::Bridleway
        | HighwayClass::Footway
        | HighwayClass::Pedestrian
        | HighwayClass::Steps => false,
        _ => true,
    }
}

/// Speed in metres per hour at which `mode` travels on `class`.
pub fn speed_for(class: HighwayClass, mode: TravelMode) -> (speed: Option<u32>)
    ensures
        speed == class_speed(class, mode),
{
    match mode {
        TravelMode::Auto => match class {
            HighwayClass::Motorway => Some(120_000),
            HighwayClass::Trunk => Some(100_000),
            HighwayClass::MotorwayLink | HighwayClass::Primary => Some(80_000),
            HighwayClass::TrunkLink | HighwayClass::Secondary => Some(60_000),
            HighwayClass::PrimaryLink | HighwayClass::Tertiary => Some(50_000),
            HighwayClass::SecondaryLink | HighwayClass::Unclassified => Some(40_000),
            HighwayClass::TertiaryLink | HighwayClass::Residential => Some(30_000),
            HighwayClass::LivingStreet | HighwayClass::Service => Some(20_000),
            _ => None,
        },
        TravelMode::Bicycle => match class {
            HighwayClass::Cycleway | HighwayClass::Tertiary | HighwayClass::TertiaryLink => Some(
                20_000,
            ),
            HighwayClass::Residential
            | HighwayClass::Secondary
            | HighwayClass::SecondaryLink
            | HighwayClass::Unclassified => Some(18_000),
            HighwayClass::Path
            | HighwayClass::LivingStreet
            | HighwayClass::Service
            | HighwayClass::Primary
            | HighwayClass::PrimaryLink => Some(15_000),
            HighwayClass::Track | HighwayClass::Trunk | HighwayClass::TrunkLink => Some(12_000),
            HighwayClass::Bridleway | HighwayClass::Footway => Some(10_000),
            HighwayClass::Pedestrian => Some(8_000),
            HighwayClass::Motorway | HighwayClass::MotorwayLink => Some(5_000),
            HighwayClass::Steps => Some(3_000),
        },
        TravelMode::Pedestrian => match class {
            HighwayClass::Path => Some(4_500),
            HighwayClass::Track | HighwayClass::Bridleway => Some(4_000),
            HighwayClass::Steps | HighwayClass::Motorway | HighwayClass::MotorwayLink => Some(
                3_000,
            ),
            _ => Some(5_000),
        },
    }
}

/// Speed in metres per hour for a `highway` tag value and a mode string.
/// `None` means that the mode cannot be routed over such a way.
pub fn get_speed_kmh(highway_type: &str, mode: &str) -> (speed: Option<u32>)
    ensures
        speed == speed_of(highway_type@, mode@),
{
    match parse_mode(mode) {
        Some(m) => match parse_highway(highway_type) {
            Some(class) => speed_for(class, m),
            None => None,
        },
        None => None,
    }
}

/// Whether a `highway` tag value names a class of the drivable network. Only
/// nodes on such roads are offered for snapping.
pub fn is_main_road(highway_type: &str) -> (main: bool)
    ensures
        main == main_road(highway_type@),
{
    match parse_highway(highway_type) {
        Some(class) => is_main_class(class),
        None => false,
    }
}

/// Time in milliseconds to travel `length_mm` millimetres at `speed` metres
/// per hour, rounded toward zero and held to the range of `u32`. At speed
/// zero a stretch without length takes no time and any other takes the
/// longest time there is.
pub open spec fn segment_time_ms(length_mm: nat, speed: nat) -> nat {
    if speed == 0 {
        if length_mm == 0 {
            0
        } else {
            u32::MAX as nat
        }
    } else if length_mm * 3600 / speed >= u32::MAX {
        u32::MAX as nat
    } else {
        length_mm * 3600 / speed
    }
}

/// Time in milliseconds to travel `length_mm` millimetres at `speed` metres
/// per hour.
pub fn travel_time_ms(length_mm: u64, speed: u32) -> (time_ms: u32)
    ensures
        time_ms == segment_time_ms(length_mm as nat, speed as nat),
{
    if speed == 0 {
        if length_mm == 0 {
            0
        } else {
            u32::MAX
        }
    } else {
        let scaled: u128 = (length_mm as u128) * 3600;
        let t: u128 = scaled / (speed as u128);
        if t >= u32::MAX as u128 {
            u32::MAX
        } else {
            t as u32
        }
    }
}

/// Doubling the length of a stretch doubles its travel time, up to the one
/// millisecond that rounding toward zero can lose, as long as the doubled
/// time is within the range of `u32`.
pub proof fn lemma_double_length_doubles_time(length_mm: nat, speed: nat)
    requires
        speed > 0,
        2 * length_mm * 3600 / speed < u32::MAX,
    ensures
        2 * segment_time_ms(length_mm, speed) <= segment_time_ms(2 * length_mm, speed),
        segment_time_ms(2 * length_mm, speed) <= 2 * segment_time_ms(length_mm, speed) + 1,
{
    let a = length_mm * 3600;
    let q = a / speed;
    let r = a % speed;
    assert(a == speed * q + r && 0 <= r < speed) by {
        vstd::arithmetic::div_mod::lemma_fundamental_div_mod(a as int, speed as int);
    }
    assert(2 * length_mm * 3600 == 2 * a);
    let q2 = (2 * a) / speed;
    assert(2 * q <= q2 <= 2 * q + 1) by {
        vstd::arithmetic::div_mod::lemma_fundamental_div_mod((2 * a) as int, speed as int);
        let r2 = (2 * a) % speed;
        assert(2 * a == speed * q2 + r2 && 0 <= r2 < speed);
        assert(speed * q2 + r2 == 2 * (speed * q + r));
        assert(q2 >= 2 * q) by (nonlinear_arith)
            requires
                speed * q2 + r2 == 2 * (speed * q + r),
                0 <= r2 < speed,
                0 <= r < speed,
                speed > 0,
        ;
        assert(q2 <= 2 * q + 1) by (nonlinear_arith)
            requires
                speed * q2 + r2 == 2 * (speed * q + r),
                0 <= r2 < speed,
                0 <= r < speed,
                speed > 0,
        ;
    }
}

} // verus!
