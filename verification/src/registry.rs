//! The slot of a transport mode and the operations that callers see.
//!
//! There is one slot per mode. A slot is empty or holds one bundle with its
//! path calculator. Each operation answers with a value or with the reason
//! why there is none; `RoutingError::code` gives the number that stands for
//! a reason at the C boundary.

use vstd::prelude::*;
use crate::graph::{adjacency_edges, lemma_symmetric_distance, symmetric};
use crate::hierarchy::calc_nodes;
use crate::isochrone::is_isochrone;
use crate::router::{
    is_route, isochrone_results, IsochroneResult, Route, RoutingData,
};
use crate::spatial::Coord;
use crate::text::str_eq;

verus! {

/// Why an operation gave no value.
#[derive(Clone, Copy, Debug, PartialEq, Eq, Structural)]
pub enum RoutingError {
    /// The slot of the mode is empty.
    NotLoaded,
    /// An argument cannot be used: no room for results, a geometry that
    /// could not be read, lists of different lengths.
    BadArgument,
    /// An end does not snap to a node, or no path leads from the one node
    /// to the other.
    NoRoute,
}

impl RoutingError {
    /// The number that stands for the reason: -2 for an empty slot, -1 for
    /// anything else.
    pub open spec fn code_of(self) -> int {
        match self {
            RoutingError::NotLoaded => -2,
            _ => -1,
        }
    }

    /// The number that stands for the reason.
    pub fn code(&self) -> (code: i32)
        ensures
            code == self.code_of(),
    {
        match self {
            RoutingError::NotLoaded => -2,
            _ => -1,
        }
    }
}

/// Whether `answer` is the failure `reason`.
pub open spec fn failed_with<T>(answer: Result<T, RoutingError>, reason: RoutingError) -> bool {
    answer matches Err(e) && e == reason
}

/// The three slots.
#[derive(Clone, Copy, Debug, PartialEq, Eq, Structural)]
pub enum ModeSlot {
    Auto,
    Bicycle,
    Pedestrian,
}

/// The slot that a mode string selects. Any string that names no other mode
/// selects the slot of `auto`.
pub open spec fn slot_of(mode: Seq<char>) -> ModeSlot {
    if mode == "bicycle"@ {
        ModeSlot::Bicycle
    } else if mode == "pedestrian"@ {
        ModeSlot::Pedestrian
    } else {
        ModeSlot::Auto
    }
}

/// The slot that a mode string selects.
pub fn get_router_for_mode(mode: &str) -> (slot: ModeSlot)
    ensures
        slot == slot_of(mode@),
{
    if str_eq(mode, "bicycle") {
        ModeSlot::Bicycle
    } else if str_eq(mode, "pedestrian") {
        ModeSlot::Pedestrian
    } else {
        ModeSlot::Auto
    }
}

/// A bundle with the path calculator that queries on it use.
pub struct Router {
    pub(crate) data: RoutingData,
    pub(crate) calculator: fast_paths::PathCalculator,
}

impl Router {
    #[verifier::type_invariant]
    spec fn inv(self) -> bool {
        calc_nodes(self.calculator) == self.data@.positions.len()
    }

    /// The bundle of the router.
    pub closed spec fn bundle(&self) -> RoutingData {
        self.data
    }

    /// A router on `data`, with a fresh calculator.
    pub fn new(data: RoutingData) -> (router: Router)
        ensures
            router.bundle() == data,
    {
        let calculator = data.new_calculator();
        Router { data, calculator }
    }

    /// The travel time in milliseconds between two positions. The router
    /// comes back with the answer.
    pub fn travel_time(self, from: Coord, to: Coord) -> (answer: (Router, Option<u64>))
        ensures
            answer.0.bundle() == self.bundle(),
            answer.1 == time_of(self.bundle(), from, to),
    {
        proof {
            use_type_invariant(&self);
        }
        let Router { data, calculator } = self;
        let mut calculator = calculator;
        let time_ms = data.travel_time_with(&mut calculator, from, to);
        (Router { data, calculator }, time_ms)
    }

    /// The route between two positions, with room for `max_points` points.
    /// The router comes back with the answer.
    pub fn route(self, from: Coord, to: Coord, max_points: usize) -> (answer: (
        Router,
        Option<Route>,
    ))
        ensures
            answer.0.bundle() == self.bundle(),
            answer.1 is None <==> self.bundle().travel_time(from, to) is None,
            answer.1 matches Some(r) ==> {
                &&& self.bundle().travel_time(from, to) == Some(r.duration_ms as int)
                &&& self.bundle().snapped(from) is Some
                &&& self.bundle().snapped(to) is Some
                &&& is_route(
                    self.bundle()@,
                    self.bundle().snapped(from)->0,
                    self.bundle().snapped(to)->0,
                    max_points as nat,
                    r,
                )
            },
    {
        proof {
            use_type_invariant(&self);
        }
        let Router { data, calculator } = self;
        let mut calculator = calculator;
        let route = data.route_with(&mut calculator, from, to, max_points);
        (Router { data, calculator }, route)
    }
}

/// The slot of one mode: empty, or loaded with a router.
pub struct Slot {
    pub(crate) router: Option<Router>,
}

/// A travel time as a caller sees it.
pub open spec fn time_of(data: RoutingData, from: Coord, to: Coord) -> Option<u64> {
    match data.travel_time(from, to) {
        Some(t) => Some(t as u64),
        None => None,
    }
}

/// How many of `times` are there.
pub open spec fn count_some(times: Seq<Option<u64>>) -> nat
    decreases times.len(),
{
    if times.len() == 0 {
        0
    } else {
        count_some(times.drop_last()) + if times.last() is Some {
            1nat
        } else {
            0nat
        }
    }
}

impl Slot {
    /// The bundle that the slot holds, if any.
    pub closed spec fn loaded(&self) -> Option<RoutingData> {
        match self.router {
            Some(r) => Some(r.data),
            None => None,
        }
    }

    /// An empty slot.
    pub fn new() -> (slot: Slot)
        ensures
            slot.loaded() is None,
    {
        Slot { router: None }
    }

    /// The bundle that the slot holds, if any.
    pub fn data(&self) -> (data: Option<&RoutingData>)
        ensures
            data is None <==> self.loaded() is None,
            data matches Some(d) ==> self.loaded() == Some(*d),
    {
        match &self.router {
            Some(r) => Some(&r.data),
            None => None,
        }
    }
}

/// Ends a load. A bundle that was read or built is installed in the slot in
/// place of what was there, and the answer is 0. Without a bundle the slot
/// stays as it was and the answer is -1.
pub fn routing_load(slot: &mut Slot, built: Option<RoutingData>) -> (code: i32)
    ensures
        built is Some ==> code == 0 && final(slot).loaded() == built,
        built is None ==> code == -1 && final(slot).loaded() == old(slot).loaded(),
{
    match built {
        Some(data) => {
            slot.router = Some(Router::new(data));
            0
        },
        None => -1,
    }
}

/// 1 where the slot holds a bundle, 0 where it is empty.
pub fn routing_is_loaded(slot: &Slot) -> (flag: i32)
    ensures
        flag == if slot.loaded() is Some {
            1int
        } else {
            0int
        },
{
    if slot.router.is_some() {
        1
    } else {
        0
    }
}

/// Empties the slot.
pub fn routing_free(slot: &mut Slot)
    ensures
        final(slot).loaded() is None,
{
    slot.router = None;
}

/// The number of nodes of the bundle in the slot, held to the range of
/// `i32`; -2 where the slot is empty.
pub fn routing_node_count(slot: &Slot) -> (count: i32)
    ensures
        slot.loaded() is None ==> count == -2,
        slot.loaded() matches Some(d) ==> count == if d@.positions.len() > i32::MAX {
            i32::MAX as int
        } else {
            d@.positions.len() as int
        },
{
    match &slot.router {
        Some(r) => {
            let n = r.data.node_count();
            if n > i32::MAX as usize {
                i32::MAX
            } else {
                n as i32
            }
        },
        None => -2,
    }
}

/// The travel time in milliseconds between two positions.
pub fn routing_travel_time(slot: &mut Slot, lat1: i32, lon1: i32, lat2: i32, lon2: i32) -> (time_ms:
    Result<u64, RoutingError>)
    ensures
        final(slot).loaded() == old(slot).loaded(),
        old(slot).loaded() is None ==> time_ms == Err::<u64, RoutingError>(
            RoutingError::NotLoaded,
        ),
        old(slot).loaded() matches Some(d) ==> time_ms == match time_of(
            d,
            Coord { lon: lon1, lat: lat1 },
            Coord { lon: lon2, lat: lat2 },
        ) {
            Some(t) => Ok::<u64, RoutingError>(t),
            None => Err::<u64, RoutingError>(RoutingError::NoRoute),
        },
{
    match slot.router.take() {
        Some(router) => {
            let from = Coord { lon: lon1, lat: lat1 };
            let to = Coord { lon: lon2, lat: lat2 };
            let (router, time) = router.travel_time(from, to);
            slot.router = Some(router);
            match time {
                Some(t) => Ok(t),
                None => Err(RoutingError::NoRoute),
            }
        },
        None => Err(RoutingError::NotLoaded),
    }
}

/// Snaps a position to the road network: the position of the nearest
/// main-road node.
pub fn routing_snap(slot: &Slot, lat: i32, lon: i32) -> (snapped: Result<Coord, RoutingError>)
    ensures
        slot.loaded() is None ==> snapped == Err::<Coord, RoutingError>(RoutingError::NotLoaded),
        slot.loaded() matches Some(d) ==> match d.snapped(Coord { lon, lat }) {
            None => snapped == Err::<Coord, RoutingError>(RoutingError::NoRoute),
            Some(node) => 0 <= node < d@.positions.len() && snapped == Ok::<Coord, RoutingError>(
                d@.positions[node],
            ),
        },
{
    match &slot.router {
        Some(r) => match r.data.snap(Coord { lon, lat }) {
            Some(c) => Ok(c),
            None => Err(RoutingError::NoRoute),
        },
        None => Err(RoutingError::NotLoaded),
    }
}

/// The route between two positions, with room for `max_points` points.
pub fn routing_route(
    slot: &mut Slot,
    lat1: i32,
    lon1: i32,
    lat2: i32,
    lon2: i32,
    max_points: i32,
) -> (route: Result<Route, RoutingError>)
    ensures
        final(slot).loaded() == old(slot).loaded(),
        routed(
            old(slot).loaded(),
            Some(Coord { lon: lon1, lat: lat1 }),
            Some(Coord { lon: lon2, lat: lat2 }),
            max_points,
            route,
        ),
{
    routing_route_geom(
        slot,
        Some(Coord { lon: lon1, lat: lat1 }),
        Some(Coord { lon: lon2, lat: lat2 }),
        max_points,
    )
}

/// Whether `route` answers a route query on the bundle `loaded` between two
/// ends, each of which may have failed to decode. In this order: without
/// room for points or without an end the argument is bad; an empty slot is
/// not loaded; ends that do not snap or are not joined have no route; else
/// the answer is a route between the nodes that the ends snap to.
pub open spec fn routed(
    loaded: Option<RoutingData>,
    from: Option<Coord>,
    to: Option<Coord>,
    max_points: i32,
    route: Result<Route, RoutingError>,
) -> bool {
    if max_points <= 0 || from is None || to is None {
        failed_with(route, RoutingError::BadArgument)
    } else if loaded is None {
        failed_with(route, RoutingError::NotLoaded)
    } else if loaded->0.travel_time(from->0, to->0) is None {
        failed_with(route, RoutingError::NoRoute)
    } else {
        &&& route matches Ok(r)
        &&& loaded->0.travel_time(from->0, to->0) == Some(r.duration_ms as int)
        &&& loaded->0.snapped(from->0) is Some
        &&& loaded->0.snapped(to->0) is Some
        &&& is_route(
            loaded->0@,
            loaded->0.snapped(from->0)->0,
            loaded->0.snapped(to->0)->0,
            max_points as nat,
            r,
        )
    }
}

/// The route between the centroids of two geometries, with room for
/// `max_points` points. An end is `None` where its geometry could not be
/// decoded.
pub fn routing_route_geom(
    slot: &mut Slot,
    from: Option<Coord>,
    to: Option<Coord>,
    max_points: i32,
) -> (route: Result<Route, RoutingError>)
    ensures
        final(slot).loaded() == old(slot).loaded(),
        routed(old(slot).loaded(), from, to, max_points, route),
{
    if max_points <= 0 {
        return Err(RoutingError::BadArgument);
    }
    let (from, to) = match (from, to) {
        (Some(a), Some(b)) => (a, b),
        _ => {
            return Err(RoutingError::BadArgument);
        },
    };
    match slot.router.take() {
        Some(router) => {
            let (router, route) = router.route(from, to, max_points as usize);
            slot.router = Some(router);
            match route {
                Some(r) => Ok(r),
                None => Err(RoutingError::NoRoute),
            }
        },
        None => Err(RoutingError::NotLoaded),
    }
}

/// The nodes within `max_cost_ms` milliseconds of a position, nearest
/// first, at most `max_results` of them.
pub fn routing_isochrone(
    slot: &Slot,
    lat: i32,
    lon: i32,
    max_cost_ms: u32,
    max_results: i32,
) -> (reached: Result<Vec<IsochroneResult>, RoutingError>)
    ensures
        max_results <= 0 ==> failed_with(reached, RoutingError::BadArgument),
        max_results > 0 && slot.loaded() is None ==> failed_with(reached, RoutingError::NotLoaded),
        max_results > 0 && slot.loaded() is Some ==> match slot.loaded()->0.snapped(
            Coord { lon, lat },
        ) {
            None => failed_with(reached, RoutingError::NoRoute),
            Some(origin) => reached matches Ok(list) && exists|entries: Seq<(usize, u32)>|
                {
                    &&& #[trigger] is_isochrone(
                        adjacency_edges(slot.loaded()->0@.adjacency),
                        origin,
                        max_cost_ms,
                        max_results as nat,
                        entries,
                    )
                    &&& list@ == isochrone_results(slot.loaded()->0@.positions, entries)
                },
        },
{
    if max_results <= 0 {
        return Err(RoutingError::BadArgument);
    }
    match &slot.router {
        Some(r) => match r.data.isochrone(Coord { lon, lat }, max_cost_ms, max_results as usize) {
            Some(list) => {
                proof {
                    let d = slot.loaded()->0;
                    assert(d == r.data);
                    let at = Coord { lon, lat };
                    let entries = choose|entries: Seq<(usize, u32)>|
                        {
                            &&& #[trigger] is_isochrone(
                                adjacency_edges(d@.adjacency),
                                d.snapped(at)->0,
                                max_cost_ms,
                                max_results as nat,
                                entries,
                            )
                            &&& list@ == isochrone_results(d@.positions, entries)
                        };
                    assert(is_isochrone(
                        adjacency_edges(d@.adjacency),
                        d.snapped(at)->0,
                        max_cost_ms,
                        max_results as nat,
                        entries,
                    ));
                }
                Ok(list)
            },
            None => Err(RoutingError::NoRoute),
        },
        None => Err(RoutingError::NotLoaded),
    }
}

/// The travel times that a batch over four lists of coordinates owes: one
/// per index, each as a single query would give it.
pub open spec fn batch_times(
    data: RoutingData,
    lats1: Seq<i32>,
    lons1: Seq<i32>,
    lats2: Seq<i32>,
    lons2: Seq<i32>,
) -> Seq<Option<u64>> {
    Seq::new(
        lats1.len(),
        |i: int|
            time_of(
                data,
                Coord { lon: lons1[i], lat: lats1[i] },
                Coord { lon: lons2[i], lat: lats2[i] },
            ),
    )
}

/// Whether four lists of coordinates make a batch: they are of one length,
/// and that length can be counted in `i32`.
pub open spec fn batch_fits(
    lats1: Seq<i32>,
    lons1: Seq<i32>,
    lats2: Seq<i32>,
    lons2: Seq<i32>,
) -> bool {
    lons1.len() == lats1.len() && lats2.len() == lats1.len() && lons2.len() == lats1.len()
        && lats1.len() <= i32::MAX
}

/// The travel times between many pairs of positions, and how many of them
/// there are. Entry `i` is `None` where pair `i` has no route.
pub fn routing_batch(
    slot: &Slot,
    lats1: &Vec<i32>,
    lons1: &Vec<i32>,
    lats2: &Vec<i32>,
    lons2: &Vec<i32>,
) -> (answer: Result<(Vec<Option<u64>>, i32), RoutingError>)
    ensures
        !batch_fits(lats1@, lons1@, lats2@, lons2@) ==> failed_with(
            answer,
            RoutingError::BadArgument,
        ),
        batch_fits(lats1@, lons1@, lats2@, lons2@) && slot.loaded() is None ==> failed_with(
            answer,
            RoutingError::NotLoaded,
        ),
        batch_fits(lats1@, lons1@, lats2@, lons2@) && slot.loaded() is Some ==> (answer matches Ok(
            p,
        ) && p.0@ == batch_times(slot.loaded()->0, lats1@, lons1@, lats2@, lons2@) && p.1
            == count_some(p.0@)),
{
    let n = lats1.len();
    if lons1.len() != n || lats2.len() != n || lons2.len() != n || n > i32::MAX as usize {
        return Err(RoutingError::BadArgument);
    }
    let data = match &slot.router {
        Some(r) => &r.data,
        None => {
            return Err(RoutingError::NotLoaded);
        },
    };
    let mut calc = data.new_calculator();
    let mut times: Vec<Option<u64>> = Vec::new();
    let mut successes: i32 = 0;
    let mut i: usize = 0;
    let ghost owed = batch_times(*data, lats1@, lons1@, lats2@, lons2@);
    proof {
        assert(times@.take(0) =~= Seq::<Option<u64>>::empty());
    }
    while i < n
        invariant
            i <= n <= i32::MAX,
            n == lats1.len(),
            n == lons1.len(),
            n == lats2.len(),
            n == lons2.len(),
            owed == batch_times(*data, lats1@, lons1@, lats2@, lons2@),
            calc_nodes(calc) == data@.positions.len(),
            times@.len() == i,
            forall|j: int| 0 <= j < i ==> times@[j] == owed[j],
            successes == count_some(times@),
            successes <= i,
        decreases n - i,
    {
        let from = Coord { lon: lons1[i], lat: lats1[i] };
        let to = Coord { lon: lons2[i], lat: lats2[i] };
        let time = data.travel_time_with(&mut calc, from, to);
        let ghost before = times@;
        times.push(time);
        proof {
            assert(times@.drop_last() =~= before);
        }
        if time.is_some() {
            successes = successes + 1;
        }
        i += 1;
    }
    proof {
        assert(times@ =~= owed);
    }
    Ok((times, successes))
}

/// A batch over pairs that are all the same pair gives, at every index,
/// what a single query for that pair gives.
pub proof fn lemma_batch_of_one_pair(
    data: RoutingData,
    lats1: Seq<i32>,
    lons1: Seq<i32>,
    lats2: Seq<i32>,
    lons2: Seq<i32>,
    from: Coord,
    to: Coord,
)
    requires
        batch_fits(lats1, lons1, lats2, lons2),
        forall|i: int|
            0 <= i < lats1.len() ==> lats1[i] == from.lat && lons1[i] == from.lon && lats2[i]
                == to.lat && lons2[i] == to.lon,
    ensures
        forall|i: int|
            0 <= i < lats1.len() ==> #[trigger] batch_times(data, lats1, lons1, lats2, lons2)[i]
                == time_of(data, from, to),
{
    assert forall|i: int| 0 <= i < lats1.len() implies #[trigger] batch_times(
        data,
        lats1,
        lons1,
        lats2,
        lons2,
    )[i] == time_of(data, from, to) by {
        assert(Coord { lon: lons1[i], lat: lats1[i] } == from);
        assert(Coord { lon: lons2[i], lat: lats2[i] } == to);
    }
}

/// Where every road of a bundle can be driven both ways at the same
/// weight, the travel time from one position to another is the travel time
/// back.
pub proof fn lemma_travel_time_symmetric(data: RoutingData, a: Coord, b: Coord)
    requires
        symmetric(data@.hierarchy),
    ensures
        data.travel_time(a, b) == data.travel_time(b, a),
        time_of(data, a, b) == time_of(data, b, a),
{
    match (data.snapped(a), data.snapped(b)) {
        (Some(x), Some(y)) => {
            lemma_symmetric_distance(data@.hierarchy, x, y);
        },
        _ => {},
    }
}

} // verus!
