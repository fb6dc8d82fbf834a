//! From map data to the routing graph of one transport mode.
//!
//! The map arrives as nodes with positions and as ways cut into measured
//! segments. A way that the mode can use gives, for each segment whose two
//! ends are known nodes and whose travel time is at least a millisecond, an
//! edge in the direction of the way and, unless the way is one-way, the
//! reverse edge. Nodes receive their index in the order in which edges first
//! touch them.

use vstd::prelude::*;
use std::collections::HashMap;
use crate::graph::{
    adjacency_closed, adjacency_edges, adjacency_view, lemma_lightest_symmetric, lightest,
    symmetric,
};
use crate::hierarchy::{
    ch_edges, ch_nodes, ch_prepared, input_edges, input_frozen, input_nodes, weights_fit,
};
use crate::router::{parts_fit, RoutingData};
use crate::spatial::{Coord, SpatialIndex};
use crate::speed::{
    get_speed_kmh, is_main_road, main_road, segment_time_ms, speed_of, travel_time_ms,
};
use crate::text::str_eq;

verus! {

broadcast use vstd::std_specs::hash::group_hash_axioms;

/// A node of the map: its identifier and its position.
pub struct OsmNode {
    pub id: i64,
    pub lon: i32,
    pub lat: i32,
}

/// A stretch of a way between two consecutive nodes of it, with its
/// great-circle length in millimetres.
pub struct WaySegment {
    pub from: i64,
    pub to: i64,
    pub length_mm: u64,
}

/// A way of the map: the values of its `highway` and `oneway` tags (empty
/// where the way has no such tag) and its segments in order.
pub struct OsmWay {
    pub highway: String,
    pub oneway: String,
    pub segments: Vec<WaySegment>,
}

/// A segment that enters the graph: its ends, its travel time, and what it
/// has from its way.
pub struct Link {
    pub from: i64,
    pub to: i64,
    pub time_ms: u32,
    pub oneway: bool,
    pub main: bool,
}

/// The position of every known node. Of two nodes with one identifier the
/// later counts.
pub open spec fn node_table(nodes: Seq<OsmNode>) -> Map<i64, Coord>
    decreases nodes.len(),
{
    if nodes.len() == 0 {
        Map::empty()
    } else {
        node_table(nodes.drop_last()).insert(
            nodes.last().id,
            Coord { lon: nodes.last().lon, lat: nodes.last().lat },
        )
    }
}

/// The link that a segment gives at a speed in metres per hour, if any. A
/// segment gives none where it returns to the node it left, where an end is
/// not a known node, or where it takes less than a millisecond.
pub open spec fn segment_link(
    table: Map<i64, Coord>,
    segment: WaySegment,
    speed: u32,
    oneway: bool,
    main: bool,
) -> Option<Link> {
    let time = segment_time_ms(segment.length_mm as nat, speed as nat);
    if segment.from != segment.to && table.contains_key(segment.from) && table.contains_key(
        segment.to,
    ) && time > 0 {
        Some(Link { from: segment.from, to: segment.to, time_ms: time as u32, oneway, main })
    } else {
        None
    }
}

/// The links of a run of segments, in order.
pub open spec fn segment_links(
    table: Map<i64, Coord>,
    segments: Seq<WaySegment>,
    speed: u32,
    oneway: bool,
    main: bool,
) -> Seq<Link>
    decreases segments.len(),
{
    if segments.len() == 0 {
        Seq::empty()
    } else {
        let rest = segment_links(table, segments.drop_last(), speed, oneway, main);
        match segment_link(table, segments.last(), speed, oneway, main) {
            Some(link) => rest.push(link),
            None => rest,
        }
    }
}

/// Whether a way is one-way: its `oneway` tag says `yes`. Any other value
/// leaves the way open in both directions.
pub open spec fn is_oneway(way: OsmWay) -> bool {
    way.oneway@ == "yes"@
}

/// The links of a way for a mode: none where the mode cannot use the way.
pub open spec fn way_links(table: Map<i64, Coord>, way: OsmWay, mode: Seq<char>) -> Seq<Link> {
    match speed_of(way.highway@, mode) {
        Some(speed) => segment_links(
            table,
            way.segments@,
            speed,
            is_oneway(way),
            main_road(way.highway@),
        ),
        None => Seq::empty(),
    }
}

/// The links of all ways for a mode, in order.
pub open spec fn all_links(table: Map<i64, Coord>, ways: Seq<OsmWay>, mode: Seq<char>) -> Seq<
    Link,
>
    decreases ways.len(),
{
    if ways.len() == 0 {
        Seq::empty()
    } else {
        all_links(table, ways.drop_last(), mode) + way_links(table, ways.last(), mode)
    }
}

/// `ids` with `id` appended unless it is there already.
pub open spec fn visit(ids: Seq<i64>, id: i64) -> Seq<i64> {
    if ids.contains(id) {
        ids
    } else {
        ids.push(id)
    }
}

/// The nodes that the links touch, each once, in the order of first touch.
/// A node's place in this sequence is its index in the graph.
pub open spec fn node_order(links: Seq<Link>) -> Seq<i64>
    decreases links.len(),
{
    if links.len() == 0 {
        Seq::empty()
    } else {
        visit(visit(node_order(links.drop_last()), links.last().from), links.last().to)
    }
}

/// The place of `id` in `ids`.
pub open spec fn place(ids: Seq<i64>, id: i64) -> int {
    choose|i: int| 0 <= i < ids.len() && ids[i] == id
}

/// The edges `(from, to, weight)` of the links over node indices, in order:
/// each link gives its forward edge and, unless it is one-way, the reverse
/// edge right after.
pub open spec fn link_edges(links: Seq<Link>, ids: Seq<i64>) -> Seq<(int, int, int)>
    decreases links.len(),
{
    if links.len() == 0 {
        Seq::empty()
    } else {
        let link = links.last();
        let a = place(ids, link.from);
        let b = place(ids, link.to);
        let rest = link_edges(links.drop_last(), ids);
        if link.oneway {
            rest.push((a, b, link.time_ms as int))
        } else {
            rest.push((a, b, link.time_ms as int)).push((b, a, link.time_ms as int))
        }
    }
}

/// For each node, whether a link of a main road touches it.
pub open spec fn main_flags(links: Seq<Link>, ids: Seq<i64>) -> Seq<bool> {
    Seq::new(
        ids.len(),
        |i: int|
            exists|k: int|
                0 <= k < links.len() && (#[trigger] links[k]).main && (links[k].from == ids[i]
                    || links[k].to == ids[i]),
    )
}

/// The position of each node.
pub open spec fn positions_of(table: Map<i64, Coord>, ids: Seq<i64>) -> Seq<Coord> {
    Seq::new(ids.len(), |i: int| table[ids[i]])
}

/// The adjacency list of `n` nodes that holds `edges`: the list of a node
/// has its out-edges in the order in which they come in `edges`.
pub open spec fn adjacency_of(edges: Seq<(int, int, int)>, n: nat) -> Seq<Seq<(usize, u32)>>
    decreases edges.len(),
{
    if edges.len() == 0 {
        Seq::new(n, |i: int| Seq::<(usize, u32)>::empty())
    } else {
        let rest = adjacency_of(edges.drop_last(), n);
        let e = edges.last();
        rest.update(e.0, rest[e.0].push((e.1 as usize, e.2 as u32)))
    }
}

/// The routing graph that map data gives for a mode.
pub struct GraphModel {
    /// Identifier of each node, by node index.
    pub ids: Seq<i64>,
    /// Position of each node.
    pub positions: Seq<Coord>,
    /// For each node, whether it lies on a main road.
    pub main: Seq<bool>,
    /// The directed edges `(from, to, weight)` over node indices.
    pub edges: Seq<(int, int, int)>,
}

/// The routing graph of `nodes` and `ways` for `mode`.
pub open spec fn graph_model(nodes: Seq<OsmNode>, ways: Seq<OsmWay>, mode: Seq<char>) -> GraphModel {
    let table = node_table(nodes);
    let links = all_links(table, ways, mode);
    let ids = node_order(links);
    GraphModel {
        ids,
        positions: positions_of(table, ids),
        main: main_flags(links, ids),
        edges: link_edges(links, ids),
    }
}

/// Reads the position of a node from the table.
fn lookup(table: &HashMap<i64, Coord>, id: i64) -> (found: Option<Coord>)
    ensures
        found == if table@.contains_key(id) {
            Some(table@[id])
        } else {
            None
        },
{
    match table.get(&id) {
        Some(c) => Some(*c),
        None => None,
    }
}

/// Collects the positions of the nodes.
fn read_nodes(nodes: &Vec<OsmNode>) -> (table: HashMap<i64, Coord>)
    ensures
        table@ == node_table(nodes@),
{
    let mut table: HashMap<i64, Coord> = HashMap::new();
    let mut i: usize = 0;
    while i < nodes.len()
        invariant
            i <= nodes.len(),
            table@ == node_table(nodes@.take(i as int)),
        decreases nodes.len() - i,
    {
        table.insert(nodes[i].id, Coord { lon: nodes[i].lon, lat: nodes[i].lat });
        proof {
            assert(nodes@.take(i + 1).drop_last() =~= nodes@.take(i as int));
        }
        i += 1;
    }
    proof {
        assert(nodes@.take(i as int) =~= nodes@);
    }
    table
}

/// The nodes and edges collected so far.
struct Draft {
    index: HashMap<i64, usize>,
    positions: Vec<Coord>,
    main: Vec<bool>,
    edges: Vec<(usize, usize, u32)>,
}

/// Edges over machine integers, as edges over integers.
pub open spec fn edge_triples(edges: Seq<(usize, usize, u32)>) -> Seq<(int, int, int)> {
    edges.map_values(|e: (usize, usize, u32)| (e.0 as int, e.1 as int, e.2 as int))
}

/// Whether the draft has given exactly the nodes `ids` their indices.
spec fn nodes_hold(d: Draft, table: Map<i64, Coord>, ids: Seq<i64>) -> bool {
    &&& ids.no_duplicates()
    &&& forall|id: i64| #[trigger] d.index@.contains_key(id) <==> ids.contains(id)
    &&& forall|i: int| 0 <= i < ids.len() ==> d.index@[#[trigger] ids[i]] == i
    &&& d.positions@ == positions_of(table, ids)
    &&& d.main@.len() == ids.len()
}

/// Whether every link joins two of the nodes `ids`.
spec fn links_within(links: Seq<Link>, ids: Seq<i64>) -> bool {
    forall|k: int|
        0 <= k < links.len() ==> ids.contains((#[trigger] links[k]).from) && ids.contains(
            links[k].to,
        )
}

/// Whether `edges` join distinct nodes among `n`, weigh at least one, and
/// leave none of the `n` nodes untouched.
pub open spec fn edges_sound(edges: Seq<(usize, usize, u32)>, n: nat) -> bool {
    &&& forall|k: int|
        0 <= k < edges.len() ==> {
            &&& (#[trigger] edges[k]).0 < n
            &&& edges[k].1 < n
            &&& edges[k].0 != edges[k].1
            &&& edges[k].2 >= 1
        }
    &&& forall|i: int| 0 <= i < n ==> #[trigger] touched(edges, i)
}

/// Whether `i` is an end of one of `edges`.
pub open spec fn touched(edges: Seq<(usize, usize, u32)>, i: int) -> bool {
    exists|k: int| 0 <= k < edges.len() && #[trigger] touches(edges[k], i)
}

/// Whether `i` is an end of `edge`.
pub open spec fn touches(edge: (usize, usize, u32), i: int) -> bool {
    edge.0 == i || edge.1 == i
}

/// Whether the draft is the graph of `links`.
spec fn draft_holds(d: Draft, table: Map<i64, Coord>, links: Seq<Link>) -> bool {
    let ids = node_order(links);
    &&& nodes_hold(d, table, ids)
    &&& links_within(links, ids)
    &&& d.main@ == main_flags(links, ids)
    &&& edge_triples(d.edges@) == link_edges(links, ids)
    &&& edges_sound(d.edges@, ids.len())
}

/// The place of a node that is there is where it is.
proof fn lemma_place(ids: Seq<i64>, i: int)
    requires
        ids.no_duplicates(),
        0 <= i < ids.len(),
    ensures
        place(ids, ids[i]) == i,
{
    let j = place(ids, ids[i]);
    assert(0 <= j < ids.len() && ids[j] == ids[i]);
}

/// Visiting a node keeps the nodes before it and makes it one of them.
proof fn lemma_visit(ids: Seq<i64>, id: i64)
    requires
        ids.no_duplicates(),
    ensures
        visit(ids, id).no_duplicates(),
        visit(ids, id).contains(id),
        ids.len() <= visit(ids, id).len() <= ids.len() + 1,
        visit(ids, id).take(ids.len() as int) == ids,
        forall|x: i64| ids.contains(x) ==> #[trigger] visit(ids, id).contains(x),
        forall|i: int| ids.len() <= i < visit(ids, id).len() ==> #[trigger] visit(ids, id)[i] == id,
{
    let v = visit(ids, id);
    if ids.contains(id) {
        assert(v.take(ids.len() as int) =~= ids);
    } else {
        assert(v[ids.len() as int] == id);
        assert(v.take(ids.len() as int) =~= ids);
        assert forall|x: i64| ids.contains(x) implies #[trigger] v.contains(x) by {
            let i = choose|i: int| 0 <= i < ids.len() && ids[i] == x;
            assert(v[i] == x);
        }
    }
}

/// A node has the same place in a longer list of nodes.
proof fn lemma_place_grows(ids: Seq<i64>, more: Seq<i64>, id: i64)
    requires
        more.no_duplicates(),
        ids.len() <= more.len(),
        more.take(ids.len() as int) == ids,
        ids.contains(id),
    ensures
        place(more, id) == place(ids, id),
        0 <= place(ids, id) < ids.len(),
{
    let i = place(ids, id);
    assert(0 <= i < ids.len() && ids[i] == id);
    assert(more.take(ids.len() as int)[i] == more[i]);
    lemma_place(more, i);
}

/// The edges of links keep their ends when more nodes follow.
proof fn lemma_edges_grow(links: Seq<Link>, ids: Seq<i64>, more: Seq<i64>)
    requires
        more.no_duplicates(),
        ids.len() <= more.len(),
        more.take(ids.len() as int) == ids,
        links_within(links, ids),
    ensures
        link_edges(links, more) == link_edges(links, ids),
    decreases links.len(),
{
    if links.len() > 0 {
        let rest = links.drop_last();
        assert(links_within(rest, ids)) by {
            assert forall|k: int| 0 <= k < rest.len() implies ids.contains(
                (#[trigger] rest[k]).from,
            ) && ids.contains(rest[k].to) by {
                assert(rest[k] == links[k]);
            }
        }
        lemma_edges_grow(rest, ids, more);
        let link = links.last();
        assert(link == links[links.len() - 1]);
        lemma_place_grows(ids, more, link.from);
        lemma_place_grows(ids, more, link.to);
    }
}

/// The nodes of links come without repetition and hold the ends of every
/// link.
proof fn lemma_node_order(links: Seq<Link>)
    ensures
        node_order(links).no_duplicates(),
        links_within(links, node_order(links)),
    decreases links.len(),
{
    if links.len() > 0 {
        let rest = links.drop_last();
        let link = links.last();
        lemma_node_order(rest);
        let ids0 = node_order(rest);
        let ids1 = visit(ids0, link.from);
        lemma_visit(ids0, link.from);
        lemma_visit(ids1, link.to);
        let ids = node_order(links);
        assert forall|k: int| 0 <= k < links.len() implies ids.contains((#[trigger] links[k]).from)
            && ids.contains(links[k].to) by {
            if k < rest.len() {
                assert(rest[k] == links[k]);
                assert(ids1.contains(links[k].from));
                assert(ids1.contains(links[k].to));
            }
        }
    }
}

/// Gives `id` its index: the one it has, or the next free one.
fn intern(
    d: &mut Draft,
    id: i64,
    pos: Coord,
    Ghost(table): Ghost<Map<i64, Coord>>,
    Ghost(ids): Ghost<Seq<i64>>,
) -> (i: usize)
    requires
        nodes_hold(*old(d), table, ids),
        table.contains_key(id),
        table[id] == pos,
    ensures
        nodes_hold(*final(d), table, visit(ids, id)),
        i == place(visit(ids, id), id),
        i < visit(ids, id).len(),
        final(d).edges == old(d).edges,
        final(d).main@ == if ids.contains(id) {
            old(d).main@
        } else {
            old(d).main@.push(false)
        },
{
    proof {
        lemma_visit(ids, id);
    }
    let found = match d.index.get(&id) {
        Some(i) => Some(*i),
        None => None,
    };
    match found {
        Some(i) => {
            proof {
                let j = place(ids, id);
                assert(0 <= j < ids.len() && ids[j] == id);
            }
            i
        },
        None => {
            let i = d.positions.len();
            d.index.insert(id, i);
            d.positions.push(pos);
            d.main.push(false);
            proof {
                let more = visit(ids, id);
                assert(more == ids.push(id));
                lemma_place(more, ids.len() as int);
                assert(d.positions@ =~= positions_of(table, more));
                assert forall|x: i64| #[trigger] d.index@.contains_key(x) <==> more.contains(x) by {
                    if more.contains(x) {
                        let j = choose|j: int| 0 <= j < more.len() && more[j] == x;
                        if j < ids.len() {
                            assert(ids[j] == x);
                        }
                    }
                    if ids.contains(x) {
                    }
                }
                assert forall|j: int| 0 <= j < more.len() implies d.index@[#[trigger] more[j]]
                    == j by {
                    if j < ids.len() {
                        assert(ids[j] == more[j]);
                        assert(ids.contains(ids[j]));
                    }
                }
            }
            i
        },
    }
}

/// Enters a link into the draft.
fn add_link(
    d: &mut Draft,
    from: i64,
    from_pos: Coord,
    to: i64,
    to_pos: Coord,
    time_ms: u32,
    oneway: bool,
    main: bool,
    Ghost(table): Ghost<Map<i64, Coord>>,
    Ghost(links): Ghost<Seq<Link>>,
)
    requires
        draft_holds(*old(d), table, links),
        table.contains_key(from),
        table[from] == from_pos,
        table.contains_key(to),
        table[to] == to_pos,
        from != to,
        time_ms >= 1,
    ensures
        draft_holds(*final(d), table, links.push(Link { from, to, time_ms, oneway, main })),
{
    let ghost link = Link { from, to, time_ms, oneway, main };
    let ghost grown = links.push(link);
    let ghost ids0 = node_order(links);
    let ghost ids1 = visit(ids0, from);
    let ghost ids2 = visit(ids1, to);
    let ghost main0 = d.main@;
    let ghost edges0 = d.edges@;
    let a = intern(d, from, from_pos, Ghost(table), Ghost(ids0));
    let ghost main1 = d.main@;
    let b = intern(d, to, to_pos, Ghost(table), Ghost(ids1));
    let ghost main2 = d.main@;
    proof {
        assert(grown.drop_last() =~= links);
        assert(node_order(grown) == ids2);
        lemma_node_order(grown);
        lemma_visit(ids0, from);
        lemma_visit(ids1, to);
        assert(ids2.take(ids0.len() as int) =~= ids0) by {
            assert forall|i: int| 0 <= i < ids0.len() implies ids2[i] == ids0[i] by {
                assert(ids2.take(ids1.len() as int)[i] == ids2[i]);
                assert(ids1.take(ids0.len() as int)[i] == ids1[i]);
            }
        }
        lemma_edges_grow(links, ids0, ids2);
        lemma_place_grows(ids1, ids2, from);
    }
    d.edges.push((a, b, time_ms));
    if !oneway {
        d.edges.push((b, a, time_ms));
    }
    if main {
        d.main.set(a, true);
        d.main.set(b, true);
    }
    proof {
        let t = time_ms as int;
        if oneway {
            assert(edge_triples(d.edges@) =~= edge_triples(edges0).push((a as int, b as int, t)));
        } else {
            assert(edge_triples(d.edges@) =~= edge_triples(edges0).push(
                (a as int, b as int, t),
            ).push((b as int, a as int, t)));
        }
        assert(link_edges(grown, ids2) == edge_triples(d.edges@));
        lemma_place(ids2, a as int);
        lemma_place(ids2, b as int);
        assert(ids2[a as int] == from);
        assert(ids2[b as int] == to);
        let flags = main_flags(grown, ids2);
        assert forall|i: int| 0 <= i < ids2.len() implies d.main@[i] == flags[i] by {
            let touched = grown[grown.len() - 1].main && (grown[grown.len() - 1].from == ids2[i]
                || grown[grown.len() - 1].to == ids2[i]);
            assert(grown[grown.len() - 1] == link);
            if i == a || i == b {
            } else {
                assert(ids2[i] != from);
                assert(ids2[i] != to);
            }
            assert(touched == (main && (i == a || i == b)));
            if i < ids0.len() {
                assert(ids2.take(ids0.len() as int)[i] == ids2[i]);
                assert(ids2[i] == ids0[i]);
                let before = main_flags(links, ids0)[i];
                assert(main0[i] == before);
                assert(main2[i] == main0[i]);
                if before {
                    let k = choose|k: int|
                        0 <= k < links.len() && (#[trigger] links[k]).main && (links[k].from
                            == ids0[i] || links[k].to == ids0[i]);
                    assert(grown[k] == links[k]);
                    assert(flags[i]);
                }
                if flags[i] {
                    let k = choose|k: int|
                        0 <= k < grown.len() && (#[trigger] grown[k]).main && (grown[k].from
                            == ids2[i] || grown[k].to == ids2[i]);
                    if k < links.len() {
                        assert(grown[k] == links[k]);
                        assert(before);
                    }
                }
            } else {
                assert(!main2[i]);
                if flags[i] {
                    let k = choose|k: int|
                        0 <= k < grown.len() && (#[trigger] grown[k]).main && (grown[k].from
                            == ids2[i] || grown[k].to == ids2[i]);
                    if k < links.len() {
                        assert(grown[k] == links[k]);
                        assert(ids0.contains(links[k].from) && ids0.contains(links[k].to));
                        let j = choose|j: int| 0 <= j < ids0.len() && ids0[j] == ids2[i];
                        assert(ids2.take(ids0.len() as int)[j] == ids2[j]);
                        assert(false);
                    }
                }
            }
        }
        assert(d.main@ =~= flags);
        assert(a != b);
        let last = d.edges@.len() - 1;
        assert forall|k: int| 0 <= k < d.edges@.len() implies {
            &&& (#[trigger] d.edges@[k]).0 < ids2.len()
            &&& d.edges@[k].1 < ids2.len()
            &&& d.edges@[k].0 != d.edges@[k].1
            &&& d.edges@[k].2 >= 1
        } by {
            if k < edges0.len() {
                assert(d.edges@[k] == edges0[k]);
            }
        }
        assert forall|i: int| 0 <= i < ids2.len() implies #[trigger] touched(d.edges@, i) by {
            if i < ids0.len() {
                assert(touched(edges0, i));
                let k = choose|k: int| 0 <= k < edges0.len() && #[trigger] touches(edges0[k], i);
                assert(d.edges@[k] == edges0[k]);
                assert(touches(d.edges@[k], i));
            } else {
                assert(ids2[i] == from || ids2[i] == to) by {
                    if i < ids1.len() {
                        assert(ids2.take(ids1.len() as int)[i] == ids2[i]);
                        assert(ids1[i] == from);
                    }
                }
                assert(i == a || i == b);
                assert(touches(d.edges@[last], i));
            }
        }
    }
}

/// Collects the links of all ways into a draft.
fn collect_links(table: &HashMap<i64, Coord>, ways: &Vec<OsmWay>, mode: &str) -> (d: Draft)
    ensures
        draft_holds(d, table@, all_links(table@, ways@, mode@)),
{
    let mut d = Draft {
        index: HashMap::new(),
        positions: Vec::new(),
        main: Vec::new(),
        edges: Vec::new(),
    };
    proof {
        let none = Seq::<Link>::empty();
        assert(d.positions@ =~= positions_of(table@, node_order(none)));
        assert(d.main@ =~= main_flags(none, node_order(none)));
        assert(edge_triples(d.edges@) =~= link_edges(none, node_order(none)));
        assert(ways@.take(0) =~= Seq::<OsmWay>::empty());
    }
    let mut i: usize = 0;
    while i < ways.len()
        invariant
            i <= ways.len(),
            draft_holds(d, table@, all_links(table@, ways@.take(i as int), mode@)),
        decreases ways.len() - i,
    {
        let way = &ways[i];
        let ghost base = all_links(table@, ways@.take(i as int), mode@);
        proof {
            assert(ways@.take(i + 1).drop_last() =~= ways@.take(i as int));
            assert(ways@.take(i + 1).last() == ways@[i as int]);
        }
        match get_speed_kmh(way.highway.as_str(), mode) {
            Some(speed) => {
                let main = is_main_road(way.highway.as_str());
                let oneway = str_eq(way.oneway.as_str(), "yes");
                let mut j: usize = 0;
                proof {
                    assert(way.segments@.take(0) =~= Seq::<WaySegment>::empty());
                    assert(base + Seq::<Link>::empty() =~= base);
                }
                while j < way.segments.len()
                    invariant
                        j <= way.segments.len(),
                        draft_holds(
                            d,
                            table@,
                            base + segment_links(
                                table@,
                                way.segments@.take(j as int),
                                speed,
                                oneway,
                                main,
                            ),
                        ),
                    decreases way.segments.len() - j,
                {
                    let seg = &way.segments[j];
                    let ghost done = segment_links(
                        table@,
                        way.segments@.take(j as int),
                        speed,
                        oneway,
                        main,
                    );
                    proof {
                        assert(way.segments@.take(j + 1).drop_last() =~= way.segments@.take(
                            j as int,
                        ));
                        assert(way.segments@.take(j + 1).last() == way.segments@[j as int]);
                    }
                    if seg.from != seg.to {
                        match (lookup(table, seg.from), lookup(table, seg.to)) {
                            (Some(p), Some(q)) => {
                                let time_ms = travel_time_ms(seg.length_mm, speed);
                                if time_ms > 0 {
                                    add_link(
                                        &mut d,
                                        seg.from,
                                        p,
                                        seg.to,
                                        q,
                                        time_ms,
                                        oneway,
                                        main,
                                        Ghost(table@),
                                        Ghost(base + done),
                                    );
                                    proof {
                                        let link = Link {
                                            from: seg.from,
                                            to: seg.to,
                                            time_ms,
                                            oneway,
                                            main,
                                        };
                                        assert((base + done).push(link) =~= base + done.push(
                                            link,
                                        ));
                                    }
                                }
                            },
                            _ => {},
                        }
                    }
                    j += 1;
                }
                proof {
                    assert(way.segments@.take(j as int) =~= way.segments@);
                }
            },
            None => {
                proof {
                    assert(base + Seq::<Link>::empty() =~= base);
                }
            },
        }
        i += 1;
    }
    proof {
        assert(ways@.take(i as int) =~= ways@);
    }
    d
}

/// Whether `edges` join nodes among `n` at weights that fit an adjacency
/// list.
pub open spec fn edges_within(edges: Seq<(int, int, int)>, n: nat) -> bool {
    forall|k: int|
        0 <= k < edges.len() ==> {
            &&& 0 <= (#[trigger] edges[k]).0 < n
            &&& 0 <= edges[k].1 < n
            &&& 0 <= edges[k].2 <= u32::MAX
        }
}

/// The adjacency list of edges among `n` nodes has a list for each node,
/// leads nowhere else, and holds exactly those edges.
pub proof fn lemma_adjacency_of(edges: Seq<(int, int, int)>, n: nat)
    requires
        edges_within(edges, n),
        n <= usize::MAX,
    ensures
        adjacency_of(edges, n).len() == n,
        adjacency_closed(adjacency_of(edges, n)),
        adjacency_edges(adjacency_of(edges, n)) == edges.to_set(),
    decreases edges.len(),
{
    let adj = adjacency_of(edges, n);
    if edges.len() == 0 {
        assert(adjacency_edges(adj) =~= edges.to_set());
    } else {
        let before = edges.drop_last();
        let rest = adjacency_of(before, n);
        let e = edges.last();
        assert(e == edges[edges.len() - 1]);
        assert(edges_within(before, n)) by {
            assert forall|k: int| 0 <= k < before.len() implies {
                &&& 0 <= (#[trigger] before[k]).0 < n
                &&& 0 <= before[k].1 < n
                &&& 0 <= before[k].2 <= u32::MAX
            } by {
                assert(before[k] == edges[k]);
            }
        }
        lemma_adjacency_of(before, n);
        let grown = rest[e.0].push((e.1 as usize, e.2 as u32));
        assert(adj == rest.update(e.0, grown));
        assert(adjacency_closed(adj)) by {
            assert forall|u: int, k: int|
                0 <= u < adj.len() && 0 <= k < adj[u].len() implies (#[trigger] adj[u][k]).0
                < adj.len() by {
                if u == e.0 && k == grown.len() - 1 {
                } else {
                    assert(adj[u][k] == rest[u][k]);
                }
            }
        }
        assert forall|x: (int, int, int)| adjacency_edges(adj).contains(x) <==> edges.to_set().contains(
            x,
        ) by {
            if adjacency_edges(adj).contains(x) {
                let k = choose|k: int|
                    0 <= k < adj[x.0].len() && (#[trigger] adj[x.0][k]).0 == x.1 && adj[x.0][k].1
                        == x.2;
                if x.0 == e.0 && k == grown.len() - 1 {
                    assert(x == e);
                    assert(edges.contains(x));
                } else {
                    assert(adj[x.0][k] == rest[x.0][k]);
                    assert(adjacency_edges(rest).contains(x));
                    assert(before.to_set().contains(x));
                    let j = choose|j: int| 0 <= j < before.len() && before[j] == x;
                    assert(edges[j] == x);
                }
            }
            if edges.to_set().contains(x) {
                let j = choose|j: int| 0 <= j < edges.len() && edges[j] == x;
                if j == edges.len() - 1 {
                    assert(adj[x.0][grown.len() - 1] == (e.1 as usize, e.2 as u32));
                } else {
                    assert(before[j] == x);
                    assert(before.to_set().contains(x));
                    assert(adjacency_edges(rest).contains(x));
                    let k = choose|k: int|
                        0 <= k < rest[x.0].len() && (#[trigger] rest[x.0][k]).0 == x.1
                            && rest[x.0][k].1 == x.2;
                    assert(adj[x.0][k] == rest[x.0][k]);
                }
            }
        }
        assert(adjacency_edges(adj) =~= edges.to_set());
    }
}

/// Sorts the edges into one list of out-edges per node.
fn build_adjacency(edges: &Vec<(usize, usize, u32)>, n: usize) -> (adj: Vec<Vec<(usize, u32)>>)
    requires
        edges_within(edge_triples(edges@), n as nat),
    ensures
        adjacency_view(adj@) == adjacency_of(edge_triples(edges@), n as nat),
{
    let mut adj: Vec<Vec<(usize, u32)>> = Vec::new();
    while adj.len() < n
        invariant
            adj.len() <= n,
            forall|i: int| 0 <= i < adj.len() ==> (#[trigger] adj@[i])@ == Seq::<(usize, u32)>::empty(),
        decreases n - adj.len(),
    {
        adj.push(Vec::new());
    }
    proof {
        assert(edges@.take(0) =~= Seq::<(usize, usize, u32)>::empty());
        assert(edge_triples(edges@.take(0)) =~= Seq::<(int, int, int)>::empty());
        assert(adjacency_view(adj@) =~= adjacency_of(edge_triples(edges@.take(0)), n as nat));
    }
    let mut k: usize = 0;
    while k < edges.len()
        invariant
            k <= edges.len(),
            adj.len() == n,
            edges_within(edge_triples(edges@), n as nat),
            adjacency_view(adj@) == adjacency_of(edge_triples(edges@.take(k as int)), n as nat),
        decreases edges.len() - k,
    {
        let (from, to, weight) = edges[k];
        let ghost before = adjacency_view(adj@);
        proof {
            assert(edge_triples(edges@)[k as int] == (from as int, to as int, weight as int));
            assert(edge_triples(edges@.take(k + 1)).drop_last() =~= edge_triples(
                edges@.take(k as int),
            ));
            assert(edge_triples(edges@.take(k + 1)).last() == (
                from as int,
                to as int,
                weight as int,
            ));
        }
        adj[from].push((to, weight));
        proof {
            assert(adjacency_view(adj@) =~= before.update(
                from as int,
                before[from as int].push((to, weight)),
            ));
        }
        k += 1;
    }
    proof {
        assert(edges@.take(k as int) =~= edges@);
    }
    adj
}

/// Feeds the edges to an input graph and prepares its hierarchy. There is
/// no hierarchy where the weights do not fit.
fn prepare_hierarchy(edges: &Vec<(usize, usize, u32)>, n: usize) -> (made: Option<
    fast_paths::FastGraph,
>)
    requires
        edges_sound(edges@, n as nat),
    ensures
        made is Some <==> weights_fit(edge_triples(edges@).to_set(), n as nat),
        made matches Some(graph) ==> {
            &&& ch_prepared(graph)
            &&& ch_nodes(graph) == n
            &&& ch_edges(graph) == lightest(edge_triples(edges@).to_set())
            &&& weights_fit(ch_edges(graph), n as nat)
        },
{
    let mut input = fast_paths::InputGraph::new();
    let mut heaviest: u32 = 0;
    let mut k: usize = 0;
    proof {
        assert(edge_triples(edges@.take(0)).to_set() =~= Set::<(int, int, int)>::empty());
    }
    while k < edges.len()
        invariant
            k <= edges.len(),
            edges_sound(edges@, n as nat),
            !input_frozen(input),
            input_edges(input) == edge_triples(edges@.take(k as int)).to_set(),
            input_nodes(input) <= n,
            forall|j: int|
                0 <= j < k ==> (#[trigger] edges@[j]).0 < input_nodes(input) && edges@[j].1
                    < input_nodes(input),
            forall|j: int| 0 <= j < k ==> (#[trigger] edges@[j]).2 <= heaviest,
            heaviest == 0 || exists|j: int| 0 <= j < k && (#[trigger] edges@[j]).2 == heaviest,
        decreases edges.len() - k,
    {
        let (from, to, weight) = edges[k];
        let ghost before = edge_triples(edges@.take(k as int));
        input.add_edge(from, to, weight as usize);
        if weight > heaviest {
            heaviest = weight;
        }
        proof {
            let e = (from as int, to as int, weight as int);
            let after = edge_triples(edges@.take(k + 1));
            assert(after =~= before.push(e));
            assert(after.to_set() =~= before.to_set().insert(e)) by {
                assert forall|x: (int, int, int)| after.to_set().contains(x)
                    <==> before.to_set().insert(e).contains(x) by {
                    if after.to_set().contains(x) {
                        let j = choose|j: int| 0 <= j < after.len() && after[j] == x;
                        if j < before.len() {
                            assert(before[j] == x);
                        }
                    }
                    if before.to_set().contains(x) {
                        let j = choose|j: int| 0 <= j < before.len() && before[j] == x;
                        assert(after[j] == x);
                    }
                    if x == e {
                        assert(after[before.len() as int] == x);
                    }
                }
            }
        }
        k += 1;
    }
    proof {
        assert(edges@.take(k as int) =~= edges@);
    }
    let ghost all = edge_triples(edges@).to_set();
    assert((n as int) * (heaviest as int) <= 0xffff_ffff_ffff_ffff * 0xffff_ffff) by (nonlinear_arith)
        requires
            0 <= n <= 0xffff_ffff_ffff_ffff,
            0 <= heaviest <= 0xffff_ffff,
    ;
    let product: u128 = (n as u128) * (heaviest as u128);
    let fits = 2 * product <= usize::MAX as u128;
    if !fits {
        proof {
            let j = choose|j: int| 0 <= j < k && (#[trigger] edges@[j]).2 == heaviest;
            let e = edge_triples(edges@)[j];
            assert(edge_triples(edges@).contains(e));
            assert(all.contains(e));
            assert(2 * (n as nat) * e.2 == 2 * ((n as int) * (heaviest as int))) by (nonlinear_arith)
                requires
                    e.2 == heaviest as int,
            ;
        }
        return None;
    }
    proof {
        assert forall|e: (int, int, int)| #[trigger] all.contains(e) implies 2 * (n as nat) * e.2
            <= usize::MAX by {
            let j = choose|j: int|
                0 <= j < edge_triples(edges@).len() && edge_triples(edges@)[j] == e;
            assert(edges@[j].2 <= heaviest);
            assert(2 * (n as nat) * e.2 <= 2 * ((n as int) * (heaviest as int))) by (nonlinear_arith)
                requires
                    0 <= e.2 <= heaviest,
            ;
        }
        assert(input_nodes(input) == n) by {
            if n > 0 {
                assert(touched(edges@, n - 1));
                let j = choose|j: int|
                    0 <= j < edges@.len() && #[trigger] touches(edges@[j], n - 1);
                assert(edges@[j].0 < input_nodes(input));
            }
        }
    }
    input.freeze();
    proof {
        assert forall|e: (int, int, int)| #[trigger] lightest(all).contains(e) implies 2 * (
        n as nat) * e.2 <= usize::MAX by {
            assert(all.contains(e));
        }
    }
    Some(fast_paths::prepare(&input))
}

/// Builds the routing bundle of `mode` from the nodes and ways of a map.
///
/// Nodes are numbered in the order in which edges first touch them. There
/// is no bundle where the graph is too heavy for the hierarchy: where the
/// node count times the weight of some edge, doubled, is beyond `usize`.
pub fn build_graph_for_mode(nodes: &Vec<OsmNode>, ways: &Vec<OsmWay>, mode: &str) -> (built:
    Option<RoutingData>)
    ensures
        built is Some <==> weights_fit(
            graph_model(nodes@, ways@, mode@).edges.to_set(),
            graph_model(nodes@, ways@, mode@).ids.len(),
        ),
        built matches Some(data) ==> {
            let model = graph_model(nodes@, ways@, mode@);
            &&& data@.positions == model.positions
            &&& data@.main == model.main
            &&& data@.adjacency == adjacency_of(model.edges, model.ids.len())
            &&& data@.hierarchy == lightest(model.edges.to_set())
            &&& data@.hierarchy == lightest(adjacency_edges(data@.adjacency))
            &&& parts_fit(
                data@.positions,
                data@.main,
                data.graph(),
                data.index(),
                data@.adjacency,
            )
        },
{
    let table = read_nodes(nodes);
    let d = collect_links(&table, ways, mode);
    let n = d.positions.len();
    proof {
        let triples = edge_triples(d.edges@);
        assert(edges_within(triples, n as nat)) by {
            assert forall|k: int| 0 <= k < triples.len() implies {
                &&& 0 <= (#[trigger] triples[k]).0 < n
                &&& 0 <= triples[k].1 < n
                &&& 0 <= triples[k].2 <= u32::MAX
            } by {
                assert(d.edges@[k].0 < n);
            }
        }
        lemma_adjacency_of(triples, n as nat);
    }
    let adj = build_adjacency(&d.edges, n);
    match prepare_hierarchy(&d.edges, n) {
        None => None,
        Some(graph) => {
            let index = SpatialIndex::from_nodes(&d.positions, &d.main);
            Some(RoutingData::assemble(d.positions, d.main, graph, index, adj))
        },
    }
}

/// Whether `link` stands for one of `segments`, in the direction of the
/// segment.
pub open spec fn from_segment(segments: Seq<WaySegment>, link: Link) -> bool {
    exists|j: int|
        0 <= j < segments.len() && (#[trigger] segments[j]).from == link.from && segments[j].to
            == link.to
}

/// Every link of a run of segments stands for one of the segments in its
/// direction, joins two different known nodes, takes at least a
/// millisecond, and has the flags of its way.
pub proof fn lemma_segment_links(
    table: Map<i64, Coord>,
    segments: Seq<WaySegment>,
    speed: u32,
    oneway: bool,
    main: bool,
)
    ensures
        forall|k: int|
            0 <= k < segment_links(table, segments, speed, oneway, main).len() ==> {
                let link = #[trigger] segment_links(table, segments, speed, oneway, main)[k];
                &&& from_segment(segments, link)
                &&& link.from != link.to
                &&& table.contains_key(link.from)
                &&& table.contains_key(link.to)
                &&& link.time_ms >= 1
                &&& link.oneway == oneway
                &&& link.main == main
            },
    decreases segments.len(),
{
    let links = segment_links(table, segments, speed, oneway, main);
    if segments.len() > 0 {
        let rest = segment_links(table, segments.drop_last(), speed, oneway, main);
        lemma_segment_links(table, segments.drop_last(), speed, oneway, main);
        assert forall|k: int| 0 <= k < links.len() implies {
            let link = #[trigger] links[k];
            &&& from_segment(segments, link)
            &&& link.from != link.to
            &&& table.contains_key(link.from)
            &&& table.contains_key(link.to)
            &&& link.time_ms >= 1
            &&& link.oneway == oneway
            &&& link.main == main
        } by {
            let link = links[k];
            if k < rest.len() {
                assert(links[k] == rest[k]);
                let j = choose|j: int|
                    0 <= j < segments.drop_last().len() && (#[trigger] segments.drop_last()[j]).from
                        == link.from && segments.drop_last()[j].to == link.to;
                assert(segments[j] == segments.drop_last()[j]);
            } else {
                assert(segments[segments.len() - 1].from == link.from);
            }
        }
    }
}

/// Links that are all one-way give one edge each, in their direction, and
/// no other edge.
pub proof fn lemma_oneway_edges(links: Seq<Link>, ids: Seq<i64>)
    requires
        forall|k: int| 0 <= k < links.len() ==> (#[trigger] links[k]).oneway,
    ensures
        link_edges(links, ids).len() == links.len(),
        forall|k: int|
            0 <= k < links.len() ==> #[trigger] link_edges(links, ids)[k] == (
                place(ids, links[k].from),
                place(ids, links[k].to),
                links[k].time_ms as int,
            ),
    decreases links.len(),
{
    if links.len() > 0 {
        let rest = links.drop_last();
        assert forall|k: int| 0 <= k < rest.len() implies (#[trigger] rest[k]).oneway by {
            assert(rest[k] == links[k]);
        }
        lemma_oneway_edges(rest, ids);
        assert(links.last() == links[links.len() - 1]);
        assert forall|k: int| 0 <= k < links.len() implies #[trigger] link_edges(links, ids)[k]
            == (place(ids, links[k].from), place(ids, links[k].to), links[k].time_ms as int) by {
            if k < rest.len() {
                assert(link_edges(links, ids)[k] == link_edges(rest, ids)[k]);
                assert(rest[k] == links[k]);
            }
        }
    }
}

/// A way marked `oneway=yes` gives forward edges only: one edge per link,
/// from the node where a segment of the way starts to the node where that
/// segment ends.
pub proof fn lemma_oneway_forward_only(
    table: Map<i64, Coord>,
    way: OsmWay,
    mode: Seq<char>,
    ids: Seq<i64>,
)
    requires
        is_oneway(way),
    ensures
        link_edges(way_links(table, way, mode), ids).len() == way_links(table, way, mode).len(),
        forall|k: int|
            0 <= k < way_links(table, way, mode).len() ==> {
                let link = way_links(table, way, mode)[k];
                &&& from_segment(way.segments@, link)
                &&& #[trigger] link_edges(way_links(table, way, mode), ids)[k] == (
                    place(ids, link.from),
                    place(ids, link.to),
                    link.time_ms as int,
                )
            },
{
    let links = way_links(table, way, mode);
    match speed_of(way.highway@, mode) {
        Some(speed) => {
            lemma_segment_links(table, way.segments@, speed, true, main_road(way.highway@));
            lemma_oneway_edges(links, ids);
        },
        None => {
            lemma_oneway_edges(links, ids);
        },
    }
}

/// Every link joins two different known nodes and takes at least a
/// millisecond.
proof fn lemma_all_links(table: Map<i64, Coord>, ways: Seq<OsmWay>, mode: Seq<char>)
    ensures
        forall|k: int|
            0 <= k < all_links(table, ways, mode).len() ==> {
                let link = #[trigger] all_links(table, ways, mode)[k];
                &&& link.from != link.to
                &&& table.contains_key(link.from)
                &&& table.contains_key(link.to)
                &&& link.time_ms >= 1
            },
    decreases ways.len(),
{
    if ways.len() > 0 {
        let way = ways.last();
        let before = all_links(table, ways.drop_last(), mode);
        lemma_all_links(table, ways.drop_last(), mode);
        match speed_of(way.highway@, mode) {
            Some(speed) => {
                lemma_segment_links(
                    table,
                    way.segments@,
                    speed,
                    is_oneway(way),
                    main_road(way.highway@),
                );
            },
            None => {},
        }
        let links = all_links(table, ways, mode);
        let added = way_links(table, way, mode);
        assert forall|k: int| 0 <= k < links.len() implies {
            let link = #[trigger] links[k];
            &&& link.from != link.to
            &&& table.contains_key(link.from)
            &&& table.contains_key(link.to)
            &&& link.time_ms >= 1
        } by {
            if k < before.len() {
                assert(links[k] == before[k]);
            } else {
                assert(links[k] == added[k - before.len()]);
            }
        }
    }
}

/// The edges of links that join different nodes among `ids` join different
/// node indices, at the weights of the links.
proof fn lemma_link_edges(links: Seq<Link>, ids: Seq<i64>)
    requires
        ids.no_duplicates(),
        links_within(links, ids),
        forall|k: int|
            0 <= k < links.len() ==> (#[trigger] links[k]).from != links[k].to && links[k].time_ms
                >= 1,
    ensures
        forall|k: int|
            0 <= k < link_edges(links, ids).len() ==> {
                let e = #[trigger] link_edges(links, ids)[k];
                &&& 0 <= e.0 < ids.len()
                &&& 0 <= e.1 < ids.len()
                &&& e.0 != e.1
                &&& 1 <= e.2 <= u32::MAX
            },
    decreases links.len(),
{
    if links.len() > 0 {
        let rest = links.drop_last();
        let link = links.last();
        assert(link == links[links.len() - 1]);
        assert(links_within(rest, ids)) by {
            assert forall|k: int| 0 <= k < rest.len() implies ids.contains(
                (#[trigger] rest[k]).from,
            ) && ids.contains(rest[k].to) by {
                assert(rest[k] == links[k]);
            }
        }
        assert forall|k: int| 0 <= k < rest.len() implies (#[trigger] rest[k]).from != rest[k].to
            && rest[k].time_ms >= 1 by {
            assert(rest[k] == links[k]);
        }
        lemma_link_edges(rest, ids);
        assert(ids.take(ids.len() as int) =~= ids);
        lemma_place_grows(ids, ids, link.from);
        lemma_place_grows(ids, ids, link.to);
        let a = place(ids, link.from);
        let b = place(ids, link.to);
        assert(ids[a] == link.from && ids[b] == link.to);
        let edges = link_edges(links, ids);
        let before = link_edges(rest, ids);
        assert forall|k: int| 0 <= k < edges.len() implies {
            let e = #[trigger] edges[k];
            &&& 0 <= e.0 < ids.len()
            &&& 0 <= e.1 < ids.len()
            &&& e.0 != e.1
            &&& 1 <= e.2 <= u32::MAX
        } by {
            if k < before.len() {
                assert(edges[k] == before[k]);
            }
        }
    }
}

/// The routing graph of any map is sound: every node has a position and a
/// main-road flag, no node comes twice, and every edge joins two different
/// nodes of the graph at a weight of at least one millisecond.
pub proof fn lemma_graph_model_sound(nodes: Seq<OsmNode>, ways: Seq<OsmWay>, mode: Seq<char>)
    ensures
        graph_model(nodes, ways, mode).ids.no_duplicates(),
        graph_model(nodes, ways, mode).positions.len() == graph_model(nodes, ways, mode).ids.len(),
        graph_model(nodes, ways, mode).main.len() == graph_model(nodes, ways, mode).ids.len(),
        forall|k: int|
            0 <= k < graph_model(nodes, ways, mode).edges.len() ==> {
                let e = #[trigger] graph_model(nodes, ways, mode).edges[k];
                &&& 0 <= e.0 < graph_model(nodes, ways, mode).ids.len()
                &&& 0 <= e.1 < graph_model(nodes, ways, mode).ids.len()
                &&& e.0 != e.1
                &&& 1 <= e.2 <= u32::MAX
            },
{
    let table = node_table(nodes);
    let links = all_links(table, ways, mode);
    lemma_all_links(table, ways, mode);
    lemma_node_order(links);
    lemma_link_edges(links, node_order(links));
}

/// Where no way is one-way, no link is.
proof fn lemma_two_way_links(table: Map<i64, Coord>, ways: Seq<OsmWay>, mode: Seq<char>)
    requires
        forall|w: int| 0 <= w < ways.len() ==> !is_oneway(#[trigger] ways[w]),
    ensures
        forall|k: int|
            0 <= k < all_links(table, ways, mode).len() ==> !(#[trigger] all_links(
                table,
                ways,
                mode,
            )[k]).oneway,
    decreases ways.len(),
{
    if ways.len() > 0 {
        let way = ways.last();
        assert(way == ways[ways.len() - 1]);
        let before = all_links(table, ways.drop_last(), mode);
        assert forall|w: int| 0 <= w < ways.drop_last().len() implies !is_oneway(
            #[trigger] ways.drop_last()[w],
        ) by {
            assert(ways.drop_last()[w] == ways[w]);
        }
        lemma_two_way_links(table, ways.drop_last(), mode);
        match speed_of(way.highway@, mode) {
            Some(speed) => {
                lemma_segment_links(table, way.segments@, speed, false, main_road(way.highway@));
            },
            None => {},
        }
        let links = all_links(table, ways, mode);
        let added = way_links(table, way, mode);
        assert forall|k: int| 0 <= k < links.len() implies !(#[trigger] links[k]).oneway by {
            if k < before.len() {
                assert(links[k] == before[k]);
            } else {
                assert(links[k] == added[k - before.len()]);
            }
        }
    }
}

/// Links that are all two-way give, with every edge, its reverse at the
/// same weight.
proof fn lemma_two_way_edges(links: Seq<Link>, ids: Seq<i64>)
    requires
        forall|k: int| 0 <= k < links.len() ==> !(#[trigger] links[k]).oneway,
    ensures
        symmetric(link_edges(links, ids).to_set()),
    decreases links.len(),
{
    let edges = link_edges(links, ids);
    if links.len() > 0 {
        let rest = links.drop_last();
        let link = links.last();
        assert(link == links[links.len() - 1]);
        assert forall|k: int| 0 <= k < rest.len() implies !(#[trigger] rest[k]).oneway by {
            assert(rest[k] == links[k]);
        }
        lemma_two_way_edges(rest, ids);
        let before = link_edges(rest, ids);
        let a = place(ids, link.from);
        let b = place(ids, link.to);
        let t = link.time_ms as int;
        assert(edges == before.push((a, b, t)).push((b, a, t)));
        assert forall|e: (int, int, int)| #[trigger] edges.to_set().contains(e) implies edges.to_set().contains(
        (e.1, e.0, e.2)) by {
            let j = choose|j: int| 0 <= j < edges.len() && edges[j] == e;
            if j < before.len() {
                assert(before[j] == e);
                assert(before.to_set().contains(e));
                assert(before.to_set().contains((e.1, e.0, e.2)));
                let i = choose|i: int| 0 <= i < before.len() && before[i] == (e.1, e.0, e.2);
                assert(edges[i] == (e.1, e.0, e.2));
            } else if j == before.len() {
                assert(edges[(before.len() + 1) as int] == (e.1, e.0, e.2));
            } else {
                assert(edges[before.len() as int] == (e.1, e.0, e.2));
            }
        }
    } else {
        assert forall|e: (int, int, int)| #[trigger] edges.to_set().contains(e) implies edges.to_set().contains(
        (e.1, e.0, e.2)) by {
            assert(edges.contains(e));
        }
    }
}

/// A map without one-way streets gives a graph in which every road can be
/// driven both ways at the same weight; so does the hierarchy of its bundle.
pub proof fn lemma_two_way_map_is_symmetric(nodes: Seq<OsmNode>, ways: Seq<OsmWay>, mode: Seq<char>)
    requires
        forall|w: int| 0 <= w < ways.len() ==> !is_oneway(#[trigger] ways[w]),
    ensures
        symmetric(graph_model(nodes, ways, mode).edges.to_set()),
        symmetric(lightest(graph_model(nodes, ways, mode).edges.to_set())),
{
    let table = node_table(nodes);
    let links = all_links(table, ways, mode);
    lemma_two_way_links(table, ways, mode);
    lemma_two_way_edges(links, node_order(links));
    lemma_lightest_symmetric(graph_model(nodes, ways, mode).edges.to_set());
}

} // verus!
