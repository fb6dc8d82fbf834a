//! Positions and the spatial index over main-road nodes.
//!
//! Positions are in units of 1e-7 degrees, the unit in which map extracts
//! store them. Distances between positions are planar, on the raw
//! coordinates: good enough to pick the nearest node in a bounded region.
//! The index itself is the R-tree of the `rstar` crate.

use vstd::prelude::*;

verus! {

/// A geographic position in units of 1e-7 degrees.
#[derive(Clone, Copy, Debug, PartialEq, Eq, Structural)]
pub struct Coord {
    pub lon: i32,
    pub lat: i32,
}

/// An entry of the spatial index: a position and the node that lies there.
#[derive(Clone, Copy, Debug, PartialEq, Eq, Structural)]
pub struct IndexedPoint {
    pub lon: i32,
    pub lat: i32,
    pub idx: usize,
}

/// An R-tree whose entries are positions with a node index each. The tree
/// is `rstar::RTree` over `GeomWithData<[i128; 2], usize>`; the verifier does
/// not look inside.
#[verifier::external_body]
pub struct SpatialIndex {
    tree: rstar::RTree<rstar::primitives::GeomWithData<[i128; 2], usize>>,
}

/// The entries `(lon, lat, node)` that an index holds.
pub uninterp spec fn index_points(index: SpatialIndex) -> Set<(int, int, int)>;

/// Squared planar distance between two positions.
pub open spec fn distance_2(ax: int, ay: int, bx: int, by: int) -> int {
    (ax - bx) * (ax - bx) + (ay - by) * (ay - by)
}

/// Whether `node` belongs to an entry of `points` that no other entry beats
/// in distance to the probe.
pub open spec fn is_nearest(points: Set<(int, int, int)>, lon: int, lat: int, node: int) -> bool {
    exists|x: int, y: int|
        {
            &&& #[trigger] points.contains((x, y, node))
            &&& forall|q: (int, int, int)| #[trigger]
                points.contains(q) ==> distance_2(x, y, lon, lat) <= distance_2(
                    q.0,
                    q.1,
                    lon,
                    lat,
                )
        }
}

/// Whether `node` is the least of the nodes nearest to the probe.
pub open spec fn is_first_nearest(
    points: Set<(int, int, int)>,
    lon: int,
    lat: int,
    node: int,
) -> bool {
    &&& is_nearest(points, lon, lat, node)
    &&& forall|other: int| #[trigger] is_nearest(points, lon, lat, other) ==> node <= other
}

/// The node that a probe snaps to among `points`: the one nearest to it
/// and, of several at the same distance, the one with the least index.
/// `None` where no node is nearest, as among no points.
pub open spec fn nearest_node(points: Set<(int, int, int)>, lon: int, lat: int) -> Option<int> {
    if exists|node: int| is_first_nearest(points, lon, lat, node) {
        Some(choose|node: int| is_first_nearest(points, lon, lat, node))
    } else {
        None
    }
}

/// The entries of a list of points, as a set.
pub open spec fn point_set(points: Seq<IndexedPoint>) -> Set<(int, int, int)> {
    Set::new(
        |p: (int, int, int)|
            exists|k: int|
                0 <= k < points.len() && p == (
                    (#[trigger] points[k]).lon as int,
                    points[k].lat as int,
                    points[k].idx as int,
                ),
    )
}

/// The entries that stand for the main-road nodes among `positions`.
pub open spec fn main_points(positions: Seq<Coord>, main: Seq<bool>) -> Set<(int, int, int)> {
    Set::new(
        |p: (int, int, int)|
            {
                &&& 0 <= p.2 < positions.len()
                &&& p.2 < main.len()
                &&& main[p.2]
                &&& p.0 == positions[p.2].lon
                &&& p.1 == positions[p.2].lat
            },
    )
}

/// `RTree::bulk_load` on the given points, each turned into a
/// `GeomWithData` of its two coordinates and its node index. The tree holds
/// the points that it was given.
#[verifier::external_body]
fn bulk_load(points: Vec<IndexedPoint>) -> (index: SpatialIndex)
    ensures
        index_points(index) == point_set(points@),
{
    SpatialIndex {
        tree: rstar::RTree::bulk_load(
            points.into_iter().map(
                |p| rstar::primitives::GeomWithData::new([p.lon as i128, p.lat as i128], p.idx),
            ).collect(),
        ),
    }
}

/// `RTree::nearest_neighbors` at the probe, answering with the node index
/// of each entry found. The tree returns nothing only where it is empty,
/// and else every entry whose squared distance to the probe is least.
#[verifier::external_body]
fn nearest_neighbors(index: &SpatialIndex, lon: i32, lat: i32) -> (hits: Vec<usize>)
    ensures
        hits@.len() == 0 <==> index_points(*index) == Set::<(int, int, int)>::empty(),
        forall|node: int|
            (0 <= node <= usize::MAX && hits@.contains(node as usize)) <==> #[trigger] is_nearest(
                index_points(*index),
                lon as int,
                lat as int,
                node,
            ),
{
    index.tree.nearest_neighbors(&[lon as i128, lat as i128]).into_iter().map(|p| p.data).collect()
}

impl SpatialIndex {
    /// Builds the index of the main-road nodes: node `i` lies at
    /// `positions[i]` and is indexed where `main[i]` holds.
    pub fn from_nodes(positions: &Vec<Coord>, main: &Vec<bool>) -> (index: SpatialIndex)
        requires
            positions.len() == main.len(),
        ensures
            index_points(index) == main_points(positions@, main@),
    {
        let mut points: Vec<IndexedPoint> = Vec::new();
        let mut i: usize = 0;
        while i < positions.len()
            invariant
                positions.len() == main.len(),
                i <= positions.len(),
                point_set(points@) == main_points(positions@.take(i as int), main@.take(i as int)),
            decreases positions.len() - i,
        {
            let ghost before = points@;
            if main[i] {
                points.push(IndexedPoint { lon: positions[i].lon, lat: positions[i].lat, idx: i });
            }
            proof {
                let a = point_set(points@);
                let b = main_points(positions@.take(i + 1), main@.take(i + 1));
                assert forall|p: (int, int, int)| a.contains(p) <==> b.contains(p) by {
                    let old_b = main_points(positions@.take(i as int), main@.take(i as int));
                    if a.contains(p) {
                        let k = choose|k: int|
                            0 <= k < points.len() && p == (
                                (#[trigger] points[k]).lon as int,
                                points[k].lat as int,
                                points[k].idx as int,
                            );
                        if k < before.len() {
                            assert(before[k] == points[k]);
                            assert(point_set(before).contains(p));
                            assert(old_b.contains(p));
                        }
                    }
                    if b.contains(p) {
                        if p.2 < i {
                            assert(old_b.contains(p));
                            assert(point_set(before).contains(p));
                            let k = choose|k: int|
                                0 <= k < before.len() && p == (
                                    (#[trigger] before[k]).lon as int,
                                    before[k].lat as int,
                                    before[k].idx as int,
                                );
                            assert(points[k] == before[k]);
                        } else {
                            assert(points[points.len() - 1].idx == i);
                        }
                    }
                }
                assert(a =~= b);
            }
            i += 1;
        }
        proof {
            assert(positions@.take(i as int) =~= positions@);
            assert(main@.take(i as int) =~= main@);
        }
        bulk_load(points)
    }

    /// The node of the index nearest to the probe and, of several at the
    /// same distance, the one with the least index; `None` where the index
    /// is empty.
    pub fn nearest(&self, lon: i32, lat: i32) -> (hit: Option<usize>)
        ensures
            hit is None <==> index_points(*self) == Set::<(int, int, int)>::empty(),
            hit is None <==> nearest_node(index_points(*self), lon as int, lat as int) is None,
            hit matches Some(node) ==> nearest_node(index_points(*self), lon as int, lat as int)
                == Some(node as int) && is_nearest(
                index_points(*self),
                lon as int,
                lat as int,
                node as int,
            ),
    {
        let hits = nearest_neighbors(self, lon, lat);
        let ghost points = index_points(*self);
        if hits.len() == 0 {
            proof {
                assert forall|node: int| !is_first_nearest(
                    points,
                    lon as int,
                    lat as int,
                    node,
                ) by {
                    if is_nearest(points, lon as int, lat as int, node) {
                        assert(hits@.contains(node as usize));
                    }
                }
            }
            return None;
        }
        let mut best = hits[0];
        let mut i: usize = 1;
        while i < hits.len()
            invariant
                1 <= i <= hits.len(),
                hits@.contains(best),
                forall|j: int| 0 <= j < i ==> best <= hits@[j],
            decreases hits.len() - i,
        {
            if hits[i] < best {
                best = hits[i];
            }
            i += 1;
        }
        proof {
            assert(is_nearest(points, lon as int, lat as int, best as int));
            assert forall|other: int| #[trigger]
                is_nearest(points, lon as int, lat as int, other) implies best <= other by {
                assert(hits@.contains(other as usize));
                let j = choose|j: int| 0 <= j < hits@.len() && hits@[j] == other as usize;
                assert(best <= hits@[j]);
            }
            assert(is_first_nearest(points, lon as int, lat as int, best as int));
            let chosen = choose|node: int| is_first_nearest(points, lon as int, lat as int, node);
            assert(is_nearest(points, lon as int, lat as int, chosen));
        }
        Some(best)
    }
}

} // verus!
