//! The contraction hierarchy, as the `fast_paths` crate builds and queries it.
//!
//! Nothing in this file is proved: it states what the rest of the library
//! takes from `fast_paths`. An input graph collects edges and is then frozen;
//! preparation turns a frozen input graph into a hierarchy; a path calculator
//! answers shortest-path queries on a hierarchy.

use vstd::prelude::*;
use crate::graph::{is_shortest_path, lightest, path_nodes, path_weight, reachable};

verus! {

/// `fast_paths::InputGraph`, opaque to the verifier.
#[verifier::external_type_specification]
#[verifier::external_body]
pub struct ExInputGraph(fast_paths::InputGraph);

/// `fast_paths::FastGraph`, opaque to the verifier.
#[verifier::external_type_specification]
#[verifier::external_body]
pub struct ExFastGraph(fast_paths::FastGraph);

/// `fast_paths::PathCalculator`, opaque to the verifier.
#[verifier::external_type_specification]
#[verifier::external_body]
pub struct ExPathCalculator(fast_paths::PathCalculator);

/// The edges `(from, to, weight)` that an input graph holds.
pub uninterp spec fn input_edges(graph: fast_paths::InputGraph) -> Set<(int, int, int)>;

/// The number of nodes of an input graph: one more than the largest node id
/// among its edges, zero without edges.
pub uninterp spec fn input_nodes(graph: fast_paths::InputGraph) -> nat;

/// Whether an input graph has been frozen.
pub uninterp spec fn input_frozen(graph: fast_paths::InputGraph) -> bool;

/// The edges of the input graph that a hierarchy stands for.
pub uninterp spec fn ch_edges(graph: fast_paths::FastGraph) -> Set<(int, int, int)>;

/// The number of nodes of a hierarchy.
pub uninterp spec fn ch_nodes(graph: fast_paths::FastGraph) -> nat;

/// Whether a hierarchy is one that preparation has built.
pub uninterp spec fn ch_prepared(graph: fast_paths::FastGraph) -> bool;

/// The number of nodes that a path calculator has room for.
pub uninterp spec fn calc_nodes(calc: fast_paths::PathCalculator) -> nat;

/// Whether the weight of any simple path, doubled, stays within `usize`:
/// searches inside `fast_paths` add up weights along such paths from both
/// ends.
pub open spec fn weights_fit(edges: Set<(int, int, int)>, nodes: nat) -> bool {
    forall|e: (int, int, int)| #[trigger] edges.contains(e) ==> 2 * nodes * e.2 <= usize::MAX
}

/// `InputGraph::new` gives an empty graph that is not frozen.
pub assume_specification[ fast_paths::InputGraph::new ]() -> (graph: fast_paths::InputGraph)
    ensures
        input_edges(graph) == Set::<(int, int, int)>::empty(),
        input_nodes(graph) == 0,
        !input_frozen(graph),
;

/// `InputGraph::add_edge` panics on a frozen graph. It skips an edge from a
/// node to itself and an edge of weight zero, and returns 0; any other edge
/// it adds, raises the node count to cover both ends, and returns 1.
pub assume_specification[ fast_paths::InputGraph::add_edge ](
    graph: &mut fast_paths::InputGraph,
    from: fast_paths::NodeId,
    to: fast_paths::NodeId,
    weight: fast_paths::Weight,
) -> (added: usize)
    requires
        !input_frozen(*old(graph)),
        from < usize::MAX,
        to < usize::MAX,
    ensures
        !input_frozen(*final(graph)),
        from == to || weight < 1 ==> {
            &&& added == 0
            &&& input_edges(*final(graph)) == input_edges(*old(graph))
            &&& input_nodes(*final(graph)) == input_nodes(*old(graph))
        },
        from != to && weight >= 1 ==> {
            &&& added == 1
            &&& input_edges(*final(graph)) == input_edges(*old(graph)).insert(
                (from as int, to as int, weight as int),
            )
            &&& input_nodes(*final(graph)) == if input_nodes(*old(graph)) > from && input_nodes(
                *old(graph),
            ) > to {
                input_nodes(*old(graph))
            } else if from > to {
                (from + 1) as nat
            } else {
                (to + 1) as nat
            }
        },
;

/// `InputGraph::freeze` panics on a frozen graph. It sorts the edges and,
/// among the edges between the same two nodes in the same direction, keeps
/// one of least weight.
pub assume_specification[ fast_paths::InputGraph::freeze ](graph: &mut fast_paths::InputGraph)
    requires
        !input_frozen(*old(graph)),
    ensures
        input_frozen(*final(graph)),
        input_edges(*final(graph)) == lightest(input_edges(*old(graph))),
        input_nodes(*final(graph)) == input_nodes(*old(graph)),
;

/// `fast_paths::prepare` panics on a graph that is not frozen. It builds the
/// hierarchy of the graph, over the same nodes.
pub assume_specification[ fast_paths::prepare ](input_graph: &fast_paths::InputGraph) -> (graph:
    fast_paths::FastGraph)
    requires
        input_frozen(*input_graph),
        weights_fit(input_edges(*input_graph), input_nodes(*input_graph)),
    ensures
        ch_prepared(graph),
        ch_edges(graph) == input_edges(*input_graph),
        ch_nodes(graph) == input_nodes(*input_graph),
;

/// `FastGraph::get_num_nodes` reads the node count.
pub assume_specification[ fast_paths::FastGraph::get_num_nodes ](
    graph: &fast_paths::FastGraph,
) -> (n: usize)
    ensures
        n == ch_nodes(*graph),
;

/// `fast_paths::create_calculator` makes a calculator with room for the
/// nodes of the hierarchy.
pub assume_specification[ fast_paths::create_calculator ](fast_graph: &fast_paths::FastGraph) -> (calc:
    fast_paths::PathCalculator)
    ensures
        calc_nodes(calc) == ch_nodes(*fast_graph),
;

/// `PathCalculator::calc_path`, with the path handed out as its nodes and its
/// weight. The call panics where the calculator was made for another node
/// count or an end is not a node. It returns nothing where `target` cannot be
/// reached from `source`, and else a path of least weight between them: the
/// nodes along it, both ends included, and its weight.
#[verifier::external_body]
pub(crate) fn calc_path(
    calc: &mut fast_paths::PathCalculator,
    graph: &fast_paths::FastGraph,
    source: usize,
    target: usize,
) -> (found: Option<(Vec<usize>, usize)>)
    requires
        ch_prepared(*graph),
        weights_fit(ch_edges(*graph), ch_nodes(*graph)),
        calc_nodes(*old(calc)) == ch_nodes(*graph),
        source < ch_nodes(*graph),
        target < ch_nodes(*graph),
    ensures
        calc_nodes(*final(calc)) == calc_nodes(*old(calc)),
        found is None ==> !reachable(ch_edges(*graph), source as int, target as int),
        found matches Some(p) ==> exists|path: Seq<(int, int, int)>|
            {
                &&& #[trigger] is_shortest_path(
                    ch_edges(*graph),
                    source as int,
                    target as int,
                    path,
                )
                &&& path_weight(path) == p.1
                &&& p.0@.map_values(|n: usize| n as int) == path_nodes(source as int, path)
            },
{
    calc.calc_path(graph, source, target).map(|p| (p.get_nodes().clone(), p.get_weight()))
}

} // verus!
