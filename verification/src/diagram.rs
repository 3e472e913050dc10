//! The drawing of the dependency graph: a `petgraph` graph with one node per
//! key and one edge per dependency, kept for rendering as Graphviz text.
//!
//! Verus does not look inside `petgraph`. What this module believes of it is
//! written in the contracts of the items marked `external_body` below; the
//! rest is proved from those contracts.

use petgraph::dot::Dot;
use petgraph::graph::DiGraph;
use petgraph::graph::NodeIndex;
use std::collections::HashMap;
use vstd::prelude::*;
use vstd::std_specs::iter::IteratorSpec;

use crate::model::endpoints_known;

verus! {

/// `petgraph::Directed`, the marker type of graphs whose edges have a
/// direction. It has no values and nothing is claimed of it.
#[verifier::external_type_specification]
#[verifier::external_body]
pub struct ExDirected(petgraph::Directed);

/// `petgraph::graph::Graph`, taken as opaque: what a graph holds is known
/// only through [`graph_nodes`] and [`graph_edges`].
#[verifier::external_type_specification]
#[verifier::external_body]
#[verifier::reject_recursive_types(N)]
#[verifier::reject_recursive_types(E)]
#[verifier::reject_recursive_types(Ty)]
#[verifier::reject_recursive_types(Ix)]
pub struct ExGraph<N, E, Ty, Ix>(petgraph::graph::Graph<N, E, Ty, Ix>);

/// The node weights of a graph, in the order of their indices.
pub uninterp spec fn graph_nodes(graph: DiGraph<u64, ()>) -> Seq<u64>;

/// The edges of a graph in the order of their indices, each as the indices of
/// its source and its target.
pub uninterp spec fn graph_edges(graph: DiGraph<u64, ()>) -> Seq<(int, int)>;

/// The text that `petgraph` writes for a directed graph with these node
/// weights and these edges, all edge weights being `()`.
pub uninterp spec fn dot_text(nodes: Seq<u64>, edges: Seq<(int, int)>) -> Seq<char>;

/// `petgraph::graph::Graph::default`: a graph without nodes and without edges.
#[verifier::external_body]
pub(crate) fn empty_graph() -> (graph: DiGraph<u64, ()>)
    ensures
        graph_nodes(graph) == Seq::<u64>::empty(),
        graph_edges(graph) == Seq::<(int, int)>::empty(),
{
    DiGraph::default()
}

/// `petgraph::graph::Graph::add_node`, followed by `NodeIndex::index` on what
/// it returns. The node is appended: it gets the next free index, which is
/// returned, and the edges stay as they are. `add_node` panics on a graph that
/// holds `u32::MAX` nodes; the precondition keeps such a graph out.
#[verifier::external_body]
pub(crate) fn add_node(graph: &mut DiGraph<u64, ()>, key: u64) -> (position: usize)
    requires
        graph_nodes(*old(graph)).len() < u32::MAX,
    ensures
        graph_nodes(*final(graph)) == graph_nodes(*old(graph)).push(key),
        graph_edges(*final(graph)) == graph_edges(*old(graph)),
        position == graph_nodes(*old(graph)).len(),
{
    graph.add_node(key).index()
}

/// `petgraph::graph::Graph::add_edge` with the weight `()`, between the nodes
/// at two indices (`NodeIndex::new`). The edge is appended and the nodes stay
/// as they are. `add_edge` panics when an index names no node and on a graph
/// that holds `u32::MAX` edges; the precondition keeps both out.
#[verifier::external_body]
pub(crate) fn add_edge(graph: &mut DiGraph<u64, ()>, from: usize, to: usize)
    requires
        from < graph_nodes(*old(graph)).len(),
        to < graph_nodes(*old(graph)).len(),
        graph_edges(*old(graph)).len() < u32::MAX,
    ensures
        graph_nodes(*final(graph)) == graph_nodes(*old(graph)),
        graph_edges(*final(graph)) == graph_edges(*old(graph)).push((from as int, to as int)),
{
    graph.add_edge(NodeIndex::new(from), NodeIndex::new(to), ());
}

/// `petgraph::dot::Dot::new` and the pretty `Debug` form of what it returns.
/// The text depends on the nodes and the edges of the graph and on nothing
/// else; what it looks like is left to `petgraph`.
#[verifier::external_body]
pub(crate) fn render(graph: &DiGraph<u64, ()>) -> (text: String)
    ensures
        text@ == dot_text(graph_nodes(*graph), graph_edges(*graph)),
{
    format!("{:#?}", Dot::new(graph))
}

/// A graph with the nodes `nodes` and the edges `links` draws the dependency
/// graph over `keys` and `edges`: every key is the weight of exactly one node,
/// `positions` finds the node of a key, and the i-th link joins the nodes of
/// the i-th edge's subject and dependent.
pub open spec fn depicts(
    nodes: Seq<u64>,
    links: Seq<(int, int)>,
    positions: Map<u64, usize>,
    keys: Set<u64>,
    edges: Seq<(u64, u64)>,
) -> bool {
    &&& nodes.no_duplicates()
    &&& nodes.to_set() == keys
    &&& positions.dom() == keys
    &&& forall|key: u64|
        keys.contains(key) ==> (#[trigger] positions[key]) < nodes.len() && nodes[positions[key] as int]
            == key
    &&& links.len() == edges.len()
    &&& forall|i: int|
        0 <= i < edges.len() ==> #[trigger] links[i] == (
            positions[edges[i].0] as int,
            positions[edges[i].1] as int,
        )
}

/// Draws the dependency graph: one node for each key of `nodes`, then one edge
/// for each pair of `edges`, in their order.
pub(crate) fn draw<V>(nodes: &HashMap<u64, V>, edges: &Vec<(u64, u64)>) -> (drawing: (
    DiGraph<u64, ()>,
    HashMap<u64, usize>,
))
    requires
        nodes@.len() < u32::MAX,
        edges@.len() < u32::MAX,
        endpoints_known(nodes@.dom(), edges@),
    ensures
        depicts(
            graph_nodes(drawing.0),
            graph_edges(drawing.0),
            drawing.1@,
            nodes@.dom(),
            edges@,
        ),
{
    broadcast use vstd::std_specs::hash::group_hash_axioms;

    let mut graph = empty_graph();
    let mut positions: HashMap<u64, usize> = HashMap::new();
    for key in it: nodes.keys()
        invariant
            it.seq() == nodes.keys().remaining(),
            graph_nodes(graph) == it.seq().take(it.index()).unref(),
            graph_edges(graph) == Seq::<(int, int)>::empty(),
            positions@.dom() == graph_nodes(graph).to_set(),
            forall|k: u64|
                positions@.contains_key(k) ==> (#[trigger] positions@[k]) < graph_nodes(graph).len()
                    && graph_nodes(graph)[positions@[k] as int] == k,
            nodes@.len() < u32::MAX,
    {
        let ghost before = graph_nodes(graph);
        let position = add_node(&mut graph, *key);
        positions.insert(*key, position);
        proof {
            before.lemma_push_to_set_commute(*key);
        }
    }
    proof {
        let all = nodes.keys().remaining();
        assert(all.take(all.len() as int) =~= all);
    }
    let mut i: usize = 0;
    while i < edges.len()
        invariant
            i <= edges.len(),
            edges@.len() < u32::MAX,
            endpoints_known(nodes@.dom(), edges@),
            graph_edges(graph).len() == i,
            depicts(
                graph_nodes(graph),
                graph_edges(graph),
                positions@,
                nodes@.dom(),
                edges@.take(i as int),
            ),
        decreases edges.len() - i,
    {
        let (subject, dependent) = edges[i];
        let from = *positions.get(&subject).unwrap();
        let to = *positions.get(&dependent).unwrap();
        add_edge(&mut graph, from, to);
        i += 1;
    }
    (graph, positions)
}

} // verus!
