use petgraph::graph::{Graph, NodeIndex};
use petgraph::Directed;
use vstd::prelude::*;

verus! {

#[verifier::external_type_specification]
#[verifier::external_body]
#[verifier::reject_recursive_types(N)]
#[verifier::reject_recursive_types(E)]
#[verifier::reject_recursive_types(Ty)]
#[verifier::reject_recursive_types(Ix)]
pub struct ExGraph<N, E, Ty, Ix>(Graph<N, E, Ty, Ix>);

#[verifier::external_type_specification]
#[verifier::external_body]
pub struct ExDirected(Directed);

/// The node weights of a task graph, by node index.
pub uninterp spec fn graph_nodes(g: Graph<String, (), Directed, u32>) -> Seq<Seq<char>>;

/// The edges of a task graph as (source, target) node indices, in the order they were added.
pub uninterp spec fn graph_edges(g: Graph<String, (), Directed, u32>) -> Seq<(int, int)>;

/// `path` follows edges of the graph from its first node to its last.
pub open spec fn is_walk(edges: Seq<(int, int)>, path: Seq<int>) -> bool {
    forall|k: int| 0 <= k < path.len() - 1 ==> #[trigger] edges.contains((path[k], path[k + 1]))
}

/// The graph holds a cycle: a walk of at least one edge that ends where it starts.
pub open spec fn has_cycle(edges: Seq<(int, int)>) -> bool {
    exists|path: Seq<int>|
        path.len() >= 2 && path[0] == path[path.len() - 1] && #[trigger] is_walk(edges, path)
}

/// The sources of the edges into `target`, most recently added first.
pub open spec fn incoming_sources(edges: Seq<(int, int)>, target: int) -> Seq<int>
    decreases edges.len(),
{
    if edges.len() == 0 {
        Seq::empty()
    } else {
        let rest = incoming_sources(edges.drop_last(), target);
        if edges.last().1 == target {
            seq![edges.last().0] + rest
        } else {
            rest
        }
    }
}

/// `Graph::new` from petgraph: a directed graph with no nodes and no edges.
#[verifier::external_body]
pub(crate) fn graph_new() -> (g: Graph<String, (), Directed, u32>)
    ensures
        graph_nodes(g) == Seq::<Seq<char>>::empty(),
        graph_edges(g) == Seq::<(int, int)>::empty(),
{
    Graph::new()
}

/// `Graph::add_node` from petgraph: appends a node with the given weight; its index is the
/// old node count. It panics when the `u32` index space is full, which `requires` rules out.
#[verifier::external_body]
pub(crate) fn graph_add_node(g: &mut Graph<String, (), Directed, u32>, weight: String) -> (idx: usize)
    requires
        graph_nodes(*old(g)).len() < u32::MAX,
    ensures
        graph_nodes(*final(g)) == graph_nodes(*old(g)).push(weight@),
        graph_edges(*final(g)) == graph_edges(*old(g)),
        idx == graph_nodes(*old(g)).len(),
{
    g.add_node(weight).index()
}

/// `Graph::add_edge` from petgraph: appends an edge from `a` to `b`. It panics when a node
/// does not exist or the `u32` index space for edges is full, which `requires` rules out.
#[verifier::external_body]
pub(crate) fn graph_add_edge(g: &mut Graph<String, (), Directed, u32>, a: usize, b: usize)
    requires
        a < graph_nodes(*old(g)).len(),
        b < graph_nodes(*old(g)).len(),
        graph_edges(*old(g)).len() < u32::MAX,
    ensures
        graph_nodes(*final(g)) == graph_nodes(*old(g)),
        graph_edges(*final(g)) == graph_edges(*old(g)).push((a as int, b as int)),
{
    g.add_edge(NodeIndex::new(a), NodeIndex::new(b), ());
}

/// `Graph::node_count` from petgraph: the number of nodes.
#[verifier::external_body]
pub(crate) fn graph_node_count(g: &Graph<String, (), Directed, u32>) -> (n: usize)
    ensures
        n == graph_nodes(*g).len(),
{
    g.node_count()
}

/// Indexing a petgraph `Graph` by node: the weight of node `i` (it panics on a missing node,
/// which `requires` rules out).
#[verifier::external_body]
pub(crate) fn graph_node_weight(g: &Graph<String, (), Directed, u32>, i: usize) -> (w: &String)
    requires
        i < graph_nodes(*g).len(),
    ensures
        w@ == graph_nodes(*g)[i as int],
{
    &g[NodeIndex::new(i)]
}

/// `Graph::neighbors_directed` with `Incoming` from petgraph, collected: the sources of the
/// edges into node `i`, most recently added edge first, each a node of the graph.
#[verifier::external_body]
pub(crate) fn graph_incoming(g: &Graph<String, (), Directed, u32>, i: usize) -> (sources: Vec<usize>)
    requires
        i < graph_nodes(*g).len(),
    ensures
        sources@.len() == incoming_sources(graph_edges(*g), i as int).len(),
        forall|k: int|
            0 <= k < sources@.len() ==> sources@[k] as int == incoming_sources(
                graph_edges(*g),
                i as int,
            )[k] && sources@[k] < graph_nodes(*g).len(),
{
    g.neighbors_directed(NodeIndex::new(i), petgraph::Direction::Incoming).map(|n| n.index()).collect()
}

/// `petgraph::algo::is_cyclic_directed`: whether the directed graph holds a cycle.
#[verifier::external_body]
pub(crate) fn graph_is_cyclic(g: &Graph<String, (), Directed, u32>) -> (cyclic: bool)
    ensures
        cyclic == has_cycle(graph_edges(*g)),
{
    petgraph::algo::is_cyclic_directed(g)
}

} // verus!
