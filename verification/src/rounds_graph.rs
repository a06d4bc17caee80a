//! The graph of rounds and the rounds they take entrants from, ordered with
//! petgraph's topological sort.
use vstd::prelude::*;
use petgraph::graph::NodeIndex;

verus! {

#[verifier::external_type_specification]
#[verifier::external_body]
#[verifier::reject_recursive_types(N)]
#[verifier::reject_recursive_types(E)]
#[verifier::reject_recursive_types(Ty)]
#[verifier::reject_recursive_types(Ix)]
pub struct ExGraph<N, E, Ty, Ix>(petgraph::Graph<N, E, Ty, Ix>);

#[verifier::external_type_specification]
#[verifier::external_body]
pub struct ExDirected(petgraph::Directed);

/// Number of nodes of a graph.
pub uninterp spec fn graph_node_count(g: petgraph::Graph<(), ()>) -> nat;

/// Edges of a graph, in the order they were added.
pub uninterp spec fn graph_edges(g: petgraph::Graph<(), ()>) -> Seq<(nat, nat)>;

/// What `petgraph::algo::toposort` returns for a graph with these nodes and
/// edges: the node indices in order, or the index of a node of a cycle.
pub uninterp spec fn toposort_of(node_count: nat, edges: Seq<(nat, nat)>) -> Result<Seq<nat>, nat>;

/// `order` lists each of the nodes `0..n` once, and puts the source of each
/// edge before its target.
pub open spec fn is_topological_order(order: Seq<nat>, n: nat, edges: Seq<(nat, nat)>) -> bool {
    &&& order.len() == n
    &&& order.no_duplicates()
    &&& forall|i: int| 0 <= i < order.len() ==> #[trigger] order[i] < n
    &&& forall|e: int, i: int, j: int|
        #![trigger edges[e], order[i], order[j]]
        0 <= e < edges.len() && 0 <= i < n && 0 <= j < n && order[i] == edges[e].0 && order[j] == edges[e].1 ==> i < j
}

/// Some order lists the nodes with the source of each edge first; that is,
/// the graph has no cycle.
pub open spec fn has_topological_order(n: nat, edges: Seq<(nat, nat)>) -> bool {
    exists|order: Seq<nat>| is_topological_order(order, n, edges)
}

/// Calls `petgraph::Graph::new`: a directed graph without nodes or edges.
#[verifier::external_body]
fn graph_new() -> (g: petgraph::Graph<(), ()>)
    ensures
        graph_node_count(g) == 0,
        graph_edges(g) == Seq::<(nat, nat)>::empty(),
{
    petgraph::Graph::new()
}

/// Calls `petgraph::Graph::add_node`, which appends a node and returns its
/// index (the number of nodes before); it panics when the index type (`u32`)
/// runs out, which the `requires` rules out.
#[verifier::external_body]
fn graph_add_node(g: &mut petgraph::Graph<(), ()>) -> (i: usize)
    requires
        graph_node_count(*old(g)) + 1 < u32::MAX,
    ensures
        i == graph_node_count(*old(g)),
        graph_node_count(*final(g)) == graph_node_count(*old(g)) + 1,
        graph_edges(*final(g)) == graph_edges(*old(g)),
{
    g.add_node(()).index()
}

/// Calls `petgraph::Graph::add_edge`, which appends an edge from `a` to `b`;
/// it panics when a node does not exist or when the edge index type runs
/// out, which the `requires` rules out.
#[verifier::external_body]
fn graph_add_edge(g: &mut petgraph::Graph<(), ()>, a: usize, b: usize)
    requires
        a < graph_node_count(*old(g)),
        b < graph_node_count(*old(g)),
        graph_edges(*old(g)).len() + 1 < u32::MAX,
    ensures
        graph_node_count(*final(g)) == graph_node_count(*old(g)),
        graph_edges(*final(g)) == graph_edges(*old(g)).push((a as nat, b as nat)),
{
    g.add_edge(NodeIndex::new(a), NodeIndex::new(b), ());
}

/// Calls `petgraph::algo::toposort`. Its result is named; petgraph documents
/// that an acyclic graph gives its nodes in topological order and a graph
/// with a cycle gives a node of it, so the contract also claims that an
/// order is topological and that a cycle leaves no topological order.
#[verifier::external_body]
fn graph_toposort(g: &petgraph::Graph<(), ()>) -> (res: Result<Vec<usize>, usize>)
    ensures
        match res {
            Ok(v) => toposort_of(graph_node_count(*g), graph_edges(*g)) == Ok::<Seq<nat>, nat>(
                v@.map_values(|x: usize| x as nat),
            ),
            Err(c) => toposort_of(graph_node_count(*g), graph_edges(*g)) == Err::<Seq<nat>, nat>(c as nat),
        },
        match res {
            Ok(v) => is_topological_order(v@.map_values(|x: usize| x as nat), graph_node_count(*g), graph_edges(*g)),
            Err(c) => c < graph_node_count(*g) && !has_topological_order(graph_node_count(*g), graph_edges(*g)),
        },
{
    match petgraph::algo::toposort(g, None) {
        Ok(v) => Ok(v.iter().map(|n| n.index()).collect()),
        Err(c) => Err(c.node_id().index()),
    }
}

/// Edges as pairs of naturals.
pub open spec fn edges_view(edges: Seq<(usize, usize)>) -> Seq<(nat, nat)> {
    edges.map_values(|e: (usize, usize)| (e.0 as nat, e.1 as nat))
}

/// Orders the nodes `0..n` of the graph with the given edges: petgraph's
/// topological order, or a node of a cycle.
pub fn toposort_nodes(n: usize, edges: &Vec<(usize, usize)>) -> (res: Result<Vec<usize>, usize>)
    requires
        n + 1 < u32::MAX,
        edges@.len() + 1 < u32::MAX,
        forall|i: int| 0 <= i < edges@.len() ==> (#[trigger] edges@[i]).0 < n && edges@[i].1 < n,
    ensures
        match res {
            Ok(v) => toposort_of(n as nat, edges_view(edges@)) == Ok::<Seq<nat>, nat>(v@.map_values(|x: usize| x as nat))
                && is_topological_order(v@.map_values(|x: usize| x as nat), n as nat, edges_view(edges@)),
            Err(c) => toposort_of(n as nat, edges_view(edges@)) == Err::<Seq<nat>, nat>(c as nat) && c < n
                && !has_topological_order(n as nat, edges_view(edges@)),
        },
{
    let mut g = graph_new();
    let mut i: usize = 0;
    while i < n
        invariant
            i <= n,
            n + 1 < u32::MAX,
            graph_node_count(g) == i,
            graph_edges(g) == Seq::<(nat, nat)>::empty(),
        decreases n - i,
    {
        graph_add_node(&mut g);
        i = i + 1;
    }
    let mut k: usize = 0;
    while k < edges.len()
        invariant
            k <= edges@.len(),
            edges@.len() + 1 < u32::MAX,
            graph_node_count(g) == n,
            graph_edges(g) == edges_view(edges@.take(k as int)),
            forall|i: int| 0 <= i < edges@.len() ==> (#[trigger] edges@[i]).0 < n && edges@[i].1 < n,
        decreases edges@.len() - k,
    {
        let (a, b) = edges[k];
        graph_add_edge(&mut g, a, b);
        proof {
            assert(edges_view(edges@.take(k as int + 1)) =~= edges_view(edges@.take(k as int)).push((a as nat, b as nat)));
        }
        k = k + 1;
    }
    proof {
        assert(edges@.take(edges@.len() as int) =~= edges@);
    }
    graph_toposort(&g)
}

} // verus!
