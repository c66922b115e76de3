//! Trusted boundary around `petgraph`: the directed graph that the solver
//! fills, and the zero-cost best-first search it runs over it. Every item
//! here either declares a petgraph type to the verifier or wraps a single
//! petgraph call behind a contract; the rest of the crate is verified
//! against these contracts.
use vstd::prelude::*;

verus! {

/// Declares petgraph::graph::Graph to the verifier; its values are opaque
/// here and are described only through the names and wrappers below.
#[verifier::external_type_specification]
#[verifier::external_body]
#[verifier::reject_recursive_types(N)]
#[verifier::reject_recursive_types(E)]
#[verifier::reject_recursive_types(Ty)]
#[verifier::reject_recursive_types(Ix)]
pub struct ExGraph<N, E, Ty, Ix>(petgraph::graph::Graph<N, E, Ty, Ix>);

/// Declares petgraph::Directed, the marker type that makes a graph's edges
/// directed.
#[verifier::external_type_specification]
#[verifier::external_body]
pub struct ExDirected(petgraph::Directed);

/// The number of nodes a graph holds.
pub uninterp spec fn graph_nodes(g: petgraph::graph::Graph<(), usize, petgraph::Directed, usize>) -> nat;

/// The directed edges a graph holds, each as a (source, destination) pair of
/// node indices.
pub uninterp spec fn graph_edges(g: petgraph::graph::Graph<(), usize, petgraph::Directed, usize>) -> Set<(usize, usize)>;

/// Relies on petgraph::graph::Graph::with_capacity: a graph with no nodes
/// and no edges.
#[verifier::external_body]
pub(crate) fn graph_new() -> (g: petgraph::graph::Graph<(), usize, petgraph::Directed, usize>)
    ensures
        graph_nodes(g) == 0,
        graph_edges(g) == Set::<(usize, usize)>::empty(),
{
    petgraph::graph::Graph::with_capacity(0, 0)
}

/// Relies on petgraph::graph::Graph::add_node: appends one node, whose index
/// is the previous node count (node indices are handed out consecutively
/// from zero).
#[verifier::external_body]
pub(crate) fn graph_add_node(g: &mut petgraph::graph::Graph<(), usize, petgraph::Directed, usize>) -> (idx:
    usize)
    ensures
        idx == graph_nodes(*old(g)),
        graph_nodes(*final(g)) == graph_nodes(*old(g)) + 1,
        graph_edges(*final(g)) == graph_edges(*old(g)),
{
    g.add_node(()).index()
}

/// Relies on petgraph::graph::Graph::add_edge: appends one directed edge
/// from `a` to `b`, always with weight zero, so the search's cost sums stay
/// zero and cannot overflow; it panics if either index is not a node of the
/// graph.
#[verifier::external_body]
pub(crate) fn graph_add_edge(
    g: &mut petgraph::graph::Graph<(), usize, petgraph::Directed, usize>,
    a: usize,
    b: usize,
)
    requires
        a < graph_nodes(*old(g)),
        b < graph_nodes(*old(g)),
    ensures
        graph_nodes(*final(g)) == graph_nodes(*old(g)),
        graph_edges(*final(g)) == graph_edges(*old(g)).insert((a, b)),
{
    g.add_edge(
        petgraph::graph::NodeIndex::new(a),
        petgraph::graph::NodeIndex::new(b),
        0,
    );
}

/// A node sequence that walks existing edges from `s` to `t`.
pub open spec fn seq_connects(edges: Set<(usize, usize)>, p: Seq<usize>, s: usize, t: usize) -> bool {
    &&& p.len() >= 1
    &&& p[0] == s
    &&& p[p.len() - 1] == t
    &&& forall|i: int| 0 <= i < p.len() - 1 ==> edges.contains((#[trigger] p[i], p[i + 1]))
}

/// Some node sequence walks existing edges from `s` to `t`.
pub open spec fn path_exists(edges: Set<(usize, usize)>, s: usize, t: usize) -> bool {
    exists|p: Seq<usize>| seq_connects(edges, p, s, t)
}

/// The goal test handed to the search: whether `n` is one of the two goal
/// nodes.
pub(crate) fn is_goal_node(n: usize, goal_a: usize, goal_b: usize) -> (r: bool)
    ensures
        r == (n == goal_a || n == goal_b),
{
    n == goal_a || n == goal_b
}

/// Relies on petgraph::algo::astar, run with every edge cost and the
/// heuristic fixed at zero: when it returns a path, that path starts at
/// `start`, ends at a goal node, and walks existing directed edges; when it
/// returns nothing, no walk over the graph's edges joins `start` to either
/// goal (the search pops every reachable node before giving up). Which of
/// several goal walks comes back is left open.
#[verifier::external_body]
pub(crate) fn graph_astar_zero(
    g: &petgraph::graph::Graph<(), usize, petgraph::Directed, usize>,
    start: usize,
    goal_a: usize,
    goal_b: usize,
) -> (r: Option<Vec<usize>>)
    requires
        start < graph_nodes(*g),
    ensures
        match r {
            Some(path) => {
                &&& seq_connects(
                    graph_edges(*g),
                    path@,
                    start,
                    path@[path@.len() - 1],
                )
                &&& (path@[path@.len() - 1] == goal_a || path@[path@.len() - 1] == goal_b)
                &&& forall|i: int| 0 <= i < path@.len() ==> (#[trigger] path@[i]) < graph_nodes(*g)
            },
            None => !path_exists(graph_edges(*g), start, goal_a) && !path_exists(
                graph_edges(*g),
                start,
                goal_b,
            ),
        },
{
    let res = petgraph::algo::astar(
        g,
        petgraph::graph::NodeIndex::new(start),
        |n: petgraph::graph::NodeIndex<usize>| is_goal_node(n.index(), goal_a, goal_b),
        |e: petgraph::graph::EdgeReference<usize, usize>| *petgraph::visit::EdgeRef::weight(&e),
        |_| 0usize,
    );
    match res {
        Some((_, path)) => Some(path.iter().map(|i| i.index()).collect()),
        None => None,
    }
}

} // verus!
