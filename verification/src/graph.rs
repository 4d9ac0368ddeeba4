//! The directed graph that holds one account's folder structure.
//!
//! The graph itself is a `petgraph` graph whose node weights are document
//! ids. Its contents are described by two sequences, the node weights by
//! index and the edges from the oldest to the newest, and every operation
//! the library uses is stated over those two sequences.

use vstd::prelude::*;

verus! {

#[verifier::external_type_specification]
#[verifier::external_body]
#[verifier::reject_recursive_types(N)]
#[verifier::reject_recursive_types(E)]
#[verifier::reject_recursive_types(Ty)]
#[verifier::reject_recursive_types(Ix)]
pub struct ExGraph<N, E, Ty, Ix>(petgraph::graph::Graph<N, E, Ty, Ix>);

#[verifier::external_type_specification]
#[verifier::external_body]
pub struct ExDirected(petgraph::Directed);

/// The node weights of a graph, by node index.
pub uninterp spec fn graph_nodes(g: petgraph::graph::Graph<String, (), petgraph::Directed, u32>) -> Seq<Seq<char>>;

/// The edges of a graph as (source, target) node indices: the edges that
/// leave a node stand in the order of the node's list of outgoing edges,
/// read from its oldest entry to its newest. In a graph from which nothing
/// was removed that is the order in which the edges were added.
pub uninterp spec fn graph_edges(g: petgraph::graph::Graph<String, (), petgraph::Directed, u32>) -> Seq<(usize, usize)>;

/// The targets of the edges that leave `a`, the most recently added edge first.
pub open spec fn out_targets(edges: Seq<(usize, usize)>, a: usize) -> Seq<usize>
    decreases edges.len(),
{
    if edges.len() == 0 {
        Seq::empty()
    } else if edges.last().0 == a {
        seq![edges.last().1] + out_targets(edges.drop_last(), a)
    } else {
        out_targets(edges.drop_last(), a)
    }
}

/// Whether some edge leaves `a`.
pub open spec fn has_out_edge(edges: Seq<(usize, usize)>, a: usize) -> bool {
    exists|k: int| 0 <= k < edges.len() && (#[trigger] edges[k]).0 == a
}

/// The indices below `n` that no edge leaves, in increasing order.
pub open spec fn sinks(n: nat, edges: Seq<(usize, usize)>) -> Seq<usize>
    decreases n,
{
    if n == 0 {
        Seq::empty()
    } else if has_out_edge(edges, (n - 1) as usize) {
        sinks((n - 1) as nat, edges)
    } else {
        sinks((n - 1) as nat, edges).push((n - 1) as usize)
    }
}

/// `petgraph::graph::Graph::new`: a directed graph without nodes or edges.
#[verifier::external_body]
pub(crate) fn graph_new() -> (g: petgraph::graph::Graph<String, (), petgraph::Directed, u32>)
    ensures
        graph_nodes(g) == Seq::<Seq<char>>::empty(),
        graph_edges(g) == Seq::<(usize, usize)>::empty(),
{
    petgraph::graph::Graph::new()
}

/// `petgraph::graph::Graph::add_node`: appends a node with the given weight
/// and returns its index, which is the number of nodes before the call. The
/// call panics once the node count has reached the largest `u32`, which the
/// precondition excludes.
#[verifier::external_body]
pub(crate) fn graph_add_node(
    g: &mut petgraph::graph::Graph<String, (), petgraph::Directed, u32>,
    weight: String,
) -> (ix: usize)
    requires
        graph_nodes(*old(g)).len() < u32::MAX,
    ensures
        graph_nodes(*final(g)) == graph_nodes(*old(g)).push(weight@),
        graph_edges(*final(g)) == graph_edges(*old(g)),
        ix == graph_nodes(*old(g)).len(),
{
    g.add_node(weight).index()
}

/// `petgraph::graph::Graph::add_edge`: appends an edge from `a` to `b`.
/// The call panics when an endpoint does not exist or the edge count has
/// reached the largest `u32`; the precondition excludes both.
#[verifier::external_body]
pub(crate) fn graph_add_edge(
    g: &mut petgraph::graph::Graph<String, (), petgraph::Directed, u32>,
    a: usize,
    b: usize,
)
    requires
        a < graph_nodes(*old(g)).len(),
        b < graph_nodes(*old(g)).len(),
        graph_nodes(*old(g)).len() <= u32::MAX,
        graph_edges(*old(g)).len() < u32::MAX,
    ensures
        graph_nodes(*final(g)) == graph_nodes(*old(g)),
        graph_edges(*final(g)) == graph_edges(*old(g)).push((a, b)),
{
    g.add_edge(petgraph::graph::NodeIndex::new(a), petgraph::graph::NodeIndex::new(b), ());
}

/// `petgraph::graph::Graph::neighbors`: the targets of the edges that leave
/// `a`, listed from the most recently added edge to the oldest.
#[verifier::external_body]
pub(crate) fn graph_neighbors(
    g: &petgraph::graph::Graph<String, (), petgraph::Directed, u32>,
    a: usize,
) -> (r: Vec<usize>)
    requires
        a < graph_nodes(*g).len(),
        graph_nodes(*g).len() <= u32::MAX,
    ensures
        r@ == out_targets(graph_edges(*g), a),
{
    g.neighbors(petgraph::graph::NodeIndex::new(a)).map(|n| n.index()).collect()
}

/// `petgraph::graph::Graph::externals` with `Direction::Outgoing`: the
/// indices of the nodes that no edge leaves, in increasing order.
#[verifier::external_body]
pub(crate) fn graph_sinks(
    g: &petgraph::graph::Graph<String, (), petgraph::Directed, u32>,
) -> (r: Vec<usize>)
    ensures
        r@ == sinks(graph_nodes(*g).len(), graph_edges(*g)),
{
    g.externals(petgraph::Direction::Outgoing).map(|n| n.index()).collect()
}

/// `petgraph::graph::Graph::node_weight`: the weight of node `a`, or `None`
/// when the graph has no such node.
#[verifier::external_body]
pub(crate) fn graph_node_weight(
    g: &petgraph::graph::Graph<String, (), petgraph::Directed, u32>,
    a: usize,
) -> (w: Option<&String>)
    requires
        a <= u32::MAX,
    ensures
        match w {
            Some(s) => a < graph_nodes(*g).len() && s@ == graph_nodes(*g)[a as int],
            None => a >= graph_nodes(*g).len(),
        },
{
    g.node_weight(petgraph::graph::NodeIndex::new(a))
}

/// `petgraph::graph::Graph::node_count`.
#[verifier::external_body]
pub(crate) fn graph_node_count(
    g: &petgraph::graph::Graph<String, (), petgraph::Directed, u32>,
) -> (n: usize)
    ensures
        n == graph_nodes(*g).len(),
{
    g.node_count()
}

/// `petgraph::graph::Graph::edge_count`.
#[verifier::external_body]
pub(crate) fn graph_edge_count(
    g: &petgraph::graph::Graph<String, (), petgraph::Directed, u32>,
) -> (n: usize)
    ensures
        n == graph_edges(*g).len(),
{
    g.edge_count()
}

/// What `out_targets` holds: exactly the targets of the edges that leave `a`.
pub proof fn lemma_out_targets_hold(edges: Seq<(usize, usize)>, a: usize)
    ensures
        out_targets(edges, a).len() <= edges.len(),
        forall|t: usize|
            #![trigger out_targets(edges, a).contains(t)]
            #![trigger edges.contains((a, t))]
            out_targets(edges, a).contains(t) <==> edges.contains((a, t)),
        has_out_edge(edges, a) <==> out_targets(edges, a).len() > 0,
    decreases edges.len(),
{
    if edges.len() == 0 {
    } else {
        let rest = edges.drop_last();
        let last = edges.last();
        lemma_out_targets_hold(rest, a);
        let here = out_targets(edges, a);
        let before = out_targets(rest, a);
        assert forall|t: usize| here.contains(t) <==> edges.contains((a, t)) by {
            if here.contains(t) {
                let i = choose|i: int| 0 <= i < here.len() && here[i] == t;
                if last.0 == a && i == 0 {
                    assert(edges[edges.len() - 1] == (a, t));
                } else {
                    if last.0 == a {
                        assert(before[i - 1] == t);
                    } else {
                        assert(before[i] == t);
                    }
                    assert(before.contains(t));
                    let k = choose|k: int| 0 <= k < rest.len() && rest[k] == (a, t);
                    assert(edges[k] == (a, t));
                }
            }
            if edges.contains((a, t)) {
                let k = choose|k: int| 0 <= k < edges.len() && edges[k] == (a, t);
                if k == edges.len() - 1 {
                    assert(here[0] == t);
                } else {
                    assert(rest[k] == (a, t));
                    assert(before.contains(t));
                    let i = choose|i: int| 0 <= i < before.len() && before[i] == t;
                    if last.0 == a {
                        assert(here[i + 1] == t);
                    } else {
                        assert(here[i] == t);
                    }
                }
            }
        }
        if has_out_edge(edges, a) {
            let k = choose|k: int| 0 <= k < edges.len() && (#[trigger] edges[k]).0 == a;
            if k < edges.len() - 1 {
                assert(rest[k].0 == a);
            }
        }
        if here.len() > 0 {
            if last.0 == a {
                assert(edges[edges.len() - 1].0 == a);
            } else {
                let k = choose|k: int| 0 <= k < rest.len() && (#[trigger] rest[k]).0 == a;
                assert(edges[k].0 == a);
            }
        }
    }
}

} // verus!
