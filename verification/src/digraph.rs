//! Directed graphs of `petgraph`, as the traversals use them: nodes and edges are
//! numbered in order of insertion, and the out-edges of a node are listed most recent first.
use vstd::prelude::*;
use petgraph::graph::{DiGraph, Graph, NodeIndex};
use petgraph::Directed;
use petgraph::visit::EdgeRef;

verus! {

#[verifier::external_type_specification]
#[verifier::external_body]
#[verifier::reject_recursive_types(N)]
#[verifier::reject_recursive_types(E)]
#[verifier::reject_recursive_types(Ty)]
#[verifier::reject_recursive_types(Ix)]
pub struct ExGraph<N, E, Ty, Ix>(Graph<N, E, Ty, Ix>);

#[verifier::external_type_specification]
#[verifier::external_body]
pub struct ExDirected(Directed);

/// The node weights of a graph, by node index.
pub uninterp spec fn digraph_nodes(g: DiGraph<String, String>) -> Seq<Seq<char>>;

/// The edges of a graph, by edge index: source, target and weight.
pub uninterp spec fn digraph_edges(g: DiGraph<String, String>) -> Seq<(int, int, Seq<char>)>;

/// The out-edges of node `a` as (edge index, target) pairs, most recently added first.
pub open spec fn outgoing(es: Seq<(int, int, Seq<char>)>, a: int) -> Seq<(int, int)>
    decreases es.len(),
{
    if es.len() == 0 {
        Seq::empty()
    } else {
        let rest = outgoing(es.drop_last(), a);
        if es.last().0 == a {
            seq![((es.len() - 1) as int, es.last().1)] + rest
        } else {
            rest
        }
    }
}

/// `Graph::new`: a graph with no nodes and no edges.
#[verifier::external_body]
pub(crate) fn digraph_new() -> (g: DiGraph<String, String>)
    ensures
        digraph_nodes(g) == Seq::<Seq<char>>::empty(),
        digraph_edges(g) == Seq::<(int, int, Seq<char>)>::empty(),
{
    DiGraph::new()
}

/// `Graph::add_node`: appends a node and returns its index.  Panics at the index limit,
/// which the requirement rules out.
#[verifier::external_body]
pub(crate) fn digraph_add_node(g: &mut DiGraph<String, String>, w: String) -> (i: usize)
    requires
        digraph_nodes(*old(g)).len() < u32::MAX,
    ensures
        digraph_nodes(*final(g)) == digraph_nodes(*old(g)).push(w@),
        digraph_edges(*final(g)) == digraph_edges(*old(g)),
        i == digraph_nodes(*old(g)).len(),
{
    g.add_node(w).index()
}

/// `Graph::add_edge`: appends an edge from `a` to `b` and returns its index.  Panics on
/// missing endpoints or at the index limit, which the requirements rule out.
#[verifier::external_body]
pub(crate) fn digraph_add_edge(g: &mut DiGraph<String, String>, a: usize, b: usize, w: String) -> (i: usize)
    requires
        a < digraph_nodes(*old(g)).len(),
        b < digraph_nodes(*old(g)).len(),
        digraph_edges(*old(g)).len() < u32::MAX,
    ensures
        digraph_nodes(*final(g)) == digraph_nodes(*old(g)),
        digraph_edges(*final(g)) == digraph_edges(*old(g)).push((a as int, b as int, w@)),
        i == digraph_edges(*old(g)).len(),
{
    g.add_edge(NodeIndex::new(a), NodeIndex::new(b), w).index()
}

/// `Graph::edges` of a node of a directed graph: its out-edges, most recently added
/// first, as (edge index, target index) pairs.
#[verifier::external_body]
pub(crate) fn digraph_out(g: &DiGraph<String, String>, a: usize) -> (r: Vec<(usize, usize)>)
    requires
        a < digraph_nodes(*g).len(),
    ensures
        r@.map_values(|p: (usize, usize)| (p.0 as int, p.1 as int)) == outgoing(digraph_edges(*g), a as int),
{
    g.edges(NodeIndex::new(a)).map(|e| (e.id().index(), e.target().index())).collect()
}

/// `Graph::node_weight` of an existing node.
#[verifier::external_body]
pub(crate) fn digraph_node_weight(g: &DiGraph<String, String>, i: usize) -> (r: String)
    requires
        i < digraph_nodes(*g).len(),
    ensures
        r@ == digraph_nodes(*g)[i as int],
{
    match g.node_weight(NodeIndex::new(i)) {
        Some(w) => w.clone(),
        None => String::new(),
    }
}

/// `Graph::edge_weight` of an existing edge.
#[verifier::external_body]
pub(crate) fn digraph_edge_weight(g: &DiGraph<String, String>, e: usize) -> (r: String)
    requires
        e < digraph_edges(*g).len(),
    ensures
        r@ == digraph_edges(*g)[e as int].2,
{
    match g.edge_weight(petgraph::graph::EdgeIndex::new(e)) {
        Some(w) => w.clone(),
        None => String::new(),
    }
}


/// The first out-edge of `outs` that reaches `b`, by edge index.
pub open spec fn first_to(outs: Seq<(int, int)>, b: int) -> Option<int>
    decreases outs.len(),
{
    if outs.len() == 0 {
        None
    } else if outs[0].1 == b {
        Some(outs[0].0)
    } else {
        first_to(outs.drop_first(), b)
    }
}

/// `p` steps from node to node along edges of `es`.
pub open spec fn is_walk(es: Seq<(int, int, Seq<char>)>, p: Seq<int>) -> bool {
    forall|i: int| #![trigger p[i]] 0 <= i < p.len() - 1 ==>
        exists|k: int| #![trigger es[k]] 0 <= k < es.len() && es[k].0 == p[i] && es[k].1 == p[i + 1]
}

/// `p` is a walk along edges of `es` from `a` to `b`.
pub open spec fn walk_between(es: Seq<(int, int, Seq<char>)>, p: Seq<int>, a: int, b: int) -> bool {
    p.len() >= 1 && p[0] == a && p.last() == b && is_walk(es, p)
}

/// The path that `petgraph::algo::astar` returns with unit edge costs and no estimate,
/// as node indices, or `None`.
pub uninterp spec fn unit_astar(es: Seq<(int, int, Seq<char>)>, start: int, target: int) -> Option<Seq<int>>;

pub open spec fn opt_ints(o: Option<Vec<usize>>) -> Option<Seq<int>> {
    match o {
        Some(v) => Some(v@.map_values(|x: usize| x as int)),
        None => None,
    }
}

/// Whether node index `n` is the goal `t` of a path search.
pub(crate) fn is_goal(n: usize, t: usize) -> (b: bool)
    ensures
        b == (n == t),
{
    n == t
}

/// The cost of one hop in a path search.
pub(crate) fn hop_cost() -> (c: u32)
    ensures
        c == 1,
{
    1
}

/// The estimate of the cost left in a path search: none, so the search is exact.
pub(crate) fn no_estimate() -> (c: u32)
    ensures
        c == 0,
{
    0
}

/// `petgraph::algo::astar` from `start` to `target`, each edge costing one hop and no
/// estimate of the cost left: the path it finds, as node indices.  Its documentation
/// promises a shortest path from start to finish when one exists (the estimate 0 never
/// overestimates), and `None` when there is none.  Which of several shortest paths comes
/// back is left to its heap order, which the name `unit_astar` stands for.
#[verifier::external_body]
pub(crate) fn digraph_shortest_path(g: &DiGraph<String, String>, start: usize, target: usize) -> (r: Option<Vec<usize>>)
    requires
        start < digraph_nodes(*g).len(),
        target < digraph_nodes(*g).len(),
        digraph_nodes(*g).len() < u32::MAX,
    ensures
        opt_ints(r) == unit_astar(digraph_edges(*g), start as int, target as int),
        match opt_ints(r) {
            Some(p) => walk_between(digraph_edges(*g), p, start as int, target as int)
                && forall|q: Seq<int>| walk_between(digraph_edges(*g), q, start as int, target as int) ==> q.len() >= p.len(),
            None => forall|q: Seq<int>| !walk_between(digraph_edges(*g), q, start as int, target as int),
        },
{
    petgraph::algo::astar(g, NodeIndex::new(start), |n| is_goal(n.index(), target), |_| hop_cost(), |_| no_estimate())
        .map(|(_, p)| p.iter().map(|i| i.index()).collect())
}

/// `Graph::find_edge` in a directed graph: the first out-edge of `a` (most recent first)
/// that reaches `b`.
#[verifier::external_body]
pub(crate) fn digraph_find_edge(g: &DiGraph<String, String>, a: usize, b: usize) -> (r: Option<usize>)
    requires
        a < digraph_nodes(*g).len(),
        b < digraph_nodes(*g).len(),
    ensures
        match r {
            Some(e) => first_to(outgoing(digraph_edges(*g), a as int), b as int) == Some(e as int),
            None => first_to(outgoing(digraph_edges(*g), a as int), b as int) is None,
        },
{
    g.find_edge(NodeIndex::new(a), NodeIndex::new(b)).map(|e| e.index())
}

} // verus!
