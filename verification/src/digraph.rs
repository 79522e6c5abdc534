//! The dependency graph's storage: a `petgraph` directed graph, and what is relied on about it.
//!
//! A graph is known by two names: `graph_nodes`, the node weights in index order, and
//! `graph_edges`, the edges in index order. Node and edge indices are `petgraph`'s `u32` offsets.

use petgraph::algo::{has_path_connecting, toposort};
use petgraph::graph::DiGraph;
use vstd::prelude::*;

use crate::paths::{is_topological, on_cycle, reaches};

verus! {

/// What a node of the graph stands for.
#[derive(Debug, Clone, Copy, PartialEq, Eq, Structural)]
pub enum NodeKind {
    Resource,
    Module,
    Output,
}

/// The weight of a node. Everything else known of a node lives outside the graph.
#[derive(Debug, Clone)]
pub struct NodeData {
    pub address: String,
    pub kind: NodeKind,
}

/// The weight of an edge.
#[derive(Debug, Clone, Copy, PartialEq, Eq, Structural)]
pub enum EdgeKind {
    /// Declared explicitly via `depends_on` in the configuration.
    Explicit,
    /// Inferred from module membership (resource belongs to a child module).
    Implicit,
}

/// An edge with its ends: `from` depends on `to`.
#[derive(Debug, Clone, Copy, PartialEq, Eq, Structural)]
pub struct Edge {
    pub from: u32,
    pub to: u32,
    pub kind: EdgeKind,
}

#[verifier::external_type_specification]
#[verifier::external_body]
#[verifier::reject_recursive_types(N)]
#[verifier::reject_recursive_types(E)]
#[verifier::reject_recursive_types(Ty)]
#[verifier::reject_recursive_types(Ix)]
pub struct ExGraph<N, E, Ty, Ix>(petgraph::graph::Graph<N, E, Ty, Ix>);

#[verifier::external_type_specification]
#[verifier::external_body]
pub struct ExDirected(petgraph::Directed);

/// The node weights of `g`, in index order.
pub uninterp spec fn graph_nodes(g: DiGraph<NodeData, EdgeKind>) -> Seq<NodeData>;

/// The edges of `g`, in index order.
pub uninterp spec fn graph_edges(g: DiGraph<NodeData, EdgeKind>) -> Seq<Edge>;

/// The lists of edges at each node of `g` are in the order in which adding its edges one after the
/// other leaves them.
pub uninterp spec fn grown_in_order(g: DiGraph<NodeData, EdgeKind>) -> bool;

/// What `petgraph::algo::toposort` finds in a graph with this many nodes and these edges, added one
/// after the other: an order of the nodes, or a node on a cycle.
pub uninterp spec fn sort_told(nodes: nat, edges: Seq<Edge>) -> Result<Seq<int>, int>;

/// The pairs of nodes that some edge joins.
pub open spec fn links_of(edges: Seq<Edge>) -> Set<(int, int)> {
    Set::new(
        |l: (int, int)|
            exists|i: int|
                0 <= i < edges.len() && (#[trigger] edges[i]).from == l.0 && edges[i].to == l.1,
    )
}

/// The sources of the edges into `node`, one for each edge.
pub open spec fn sources_into(edges: Seq<Edge>, node: u32) -> Seq<u32> {
    edges.filter(|e: Edge| e.to == node).map_values(|e: Edge| e.from)
}

/// The targets of the edges out of `node`, one for each edge.
pub open spec fn targets_from(edges: Seq<Edge>, node: u32) -> Seq<u32> {
    edges.filter(|e: Edge| e.from == node).map_values(|e: Edge| e.to)
}

/// `edges` without the one at `i`, whose place the last one takes.
pub open spec fn swap_removed(edges: Seq<Edge>, i: int) -> Seq<Edge> {
    edges.update(i, edges.last()).drop_last()
}

/// Node numbers as integers.
pub open spec fn as_ints(s: Seq<u32>) -> Seq<int> {
    s.map_values(|x: u32| x as int)
}

/// `petgraph::graph::DiGraph::new`: a graph without nodes and edges.
#[verifier::external_body]
pub(crate) fn new_graph() -> (g: DiGraph<NodeData, EdgeKind>)
    ensures
        graph_nodes(g) == Seq::<NodeData>::empty(),
        graph_edges(g) == Seq::<Edge>::empty(),
        grown_in_order(g),
{
    DiGraph::new()
}

/// `petgraph::graph::Graph::add_node`: the weight becomes the last node, and its index comes
/// back. The call panics on a graph that holds `u32::MAX` nodes.
#[verifier::external_body]
pub(crate) fn add_node(g: &mut DiGraph<NodeData, EdgeKind>, weight: NodeData) -> (index: u32)
    requires
        graph_nodes(*old(g)).len() < u32::MAX,
    ensures
        index == graph_nodes(*old(g)).len(),
        graph_nodes(*final(g)) == graph_nodes(*old(g)).push(weight),
        graph_edges(*final(g)) == graph_edges(*old(g)),
        grown_in_order(*old(g)) ==> grown_in_order(*final(g)),
{
    g.add_node(weight).index() as u32
}

/// `petgraph::graph::Graph::add_edge`: the edge becomes the last one, also beside an equal one,
/// and its index comes back. The call panics where an end does not exist, or on a graph that
/// holds `u32::MAX` edges.
#[verifier::external_body]
pub(crate) fn add_edge(
    g: &mut DiGraph<NodeData, EdgeKind>,
    from: u32,
    to: u32,
    kind: EdgeKind,
) -> (index: u32)
    requires
        from < graph_nodes(*old(g)).len(),
        to < graph_nodes(*old(g)).len(),
        graph_edges(*old(g)).len() < u32::MAX,
    ensures
        index == graph_edges(*old(g)).len(),
        graph_nodes(*final(g)) == graph_nodes(*old(g)),
        graph_edges(*final(g)) == graph_edges(*old(g)).push(Edge { from, to, kind }),
        grown_in_order(*old(g)) ==> grown_in_order(*final(g)),
{
    g.add_edge(
        petgraph::graph::NodeIndex::new(from as usize),
        petgraph::graph::NodeIndex::new(to as usize),
        kind,
    ).index() as u32
}

/// `petgraph::graph::Graph::contains_edge`: whether an edge joins the two nodes, in this
/// direction.
#[verifier::external_body]
pub(crate) fn contains_edge(g: &DiGraph<NodeData, EdgeKind>, from: u32, to: u32) -> (found: bool)
    ensures
        found == links_of(graph_edges(*g)).contains((from as int, to as int)),
{
    g.contains_edge(
        petgraph::graph::NodeIndex::new(from as usize),
        petgraph::graph::NodeIndex::new(to as usize),
    )
}

/// `petgraph::graph::Graph::node_count`: the number of nodes.
#[verifier::external_body]
pub(crate) fn node_count(g: &DiGraph<NodeData, EdgeKind>) -> (n: usize)
    ensures
        n == graph_nodes(*g).len(),
{
    g.node_count()
}

/// `petgraph::graph::Graph::edge_count`: the number of edges.
#[verifier::external_body]
pub(crate) fn edge_count(g: &DiGraph<NodeData, EdgeKind>) -> (n: usize)
    ensures
        n == graph_edges(*g).len(),
{
    g.edge_count()
}

/// `petgraph::graph::Graph::node_weight`: the weight of a node that exists, nothing otherwise.
#[verifier::external_body]
pub(crate) fn node_weight(g: &DiGraph<NodeData, EdgeKind>, node: u32) -> (weight: Option<&NodeData>)
    ensures
        weight == (if node < graph_nodes(*g).len() {
            Some(&graph_nodes(*g)[node as int])
        } else {
            None
        }),
{
    g.node_weight(petgraph::graph::NodeIndex::new(node as usize))
}

/// `petgraph::graph::Graph::edge_endpoints`: source and target of an edge that exists, nothing
/// otherwise.
#[verifier::external_body]
pub(crate) fn edge_endpoints(g: &DiGraph<NodeData, EdgeKind>, edge: u32) -> (ends: Option<(u32, u32)>)
    ensures
        ends == (if edge < graph_edges(*g).len() {
            Some((graph_edges(*g)[edge as int].from, graph_edges(*g)[edge as int].to))
        } else {
            None
        }),
{
    match g.edge_endpoints(petgraph::graph::EdgeIndex::new(edge as usize)) {
        Some((u, v)) => Some((u.index() as u32, v.index() as u32)),
        None => None,
    }
}

/// `petgraph`'s indexing of a graph by an edge index: the weight of that edge. It panics where the
/// edge does not exist.
#[verifier::external_body]
pub(crate) fn edge_kind(g: &DiGraph<NodeData, EdgeKind>, edge: u32) -> (kind: EdgeKind)
    requires
        edge < graph_edges(*g).len(),
    ensures
        kind == graph_edges(*g)[edge as int].kind,
{
    g[petgraph::graph::EdgeIndex::new(edge as usize)]
}

/// `petgraph::graph::Graph::find_edge`: the index of an edge that joins the two nodes in this
/// direction, nothing where there is none. Which one comes back among parallel edges is left open.
#[verifier::external_body]
pub(crate) fn find_edge(g: &DiGraph<NodeData, EdgeKind>, from: u32, to: u32) -> (found: Option<u32>)
    ensures
        match found {
            Some(i) => i < graph_edges(*g).len() && graph_edges(*g)[i as int].from == from
                && graph_edges(*g)[i as int].to == to,
            None => !links_of(graph_edges(*g)).contains((from as int, to as int)),
        },
{
    match g.find_edge(
        petgraph::graph::NodeIndex::new(from as usize),
        petgraph::graph::NodeIndex::new(to as usize),
    ) {
        Some(e) => Some(e.index() as u32),
        None => None,
    }
}

/// `petgraph::graph::Graph::remove_edge`: an edge that exists goes, the last edge takes over its
/// index, and the weight comes back; otherwise nothing happens.
#[verifier::external_body]
pub(crate) fn remove_edge(g: &mut DiGraph<NodeData, EdgeKind>, edge: u32) -> (kind: Option<EdgeKind>)
    ensures
        graph_nodes(*final(g)) == graph_nodes(*old(g)),
        edge < graph_edges(*old(g)).len() ==> {
            &&& graph_edges(*final(g)) == swap_removed(graph_edges(*old(g)), edge as int)
            &&& kind == Some(graph_edges(*old(g))[edge as int].kind)
        },
        edge >= graph_edges(*old(g)).len() ==> {
            &&& graph_edges(*final(g)) == graph_edges(*old(g))
            &&& kind is None
        },
{
    g.remove_edge(petgraph::graph::EdgeIndex::new(edge as usize))
}

/// `petgraph::graph::Graph::neighbors_directed` with `Incoming`: the sources of the edges into the
/// node, one for each edge. The order in which they come is left open.
#[verifier::external_body]
pub(crate) fn incoming_neighbors(g: &DiGraph<NodeData, EdgeKind>, node: u32) -> (r: Vec<u32>)
    ensures
        r@.to_multiset() == sources_into(graph_edges(*g), node).to_multiset(),
{
    g.neighbors_directed(
        petgraph::graph::NodeIndex::new(node as usize),
        petgraph::Direction::Incoming,
    ).map(|i| i.index() as u32).collect()
}

/// `petgraph::graph::Graph::neighbors`: the targets of the edges out of the node, one for each
/// edge. The order in which they come is left open.
#[verifier::external_body]
pub(crate) fn outgoing_neighbors(g: &DiGraph<NodeData, EdgeKind>, node: u32) -> (r: Vec<u32>)
    ensures
        r@.to_multiset() == targets_from(graph_edges(*g), node).to_multiset(),
{
    g.neighbors(petgraph::graph::NodeIndex::new(node as usize)).map(|i| i.index() as u32).collect()
}

/// `petgraph::algo::toposort` without a workspace: every node once, each before its successors, or
/// a node that lies on a cycle. The search goes by the number of nodes and by the lists of edges at
/// each node. Where these lists are as adding the edges leaves them, the number of nodes and the
/// edges determine what comes back. Otherwise it is left open which of the possible orders or nodes
/// that is.
#[verifier::external_body]
pub(crate) fn sorted_nodes(g: &DiGraph<NodeData, EdgeKind>) -> (r: Result<Vec<u32>, u32>)
    ensures
        match r {
            Ok(order) => is_topological(
                links_of(graph_edges(*g)),
                graph_nodes(*g).len() as int,
                as_ints(order@),
            ),
            Err(node) => node < graph_nodes(*g).len() && on_cycle(
                links_of(graph_edges(*g)),
                node as int,
            ),
        },
        grown_in_order(*g) ==> sort_told(graph_nodes(*g).len(), graph_edges(*g)) == (match r {
            Ok(order) => Ok(as_ints(order@)),
            Err(node) => Err(node as int),
        }),
{
    match toposort(g, None) {
        Ok(order) => Ok(order.into_iter().map(|i| i.index() as u32).collect()),
        Err(cycle) => Err(cycle.node_id().index() as u32),
    }
}

/// `petgraph::algo::has_path_connecting` without a workspace: whether `to` is reached from `from`,
/// which every node is from itself. The call panics where `from` does not exist.
#[verifier::external_body]
pub(crate) fn path_connects(g: &DiGraph<NodeData, EdgeKind>, from: u32, to: u32) -> (found: bool)
    requires
        from < graph_nodes(*g).len(),
    ensures
        found == reaches(links_of(graph_edges(*g)), from as int, to as int),
{
    has_path_connecting(
        g,
        petgraph::graph::NodeIndex::new(from as usize),
        petgraph::graph::NodeIndex::new(to as usize),
        None,
    )
}

/// Sequences with one multiset have the same members.
proof fn same_members(s: Seq<u32>, t: Seq<u32>, x: u32)
    requires
        s.to_multiset() == t.to_multiset(),
    ensures
        s.contains(x) <==> t.contains(x),
{
    s.to_multiset_ensures();
    t.to_multiset_ensures();
    assert(s.contains(x) <==> s.to_multiset().count(x) > 0);
    assert(t.contains(x) <==> t.to_multiset().count(x) > 0);
}

/// What `sources_into` holds, as links.
pub(crate) proof fn sources_are_links(edges: Seq<Edge>, node: u32, s: Seq<u32>)
    requires
        s.to_multiset() == sources_into(edges, node).to_multiset(),
    ensures
        forall|x: u32|
            #[trigger] s.contains(x) <==> links_of(edges).contains((x as int, node as int)),
{
    broadcast use vstd::seq_lib::group_filter_ensures;

    let keep = |e: Edge| e.to == node;
    let kept = edges.filter(keep);
    let listed = sources_into(edges, node);
    assert forall|x: u32| #[trigger] s.contains(x) <==> links_of(edges).contains(
        (x as int, node as int),
    ) by {
        same_members(s, listed, x);
        if listed.contains(x) {
            let k = listed.index_of(x);
            edges.lemma_filter_contains_rev(keep, kept[k]);
            let i = edges.index_of(kept[k]);
            assert(edges[i].from == x && edges[i].to == node);
        }
        if links_of(edges).contains((x as int, node as int)) {
            let i = choose|i: int|
                0 <= i < edges.len() && (#[trigger] edges[i]).from == x && edges[i].to == node;
            assert(kept.contains(edges[i]));
            let k = kept.index_of(edges[i]);
            assert(listed[k] == x);
        }
    }
}

/// What `targets_from` holds, as links.
pub(crate) proof fn targets_are_links(edges: Seq<Edge>, node: u32, s: Seq<u32>)
    requires
        s.to_multiset() == targets_from(edges, node).to_multiset(),
    ensures
        forall|x: u32|
            #[trigger] s.contains(x) <==> links_of(edges).contains((node as int, x as int)),
{
    broadcast use vstd::seq_lib::group_filter_ensures;

    let keep = |e: Edge| e.from == node;
    let kept = edges.filter(keep);
    let listed = targets_from(edges, node);
    assert forall|x: u32| #[trigger] s.contains(x) <==> links_of(edges).contains(
        (node as int, x as int),
    ) by {
        same_members(s, listed, x);
        if listed.contains(x) {
            let k = listed.index_of(x);
            edges.lemma_filter_contains_rev(keep, kept[k]);
            let i = edges.index_of(kept[k]);
            assert(edges[i].to == x && edges[i].from == node);
        }
        if links_of(edges).contains((node as int, x as int)) {
            let i = choose|i: int|
                0 <= i < edges.len() && (#[trigger] edges[i]).from == node && edges[i].to == x;
            assert(kept.contains(edges[i]));
            let k = kept.index_of(edges[i]);
            assert(listed[k] == x);
        }
    }
}

} // verus!
