//! The page graph as the centrality computation sees it: node identifiers,
//! nodes with their hosts, directed edges, and the two lookups on them.

use crate::seq_lemmas::lemma_filter_push;
use vstd::prelude::*;

verus! {

/// Opaque 64-bit identifier of a node of a web graph.
#[derive(Clone, Copy, Debug, PartialEq, Eq, Structural, Hash, PartialOrd, Ord)]
pub struct NodeID(pub u64);

impl NodeID {
    /// The identifier with the given number.
    pub fn from_u64(raw: u64) -> (id: NodeID)
        ensures
            id == NodeID(raw),
    {
        NodeID(raw)
    }

    /// The number behind the identifier.
    pub fn as_u64(&self) -> (raw: u64)
        ensures
            raw == self.0,
    {
        self.0
    }
}

/// A node of the graph: its own identifier and the identifier of its host.
/// A host node is its own host.
#[derive(Clone, Copy, Debug, PartialEq, Eq, Structural, Hash)]
pub struct Node {
    pub id: NodeID,
    pub host: NodeID,
}

impl Node {
    /// A page with the given identifier on the given host.
    pub fn new(id: NodeID, host: NodeID) -> (node: Node)
        ensures
            node == (Node { id, host }),
    {
        Node { id, host }
    }

    /// The host node of `self`.
    pub open spec fn host_node(self) -> Node {
        Node { id: self.host, host: self.host }
    }

    /// The identifier of the node.
    pub fn id(&self) -> (id: NodeID)
        ensures
            id == self.id,
    {
        self.id
    }

    /// Converts the node into the node of its host.
    pub fn into_host(self) -> (host: Node)
        ensures
            host == self.host_node(),
    {
        Node { id: self.host, host: self.host }
    }
}

/// Converting to the host is idempotent: the host of a host node is that node.
pub proof fn law_into_host_idempotent(node: Node)
    ensures
        node.host_node().host_node() == node.host_node(),
{
}

/// A directed edge between two pages.
#[derive(Clone, Copy, Debug, PartialEq, Eq, Structural, Hash)]
pub struct Edge {
    pub from: NodeID,
    pub to: NodeID,
}

/// The edges of `edges` that arrive at `to`, in their order.
pub open spec fn ingoing(edges: Seq<Edge>, to: NodeID) -> Seq<Edge> {
    edges.filter(|e: Edge| e.to == to)
}

/// Whether `i` is the position of the first node of `nodes` with identifier `id`.
pub open spec fn first_with_id(nodes: Seq<Node>, id: NodeID, i: int) -> bool {
    &&& 0 <= i < nodes.len()
    &&& nodes[i].id == id
    &&& forall|j: int| 0 <= j < i ==> nodes[j].id != id
}

/// The node that `id` resolves to: the first node of `nodes` that carries it.
pub open spec fn resolve(nodes: Seq<Node>, id: NodeID) -> Option<Node> {
    if exists|i: int| first_with_id(nodes, id, i) {
        Some(nodes[choose|i: int| first_with_id(nodes, id, i)])
    } else {
        None
    }
}

/// Two positions that are both the first with one identifier are one position.
pub proof fn lemma_first_with_id_unique(nodes: Seq<Node>, id: NodeID, i: int, j: int)
    requires
        first_with_id(nodes, id, i),
        first_with_id(nodes, id, j),
    ensures
        i == j,
{
}

/// A snapshot of a page graph.
pub struct Webgraph {
    pub nodes: Vec<Node>,
    pub edges: Vec<Edge>,
}

impl Webgraph {
    /// The graph with the given nodes and edges.
    pub fn new(nodes: Vec<Node>, edges: Vec<Edge>) -> (graph: Webgraph)
        ensures
            graph.nodes == nodes,
            graph.edges == edges,
    {
        Webgraph { nodes, edges }
    }

    /// The edges that arrive at `id`, in the order of the graph.
    pub fn raw_ingoing_edges(&self, id: &NodeID) -> (found: Vec<Edge>)
        ensures
            found@ == ingoing(self.edges@, *id),
    {
        let mut found: Vec<Edge> = Vec::new();
        let mut i: usize = 0;
        while i < self.edges.len()
            invariant
                i <= self.edges@.len(),
                found@ == ingoing(self.edges@.take(i as int), *id),
            decreases self.edges@.len() - i,
        {
            let edge: Edge = self.edges[i];
            proof {
                let before = self.edges@.take(i as int);
                assert(self.edges@.take(i + 1) =~= before.push(edge));
                lemma_filter_push(before, edge, |e: Edge| e.to == *id);
            }
            if edge.to == *id {
                found.push(edge);
            }
            i = i + 1;
        }
        assert(self.edges@.take(i as int) =~= self.edges@);
        found
    }

    /// The node that `id` resolves to, if the graph has one.
    pub fn id2node(&self, id: &NodeID) -> (node: Option<Node>)
        ensures
            node == resolve(self.nodes@, *id),
    {
        let mut i: usize = 0;
        while i < self.nodes.len()
            invariant
                i <= self.nodes@.len(),
                forall|j: int| 0 <= j < i ==> self.nodes@[j].id != *id,
            decreases self.nodes@.len() - i,
        {
            let node: Node = self.nodes[i];
            if node.id == *id {
                proof {
                    assert(first_with_id(self.nodes@, *id, i as int));
                    let c = choose|k: int| first_with_id(self.nodes@, *id, k);
                    lemma_first_with_id_unique(self.nodes@, *id, i as int, c);
                }
                return Some(node);
            }
            i = i + 1;
        }
        None
    }
}

} // verus!
