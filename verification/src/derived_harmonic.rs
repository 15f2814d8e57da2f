//! The page centrality that is derived from the harmonic centrality of hosts.
//!
//! A page takes part if it has an outgoing edge, if its host is ranked, and if
//! at least one ranked host links to it. Every host votes once for a page,
//! however many of its pages link there. This module decides who takes part
//! and who votes; the scores themselves are sums and quotients of the hosts'
//! centralities, which the caller computes from the votes.

use crate::bloom::{bits_contain, capacity_for, empty_bits, with_items, BloomFilter};
use crate::bloom_map::{
    empty_parts, law_finalize_is_sequential, lemma_inserted_is_contained, parts_with_items,
    BloomMap,
};
use crate::seq_lemmas::{lemma_filter_contains_iff, lemma_filter_push};
use crate::webgraph::{ingoing, resolve, Edge, Node, NodeID, Webgraph};
use std::collections::HashSet;
use vstd::prelude::*;

verus! {

/// The numbers of the pages that the edges start from, in the edges' order.
pub open spec fn sources(edges: Seq<Edge>) -> Seq<u64> {
    edges.map_values(|e: Edge| e.from.0)
}

/// Whether some edge starts from `page`.
pub open spec fn has_outgoing(edges: Seq<Edge>, page: NodeID) -> bool {
    exists|k: int| 0 <= k < edges.len() && (#[trigger] edges[k]).from == page
}

/// The filter of all pages with an outgoing edge: every source of `edges`
/// goes through a map of `num_blooms` partitions, which is then finalized.
/// The result has the bits of a single filter that received the sources in
/// order, and it reports every page that has an outgoing edge.
pub fn source_filter(edges: &Vec<Edge>, num_blooms: usize, num_bits: usize) -> (filter: BloomFilter)
    requires
        num_blooms > 0,
    ensures
        filter.wf(),
        filter@ == with_items(empty_bits(capacity_for(num_bits)), sources(edges@)),
        forall|page: NodeID| has_outgoing(edges@, page) ==> bits_contain(filter@, page.0),
{
    let mut map: BloomMap = BloomMap::new(num_blooms, num_bits);
    let ghost start = empty_parts(num_blooms as nat, capacity_for(num_bits));
    let mut i: usize = 0;
    proof {
        assert(sources(edges@.take(0)) =~= Seq::<u64>::empty());
    }
    while i < edges.len()
        invariant
            i <= edges@.len(),
            map.wf(),
            crate::bloom_map::uniform(map@),
            start == empty_parts(num_blooms as nat, capacity_for(num_bits)),
            map@ == parts_with_items(start, sources(edges@.take(i as int))),
        decreases edges@.len() - i,
    {
        let edge: Edge = edges[i];
        proof {
            let next = sources(edges@.take(i + 1));
            assert(next.drop_last() =~= sources(edges@.take(i as int)));
            assert(next.last() == edge.from.0);
        }
        map.insert(&edge.from);
        i = i + 1;
    }
    let filter: BloomFilter = map.finalize();
    proof {
        assert(edges@.take(i as int) =~= edges@);
        law_finalize_is_sequential(num_blooms as nat, capacity_for(num_bits), sources(edges@));
        assert forall|page: NodeID| has_outgoing(edges@, page) implies bits_contain(
            filter@,
            page.0,
        ) by {
            let k = choose|k: int| 0 <= k < edges@.len() && (#[trigger] edges@[k]).from == page;
            lemma_inserted_is_contained(
                empty_bits(capacity_for(num_bits)),
                sources(edges@),
                k,
            );
        }
    }
    filter
}

/// Whether `host` votes for `page`: some edge arrives at `page` from a node
/// that the graph knows and that lives on `host`.
pub open spec fn votes_for(nodes: Seq<Node>, edges: Seq<Edge>, page: NodeID, host: NodeID) -> bool {
    exists|k: int|
        0 <= k < edges.len() && (#[trigger] edges[k]).to == page && resolve(nodes, edges[k].from)
            == Some(Node { id: edges[k].from, host })
}

/// Strictly increasing by number, hence free of duplicates.
pub open spec fn ascending(ids: Seq<NodeID>) -> bool {
    forall|i: int, j: int| 0 <= i < j < ids.len() ==> ids[i].0 < ids[j].0
}

/// A strictly increasing sequence holds no identifier twice.
pub proof fn lemma_ascending_no_duplicates(ids: Seq<NodeID>)
    requires
        ascending(ids),
    ensures
        ids.no_duplicates(),
{
    assert forall|i: int, j: int| 0 <= i < ids.len() && 0 <= j < ids.len() && i != j implies ids[i]
        != ids[j] by {
        if i < j {
            assert(ids[i].0 < ids[j].0);
        } else {
            assert(ids[j].0 < ids[i].0);
        }
    }
}

/// Puts `id` into the increasing sequence unless it is there already.
fn insert_ascending(ids: &mut Vec<NodeID>, id: NodeID)
    requires
        ascending(old(ids)@),
    ensures
        ascending(final(ids)@),
        forall|h: NodeID| final(ids)@.contains(h) <==> (old(ids)@.contains(h) || h == id),
{
    let mut i: usize = 0;
    while i < ids.len() && ids[i].as_u64() < id.as_u64()
        invariant
            i <= ids@.len(),
            ids@ == old(ids)@,
            forall|j: int| 0 <= j < i ==> ids@[j].0 < id.0,
        decreases ids@.len() - i,
    {
        i = i + 1;
    }
    if i < ids.len() && ids[i].as_u64() == id.as_u64() {
        proof {
            assert(ids@[i as int] == id);
        }
    } else {
        ids.insert(i, id);
        proof {
            let before = old(ids)@;
            let after = ids@;
            assert(after == before.insert(i as int, id));
            assert forall|a: int, b: int| 0 <= a < b < after.len() implies after[a].0
                < after[b].0 by {
                if b < i {
                    assert(after[a] == before[a] && after[b] == before[b]);
                } else if b == i {
                    assert(after[a] == before[a]);
                } else if a < i {
                    assert(after[a] == before[a] && after[b] == before[b - 1]);
                    assert(before[i as int].0 > id.0);
                } else if a == i {
                    assert(after[b] == before[b - 1]);
                    assert(before[i as int].0 > id.0);
                } else {
                    assert(after[a] == before[a - 1] && after[b] == before[b - 1]);
                }
            }
            assert forall|h: NodeID| after.contains(h) <==> (before.contains(h) || h == id) by {
                if after.contains(h) {
                    let k = choose|k: int| 0 <= k < after.len() && after[k] == h;
                    if k < i {
                        assert(before[k] == h);
                    } else if k > i {
                        assert(before[k - 1] == h);
                    }
                }
                if before.contains(h) {
                    let k = choose|k: int| 0 <= k < before.len() && before[k] == h;
                    if k < i {
                        assert(after[k] == h);
                    } else {
                        assert(after[k + 1] == h);
                    }
                }
                if h == id {
                    assert(after[i as int] == h);
                }
            }
        }
    }
}

/// Whether one of `sources` lives on `host`.
pub open spec fn hosted(sources: Seq<Node>, host: NodeID) -> bool {
    exists|k: int| 0 <= k < sources.len() && (#[trigger] sources[k]).host == host
}

/// The hosts of `sources`, each once, in increasing order.
pub fn distinct_hosts(sources: &Vec<Node>) -> (hosts: Vec<NodeID>)
    ensures
        ascending(hosts@),
        forall|h: NodeID| hosts@.contains(h) <==> hosted(sources@, h),
{
    let mut hosts: Vec<NodeID> = Vec::new();
    let mut i: usize = 0;
    while i < sources.len()
        invariant
            i <= sources@.len(),
            ascending(hosts@),
            forall|h: NodeID| hosts@.contains(h) <==> hosted(sources@.take(i as int), h),
        decreases sources@.len() - i,
    {
        let ghost before = hosts@;
        let ghost seen = sources@.take(i as int);
        let host: NodeID = sources[i].into_host().id();
        insert_ascending(&mut hosts, host);
        proof {
            let next = sources@.take(i + 1);
            assert forall|h: NodeID| hosts@.contains(h) <==> hosted(next, h) by {
                if hosted(seen, h) {
                    let k = choose|k: int| 0 <= k < seen.len() && (#[trigger] seen[k]).host == h;
                    assert(next[k].host == h);
                }
                if h == host {
                    assert(next[i as int].host == h);
                }
                if hosted(next, h) {
                    let k = choose|k: int| 0 <= k < next.len() && (#[trigger] next[k]).host == h;
                    if k < i {
                        assert(seen[k].host == h);
                    }
                }
            }
        }
        i = i + 1;
    }
    proof {
        assert(sources@.take(i as int) =~= sources@);
    }
    hosts
}

/// The known nodes from which an edge arrives at `page`, one for every such
/// edge, in the order of the edges.
fn resolved_sources(graph: &Webgraph, page: &NodeID) -> (sources: Vec<Node>)
    ensures
        forall|h: NodeID| hosted(sources@, h) <==> votes_for(graph.nodes@, graph.edges@, *page, h),
{
    let arriving: Vec<Edge> = graph.raw_ingoing_edges(page);
    let mut sources: Vec<Node> = Vec::new();
    let mut i: usize = 0;
    while i < arriving.len()
        invariant
            i <= arriving@.len(),
            arriving@ == ingoing(graph.edges@, *page),
            forall|h: NodeID|
                hosted(sources@, h) <==> exists|k: int|
                    0 <= k < i && resolve(graph.nodes@, (#[trigger] arriving@[k]).from) == Some(
                        Node { id: arriving@[k].from, host: h },
                    ),
        decreases arriving@.len() - i,
    {
        let edge: Edge = arriving[i];
        let ghost before = sources@;
        match graph.id2node(&edge.from) {
            Some(node) => {
                sources.push(node);
                proof {
                    assert(node.id == edge.from);
                    assert forall|h: NodeID| hosted(sources@, h) <==> exists|k: int|
                        0 <= k < i + 1 && resolve(graph.nodes@, (#[trigger] arriving@[k]).from)
                            == Some(Node { id: arriving@[k].from, host: h }) by {
                        if hosted(before, h) {
                            let j = choose|j: int|
                                0 <= j < before.len() && (#[trigger] before[j]).host == h;
                            assert(sources@[j].host == h);
                            let k = choose|k: int|
                                0 <= k < i && resolve(
                                    graph.nodes@,
                                    (#[trigger] arriving@[k]).from,
                                ) == Some(Node { id: arriving@[k].from, host: h });
                        }
                        if h == node.host {
                            assert(sources@[before.len() as int].host == h);
                            assert(resolve(graph.nodes@, arriving@[i as int].from) == Some(
                                Node { id: arriving@[i as int].from, host: h },
                            ));
                        }
                        if hosted(sources@, h) {
                            let j = choose|j: int|
                                0 <= j < sources@.len() && (#[trigger] sources@[j]).host == h;
                            if j < before.len() {
                                assert(before[j].host == h);
                            }
                        }
                    }
                }
            },
            None => {
                proof {
                    assert forall|h: NodeID| hosted(sources@, h) <==> exists|k: int|
                        0 <= k < i + 1 && resolve(graph.nodes@, (#[trigger] arriving@[k]).from)
                            == Some(Node { id: arriving@[k].from, host: h }) by {
                        if hosted(sources@, h) {
                            let k = choose|k: int|
                                0 <= k < i && resolve(
                                    graph.nodes@,
                                    (#[trigger] arriving@[k]).from,
                                ) == Some(Node { id: arriving@[k].from, host: h });
                        }
                    }
                }
            },
        }
        i = i + 1;
    }
    proof {
        let pred = |e: Edge| e.to == *page;
        assert forall|h: NodeID| hosted(sources@, h) <==> votes_for(
            graph.nodes@,
            graph.edges@,
            *page,
            h,
        ) by {
            if hosted(sources@, h) {
                let k = choose|k: int|
                    0 <= k < i && resolve(graph.nodes@, (#[trigger] arriving@[k]).from) == Some(
                        Node { id: arriving@[k].from, host: h },
                    );
                let e = arriving@[k];
                assert(arriving@.contains(e));
                lemma_filter_contains_iff(graph.edges@, pred, e);
                let m = choose|m: int| 0 <= m < graph.edges@.len() && graph.edges@[m] == e;
                assert(graph.edges@[m].to == *page);
            }
            if votes_for(graph.nodes@, graph.edges@, *page, h) {
                let m = choose|m: int|
                    0 <= m < graph.edges@.len() && (#[trigger] graph.edges@[m]).to == *page
                        && resolve(graph.nodes@, graph.edges@[m].from) == Some(
                        Node { id: graph.edges@[m].from, host: h },
                    );
                let e = graph.edges@[m];
                assert(graph.edges@.contains(e));
                lemma_filter_contains_iff(graph.edges@, pred, e);
                let k = choose|k: int| 0 <= k < arriving@.len() && arriving@[k] == e;
                assert(resolve(graph.nodes@, arriving@[k].from) == Some(
                    Node { id: arriving@[k].from, host: h },
                ));
            }
        }
    }
    sources
}

/// The hosts that vote for `page`, each once, in increasing order: the hosts
/// of the known nodes from which an edge arrives at `page`.
pub fn voting_hosts(graph: &Webgraph, page: &NodeID) -> (hosts: Vec<NodeID>)
    ensures
        ascending(hosts@),
        forall|h: NodeID| hosts@.contains(h) <==> votes_for(graph.nodes@, graph.edges@, *page, h),
{
    let sources: Vec<Node> = resolved_sources(graph, page);
    distinct_hosts(&sources)
}

/// The hosts that have a harmonic centrality. A host that is missing here is
/// not ranked.
pub struct RankedHosts {
    ids: HashSet<u64>,
}

impl View for RankedHosts {
    type V = Set<NodeID>;

    closed spec fn view(&self) -> Set<NodeID> {
        Set::new(|h: NodeID| self.ids@.contains(h.0))
    }
}

impl RankedHosts {
    /// No host is ranked.
    pub fn new() -> (ranked: RankedHosts)
        ensures
            ranked@ == Set::<NodeID>::empty(),
    {
        broadcast use vstd::std_specs::hash::group_hash_axioms;

        let ranked = RankedHosts { ids: HashSet::new() };
        assert(ranked@ =~= Set::<NodeID>::empty());
        ranked
    }

    /// Ranks `host`.
    pub fn insert(&mut self, host: NodeID)
        ensures
            final(self)@ == old(self)@.insert(host),
    {
        broadcast use vstd::std_specs::hash::group_hash_axioms;

        self.ids.insert(host.as_u64());
        assert(self@ =~= old(self)@.insert(host));
    }

    /// Whether `host` is ranked.
    pub fn contains(&self, host: &NodeID) -> (found: bool)
        ensures
            found == self@.contains(*host),
    {
        broadcast use vstd::std_specs::hash::group_hash_axioms;

        let raw: u64 = host.as_u64();
        self.ids.contains(&raw)
    }
}

/// Whether the ranked host `host` votes for `page`.
pub open spec fn ranked_vote(
    nodes: Seq<Node>,
    edges: Seq<Edge>,
    ranked: Set<NodeID>,
    page: NodeID,
    host: NodeID,
) -> bool {
    ranked.contains(host) && votes_for(nodes, edges, page, host)
}

/// Whether `node` gets a score: the filter of sources reports it, its host is
/// ranked, and at least one ranked host votes for it.
pub open spec fn takes_part(
    nodes: Seq<Node>,
    edges: Seq<Edge>,
    ranked: Set<NodeID>,
    bits: Seq<bool>,
    node: Node,
) -> bool {
    &&& bits_contain(bits, node.id.0)
    &&& ranked.contains(node.host)
    &&& exists|h: NodeID| ranked_vote(nodes, edges, ranked, node.id, h)
}

/// `takes_part` as a predicate on nodes.
pub open spec fn taking_part(
    nodes: Seq<Node>,
    edges: Seq<Edge>,
    ranked: Set<NodeID>,
    bits: Seq<bool>,
) -> spec_fn(Node) -> bool {
    |node: Node| takes_part(nodes, edges, ranked, bits, node)
}

/// The votes for one page: the page, its host, and the ranked hosts that vote
/// for it, each once, in increasing order.
pub struct PageVotes {
    pub id: NodeID,
    pub host: NodeID,
    pub voters: Vec<NodeID>,
}

impl PageVotes {
    /// Whether these are the votes for `node` in the given graph.
    pub open spec fn describes(
        &self,
        nodes: Seq<Node>,
        edges: Seq<Edge>,
        ranked: Set<NodeID>,
        node: Node,
    ) -> bool {
        &&& self.id == node.id
        &&& self.host == node.host
        &&& ascending(self.voters@)
        &&& forall|h: NodeID|
            self.voters@.contains(h) <==> ranked_vote(nodes, edges, ranked, node.id, h)
    }
}

/// The hosts of `hosts` that are ranked, in their order.
fn keep_ranked(hosts: &Vec<NodeID>, ranked: &RankedHosts) -> (kept: Vec<NodeID>)
    requires
        ascending(hosts@),
    ensures
        ascending(kept@),
        forall|h: NodeID| kept@.contains(h) <==> (hosts@.contains(h) && ranked@.contains(h)),
{
    let mut kept: Vec<NodeID> = Vec::new();
    let mut i: usize = 0;
    while i < hosts.len()
        invariant
            i <= hosts@.len(),
            ascending(hosts@),
            ascending(kept@),
            forall|j: int|
                0 <= j < kept@.len() ==> exists|k: int| 0 <= k < i && hosts@[k] == #[trigger] kept@[j],
            forall|k: int|
                0 <= k < i && ranked@.contains(hosts@[k]) ==> kept@.contains(#[trigger] hosts@[k]),
            forall|j: int| 0 <= j < kept@.len() ==> ranked@.contains(#[trigger] kept@[j]),
        decreases hosts@.len() - i,
    {
        let host: NodeID = hosts[i];
        if ranked.contains(&host) {
            let ghost before = kept@;
            kept.push(host);
            proof {
                assert forall|a: int, b: int| 0 <= a < b < kept@.len() implies kept@[a].0
                    < kept@[b].0 by {
                    if b == before.len() {
                        let k = choose|k: int| 0 <= k < i && hosts@[k] == #[trigger] before[a];
                        assert(hosts@[k].0 < hosts@[i as int].0);
                    } else {
                        assert(before[a].0 < before[b].0);
                    }
                }
                assert forall|j: int| 0 <= j < kept@.len() implies exists|k: int|
                    0 <= k < i + 1 && hosts@[k] == #[trigger] kept@[j] by {
                    if j < before.len() {
                        let k = choose|k: int| 0 <= k < i && hosts@[k] == #[trigger] before[j];
                        assert(hosts@[k] == kept@[j]);
                    } else {
                        assert(hosts@[i as int] == kept@[j]);
                    }
                }
                assert forall|k: int|
                    0 <= k < i + 1 && ranked@.contains(hosts@[k]) implies kept@.contains(
                    #[trigger] hosts@[k],
                ) by {
                    if k < i {
                        let j = choose|j: int| 0 <= j < before.len() && before[j] == hosts@[k];
                        assert(kept@[j] == hosts@[k]);
                    } else {
                        assert(kept@[before.len() as int] == hosts@[k]);
                    }
                }
            }
        }
        i = i + 1;
    }
    proof {
        assert forall|h: NodeID| kept@.contains(h) <==> (hosts@.contains(h) && ranked@.contains(
            h,
        )) by {
            if kept@.contains(h) {
                let j = choose|j: int| 0 <= j < kept@.len() && kept@[j] == h;
                let k = choose|k: int| 0 <= k < i && hosts@[k] == #[trigger] kept@[j];
                assert(hosts@[k] == h);
            }
            if hosts@.contains(h) && ranked@.contains(h) {
                let k = choose|k: int| 0 <= k < hosts@.len() && hosts@[k] == h;
                assert(kept@.contains(hosts@[k]));
            }
        }
    }
    kept
}

/// The votes for `node`, to which edges arrive from the nodes `sources`, or
/// `None` if the node gets no score: if the filter does not report it, if its
/// host is not ranked, or if no ranked host is among the hosts of `sources`.
/// The voters are the ranked hosts of `sources`, each once, in increasing
/// order.
pub fn page_votes_among(
    ranked: &RankedHosts,
    filter: &BloomFilter,
    node: &Node,
    sources: &Vec<Node>,
) -> (votes: Option<PageVotes>)
    requires
        filter.wf(),
    ensures
        votes is Some <==> bits_contain(filter@, node.id.0) && ranked@.contains(node.host) && exists|
            h: NodeID,
        | ranked@.contains(h) && hosted(sources@, h),
        votes matches Some(v) ==> v.id == node.id && v.host == node.host && ascending(v.voters@)
            && forall|h: NodeID|
            v.voters@.contains(h) <==> ranked@.contains(h) && hosted(sources@, h),
{
    let id: NodeID = node.id();
    if !filter.contains(id.as_u64()) {
        return None;
    }
    let host: NodeID = node.into_host().id();
    if !ranked.contains(&host) {
        return None;
    }
    let hosts: Vec<NodeID> = distinct_hosts(sources);
    let voters: Vec<NodeID> = keep_ranked(&hosts, ranked);
    if voters.len() == 0 {
        proof {
            assert forall|h: NodeID| !(ranked@.contains(h) && hosted(sources@, h)) by {
                if ranked@.contains(h) && hosted(sources@, h) {
                    assert(voters@.contains(h));
                }
            }
        }
        None
    } else {
        proof {
            let h = voters@[0];
            assert(voters@.contains(h));
            assert(ranked@.contains(h) && hosted(sources@, h));
        }
        Some(PageVotes { id, host, voters })
    }
}

/// The votes for `node`, or `None` if the node gets no score.
pub fn page_votes(graph: &Webgraph, ranked: &RankedHosts, filter: &BloomFilter, node: &Node) -> (votes:
    Option<PageVotes>)
    requires
        filter.wf(),
    ensures
        votes is Some <==> takes_part(graph.nodes@, graph.edges@, ranked@, filter@, *node),
        votes matches Some(v) ==> v.describes(graph.nodes@, graph.edges@, ranked@, *node),
{
    let sources: Vec<Node> = resolved_sources(graph, &node.id);
    let votes: Option<PageVotes> = page_votes_among(ranked, filter, node, &sources);
    proof {
        if exists|h: NodeID| ranked@.contains(h) && hosted(sources@, h) {
            let h = choose|h: NodeID| ranked@.contains(h) && hosted(sources@, h);
            assert(ranked_vote(graph.nodes@, graph.edges@, ranked@, node.id, h));
        }
        if exists|h: NodeID| ranked_vote(graph.nodes@, graph.edges@, ranked@, node.id, h) {
            let h = choose|h: NodeID| ranked_vote(graph.nodes@, graph.edges@, ranked@, node.id, h);
            assert(ranked@.contains(h) && hosted(sources@, h));
        }
    }
    votes
}

/// The votes for every node that gets a score, in the order of the graph's
/// nodes.
pub fn collect_votes(graph: &Webgraph, ranked: &RankedHosts, filter: &BloomFilter) -> (plan: Vec<
    PageVotes,
>)
    requires
        filter.wf(),
    ensures
        plan@.len() == graph.nodes@.filter(
            taking_part(graph.nodes@, graph.edges@, ranked@, filter@),
        ).len(),
        forall|k: int|
            0 <= k < plan@.len() ==> (#[trigger] plan@[k]).describes(
                graph.nodes@,
                graph.edges@,
                ranked@,
                graph.nodes@.filter(taking_part(graph.nodes@, graph.edges@, ranked@, filter@))[k],
            ),
{
    let ghost pred = taking_part(graph.nodes@, graph.edges@, ranked@, filter@);
    let mut plan: Vec<PageVotes> = Vec::new();
    let mut i: usize = 0;
    proof {
        assert(graph.nodes@.take(0) =~= Seq::<Node>::empty());
    }
    while i < graph.nodes.len()
        invariant
            i <= graph.nodes@.len(),
            filter.wf(),
            pred == taking_part(graph.nodes@, graph.edges@, ranked@, filter@),
            plan@.len() == graph.nodes@.take(i as int).filter(pred).len(),
            forall|k: int|
                0 <= k < plan@.len() ==> (#[trigger] plan@[k]).describes(
                    graph.nodes@,
                    graph.edges@,
                    ranked@,
                    graph.nodes@.take(i as int).filter(pred)[k],
                ),
        decreases graph.nodes@.len() - i,
    {
        let node: Node = graph.nodes[i];
        proof {
            assert(graph.nodes@.take(i + 1) =~= graph.nodes@.take(i as int).push(node));
            lemma_filter_push(graph.nodes@.take(i as int), node, pred);
        }
        match page_votes(graph, ranked, filter, &node) {
            Some(votes) => {
                plan.push(votes);
            },
            None => {},
        }
        i = i + 1;
    }
    proof {
        assert(graph.nodes@.take(i as int) =~= graph.nodes@);
    }
    plan
}

/// Who gets a score. A node with an outgoing edge, a ranked host and a vote
/// of a ranked host takes part, whatever else the filter of sources reports;
/// and where that filter reports `node` only because it has an outgoing edge,
/// the node takes part exactly under these three conditions.
pub proof fn law_presence(
    nodes: Seq<Node>,
    edges: Seq<Edge>,
    ranked: Set<NodeID>,
    num_bits: nat,
    node: Node,
)
    requires
        num_bits > 0,
    ensures
        ({
            let bits = with_items(empty_bits(num_bits), sources(edges));
            let wanted = has_outgoing(edges, node.id) && ranked.contains(node.host) && exists|
                h: NodeID,
            | ranked_vote(nodes, edges, ranked, node.id, h);
            &&& wanted ==> takes_part(nodes, edges, ranked, bits, node)
            &&& (bits_contain(bits, node.id.0) ==> has_outgoing(edges, node.id)) ==> (takes_part(
                nodes,
                edges,
                ranked,
                bits,
                node,
            ) <==> wanted)
        }),
{
    if has_outgoing(edges, node.id) {
        let k = choose|k: int| 0 <= k < edges.len() && (#[trigger] edges[k]).from == node.id;
        lemma_inserted_is_contained(empty_bits(num_bits), sources(edges), k);
    }
}

/// What a build holds: it has an entry for an identifier exactly if a node
/// of the graph carries that identifier and takes part.
pub proof fn law_entry_iff_takes_part(
    built: DerivedCentrality,
    nodes: Seq<Node>,
    edges: Seq<Edge>,
    ranked: Set<NodeID>,
    filter_bits: usize,
    id: NodeID,
)
    requires
        built.built_from(nodes, edges, ranked, filter_bits),
    ensures
        (exists|k: int| 0 <= k < built@.len() && (#[trigger] built@[k]).id == id) <==> (exists|
            i: int,
        |
            0 <= i < nodes.len() && (#[trigger] nodes[i]).id == id && takes_part(
                nodes,
                edges,
                ranked,
                with_items(empty_bits(capacity_for(filter_bits)), sources(edges)),
                nodes[i],
            )),
{
    let bits = with_items(empty_bits(capacity_for(filter_bits)), sources(edges));
    let pred = taking_part(nodes, edges, ranked, bits);
    let scored = nodes.filter(pred);
    if exists|k: int| 0 <= k < built@.len() && (#[trigger] built@[k]).id == id {
        let k = choose|k: int| 0 <= k < built@.len() && (#[trigger] built@[k]).id == id;
        assert(built@[k].describes(nodes, edges, ranked, scored[k]));
        assert(scored.contains(scored[k]));
        lemma_filter_contains_iff(nodes, pred, scored[k]);
        let i = choose|i: int| 0 <= i < nodes.len() && nodes[i] == scored[k];
        assert(nodes[i].id == id);
    }
    if exists|i: int|
        0 <= i < nodes.len() && (#[trigger] nodes[i]).id == id && takes_part(
            nodes,
            edges,
            ranked,
            bits,
            nodes[i],
        ) {
        let i = choose|i: int|
            0 <= i < nodes.len() && (#[trigger] nodes[i]).id == id && takes_part(
                nodes,
                edges,
                ranked,
                bits,
                nodes[i],
            );
        assert(nodes.contains(nodes[i]));
        lemma_filter_contains_iff(nodes, pred, nodes[i]);
        let k = choose|k: int| 0 <= k < scored.len() && scored[k] == nodes[i];
        assert(built@[k].describes(nodes, edges, ranked, scored[k]));
    }
}

/// Every host votes at most once for a page: the voters of a page hold no
/// host twice, however many edges arrive from it.
pub proof fn law_one_vote_per_host(
    votes: PageVotes,
    nodes: Seq<Node>,
    edges: Seq<Edge>,
    ranked: Set<NodeID>,
    node: Node,
)
    requires
        votes.describes(nodes, edges, ranked, node),
    ensures
        votes.voters@.no_duplicates(),
{
    lemma_ascending_no_duplicates(votes.voters@);
}

/// Why a build failed.
#[derive(Clone, Copy, Debug, PartialEq, Eq, Structural, Hash)]
pub enum BuildError {
    /// The output path exists already.
    AlreadyExists,
    /// Reading or writing a store failed.
    Io,
    /// Walking the graph failed.
    Graph,
}

impl BuildError {
    /// The text that describes the error.
    pub fn message(&self) -> (text: String)
        ensures
            text@ == match *self {
                BuildError::AlreadyExists => "output path already exists"@,
                BuildError::Io => "could not read or write a store"@,
                BuildError::Graph => "could not walk the graph"@,
            },
    {
        match self {
            BuildError::AlreadyExists => "output path already exists".to_owned(),
            BuildError::Io => "could not read or write a store".to_owned(),
            BuildError::Graph => "could not walk the graph".to_owned(),
        }
    }
}

/// The partitions of the filter of sources.
pub const SOURCE_FILTER_PARTITIONS: usize = 8;

/// The pages of a graph that get a score, each with the votes from which its
/// score derives, in the order of the graph's nodes.
pub struct DerivedCentrality {
    votes: Vec<PageVotes>,
}

impl View for DerivedCentrality {
    type V = Seq<PageVotes>;

    closed spec fn view(&self) -> Seq<PageVotes> {
        self.votes@
    }
}

impl DerivedCentrality {
    /// Whether these are the votes of the given graph under the given ranked
    /// hosts, with a filter of sources made for `filter_bits` bits: one entry
    /// for every node that takes part, in the order of the nodes.
    pub open spec fn built_from(
        &self,
        nodes: Seq<Node>,
        edges: Seq<Edge>,
        ranked: Set<NodeID>,
        filter_bits: usize,
    ) -> bool {
        let bits = with_items(empty_bits(capacity_for(filter_bits)), sources(edges));
        let scored = nodes.filter(taking_part(nodes, edges, ranked, bits));
        &&& self@.len() == scored.len()
        &&& forall|k: int|
            0 <= k < self@.len() ==> (#[trigger] self@[k]).describes(nodes, edges, ranked, scored[k])
    }

    /// Builds the votes of `page_graph` under the ranked hosts
    /// `host_harmonic`. The build refuses to replace an output that exists:
    /// it fails with `AlreadyExists` exactly if `output_exists`.
    pub fn build(
        host_harmonic: &RankedHosts,
        page_graph: &Webgraph,
        filter_bits: usize,
        output_exists: bool,
    ) -> (built: Result<DerivedCentrality, BuildError>)
        ensures
            output_exists ==> built == Err::<DerivedCentrality, BuildError>(
                BuildError::AlreadyExists,
            ),
            !output_exists ==> built is Ok && built->Ok_0.built_from(
                page_graph.nodes@,
                page_graph.edges@,
                host_harmonic@,
                filter_bits,
            ),
    {
        if output_exists {
            return Err(BuildError::AlreadyExists);
        }
        let has_outgoing: BloomFilter = source_filter(
            &page_graph.edges,
            SOURCE_FILTER_PARTITIONS,
            filter_bits,
        );
        let votes: Vec<PageVotes> = collect_votes(page_graph, host_harmonic, &has_outgoing);
        Ok(DerivedCentrality { votes })
    }

    /// The votes of the page `node`: the first entry that carries its
    /// identifier, or nothing if the page gets no score.
    pub fn get(&self, node: &NodeID) -> (found: Option<&PageVotes>)
        ensures
            match found {
                Some(votes) => exists|k: int|
                    0 <= k < self@.len() && *votes == #[trigger] self@[k] && self@[k].id == *node
                        && forall|j: int| 0 <= j < k ==> self@[j].id != *node,
                None => forall|k: int| 0 <= k < self@.len() ==> self@[k].id != *node,
            },
    {
        let mut i: usize = 0;
        while i < self.votes.len()
            invariant
                i <= self.votes@.len(),
                forall|j: int| 0 <= j < i ==> self.votes@[j].id != *node,
            decreases self.votes@.len() - i,
        {
            if self.votes[i].id == *node {
                let found: &PageVotes = &self.votes[i];
                proof {
                    assert(*found == self@[i as int]);
                }
                return Some(found);
            }
            i = i + 1;
        }
        None
    }

    /// All entries, in order.
    pub fn entries(&self) -> (entries: &Vec<PageVotes>)
        ensures
            entries@ == self@,
    {
        &self.votes
    }
}

/// Where a build stands. Each stage but the last two names the work that is
/// done next.
#[derive(Clone, Copy, Debug, PartialEq, Eq, Structural, Hash)]
pub enum BuildStage {
    /// Look whether the output path exists.
    CheckOutput,
    /// Put the source of every edge into the filter.
    FilterSources,
    /// Write the score of every page that takes part to the staging store,
    /// and note the largest sum of votes of every host.
    ScorePages,
    /// Write every staged score, divided by the note of its host, to the
    /// final store, and flush it.
    Normalize,
    /// Delete the staging store.
    RemoveStaging,
    /// The final store is built.
    Finished,
    /// The build failed. Nothing more is done; what was written stays.
    Failed(BuildError),
}

/// What happened to the work of a stage.
#[derive(Clone, Copy, Debug, PartialEq, Eq, Structural, Hash)]
pub enum BuildEvent {
    /// The output path exists.
    OutputExists,
    /// The output path is free.
    OutputFree,
    /// The work of the stage is done.
    Completed,
    /// A store could not be read or written.
    IoFailed,
    /// The graph could not be walked.
    GraphFailed,
}

impl BuildStage {
    /// Whether the work of the stage writes to the output path.
    pub open spec fn writes(self) -> bool {
        self == BuildStage::ScorePages || self == BuildStage::Normalize || self
            == BuildStage::RemoveStaging
    }

    /// The stage that follows `self` on `event`. A failure ends the build in
    /// every stage that does work; a report that does not fit the stage
    /// changes nothing.
    pub open spec fn after(self, event: BuildEvent) -> BuildStage {
        match (self, event) {
            (BuildStage::Finished, _) => self,
            (BuildStage::Failed(_), _) => self,
            (_, BuildEvent::IoFailed) => BuildStage::Failed(BuildError::Io),
            (_, BuildEvent::GraphFailed) => BuildStage::Failed(BuildError::Graph),
            (BuildStage::CheckOutput, BuildEvent::OutputExists) => BuildStage::Failed(
                BuildError::AlreadyExists,
            ),
            (BuildStage::CheckOutput, BuildEvent::OutputFree) => BuildStage::FilterSources,
            (BuildStage::FilterSources, BuildEvent::Completed) => BuildStage::ScorePages,
            (BuildStage::ScorePages, BuildEvent::Completed) => BuildStage::Normalize,
            (BuildStage::Normalize, BuildEvent::Completed) => BuildStage::RemoveStaging,
            (BuildStage::RemoveStaging, BuildEvent::Completed) => BuildStage::Finished,
            _ => self,
        }
    }

    /// The stage in which a build starts.
    pub fn start() -> (stage: BuildStage)
        ensures
            stage == BuildStage::CheckOutput,
    {
        BuildStage::CheckOutput
    }

    /// The stage that follows `self` on `event`.
    pub fn advance(self, event: BuildEvent) -> (next: BuildStage)
        ensures
            next == self.after(event),
    {
        match self {
            BuildStage::Finished => self,
            BuildStage::Failed(_) => self,
            _ => match event {
                BuildEvent::IoFailed => BuildStage::Failed(BuildError::Io),
                BuildEvent::GraphFailed => BuildStage::Failed(BuildError::Graph),
                BuildEvent::OutputExists => match self {
                    BuildStage::CheckOutput => BuildStage::Failed(BuildError::AlreadyExists),
                    _ => self,
                },
                BuildEvent::OutputFree => match self {
                    BuildStage::CheckOutput => BuildStage::FilterSources,
                    _ => self,
                },
                BuildEvent::Completed => match self {
                    BuildStage::FilterSources => BuildStage::ScorePages,
                    BuildStage::ScorePages => BuildStage::Normalize,
                    BuildStage::Normalize => BuildStage::RemoveStaging,
                    BuildStage::RemoveStaging => BuildStage::Finished,
                    _ => self,
                },
            },
        }
    }

    /// The result of the build in this stage: `Ok` once it is finished, the
    /// error once it has failed, nothing while it runs.
    pub fn result(self) -> (result: Option<Result<(), BuildError>>)
        ensures
            result == match self {
                BuildStage::Finished => Some(Ok::<(), BuildError>(())),
                BuildStage::Failed(error) => Some(Err::<(), BuildError>(error)),
                _ => None::<Result<(), BuildError>>,
            },
    {
        match self {
            BuildStage::Finished => Some(Ok(())),
            BuildStage::Failed(error) => Some(Err(error)),
            _ => None,
        }
    }
}

/// The stage of a build after the given events.
pub open spec fn stage_after(events: Seq<BuildEvent>) -> BuildStage
    decreases events.len(),
{
    if events.len() == 0 {
        BuildStage::CheckOutput
    } else {
        stage_after(events.drop_last()).after(events.last())
    }
}

/// A build that has failed stays failed with the same error, whatever is
/// reported afterwards. In particular the staging store is never deleted
/// after a failure.
pub proof fn law_failure_is_final(events: Seq<BuildEvent>, n: int, error: BuildError)
    requires
        0 <= n <= events.len(),
        stage_after(events.take(n)) == BuildStage::Failed(error),
    ensures
        stage_after(events) == BuildStage::Failed(error),
    decreases events.len() - n,
{
    if n == events.len() {
        assert(events.take(n) =~= events);
    } else {
        assert(events.take(n + 1).drop_last() =~= events.take(n));
        law_failure_is_final(events, n + 1, error);
    }
}

/// A build to a path that exists fails with `AlreadyExists` and never
/// reaches a stage that writes: whatever is reported after the check, the
/// build is in no other stage than this failure.
pub proof fn law_existing_output_is_kept(events: Seq<BuildEvent>, n: int)
    requires
        events.len() > 0,
        events[0] == BuildEvent::OutputExists,
        1 <= n <= events.len(),
    ensures
        stage_after(events.take(n)) == BuildStage::Failed(BuildError::AlreadyExists),
        !stage_after(events.take(n)).writes(),
{
    let prefix = events.take(n);
    assert(prefix.take(1).drop_last() =~= Seq::<BuildEvent>::empty());
    assert(stage_after(prefix.take(1).drop_last()) == BuildStage::CheckOutput);
    assert(prefix.take(1).last() == BuildEvent::OutputExists);
    law_failure_is_final(prefix, 1, BuildError::AlreadyExists);
}

/// The staging store is deleted only after everything else succeeded: a
/// build reaches the stage that removes it only from normalizing, and only
/// on the report that normalizing is done.
pub proof fn law_staging_removed_after_success(stage: BuildStage, event: BuildEvent)
    requires
        stage != BuildStage::RemoveStaging,
        stage.after(event) == BuildStage::RemoveStaging,
    ensures
        stage == BuildStage::Normalize,
        event == BuildEvent::Completed,
{
}

} // verus!
