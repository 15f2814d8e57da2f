use stract_core::bloom::BloomFilter;
use stract_core::derived_harmonic::{
    collect_votes, distinct_hosts, page_votes, page_votes_among, source_filter, voting_hosts,
    BuildError, BuildEvent, BuildStage, DerivedCentrality, PageVotes, RankedHosts,
    SOURCE_FILTER_PARTITIONS,
};
use stract_core::webgraph::{Edge, Node, NodeID, Webgraph};

const HOST_A: u64 = 1000;
const HOST_B: u64 = 2000;
const HOST_C: u64 = 3000;

fn id(raw: u64) -> NodeID {
    NodeID::from_u64(raw)
}

fn page(raw: u64, host: u64) -> Node {
    Node::new(id(raw), id(host))
}

fn edge(from: u64, to: u64) -> Edge {
    Edge { from: id(from), to: id(to) }
}

fn ranked(hosts: &[u64]) -> RankedHosts {
    let mut ranked = RankedHosts::new();
    for host in hosts {
        ranked.insert(id(*host));
    }
    ranked
}

/// p1@hostA -> p2@hostB, p3@hostA -> p2@hostB
fn toy_graph() -> Webgraph {
    Webgraph::new(
        vec![page(1, HOST_A), page(2, HOST_B), page(3, HOST_A)],
        vec![edge(1, 2), edge(3, 2)],
    )
}

/// The scores that follow from the votes: the centrality of the page's host
/// times the sum over its voters, divided by the largest sum of its host.
fn scores(plan: &[PageVotes], harmonic: &[(u64, f64)]) -> Vec<(u64, f64)> {
    let rank = |host: &NodeID| harmonic.iter().find(|(h, _)| *h == host.as_u64()).map(|(_, r)| *r);
    let votes: Vec<f64> =
        plan.iter().map(|p| p.voters.iter().filter_map(|v| rank(v)).sum::<f64>()).collect();
    let mut out = Vec::new();
    for (p, v) in plan.iter().zip(votes.iter()) {
        let norm = plan
            .iter()
            .zip(votes.iter())
            .filter(|(q, _)| q.host == p.host)
            .map(|(_, w)| *w)
            .fold(0.0f64, f64::max);
        if norm > 0.0 {
            out.push((p.id.as_u64(), rank(&p.host).unwrap() * v / norm));
        }
    }
    out
}

#[test]
fn node_converts_to_its_host() {
    let node = page(7, HOST_A);
    assert_eq!(node.id(), id(7));
    let host = node.into_host();
    assert_eq!(host.id(), id(HOST_A));
    assert_eq!(host.into_host(), host);
    assert_eq!(id(9).as_u64(), 9);
}

#[test]
fn graph_looks_up_ingoing_edges_and_nodes() {
    let graph = Webgraph::new(
        vec![page(1, HOST_A), page(2, HOST_B), page(1, HOST_C)],
        vec![edge(1, 2), edge(2, 1), edge(3, 2), edge(1, 2)],
    );
    assert_eq!(graph.raw_ingoing_edges(&id(2)), vec![edge(1, 2), edge(3, 2), edge(1, 2)]);
    assert_eq!(graph.raw_ingoing_edges(&id(1)), vec![edge(2, 1)]);
    assert!(graph.raw_ingoing_edges(&id(3)).is_empty());
    assert_eq!(graph.id2node(&id(1)), Some(page(1, HOST_A)));
    assert_eq!(graph.id2node(&id(2)), Some(page(2, HOST_B)));
    assert_eq!(graph.id2node(&id(3)), None);
}

#[test]
fn source_filter_reports_every_page_with_an_outgoing_edge() {
    let edges: Vec<Edge> = (0..200u64).map(|i| edge(i * 7 + 1, i)).collect();
    let filter = source_filter(&edges, 8, 2000);
    assert_eq!(filter.num_bits(), 2048);
    for e in &edges {
        assert!(filter.contains(e.from.as_u64()));
    }
}

#[test]
fn source_filter_has_the_bits_of_a_single_filter() {
    let edges = vec![edge(1, 2), edge(3, 2), edge(1, 5), edge(900, 1)];
    let filter = source_filter(&edges, 8, 500);
    let mut single = BloomFilter::new(500);
    for e in &edges {
        single.insert(e.from.as_u64());
    }
    for i in 0..filter.num_bits() {
        assert_eq!(filter.bit(i), single.bit(i));
    }
    assert!(!filter.contains(2));
}

#[test]
fn source_filter_of_no_edges_is_empty() {
    let filter = source_filter(&Vec::new(), 8, 100);
    assert!((0..filter.num_bits()).all(|i| !filter.bit(i)));
}

#[test]
fn two_edges_from_one_host_are_one_vote() {
    let graph = toy_graph();
    assert_eq!(voting_hosts(&graph, &id(2)), vec![id(HOST_A)]);
    assert!(voting_hosts(&graph, &id(1)).is_empty());
}

#[test]
fn voting_hosts_are_sorted_and_distinct() {
    let graph = Webgraph::new(
        vec![
            page(1, HOST_C),
            page(2, HOST_A),
            page(3, HOST_B),
            page(4, HOST_A),
            page(5, HOST_C),
            page(9, HOST_B),
        ],
        vec![edge(1, 9), edge(2, 9), edge(3, 9), edge(4, 9), edge(5, 9), edge(1, 9), edge(2, 3)],
    );
    assert_eq!(voting_hosts(&graph, &id(9)), vec![id(HOST_A), id(HOST_B), id(HOST_C)]);
    assert_eq!(voting_hosts(&graph, &id(3)), vec![id(HOST_A)]);
}

#[test]
fn edge_from_unknown_node_does_not_vote() {
    let graph = Webgraph::new(vec![page(2, HOST_B)], vec![edge(77, 2)]);
    assert!(voting_hosts(&graph, &id(2)).is_empty());
}

#[test]
fn page_may_be_voted_for_by_its_own_host() {
    let graph = Webgraph::new(vec![page(1, HOST_A), page(2, HOST_A)], vec![edge(1, 2), edge(2, 1)]);
    assert_eq!(voting_hosts(&graph, &id(2)), vec![id(HOST_A)]);
}

/// The toy graph, in which the linked page links on to a page of an unranked
/// host: a page takes part only if it has an outgoing edge.
fn toy_graph_with_link() -> Webgraph {
    Webgraph::new(
        vec![page(1, HOST_A), page(2, HOST_B), page(3, HOST_A), page(4, HOST_C)],
        vec![edge(1, 2), edge(3, 2), edge(2, 4)],
    )
}

#[test]
fn toy_graph_scores_the_linked_page_with_one() {
    let graph = toy_graph_with_link();
    let filter = source_filter(&graph.edges, 8, 4096);
    let plan = collect_votes(&graph, &ranked(&[HOST_A, HOST_B]), &filter);
    assert_eq!(plan.len(), 1);
    assert_eq!(plan[0].id, id(2));
    assert_eq!(plan[0].host, id(HOST_B));
    assert_eq!(plan[0].voters, vec![id(HOST_A)]);
    let harmonic = [(HOST_A, 0.5), (HOST_B, 1.0)];
    let votes: f64 = plan[0].voters.iter().map(|_| 0.5).sum();
    assert_eq!(votes, 0.5);
    assert_eq!(1.0 * votes, 0.5);
    assert_eq!(scores(&plan, &harmonic), vec![(2, 1.0)]);
}

#[test]
fn page_without_outgoing_edge_is_absent() {
    let graph = toy_graph();
    let filter = source_filter(&graph.edges, 8, 4096);
    assert!(filter.contains(1) && filter.contains(3) && !filter.contains(2));
    assert!(collect_votes(&graph, &ranked(&[HOST_A, HOST_B]), &filter).is_empty());
}

#[test]
fn page_that_the_filter_reports_by_chance_takes_part() {
    let graph = toy_graph();
    let mut filter = source_filter(&graph.edges, 8, 4096);
    // stands for a page that shares its bit with a source
    filter.insert(2);
    let plan = collect_votes(&graph, &ranked(&[HOST_A, HOST_B]), &filter);
    assert_eq!(plan.len(), 1);
    assert_eq!(plan[0].voters, vec![id(HOST_A)]);
    assert_eq!(scores(&plan, &[(HOST_A, 0.5), (HOST_B, 1.0)]), vec![(2, 1.0)]);
}

#[test]
fn pages_without_vote_of_a_ranked_host_are_absent() {
    let graph = toy_graph_with_link();
    let filter = source_filter(&graph.edges, 8, 4096);
    let all = ranked(&[HOST_A, HOST_B]);
    assert!(page_votes(&graph, &all, &filter, &page(1, HOST_A)).is_none());
    assert!(page_votes(&graph, &all, &filter, &page(3, HOST_A)).is_none());
    assert!(page_votes(&graph, &all, &filter, &page(2, HOST_B)).is_some());
    // no outgoing edge
    assert!(page_votes(&graph, &all, &filter, &page(4, HOST_C)).is_none());
}

#[test]
fn missing_host_leaves_the_store_empty() {
    let graph = toy_graph_with_link();
    let filter = source_filter(&graph.edges, 8, 4096);
    let plan = collect_votes(&graph, &ranked(&[HOST_B]), &filter);
    assert!(plan.is_empty());
    assert!(scores(&plan, &[(HOST_B, 1.0)]).is_empty());
}

#[test]
fn page_of_unranked_host_is_absent() {
    let graph = Webgraph::new(
        vec![page(1, HOST_A), page(2, HOST_B), page(4, HOST_C)],
        vec![edge(1, 2), edge(2, 4)],
    );
    let filter = source_filter(&graph.edges, 8, 4096);
    assert!(collect_votes(&graph, &ranked(&[HOST_A]), &filter).is_empty());
    assert_eq!(collect_votes(&graph, &ranked(&[HOST_A, HOST_B]), &filter).len(), 1);
}

#[test]
fn unranked_voters_are_left_out() {
    let graph = Webgraph::new(
        vec![page(1, HOST_A), page(2, HOST_B), page(3, HOST_C), page(4, HOST_B)],
        vec![edge(1, 2), edge(3, 2), edge(4, 2), edge(2, 1)],
    );
    let filter = source_filter(&graph.edges, 8, 4096);
    let votes = page_votes(&graph, &ranked(&[HOST_B, HOST_C]), &filter, &page(2, HOST_B)).unwrap();
    assert_eq!(votes.voters, vec![id(HOST_B), id(HOST_C)]);
}

#[test]
fn scores_lie_between_zero_and_one() {
    let graph = Webgraph::new(
        vec![page(1, HOST_A), page(2, HOST_B), page(3, HOST_C), page(4, HOST_B), page(5, HOST_A)],
        vec![edge(1, 2), edge(3, 2), edge(3, 4), edge(2, 1), edge(4, 5), edge(5, 4), edge(2, 5)],
    );
    let filter = source_filter(&graph.edges, 8, 4096);
    let plan = collect_votes(&graph, &ranked(&[HOST_A, HOST_B, HOST_C]), &filter);
    let ids: Vec<u64> = plan.iter().map(|p| p.id.as_u64()).collect();
    assert_eq!(ids, vec![1, 2, 4, 5]);
    let harmonic = [(HOST_A, 0.25), (HOST_B, 0.5), (HOST_C, 1.0)];
    let result = scores(&plan, &harmonic);
    assert_eq!(result, vec![(1, 0.25), (2, 0.5), (4, 0.5), (5, 0.25)]);
    assert!(result.iter().all(|(_, s)| (0.0..=1.0).contains(s)));
}

#[test]
fn votes_come_in_the_order_of_the_nodes() {
    let graph = Webgraph::new(
        vec![page(9, HOST_A), page(2, HOST_B), page(5, HOST_A)],
        vec![edge(9, 2), edge(2, 9), edge(2, 5), edge(5, 2)],
    );
    let filter = source_filter(&graph.edges, 8, 4096);
    let plan = collect_votes(&graph, &ranked(&[HOST_A, HOST_B]), &filter);
    let ids: Vec<u64> = plan.iter().map(|p| p.id.as_u64()).collect();
    assert_eq!(ids, vec![9, 2, 5]);
}

#[test]
fn ranked_hosts_hold_what_was_inserted() {
    let mut hosts = RankedHosts::new();
    assert!(!hosts.contains(&id(1)));
    hosts.insert(id(1));
    hosts.insert(id(1));
    assert!(hosts.contains(&id(1)));
    assert!(!hosts.contains(&id(2)));
}

fn run(events: &[BuildEvent]) -> BuildStage {
    events.iter().fold(BuildStage::start(), |stage, event| stage.advance(*event))
}

#[test]
fn build_goes_through_its_stages() {
    assert_eq!(run(&[]), BuildStage::CheckOutput);
    assert_eq!(run(&[BuildEvent::OutputFree]), BuildStage::FilterSources);
    assert_eq!(run(&[BuildEvent::OutputFree, BuildEvent::Completed]), BuildStage::ScorePages);
    assert_eq!(run(&[BuildEvent::OutputFree, BuildEvent::Completed, BuildEvent::Completed]), BuildStage::Normalize);
    assert_eq!(run(&[BuildEvent::OutputFree, BuildEvent::Completed, BuildEvent::Completed, BuildEvent::Completed]), BuildStage::RemoveStaging);
    let done = run(&[BuildEvent::OutputFree, BuildEvent::Completed, BuildEvent::Completed, BuildEvent::Completed, BuildEvent::Completed]);
    assert_eq!(done, BuildStage::Finished);
    assert_eq!(done.result(), Some(Ok(())));
    assert_eq!(done.advance(BuildEvent::Completed), BuildStage::Finished);
    assert_eq!(BuildStage::Normalize.result(), None);
}

#[test]
fn second_build_fails_with_already_exists() {
    let failed = run(&[BuildEvent::OutputExists]);
    assert_eq!(failed, BuildStage::Failed(BuildError::AlreadyExists));
    assert_eq!(failed.result(), Some(Err(BuildError::AlreadyExists)));
    assert_eq!(run(&[BuildEvent::OutputExists, BuildEvent::OutputFree, BuildEvent::Completed, BuildEvent::Completed]), failed);
    assert_eq!(BuildError::AlreadyExists.message(), "output path already exists");
}

#[test]
fn failure_ends_the_build_and_keeps_the_staging_store() {
    assert_eq!(run(&[BuildEvent::OutputFree, BuildEvent::GraphFailed]), BuildStage::Failed(BuildError::Graph));
    assert_eq!(run(&[BuildEvent::OutputFree, BuildEvent::Completed, BuildEvent::IoFailed]), BuildStage::Failed(BuildError::Io));
    let failed = run(&[BuildEvent::OutputFree, BuildEvent::Completed, BuildEvent::Completed, BuildEvent::IoFailed, BuildEvent::Completed, BuildEvent::Completed]);
    assert_eq!(failed, BuildStage::Failed(BuildError::Io));
    assert_eq!(run(&[BuildEvent::IoFailed]), BuildStage::Failed(BuildError::Io));
    assert_eq!(BuildError::Io.message(), "could not read or write a store");
    assert_eq!(BuildError::Graph.message(), "could not walk the graph");
}

#[test]
fn report_that_does_not_fit_the_stage_is_ignored() {
    assert_eq!(run(&[BuildEvent::Completed]), BuildStage::CheckOutput);
    assert_eq!(run(&[BuildEvent::OutputFree, BuildEvent::OutputExists]), BuildStage::FilterSources);
    assert_eq!(run(&[BuildEvent::OutputFree, BuildEvent::OutputFree]), BuildStage::FilterSources);
}

#[test]
fn build_refuses_an_output_that_exists() {
    let graph = toy_graph_with_link();
    let built = DerivedCentrality::build(&ranked(&[HOST_A, HOST_B]), &graph, 4096, true);
    assert_eq!(built.err(), Some(BuildError::AlreadyExists));
}

#[test]
fn build_collects_the_votes_of_the_pages_that_take_part() {
    assert_eq!(SOURCE_FILTER_PARTITIONS, 8);
    let graph = toy_graph_with_link();
    let built = DerivedCentrality::build(&ranked(&[HOST_A, HOST_B]), &graph, 4096, false);
    let centrality = built.ok().unwrap();
    assert_eq!(centrality.entries().len(), 1);
    let votes = centrality.get(&id(2)).unwrap();
    assert_eq!(votes.host, id(HOST_B));
    assert_eq!(votes.voters, vec![id(HOST_A)]);
    assert!(centrality.get(&id(1)).is_none());
    assert!(centrality.get(&id(3)).is_none());
    assert!(centrality.get(&id(4)).is_none());
    assert_eq!(scores(centrality.entries(), &[(HOST_A, 0.5), (HOST_B, 1.0)]), vec![(2, 1.0)]);
}

#[test]
fn build_without_ranked_voter_is_empty() {
    let graph = toy_graph_with_link();
    let built = DerivedCentrality::build(&ranked(&[HOST_B]), &graph, 4096, false);
    assert!(built.ok().unwrap().entries().is_empty());
}

#[test]
fn distinct_hosts_are_sorted_and_distinct() {
    let sources = vec![page(1, HOST_C), page(2, HOST_A), page(3, HOST_C), page(4, HOST_A)];
    assert_eq!(distinct_hosts(&sources), vec![id(HOST_A), id(HOST_C)]);
    assert!(distinct_hosts(&Vec::new()).is_empty());
}

#[test]
fn votes_among_sources_follow_the_three_conditions() {
    let sources = vec![page(1, HOST_A), page(3, HOST_A), page(5, HOST_C)];
    let node = page(2, HOST_B);
    let mut filter = BloomFilter::new(4096);
    let all = ranked(&[HOST_A, HOST_B, HOST_C]);
    // the filter does not report the page
    assert!(page_votes_among(&all, &filter, &node, &sources).is_none());
    filter.insert(2);
    // its host is not ranked
    assert!(page_votes_among(&ranked(&[HOST_A]), &filter, &node, &sources).is_none());
    // no ranked host votes
    assert!(page_votes_among(&ranked(&[HOST_B]), &filter, &node, &sources).is_none());
    assert!(page_votes_among(&all, &filter, &node, &Vec::new()).is_none());
    let votes = page_votes_among(&all, &filter, &node, &sources).unwrap();
    assert_eq!(votes.id, id(2));
    assert_eq!(votes.host, id(HOST_B));
    assert_eq!(votes.voters, vec![id(HOST_A), id(HOST_C)]);
}
