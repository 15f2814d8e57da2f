use stract_core::mapreduce;
use stract_core::replication::{
    AllReplicaSelector, AllShardsSelector, IpAddress, RandomReplicaSelector, RandomShardSelector,
    RemoteClient, ReplicaSelector, ReplicatedClient, Shard, ShardSelector, ShardedClient,
    SocketAddress, SpecificShardSelector, CALL_DEADLINE_MS, CONNECT_ATTEMPTS,
    CONNECT_BACKOFF_BASE_MS, CONNECT_BACKOFF_LIMIT_MS, CONNECT_BUDGET_MS,
};
use stract_core::search_server::{respond, Reply, Request, Response};
use stract_core::shard_id::{ShardId, ShardIdentifier};
use stract_core::sonic::Error;

/// The search service, as a tag.
#[derive(Debug, Clone)]
struct Search;

#[derive(Debug, Clone, PartialEq, Eq)]
struct SearchResult {
    hits: Vec<String>,
}

fn result() -> SearchResult {
    SearchResult { hits: vec!["A".to_string()] }
}

fn address(port: u16) -> SocketAddress {
    SocketAddress { ip: IpAddress::V4(0x7f000001), port }
}

fn replica(port: u16) -> RemoteClient<Search> {
    RemoteClient::new(address(port))
}

fn shard(id: u64, ports: &[u16]) -> Shard<Search, ShardId> {
    Shard::new(ShardId::new(id), ReplicatedClient::new(ports.iter().map(|p| replica(*p)).collect()))
}

/// Two shards of two replicas each: ports 1, 2 serve shard 0 and ports 3, 4
/// serve shard 1.
fn cluster() -> ShardedClient<Search, ShardId> {
    ShardedClient::new(vec![shard(0, &[1, 2]), shard(1, &[3, 4])])
}

/// A transport on which the servers at the ports `down` refuse to connect
/// and all others answer every query with the same result.
fn transport(down: Vec<u16>) -> impl Fn(&RemoteClient<Search>, &String) -> Result<SearchResult, Error> {
    move |client: &RemoteClient<Search>, _query: &String| {
        if down.contains(&client.addr().port) {
            Err(Error::Unreachable)
        } else {
            Ok(result())
        }
    }
}

fn ports(chosen: &[&RemoteClient<Search>]) -> Vec<u16> {
    chosen.iter().map(|c| c.addr().port).collect()
}

fn ids(chosen: &[&Shard<Search, ShardId>]) -> Vec<u64> {
    chosen.iter().map(|s| s.id.as_u64()).collect()
}

#[test]
fn remote_client_keeps_its_address() {
    let client = replica(8080);
    assert_eq!(client.addr(), address(8080));
    assert_eq!(client.clone().addr(), address(8080));
    let v6: RemoteClient<Search> =
        RemoteClient::new(SocketAddress { ip: IpAddress::V6(1), port: 9 });
    assert_eq!(v6.addr().ip, IpAddress::V6(1));
}

#[test]
fn remote_client_connects_with_five_attempts_in_thirty_seconds() {
    let policy = replica(1).connect_policy();
    assert_eq!(policy.delays, vec![30, 200, 200, 200, 200]);
    assert_eq!(policy.budget_ms, 30000);
    assert_eq!(replica(1).call_deadline_ms(), 60000);
    assert_eq!(CONNECT_BACKOFF_BASE_MS, 30);
    assert_eq!(CONNECT_BACKOFF_LIMIT_MS, 200);
    assert_eq!(CONNECT_ATTEMPTS, 5);
    assert_eq!(CONNECT_BUDGET_MS, 30000);
    assert_eq!(CALL_DEADLINE_MS, 60000);
}

#[test]
fn all_replicas_are_chosen_in_order() {
    let replicas = vec![replica(5), replica(3), replica(9)];
    assert_eq!(ports(&AllReplicaSelector.select(&replicas)), vec![5, 3, 9]);
    let none: Vec<RemoteClient<Search>> = Vec::new();
    assert!(AllReplicaSelector.select(&none).is_empty());
}

#[test]
fn random_replica_selector_chooses_one_of_the_replicas() {
    let replicas = vec![replica(5), replica(3), replica(9)];
    let mut seen = Vec::new();
    for _ in 0..200 {
        let chosen = RandomReplicaSelector::new(None).select(&replicas);
        assert_eq!(chosen.len(), 1);
        let port = chosen[0].addr().port;
        assert!([5, 3, 9].contains(&port));
        if !seen.contains(&port) {
            seen.push(port);
        }
    }
    assert_eq!(seen.len(), 3);
}

#[test]
fn random_replica_selector_chooses_nothing_of_nothing() {
    let none: Vec<RemoteClient<Search>> = Vec::new();
    assert!(RandomReplicaSelector::new(None).select(&none).is_empty());
    assert!(RandomReplicaSelector::new(Some(3)).select(&none).is_empty());
    let one = vec![replica(7)];
    assert_eq!(ports(&RandomReplicaSelector::new(None).select(&one)), vec![7]);
}

#[test]
fn seeded_selector_chooses_the_same_every_time() {
    let replicas: Vec<RemoteClient<Search>> = (0..50).map(replica).collect();
    let mut distinct = Vec::new();
    for seed in 0..20u64 {
        let selector = RandomReplicaSelector::new(Some(seed));
        let first = ports(&selector.select(&replicas));
        assert_eq!(first.len(), 1);
        for _ in 0..5 {
            assert_eq!(ports(&selector.select(&replicas)), first);
        }
        assert_eq!(ports(&RandomReplicaSelector::new(Some(seed)).select(&replicas)), first);
        if !distinct.contains(&first[0]) {
            distinct.push(first[0]);
        }
    }
    assert!(distinct.len() > 1);
}

#[test]
fn seeded_shard_selector_agrees_with_seeded_replica_selector() {
    let shards: Vec<Shard<Search, ShardId>> = (0..10).map(|i| shard(i, &[i as u16])).collect();
    let replicas: Vec<RemoteClient<Search>> = (0..10).map(replica).collect();
    for seed in 0..10u64 {
        let s = ids(&RandomShardSelector::new(Some(seed)).select(&shards));
        let r = ports(&RandomReplicaSelector::new(Some(seed)).select(&replicas));
        assert_eq!(s.len(), 1);
        assert_eq!(s[0], r[0] as u64);
    }
}

#[test]
fn all_shards_are_chosen_in_order() {
    let client = cluster();
    assert_eq!(ids(&AllShardsSelector.select(&client.shards)), vec![0, 1]);
}

#[test]
fn random_shard_selector_chooses_one_shard() {
    let client = cluster();
    for _ in 0..50 {
        let chosen = RandomShardSelector::new(None).select(&client.shards);
        assert_eq!(chosen.len(), 1);
        assert!(chosen[0].id == ShardId::new(0) || chosen[0].id == ShardId::new(1));
    }
    let empty: Vec<Shard<Search, ShardId>> = Vec::new();
    assert!(RandomShardSelector::new(None).select(&empty).is_empty());
}

#[test]
fn specific_shard_selector_chooses_at_most_one() {
    let client = cluster();
    assert_eq!(ids(&SpecificShardSelector(ShardId::new(1)).select(&client.shards)), vec![1]);
    assert_eq!(ids(&SpecificShardSelector(ShardId::new(0)).select(&client.shards)), vec![0]);
    assert!(SpecificShardSelector(ShardId::new(2)).select(&client.shards).is_empty());
}

#[test]
fn specific_shard_selector_chooses_the_first_of_equal_ids() {
    let shards = vec![shard(4, &[1]), shard(7, &[2]), shard(7, &[3])];
    let chosen = SpecificShardSelector(ShardId::new(7)).select(&shards);
    assert_eq!(chosen.len(), 1);
    assert_eq!(ports(&chosen[0].replicas.select(&AllReplicaSelector)), vec![2]);
}

#[test]
fn all_healthy_gives_one_entry_per_shard_and_one_response_per_replica() {
    let query = "cats".to_string();
    let entries = cluster().send(&query, &AllShardsSelector, &AllReplicaSelector, &transport(vec![]));
    assert_eq!(
        entries,
        vec![
            (ShardId::new(0), vec![result(), result()]),
            (ShardId::new(1), vec![result(), result()]),
        ]
    );
}

#[test]
fn one_replica_down_gives_one_response_less() {
    let query = "cats".to_string();
    let entries =
        cluster().send(&query, &AllShardsSelector, &AllReplicaSelector, &transport(vec![2]));
    assert_eq!(
        entries,
        vec![(ShardId::new(0), vec![result()]), (ShardId::new(1), vec![result(), result()])]
    );
}

#[test]
fn entire_shard_down_has_no_entry() {
    let query = "cats".to_string();
    let entries =
        cluster().send(&query, &AllShardsSelector, &AllReplicaSelector, &transport(vec![3, 4]));
    assert_eq!(entries, vec![(ShardId::new(0), vec![result(), result()])]);
}

#[test]
fn specific_shard_gives_a_single_entry() {
    let query = "cats".to_string();
    let entries = cluster().send(
        &query,
        &SpecificShardSelector(ShardId::new(1)),
        &AllReplicaSelector,
        &transport(vec![]),
    );
    assert_eq!(entries, vec![(ShardId::new(1), vec![result(), result()])]);
}

#[test]
fn everything_down_is_an_empty_result() {
    let query = "cats".to_string();
    let entries = cluster().send(
        &query,
        &AllShardsSelector,
        &AllReplicaSelector,
        &transport(vec![1, 2, 3, 4]),
    );
    assert!(entries.is_empty());
}

#[test]
fn unreachable_shards_do_not_change_the_entries_of_the_others() {
    let query = "dogs".to_string();
    let client = ShardedClient::new(
        (0..10u64).map(|i| shard(i, &[2 * i as u16, 2 * i as u16 + 1])).collect(),
    );
    let healthy = client.send(&query, &AllShardsSelector, &AllReplicaSelector, &transport(vec![]));
    assert_eq!(healthy.len(), 10);
    // shards 2, 5 and 9 are down
    let down = vec![4, 5, 10, 11, 18, 19];
    let degraded = client.send(&query, &AllShardsSelector, &AllReplicaSelector, &transport(down));
    assert_eq!(degraded.len(), 7);
    let expected: Vec<(ShardId, Vec<SearchResult>)> =
        healthy.into_iter().filter(|(id, _)| ![2, 5, 9].contains(&id.as_u64())).collect();
    assert_eq!(degraded, expected);
}

#[test]
fn random_replica_gives_one_response_per_shard() {
    let query = "cats".to_string();
    let entries = cluster().send(
        &query,
        &AllShardsSelector,
        &RandomReplicaSelector::new(Some(11)),
        &transport(vec![]),
    );
    assert_eq!(
        entries,
        vec![(ShardId::new(0), vec![result()]), (ShardId::new(1), vec![result()])]
    );
}

#[test]
fn shard_without_replicas_has_an_entry_without_responses() {
    let query = "cats".to_string();
    let client = ShardedClient::new(vec![shard(0, &[]), shard(1, &[3])]);
    let entries = client.send(&query, &AllShardsSelector, &AllReplicaSelector, &transport(vec![]));
    assert_eq!(entries, vec![(ShardId::new(0), vec![]), (ShardId::new(1), vec![result()])]);
}

#[test]
fn replicated_client_drops_failures_and_keeps_the_order() {
    let replicas = ReplicatedClient::new(vec![replica(1), replica(2), replica(3)]);
    let call = |client: &RemoteClient<Search>, _req: &u8| -> Result<u16, Error> {
        if client.addr().port == 2 {
            Err(Error::CallTimeout)
        } else {
            Ok(client.addr().port)
        }
    };
    assert_eq!(replicas.send(&0u8, &AllReplicaSelector, &call), vec![1, 3]);
    assert_eq!(
        replicas.dispatch(&0u8, &AllReplicaSelector, &call),
        vec![Ok(1), Err(Error::CallTimeout), Ok(3)]
    );
    let failing = |_c: &RemoteClient<Search>, _req: &u8| -> Result<u16, Error> { Err(Error::Io) };
    assert!(replicas.send(&0u8, &AllReplicaSelector, &failing).is_empty());
}

#[test]
fn collect_keeps_the_responses_in_order() {
    let outcomes: Vec<Result<u8, Error>> =
        vec![Err(Error::Unreachable), Ok(1), Ok(2), Err(Error::Deserialize), Ok(3)];
    assert_eq!(ReplicatedClient::<Search>::collect(outcomes), vec![1, 2, 3]);
    let none: Vec<Result<u8, Error>> = Vec::new();
    assert!(ReplicatedClient::<Search>::collect(none).is_empty());
}

#[test]
fn plan_lists_the_chosen_shards_with_their_chosen_replicas() {
    let client = cluster();
    let plan = client.plan(&AllShardsSelector, &AllReplicaSelector);
    assert_eq!(plan.len(), 2);
    assert_eq!(plan[0].0.id, ShardId::new(0));
    assert_eq!(ports(&plan[0].1), vec![1, 2]);
    assert_eq!(plan[1].0.id, ShardId::new(1));
    assert_eq!(ports(&plan[1].1), vec![3, 4]);
    let one = client.plan(&SpecificShardSelector(ShardId::new(1)), &RandomReplicaSelector::new(None));
    assert_eq!(one.len(), 1);
    assert_eq!(one[0].1.len(), 1);
}

#[test]
fn collect_gathers_what_came_back_from_a_plan() {
    let client = cluster();
    let plan = client.plan(&AllShardsSelector, &AllReplicaSelector);
    let replies: Vec<(&Shard<Search, ShardId>, Vec<Result<u16, Error>>)> = plan
        .iter()
        .map(|(shard, replicas)| {
            let outcomes = replicas
                .iter()
                .map(|r| if r.addr().port < 4 { Err(Error::Unreachable) } else { Ok(r.addr().port) })
                .collect();
            (*shard, outcomes)
        })
        .collect();
    let entries = ShardedClient::collect(replies);
    assert_eq!(entries, vec![(ShardId::new(1), vec![4])]);
}

#[test]
fn shard_entry_is_missing_only_if_all_that_were_asked_failed() {
    let s = shard(3, &[1, 2]);
    let failed: Vec<Result<u8, Error>> = vec![Err(Error::Unreachable), Err(Error::Io)];
    assert_eq!(s.entry(failed), None);
    let partly: Vec<Result<u8, Error>> = vec![Err(Error::Unreachable), Ok(5)];
    assert_eq!(s.entry(partly), Some((ShardId::new(3), vec![5])));
    let nothing: Vec<Result<u8, Error>> = Vec::new();
    assert_eq!(s.entry(nothing), Some((ShardId::new(3), vec![])));
}

#[test]
fn shard_ids_compare_by_number() {
    assert_eq!(ShardId::new(4), ShardId::new(4));
    assert_ne!(ShardId::new(4), ShardId::new(5));
    assert_eq!(ShardId::new(4).as_u64(), 4);
    assert_eq!(ShardId::new(4).clone(), ShardId::new(4));
}

#[test]
fn map_reduce_errors_have_their_texts() {
    assert_eq!(mapreduce::Error::Sonic(Error::Io).message(), "network error");
    assert_eq!(mapreduce::Error::NoAvailableWorker.message(), "could not get a working worker");
    assert_eq!(mapreduce::Error::NoResponse.message(), "did not get a reponse");
    assert_eq!(mapreduce::Error::from(Error::CallTimeout), mapreduce::Error::Sonic(Error::CallTimeout));
}

struct Count(u64);

impl mapreduce::Reduce<u64> for Count {
    fn reduce(self, element: u64) -> Self {
        Count(self.0 + element)
    }
}

struct Double(u64);

impl mapreduce::Mapper<u64, u64> for Double {
    fn map(&self, worker: &u64) -> u64 {
        2 * self.0 + *worker
    }
}

#[test]
fn jobs_are_mapped_and_reduced() {
    let jobs = [Double(1), Double(2), Double(3)];
    let mut total = Count(0);
    for job in &jobs {
        total = mapreduce::Reduce::reduce(total, mapreduce::Mapper::map(job, &1));
    }
    assert_eq!(total.0, 15);
}

#[test]
fn failed_request_gets_the_empty_response() {
    let ok: Result<u8, Error> = Ok(3);
    let failed: Result<u8, Error> = Err(Error::Io);
    assert_eq!(Response::from_outcome(ok), Response::Content(3));
    assert_eq!(Response::from_outcome(failed), Response::Empty);
    let found: Option<u8> = None;
    assert_eq!(Response::Content(found), Response::Content(None));
    assert_eq!(Response::Content(3u8).content(), Some(3));
    assert_eq!(Response::<u8>::Empty.content(), None);
}

#[derive(Debug, Clone, PartialEq, Eq)]
struct Region(String);

impl ShardIdentifier for Region {
    fn identity_laws() {}
}

#[test]
fn shards_may_be_identified_by_any_equatable_value() {
    let region = |name: &str| Region(name.to_string());
    let client: ShardedClient<Search, Region> = ShardedClient::new(vec![
        Shard::new(region("north"), ReplicatedClient::new(vec![replica(1)])),
        Shard::new(region("south"), ReplicatedClient::new(vec![replica(2), replica(3)])),
    ]);
    let chosen = SpecificShardSelector(region("south")).select(&client.shards);
    assert_eq!(chosen.len(), 1);
    assert_eq!(chosen[0].id, region("south"));
    let query = "cats".to_string();
    let entries = client.send(&query, &AllShardsSelector, &AllReplicaSelector, &transport(vec![1]));
    assert_eq!(entries, vec![(region("south"), vec![result(), result()])]);
}

fn answer(request: &Request<String, Vec<u8>>) -> Reply<usize, u8, String> {
    respond(
        request,
        |query: &String, similar: bool| {
            if similar || query.is_empty() {
                Err(Error::Io)
            } else {
                Ok(query.len())
            }
        },
        |websites: &Vec<u8>, query: &String| {
            if query.is_empty() {
                Err(Error::Io)
            } else {
                Ok(websites.clone())
            }
        },
        |url: &String| if url.is_empty() { None } else { Some(url.clone()) },
    )
}

#[test]
fn request_is_answered_by_the_operation_of_its_kind() {
    assert_eq!(answer(&Request::Search("cats".to_string())), Reply::Search(Response::Content(4)));
    assert_eq!(
        answer(&Request::RetrieveWebsites { websites: vec![1, 2], query: "cats".to_string() }),
        Reply::RetrieveWebsites(Response::Content(vec![1, 2]))
    );
    assert_eq!(
        answer(&Request::GetWebpage { url: "a".to_string() }),
        Reply::GetWebpage(Response::Content(Some("a".to_string())))
    );
}

#[test]
fn failed_operation_is_answered_with_the_empty_response() {
    assert_eq!(answer(&Request::Search(String::new())), Reply::Search(Response::Empty));
    assert_eq!(
        answer(&Request::RetrieveWebsites { websites: vec![1], query: String::new() }),
        Reply::RetrieveWebsites(Response::Empty)
    );
    // a page that is not there is content, not a failure
    assert_eq!(
        answer(&Request::GetWebpage { url: String::new() }),
        Reply::GetWebpage(Response::Content(None))
    );
}
