//! The cluster as the query path sees it: replicas of a shard, shards of the
//! index, and the policies that choose which of them a request visits.

use crate::random::{choose_index, fresh_seed, seeded_choice};
use crate::seq_lemmas::{
    lemma_filter_all, lemma_filter_idempotent, lemma_filter_push, lemma_filter_split_len,
};
use crate::retry_strategy::{lemma_advanced_by_next, ExponentialBackoff};
use crate::shard_id::ShardIdentifier;
use crate::sonic::RetryPolicy;
use std::marker::PhantomData;
use vstd::pervasive::cloned;
use vstd::prelude::*;
use vstd::std_specs::cmp::PartialEqSpec;

verus! {

/// An IP address as a number: 32 bits for version 4, 128 bits for version 6.
#[derive(Clone, Copy, Debug, PartialEq, Eq, Structural, Hash)]
pub enum IpAddress {
    V4(u32),
    V6(u128),
}

/// The address of a server: an IP address and a port.
#[derive(Clone, Copy, Debug, PartialEq, Eq, Structural, Hash)]
pub struct SocketAddress {
    pub ip: IpAddress,
    pub port: u16,
}

/// The base of the backoff between connect attempts, in milliseconds.
pub const CONNECT_BACKOFF_BASE_MS: u64 = 30;

/// The longest wait between connect attempts, in milliseconds.
pub const CONNECT_BACKOFF_LIMIT_MS: u64 = 200;

/// The connect attempts of one call.
pub const CONNECT_ATTEMPTS: usize = 5;

/// The time that the connect attempts of one call may take together, in
/// milliseconds.
pub const CONNECT_BUDGET_MS: u64 = 30000;

/// The time within which the response of a call must arrive, in
/// milliseconds.
pub const CALL_DEADLINE_MS: u64 = 60000;

/// A server of the service `S` at a network address. It holds no connection:
/// every call connects anew.
#[derive(Debug)]
pub struct RemoteClient<S> {
    addr: SocketAddress,
    _phantom: PhantomData<S>,
}

impl<S> Clone for RemoteClient<S> {
    fn clone(&self) -> (copy: Self)
        ensures
            copy == *self,
    {
        Self { addr: self.addr, _phantom: PhantomData }
    }
}

impl<S> RemoteClient<S> {
    /// The address that the client calls.
    pub closed spec fn address(&self) -> SocketAddress {
        self.addr
    }

    /// The client of the server at `addr`.
    pub fn new(addr: SocketAddress) -> (client: Self)
        ensures
            client.address() == addr,
    {
        Self { addr, _phantom: PhantomData }
    }

    /// The address that the client calls.
    pub fn addr(&self) -> (addr: SocketAddress)
        ensures
            addr == self.address(),
    {
        self.addr
    }

    /// How the client connects: five attempts within thirty seconds, with
    /// waits of 30 ms and then 200 ms between them.
    pub fn connect_policy(&self) -> (policy: RetryPolicy)
        ensures
            policy.delays@ == seq![30u64, 200u64, 200u64, 200u64, 200u64],
            policy.budget_ms == CONNECT_BUDGET_MS,
    {
        let strategy: ExponentialBackoff = ExponentialBackoff::from_millis(
            CONNECT_BACKOFF_BASE_MS,
        ).with_limit(CONNECT_BACKOFF_LIMIT_MS);
        let delays: Vec<u64> = strategy.take(CONNECT_ATTEMPTS);
        proof {
            let s0 = strategy.advanced_by(0);
            let s1 = strategy.advanced_by(1);
            let s2 = strategy.advanced_by(2);
            let s3 = strategy.advanced_by(3);
            let s4 = strategy.advanced_by(4);
            lemma_advanced_by_next(strategy, 0);
            lemma_advanced_by_next(strategy, 1);
            lemma_advanced_by_next(strategy, 2);
            lemma_advanced_by_next(strategy, 3);
            assert(s0 == strategy);
            assert(s1.current == 900) by {
                assert(30 * 30 == 900);
            }
            assert(s2.current == 27000) by {
                assert(900 * 30 == 27000);
            }
            assert(s3.current == 810000) by {
                assert(27000 * 30 == 810000);
            }
            assert(s4.current == 24300000) by {
                assert(810000 * 30 == 24300000);
            }
            assert(delays@.len() == 5);
            assert(delays@[0] == strategy.delay_at(0) && delays@[0] == 30);
            assert(delays@[1] == strategy.delay_at(1) && delays@[1] == 200);
            assert(delays@[2] == strategy.delay_at(2) && delays@[2] == 200);
            assert(delays@[3] == strategy.delay_at(3) && delays@[3] == 200);
            assert(delays@[4] == strategy.delay_at(4) && delays@[4] == 200);
            assert(delays@ =~= seq![30u64, 200u64, 200u64, 200u64, 200u64]);
        }
        RetryPolicy::new(delays, CONNECT_BUDGET_MS)
    }

    /// The deadline of a call on an established connection, in milliseconds.
    pub fn call_deadline_ms(&self) -> (deadline: u64)
        ensures
            deadline == CALL_DEADLINE_MS,
    {
        CALL_DEADLINE_MS
    }
}

/// The values behind a sequence of references.
pub open spec fn targets<T>(chosen: Seq<&T>) -> Seq<T> {
    chosen.map_values(|r: &T| *r)
}

/// The items at the positions `picks`, in the order of `picks`.
pub open spec fn picked<T>(items: Seq<T>, picks: Seq<usize>) -> Seq<T> {
    picks.map_values(|i: usize| items[i as int])
}

/// What a random choice of one item may return: one item of `items`, or
/// nothing if there is none; with a seed, the item that the seed determines.
pub open spec fn random_one<T>(seed: Option<u64>, items: Seq<T>, chosen: Seq<T>) -> bool {
    &&& chosen.len() == (if items.len() == 0 { 0nat } else { 1nat })
    &&& forall|i: int| 0 <= i < chosen.len() ==> items.contains(#[trigger] chosen[i])
    &&& seed matches Some(s) ==> chosen == picked(items, seeded_choice(s, items.len() as usize))
}

/// References to all items, in order.
fn choose_all<'a, T>(items: &'a [T]) -> (chosen: Vec<&'a T>)
    ensures
        targets(chosen@) == items@,
{
    let mut chosen: Vec<&'a T> = Vec::new();
    let mut i: usize = 0;
    while i < items.len()
        invariant
            i <= items@.len(),
            chosen@.len() == i,
            forall|k: int| 0 <= k < i ==> *#[trigger] chosen@[k] == items@[k],
        decreases items@.len() - i,
    {
        chosen.push(&items[i]);
        i = i + 1;
    }
    assert(targets(chosen@) =~= items@);
    chosen
}

/// A reference to one item chosen at random, or nothing if there is none.
fn choose_one<'a, T>(seed: Option<u64>, items: &'a [T]) -> (chosen: Vec<&'a T>)
    ensures
        random_one(seed, items@, targets(chosen@)),
{
    let s: u64 = match seed {
        Some(s) => s,
        None => fresh_seed(),
    };
    let picks: Vec<usize> = choose_index(s, items.len());
    let mut chosen: Vec<&'a T> = Vec::new();
    let mut i: usize = 0;
    while i < picks.len()
        invariant
            i <= picks@.len(),
            chosen@.len() == i,
            forall|k: int| 0 <= k < picks@.len() ==> picks@[k] < items@.len(),
            forall|k: int| 0 <= k < i ==> *#[trigger] chosen@[k] == items@[picks@[k] as int],
        decreases picks@.len() - i,
    {
        chosen.push(&items[picks[i]]);
        i = i + 1;
    }
    proof {
        let out = targets(chosen@);
        assert(out =~= picked(items@, picks@));
        assert forall|k: int| 0 <= k < out.len() implies items@.contains(#[trigger] out[k]) by {
            assert(items@[picks@[k] as int] == out[k]);
        }
    }
    chosen
}

/// A policy that chooses which replicas of a shard a request visits.
pub trait ReplicaSelector<S> {
    /// Whether the policy may answer `chosen` when it is given `replicas`.
    spec fn may_select(&self, replicas: Seq<RemoteClient<S>>, chosen: Seq<RemoteClient<S>>) -> bool;

    /// The replicas to visit. Each of them is one of `replicas`.
    fn select<'a>(&self, replicas: &'a [RemoteClient<S>]) -> (chosen: Vec<&'a RemoteClient<S>>)
        ensures
            self.may_select(replicas@, targets(chosen@)),
            forall|i: int|
                0 <= i < chosen@.len() ==> replicas@.contains(#[trigger] targets(chosen@)[i]),
    ;
}

/// Chooses one replica at random; the same one every time if it has a seed.
pub struct RandomReplicaSelector {
    pub seed: Option<u64>,
}

impl RandomReplicaSelector {
    /// The policy that draws from `seed`, or from the generator of the
    /// calling thread if there is none.
    pub fn new(seed: Option<u64>) -> (selector: Self)
        ensures
            selector.seed == seed,
    {
        Self { seed }
    }
}

impl<S> ReplicaSelector<S> for RandomReplicaSelector {
    open spec fn may_select(
        &self,
        replicas: Seq<RemoteClient<S>>,
        chosen: Seq<RemoteClient<S>>,
    ) -> bool {
        random_one(self.seed, replicas, chosen)
    }

    fn select<'a>(&self, replicas: &'a [RemoteClient<S>]) -> (chosen: Vec<&'a RemoteClient<S>>)
        ensures
            chosen@.len() == (if replicas@.len() == 0 { 0nat } else { 1nat }),
    {
        choose_one(self.seed, replicas)
    }
}

/// Chooses every replica, in order.
pub struct AllReplicaSelector;

impl<S> ReplicaSelector<S> for AllReplicaSelector {
    open spec fn may_select(
        &self,
        replicas: Seq<RemoteClient<S>>,
        chosen: Seq<RemoteClient<S>>,
    ) -> bool {
        chosen == replicas
    }

    fn select<'a>(&self, replicas: &'a [RemoteClient<S>]) -> (chosen: Vec<&'a RemoteClient<S>>) {
        let chosen = choose_all(replicas);
        proof {
            assert forall|i: int| 0 <= i < chosen@.len() implies replicas@.contains(
                #[trigger] targets(chosen@)[i],
            ) by {
                assert(replicas@[i] == targets(chosen@)[i]);
            }
        }
        chosen
    }
}

/// The replicas of one shard. Each of them can answer for the shard.
pub struct ReplicatedClient<S> {
    pub clients: Vec<RemoteClient<S>>,
}

/// The responses among `outcomes`, in order.
pub open spec fn successes<R, E>(outcomes: Seq<Result<R, E>>) -> Seq<R> {
    outcomes.filter(|o: Result<R, E>| o is Ok).map_values(|o: Result<R, E>| o->Ok_0)
}

/// Whether `outcomes` can be what `call` returned for `req` at each of
/// `chosen`, in order.
pub open spec fn called<S, Req, R, E, F: Fn(&RemoteClient<S>, &Req) -> Result<R, E>>(
    call: &F,
    req: &Req,
    chosen: Seq<RemoteClient<S>>,
    outcomes: Seq<Result<R, E>>,
) -> bool {
    &&& outcomes.len() == chosen.len()
    &&& forall|j: int|
        0 <= j < chosen.len() ==> call_ensures(*call, (&chosen[j], req), #[trigger] outcomes[j])
}

/// Whether `outcomes` can be what came back when `req` went to the replicas
/// that `selector` chose of `clients`.
pub open spec fn dispatched<
    S,
    Req,
    R,
    E,
    Rep: ReplicaSelector<S>,
    F: Fn(&RemoteClient<S>, &Req) -> Result<R, E>,
>(
    clients: Seq<RemoteClient<S>>,
    selector: &Rep,
    call: &F,
    req: &Req,
    outcomes: Seq<Result<R, E>>,
) -> bool {
    exists|chosen: Seq<RemoteClient<S>>|
        selector.may_select(clients, chosen) && #[trigger] called(call, req, chosen, outcomes)
}

impl<S> ReplicatedClient<S> {
    /// The client of the given replicas.
    pub fn new(clients: Vec<RemoteClient<S>>) -> (client: Self)
        ensures
            client.clients == clients,
    {
        Self { clients }
    }

    /// The replicas that a request visits under `selector`, in the order in
    /// which it is sent to them.
    pub fn select<'a, Rep: ReplicaSelector<S>>(&'a self, selector: &Rep) -> (chosen: Vec<
        &'a RemoteClient<S>,
    >)
        ensures
            selector.may_select(self.clients@, targets(chosen@)),
            forall|i: int|
                0 <= i < chosen@.len() ==> self.clients@.contains(#[trigger] targets(chosen@)[i]),
    {
        selector.select(self.clients.as_slice())
    }

    /// Sends `req` through `call` to the replicas that `selector` chooses, one
    /// after the other, and returns what each call returned, in that order.
    pub fn dispatch<Req, R, E, Rep, F>(&self, req: &Req, selector: &Rep, call: &F) -> (outcomes: Vec<
        Result<R, E>,
    >) where Rep: ReplicaSelector<S>, F: Fn(&RemoteClient<S>, &Req) -> Result<R, E>
        requires
            forall|client: &RemoteClient<S>| #[trigger] call_requires(*call, (client, req)),
        ensures
            dispatched(self.clients@, selector, call, req, outcomes@),
    {
        let chosen: Vec<&RemoteClient<S>> = self.select(selector);
        let mut outcomes: Vec<Result<R, E>> = Vec::new();
        let mut i: usize = 0;
        while i < chosen.len()
            invariant
                i <= chosen@.len(),
                outcomes@.len() == i,
                forall|client: &RemoteClient<S>| #[trigger] call_requires(*call, (client, req)),
                forall|j: int|
                    0 <= j < i ==> call_ensures(
                        *call,
                        (&targets(chosen@)[j], req),
                        #[trigger] outcomes@[j],
                    ),
            decreases chosen@.len() - i,
        {
            let client: &RemoteClient<S> = chosen[i];
            let outcome: Result<R, E> = call(client, req);
            proof {
                assert(targets(chosen@)[i as int] == *client);
            }
            outcomes.push(outcome);
            i = i + 1;
        }
        proof {
            assert(called(call, req, targets(chosen@), outcomes@));
        }
        outcomes
    }

    /// Sends `req` through `call` to the replicas that `selector` chooses and
    /// returns the responses of those that answered, in the order in which
    /// the request was sent. Failures are dropped and never reach the caller,
    /// so the result may be empty.
    pub fn send<Req, R, E, Rep, F>(&self, req: &Req, selector: &Rep, call: &F) -> (responses: Vec<
        R,
    >) where Rep: ReplicaSelector<S>, F: Fn(&RemoteClient<S>, &Req) -> Result<R, E>
        requires
            forall|client: &RemoteClient<S>| #[trigger] call_requires(*call, (client, req)),
        ensures
            exists|outcomes: Seq<Result<R, E>>| #[trigger]
                dispatched(self.clients@, selector, call, req, outcomes) && responses@
                    == successes(outcomes),
    {
        let outcomes: Vec<Result<R, E>> = self.dispatch(req, selector, call);
        let ghost sent = outcomes@;
        let responses: Vec<R> = Self::collect(outcomes);
        proof {
            assert(dispatched(self.clients@, selector, call, req, sent));
        }
        responses
    }

    /// The responses of the replicas that answered, in the order in which the
    /// request was sent. Failures are dropped, so the result may be empty.
    pub fn collect<R, E>(outcomes: Vec<Result<R, E>>) -> (responses: Vec<R>)
        ensures
            responses@ == successes(outcomes@),
    {
        let ghost all = outcomes@;
        let mut responses: Vec<R> = Vec::new();
        proof {
            assert(all.take(0) =~= Seq::<Result<R, E>>::empty());
            reveal(Seq::filter);
            assert(successes(all.take(0)) =~= Seq::<R>::empty());
        }
        for outcome in it: outcomes.into_iter()
            invariant
                it.seq() == all,
                responses@ == successes(all.take(it.index() as int)),
        {
            proof {
                assert(all.take(it.index() + 1) =~= all.take(it.index() as int).push(outcome));
                lemma_successes_push(all.take(it.index() as int), outcome);
            }
            match outcome {
                Ok(response) => {
                    responses.push(response);
                },
                Err(_) => {},
            }
        }
        proof {
            assert(all.take(all.len() as int) =~= all);
        }
        responses
    }
}

/// The responses after one more outcome.
pub proof fn lemma_successes_push<R, E>(outcomes: Seq<Result<R, E>>, outcome: Result<R, E>)
    ensures
        successes(outcomes.push(outcome)) == if outcome is Ok {
            successes(outcomes).push(outcome->Ok_0)
        } else {
            successes(outcomes)
        },
{
    let pred = |o: Result<R, E>| o is Ok;
    lemma_filter_push(outcomes, outcome, pred);
    if outcome is Ok {
        assert(outcomes.filter(pred).push(outcome).map_values(|o: Result<R, E>| o->Ok_0)
            =~= successes(outcomes).push(outcome->Ok_0));
    }
}

/// One partition of the index with the replicas that serve it.
pub struct Shard<S, Id: ShardIdentifier> {
    pub replicas: ReplicatedClient<S>,
    pub id: Id,
}

/// Whether a shard answered a request that went to its replicas with the
/// given outcomes: nothing was asked of it, or at least one replica responded.
pub open spec fn answered<R, E>(outcomes: Seq<Result<R, E>>) -> bool {
    outcomes.len() == 0 || successes(outcomes).len() > 0
}

impl<S, Id: ShardIdentifier> Shard<S, Id> {
    /// The shard `id` served by `replicas`.
    pub fn new(id: Id, replicas: ReplicatedClient<S>) -> (shard: Self)
        ensures
            shard.id == id,
            shard.replicas == replicas,
    {
        Self { replicas, id }
    }

    /// The shard's part of the result of a request whose calls to the
    /// replicas ended in `outcomes`: the identifier with the responses, or
    /// nothing if the shard did not answer.
    pub fn entry<R, E>(&self, outcomes: Vec<Result<R, E>>) -> (entry: Option<(Id, Vec<R>)>)
        ensures
            entry is Some <==> answered(outcomes@),
            entry matches Some(e) ==> e.0 == self.id && e.1@ == successes(outcomes@),
    {
        let asked: usize = outcomes.len();
        let responses: Vec<R> = ReplicatedClient::<S>::collect(outcomes);
        if asked == 0 || responses.len() > 0 {
            let id: Id = self.id.clone();
            proof {
                Id::identity_laws();
                assert(cloned(self.id, id));
            }
            Some((id, responses))
        } else {
            None
        }
    }
}

/// A policy that chooses which shards a request visits.
pub trait ShardSelector<S, Id: ShardIdentifier> {
    /// Whether the policy may answer `chosen` when it is given `shards`.
    spec fn may_select(&self, shards: Seq<Shard<S, Id>>, chosen: Seq<Shard<S, Id>>) -> bool;

    /// The shards to visit. Each of them is one of `shards`.
    fn select<'a>(&self, shards: &'a [Shard<S, Id>]) -> (chosen: Vec<&'a Shard<S, Id>>)
        ensures
            self.may_select(shards@, targets(chosen@)),
            forall|i: int|
                0 <= i < chosen@.len() ==> shards@.contains(#[trigger] targets(chosen@)[i]),
    ;
}

/// Chooses every shard, in order.
pub struct AllShardsSelector;

impl<S, Id: ShardIdentifier> ShardSelector<S, Id> for AllShardsSelector {
    open spec fn may_select(&self, shards: Seq<Shard<S, Id>>, chosen: Seq<Shard<S, Id>>) -> bool {
        chosen == shards
    }

    fn select<'a>(&self, shards: &'a [Shard<S, Id>]) -> (chosen: Vec<&'a Shard<S, Id>>) {
        let chosen = choose_all(shards);
        proof {
            assert forall|i: int| 0 <= i < chosen@.len() implies shards@.contains(
                #[trigger] targets(chosen@)[i],
            ) by {
                assert(shards@[i] == targets(chosen@)[i]);
            }
        }
        chosen
    }
}

/// Chooses one shard at random; the same one every time if it has a seed.
pub struct RandomShardSelector {
    pub seed: Option<u64>,
}

impl RandomShardSelector {
    /// The policy that draws from `seed`, or from the generator of the
    /// calling thread if there is none.
    pub fn new(seed: Option<u64>) -> (selector: Self)
        ensures
            selector.seed == seed,
    {
        Self { seed }
    }
}

impl<S, Id: ShardIdentifier> ShardSelector<S, Id> for RandomShardSelector {
    open spec fn may_select(&self, shards: Seq<Shard<S, Id>>, chosen: Seq<Shard<S, Id>>) -> bool {
        random_one(self.seed, shards, chosen)
    }

    fn select<'a>(&self, shards: &'a [Shard<S, Id>]) -> (chosen: Vec<&'a Shard<S, Id>>)
        ensures
            chosen@.len() == (if shards@.len() == 0 { 0nat } else { 1nat }),
    {
        choose_one(self.seed, shards)
    }
}

/// Whether `i` is the position of the first shard with identifier `id`.
pub open spec fn first_with_shard_id<S, Id: ShardIdentifier>(
    shards: Seq<Shard<S, Id>>,
    id: Id,
    i: int,
) -> bool {
    &&& 0 <= i < shards.len()
    &&& shards[i].id == id
    &&& forall|j: int| 0 <= j < i ==> shards[j].id != id
}

/// Chooses the shard with the given identifier, if there is one.
pub struct SpecificShardSelector<Id: ShardIdentifier>(pub Id);

impl<S, Id: ShardIdentifier> ShardSelector<S, Id> for SpecificShardSelector<Id> {
    open spec fn may_select(&self, shards: Seq<Shard<S, Id>>, chosen: Seq<Shard<S, Id>>) -> bool {
        &&& chosen.len() <= 1
        &&& chosen.len() == 1 ==> exists|i: int|
            first_with_shard_id(shards, self.0, i) && chosen[0] == shards[i]
        &&& chosen.len() == 0 ==> forall|i: int| 0 <= i < shards.len() ==> shards[i].id != self.0
    }

    fn select<'a>(&self, shards: &'a [Shard<S, Id>]) -> (chosen: Vec<&'a Shard<S, Id>>)
        ensures
            chosen@.len() <= 1,
    {
        let mut chosen: Vec<&'a Shard<S, Id>> = Vec::new();
        let mut i: usize = 0;
        proof {
            Id::identity_laws();
        }
        while i < shards.len()
            invariant
                i <= shards@.len(),
                chosen@.len() == 0,
                Id::obeys_eq_spec(),
                forall|a: Id, b: Id| #[trigger] a.eq_spec(&b) <==> a == b,
                forall|j: int| 0 <= j < i ==> shards@[j].id != self.0,
            decreases shards@.len() - i,
        {
            if shards[i].id == self.0 {
                chosen.push(&shards[i]);
                proof {
                    assert(first_with_shard_id(shards@, self.0, i as int));
                    assert(targets(chosen@)[0] == shards@[i as int]);
                }
                return chosen;
            }
            i = i + 1;
        }
        chosen
    }
}

/// The whole index: its shards, in a fixed order for the time of a request.
pub struct ShardedClient<S, Id: ShardIdentifier> {
    pub shards: Vec<Shard<S, Id>>,
}

/// The shards of a plan, in order.
pub open spec fn plan_shards<S, Id: ShardIdentifier>(
    plan: Seq<(&Shard<S, Id>, Vec<&RemoteClient<S>>)>,
) -> Seq<Shard<S, Id>> {
    plan.map_values(|d: (&Shard<S, Id>, Vec<&RemoteClient<S>>)| *d.0)
}

/// What came back from the shards that were visited: for each its identifier
/// and the outcomes of the calls to its replicas.
pub open spec fn replies_of<S, Id: ShardIdentifier, R, E>(
    replies: Seq<(&Shard<S, Id>, Vec<Result<R, E>>)>,
) -> Seq<(Id, Seq<Result<R, E>>)> {
    replies.map_values(|r: (&Shard<S, Id>, Vec<Result<R, E>>)| (r.0.id, r.1@))
}

/// The entries of a result as plain values.
pub open spec fn entries_of<Id, R>(entries: Seq<(Id, Vec<R>)>) -> Seq<(Id, Seq<R>)> {
    entries.map_values(|e: (Id, Vec<R>)| (e.0, e.1@))
}

/// The result of a request: one entry for every shard that answered, in the
/// order of the replies, with the responses of its replicas in their order.
pub open spec fn gathered<Id, R, E>(replies: Seq<(Id, Seq<Result<R, E>>)>) -> Seq<(Id, Seq<R>)> {
    replies.filter(has_answered()).map_values(|r: (Id, Seq<Result<R, E>>)| (r.0, successes(r.1)))
}

/// The replies of the shards that answered.
pub open spec fn has_answered<Id, R, E>() -> spec_fn((Id, Seq<Result<R, E>>)) -> bool {
    |r: (Id, Seq<Result<R, E>>)| answered(r.1)
}

/// The replies of the shards that did not answer.
pub open spec fn has_not_answered<Id, R, E>() -> spec_fn((Id, Seq<Result<R, E>>)) -> bool {
    |r: (Id, Seq<Result<R, E>>)| !answered(r.1)
}

/// The result after one more reply.
pub proof fn lemma_gathered_push<Id, R, E>(
    replies: Seq<(Id, Seq<Result<R, E>>)>,
    reply: (Id, Seq<Result<R, E>>),
)
    ensures
        gathered(replies.push(reply)) == if answered(reply.1) {
            gathered(replies).push((reply.0, successes(reply.1)))
        } else {
            gathered(replies)
        },
{
    lemma_filter_push(replies, reply, has_answered());
    if answered(reply.1) {
        assert(gathered(replies.push(reply)) =~= gathered(replies).push(
            (reply.0, successes(reply.1)),
        ));
    }
}

/// The replies of the shards `visited` whose replicas returned `outcomes`.
pub open spec fn replies_for<S, Id: ShardIdentifier, R, E>(
    visited: Seq<Shard<S, Id>>,
    outcomes: Seq<Seq<Result<R, E>>>,
) -> Seq<(Id, Seq<Result<R, E>>)> {
    Seq::new(visited.len(), |k: int| (visited[k].id, outcomes[k]))
}

/// Whether a request that visited the shards `visited` and got `outcomes`
/// from their replicas is one that the two selectors allow on `shards`.
pub open spec fn fans_out<
    S,
    Id: ShardIdentifier,
    Req,
    R,
    E,
    SSel: ShardSelector<S, Id>,
    RSel: ReplicaSelector<S>,
    F: Fn(&RemoteClient<S>, &Req) -> Result<R, E>,
>(
    shards: Seq<Shard<S, Id>>,
    shard_selector: &SSel,
    replica_selector: &RSel,
    call: &F,
    req: &Req,
    visited: Seq<Shard<S, Id>>,
    outcomes: Seq<Seq<Result<R, E>>>,
) -> bool {
    &&& shard_selector.may_select(shards, visited)
    &&& outcomes.len() == visited.len()
    &&& forall|k: int|
        0 <= k < visited.len() ==> dispatched(
            visited[k].replicas.clients@,
            replica_selector,
            call,
            req,
            #[trigger] outcomes[k],
        )
}

/// Whether `entries` can be the result of sending `req` through `call` to
/// `shards` under the two selectors: the shards that the shard selector
/// chooses are visited in its order, each at the replicas that the replica
/// selector chooses of it, and the entries are gathered from what came back.
pub open spec fn sent<
    S,
    Id: ShardIdentifier,
    Req,
    R,
    E,
    SSel: ShardSelector<S, Id>,
    RSel: ReplicaSelector<S>,
    F: Fn(&RemoteClient<S>, &Req) -> Result<R, E>,
>(
    shards: Seq<Shard<S, Id>>,
    shard_selector: &SSel,
    replica_selector: &RSel,
    call: &F,
    req: &Req,
    entries: Seq<(Id, Seq<R>)>,
) -> bool {
    exists|visited: Seq<Shard<S, Id>>, outcomes: Seq<Seq<Result<R, E>>>| #[trigger]
        fans_out(shards, shard_selector, replica_selector, call, req, visited, outcomes)
            && entries == gathered(replies_for(visited, outcomes))
}

impl<S, Id: ShardIdentifier> ShardedClient<S, Id> {
    /// The client of the given shards.
    pub fn new(shards: Vec<Shard<S, Id>>) -> (client: Self)
        ensures
            client.shards == shards,
    {
        Self { shards }
    }

    /// Where a request goes: the shards that `shard_selector` chooses, in its
    /// order, each with the replicas that `replica_selector` chooses of it.
    pub fn plan<'a, SSel: ShardSelector<S, Id>, RSel: ReplicaSelector<S>>(
        &'a self,
        shard_selector: &SSel,
        replica_selector: &RSel,
    ) -> (plan: Vec<(&'a Shard<S, Id>, Vec<&'a RemoteClient<S>>)>)
        ensures
            shard_selector.may_select(self.shards@, plan_shards(plan@)),
            forall|k: int|
                0 <= k < plan@.len() ==> self.shards@.contains(#[trigger] plan_shards(plan@)[k]),
            forall|k: int|
                0 <= k < plan@.len() ==> replica_selector.may_select(
                    (#[trigger] plan@[k]).0.replicas.clients@,
                    targets(plan@[k].1@),
                ),
            forall|k: int, j: int|
                0 <= k < plan@.len() && 0 <= j < plan@[k].1@.len() ==> plan@[k].0.replicas.clients@.contains(
                    #[trigger] targets(plan@[k].1@)[j],
                ),
    {
        let chosen: Vec<&'a Shard<S, Id>> = shard_selector.select(self.shards.as_slice());
        let mut plan: Vec<(&'a Shard<S, Id>, Vec<&'a RemoteClient<S>>)> = Vec::new();
        let mut i: usize = 0;
        while i < chosen.len()
            invariant
                i <= chosen@.len(),
                plan@.len() == i,
                forall|k: int| 0 <= k < i ==> *(#[trigger] plan@[k]).0 == *chosen@[k],
                forall|k: int|
                    0 <= k < i ==> replica_selector.may_select(
                        (#[trigger] plan@[k]).0.replicas.clients@,
                        targets(plan@[k].1@),
                    ),
                forall|k: int, j: int|
                    0 <= k < i && 0 <= j < plan@[k].1@.len() ==> plan@[k].0.replicas.clients@.contains(
                        #[trigger] targets(plan@[k].1@)[j],
                    ),
            decreases chosen@.len() - i,
        {
            let shard: &'a Shard<S, Id> = chosen[i];
            let replicas: Vec<&'a RemoteClient<S>> = shard.replicas.select(replica_selector);
            plan.push((shard, replicas));
            i = i + 1;
        }
        proof {
            assert(plan_shards(plan@) =~= targets(chosen@));
        }
        plan
    }

    /// Sends `req` through `call` to the shards that `shard_selector`
    /// chooses, in its order, each at the replicas that `replica_selector`
    /// chooses, and returns for every shard that answered its identifier and
    /// the responses of its replicas. Failures are dropped: a shard that did
    /// not answer has no entry, and an empty result is no error.
    pub fn send<Req, R, E, SSel, RSel, F>(
        &self,
        req: &Req,
        shard_selector: &SSel,
        replica_selector: &RSel,
        call: &F,
    ) -> (entries: Vec<(Id, Vec<R>)>) where
        SSel: ShardSelector<S, Id>,
        RSel: ReplicaSelector<S>,
        F: Fn(&RemoteClient<S>, &Req) -> Result<R, E>,

        requires
            forall|client: &RemoteClient<S>| #[trigger] call_requires(*call, (client, req)),
        ensures
            sent(
                self.shards@,
                shard_selector,
                replica_selector,
                call,
                req,
                entries_of(entries@),
            ),
    {
        let chosen: Vec<&Shard<S, Id>> = shard_selector.select(self.shards.as_slice());
        let mut replies: Vec<(&Shard<S, Id>, Vec<Result<R, E>>)> = Vec::new();
        let mut i: usize = 0;
        while i < chosen.len()
            invariant
                i <= chosen@.len(),
                replies@.len() == i,
                forall|client: &RemoteClient<S>| #[trigger] call_requires(*call, (client, req)),
                forall|k: int| 0 <= k < i ==> *(#[trigger] replies@[k]).0 == targets(chosen@)[k],
                forall|k: int|
                    0 <= k < i ==> dispatched(
                        targets(chosen@)[k].replicas.clients@,
                        replica_selector,
                        call,
                        req,
                        (#[trigger] replies@[k]).1@,
                    ),
            decreases chosen@.len() - i,
        {
            let shard: &Shard<S, Id> = chosen[i];
            proof {
                assert(targets(chosen@)[i as int] == *shard);
            }
            let outcomes: Vec<Result<R, E>> = shard.replicas.dispatch(req, replica_selector, call);
            replies.push((shard, outcomes));
            i = i + 1;
        }
        let ghost visited = targets(chosen@);
        let ghost outcomes = Seq::new(replies@.len(), |k: int| replies@[k].1@);
        proof {
            assert(replies_of(replies@) =~= replies_for(visited, outcomes));
            assert(fans_out(
                self.shards@,
                shard_selector,
                replica_selector,
                call,
                req,
                visited,
                outcomes,
            ));
        }
        Self::collect(replies)
    }

    /// The result of a request from what came back: for every shard that
    /// answered, in the order of `replies`, its identifier and the responses
    /// of its replicas. A shard that did not answer has no entry.
    pub fn collect<'a, R, E>(replies: Vec<(&'a Shard<S, Id>, Vec<Result<R, E>>)>) -> (entries: Vec<
        (Id, Vec<R>),
    >)
        ensures
            entries_of(entries@) == gathered(replies_of(replies@)),
    {
        let ghost all = replies@;
        let mut entries: Vec<(Id, Vec<R>)> = Vec::new();
        proof {
            assert(all.take(0) =~= Seq::empty());
            assert(replies_of(all.take(0)) =~= Seq::empty());
            reveal(Seq::filter);
            assert(gathered(replies_of(all.take(0))) =~= Seq::empty());
            assert(entries_of(entries@) =~= Seq::empty());
        }
        for reply in it: replies.into_iter()
            invariant
                it.seq() == all,
                entries_of(entries@) == gathered(replies_of(all.take(it.index() as int))),
        {
            let ghost before = entries@;
            let ghost plain = (reply.0.id, reply.1@);
            proof {
                let seen = all.take(it.index() as int);
                assert(all.take(it.index() + 1) =~= seen.push(reply));
                assert(replies_of(seen.push(reply)) =~= replies_of(seen).push(plain));
                lemma_gathered_push(replies_of(seen), plain);
            }
            let (shard, outcomes) = reply;
            match shard.entry(outcomes) {
                Some(entry) => {
                    entries.push(entry);
                    proof {
                        assert(entries_of(entries@) =~= entries_of(before).push(
                            (plain.0, successes(plain.1)),
                        ));
                    }
                },
                None => {},
            }
        }
        proof {
            assert(all.take(all.len() as int) =~= all);
        }
        entries
    }
}

/// The responses of calls that all succeeded are the responses of all calls.
pub proof fn lemma_successes_all<R, E>(outcomes: Seq<Result<R, E>>)
    requires
        forall|j: int| 0 <= j < outcomes.len() ==> (#[trigger] outcomes[j]) is Ok,
    ensures
        successes(outcomes) == outcomes.map_values(|o: Result<R, E>| o->Ok_0),
        successes(outcomes).len() == outcomes.len(),
{
    lemma_filter_all(outcomes, |o: Result<R, E>| o is Ok);
}

/// Complete fan-out: when every shard is visited, every replica of it is
/// asked and every call succeeds, the result has exactly one entry per shard,
/// in the order of the shards, each with one response per replica.
pub proof fn law_complete_fan_out<S, Id: ShardIdentifier, R, E>(
    shards: Seq<Shard<S, Id>>,
    replies: Seq<(Id, Seq<Result<R, E>>)>,
)
    requires
        replies.len() == shards.len(),
        forall|k: int|
            0 <= k < shards.len() ==> (#[trigger] replies[k]).0 == shards[k].id && replies[k].1.len()
                == shards[k].replicas.clients@.len(),
        forall|k: int, j: int|
            0 <= k < replies.len() && 0 <= j < replies[k].1.len() ==> (#[trigger] replies[k].1[j]) is Ok,
    ensures
        gathered(replies).len() == shards.len(),
        forall|k: int|
            0 <= k < shards.len() ==> (#[trigger] gathered(replies)[k]).0 == shards[k].id
                && gathered(replies)[k].1.len() == shards[k].replicas.clients@.len(),
{
    assert forall|k: int| 0 <= k < replies.len() implies has_answered()(#[trigger] replies[k]) by {
        lemma_successes_all(replies[k].1);
    }
    lemma_filter_all(replies, has_answered());
    assert forall|k: int| 0 <= k < shards.len() implies (#[trigger] gathered(replies)[k]).0
        == shards[k].id && gathered(replies)[k].1.len() == shards[k].replicas.clients@.len() by {
        lemma_successes_all(replies[k].1);
    }
}

/// Graceful degradation: the result has one entry for every visited shard
/// but those that did not answer, and it is the result of the same request
/// sent to the answering shards alone. So which shards fail changes nothing
/// in the entries of the others.
pub proof fn law_graceful_degradation<Id, R, E>(replies: Seq<(Id, Seq<Result<R, E>>)>)
    ensures
        gathered(replies).len() + replies.filter(has_not_answered()).len() == replies.len(),
        gathered(replies) == gathered(replies.filter(has_answered())),
{
    lemma_filter_split_len(replies, has_answered(), has_not_answered());
    lemma_filter_idempotent(replies, has_answered());
}

/// The entries of two groups of shards that are visited in one request are
/// the entries of the first group followed by those of the second.
pub proof fn law_entries_are_independent<Id, R, E>(
    first: Seq<(Id, Seq<Result<R, E>>)>,
    second: Seq<(Id, Seq<Result<R, E>>)>,
)
    ensures
        gathered(first + second) == gathered(first) + gathered(second),
{
    Seq::filter_distributes_over_add(first, second, has_answered());
    assert(gathered(first + second) =~= gathered(first) + gathered(second));
}

/// Complete fan-out of a request: when all shards and all replicas are
/// chosen and no call to a replica of the shards can fail, the result of
/// sending has exactly one entry per shard, in the order of the shards, each
/// with one response per replica.
pub proof fn law_send_reaches_every_replica<
    S,
    Id: ShardIdentifier,
    Req,
    R,
    E,
    F: Fn(&RemoteClient<S>, &Req) -> Result<R, E>,
>(shards: Seq<Shard<S, Id>>, call: &F, req: &Req, entries: Seq<(Id, Seq<R>)>)
    requires
        sent(shards, &AllShardsSelector, &AllReplicaSelector, call, req, entries),
        forall|k: int, j: int, outcome: Result<R, E>|
            0 <= k < shards.len() && 0 <= j < shards[k].replicas.clients@.len() && #[trigger] call_ensures(
                *call,
                (&shards[k].replicas.clients@[j], req),
                outcome,
            ) ==> outcome is Ok,
    ensures
        entries.len() == shards.len(),
        forall|k: int|
            0 <= k < shards.len() ==> (#[trigger] entries[k]).0 == shards[k].id && entries[k].1.len()
                == shards[k].replicas.clients@.len(),
{
    let (visited, outcomes) = choose|visited: Seq<Shard<S, Id>>, outcomes: Seq<Seq<Result<R, E>>>| #[trigger]
        fans_out(shards, &AllShardsSelector, &AllReplicaSelector, call, req, visited, outcomes)
            && entries == gathered(replies_for(visited, outcomes));
    assert(visited == shards);
    let replies = replies_for(visited, outcomes);
    assert forall|k: int, j: int|
        0 <= k < replies.len() && 0 <= j < replies[k].1.len() implies (#[trigger] replies[k].1[j]) is Ok
        && replies[k].1.len() == shards[k].replicas.clients@.len() by {
        let chosen = choose|chosen: Seq<RemoteClient<S>>|
            AllReplicaSelector.may_select(shards[k].replicas.clients@, chosen) && #[trigger] called(
                call,
                req,
                chosen,
                outcomes[k],
            );
        assert(call_ensures(*call, (&shards[k].replicas.clients@[j], req), outcomes[k][j]));
    }
    assert forall|k: int| 0 <= k < shards.len() implies (#[trigger] replies[k]).0 == shards[k].id
        && replies[k].1.len() == shards[k].replicas.clients@.len() by {
        let chosen = choose|chosen: Seq<RemoteClient<S>>|
            AllReplicaSelector.may_select(shards[k].replicas.clients@, chosen) && #[trigger] called(
                call,
                req,
                chosen,
                outcomes[k],
            );
    }
    law_complete_fan_out(shards, replies);
}

} // verus!
