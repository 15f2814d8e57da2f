//! The view of the cluster that the query path starts from: the members that
//! the membership layer publishes, and the sharded client that is made of
//! the searchers among them.

use crate::replication::{RemoteClient, ReplicatedClient, Shard, ShardedClient, SocketAddress};
use crate::seq_lemmas::lemma_filter_push;
use crate::shard_id::ShardId;
use vstd::prelude::*;

verus! {

/// What a member of the cluster does.
#[derive(Clone, Copy, Debug)]
pub enum Service {
    /// It serves the shard `shard` of the index at `host`.
    Searcher { host: SocketAddress, shard: ShardId },
    /// It does something else.
    Other,
}

/// A member of the cluster.
#[derive(Clone, Copy, Debug)]
pub struct Member {
    pub id: u64,
    pub service: Service,
}

/// Whether `member` is a searcher of `shard`.
pub open spec fn serves(member: Member, shard: ShardId) -> bool {
    member.service matches Service::Searcher { shard: s, .. } && s == shard
}

/// `serves` as a predicate on members.
pub open spec fn serving(shard: ShardId) -> spec_fn(Member) -> bool {
    |member: Member| serves(member, shard)
}

/// The address of a searcher.
pub open spec fn host_of(member: Member) -> SocketAddress {
    match member.service {
        Service::Searcher { host, .. } => host,
        Service::Other => arbitrary(),
    }
}

/// The addresses of the searchers of `shard`, in the order of the members.
pub open spec fn searchers_of(members: Seq<Member>, shard: ShardId) -> Seq<SocketAddress> {
    members.filter(serving(shard)).map_values(|member: Member| host_of(member))
}

/// The shards that have a searcher, each where its first searcher stands.
pub open spec fn shard_order(members: Seq<Member>) -> Seq<ShardId>
    decreases members.len(),
{
    if members.len() == 0 {
        Seq::empty()
    } else {
        let before = shard_order(members.drop_last());
        match members.last().service {
            Service::Searcher { shard, .. } => if before.contains(shard) {
                before
            } else {
                before.push(shard)
            },
            Service::Other => before,
        }
    }
}

/// The addresses of clients, in order.
pub open spec fn addresses<S>(clients: Seq<RemoteClient<S>>) -> Seq<SocketAddress> {
    clients.map_values(|client: RemoteClient<S>| client.address())
}

/// The identifiers of shards, in order.
pub open spec fn shard_ids<S>(shards: Seq<Shard<S, ShardId>>) -> Seq<ShardId> {
    shards.map_values(|shard: Shard<S, ShardId>| shard.id)
}

/// The searchers of a shard after one more member.
pub proof fn lemma_searchers_push(members: Seq<Member>, member: Member, shard: ShardId)
    ensures
        searchers_of(members.push(member), shard) == if serves(member, shard) {
            searchers_of(members, shard).push(host_of(member))
        } else {
            searchers_of(members, shard)
        },
{
    lemma_filter_push(members, member, serving(shard));
    if serves(member, shard) {
        assert(searchers_of(members.push(member), shard) =~= searchers_of(members, shard).push(
            host_of(member),
        ));
    }
}

/// The shards in the order are exactly those that have a searcher, and none
/// stands there twice.
pub proof fn law_shard_order(members: Seq<Member>)
    ensures
        shard_order(members).no_duplicates(),
        forall|shard: ShardId|
            shard_order(members).contains(shard) <==> searchers_of(members, shard).len() > 0,
    decreases members.len(),
{
    if members.len() == 0 {
        reveal(Seq::filter);
        assert forall|shard: ShardId| searchers_of(members, shard).len() == 0 by {}
    } else {
        let init = members.drop_last();
        let last = members.last();
        let before = shard_order(init);
        law_shard_order(init);
        assert(init.push(last) =~= members);
        assert forall|shard: ShardId|
            shard_order(members).contains(shard) <==> searchers_of(members, shard).len() > 0 by {
            lemma_searchers_push(init, last, shard);
            match last.service {
                Service::Searcher { shard: s, .. } => {
                    if !before.contains(s) {
                        let after = before.push(s);
                        if after.contains(shard) {
                            let i = choose|i: int| 0 <= i < after.len() && after[i] == shard;
                            if i < before.len() {
                                assert(before[i] == shard);
                            }
                        }
                        if before.contains(shard) {
                            let i = choose|i: int| 0 <= i < before.len() && before[i] == shard;
                            assert(after[i] == shard);
                        }
                        if shard == s {
                            assert(after[before.len() as int] == shard);
                        }
                    }
                },
                Service::Other => {},
            }
        }
        match last.service {
            Service::Searcher { shard: s, .. } => {
                if !before.contains(s) {
                    let after = before.push(s);
                    assert forall|i: int, j: int|
                        0 <= i < after.len() && 0 <= j < after.len() && i != j implies after[i]
                        != after[j] by {
                        if i < before.len() && j < before.len() {
                        } else if i < before.len() {
                            assert(before.contains(before[i]));
                        } else {
                            assert(before.contains(before[j]));
                        }
                    }
                }
            },
            Service::Other => {},
        }
    }
}

/// The position of the shard `shard`, if it is among `shards`.
fn position<S>(shards: &Vec<Shard<S, ShardId>>, shard: ShardId) -> (found: Option<usize>)
    ensures
        match found {
            Some(k) => k < shards@.len() && shards@[k as int].id == shard,
            None => forall|k: int| 0 <= k < shards@.len() ==> shards@[k].id != shard,
        },
{
    let mut k: usize = 0;
    while k < shards.len()
        invariant
            k <= shards@.len(),
            forall|j: int| 0 <= j < k ==> shards@[j].id != shard,
        decreases shards@.len() - k,
    {
        if shards[k].id == shard {
            return Some(k);
        }
        k = k + 1;
    }
    None
}

/// The sharded client of a view of the cluster: one shard for every shard
/// that has a searcher, in the order in which the shards first appear, each
/// with clients of its searchers in the order of the members.
pub fn sharded_client<S>(members: &Vec<Member>) -> (client: ShardedClient<S, ShardId>)
    ensures
        shard_ids(client.shards@) == shard_order(members@),
        forall|k: int|
            0 <= k < client.shards@.len() ==> addresses(
                (#[trigger] client.shards@[k]).replicas.clients@,
            ) == searchers_of(members@, client.shards@[k].id),
{
    let mut shards: Vec<Shard<S, ShardId>> = Vec::new();
    let mut i: usize = 0;
    proof {
        assert(members@.take(0) =~= Seq::<Member>::empty());
        assert(shard_ids(shards@) =~= shard_order(members@.take(0)));
    }
    while i < members.len()
        invariant
            i <= members@.len(),
            shard_ids(shards@) == shard_order(members@.take(i as int)),
            forall|k: int|
                0 <= k < shards@.len() ==> addresses((#[trigger] shards@[k]).replicas.clients@)
                    == searchers_of(members@.take(i as int), shards@[k].id),
        decreases members@.len() - i,
    {
        let member: Member = members[i];
        let ghost seen = members@.take(i as int);
        let ghost before = shards@;
        proof {
            assert(members@.take(i + 1) =~= seen.push(member));
            assert(seen.push(member).drop_last() =~= seen);
            law_shard_order(seen);
            assert forall|k: int| 0 <= k < before.len() implies searchers_of(
                seen.push(member),
                (#[trigger] before[k]).id,
            ) == if serves(member, before[k].id) {
                searchers_of(seen, before[k].id).push(host_of(member))
            } else {
                searchers_of(seen, before[k].id)
            } by {
                lemma_searchers_push(seen, member, before[k].id);
            }
        }
        match member.service {
            Service::Searcher { host, shard } => {
                proof {
                    lemma_searchers_push(seen, member, shard);
                }
                match position(&shards, shard) {
                    Some(k) => {
                        shards[k].replicas.clients.push(RemoteClient::new(host));
                        proof {
                            assert(shard_ids(before)[k as int] == shard);
                            assert(shard_ids(shards@) =~= shard_ids(before));
                            assert forall|j: int| 0 <= j < shards@.len() implies addresses(
                                (#[trigger] shards@[j]).replicas.clients@,
                            ) == searchers_of(seen.push(member), shards@[j].id) by {
                                if j == k {
                                    assert(addresses(shards@[j].replicas.clients@) =~= addresses(
                                        before[j].replicas.clients@,
                                    ).push(host));
                                } else {
                                    assert(shards@[j] == before[j]);
                                    assert(shard_ids(before)[j] == before[j].id);
                                    assert(before[j].id != shard);
                                }
                            }
                        }
                    },
                    None => {
                        let mut clients: Vec<RemoteClient<S>> = Vec::new();
                        clients.push(RemoteClient::new(host));
                        shards.push(Shard::new(shard, ReplicatedClient::new(clients)));
                        proof {
                            assert(!shard_ids(before).contains(shard)) by {
                                if shard_ids(before).contains(shard) {
                                    let j = choose|j: int|
                                        0 <= j < shard_ids(before).len() && shard_ids(before)[j]
                                            == shard;
                                    assert(before[j].id == shard);
                                }
                            }
                            assert(shard_ids(shards@) =~= shard_ids(before).push(shard));
                            assert(searchers_of(seen, shard).len() == 0);
                            assert forall|j: int| 0 <= j < shards@.len() implies addresses(
                                (#[trigger] shards@[j]).replicas.clients@,
                            ) == searchers_of(seen.push(member), shards@[j].id) by {
                                if j == before.len() {
                                    assert(addresses(shards@[j].replicas.clients@) =~= seq![host]);
                                    assert(searchers_of(seen, shard).push(host) =~= seq![host]);
                                } else {
                                    assert(shards@[j] == before[j]);
                                    assert(shard_ids(before)[j] == before[j].id);
                                    assert(shard_ids(before).contains(before[j].id));
                                }
                            }
                        }
                    },
                }
            },
            Service::Other => {},
        }
        i = i + 1;
    }
    proof {
        assert(members@.take(i as int) =~= members@);
    }
    ShardedClient::new(shards)
}

} // verus!
