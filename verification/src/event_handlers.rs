//! What a gateway does when its cluster or its consumers change.

use vstd::prelude::*;
use crate::cluster;
use crate::hashing;
use crate::hashing::SHARD_COUNT;
use crate::interest;
use crate::interest::{GatewayState, SampleKind};
use crate::layers;
use crate::string_set;
use crate::subscription;
use crate::text;

verus! {

/// Handles a change of the cluster: adds or removes the node and, where that changes the
/// cluster, counts the shards of this node again. Returns the nodes in ascending order where
/// the cluster changed, so that the subscriptions have to be synchronized.
pub fn on_cluster_change<H>(
    state: &mut GatewayState<H>,
    node_id: String,
    kind: SampleKind,
) -> (changed: Option<Vec<String>>)
    requires
        old(state).wf(),
    ensures
        final(state).wf(),
        final(state).cluster.id() == old(state).cluster.id(),
        final(state).cluster.members() == interest::cluster_after(
            old(state).cluster.members(),
            node_id@,
            kind,
        ),
        match kind {
            SampleKind::Put => forall|node: Seq<char>| #[trigger]
                final(state).cluster.members().contains(node) <==> old(
                    state,
                ).cluster.members().contains(node) || node == node_id@,
            SampleKind::Delete => forall|node: Seq<char>| #[trigger]
                final(state).cluster.members().contains(node) <==> old(
                    state,
                ).cluster.members().contains(node) && node != node_id@,
        },
        changed is Some <==> final(state).cluster.members() != old(state).cluster.members(),
        changed matches Some(nodes) ==> string_set::lists(
            text::texts(nodes@),
            final(state).cluster.members(),
        ),
        final(state).cluster.cached_load() == if changed is Some {
            cluster::owned_count(
                final(state).cluster.members(),
                final(state).cluster.id(),
                SHARD_COUNT as nat,
            )
        } else {
            old(state).cluster.cached_load()
        },
        final(state).client_topics == old(state).client_topics,
        final(state).topic_subscribers == old(state).topic_subscribers,
        final(state).shard_topics == old(state).shard_topics,
        final(state).pulling_consumers == old(state).pulling_consumers,
        final(state).active_subscribers == old(state).active_subscribers,
{
    let (changed, nodes) = state.handle_cluster_change(node_id, kind);
    if changed {
        Some(nodes)
    } else {
        None
    }
}

/// What is left to do after an event of a consumer.
#[derive(Clone, Copy, PartialEq, Eq, Structural, Debug)]
pub enum ConsumerAction {
    /// Pull the interests of the consumer, then synchronize the subscriptions.
    PullAndSync,
    /// Synchronize the subscriptions.
    Sync,
    /// Nothing: the interests of the consumer were pulled before or are being pulled.
    Skip,
}

/// Handles a consumer that comes online (`Put`) or goes offline (`Delete`).
pub fn on_consumer_change<H>(
    state: &mut GatewayState<H>,
    client_id: &str,
    kind: SampleKind,
) -> (action: ConsumerAction)
    requires
        old(state).wf(),
    ensures
        final(state).wf(),
        final(state).cluster == old(state).cluster,
        final(state).active_subscribers == old(state).active_subscribers,
        match kind {
            SampleKind::Put => {
                &&& final(state).pulling_consumers@ == old(state).pulling_consumers@.insert(
                    client_id@,
                )
                &&& final(state).interests() == old(state).interests()
                &&& action == if old(state).pulling_consumers@.contains(client_id@) {
                    ConsumerAction::Skip
                } else {
                    ConsumerAction::PullAndSync
                }
            },
            SampleKind::Delete => {
                &&& final(state).pulling_consumers@ == old(state).pulling_consumers@.remove(
                    client_id@,
                )
                &&& final(state).interests() == old(state).interests().remove(client_id@)
                &&& action == ConsumerAction::Sync
            },
        },
{
    match kind {
        SampleKind::Put => {
            if state.mark_pulling(client_id) {
                ConsumerAction::PullAndSync
            } else {
                ConsumerAction::Skip
            }
        },
        SampleKind::Delete => {
            state.cleanup_interests(client_id);
            ConsumerAction::Sync
        },
    }
}

/// What has to be done so that the upstream subscriptions fit the state of the gateway.
pub struct SyncPlan<H> {
    /// Shards to subscribe to, in ascending order. The handle of each new subscription is
    /// then stored with `GatewayState::insert_subscriber`.
    pub to_subscribe: Vec<String>,
    /// Handles of the subscriptions that have to be undeclared.
    pub to_undeclare: Vec<H>,
}

/// Plans the synchronization of the upstream subscriptions, and takes the handles out that
/// are no longer wanted. Data is pulled only for shards that this node owns and in which a
/// local client has a topic. Returns `None` where nothing has to be done.
pub fn sync_shard_subscriptions<H>(state: &mut GatewayState<H>) -> (plan: Option<SyncPlan<H>>)
    requires
        old(state).wf(),
    ensures
        final(state).wf(),
        final(state).same_but_subscriptions(old(state)),
        final(state).active_subscribers@ == old(state).active_subscribers@.restrict(
            old(state).desired_shards(),
        ),
        plan is None <==> old(state).desired_shards() == old(state).active_subscribers@.dom(),
        plan matches Some(p) ==> {
            &&& string_set::lists(
                text::texts(p.to_subscribe@),
                old(state).desired_shards().difference(old(state).active_subscribers@.dom()),
            )
            &&& string_set::lists(
                string_set::listing(
                    old(state).active_subscribers@.dom().difference(old(state).desired_shards()),
                ),
                old(state).active_subscribers@.dom().difference(old(state).desired_shards()),
            )
            &&& p.to_undeclare@ == subscription::handles_of(
                old(state).active_subscribers@,
                string_set::listing(
                    old(state).active_subscribers@.dom().difference(old(state).desired_shards()),
                ),
            )
        },
{
    let ghost desired = state.desired_shards();
    let ghost active = state.active_subscribers@;
    let ghost wanted = desired.difference(active.dom());
    let ghost unwanted = active.dom().difference(desired);
    let (to_subscribe, to_undeclare) = state.compute_diff_and_take_undeclare();
    let idle = to_subscribe.len() == 0 && to_undeclare.len() == 0;
    proof {
        let list = text::texts(to_subscribe@);
        assert(list.to_set() == wanted);
        if list.len() > 0 {
            assert(list.to_set().contains(list[0]));
        }
        let gone = string_set::listing(unwanted);
        string_set::lemma_ascending_no_duplicates(gone);
        assert forall|k: int| 0 <= k < gone.len() implies active.contains_key(
            #[trigger] gone[k],
        ) by {
            assert(gone.to_set().contains(gone[k]));
        }
        subscription::lemma_all_handles(active, gone);
        if gone.len() > 0 {
            assert(gone.to_set().contains(gone[0]));
        }
        if idle {
            assert(list.to_set() =~= Set::<Seq<char>>::empty());
            assert(gone.to_set() =~= Set::<Seq<char>>::empty());
            assert forall|shard: Seq<char>| desired.contains(shard) == active.dom().contains(
                shard,
            ) by {
                assert(!wanted.contains(shard));
                assert(!unwanted.contains(shard));
            }
            assert(desired =~= active.dom());
        }
    }
    if idle {
        None
    } else {
        Some(SyncPlan { to_subscribe, to_undeclare })
    }
}

/// The subscriptions after the handles of the listed shards were stored.
pub open spec fn stored<H>(
    active: Map<Seq<char>, H>,
    shards: Seq<Seq<char>>,
    handles: Seq<H>,
) -> Map<Seq<char>, H>
    decreases shards.len(),
{
    if shards.len() == 0 {
        active
    } else {
        stored(active, shards.drop_last(), handles).insert(
            shards.last(),
            handles[shards.len() - 1],
        )
    }
}

proof fn lemma_stored_shards<H>(
    active: Map<Seq<char>, H>,
    shards: Seq<Seq<char>>,
    handles: Seq<H>,
)
    ensures
        stored(active, shards, handles).dom() == active.dom().union(shards.to_set()),
        forall|shard: Seq<char>| #[trigger]
            active.contains_key(shard) && !shards.contains(shard) ==> stored(
                active,
                shards,
                handles,
            )[shard] == active[shard],
    decreases shards.len(),
{
    let after = stored(active, shards, handles);
    if shards.len() == 0 {
        assert(after.dom() =~= active.dom().union(shards.to_set()));
    } else {
        let before = shards.drop_last();
        lemma_stored_shards(active, before, handles);
        string_set::lemma_to_set_insert(before, before.len() as int, shards.last());
        assert(before.insert(before.len() as int, shards.last()) =~= shards);
        assert(after.dom() =~= active.dom().union(shards.to_set()));
        assert forall|shard: Seq<char>| #[trigger]
            active.contains_key(shard) && !shards.contains(shard) implies after[shard]
            == active[shard] by {
            assert(shards.contains(shards[shards.len() - 1]));
            if before.contains(shard) {
                let k = choose|k: int| 0 <= k < before.len() && before[k] == shard;
                assert(shards[k] == shard);
            }
        }
    }
}

/// Once the plan of a synchronization is carried out, the node is subscribed to the desired
/// shards and to no other, a further synchronization has nothing to do, and the
/// subscriptions that were wanted before were left alone.
pub proof fn law_synchronization_reaches_the_desired_shards<H>(
    active: Map<Seq<char>, H>,
    desired: Set<Seq<char>>,
    to_subscribe: Seq<Seq<char>>,
    handles: Seq<H>,
)
    requires
        string_set::lists(to_subscribe, desired.difference(active.dom())),
        handles.len() == to_subscribe.len(),
    ensures
        stored(active.restrict(desired), to_subscribe, handles).dom() == desired,
        forall|shard: Seq<char>| #[trigger]
            active.contains_key(shard) && desired.contains(shard) ==> stored(
                active.restrict(desired),
                to_subscribe,
                handles,
            )[shard] == active[shard],
{
    let kept = active.restrict(desired);
    lemma_stored_shards(kept, to_subscribe, handles);
    assert(kept.dom().union(desired.difference(active.dom())) =~= desired);
    assert forall|shard: Seq<char>| #[trigger]
        active.contains_key(shard) && desired.contains(shard) implies stored(
        kept,
        to_subscribe,
        handles,
    )[shard] == active[shard] by {
        assert(kept.contains_key(shard));
        if to_subscribe.contains(shard) {
            assert(to_subscribe.to_set().contains(shard));
        }
    }
}

/// The interests of a consumer are pulled once: when it comes online again it is skipped,
/// until it has gone offline.
pub proof fn law_consumer_is_pulled_once(pulling: Set<Seq<char>>, client: Seq<char>)
    ensures
        pulling.insert(client).contains(client),
        pulling.insert(client).insert(client) == pulling.insert(client),
        !pulling.insert(client).remove(client).contains(client),
{
    assert(pulling.insert(client).insert(client) =~= pulling.insert(client));
}

/// No two gateways of a cluster subscribe to the same shard, so that no message is forwarded
/// by both.
pub proof fn law_gateways_share_no_shard<H>(
    a: GatewayState<H>,
    b: GatewayState<H>,
    shard: Seq<char>,
)
    requires
        a.cluster.members() == b.cluster.members(),
        a.cluster.members().contains(a.cluster.id()),
        b.cluster.members().contains(b.cluster.id()),
        a.cluster.id() != b.cluster.id(),
    ensures
        !(a.desired_shards().contains(shard) && b.desired_shards().contains(shard)),
{
    if a.desired_shards().contains(shard) && b.desired_shards().contains(shard) {
        hashing::law_one_owner_at_most(
            a.cluster.members(),
            shard,
            a.cluster.id(),
            b.cluster.id(),
        );
    }
}

/// A gateway with a client for a topic subscribes to the shard of the topic where it owns
/// that shard, and not otherwise.
pub proof fn law_owned_topics_are_subscribed<H>(state: GatewayState<H>, topic: Seq<char>)
    requires
        state.wf(),
        state.topics().contains(topic),
    ensures
        state.desired_shards().contains(hashing::shard_of(topic)) == state.owns(
            hashing::shard_of(topic),
        ),
{
    let shard = hashing::shard_of(topic);
    assert(layers::shard_has_topic(state.topics(), shard));
}

/// When another gateway of the cluster goes away, a gateway goes on to handle the topics
/// that it handled before, and takes over the topics that are now its own.
pub proof fn law_remaining_gateway_keeps_its_topics<H>(
    before: GatewayState<H>,
    after: GatewayState<H>,
    node: Seq<char>,
    topic: Seq<char>,
)
    requires
        before.wf(),
        after.wf(),
        after.interests() == before.interests(),
        after.cluster.id() == before.cluster.id(),
        after.cluster.members() == interest::cluster_after(
            before.cluster.members(),
            node,
            SampleKind::Delete,
        ),
        before.cluster.members().contains(before.cluster.id()),
        node != before.cluster.id(),
    ensures
        before.handled_topics().contains(topic) ==> after.handled_topics().contains(topic),
        before.topics().contains(topic) && after.owns(hashing::shard_of(topic))
            ==> after.handled_topics().contains(topic),
{
    interest::law_index_follows_from_interests(before, after);
    let shard = hashing::shard_of(topic);
    let nodes = before.cluster.members();
    let id = before.cluster.id();
    if before.owns(shard) {
        assert(nodes.remove(node).contains(id));
        assert forall|other: Seq<char>| #[trigger]
            nodes.remove(node).contains(other) && other != id implies hashing::outranks(
            shard,
            id,
            other,
        ) by {
            assert(nodes.contains(other));
        }
        assert(hashing::is_owner_among(nodes.remove(node), shard, id));
    }
}

} // verus!
