//! Gateway state: cluster membership, the interest index, and the active subscriptions.

use vstd::prelude::*;
use crate::cluster;
use crate::cluster::ClusterState;
use crate::hashing;
use crate::hashing::SHARD_COUNT;
use crate::layers;
use crate::string_map::StringMap;
use crate::string_set;
use crate::string_set::StringSet;
use crate::subscription;
use crate::subscription::SubscriptionManager;
use crate::text;

verus! {

/// What a liveliness event says of its key: that it appeared or that it went away.
#[derive(Clone, Copy, PartialEq, Eq, Structural)]
pub enum SampleKind {
    Put,
    Delete,
}

/// A topic in which a client has become interested, and its shard.
pub struct NewInterest {
    pub topic: String,
    pub shard: String,
}

/// The first layer after `client` has registered `topics`.
pub open spec fn registered(
    client_topics: layers::Layer,
    client: Seq<char>,
    topics: Seq<Seq<char>>,
) -> layers::Layer {
    if topics.len() == 0 {
        client_topics
    } else {
        client_topics.insert(
            client,
            layers::at(client_topics, client).union(topics.to_set()),
        )
    }
}

/// The listed topics that are not `known`, each at its first occurrence.
pub open spec fn new_topics(known: Set<Seq<char>>, topics: Seq<Seq<char>>) -> Seq<Seq<char>>
    decreases topics.len(),
{
    if topics.len() == 0 {
        seq![]
    } else {
        let before = new_topics(known, topics.drop_last());
        let topic = topics.last();
        if known.contains(topic) || topics.drop_last().contains(topic) {
            before
        } else {
            before.push(topic)
        }
    }
}

/// `interests` names the given topics, each with its shard.
pub open spec fn names_interests(interests: Seq<NewInterest>, topics: Seq<Seq<char>>) -> bool {
    &&& interests.len() == topics.len()
    &&& forall|i: int|
        0 <= i < topics.len() ==> {
            &&& #[trigger] interests[i].topic@ == topics[i]
            &&& interests[i].shard@ == hashing::shard_of(topics[i])
        }
}

/// The nodes of a cluster after a liveliness event of `node`.
pub open spec fn cluster_after(
    nodes: Set<Seq<char>>,
    node: Seq<char>,
    kind: SampleKind,
) -> Set<Seq<char>> {
    match kind {
        SampleKind::Put => nodes.insert(node),
        SampleKind::Delete => nodes.remove(node),
    }
}

/// How a topic is described in the statistics: its name, and its shard in brackets.
pub open spec fn described(topic: Seq<char>) -> Seq<char> {
    topic + " ("@ + hashing::shard_of(topic) + ")"@
}

/// Statistics of a gateway at one point in time.
pub struct StatsSnapshot {
    pub my_id: String,
    pub cluster_size: usize,
    pub nodes: StringSet,
    pub owned_shards: usize,
    pub total_interests: usize,
    pub active_shards: usize,
    pub active_details: Vec<String>,
}

/// Combined gateway state. `H` is the handle of an upstream subscription.
///
/// The interest index has three layers:
/// - `client_topics`: client to topics, for the cleanup when a consumer goes offline
/// - `topic_subscribers`: topic to clients, the filter of the forwarding path
/// - `shard_topics`: shard to topics, for subscribing to a shard and unsubscribing from it
pub struct GatewayState<H> {
    pub cluster: ClusterState,
    pub client_topics: StringMap<StringSet>,
    pub topic_subscribers: StringMap<StringSet>,
    pub shard_topics: StringMap<StringSet>,
    /// Consumers whose interests have been pulled or are being pulled.
    pub pulling_consumers: StringSet,
    /// Active upstream subscriptions, one for each subscribed shard.
    pub active_subscribers: SubscriptionManager<H>,
}

impl<H> GatewayState<H> {
    /// The parts are well formed and the three layers of the index agree.
    pub open spec fn wf(&self) -> bool {
        &&& self.cluster.wf()
        &&& layers::layer_wf(self.client_topics)
        &&& layers::layer_wf(self.topic_subscribers)
        &&& layers::layer_wf(self.shard_topics)
        &&& self.pulling_consumers.wf()
        &&& self.active_subscribers.wf()
        &&& layers::consistent(
            self.interests(),
            layers::layer(self.topic_subscribers),
            layers::layer(self.shard_topics),
        )
    }

    /// The topics of each client.
    pub open spec fn interests(&self) -> layers::Layer {
        layers::layer(self.client_topics)
    }

    /// The topics in which some client is interested.
    pub open spec fn topics(&self) -> Set<Seq<char>> {
        layers::layer(self.topic_subscribers).dom()
    }

    /// Whether this node takes `shard` as its own.
    pub open spec fn owns(&self, shard: Seq<char>) -> bool {
        hashing::owns(self.cluster.members(), self.cluster.id(), shard)
    }

    /// The shards to which this node has to be subscribed: those that it owns and in which
    /// some client has a topic.
    pub open spec fn desired_shards(&self) -> Set<Seq<char>> {
        Set::new(
            |shard: Seq<char>|
                layers::layer(self.shard_topics).contains_key(shard) && self.owns(shard),
        )
    }

    /// The topics of local clients that lie in a shard that this node owns.
    pub open spec fn handled_topics(&self) -> Set<Seq<char>> {
        Set::new(
            |topic: Seq<char>|
                self.topics().contains(topic) && self.owns(hashing::shard_of(topic)),
        )
    }

    pub fn new(my_id: String) -> (state: Self)
        ensures
            state.wf(),
            state.cluster.id() == my_id@,
            state.cluster.members() == Set::<Seq<char>>::empty().insert(my_id@),
            state.cluster.cached_load() == 0,
            state.interests() == Map::<Seq<char>, Set<Seq<char>>>::empty(),
            state.topics() == Set::<Seq<char>>::empty(),
            state.pulling_consumers@ == Set::<Seq<char>>::empty(),
            state.active_subscribers@ == Map::<Seq<char>, H>::empty(),
    {
        let state = GatewayState {
            cluster: ClusterState::new(my_id),
            client_topics: StringMap::new(),
            topic_subscribers: StringMap::new(),
            shard_topics: StringMap::new(),
            pulling_consumers: StringSet::new(),
            active_subscribers: SubscriptionManager::new(),
        };
        proof {
            let empty = Map::<Seq<char>, Set<Seq<char>>>::empty();
            assert(layers::layer(state.client_topics) =~= empty);
            assert(layers::layer(state.topic_subscribers) =~= empty);
            assert(layers::layer(state.shard_topics) =~= empty);
            assert(layers::subscribers_of(empty) =~= empty);
            assert(layers::shards_of(empty.dom()) =~= empty);
        }
        state
    }

    pub fn my_id(&self) -> (id: &str)
        ensures
            id@ == self.cluster.id(),
    {
        self.cluster.my_id()
    }

    /// Registers the interests of a consumer from its topic list, which has commas between
    /// the topics. Returns the topics that are new for the consumer, in the order of the
    /// list.
    pub fn register_interests(&mut self, client_id: &str, topics: &str) -> (added: Vec<
        NewInterest,
    >)
        requires
            old(self).wf(),
        ensures
            final(self).wf(),
            final(self).interests() == registered(
                old(self).interests(),
                client_id@,
                text::list_items(topics@, ','),
            ),
            final(self).cluster == old(self).cluster,
            final(self).pulling_consumers == old(self).pulling_consumers,
            final(self).active_subscribers == old(self).active_subscribers,
            names_interests(
                added@,
                new_topics(
                    layers::at(old(self).interests(), client_id@),
                    text::list_items(topics@, ','),
                ),
            ),
    {
        let items = text::read_list(topics, ',');
        let ghost names = text::texts(items@);
        let ghost known = layers::at(self.interests(), client_id@);
        let mut added: Vec<NewInterest> = Vec::new();
        let mut i: usize = 0;
        assert(names.take(0) =~= seq![]);
        while i < items.len()
            invariant
                names == text::texts(items@),
                known == layers::at(old(self).interests(), client_id@),
                i <= items.len(),
                self.wf(),
                self.interests() == registered(
                    old(self).interests(),
                    client_id@,
                    names.take(i as int),
                ),
                self.cluster == old(self).cluster,
                self.pulling_consumers == old(self).pulling_consumers,
                self.active_subscribers == old(self).active_subscribers,
                names_interests(added@, new_topics(known, names.take(i as int))),
            decreases items.len() - i,
        {
            let topic = &items[i];
            let ghost done = names.take(i as int);
            let ghost before = *self;
            proof {
                let next = names.take(i + 1);
                assert(next.drop_last() =~= done);
                lemma_registered_step(old(self).interests(), client_id@, done, topic@);
                assert(next =~= done.push(topic@));
                layers::lemma_add_keeps_consistent(
                    self.interests(),
                    layers::layer(self.topic_subscribers),
                    layers::layer(self.shard_topics),
                    client_id@,
                    topic@,
                );
            }
            let is_new = layers::add_to_layer(
                &mut self.client_topics,
                client_id,
                topic.as_str(),
            );
            if is_new {
                let _ = layers::add_to_layer(
                    &mut self.topic_subscribers,
                    topic.as_str(),
                    client_id,
                );
                let shard = hashing::get_shard_id(topic.as_str());
                let _ = layers::add_to_layer(
                    &mut self.shard_topics,
                    shard.as_str(),
                    topic.as_str(),
                );
                added.push(NewInterest { topic: topic.clone(), shard });
            } else {
                proof {
                    let topics = layers::at(before.interests(), client_id@);
                    assert(topics.insert(topic@) =~= topics);
                    assert(self.interests() =~= before.interests());
                }
            }
            i += 1;
        }
        assert(names.take(i as int) =~= names);
        added
    }

    /// Cleans up all interests of a consumer that went offline. Its interests can then be
    /// pulled again.
    pub fn cleanup_interests(&mut self, client_id: &str)
        requires
            old(self).wf(),
        ensures
            final(self).wf(),
            final(self).interests() == old(self).interests().remove(client_id@),
            final(self).pulling_consumers@ == old(self).pulling_consumers@.remove(client_id@),
            final(self).cluster == old(self).cluster,
            final(self).active_subscribers == old(self).active_subscribers,
    {
        let _ = self.pulling_consumers.remove(client_id);
        match self.client_topics.remove(client_id) {
            None => {
                assert(self.interests() =~= old(self).interests().remove(client_id@));
                assert(self.interests() =~= old(self).interests());
            },
            Some(topics) => {
                let ghost names = topics.elements();
                let ghost others = self.interests();
                let n: usize = topics.len();
                let mut i: usize = 0;
                proof {
                    assert(others =~= old(self).interests().remove(client_id@));
                    assert(names.skip(0) =~= names);
                    assert(others.insert(client_id@, names.to_set()) =~= old(self).interests());
                    assert(old(self).interests()[client_id@] == names.to_set());
                    if n == 0 {
                        assert(names.to_set() =~= Set::<Seq<char>>::empty());
                    }
                    assert(Set::<Seq<char>>::empty().union(names.to_set()) =~= names.to_set());
                    assert(registered(others, client_id@, names) == old(self).interests());
                }
                while i < n
                    invariant
                        topics.wf(),
                        names == topics.elements(),
                        n == names.len(),
                        i <= n,
                        self.cluster.wf(),
                        layers::layer_wf(self.client_topics),
                        layers::layer_wf(self.topic_subscribers),
                        layers::layer_wf(self.shard_topics),
                        self.pulling_consumers.wf(),
                        self.active_subscribers.wf(),
                        self.interests() == others,
                        !others.contains_key(client_id@),
                        layers::consistent(
                            registered(others, client_id@, names.skip(i as int)),
                            layers::layer(self.topic_subscribers),
                            layers::layer(self.shard_topics),
                        ),
                        self.pulling_consumers@ == old(self).pulling_consumers@.remove(client_id@),
                        self.cluster == old(self).cluster,
                        self.active_subscribers == old(self).active_subscribers,
                    decreases n - i,
                {
                    let topic = topics.get(i);
                    proof {
                        let left = names.skip(i as int);
                        string_set::lemma_ascending_skip(names, i as int);
                        lemma_unregister_first(others, client_id@, left);
                        assert(left.skip(1) =~= names.skip(i + 1));
                        layers::lemma_remove_keeps_consistent(
                            registered(others, client_id@, left),
                            layers::layer(self.topic_subscribers),
                            layers::layer(self.shard_topics),
                            client_id@,
                            topic@,
                        );
                    }
                    if layers::remove_from_layer(
                        &mut self.topic_subscribers,
                        topic.as_str(),
                        client_id,
                    ) {
                        let shard = hashing::get_shard_id(topic.as_str());
                        let _ = layers::remove_from_layer(
                            &mut self.shard_topics,
                            shard.as_str(),
                            topic.as_str(),
                        );
                    }
                    i += 1;
                }
                assert(names.skip(i as int) =~= seq![]);
            },
        }
    }

    /// Marks a consumer as one whose interests are pulled. Returns whether it was not marked
    /// before, so that its interests have to be pulled now.
    pub fn mark_pulling(&mut self, client_id: &str) -> (first: bool)
        requires
            old(self).wf(),
        ensures
            final(self).wf(),
            final(self).pulling_consumers@ == old(self).pulling_consumers@.insert(client_id@),
            first == !old(self).pulling_consumers@.contains(client_id@),
            final(self).cluster == old(self).cluster,
            final(self).client_topics == old(self).client_topics,
            final(self).topic_subscribers == old(self).topic_subscribers,
            final(self).shard_topics == old(self).shard_topics,
            final(self).active_subscribers == old(self).active_subscribers,
    {
        self.pulling_consumers.insert(client_id.to_owned())
    }

    /// Whether a topic has any local subscribers (the filter of the forwarding path).
    pub fn has_subscribers(&self, topic: &str) -> (yes: bool)
        requires
            self.wf(),
        ensures
            yes == self.topics().contains(topic@),
            yes == layers::mentions(self.interests(), topic@),
    {
        self.topic_subscribers.contains_key(topic)
    }

    /// The shards in which some client has a topic and that this node owns.
    pub fn get_active_shards(&self) -> (shards: StringSet)
        requires
            self.wf(),
        ensures
            shards.wf(),
            shards@ == self.desired_shards(),
    {
        let keys = self.shard_topics.keys();
        let ghost names = keys.elements();
        let mut shards = StringSet::new();
        let n: usize = keys.len();
        let mut i: usize = 0;
        proof {
            assert(names.take(0).to_set() =~= Set::<Seq<char>>::empty());
            assert(shards@ =~= names.take(0).to_set().filter(|s: Seq<char>| self.owns(s)));
        }
        while i < n
            invariant
                self.wf(),
                names == keys.elements(),
                n == names.len(),
                i <= n,
                shards.wf(),
                shards@ == names.take(i as int).to_set().filter(|s: Seq<char>| self.owns(s)),
            decreases n - i,
        {
            let shard = keys.get(i);
            let ghost done = names.take(i as int);
            if self.cluster.is_owner(shard.as_str()) {
                let _ = shards.insert(shard.clone());
            }
            proof {
                assert(names.take(i + 1) =~= done.insert(i as int, shard@));
                string_set::lemma_to_set_insert(done, i as int, shard@);
                assert(shards@ =~= names.take(i + 1).to_set().filter(
                    |s: Seq<char>| self.owns(s),
                ));
            }
            i += 1;
        }
        proof {
            assert(names.take(i as int) =~= names);
            assert(shards@ =~= self.desired_shards());
        }
        shards
    }

    /// Computes which shards have to be subscribed and which unsubscribed, given the present
    /// ownership and the interests of the local clients. Both lists are in ascending order.
    /// The subscriptions themselves are left as they are.
    pub fn compute_subscription_diff(&self) -> (diff: (Vec<String>, Vec<String>))
        requires
            self.wf(),
        ensures
            string_set::lists(
                text::texts(diff.0@),
                self.desired_shards().difference(self.active_subscribers@.dom()),
            ),
            string_set::lists(
                text::texts(diff.1@),
                self.active_subscribers@.dom().difference(self.desired_shards()),
            ),
    {
        let desired = self.get_active_shards();
        let current = self.active_subscribers.current_shards();
        (desired.difference(&current), current.difference(&desired))
    }

    /// Removes the handles of the given shards and returns them.
    pub fn take_subscribers_for_undeclare(&mut self, shards: &[String]) -> (handles: Vec<H>)
        requires
            old(self).wf(),
        ensures
            final(self).wf(),
            final(self).active_subscribers@ == old(self).active_subscribers@.remove_keys(
                text::texts(shards@).to_set(),
            ),
            handles@ == subscription::handles_of(
                old(self).active_subscribers@,
                text::texts(shards@),
            ),
            final(self).same_but_subscriptions(old(self)),
    {
        self.active_subscribers.take_for_undeclare(shards)
    }

    /// Everything but the active subscriptions is as in `other`.
    pub open spec fn same_but_subscriptions(&self, other: &Self) -> bool {
        &&& self.cluster == other.cluster
        &&& self.client_topics == other.client_topics
        &&& self.topic_subscribers == other.topic_subscribers
        &&& self.shard_topics == other.shard_topics
        &&& self.pulling_consumers == other.pulling_consumers
    }

    /// Stores the handle of a newly declared subscription.
    pub fn insert_subscriber(&mut self, shard: String, handle: H)
        requires
            old(self).wf(),
        ensures
            final(self).wf(),
            final(self).active_subscribers@ == old(self).active_subscribers@.insert(
                shard@,
                handle,
            ),
            final(self).same_but_subscriptions(old(self)),
    {
        self.active_subscribers.insert(shard, handle);
    }

    /// Computes the shards that have to be subscribed, and takes out the handles of those
    /// that are no longer wanted, in one step.
    pub fn compute_diff_and_take_undeclare(&mut self) -> (result: (Vec<String>, Vec<H>))
        requires
            old(self).wf(),
        ensures
            final(self).wf(),
            string_set::lists(
                text::texts(result.0@),
                old(self).desired_shards().difference(old(self).active_subscribers@.dom()),
            ),
            result.1@ == subscription::handles_of(
                old(self).active_subscribers@,
                string_set::listing(
                    old(self).active_subscribers@.dom().difference(old(self).desired_shards()),
                ),
            ),
            string_set::lists(
                string_set::listing(
                    old(self).active_subscribers@.dom().difference(old(self).desired_shards()),
                ),
                old(self).active_subscribers@.dom().difference(old(self).desired_shards()),
            ),
            final(self).active_subscribers@ == old(self).active_subscribers@.restrict(
                old(self).desired_shards(),
            ),
            final(self).same_but_subscriptions(old(self)),
    {
        let (to_subscribe, to_unsubscribe) = self.compute_subscription_diff();
        let handles = self.take_subscribers_for_undeclare(to_unsubscribe.as_slice());
        proof {
            string_set::lemma_is_listing(
                text::texts(to_unsubscribe@),
                old(self).active_subscribers@.dom().difference(old(self).desired_shards()),
            );
            assert(self.active_subscribers@ =~= old(self).active_subscribers@.restrict(
                old(self).desired_shards(),
            ));
        }
        (to_subscribe, handles)
    }

    /// Adds or removes a node and, where that changes the cluster, counts the shards of this
    /// node again. Returns whether the cluster changed, and its nodes in ascending order.
    pub fn handle_cluster_change(&mut self, node_id: String, kind: SampleKind) -> (result: (
        bool,
        Vec<String>,
    ))
        requires
            old(self).wf(),
        ensures
            final(self).wf(),
            final(self).cluster.members() == cluster_after(
                old(self).cluster.members(),
                node_id@,
                kind,
            ),
            match kind {
                SampleKind::Put => forall|node: Seq<char>| #[trigger]
                    final(self).cluster.members().contains(node) <==> old(
                        self,
                    ).cluster.members().contains(node) || node == node_id@,
                SampleKind::Delete => forall|node: Seq<char>| #[trigger]
                    final(self).cluster.members().contains(node) <==> old(
                        self,
                    ).cluster.members().contains(node) && node != node_id@,
            },
            result.0 == (final(self).cluster.members() != old(self).cluster.members()),
            string_set::lists(text::texts(result.1@), final(self).cluster.members()),
            final(self).cluster.id() == old(self).cluster.id(),
            final(self).cluster.cached_load() == if result.0 {
                cluster::owned_count(
                    final(self).cluster.members(),
                    final(self).cluster.id(),
                    SHARD_COUNT as nat,
                )
            } else {
                old(self).cluster.cached_load()
            },
            final(self).client_topics == old(self).client_topics,
            final(self).topic_subscribers == old(self).topic_subscribers,
            final(self).shard_topics == old(self).shard_topics,
            final(self).pulling_consumers == old(self).pulling_consumers,
            final(self).active_subscribers == old(self).active_subscribers,
    {
        let ghost before = self.cluster.members();
        let ghost node = node_id@;
        let changed = match kind {
            SampleKind::Put => self.cluster.add_node(node_id),
            SampleKind::Delete => self.cluster.remove_node(node_id.as_str()),
        };
        proof {
            if changed {
                assert(before.contains(node) != self.cluster.members().contains(node));
            } else {
                assert(self.cluster.members() =~= before);
            }
        }
        if changed {
            self.cluster.refresh_load_stats();
        }
        let nodes = self.cluster.nodes().to_vec();
        (changed, nodes)
    }

    /// Collects the statistics of the gateway. The described topics are in ascending order.
    pub fn stats_snapshot(&self) -> (snapshot: StatsSnapshot)
        requires
            self.wf(),
        ensures
            snapshot.my_id@ == self.cluster.id(),
            snapshot.cluster_size == self.cluster.members().len(),
            snapshot.nodes.wf(),
            snapshot.nodes@ == self.cluster.members(),
            snapshot.owned_shards == self.cluster.cached_load(),
            snapshot.total_interests == self.topics().len(),
            snapshot.active_shards == self.desired_shards().len(),
            string_set::lists(string_set::listing(self.handled_topics()), self.handled_topics()),
            text::texts(snapshot.active_details@) == string_set::listing(
                self.handled_topics(),
            ).map_values(|topic: Seq<char>| described(topic)),
    {
        let keys = self.topic_subscribers.keys();
        let ghost names = keys.elements();
        let n: usize = keys.len();
        let mut shards = StringSet::new();
        let mut details: Vec<String> = Vec::new();
        let ghost mut handled: Seq<Seq<char>> = seq![];
        let mut i: usize = 0;
        assert(names.take(0).to_set() =~= Set::<Seq<char>>::empty());
        assert(handled.to_set() =~= names.take(0).to_set().filter(
            |t: Seq<char>| self.owns(hashing::shard_of(t)),
        ));
        while i < n
            invariant
                self.wf(),
                keys.wf(),
                names == keys.elements(),
                n == names.len(),
                i <= n,
                shards.wf(),
                string_set::lists(
                    handled,
                    names.take(i as int).to_set().filter(
                        |t: Seq<char>| self.owns(hashing::shard_of(t)),
                    ),
                ),
                forall|shard: Seq<char>| #[trigger]
                    shards@.contains(shard) <==> layers::shard_has_topic(handled.to_set(), shard),
                text::texts(details@) == handled.map_values(|topic: Seq<char>| described(topic)),
            decreases n - i,
        {
            let topic = keys.get(i);
            let shard = hashing::get_shard_id(topic.as_str());
            let ghost done = names.take(i as int);
            let ghost handled_before = handled;
            let ghost details_before = text::texts(details@);
            let ghost shards_before = shards@;
            let ghost shard_name = shard@;
            proof {
                assert(names.take(i + 1) =~= done.insert(i as int, topic@));
                string_set::lemma_to_set_insert(done, i as int, topic@);
                string_set::lemma_to_set_insert(handled, handled.len() as int, topic@);
                assert(handled.push(topic@) =~= handled.insert(handled.len() as int, topic@));
                assert forall|k: int| 0 <= k < handled.len() implies crate::order::str_lt(
                    #[trigger] handled[k],
                    topic@,
                ) by {
                    assert(handled.to_set().contains(handled[k]));
                    assert(done.to_set().contains(handled[k]));
                    let j = choose|j: int| 0 <= j < done.len() && done[j] == handled[k];
                    assert(names[j] == done[j]);
                }
            }
            if self.cluster.is_owner(shard.as_str()) {
                let mut line = topic.clone();
                line.append(" (");
                line.append(shard.as_str());
                line.append(")");
                details.push(line);
                let _ = shards.insert(shard);
                proof {
                    handled = handled.push(topic@);
                    assert(text::texts(details@) =~= details_before.push(described(topic@)));
                    assert(text::texts(details@) =~= handled.map_values(
                        |topic: Seq<char>| described(topic),
                    ));
                    assert forall|s: Seq<char>| #[trigger]
                        shards@.contains(s) <==> layers::shard_has_topic(handled.to_set(), s) by {
                        assert(shards_before.contains(s) <==> layers::shard_has_topic(
                            handled_before.to_set(),
                            s,
                        ));
                        if layers::shard_has_topic(handled_before.to_set(), s) {
                            let t = choose|t: Seq<char>| #[trigger]
                                handled_before.to_set().contains(t) && hashing::shard_of(t) == s;
                            assert(handled.to_set().contains(t));
                        }
                        if layers::shard_has_topic(handled.to_set(), s) && s != shard_name {
                            let t = choose|t: Seq<char>| #[trigger]
                                handled.to_set().contains(t) && hashing::shard_of(t) == s;
                            assert(handled_before.to_set().contains(t));
                        }
                        assert(handled.to_set().contains(topic@));
                    }
                }
            }
            proof {
                assert(handled.to_set() =~= names.take(i + 1).to_set().filter(
                    |t: Seq<char>| self.owns(hashing::shard_of(t)),
                ));
            }
            i += 1;
        }
        proof {
            assert(names.take(i as int) =~= names);
            assert(handled.to_set() =~= self.handled_topics());
            string_set::lemma_is_listing(handled, self.handled_topics());
            assert(shards@ =~= self.desired_shards()) by {
                self.lemma_desired_shards();
            }
            assert(self.topics() =~= self.topic_subscribers@.dom());
        }
        StatsSnapshot {
            my_id: self.cluster.my_id().to_owned(),
            cluster_size: self.cluster.nodes().len(),
            nodes: self.cluster.nodes().duplicate(),
            owned_shards: self.cluster.owned_shards_cache(),
            total_interests: self.topic_subscribers.len(),
            active_shards: shards.len(),
            active_details: details,
        }
    }

    /// A shard is desired where a handled topic lies in it.
    proof fn lemma_desired_shards(&self)
        requires
            self.wf(),
        ensures
            forall|shard: Seq<char>| #[trigger]
                self.desired_shards().contains(shard) <==> layers::shard_has_topic(
                    self.handled_topics(),
                    shard,
                ),
    {
        assert forall|shard: Seq<char>| #[trigger]
            self.desired_shards().contains(shard) <==> layers::shard_has_topic(
                self.handled_topics(),
                shard,
            ) by {
            if self.desired_shards().contains(shard) {
                let t = choose|t: Seq<char>| #[trigger]
                    self.topics().contains(t) && hashing::shard_of(t) == shard;
                assert(self.handled_topics().contains(t));
            }
            if layers::shard_has_topic(self.handled_topics(), shard) {
                let t = choose|t: Seq<char>| #[trigger]
                    self.handled_topics().contains(t) && hashing::shard_of(t) == shard;
                assert(self.topics().contains(t));
            }
        }
    }
}

proof fn lemma_registered_step(
    client_topics: layers::Layer,
    client: Seq<char>,
    done: Seq<Seq<char>>,
    topic: Seq<char>,
)
    ensures
        registered(client_topics, client, done.push(topic)) == layers::with(
            registered(client_topics, client, done),
            client,
            topic,
        ),
        layers::at(registered(client_topics, client, done), client).contains(topic) == (layers::at(
            client_topics,
            client,
        ).contains(topic) || done.contains(topic)),
{
    let known = layers::at(client_topics, client);
    assert(done.push(topic) =~= done.insert(done.len() as int, topic));
    string_set::lemma_to_set_insert(done, done.len() as int, topic);
    assert(known.union(done.to_set().insert(topic)) =~= known.union(done.to_set()).insert(topic));
    if done.len() == 0 {
        assert(done.to_set() =~= Set::<Seq<char>>::empty());
        assert(known.union(done.to_set()) =~= known);
    }
    assert(registered(client_topics, client, done.push(topic)) =~= layers::with(
        registered(client_topics, client, done),
        client,
        topic,
    ));
}

/// Taking the first of the topics away from a client that has no other topics than these.
proof fn lemma_unregister_first(
    others: layers::Layer,
    client: Seq<char>,
    topics: Seq<Seq<char>>,
)
    requires
        !others.contains_key(client),
        topics.len() > 0,
        string_set::ascending(topics),
    ensures
        layers::at(registered(others, client, topics), client).contains(topics[0]),
        layers::without(registered(others, client, topics), client, topics[0]) == registered(
            others,
            client,
            topics.skip(1),
        ),
{
    let all = registered(others, client, topics);
    let rest = topics.skip(1);
    assert(topics.to_set().contains(topics[0]));
    string_set::lemma_to_set_remove(topics, 0);
    assert(topics.remove(0) =~= rest);
    assert(all[client] =~= topics.to_set());
    assert(Set::<Seq<char>>::empty().union(rest.to_set()) =~= rest.to_set());
    if rest.len() == 0 {
        assert(rest.to_set() =~= Set::<Seq<char>>::empty());
        assert(all.remove(client) =~= others);
    } else {
        assert(rest.to_set().contains(rest[0]));
        assert(all.insert(client, rest.to_set()) =~= registered(others, client, rest));
    }
}

/// A topic that a client registers has a subscriber.
pub proof fn law_registered_topics_have_subscribers(
    client_topics: layers::Layer,
    client: Seq<char>,
    topics: Seq<Seq<char>>,
    topic: Seq<char>,
)
    requires
        topics.contains(topic),
    ensures
        layers::mentions(registered(client_topics, client, topics), topic),
{
    let after = registered(client_topics, client, topics);
    assert(topics.to_set().contains(topic));
    assert(after.contains_key(client) && after[client].contains(topic));
}

/// To register the same list again changes nothing, and no topic of it is new.
pub proof fn law_registering_again_changes_nothing(
    client_topics: layers::Layer,
    client: Seq<char>,
    topics: Seq<Seq<char>>,
)
    ensures
        registered(registered(client_topics, client, topics), client, topics) == registered(
            client_topics,
            client,
            topics,
        ),
        new_topics(
            layers::at(registered(client_topics, client, topics), client),
            topics,
        ) == Seq::<Seq<char>>::empty(),
{
    let once = registered(client_topics, client, topics);
    let known = layers::at(once, client);
    if topics.len() > 0 {
        assert(once[client].union(topics.to_set()) =~= once[client]);
        assert(registered(once, client, topics) =~= once);
    }
    lemma_no_new_topics(known, topics);
}

proof fn lemma_no_new_topics(known: Set<Seq<char>>, topics: Seq<Seq<char>>)
    requires
        topics.to_set().subset_of(known),
    ensures
        new_topics(known, topics) == Seq::<Seq<char>>::empty(),
    decreases topics.len(),
{
    if topics.len() > 0 {
        assert(topics.to_set().contains(topics.last()));
        assert forall|topic: Seq<char>| topics.drop_last().to_set().contains(
            topic,
        ) implies known.contains(topic) by {
            let k = choose|k: int|
                0 <= k < topics.drop_last().len() && topics.drop_last()[k] == topic;
            assert(topics[k] == topic);
            assert(topics.to_set().contains(topic));
        }
        lemma_no_new_topics(known, topics.drop_last());
    }
}

/// When a consumer goes offline, everything is as it was before it registered.
pub proof fn law_cleanup_undoes_registering(
    client_topics: layers::Layer,
    client: Seq<char>,
    topics: Seq<Seq<char>>,
)
    requires
        !client_topics.contains_key(client),
    ensures
        registered(client_topics, client, topics).remove(client) == client_topics,
{
    assert(registered(client_topics, client, topics).remove(client) =~= client_topics);
}

/// What one consumer does leaves the interests of the others alone.
pub proof fn law_consumers_are_independent(
    client_topics: layers::Layer,
    client: Seq<char>,
    topics: Seq<Seq<char>>,
    other: Seq<char>,
)
    requires
        other != client,
    ensures
        layers::at(registered(client_topics, client, topics), other) == layers::at(
            client_topics,
            other,
        ),
        layers::at(client_topics.remove(client), other) == layers::at(client_topics, other),
{
}

/// After a consumer went offline, a topic has subscribers only where another consumer is
/// interested in it.
pub proof fn law_topics_of_offline_consumer_lose_it(
    client_topics: layers::Layer,
    client: Seq<char>,
    topic: Seq<char>,
)
    ensures
        layers::mentions(client_topics.remove(client), topic) <==> exists|other: Seq<char>|
            other != client && #[trigger] layers::at(client_topics, other).contains(topic),
{
    let after = client_topics.remove(client);
    if layers::mentions(after, topic) {
        let other = choose|other: Seq<char>| #[trigger]
            after.contains_key(other) && after[other].contains(topic);
        assert(other != client && layers::at(client_topics, other).contains(topic));
    }
    if exists|other: Seq<char>|
        other != client && #[trigger] layers::at(client_topics, other).contains(topic) {
        let other = choose|other: Seq<char>|
            other != client && #[trigger] layers::at(client_topics, other).contains(topic);
        assert(after.contains_key(other) && after[other].contains(topic));
    }
}

/// The second and the third layer hold nothing that does not follow from the interests of
/// the clients: two states with the same interests have the same index.
pub proof fn law_index_follows_from_interests<H>(a: GatewayState<H>, b: GatewayState<H>)
    requires
        a.wf(),
        b.wf(),
        a.interests() == b.interests(),
    ensures
        layers::layer(a.topic_subscribers) == layers::layer(b.topic_subscribers),
        layers::layer(a.shard_topics) == layers::layer(b.shard_topics),
{
}

/// A node that joins and leaves again leaves the cluster as it was.
pub proof fn law_leaving_undoes_joining(nodes: Set<Seq<char>>, node: Seq<char>)
    requires
        !nodes.contains(node),
    ensures
        cluster_after(cluster_after(nodes, node, SampleKind::Put), node, SampleKind::Delete)
            == nodes,
{
    assert(nodes.insert(node).remove(node) =~= nodes);
}

/// Which topics a client has after registering: those that it had and all that are listed.
/// The other clients keep theirs, and no client appears without a topic.
pub proof fn law_all_listed_topics_are_registered(
    client_topics: layers::Layer,
    client: Seq<char>,
    topics: Seq<Seq<char>>,
    any_client: Seq<char>,
    topic: Seq<char>,
)
    ensures
        ({
            let after = registered(client_topics, client, topics);
            let had = client_topics.contains_key(any_client)
                && client_topics[any_client].contains(topic);
            &&& (after.contains_key(any_client) && after[any_client].contains(topic)) <==> (had
                || (any_client == client && topics.contains(topic)))
            &&& after.contains_key(any_client) <==> (client_topics.contains_key(any_client) || (
            any_client == client && topics.len() > 0))
        }),
{
    assert(topics.to_set().contains(topic) <==> topics.contains(topic));
    assert(topics.contains(topic) ==> topics.len() > 0);
}

/// The set of a client's topics, empty where the client is not listed.
pub proof fn law_topics_at_a_client(client_topics: layers::Layer, client: Seq<char>)
    ensures
        client_topics.contains_key(client) ==> layers::at(client_topics, client)
            == client_topics[client],
        !client_topics.contains_key(client) ==> layers::at(client_topics, client) == Set::<
            Seq<char>,
        >::empty(),
{
}

/// The topics that are new for a client: all that are listed and not known, each once, in
/// the order in which they are first listed.
pub proof fn law_new_topics_are_the_unknown_ones(known: Set<Seq<char>>, topics: Seq<Seq<char>>)
    ensures
        new_topics(known, topics).no_duplicates(),
        forall|topic: Seq<char>| #[trigger]
            new_topics(known, topics).contains(topic) <==> topics.contains(topic)
                && !known.contains(topic),
        forall|i: int, j: int|
            0 <= i < j < new_topics(known, topics).len() ==> topics.index_of_first(
                #[trigger] new_topics(known, topics)[i],
            )->0 < topics.index_of_first(#[trigger] new_topics(known, topics)[j])->0,
    decreases topics.len(),
{
    let all = new_topics(known, topics);
    if topics.len() > 0 {
        let less = topics.drop_last();
        let last = topics.last();
        let before = new_topics(known, less);
        law_new_topics_are_the_unknown_ones(known, less);
        assert(topics =~= less.push(last));
        assert(topics[topics.len() - 1] == last);
        assert forall|topic: Seq<char>| topics.contains(topic) <==> (less.contains(topic) || topic
            == last) by {
            if less.contains(topic) {
                let k = choose|k: int| 0 <= k < less.len() && less[k] == topic;
                assert(topics[k] == topic);
            }
            if topics.contains(topic) && topic != last {
                let k = choose|k: int| 0 <= k < topics.len() && topics[k] == topic;
                assert(less[k] == topic);
            }
        }
        assert forall|topic: Seq<char>| #[trigger]
            all.contains(topic) <==> topics.contains(topic) && !known.contains(topic) by {
            assert(before.contains(topic) <==> less.contains(topic) && !known.contains(topic));
            if before.contains(topic) {
                let k = choose|k: int| 0 <= k < before.len() && before[k] == topic;
                assert(all[k] == topic);
            }
            if all.contains(topic) && !before.contains(topic) {
                let k = choose|k: int| 0 <= k < all.len() && all[k] == topic;
                if k < before.len() {
                    assert(before[k] == topic);
                }
            }
            if all.len() > before.len() {
                assert(all[before.len() as int] == last);
            }
        }
        assert forall|k: int| 0 <= k < before.len() implies #[trigger] all[k] == before[k]
            && topics.index_of_first(all[k])->0 == less.index_of_first(before[k])->0 && 0
            <= topics.index_of_first(all[k])->0 < less.len() by {
            assert(before.contains(before[k]));
            lemma_first_index_in_prefix(topics, before[k]);
        }
        if all.len() > before.len() {
            assert(!less.contains(last));
            assert(!before.contains(last));
            topics.index_of_first_ensures(last);
            assert(topics.contains(last));
            let p = topics.index_of_first(last)->0;
            if p < less.len() {
                assert(less[p] == last);
            }
            assert forall|i: int| 0 <= i < before.len() implies all[i] != last by {
                assert(before.contains(before[i]));
            }
        }
        assert(all.no_duplicates());
        assert forall|i: int, j: int| 0 <= i < j < all.len() implies topics.index_of_first(
            #[trigger] all[i],
        )->0 < topics.index_of_first(#[trigger] all[j])->0 by {
            if j < before.len() {
                assert(less.index_of_first(before[i])->0 < less.index_of_first(before[j])->0);
            }
        }
    }
}

proof fn lemma_first_index_in_prefix(topics: Seq<Seq<char>>, topic: Seq<char>)
    requires
        topics.len() > 0,
        topics.drop_last().contains(topic),
    ensures
        topics.index_of_first(topic) == topics.drop_last().index_of_first(topic),
        0 <= topics.index_of_first(topic)->0 < topics.drop_last().len(),
{
    let less = topics.drop_last();
    let k = choose|k: int| 0 <= k < less.len() && less[k] == topic;
    assert(topics[k] == topic);
    topics.index_of_first_ensures(topic);
    less.index_of_first_ensures(topic);
    let a = topics.index_of_first(topic)->0;
    let b = less.index_of_first(topic)->0;
    assert(topics[b] == topic);
    if a < b {
        assert(less[a] == topic);
    }
}

/// Each new interest names its topic and the shard of that topic.
pub proof fn law_new_interests_are_named(
    interests: Seq<NewInterest>,
    topics: Seq<Seq<char>>,
    i: int,
)
    requires
        names_interests(interests, topics),
        0 <= i < topics.len(),
    ensures
        interests.len() == topics.len(),
        interests[i].topic@ == topics[i],
        interests[i].shard@ == hashing::shard_of(topics[i]),
{
    assert(interests[i].topic@ == topics[i]);
}

/// After a node appeared, it is a member and every earlier member still is; after it went
/// away, it is none and every other one still is. No other node comes or goes, however many
/// there are.
pub proof fn law_members_after_an_event(
    nodes: Set<Seq<char>>,
    node: Seq<char>,
    any_node: Seq<char>,
)
    ensures
        cluster_after(nodes, node, SampleKind::Put).contains(any_node) <==> nodes.contains(any_node)
            || any_node == node,
        cluster_after(nodes, node, SampleKind::Delete).contains(any_node) <==> nodes.contains(
            any_node,
        ) && any_node != node,
{
}

/// What the index of a well-formed state tells: a topic has subscribers where some client
/// has it, its subscribers are the clients that have it, and a shard has those topics with
/// subscribers that lie in it.
pub proof fn law_index_tells_the_interests<H>(
    state: GatewayState<H>,
    topic: Seq<char>,
    client: Seq<char>,
    shard: Seq<char>,
)
    requires
        state.wf(),
    ensures
        ({
            let clients = layers::layer(state.client_topics);
            let subscribers = layers::layer(state.topic_subscribers);
            let shards = layers::layer(state.shard_topics);
            &&& state.interests() == clients
            &&& state.topics() == subscribers.dom()
            &&& subscribers.contains_key(topic) <==> exists|c: Seq<char>| #[trigger]
                clients.contains_key(c) && clients[c].contains(topic)
            &&& (subscribers.contains_key(topic) && subscribers[topic].contains(client)) <==> (
            clients.contains_key(client) && clients[client].contains(topic))
            &&& shards.contains_key(shard) <==> exists|t: Seq<char>| #[trigger]
                subscribers.contains_key(t) && hashing::shard_of(t) == shard
            &&& (shards.contains_key(shard) && shards[shard].contains(topic)) <==> (
            subscribers.contains_key(topic) && hashing::shard_of(topic) == shard)
        }),
{
    let clients = layers::layer(state.client_topics);
    let subscribers = layers::layer(state.topic_subscribers);
    let shards = layers::layer(state.shard_topics);
    assert(subscribers.contains_key(topic) == layers::mentions(clients, topic));
    assert(shards.contains_key(shard) == layers::shard_has_topic(subscribers.dom(), shard));
    if layers::shard_has_topic(subscribers.dom(), shard) {
        let t = choose|t: Seq<char>| #[trigger]
            subscribers.dom().contains(t) && hashing::shard_of(t) == shard;
        assert(subscribers.contains_key(t));
    }
    if exists|t: Seq<char>| #[trigger]
        subscribers.contains_key(t) && hashing::shard_of(t) == shard {
        let t = choose|t: Seq<char>| #[trigger]
            subscribers.contains_key(t) && hashing::shard_of(t) == shard;
        assert(subscribers.dom().contains(t));
    }
    if subscribers.contains_key(topic) && hashing::shard_of(topic) == shard {
        assert(subscribers.dom().contains(topic));
    }
}

/// Which shards a gateway has to be subscribed to, and which topics it handles: of the
/// topics with subscribers, those whose shard it owns.
pub proof fn law_owned_shards_with_topics_are_desired<H>(
    state: GatewayState<H>,
    shard: Seq<char>,
    topic: Seq<char>,
)
    requires
        state.wf(),
    ensures
        state.desired_shards().contains(shard) <==> hashing::owns(
            state.cluster.members(),
            state.cluster.id(),
            shard,
        ) && exists|t: Seq<char>| #[trigger]
            layers::layer(state.topic_subscribers).contains_key(t) && hashing::shard_of(t) == shard,
        state.handled_topics().contains(topic) <==> layers::layer(
            state.topic_subscribers,
        ).contains_key(topic) && hashing::owns(
            state.cluster.members(),
            state.cluster.id(),
            hashing::shard_of(topic),
        ),
{
    law_index_tells_the_interests(state, topic, topic, shard);
}

/// The description of a topic holds the whole topic, and its shard in brackets.
pub proof fn law_description_holds_topic_and_shard(topic: Seq<char>)
    ensures
        described(topic) == topic + " ("@ + hashing::shard_of(topic) + ")"@,
{
}

/// Where only the subscriptions may have changed, nothing else has.
pub proof fn law_only_subscriptions_change<H>(a: GatewayState<H>, b: GatewayState<H>)
    requires
        a.same_but_subscriptions(&b),
    ensures
        a.cluster == b.cluster,
        a.client_topics == b.client_topics,
        a.topic_subscribers == b.topic_subscribers,
        a.shard_topics == b.shard_topics,
        a.pulling_consumers == b.pulling_consumers,
{
}

} // verus!
