//! Cluster membership and shard ownership.

use vstd::prelude::*;
use crate::hashing;
use crate::hashing::SHARD_COUNT;
use crate::string_set::StringSet;

verus! {

/// How many of the first `n` shards a node with the name `my_id` takes as its own.
pub open spec fn owned_count(nodes: Set<Seq<char>>, my_id: Seq<char>, n: nat) -> nat
    decreases n,
{
    if n == 0 {
        0
    } else {
        let before = owned_count(nodes, my_id, (n - 1) as nat);
        if hashing::owns(nodes, my_id, hashing::shard_label((n - 1) as nat)) {
            before + 1
        } else {
            before
        }
    }
}

/// Cluster membership state: the live gateway nodes and the load of this one.
pub struct ClusterState {
    nodes: StringSet,
    my_id: String,
    owned_shards_cache: usize,
}

impl ClusterState {
    /// The nodes that are known to be alive.
    pub closed spec fn members(&self) -> Set<Seq<char>> {
        self.nodes@
    }

    /// The nodes in ascending order.
    pub closed spec fn member_list(&self) -> Seq<Seq<char>> {
        self.nodes.elements()
    }

    /// The name of this node.
    pub closed spec fn id(&self) -> Seq<char> {
        self.my_id@
    }

    /// The number of shards that was counted last.
    pub closed spec fn cached_load(&self) -> nat {
        self.owned_shards_cache as nat
    }

    pub closed spec fn wf(&self) -> bool {
        self.nodes.wf()
    }

    /// A cluster that consists of this node.
    pub fn new(my_id: String) -> (state: Self)
        ensures
            state.wf(),
            state.id() == my_id@,
            state.members() == Set::<Seq<char>>::empty().insert(my_id@),
            state.cached_load() == 0,
    {
        let mut nodes = StringSet::new();
        let _ = nodes.insert(my_id.clone());
        ClusterState { nodes, my_id, owned_shards_cache: 0 }
    }

    pub fn my_id(&self) -> (id: &str)
        ensures
            id@ == self.id(),
    {
        self.my_id.as_str()
    }

    pub fn nodes(&self) -> (nodes: &StringSet)
        requires
            self.wf(),
        ensures
            nodes.wf(),
            nodes@ == self.members(),
            nodes.elements() == self.member_list(),
    {
        &self.nodes
    }

    pub fn owned_shards_cache(&self) -> (n: usize)
        ensures
            n == self.cached_load(),
    {
        self.owned_shards_cache
    }

    /// Rendezvous hashing: whether this node is the owner of a shard.
    pub fn is_owner(&self, shard_id: &str) -> (owned: bool)
        requires
            self.wf(),
        ensures
            owned == hashing::owns(self.members(), self.id(), shard_id@),
    {
        hashing::is_owner(&self.nodes, self.my_id.as_str(), shard_id)
    }

    /// Adds a node. Returns whether it was not known before.
    pub fn add_node(&mut self, node_id: String) -> (added: bool)
        requires
            old(self).wf(),
        ensures
            final(self).wf(),
            final(self).members() == old(self).members().insert(node_id@),
            final(self).id() == old(self).id(),
            final(self).cached_load() == old(self).cached_load(),
            added == !old(self).members().contains(node_id@),
    {
        self.nodes.insert(node_id)
    }

    /// Removes a node. Returns whether it was known.
    pub fn remove_node(&mut self, node_id: &str) -> (removed: bool)
        requires
            old(self).wf(),
        ensures
            final(self).wf(),
            final(self).members() == old(self).members().remove(node_id@),
            final(self).id() == old(self).id(),
            final(self).cached_load() == old(self).cached_load(),
            removed == old(self).members().contains(node_id@),
    {
        self.nodes.remove(node_id)
    }

    /// Counts again the shards that this node is responsible for.
    pub fn refresh_load_stats(&mut self)
        requires
            old(self).wf(),
        ensures
            final(self).wf(),
            final(self).members() == old(self).members(),
            final(self).id() == old(self).id(),
            final(self).cached_load() == owned_count(
                old(self).members(),
                old(self).id(),
                SHARD_COUNT as nat,
            ),
    {
        let mut count: usize = 0;
        let mut i: usize = 0;
        while i < SHARD_COUNT
            invariant
                self.wf(),
                *self == *old(self),
                i <= SHARD_COUNT,
                count <= i,
                count == owned_count(self.members(), self.id(), i as nat),
            decreases SHARD_COUNT - i,
        {
            let shard = hashing::shard_name(i);
            if self.is_owner(shard.as_str()) {
                count += 1;
            }
            i += 1;
        }
        self.owned_shards_cache = count;
    }
}

/// Sum of the loads of the listed nodes over the first `n` shards.
pub open spec fn total_load(nodes: Set<Seq<char>>, listed: Seq<Seq<char>>, n: nat) -> nat
    decreases listed.len(),
{
    if listed.len() == 0 {
        0
    } else {
        total_load(nodes, listed.drop_last(), n) + owned_count(nodes, listed.last(), n)
    }
}

/// How many of the listed nodes take `shard` as their own.
spec fn owners_listed(nodes: Set<Seq<char>>, listed: Seq<Seq<char>>, shard: Seq<char>) -> nat
    decreases listed.len(),
{
    if listed.len() == 0 {
        0
    } else {
        let before = owners_listed(nodes, listed.drop_last(), shard);
        if hashing::owns(nodes, listed.last(), shard) {
            before + 1
        } else {
            before
        }
    }
}

proof fn lemma_total_load_step(nodes: Set<Seq<char>>, listed: Seq<Seq<char>>, n: nat)
    requires
        n > 0,
    ensures
        total_load(nodes, listed, n) == total_load(nodes, listed, (n - 1) as nat) + owners_listed(
            nodes,
            listed,
            hashing::shard_label((n - 1) as nat),
        ),
    decreases listed.len(),
{
    if listed.len() > 0 {
        lemma_total_load_step(nodes, listed.drop_last(), n);
    }
}

proof fn lemma_owners_listed(
    nodes: Set<Seq<char>>,
    listed: Seq<Seq<char>>,
    shard: Seq<char>,
    owner: Seq<char>,
)
    requires
        hashing::is_owner_among(nodes, shard, owner),
        listed.no_duplicates(),
    ensures
        owners_listed(nodes, listed, shard) == if listed.contains(owner) {
            1nat
        } else {
            0nat
        },
    decreases listed.len(),
{
    if listed.len() > 0 {
        let last = listed.last();
        let before = listed.drop_last();
        lemma_owners_listed(nodes, before, shard, owner);
        assert(nodes.contains(owner));
        if hashing::owns(nodes, last, shard) {
            hashing::law_one_owner_at_most(nodes, shard, last, owner);
        }
        assert(listed =~= before.push(last));
        if before.contains(owner) {
            let k = choose|k: int| 0 <= k < before.len() && before[k] == owner;
            assert(listed[k] == owner);
            assert(last != owner);
        } else if last == owner {
            assert(listed[listed.len() - 1] == owner);
        }
    }
}

/// The loads of the nodes of a cluster add up to the number of shards: each shard is
/// counted by one node, and by one only.
pub proof fn law_loads_add_up(nodes: Set<Seq<char>>, listed: Seq<Seq<char>>, n: nat)
    requires
        crate::string_set::lists(listed, nodes),
        listed.len() > 0,
    ensures
        total_load(nodes, listed, n) == n,
    decreases n,
{
    if n == 0 {
        lemma_no_load(nodes, listed);
    } else {
        let shard = hashing::shard_label((n - 1) as nat);
        crate::string_set::lemma_ascending_no_duplicates(listed);
        listed.unique_seq_to_set();
        assert(nodes.contains(listed[0]));
        let owner = hashing::law_some_owner(nodes, shard);
        lemma_total_load_step(nodes, listed, n);
        lemma_owners_listed(nodes, listed, shard, owner);
        law_loads_add_up(nodes, listed, (n - 1) as nat);
    }
}

proof fn lemma_no_load(nodes: Set<Seq<char>>, listed: Seq<Seq<char>>)
    ensures
        total_load(nodes, listed, 0) == 0,
    decreases listed.len(),
{
    if listed.len() > 0 {
        lemma_no_load(nodes, listed.drop_last());
    }
}

/// When another node joins, the load of a node does not grow.
pub proof fn law_load_shrinks_when_others_join(
    nodes: Set<Seq<char>>,
    my_id: Seq<char>,
    joining: Seq<char>,
    n: nat,
)
    requires
        nodes.contains(my_id),
        joining != my_id,
    ensures
        owned_count(nodes.insert(joining), my_id, n) <= owned_count(nodes, my_id, n) <= n,
    decreases n,
{
    if n > 0 {
        law_load_shrinks_when_others_join(nodes, my_id, joining, (n - 1) as nat);
        let shard = hashing::shard_label((n - 1) as nat);
        let all = nodes.insert(joining);
        assert(all.contains(my_id));
        if hashing::owns(all, my_id, shard) {
            assert forall|other: Seq<char>| #[trigger]
                nodes.contains(other) && other != my_id implies hashing::outranks(
                shard,
                my_id,
                other,
            ) by {
                assert(all.contains(other));
            }
        }
    }
}

/// The load of a node is the number of shards that it takes as its own.
pub proof fn law_load_counts_the_owned_shards(nodes: Set<Seq<char>>, my_id: Seq<char>, n: nat)
    ensures
        owned_count(nodes, my_id, n) == Seq::new(n, |i: int| i).filter(
            |i: int| hashing::owns(nodes, my_id, hashing::shard_label(i as nat)),
        ).len(),
    decreases n,
{
    reveal(Seq::filter);
    let numbers = Seq::new(n, |i: int| i);
    if n > 0 {
        law_load_counts_the_owned_shards(nodes, my_id, (n - 1) as nat);
        assert(numbers.drop_last() =~= Seq::new((n - 1) as nat, |i: int| i));
    }
}

} // verus!
