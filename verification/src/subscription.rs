//! Handles of the active upstream subscriptions.

use vstd::prelude::*;
use crate::string_map::StringMap;
use crate::string_set::StringSet;
use crate::text;

verus! {

/// The handles that `active` holds for the listed shards, in the order of the list. A shard
/// that is listed twice gives its handle once.
pub open spec fn handles_of<H>(active: Map<Seq<char>, H>, shards: Seq<Seq<char>>) -> Seq<H>
    decreases shards.len(),
{
    if shards.len() == 0 {
        seq![]
    } else {
        let before = handles_of(active, shards.drop_last());
        let shard = shards.last();
        if active.contains_key(shard) && !shards.drop_last().contains(shard) {
            before.push(active[shard])
        } else {
            before
        }
    }
}

/// Of different shards that are all subscribed, each gives its handle.
pub proof fn lemma_all_handles<H>(active: Map<Seq<char>, H>, shards: Seq<Seq<char>>)
    requires
        shards.no_duplicates(),
        forall|k: int| 0 <= k < shards.len() ==> active.contains_key(#[trigger] shards[k]),
    ensures
        handles_of(active, shards).len() == shards.len(),
    decreases shards.len(),
{
    if shards.len() > 0 {
        let before = shards.drop_last();
        assert forall|k: int| 0 <= k < before.len() implies active.contains_key(
            #[trigger] before[k],
        ) by {
            assert(before[k] == shards[k]);
        }
        lemma_all_handles(active, before);
        assert(active.contains_key(shards[shards.len() - 1]));
        if before.contains(shards.last()) {
            let k = choose|k: int| 0 <= k < before.len() && before[k] == shards.last();
            assert(shards[k] == shards[shards.len() - 1]);
        }
    }
}

/// Keeps the active upstream subscriptions, one handle for each subscribed shard.
pub struct SubscriptionManager<H> {
    active_subscribers: StringMap<H>,
}

impl<H> View for SubscriptionManager<H> {
    type V = Map<Seq<char>, H>;

    closed spec fn view(&self) -> Map<Seq<char>, H> {
        self.active_subscribers@
    }
}

impl<H> SubscriptionManager<H> {
    pub closed spec fn wf(&self) -> bool {
        self.active_subscribers.wf()
    }

    /// A manager without subscriptions.
    pub fn new() -> (manager: Self)
        ensures
            manager.wf(),
            manager@ == Map::<Seq<char>, H>::empty(),
    {
        SubscriptionManager { active_subscribers: StringMap::new() }
    }

    /// The shards that are subscribed at present.
    pub fn current_shards(&self) -> (shards: StringSet)
        requires
            self.wf(),
        ensures
            shards.wf(),
            shards@ == self@.dom(),
    {
        self.active_subscribers.keys().duplicate()
    }

    /// Removes the handles of the given shards and returns them, so that the caller can
    /// undeclare them.
    pub fn take_for_undeclare(&mut self, shards: &[String]) -> (handles: Vec<H>)
        requires
            old(self).wf(),
        ensures
            final(self).wf(),
            final(self)@ == old(self)@.remove_keys(text::texts(shards@).to_set()),
            handles@ == handles_of(old(self)@, text::texts(shards@)),
    {
        let ghost names = text::texts(shards@);
        let mut handles: Vec<H> = Vec::new();
        let mut i: usize = 0;
        proof {
            assert(self@ =~= old(self)@.remove_keys(names.take(0).to_set()));
            assert(names.take(0) =~= seq![]);
        }
        while i < shards.len()
            invariant
                names == text::texts(shards@),
                i <= shards.len(),
                self.wf(),
                self@ == old(self)@.remove_keys(names.take(i as int).to_set()),
                handles@ == handles_of(old(self)@, names.take(i as int)),
            decreases shards.len() - i,
        {
            let ghost before = self@;
            let ghost done = names.take(i as int);
            let ghost shard = names[i as int];
            proof {
                let next = names.take(i + 1);
                assert(next.drop_last() =~= done);
                assert(next =~= done.insert(i as int, shard));
                crate::string_set::lemma_to_set_insert(done, i as int, shard);
                assert(done.to_set().contains(shard) == done.contains(shard));
            }
            if let Some(handle) = self.active_subscribers.remove(shards[i].as_str()) {
                handles.push(handle);
            }
            i += 1;
            assert(self@ =~= old(self)@.remove_keys(names.take(i as int).to_set()));
        }
        assert(names.take(i as int) =~= names);
        handles
    }

    /// Stores the handle of a newly declared subscription.
    pub fn insert(&mut self, shard: String, handle: H)
        requires
            old(self).wf(),
        ensures
            final(self).wf(),
            final(self)@ == old(self)@.insert(shard@, handle),
    {
        let _ = self.active_subscribers.insert(shard, handle);
    }

    /// Drops the handle of a shard. Returns whether the shard was subscribed.
    pub fn remove(&mut self, shard: &str) -> (removed: bool)
        requires
            old(self).wf(),
        ensures
            final(self).wf(),
            final(self)@ == old(self)@.remove(shard@),
            removed == old(self)@.contains_key(shard@),
    {
        self.active_subscribers.remove(shard).is_some()
    }

    /// Whether a shard is subscribed at present.
    pub fn is_subscribed(&self, shard: &str) -> (yes: bool)
        requires
            self.wf(),
        ensures
            yes == self@.contains_key(shard@),
    {
        self.active_subscribers.contains_key(shard)
    }

    /// Number of active subscriptions.
    pub fn count(&self) -> (n: usize)
        requires
            self.wf(),
        ensures
            n == self@.len(),
    {
        self.active_subscribers.len()
    }

    /// Drops all handles.
    pub fn clear(&mut self)
        ensures
            final(self).wf(),
            final(self)@ == Map::<Seq<char>, H>::empty(),
    {
        self.active_subscribers.clear();
    }
}

impl<H> Default for SubscriptionManager<H> {
    fn default() -> (manager: Self)
        ensures
            manager.wf(),
            manager@ == Map::<Seq<char>, H>::empty(),
    {
        SubscriptionManager::new()
    }
}

/// Of different shards, the handles of those that are subscribed are given, in the order of
/// the shards, and no other handle.
pub proof fn law_handles_of_the_subscribed_shards<H>(
    active: Map<Seq<char>, H>,
    shards: Seq<Seq<char>>,
)
    requires
        shards.no_duplicates(),
    ensures
        handles_of(active, shards) == shards.filter(
            |shard: Seq<char>| active.contains_key(shard),
        ).map_values(|shard: Seq<char>| active[shard]),
    decreases shards.len(),
{
    reveal(Seq::filter);
    let subscribed = |shard: Seq<char>| active.contains_key(shard);
    let handle = |shard: Seq<char>| active[shard];
    if shards.len() > 0 {
        let before = shards.drop_last();
        let last = shards.last();
        law_handles_of_the_subscribed_shards(active, before);
        assert(!before.contains(last)) by {
            if before.contains(last) {
                let k = choose|k: int| 0 <= k < before.len() && before[k] == last;
                assert(shards[k] == shards[shards.len() - 1]);
            }
        }
        let kept = before.filter(subscribed);
        assert(kept.push(last).map_values(handle) =~= kept.map_values(handle).push(active[last]));
    } else {
        assert(shards.filter(subscribed).map_values(handle) =~= handles_of(active, shards));
    }
}

} // verus!
