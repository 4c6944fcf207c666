//! The layers of the interest index: maps from strings to sets of strings, and how the
//! three layers belong together.

use vstd::prelude::*;
use crate::hashing;
use crate::string_map::StringMap;
use crate::string_set::StringSet;

verus! {

/// What one layer of the index holds.
pub type Layer = Map<Seq<char>, Set<Seq<char>>>;

/// The layer that a map of string sets represents.
pub open spec fn layer(map: StringMap<StringSet>) -> Layer {
    map@.map_values(|set: StringSet| set@)
}

/// The map and all its sets are well formed.
pub open spec fn layer_wf(map: StringMap<StringSet>) -> bool {
    &&& map.wf()
    &&& forall|key: Seq<char>| #[trigger] map@.contains_key(key) ==> map@[key].wf()
}

/// The set of `key`, empty where the layer has no entry for it.
pub open spec fn at(m: Layer, key: Seq<char>) -> Set<Seq<char>> {
    if m.contains_key(key) {
        m[key]
    } else {
        Set::empty()
    }
}

/// The layer with `item` added under `key`.
pub open spec fn with(m: Layer, key: Seq<char>, item: Seq<char>) -> Layer {
    m.insert(key, at(m, key).insert(item))
}

/// The layer with `item` removed under `key`, and without an entry for `key` where nothing
/// else is left under it.
pub open spec fn without(m: Layer, key: Seq<char>, item: Seq<char>) -> Layer {
    if !m.contains_key(key) {
        m
    } else if m[key].remove(item) == Set::<Seq<char>>::empty() {
        m.remove(key)
    } else {
        m.insert(key, m[key].remove(item))
    }
}

/// Whether some key of the layer has `item`.
pub open spec fn mentions(m: Layer, item: Seq<char>) -> bool {
    exists|key: Seq<char>| #[trigger] m.contains_key(key) && m[key].contains(item)
}

/// Topic to clients, from client to topics: the clients that are interested in each topic.
pub open spec fn subscribers_of(client_topics: Layer) -> Layer {
    Map::new(
        |topic: Seq<char>| mentions(client_topics, topic),
        |topic: Seq<char>| Set::new(|client: Seq<char>| at(client_topics, client).contains(topic)),
    )
}

/// Whether one of the topics lies in `shard`.
pub open spec fn shard_has_topic(topics: Set<Seq<char>>, shard: Seq<char>) -> bool {
    exists|topic: Seq<char>| #[trigger] topics.contains(topic) && hashing::shard_of(topic) == shard
}

/// Shard to topics: the topics that lie in each shard.
pub open spec fn shards_of(topics: Set<Seq<char>>) -> Layer {
    Map::new(
        |shard: Seq<char>| shard_has_topic(topics, shard),
        |shard: Seq<char>|
            Set::new(|topic: Seq<char>| topics.contains(topic) && hashing::shard_of(topic) == shard),
    )
}

/// The three layers tell the same: the second and the third follow from the first, and no
/// client is listed without a topic.
pub open spec fn consistent(
    client_topics: Layer,
    topic_subscribers: Layer,
    shard_topics: Layer,
) -> bool {
    &&& forall|client: Seq<char>| #[trigger]
        client_topics.contains_key(client) ==> client_topics[client] != Set::<Seq<char>>::empty()
    &&& topic_subscribers == subscribers_of(client_topics)
    &&& shard_topics == shards_of(topic_subscribers.dom())
}

/// Adds `item` under `key`. Returns whether it was not there before.
pub fn add_to_layer(map: &mut StringMap<StringSet>, key: &str, item: &str) -> (added: bool)
    requires
        layer_wf(*old(map)),
    ensures
        layer_wf(*final(map)),
        layer(*final(map)) == with(layer(*old(map)), key@, item@),
        added == !at(layer(*old(map)), key@).contains(item@),
{
    let added = match map.find(key) {
        Ok(i) => {
            let set = map.value_mut(i);
            set.insert(item.to_owned())
        },
        Err(i) => {
            let mut set = StringSet::new();
            let added = set.insert(item.to_owned());
            map.insert_at(i, key.to_owned(), set);
            added
        },
    };
    assert(layer(*map) =~= with(layer(*old(map)), key@, item@));
    added
}

/// Removes `item` under `key`. Returns whether the entry of `key` went away with it.
pub fn remove_from_layer(map: &mut StringMap<StringSet>, key: &str, item: &str) -> (emptied: bool)
    requires
        layer_wf(*old(map)),
    ensures
        layer_wf(*final(map)),
        layer(*final(map)) == without(layer(*old(map)), key@, item@),
        emptied == (layer(*old(map)).contains_key(key@) && !layer(*final(map)).contains_key(key@)),
{
    match map.find(key) {
        Ok(i) => {
            let set = map.value_mut(i);
            let _ = set.remove(item);
            let emptied = set.is_empty();
            if emptied {
                let _ = map.remove_at(i);
            }
            assert(layer(*map) =~= without(layer(*old(map)), key@, item@));
            emptied
        },
        Err(_) => false,
    }
}

/// A client that becomes interested in one more topic: the layers stay consistent when the
/// pair is added to each of them.
pub proof fn lemma_add_keeps_consistent(
    client_topics: Layer,
    topic_subscribers: Layer,
    shard_topics: Layer,
    client: Seq<char>,
    topic: Seq<char>,
)
    requires
        consistent(client_topics, topic_subscribers, shard_topics),
    ensures
        consistent(
            with(client_topics, client, topic),
            with(topic_subscribers, topic, client),
            with(shard_topics, hashing::shard_of(topic), topic),
        ),
{
    let l1 = with(client_topics, client, topic);
    let l2 = with(topic_subscribers, topic, client);
    let l3 = with(shard_topics, hashing::shard_of(topic), topic);
    assert(l1[client].contains(topic));
    assert forall|c: Seq<char>| #[trigger] l1.contains_key(c) implies l1[c] != Set::<
        Seq<char>,
    >::empty() by {
        if c != client {
            assert(client_topics.contains_key(c));
        }
    }
    assert forall|t: Seq<char>| mentions(l1, t) == (mentions(client_topics, t) || t == topic) by {
        if mentions(client_topics, t) {
            let c = choose|c: Seq<char>| #[trigger]
                client_topics.contains_key(c) && client_topics[c].contains(t);
            assert(l1.contains_key(c) && l1[c].contains(t));
        }
        if mentions(l1, t) && t != topic {
            let c = choose|c: Seq<char>| #[trigger] l1.contains_key(c) && l1[c].contains(t);
            assert(client_topics.contains_key(c) && client_topics[c].contains(t));
        }
        if t == topic {
            assert(l1.contains_key(client));
        }
    }
    let expected = subscribers_of(l1);
    assert(l2.dom() =~= expected.dom());
    assert forall|t: Seq<char>| #[trigger] l2.contains_key(t) implies l2[t] == expected[t] by {
        if t == topic && !topic_subscribers.contains_key(t) {
            assert forall|c: Seq<char>| !at(client_topics, c).contains(t) by {
                if at(client_topics, c).contains(t) {
                    assert(client_topics.contains_key(c));
                    assert(mentions(client_topics, t));
                }
            }
        }
        assert(l2[t] =~= expected[t]);
    }
    assert(l2 =~= expected);
    lemma_add_topic(topic_subscribers.dom(), topic);
    assert(l2.dom() =~= topic_subscribers.dom().insert(topic));
}

proof fn lemma_add_topic(topics: Set<Seq<char>>, topic: Seq<char>)
    ensures
        with(shards_of(topics), hashing::shard_of(topic), topic) == shards_of(
            topics.insert(topic),
        ),
{
    let shard = hashing::shard_of(topic);
    let before = shards_of(topics);
    let more = topics.insert(topic);
    let actual = with(before, shard, topic);
    let expected = shards_of(more);
    assert forall|s: Seq<char>| actual.contains_key(s) == expected.contains_key(s) by {
        if shard_has_topic(topics, s) {
            let t = choose|t: Seq<char>| #[trigger]
                topics.contains(t) && hashing::shard_of(t) == s;
            assert(more.contains(t));
        }
        if shard_has_topic(more, s) && s != shard {
            let t = choose|t: Seq<char>| #[trigger] more.contains(t) && hashing::shard_of(t) == s;
            assert(topics.contains(t));
        }
        assert(more.contains(topic));
    }
    assert forall|s: Seq<char>| #[trigger] actual.contains_key(s) implies actual[s]
        == expected[s] by {
        if s == shard && !before.contains_key(s) {
            assert forall|t: Seq<char>| topics.contains(t) implies hashing::shard_of(t) != s by {}
        }
        assert(actual[s] =~= expected[s]);
    }
    assert(actual =~= expected);
}

/// A client that loses its interest in a topic: the layers stay consistent when the pair is
/// removed from the first two of them, and the topic from the third where no client is left.
pub proof fn lemma_remove_keeps_consistent(
    client_topics: Layer,
    topic_subscribers: Layer,
    shard_topics: Layer,
    client: Seq<char>,
    topic: Seq<char>,
)
    requires
        consistent(client_topics, topic_subscribers, shard_topics),
        at(client_topics, client).contains(topic),
    ensures
        topic_subscribers.contains_key(topic),
        consistent(
            without(client_topics, client, topic),
            without(topic_subscribers, topic, client),
            if without(topic_subscribers, topic, client).contains_key(topic) {
                shard_topics
            } else {
                without(shard_topics, hashing::shard_of(topic), topic)
            },
        ),
{
    let l1 = without(client_topics, client, topic);
    let l2 = without(topic_subscribers, topic, client);
    assert(client_topics.contains_key(client));
    assert(mentions(client_topics, topic));
    assert forall|c: Seq<char>| #[trigger] l1.contains_key(c) implies l1[c] != Set::<
        Seq<char>,
    >::empty() by {
        if c != client {
            assert(client_topics.contains_key(c));
        }
    }
    assert forall|c: Seq<char>, t: Seq<char>|
        #[trigger] at(l1, c).contains(t) == (at(client_topics, c).contains(t) && !(c == client && t
            == topic)) by {
        if c == client && !l1.contains_key(c) && t != topic {
            assert(!client_topics[c].remove(topic).contains(t));
        }
    }
    let expected = subscribers_of(l1);
    let left = topic_subscribers[topic].remove(client);
    assert forall|t: Seq<char>| l2.contains_key(t) == mentions(l1, t) by {
        if mentions(l1, t) {
            let c = choose|c: Seq<char>| #[trigger] l1.contains_key(c) && l1[c].contains(t);
            assert(at(l1, c).contains(t));
            assert(client_topics.contains_key(c) && client_topics[c].contains(t));
            assert(mentions(client_topics, t));
            if t == topic {
                assert(left.contains(c));
            }
        }
        if l2.contains_key(t) {
            if t == topic {
                assert(exists|c: Seq<char>| left.contains(c)) by {
                    if forall|c: Seq<char>| !left.contains(c) {
                        assert(left =~= Set::<Seq<char>>::empty());
                    }
                }
                let c = choose|c: Seq<char>| left.contains(c);
                assert(at(l1, c).contains(t));
                assert(l1.contains_key(c));
            } else {
                assert(mentions(client_topics, t));
                let c = choose|c: Seq<char>| #[trigger]
                    client_topics.contains_key(c) && client_topics[c].contains(t);
                assert(at(client_topics, c).contains(t));
                assert(at(l1, c).contains(t));
                assert(l1.contains_key(c));
            }
        }
    }
    assert forall|t: Seq<char>| #[trigger] l2.contains_key(t) implies l2[t] == expected[t] by {
        assert(l2[t] =~= expected[t]);
    }
    assert(l2 =~= expected);
    if l2.contains_key(topic) {
        assert(l2.dom() =~= topic_subscribers.dom());
    } else {
        lemma_remove_topic(topic_subscribers.dom(), topic);
        assert(l2.dom() =~= topic_subscribers.dom().remove(topic));
    }
}

proof fn lemma_remove_topic(topics: Set<Seq<char>>, topic: Seq<char>)
    requires
        topics.contains(topic),
    ensures
        without(shards_of(topics), hashing::shard_of(topic), topic) == shards_of(
            topics.remove(topic),
        ),
{
    let shard = hashing::shard_of(topic);
    let before = shards_of(topics);
    let fewer = topics.remove(topic);
    let actual = without(before, shard, topic);
    let expected = shards_of(fewer);
    let left = before[shard].remove(topic);
    assert(shard_has_topic(topics, shard));
    assert forall|s: Seq<char>| actual.contains_key(s) == expected.contains_key(s) by {
        if shard_has_topic(fewer, s) {
            let t = choose|t: Seq<char>| #[trigger] fewer.contains(t) && hashing::shard_of(t) == s;
            assert(topics.contains(t));
            if s == shard {
                assert(left.contains(t));
            }
        }
        if actual.contains_key(s) {
            if s == shard {
                assert(exists|t: Seq<char>| left.contains(t)) by {
                    if forall|t: Seq<char>| !left.contains(t) {
                        assert(left =~= Set::<Seq<char>>::empty());
                    }
                }
                let t = choose|t: Seq<char>| left.contains(t);
                assert(fewer.contains(t));
            } else {
                let t = choose|t: Seq<char>| #[trigger]
                    topics.contains(t) && hashing::shard_of(t) == s;
                assert(fewer.contains(t));
            }
        }
    }
    assert forall|s: Seq<char>| #[trigger] actual.contains_key(s) implies actual[s]
        == expected[s] by {
        assert(actual[s] =~= expected[s]);
    }
    assert(actual =~= expected);
}

/// A layer holds the set of each key of the map, and nothing else.
pub proof fn law_layer_holds_the_sets(map: StringMap<StringSet>, key: Seq<char>)
    ensures
        layer(map).contains_key(key) == map@.contains_key(key),
        map@.contains_key(key) ==> layer(map)[key] == map@[key]@,
        map@.contains_key(key) ==> at(layer(map), key) == map@[key]@,
        !map@.contains_key(key) ==> at(layer(map), key) == Set::<Seq<char>>::empty(),
{
}

/// What is under which key after an item was added or removed: the item comes or goes under
/// its key, everything else stays, and a key goes with its last item.
pub proof fn law_items_come_and_go(
    m: Layer,
    key: Seq<char>,
    item: Seq<char>,
    any_key: Seq<char>,
    any_item: Seq<char>,
)
    ensures
        ({
            let has = m.contains_key(any_key) && m[any_key].contains(any_item);
            let same = any_key == key && any_item == item;
            let more = with(m, key, item);
            let less = without(m, key, item);
            &&& (more.contains_key(any_key) && more[any_key].contains(any_item)) <==> (has || same)
            &&& more.contains_key(any_key) <==> (m.contains_key(any_key) || any_key == key)
            &&& (less.contains_key(any_key) && less[any_key].contains(any_item)) <==> (has && !same)
            &&& less.contains_key(any_key) <==> (m.contains_key(any_key) && (any_key != key
                || exists|left: Seq<char>| left != item && #[trigger] m[key].contains(left)))
        }),
{
    if m.contains_key(key) {
        let left = m[key].remove(item);
        if left == Set::<Seq<char>>::empty() {
            assert forall|x: Seq<char>| x != item implies !(#[trigger] m[key].contains(x)) by {
                assert(!left.contains(x));
            }
        } else {
            if forall|x: Seq<char>| x == item || !(#[trigger] m[key].contains(x)) {
                assert(left =~= Set::<Seq<char>>::empty());
            }
        }
    }
}

/// A layer mentions an item where some key has it.
pub proof fn law_mentioned_items_have_a_key(m: Layer, item: Seq<char>)
    ensures
        mentions(m, item) <==> exists|key: Seq<char>| #[trigger]
            m.contains_key(key) && m[key].contains(item),
{
}

} // verus!
