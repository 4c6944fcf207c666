use zenoh_gateway_poc::discovery::pull_consumer_interests;
use zenoh_gateway_poc::event_handlers::{
    on_cluster_change, on_consumer_change, sync_shard_subscriptions, ConsumerAction,
};
use zenoh_gateway_poc::forwarding::{ForwardingHandler, Sample};
use zenoh_gateway_poc::hashing::{get_shard_id, SHARD_COUNT};
use zenoh_gateway_poc::interest::{GatewayState, SampleKind};
use zenoh_gateway_poc::keyspace::{
    client_id_of_key, cluster_token_key, consumer_token_key, interest_key, node_id_of_key,
};
use zenoh_gateway_poc::metrics::{decode_forward_attachment, encode_producer_attachment};
use zenoh_gateway_poc::subscription::SubscriptionManager;

fn gateway(id: &str) -> GatewayState<u32> {
    GatewayState::new(id.to_string())
}

#[test]
fn new_state_is_empty() {
    let state = gateway("gw-a");
    assert_eq!(state.my_id(), "gw-a");
    assert_eq!(state.client_topics.len(), 0);
    assert_eq!(state.active_subscribers.count(), 0);
    assert!(!state.has_subscribers("t/a"));
    assert!(state.get_active_shards().is_empty());
}

#[test]
fn registering_fills_the_three_layers() {
    let mut state = gateway("gw-a");
    let added = state.register_interests("c1", " t/a, t/b ,,t/a");
    assert_eq!(added.len(), 2);
    assert_eq!(added[0].topic, "t/a");
    assert_eq!(added[0].shard, "shard/p8635");
    assert_eq!(added[1].topic, "t/b");
    assert_eq!(added[1].shard, "shard/p6205");
    assert_eq!(state.client_topics.get("c1").unwrap().to_vec(), ["t/a", "t/b"]);
    assert_eq!(state.topic_subscribers.get("t/a").unwrap().to_vec(), ["c1"]);
    assert_eq!(state.shard_topics.get("shard/p8635").unwrap().to_vec(), ["t/a"]);
    assert!(state.has_subscribers("t/b"));
    assert!(!state.has_subscribers("t/c"));
}

#[test]
fn registering_again_adds_nothing() {
    let mut state = gateway("gw-a");
    assert_eq!(state.register_interests("c1", "t/a").len(), 1);
    assert_eq!(state.register_interests("c1", "t/a").len(), 0);
    assert_eq!(state.register_interests("c1", "").len(), 0);
    assert_eq!(state.register_interests("c2", " , ").len(), 0);
    assert!(!state.client_topics.contains_key("c2"));
}

#[test]
fn cleanup_keeps_what_others_want() {
    let mut state = gateway("gw-a");
    state.register_interests("c1", "t/a,t/b");
    state.register_interests("c2", "t/b");
    state.cleanup_interests("c1");
    assert!(!state.has_subscribers("t/a"));
    assert!(state.has_subscribers("t/b"));
    assert!(!state.shard_topics.contains_key("shard/p8635"));
    assert_eq!(state.topic_subscribers.get("t/b").unwrap().to_vec(), ["c2"]);
    state.cleanup_interests("c2");
    assert_eq!(state.client_topics.len(), 0);
    assert_eq!(state.topic_subscribers.len(), 0);
    assert_eq!(state.shard_topics.len(), 0);
    state.cleanup_interests("unknown");
}

#[test]
fn shard_stays_while_one_of_its_topics_is_left() {
    let mut state = gateway("gw-a");
    assert_eq!(get_shard_id("x164"), get_shard_id("x173"));
    state.register_interests("c1", "x164");
    state.register_interests("c2", "x173");
    assert_eq!(state.get_active_shards().to_vec(), ["shard/p2895"]);
    state.cleanup_interests("c1");
    assert_eq!(state.get_active_shards().to_vec(), ["shard/p2895"]);
    state.cleanup_interests("c2");
    assert!(state.get_active_shards().is_empty());
}

#[test]
fn only_owned_shards_are_wanted() {
    let mut a = gateway("gw-a");
    let mut b = gateway("gw-b");
    assert!(on_cluster_change(&mut a, "gw-b".to_string(), SampleKind::Put).is_some());
    assert!(on_cluster_change(&mut b, "gw-a".to_string(), SampleKind::Put).is_some());
    a.register_interests("c1", "t/a,t/b,t/c,t/d");
    b.register_interests("c2", "t/a,t/b,t/c,t/d");
    assert_eq!(a.get_active_shards().to_vec(), ["shard/p2750", "shard/p7852"]);
    assert_eq!(b.get_active_shards().to_vec(), ["shard/p6205", "shard/p8635"]);
}

#[test]
fn subscription_diff() {
    let mut state = gateway("gw-a");
    state.register_interests("c1", "t/a,t/b");
    state.insert_subscriber("shard/p8635".to_string(), 1);
    state.insert_subscriber("shard/p0001".to_string(), 2);
    let (to_subscribe, to_unsubscribe) = state.compute_subscription_diff();
    assert_eq!(to_subscribe, ["shard/p6205"]);
    assert_eq!(to_unsubscribe, ["shard/p0001"]);
    let (to_subscribe, handles) = state.compute_diff_and_take_undeclare();
    assert_eq!(to_subscribe, ["shard/p6205"]);
    assert_eq!(handles, [2]);
    assert!(state.active_subscribers.is_subscribed("shard/p8635"));
    assert!(!state.active_subscribers.is_subscribed("shard/p0001"));
    assert_eq!(state.take_subscribers_for_undeclare(&["shard/p8635".to_string()]), [1]);
    assert_eq!(state.active_subscribers.count(), 0);
}

#[test]
fn synchronization_settles() {
    let mut state = gateway("gw-a");
    assert!(sync_shard_subscriptions(&mut state).is_none());
    state.register_interests("c1", "t/a,t/b");
    let plan = sync_shard_subscriptions(&mut state).unwrap();
    assert_eq!(plan.to_subscribe, ["shard/p6205", "shard/p8635"]);
    assert!(plan.to_undeclare.is_empty());
    for (i, shard) in plan.to_subscribe.into_iter().enumerate() {
        state.insert_subscriber(shard, i as u32);
    }
    assert!(sync_shard_subscriptions(&mut state).is_none());
    state.cleanup_interests("c1");
    let plan = sync_shard_subscriptions(&mut state).unwrap();
    assert!(plan.to_subscribe.is_empty());
    assert_eq!(plan.to_undeclare, [0, 1]);
    assert!(sync_shard_subscriptions(&mut state).is_none());
}

#[test]
fn cluster_changes() {
    let mut state = gateway("gw-a");
    let nodes = on_cluster_change(&mut state, "gw-b".to_string(), SampleKind::Put).unwrap();
    assert_eq!(nodes, ["gw-a", "gw-b"]);
    assert_eq!(state.cluster.owned_shards_cache(), 5029);
    assert!(on_cluster_change(&mut state, "gw-b".to_string(), SampleKind::Put).is_none());
    assert!(on_cluster_change(&mut state, "gw-x".to_string(), SampleKind::Delete).is_none());
    let nodes = on_cluster_change(&mut state, "gw-b".to_string(), SampleKind::Delete).unwrap();
    assert_eq!(nodes, ["gw-a"]);
    assert_eq!(state.cluster.owned_shards_cache(), SHARD_COUNT);
    assert_eq!(on_cluster_change(&mut state, "gw-a".to_string(), SampleKind::Delete), Some(vec![]));
    assert!(state.cluster.is_owner("shard/p0000"));
    let (changed, nodes) = state.handle_cluster_change("gw-a".to_string(), SampleKind::Put);
    assert!(changed);
    assert_eq!(nodes, ["gw-a"]);
}

#[test]
fn consumers_are_pulled_once() {
    let mut state = gateway("gw-a");
    assert_eq!(on_consumer_change(&mut state, "c1", SampleKind::Put), ConsumerAction::PullAndSync);
    assert_eq!(on_consumer_change(&mut state, "c1", SampleKind::Put), ConsumerAction::Skip);
    assert_eq!(on_consumer_change(&mut state, "c2", SampleKind::Put), ConsumerAction::PullAndSync);
    pull_consumer_interests("c1", b"t/a,t/b", &mut state);
    assert_eq!(on_consumer_change(&mut state, "c1", SampleKind::Delete), ConsumerAction::Sync);
    assert!(!state.has_subscribers("t/a"));
    assert_eq!(on_consumer_change(&mut state, "c1", SampleKind::Put), ConsumerAction::PullAndSync);
    assert!(!state.mark_pulling("c2"));
}

#[test]
fn pulled_replies_are_text() {
    let mut state = gateway("gw-a");
    let added = pull_consumer_interests("c1", "t/a, ト".as_bytes(), &mut state);
    assert_eq!(added.len(), 2);
    assert_eq!(added[1].topic, "ト");
    let added = pull_consumer_interests("c1", b"bad\xffname", &mut state);
    assert_eq!(added[0].topic, "bad\u{fffd}name");
    assert!(state.has_subscribers("bad\u{fffd}name"));
}

#[test]
fn messages_for_subscribed_topics_are_forwarded() {
    let mut state = gateway("gw-a");
    state.register_interests("c1", "t/a");
    let handler = ForwardingHandler::new(&state);
    let sample = Sample {
        attachment: Some(encode_producer_attachment("t/a", 123)),
        payload: b"data".to_vec(),
    };
    let message = handler.on_sample(sample).unwrap();
    assert_eq!(message.key, "t/a");
    assert_eq!(message.payload, b"data");
    assert_eq!(decode_forward_attachment(&message.attachment.unwrap()), Some(123));
}

#[test]
fn attachment_can_be_the_topic_alone() {
    let mut state = gateway("gw-a");
    state.register_interests("c1", "t/a");
    let handler = ForwardingHandler::new(&state);
    let sample = Sample { attachment: Some(b"t/a".to_vec()), payload: vec![1, 2] };
    let message = handler.on_sample(sample).unwrap();
    assert_eq!(message.key, "t/a");
    assert_eq!(message.payload, [1, 2]);
    assert!(message.attachment.is_none());
}

#[test]
fn topics_with_a_null_character_are_cut() {
    let mut state = gateway("gw-a");
    state.register_interests("c1", "t/a");
    let sample = Sample { attachment: Some(encode_producer_attachment("t/a\0x", 1)), payload: vec![1] };
    let message = ForwardingHandler::new(&state).on_sample(sample).unwrap();
    assert_eq!(message.key, "t/a");
    state.register_interests("c1", "t/a\0x");
    let sample = Sample { attachment: Some(b"t/a\0x".to_vec()), payload: vec![1] };
    let message = ForwardingHandler::new(&state).on_sample(sample).unwrap();
    assert_eq!(message.key, "t/a\0x");
}

#[test]
fn other_messages_are_dropped() {
    let mut state = gateway("gw-a");
    state.register_interests("c1", "t/a");
    let handler = ForwardingHandler::new(&state);
    assert!(handler.on_sample(Sample { attachment: None, payload: vec![1] }).is_none());
    let sample = Sample { attachment: Some(encode_producer_attachment("t/b", 1)), payload: vec![1] };
    assert!(handler.on_sample(sample).is_none());
    let sample = Sample { attachment: Some(b"t/a\0".to_vec()), payload: vec![1] };
    assert!(handler.on_sample(sample).is_none());
    assert!(handler.forward("t/c".to_string(), None, vec![]).is_none());
}

#[test]
fn nothing_is_forwarded_after_cleanup() {
    let mut state = gateway("gw-a");
    state.register_interests("c1", "t/a");
    state.cleanup_interests("c1");
    let sample = Sample { attachment: Some(encode_producer_attachment("t/a", 1)), payload: vec![1] };
    assert!(ForwardingHandler::new(&state).on_sample(sample).is_none());
}

#[test]
fn topics_that_are_not_utf8_are_repaired() {
    let mut state = gateway("gw-a");
    state.register_interests("c1", "a\u{fffd}b");
    let sample = Sample { attachment: Some(b"a\xffb".to_vec()), payload: vec![] };
    let message = ForwardingHandler::new(&state).on_sample(sample).unwrap();
    assert_eq!(message.key, "a\u{fffd}b");
}

#[test]
fn statistics() {
    let mut state = gateway("gw-a");
    on_cluster_change(&mut state, "gw-b".to_string(), SampleKind::Put);
    state.register_interests("c1", "t/d,t/a,t/c");
    let snapshot = state.stats_snapshot();
    assert_eq!(snapshot.my_id, "gw-a");
    assert_eq!(snapshot.cluster_size, 2);
    assert_eq!(snapshot.nodes.to_vec(), ["gw-a", "gw-b"]);
    assert_eq!(snapshot.owned_shards, 5029);
    assert_eq!(snapshot.total_interests, 3);
    assert_eq!(snapshot.active_shards, 2);
    assert_eq!(snapshot.active_details, ["t/c (shard/p2750)", "t/d (shard/p7852)"]);
}

#[test]
fn remaining_gateway_takes_over() {
    let mut state = gateway("gw-b");
    on_cluster_change(&mut state, "gw-a".to_string(), SampleKind::Put);
    state.register_interests("c1", "t/a,t/c");
    assert_eq!(state.stats_snapshot().active_details, ["t/a (shard/p8635)"]);
    on_cluster_change(&mut state, "gw-a".to_string(), SampleKind::Delete);
    assert_eq!(
        state.stats_snapshot().active_details,
        ["t/a (shard/p8635)", "t/c (shard/p2750)"]
    );
    let plan = sync_shard_subscriptions(&mut state).unwrap();
    assert_eq!(plan.to_subscribe, ["shard/p2750", "shard/p8635"]);
}

#[test]
fn index_does_not_depend_on_the_order_of_events() {
    let mut a = gateway("gw-a");
    a.register_interests("c1", "t/a,t/b");
    a.register_interests("c2", "t/b");
    let mut b = gateway("gw-a");
    b.register_interests("c3", "t/a,t/d");
    b.register_interests("c2", "t/b");
    b.register_interests("c1", "t/b");
    b.register_interests("c1", "t/a");
    b.cleanup_interests("c3");
    assert_eq!(a.topic_subscribers.keys().to_vec(), b.topic_subscribers.keys().to_vec());
    assert_eq!(a.shard_topics.keys().to_vec(), b.shard_topics.keys().to_vec());
    for topic in ["t/a", "t/b"] {
        assert_eq!(
            a.topic_subscribers.get(topic).unwrap().to_vec(),
            b.topic_subscribers.get(topic).unwrap().to_vec()
        );
    }
}

#[test]
fn subscription_manager() {
    let mut manager: SubscriptionManager<u32> = SubscriptionManager::default();
    manager.insert("s2".to_string(), 2);
    manager.insert("s1".to_string(), 1);
    manager.insert("s3".to_string(), 3);
    assert_eq!(manager.current_shards().to_vec(), ["s1", "s2", "s3"]);
    let wanted = ["s3".to_string(), "s9".to_string(), "s1".to_string(), "s3".to_string()];
    assert_eq!(manager.take_for_undeclare(&wanted), [3, 1]);
    assert!(manager.is_subscribed("s2"));
    assert!(!manager.remove("s1"));
    assert!(manager.remove("s2"));
    assert_eq!(manager.count(), 0);
    manager.insert("s4".to_string(), 4);
    manager.clear();
    assert_eq!(manager.count(), 0);
}

#[test]
fn keys_and_names() {
    assert_eq!(cluster_token_key("gw-a"), "gateway/cluster/gw-a");
    assert_eq!(consumer_token_key("c1"), "gateway/consumer/c1");
    assert_eq!(interest_key("c1"), "gateway/interest/c1");
    assert_eq!(node_id_of_key("gateway/cluster/gw-a"), "gw-a");
    assert_eq!(client_id_of_key("gateway/consumer/a/b"), "a/b");
    assert_eq!(node_id_of_key("gateway/clusters"), "gateway/clusters");
    assert_eq!(node_id_of_key("gw"), "gw");
    assert_eq!(client_id_of_key("gateway/consumer/"), "");
}
