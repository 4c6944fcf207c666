use zenoh_gateway_poc::cluster::ClusterState;
use zenoh_gateway_poc::hashing::{
    get_shard_id, has_highest_score, highest_score, is_owner, shard_name, shard_of_digest, SHARD_COUNT,
};
use zenoh_gateway_poc::string_set::StringSet;

fn set_of(names: &[&str]) -> StringSet {
    let mut set = StringSet::new();
    for name in names {
        set.insert(name.to_string());
    }
    set
}

#[test]
fn shard_names() {
    assert_eq!(shard_name(0), "shard/p0000");
    assert_eq!(shard_name(42), "shard/p0042");
    assert_eq!(shard_name(9999), "shard/p9999");
    assert_eq!(shard_name(12345), "shard/p12345");
    for i in 0..SHARD_COUNT {
        assert_eq!(shard_name(i), format!("shard/p{:04}", i));
    }
}

#[test]
fn topics_map_to_shards() {
    assert_eq!(get_shard_id("tenant/dataset-42"), "shard/p9312");
    assert_eq!(get_shard_id("perf/topic-0"), "shard/p6005");
    assert_eq!(get_shard_id("perf/topic-1"), "shard/p2513");
    assert_eq!(get_shard_id("a"), "shard/p6827");
    assert_eq!(get_shard_id(""), "shard/p3029");
    assert_eq!(get_shard_id("ト"), "shard/p0232");
}

#[test]
fn shard_comes_from_the_last_eight_bytes() {
    let mut digest = [0xffu8; 32];
    for i in 24..32 {
        digest[i] = 0;
    }
    digest[30] = 0x27;
    digest[31] = 0x11;
    assert_eq!(shard_of_digest(&digest), "shard/p0001");
}

#[test]
fn owners_by_rendezvous_hashing() {
    let nodes = set_of(&["gw-c", "gw-a", "gw-b"]);
    let owners = [
        "gw-c", "gw-c", "gw-b", "gw-a", "gw-b", "gw-b", "gw-b", "gw-b", "gw-a", "gw-a", "gw-c",
        "gw-c",
    ];
    for (i, owner) in owners.iter().enumerate() {
        for node in ["gw-a", "gw-b", "gw-c", "gw-x"] {
            assert_eq!(is_owner(&nodes, node, &shard_name(i)), node == *owner);
        }
    }
}

#[test]
fn every_shard_is_owned_when_no_node_is_known() {
    let nodes = StringSet::new();
    assert!(is_owner(&nodes, "gw-a", "shard/p0000"));
    assert!(is_owner(&nodes, "anyone", "shard/p1234"));
}

#[test]
fn first_of_the_highest_scores() {
    assert_eq!(highest_score(&vec![]), None);
    assert_eq!(highest_score(&vec![[1; 32], [3; 32], [2; 32], [3; 32]]), Some(1));
    let mut late = [0u8; 32];
    late[31] = 1;
    assert_eq!(highest_score(&vec![[0; 32], late]), Some(1));
}

#[test]
fn owner_by_given_scores() {
    let nodes = set_of(&["gw-a", "gw-b", "gw-c"]);
    let scores = vec![[1; 32], [7; 32], [7; 32]];
    assert!(!has_highest_score(&nodes, &scores, "gw-a"));
    assert!(has_highest_score(&nodes, &scores, "gw-b"));
    assert!(!has_highest_score(&nodes, &scores, "gw-c"));
    assert!(has_highest_score(&StringSet::new(), &vec![], "gw-x"));
}

#[test]
fn joining_node_takes_shards_and_moves_no_other() {
    let two = set_of(&["gw-a", "gw-b"]);
    let three = set_of(&["gw-a", "gw-b", "gw-c"]);
    for i in 0..500 {
        let shard = shard_name(i);
        let a_before = is_owner(&two, "gw-a", &shard);
        let a_after = is_owner(&three, "gw-a", &shard);
        let b_after = is_owner(&three, "gw-b", &shard);
        let c_after = is_owner(&three, "gw-c", &shard);
        assert_eq!(a_after as u8 + b_after as u8 + c_after as u8, 1);
        if !c_after {
            assert_eq!(a_before, a_after);
        }
    }
}

#[test]
fn loads_of_a_cluster() {
    let mut total = 0;
    for (id, load) in [("gw-a", 5029), ("gw-b", 4971)] {
        let mut cluster = ClusterState::new(id.to_string());
        assert!(cluster.add_node(if id == "gw-a" { "gw-b" } else { "gw-a" }.to_string()));
        cluster.refresh_load_stats();
        assert_eq!(cluster.owned_shards_cache(), load);
        total += cluster.owned_shards_cache();
    }
    assert_eq!(total, SHARD_COUNT);
}

#[test]
fn cluster_membership() {
    let mut cluster = ClusterState::new("gw-b".to_string());
    assert_eq!(cluster.my_id(), "gw-b");
    assert_eq!(cluster.owned_shards_cache(), 0);
    assert!(!cluster.add_node("gw-b".to_string()));
    assert!(cluster.add_node("gw-a".to_string()));
    assert_eq!(cluster.nodes().to_vec(), ["gw-a", "gw-b"]);
    assert!(cluster.remove_node("gw-a"));
    assert!(!cluster.remove_node("gw-a"));
    assert!(cluster.is_owner("shard/p0000"));
    cluster.refresh_load_stats();
    assert_eq!(cluster.owned_shards_cache(), SHARD_COUNT);
}
