use zenoh_gateway_poc::cli::{
    parse_consumer_perf_args, parse_consumer_sim_args, parse_gateway_args,
    parse_producer_perf_args, parse_producer_sim_args, UsageError,
};
use zenoh_gateway_poc::metrics::{encode_forward_attachment, MetricsCollector};
use zenoh_gateway_poc::text::read_list;
use zenoh_gateway_poc::workload::{
    count_shards, endpoint_json, generate_topics, interest_list, read_topics, record_delivery,
    send_interval_ns, simulated_payload, topic_index,
};

fn args(list: &[&str]) -> Vec<String> {
    list.iter().map(|s| s.to_string()).collect()
}

#[test]
fn topics_of_a_file_reach_the_gateway() {
    let topics = read_topics("t/a\r\n\n  t/b \nt/c");
    assert_eq!(topics, ["t/a", "t/b", "t/c"]);
    let list = interest_list(&topics);
    assert_eq!(list, "t/a,t/b,t/c");
    assert_eq!(read_list(&list, ','), topics);
    assert!(read_topics("\n \n").is_empty());
}

#[test]
fn topics_with_commas_are_cut() {
    let topics = read_topics("a,b");
    assert_eq!(topics, ["a,b"]);
    assert_eq!(read_list(&interest_list(&topics), ','), ["a", "b"]);
}

#[test]
fn generated_topics() {
    assert_eq!(generate_topics("perf/topic", 3), ["perf/topic-0", "perf/topic-1", "perf/topic-2"]);
    assert!(generate_topics("x", 0).is_empty());
    assert_eq!(generate_topics("x", 1001)[1000], "x-1000");
}

#[test]
fn topics_are_counted_by_shard() {
    let counts = count_shards(&args(&["x164", "t/a", "x173", "x164"]));
    assert_eq!(counts.len(), 2);
    assert_eq!(counts.get("shard/p2895"), Some(&3));
    assert_eq!(counts.get("shard/p8635"), Some(&1));
    assert_eq!(counts.get("shard/p0000"), None);
    assert_eq!(count_shards(&Vec::new()).len(), 0);
}

#[test]
fn messages_of_the_simulator() {
    assert_eq!(simulated_payload("t/a"), "data-t/a");
    assert_eq!(endpoint_json("tcp/localhost:7447"), "{\"endpoints\": [\"tcp/localhost:7447\"]}");
    assert_eq!(send_interval_ns(5000), 200_000);
    assert_eq!(send_interval_ns(3), 333_333_333);
    assert_eq!(send_interval_ns(0), 1_000_000_000);
    assert_eq!(send_interval_ns(2_000_000_000), 0);
    assert_eq!(topic_index(7, 3), 1);
}

#[test]
fn deliveries_are_recorded() {
    let mut collector = MetricsCollector::new();
    let attachment = encode_forward_attachment(1_000);
    let delivery = record_delivery(&mut collector, Some(&attachment), 3_500).unwrap();
    assert_eq!(delivery.e2e_ns, 2_500);
    assert!(!delivery.logged);
    assert_eq!(record_delivery(&mut collector, Some(&attachment), 999).unwrap().e2e_ns, 0);
    assert!(record_delivery(&mut collector, Some(&[1, 2, 3]), 5_000).is_none());
    assert!(record_delivery(&mut collector, None, 5_000).is_none());
    let snapshot = collector.snapshot_and_reset().unwrap();
    assert_eq!(snapshot.msg_count, 4);
    assert_eq!((snapshot.latency_min_ns, snapshot.latency_max_ns), (0, 2_500));
}

#[test]
fn every_thousandth_delivery_is_logged() {
    let mut collector = MetricsCollector::new();
    let attachment = encode_forward_attachment(1);
    for i in 1..=2_000 {
        let delivery = record_delivery(&mut collector, Some(&attachment), 2).unwrap();
        assert_eq!(delivery.logged, i % 1_000 == 0);
    }
}

#[test]
fn gateway_command_line() {
    let parsed = parse_gateway_args(&args(&[]));
    assert!(parsed.id.is_none());
    assert!(parsed.config_path.is_none());
    let parsed = parse_gateway_args(&args(&["gw-a"]));
    assert_eq!(parsed.id.as_deref(), Some("gw-a"));
    let parsed = parse_gateway_args(&args(&["--config", "/c", "gw-a", "--id", "gw-b"]));
    assert_eq!(parsed.id.as_deref(), Some("gw-b"));
    assert_eq!(parsed.config_path.as_deref(), Some("/c"));
    let parsed = parse_gateway_args(&args(&["--config", "/c", "gw-a"]));
    assert_eq!(parsed.id.as_deref(), Some("gw-a"));
}

#[test]
fn consumer_sim_command_line() {
    let parsed = parse_consumer_sim_args(&args(&["c1", "topics.txt"])).ok().unwrap();
    assert_eq!(parsed.client_id, "c1");
    assert_eq!(parsed.file_path, "topics.txt");
    assert_eq!(parse_consumer_sim_args(&args(&["c1"])).err(), Some(UsageError::ArgumentCount));
    assert_eq!(
        parse_consumer_sim_args(&args(&["c1", "f", "x"])).err(),
        Some(UsageError::ArgumentCount)
    );
}

#[test]
fn producer_sim_command_line() {
    assert_eq!(parse_producer_sim_args(&args(&[])).err(), Some(UsageError::ArgumentCount));
    let parsed = parse_producer_sim_args(&args(&["topics.txt"])).ok().unwrap();
    assert_eq!(parsed.file_path, "topics.txt");
    assert_eq!(parsed.interval_ms, 500);
    assert_eq!(parse_producer_sim_args(&args(&["f", "20"])).ok().unwrap().interval_ms, 20);
    assert_eq!(parse_producer_sim_args(&args(&["f", "fast"])).ok().unwrap().interval_ms, 500);
}

#[test]
fn producer_perf_command_line() {
    let parsed = parse_producer_perf_args(&args(&["2000", "5000"]), 8).ok().unwrap();
    assert_eq!(parsed.topic_count, 2000);
    assert_eq!(parsed.msgs_per_sec, 5000);
    assert_eq!(parsed.prefix, "perf/topic");
    assert_eq!(parsed.payload_size, 1024);
    assert_eq!(parsed.workers, 8);
    assert_eq!(parsed.zenoh_endpoint, "tcp/localhost:7447");
    assert!(parsed.unknown.is_empty());

    let line = args(&[
        "1", "2", "--prefix", "p", "--odd", "--payload-size", "16", "--workers", "many",
        "--zenoh-endpoint", "tcp/h:1", "--prefix", "q", "--workers",
    ]);
    let parsed = parse_producer_perf_args(&line, 8).ok().unwrap();
    assert_eq!(parsed.prefix, "q");
    assert_eq!(parsed.payload_size, 16);
    assert_eq!(parsed.workers, 8);
    assert_eq!(parsed.zenoh_endpoint, "tcp/h:1");
    assert_eq!(parsed.unknown, ["--odd", "--workers"]);

    let parsed = parse_producer_perf_args(&args(&["1", "2", "--payload-size", "x"]), 8).ok().unwrap();
    assert_eq!(parsed.payload_size, 1024);
}

#[test]
fn refused_producer_perf_command_lines() {
    assert_eq!(parse_producer_perf_args(&args(&["1"]), 1).err(), Some(UsageError::ArgumentCount));
    assert_eq!(parse_producer_perf_args(&args(&["-1", "x"]), 1).err(), Some(UsageError::TopicCount));
    assert_eq!(parse_producer_perf_args(&args(&["1", "x"]), 1).err(), Some(UsageError::MessageRate));
}

#[test]
fn consumer_perf_command_line() {
    let parsed = parse_consumer_perf_args(&args(&["c1", "20"])).ok().unwrap();
    assert_eq!(parsed.client_id, "c1");
    assert_eq!(parsed.topic_count, 20);
    assert_eq!(parsed.prefix, "perf/topic");
    assert_eq!(parsed.zenoh_endpoint, "tcp/localhost:7447");
    let line = args(&["c1", "20", "--workers", "--zenoh-endpoint", "tcp/h:1", "--prefix", "p"]);
    let parsed = parse_consumer_perf_args(&line).ok().unwrap();
    assert_eq!(parsed.zenoh_endpoint, "tcp/h:1");
    assert_eq!(parsed.prefix, "p");
    assert_eq!(parsed.unknown, ["--workers"]);
    assert_eq!(parse_consumer_perf_args(&args(&["c1"])).err(), Some(UsageError::ArgumentCount));
    assert_eq!(parse_consumer_perf_args(&args(&["c1", "x"])).err(), Some(UsageError::TopicCount));
}
