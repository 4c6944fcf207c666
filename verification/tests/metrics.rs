use zenoh_gateway_poc::clock::timestamp_of;
use zenoh_gateway_poc::metrics::{
    decode_forward_attachment, decode_producer_attachment, decode_send_ts,
    encode_forward_attachment, encode_producer_attachment, encode_send_ts, now_ns, percentile,
    MetricsCollector, MetricsSnapshot,
};
use zenoh_gateway_poc::rounding::divide_and_round;

#[test]
fn test_encode_decode_producer_attachment() {
    let ts = now_ns();
    let attachment = encode_producer_attachment("tenant/dataset-42", ts);
    let (topic, decoded_ts) = decode_producer_attachment(&attachment).unwrap();
    assert_eq!(topic, "tenant/dataset-42");
    assert_eq!(decoded_ts, ts);
}

#[test]
fn test_encode_decode_forward_attachment() {
    let ts = now_ns();
    let attachment = encode_forward_attachment(ts);
    let decoded_ts = decode_forward_attachment(&attachment).unwrap();
    assert_eq!(decoded_ts, ts);
}

#[test]
fn test_metrics_snapshot_and_reset() {
    let mut collector = MetricsCollector::new();
    collector.record_message();
    collector.record_message();
    collector.record_latency(1000);
    collector.record_latency(2000);
    collector.record_latency(3000);

    let snapshot = collector.snapshot_and_reset().unwrap();
    assert_eq!(snapshot.msg_count, 2);
    assert_eq!(snapshot.latency_min_ns, 1000);
    assert_eq!(snapshot.latency_max_ns, 3000);

    // After reset, should return None
    assert!(collector.snapshot_and_reset().is_none());
}

#[test]
fn test_percentile() {
    let data = vec![10, 20, 30, 40, 50, 60, 70, 80, 90, 100];
    assert_eq!(percentile(&data, 50), 50);
    assert_eq!(percentile(&data, 90), 90);
    assert_eq!(percentile(&data, 99), 100);
}

#[test]
fn percentile_at_the_edges() {
    assert_eq!(percentile(&[], 50), 0);
    assert_eq!(percentile(&[], 0), 0);
    assert_eq!(percentile(&[7], 1), 7);
    assert_eq!(percentile(&[7, 8], 50), 7);
    assert_eq!(percentile(&[7, 8], 51), 8);
    assert_eq!(percentile(&[7, 8], 250), 8);
}

#[test]
fn snapshot_of_unsorted_samples() {
    let mut collector = MetricsCollector::new();
    for latency in [50, 10, 40, 30, 20] {
        collector.record_message();
        collector.record_latency(latency);
    }
    let s = collector.snapshot_and_reset().unwrap();
    assert_eq!(s.msg_count, 5);
    assert_eq!((s.latency_min_ns, s.latency_max_ns, s.latency_avg_ns), (10, 50, 30));
    assert_eq!((s.latency_p50_ns, s.latency_p90_ns, s.latency_p99_ns), (30, 50, 50));
}

#[test]
fn snapshot_without_latencies() {
    let mut collector = MetricsCollector::default();
    assert!(collector.snapshot_and_reset().is_none());
    collector.record_message();
    assert_eq!(collector.msg_count(), 1);
    let s = collector.snapshot_and_reset().unwrap();
    assert_eq!(s.msg_count, 1);
    assert_eq!((s.latency_min_ns, s.latency_avg_ns, s.latency_p99_ns), (0, 0, 0));
    assert_eq!(collector.msg_count(), 0);
}

#[test]
fn latencies_without_messages_give_no_snapshot() {
    let mut collector = MetricsCollector::new();
    collector.record_latency(5);
    assert!(collector.snapshot_and_reset().is_none());
    // The sample is gone with the reset.
    collector.record_message();
    let s = collector.snapshot_and_reset().unwrap();
    assert_eq!((s.msg_count, s.latency_max_ns), (1, 0));
}

#[test]
fn average_is_rounded_down() {
    let mut collector = MetricsCollector::new();
    collector.record_message();
    collector.record_latency(3);
    collector.record_latency(4);
    let s = collector.snapshot_and_reset().unwrap();
    assert_eq!((s.msg_count, s.latency_avg_ns), (1, 3));
}

#[test]
fn average_of_large_samples() {
    let mut collector = MetricsCollector::new();
    collector.record_message();
    collector.record_latency(u64::MAX);
    collector.record_latency(u64::MAX - 2);
    assert_eq!(collector.snapshot_and_reset().unwrap().latency_avg_ns, u64::MAX - 1);
}

#[test]
fn statistics_are_in_order() {
    let mut collector = MetricsCollector::new();
    for i in 0..257u64 {
        collector.record_message();
        collector.record_latency((i * 7919) % 1009);
    }
    let s = collector.snapshot_and_reset().unwrap();
    assert!(s.latency_min_ns <= s.latency_p50_ns);
    assert!(s.latency_p50_ns <= s.latency_p90_ns);
    assert!(s.latency_p90_ns <= s.latency_p99_ns);
    assert!(s.latency_p99_ns <= s.latency_max_ns);
    assert!(s.latency_min_ns <= s.latency_avg_ns && s.latency_avg_ns <= s.latency_max_ns);
}

#[test]
fn timestamps_are_big_endian() {
    assert_eq!(encode_send_ts(0x0102030405060708), [1, 2, 3, 4, 5, 6, 7, 8]);
    assert_eq!(decode_send_ts(&[1, 2, 3, 4, 5, 6, 7, 8, 9]), Some(0x0102030405060708));
    assert_eq!(decode_send_ts(&[1, 2, 3, 4, 5, 6, 7]), None);
    assert_eq!(encode_send_ts(u64::MAX), u64::MAX.to_be_bytes());
    assert_eq!(decode_send_ts(&encode_send_ts(1_700_000_000_123_456_789)), Some(1_700_000_000_123_456_789));
}

#[test]
fn producer_attachment_layout() {
    assert_eq!(
        encode_producer_attachment("a/b", 258),
        vec![b'a', b'/', b'b', 0, 0, 0, 0, 0, 0, 0, 1, 2]
    );
}

#[test]
fn refused_producer_attachments() {
    assert!(decode_producer_attachment(b"topic").is_none());
    assert!(decode_producer_attachment(b"topic\0short").is_none());
    assert!(decode_producer_attachment(b"").is_none());
    assert_eq!(
        decode_producer_attachment(b"\0\0\0\0\0\0\0\0\x05"),
        Some((String::new(), 5))
    );
}

#[test]
fn topic_is_cut_at_a_null_character() {
    let attachment = encode_producer_attachment("a\0bcdefghi", 1);
    let (topic, ts) = decode_producer_attachment(&attachment).unwrap();
    assert_eq!(topic, "a");
    assert_eq!(ts, u64::from_be_bytes(*b"bcdefghi"));
}

#[test]
fn topic_that_is_not_utf8_is_repaired() {
    let attachment = b"a\xffb\0\0\0\0\0\0\0\0\x05";
    assert_eq!(decode_producer_attachment(attachment), Some(("a\u{fffd}b".to_string(), 5)));
}

#[test]
fn multi_byte_topics_read_back() {
    let attachment = encode_producer_attachment("トピック/é/😀", 42);
    assert_eq!(decode_producer_attachment(&attachment), Some(("トピック/é/😀".to_string(), 42)));
}

#[test]
fn clock_is_read() {
    let a = now_ns();
    let b = now_ns();
    assert!(a > 1_500_000_000_000_000_000);
    assert!(b >= a);
    let std_now = std::time::SystemTime::now()
        .duration_since(std::time::SystemTime::UNIX_EPOCH)
        .unwrap()
        .as_nanos() as u64;
    assert!(std_now - a < 60_000_000_000);
}

#[test]
fn timestamps_keep_the_low_bits() {
    assert_eq!(timestamp_of(None), 0);
    assert_eq!(timestamp_of(Some(5)), 5);
    assert_eq!(timestamp_of(Some((1u128 << 64) + 7)), 7);
}

fn displayed(ns: u64) -> String {
    if ns < 1_000_000 {
        format!("{:.0}us", ns as f64 / 1_000.0)
    } else {
        format!("{:.2}ms", ns as f64 / 1_000_000.0)
    }
}

#[test]
fn latencies_are_displayed() {
    assert_eq!(MetricsSnapshot::format_latency(0), "0us");
    assert_eq!(MetricsSnapshot::format_latency(500), "0us");
    assert_eq!(MetricsSnapshot::format_latency(501), "1us");
    assert_eq!(MetricsSnapshot::format_latency(999), "1us");
    assert_eq!(MetricsSnapshot::format_latency(1_000), "1us");
    assert_eq!(MetricsSnapshot::format_latency(1_500), "2us");
    assert_eq!(MetricsSnapshot::format_latency(2_500), "2us");
    assert_eq!(MetricsSnapshot::format_latency(999_999), "1000us");
    assert_eq!(MetricsSnapshot::format_latency(1_000_000), "1.00ms");
    assert_eq!(MetricsSnapshot::format_latency(12_345_678), "12.35ms");
}

#[test]
fn microseconds_round_as_floating_point_does() {
    for ns in 0..200_000u64 {
        assert_eq!(MetricsSnapshot::format_latency(ns), displayed(ns));
    }
    for ns in (200_000..1_000_000u64).step_by(500) {
        assert_eq!(MetricsSnapshot::format_latency(ns), displayed(ns));
    }
}

#[test]
fn milliseconds_round_as_floating_point_does() {
    for i in 0..100_000u64 {
        let ns = 1_000_000 + i * 5_000;
        assert_eq!(MetricsSnapshot::format_latency(ns), displayed(ns));
    }
    let mut x: u64 = 88172645463325252;
    for _ in 0..50_000 {
        x ^= x << 13;
        x ^= x >> 7;
        x ^= x << 17;
        for shift in [0, 9, 20, 33] {
            let ns = x >> shift;
            assert_eq!(MetricsSnapshot::format_latency(ns), displayed(ns));
        }
    }
    for ns in [u64::MAX, u64::MAX - 1, 1 << 53, (1 << 53) + 1, (1 << 53) + 3, 1 << 63] {
        assert_eq!(MetricsSnapshot::format_latency(ns), displayed(ns));
    }
}

#[test]
fn ties_go_to_the_even_side() {
    assert_eq!(divide_and_round(500, 1_000, 1), 0);
    assert_eq!(divide_and_round(1_500, 1_000, 1), 2);
    assert_eq!(divide_and_round(2_500, 1_000, 1), 2);
    assert_eq!(divide_and_round(2_501, 1_000, 1), 3);
}

#[test]
fn latency_line() {
    let snapshot = MetricsSnapshot {
        msg_count: 3,
        latency_min_ns: 900,
        latency_max_ns: 2_340_000,
        latency_avg_ns: 1_200,
        latency_p50_ns: 1_000,
        latency_p90_ns: 2_000_000,
        latency_p99_ns: 2_340_000,
    };
    assert_eq!(
        snapshot.format_latency_line("E2E Latency"),
        "E2E Latency: min=1us max=2.34ms avg=1us p50=1us p90=2.00ms p99=2.34ms"
    );
}
