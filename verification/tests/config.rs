use zenoh_gateway_poc::config::{endpoints_section, GatewayConfig, ZenohEndpoints};
use zenoh_gateway_poc::json5::{strip_json5_comments, strip_trailing_commas};

#[test]
fn test_strip_single_line_comments() {
    let input = r#"{ "id": "gw-a", // comment
"upstream": { "connect": [] } }"#;
    let result = strip_json5_comments(input);
    assert!(!result.contains("//"));
    assert!(result.contains("\"id\": \"gw-a\""));
}

#[test]
fn test_strip_multi_line_comments() {
    let input = r#"{ /* comment */ "id": "gw-a" }"#;
    let result = strip_json5_comments(input);
    assert!(!result.contains("/*"));
    assert!(result.contains("\"id\": \"gw-a\""));
}

#[test]
fn test_strip_trailing_commas() {
    let input = r#"{ "a": 1, "b": 2, }"#;
    let result = strip_trailing_commas(input);
    assert_eq!(result, r#"{ "a": 1, "b": 2 }"#);
}

#[test]
fn test_preserve_string_with_slashes() {
    let input = r#"{ "url": "https://example.com" }"#;
    let result = strip_json5_comments(input);
    assert!(result.contains("https://example.com"));
}

#[test]
fn test_config_default() {
    let config = GatewayConfig::default();
    assert_eq!(config.id, "gw-1");
    assert_eq!(config.cluster_expr, "gateway/cluster/**");
    assert_eq!(config.stats_interval_secs, 5);
}

#[test]
fn test_resolve_id_priority() {
    let config = GatewayConfig {
        id: "from-config".to_string(),
        ..Default::default()
    };

    // Config file id
    assert_eq!(config.resolve_id(None, None), "from-config");

    // CLI overrides config
    assert_eq!(config.resolve_id(None, Some("from-cli")), "from-cli");
}

#[test]
fn environment_id_comes_first() {
    let config = GatewayConfig::default();
    assert_eq!(config.resolve_id(Some("from-env"), Some("from-cli")), "from-env");
    assert_eq!(config.resolve_id(Some("from-env"), None), "from-env");
    assert_eq!(config.resolve_id(None, None), "gw-1");
}

#[test]
fn defaults_of_the_other_fields() {
    let config = GatewayConfig::default();
    assert_eq!(config.consumer_liveliness_expr, "gateway/consumer/**");
    assert!(config.upstream.connect.is_empty());
    assert!(config.upstream.listen.is_empty());
    assert!(config.downstream.connect.is_empty());
    assert!(config.downstream.listen.is_empty());
}

#[test]
fn config_path_priority() {
    assert_eq!(GatewayConfig::resolve_path(Some("/cli"), Some("/env")), "/cli");
    assert_eq!(GatewayConfig::resolve_path(None, Some("/env")), "/env");
    assert_eq!(GatewayConfig::resolve_path(None, None), "/etc/zenoh-gateway/config.json5");
}

#[test]
fn load_falls_back_to_the_defaults() {
    assert_eq!(GatewayConfig::load(None).id, "gw-1");
    let read = GatewayConfig { id: "gw-7".to_string(), stats_interval_secs: 30, ..Default::default() };
    let config = GatewayConfig::load(Some(read));
    assert_eq!(config.id, "gw-7");
    assert_eq!(config.stats_interval_secs, 30);
}

#[test]
fn comments_are_removed_exactly() {
    assert_eq!(strip_json5_comments("{ // one\n\"a\": 1 /* two\n */, }\n"), "{ \n\"a\": 1  }");
    assert_eq!(strip_json5_comments("1 / 2"), "1 / 2");
    assert_eq!(strip_json5_comments("// only"), "");
    assert_eq!(strip_json5_comments(""), "");
}

#[test]
fn comment_without_an_end() {
    assert_eq!(strip_json5_comments("1 /* abc"), "1 c");
    assert_eq!(strip_json5_comments("1 /*"), "1");
}

#[test]
fn literals_are_copied() {
    assert_eq!(strip_json5_comments(r#"["a\" // b", "/* c */"]"#), r#"["a\" // b", "/* c */"]"#);
    assert_eq!(strip_json5_comments(r#"["a,]", ",}", ]"#), r#"["a,]", ",}" ]"#);
    assert_eq!(strip_json5_comments(r#"["open // end"#), r#"["open // end"#);
}

#[test]
fn trailing_commas_over_white_space() {
    assert_eq!(strip_trailing_commas("[1,\n\t ]  \n"), "[1\n\t ]");
    assert_eq!(strip_trailing_commas("[1,,]"), "[1,]");
    assert_eq!(strip_trailing_commas("[1,"), "[1,");
    assert_eq!(strip_trailing_commas("{\"a\": [1,],}"), "{\"a\": [1]}");
}

#[test]
fn sections_of_a_session() {
    let endpoints = ZenohEndpoints {
        connect: vec!["tcp/zenoh-upstream:7447".to_string(), "udp/[::1]:7447".to_string()],
        listen: vec!["tcp/0.0.0.0:7447".to_string()],
    };
    let sections = GatewayConfig::to_zenoh_config(&endpoints);
    assert_eq!(sections.len(), 2);
    assert_eq!(sections[0].key, "connect");
    assert_eq!(
        sections[0].value,
        "{\"endpoints\":[\"tcp/zenoh-upstream:7447\",\"udp/[::1]:7447\"]}"
    );
    assert_eq!(sections[1].key, "listen");
    assert_eq!(sections[1].value, "{\"endpoints\":[\"tcp/0.0.0.0:7447\"]}");
}

#[test]
fn empty_lists_give_no_section() {
    assert!(GatewayConfig::to_zenoh_config(&ZenohEndpoints::default()).is_empty());
    let endpoints = ZenohEndpoints { connect: Vec::new(), listen: vec!["tcp/0.0.0.0:1".to_string()] };
    let sections = GatewayConfig::to_zenoh_config(&endpoints);
    assert_eq!(sections.len(), 1);
    assert_eq!(sections[0].key, "listen");
}

#[test]
fn endpoints_are_escaped_as_json() {
    let endpoints = ZenohEndpoints { connect: vec!["a\"b\\c\n".to_string()], listen: Vec::new() };
    let sections = GatewayConfig::to_zenoh_config(&endpoints);
    assert_eq!(sections[0].value, "{\"endpoints\":[\"a\\\"b\\\\c\\n\"]}");
    let read: serde_json::Value = serde_json::from_str(&sections[0].value).unwrap();
    assert_eq!(read["endpoints"][0], "a\"b\\c\n");
}

#[test]
fn section_around_an_array() {
    let section = endpoints_section("connect", "[\"a\"]");
    assert_eq!(section.key, "connect");
    assert_eq!(section.value, "{\"endpoints\":[\"a\"]}");
}
