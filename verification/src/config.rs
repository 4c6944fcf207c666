//! Gateway configuration.

use vstd::prelude::*;
use crate::text;

verus! {

/// Endpoints of a zenoh session.
#[derive(Debug, Clone)]
pub struct ZenohEndpoints {
    /// Router endpoints to connect to, such as `tcp/zenoh-upstream:7447`.
    pub connect: Vec<String>,
    /// Endpoints to listen on, such as `tcp/0.0.0.0:7447`.
    pub listen: Vec<String>,
}

impl Default for ZenohEndpoints {
    fn default() -> (endpoints: Self)
        ensures
            endpoints.connect@ == Seq::<String>::empty(),
            endpoints.listen@ == Seq::<String>::empty(),
    {
        ZenohEndpoints { connect: Vec::new(), listen: Vec::new() }
    }
}

/// Gateway configuration.
///
/// The file is looked for at the path of the command line, then at that of the environment
/// (`GATEWAY_CONFIG`), then at `/etc/zenoh-gateway/config.json5`. The gateway ID is that of
/// the environment (`GATEWAY_ID`), then that of the command line, then that of the file.
#[derive(Debug, Clone)]
pub struct GatewayConfig {
    /// Gateway instance ID.
    pub id: String,
    /// Session on the side of the producers.
    pub upstream: ZenohEndpoints,
    /// Session on the side of the consumers.
    pub downstream: ZenohEndpoints,
    /// Key expression for the discovery of gateways.
    pub cluster_expr: String,
    /// Key expression for the discovery of consumers.
    pub consumer_liveliness_expr: String,
    /// Seconds between two reports of statistics.
    pub stats_interval_secs: u64,
}

fn default_id() -> (s: String)
    ensures
        s@ == "gw-1"@,
{
    "gw-1".to_owned()
}

fn default_cluster_expr() -> (s: String)
    ensures
        s@ == "gateway/cluster/**"@,
{
    "gateway/cluster/**".to_owned()
}

fn default_consumer_liveliness_expr() -> (s: String)
    ensures
        s@ == "gateway/consumer/**"@,
{
    "gateway/consumer/**".to_owned()
}

fn default_stats_interval() -> (secs: u64)
    ensures
        secs == 5,
{
    5
}

impl Default for GatewayConfig {
    fn default() -> (config: Self)
        ensures
            config.is_default(),
    {
        GatewayConfig {
            id: default_id(),
            upstream: ZenohEndpoints::default(),
            downstream: ZenohEndpoints::default(),
            cluster_expr: default_cluster_expr(),
            consumer_liveliness_expr: default_consumer_liveliness_expr(),
            stats_interval_secs: default_stats_interval(),
        }
    }
}

/// The first of two texts that is there, or else the third.
pub open spec fn first_of(
    first: Option<Seq<char>>,
    second: Option<Seq<char>>,
    last: Seq<char>,
) -> Seq<char> {
    match first {
        Some(s) => s,
        None => match second {
            Some(s) => s,
            None => last,
        },
    }
}

fn first_text(first: Option<&str>, second: Option<&str>, last: &str) -> (s: String)
    ensures
        s@ == first_of(text::optional_text(first), text::optional_text(second), last@),
{
    match first {
        Some(s) => s.to_owned(),
        None => match second {
            Some(s) => s.to_owned(),
            None => last.to_owned(),
        },
    }
}

/// A section of a session's configuration: its key, and its value as JSON text.
pub struct ConfigSection {
    pub key: String,
    pub value: String,
}

/// The compact JSON text of an array of strings.
pub uninterp spec fn json_array(items: Seq<Seq<char>>) -> Seq<char>;

/// Writes an array of strings as `serde_json::Value` displays it. What is claimed is that
/// the text depends on the strings alone; how they are escaped is not stated.
#[verifier::external_body]
fn write_json_array(items: &Vec<String>) -> (json: String)
    ensures
        json@ == json_array(text::texts(items@)),
{
    serde_json::Value::from(items.as_slice()).to_string()
}

/// The value of a section that lists `endpoints`.
pub open spec fn endpoints_json(endpoints: Seq<Seq<char>>) -> Seq<char> {
    "{\"endpoints\":"@ + json_array(endpoints) + "}"@
}

/// `section` holds `endpoints` under `key`.
pub open spec fn is_section(
    section: ConfigSection,
    key: Seq<char>,
    endpoints: Seq<Seq<char>>,
) -> bool {
    section.key@ == key && section.value@ == endpoints_json(endpoints)
}

impl GatewayConfig {
    /// Every field has its default value.
    pub open spec fn is_default(&self) -> bool {
        &&& self.id@ == "gw-1"@
        &&& self.upstream.connect@ == Seq::<String>::empty()
        &&& self.upstream.listen@ == Seq::<String>::empty()
        &&& self.downstream.connect@ == Seq::<String>::empty()
        &&& self.downstream.listen@ == Seq::<String>::empty()
        &&& self.cluster_expr@ == "gateway/cluster/**"@
        &&& self.consumer_liveliness_expr@ == "gateway/consumer/**"@
        &&& self.stats_interval_secs == 5
    }

    /// The configuration to run with: the one that was read from the file, or the defaults
    /// where there is no file or none that can be read.
    pub fn load(from_file: Option<GatewayConfig>) -> (config: Self)
        ensures
            match from_file {
                Some(read) => config == read,
                None => config.is_default(),
            },
    {
        match from_file {
            Some(read) => read,
            None => GatewayConfig::default(),
        }
    }

    /// The path at which the configuration file is looked for.
    pub fn resolve_path(cli_path: Option<&str>, env_path: Option<&str>) -> (path: String)
        ensures
            path@ == first_of(
                text::optional_text(cli_path),
                text::optional_text(env_path),
                "/etc/zenoh-gateway/config.json5"@,
            ),
    {
        first_text(cli_path, env_path, "/etc/zenoh-gateway/config.json5")
    }

    /// The final gateway ID.
    pub fn resolve_id(&self, env_id: Option<&str>, cli_id: Option<&str>) -> (id: String)
        ensures
            id@ == first_of(text::optional_text(env_id), text::optional_text(cli_id), self.id@),
    {
        first_text(env_id, cli_id, self.id.as_str())
    }

    /// The sections that a session with these endpoints sets in its configuration. Where a
    /// list is empty, the default of the session stays.
    pub fn to_zenoh_config(endpoints: &ZenohEndpoints) -> (sections: Vec<ConfigSection>)
        ensures
            ({
                let connect = text::texts(endpoints.connect@);
                let listen = text::texts(endpoints.listen@);
                let first = if connect.len() > 0 {
                    1int
                } else {
                    0int
                };
                &&& sections.len() == if listen.len() > 0 {
                    first + 1
                } else {
                    first
                }
                &&& connect.len() > 0 ==> is_section(sections[0], "connect"@, connect)
                &&& listen.len() > 0 ==> is_section(sections[first], "listen"@, listen)
            }),
    {
        let mut sections: Vec<ConfigSection> = Vec::new();
        if endpoints.connect.len() > 0 {
            let array = write_json_array(&endpoints.connect);
            sections.push(endpoints_section("connect", array.as_str()));
        }
        if endpoints.listen.len() > 0 {
            let array = write_json_array(&endpoints.listen);
            sections.push(endpoints_section("listen", array.as_str()));
        }
        sections
    }
}

/// The section `key` with the endpoints of a JSON array.
pub fn endpoints_section(key: &str, array: &str) -> (section: ConfigSection)
    ensures
        section.key@ == key@,
        section.value@ == "{\"endpoints\":"@ + array@ + "}"@,
{
    let mut value = "{\"endpoints\":".to_owned();
    value.append(array);
    value.append("}");
    ConfigSection { key: key.to_owned(), value }
}

/// What is chosen of three: the first where it is there, else the second where it is there,
/// else the last.
pub proof fn law_first_that_is_there_counts(
    first: Seq<char>,
    second: Seq<char>,
    other: Option<Seq<char>>,
    last: Seq<char>,
)
    ensures
        first_of(Some(first), other, last) == first,
        first_of(None, Some(second), last) == second,
        first_of(None, None, last) == last,
{
}

/// A section holds its key, and a JSON object with the array of all endpoints.
pub proof fn law_section_holds_all_endpoints(
    section: ConfigSection,
    key: Seq<char>,
    endpoints: Seq<Seq<char>>,
)
    requires
        is_section(section, key, endpoints),
    ensures
        section.key@ == key,
        section.value@ == "{\"endpoints\":"@ + json_array(endpoints) + "}"@,
{
}

/// The defaults.
pub proof fn law_default_values(config: GatewayConfig)
    requires
        config.is_default(),
    ensures
        config.id@ == "gw-1"@,
        config.cluster_expr@ == "gateway/cluster/**"@,
        config.consumer_liveliness_expr@ == "gateway/consumer/**"@,
        config.stats_interval_secs == 5,
        config.upstream.connect.len() == 0 && config.upstream.listen.len() == 0,
        config.downstream.connect.len() == 0 && config.downstream.listen.len() == 0,
{
}

} // verus!
