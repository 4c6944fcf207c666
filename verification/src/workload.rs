//! What the simulated producers and consumers send and measure.

use vstd::prelude::*;
use crate::hashing;
use crate::metrics;
use crate::metrics::MetricsCollector;
use crate::string_map::StringMap;
use crate::text;

verus! {

/// Reads the topics of a file that has one topic on each line.
pub fn read_topics(content: &str) -> (topics: Vec<String>)
    ensures
        text::texts(topics@) == text::list_items(content@, '\n'),
{
    text::read_list(content, '\n')
}

/// Writes the list of topics with which a consumer answers the query for its interests.
pub fn interest_list(topics: &Vec<String>) -> (list: String)
    ensures
        list@ == text::joined(text::texts(topics@), ','),
{
    text::write_list(topics, ',')
}

/// The gateway learns from a consumer the topics of its file, where none holds a comma.
pub proof fn law_topics_of_a_file_reach_the_gateway(content: Seq<char>)
    requires
        forall|i: int|
            0 <= i < text::list_items(content, '\n').len() ==> !(#[trigger] text::list_items(
                content,
                '\n',
            )[i]).contains(','),
    ensures
        text::list_items(text::joined(text::list_items(content, '\n'), ','), ',')
            == text::list_items(content, '\n'),
{
    text::law_list_holds_items(content, '\n');
    text::law_list_reads_back(text::list_items(content, '\n'), ',');
}

/// The topic with number `i` of a generated list.
pub open spec fn numbered_topic(prefix: Seq<char>, i: nat) -> Seq<char> {
    prefix + "-"@ + text::decimal(i)
}

/// Generates `count` topics: the prefix, a hyphen, and a number from 0 upwards.
pub fn generate_topics(prefix: &str, count: usize) -> (topics: Vec<String>)
    ensures
        text::texts(topics@) == Seq::new(count as nat, |i: int| numbered_topic(prefix@, i as nat)),
{
    let mut topics: Vec<String> = Vec::new();
    let mut i: usize = 0;
    while i < count
        invariant
            i <= count,
            text::texts(topics@) == Seq::new(i as nat, |k: int| numbered_topic(prefix@, k as nat)),
        decreases count - i,
    {
        let ghost before = text::texts(topics@);
        let mut topic = prefix.to_owned();
        topic.append("-");
        text::push_decimal(&mut topic, i as u128);
        topics.push(topic);
        i += 1;
        proof {
            assert(text::texts(topics@) =~= before.push(numbered_topic(prefix@, (i - 1) as nat)));
            assert(text::texts(topics@) =~= Seq::new(
                i as nat,
                |k: int| numbered_topic(prefix@, k as nat),
            ));
        }
    }
    topics
}

/// No generated topic occurs twice.
pub proof fn law_generated_topics_are_distinct(prefix: Seq<char>, i: nat, j: nat)
    requires
        numbered_topic(prefix, i) == numbered_topic(prefix, j),
    ensures
        i == j,
{
    let start = prefix + "-"@;
    let n = start.len() as int;
    assert(numbered_topic(prefix, i).skip(n) =~= text::decimal(i));
    assert(numbered_topic(prefix, j).skip(n) =~= text::decimal(j));
    text::law_decimal_reads_back(i, i + j);
    text::law_decimal_reads_back(j, i + j);
}

/// How many of the topics lie in `shard`.
pub open spec fn topics_in_shard(topics: Seq<Seq<char>>, shard: Seq<char>) -> nat
    decreases topics.len(),
{
    if topics.len() == 0 {
        0
    } else {
        let before = topics_in_shard(topics.drop_last(), shard);
        if hashing::shard_of(topics.last()) == shard {
            before + 1
        } else {
            before
        }
    }
}

/// Counts the topics of each shard. Shards without a topic are left out.
pub fn count_shards(topics: &Vec<String>) -> (counts: StringMap<usize>)
    ensures
        counts.wf(),
        forall|shard: Seq<char>| #[trigger]
            counts@.contains_key(shard) <==> topics_in_shard(text::texts(topics@), shard) > 0,
        forall|shard: Seq<char>| #[trigger]
            counts@.contains_key(shard) ==> counts@[shard] == topics_in_shard(
                text::texts(topics@),
                shard,
            ),
{
    let ghost names = text::texts(topics@);
    let mut counts: StringMap<usize> = StringMap::new();
    let mut i: usize = 0;
    assert(names.take(0) =~= seq![]);
    while i < topics.len()
        invariant
            names == text::texts(topics@),
            i <= topics.len(),
            counts.wf(),
            forall|shard: Seq<char>| #[trigger]
                counts@.contains_key(shard) <==> topics_in_shard(names.take(i as int), shard) > 0,
            forall|shard: Seq<char>| #[trigger]
                counts@.contains_key(shard) ==> counts@[shard] == topics_in_shard(
                    names.take(i as int),
                    shard,
                ),
        decreases topics.len() - i,
    {
        let shard = hashing::get_shard_id(topics[i].as_str());
        proof {
            assert(names.take(i + 1).drop_last() =~= names.take(i as int));
            lemma_count_bound(names.take(i as int), shard@);
        }
        match counts.find(shard.as_str()) {
            Ok(k) => {
                let count = counts.value_mut(k);
                *count += 1;
            },
            Err(k) => {
                counts.insert_at(k, shard, 1);
            },
        }
        i += 1;
    }
    assert(names.take(i as int) =~= names);
    counts
}

proof fn lemma_count_bound(topics: Seq<Seq<char>>, shard: Seq<char>)
    ensures
        topics_in_shard(topics, shard) <= topics.len(),
    decreases topics.len(),
{
    if topics.len() > 0 {
        lemma_count_bound(topics.drop_last(), shard);
    }
}

/// The payload of a simulated message.
pub fn simulated_payload(topic: &str) -> (payload: String)
    ensures
        payload@ == "data-"@ + topic@,
{
    "data-".to_owned().concat(topic)
}

/// Nanoseconds between two messages at the given rate. A rate of zero means one message
/// each second.
pub fn send_interval_ns(msgs_per_sec: u64) -> (ns: u64)
    ensures
        ns == if msgs_per_sec > 0 {
            1_000_000_000int / msgs_per_sec as int
        } else {
            1_000_000_000int
        },
{
    if msgs_per_sec > 0 {
        1_000_000_000 / msgs_per_sec
    } else {
        1_000_000_000
    }
}

/// The topic that is next when `sent` messages were sent: the topics take turns.
pub fn topic_index(sent: usize, topic_count: usize) -> (index: usize)
    requires
        topic_count > 0,
    ensures
        index == sent as int % topic_count as int,
        index < topic_count,
{
    sent % topic_count
}

/// A received message with a send timestamp.
pub struct Delivery {
    /// Time from the producer to the consumer.
    pub e2e_ns: u64,
    /// Whether the message is one that is logged: the last of each thousand.
    pub logged: bool,
}

/// Records a message that a consumer received at the time `now_ns`: always its arrival, and
/// its latency where the attachment holds a send timestamp. A timestamp in the future counts
/// as no latency.
pub fn record_delivery(
    collector: &mut MetricsCollector,
    attachment: Option<&[u8]>,
    now_ns: u64,
) -> (delivery: Option<Delivery>)
    ensures
        ({
            let send_ts = match attachment {
                Some(bytes) => metrics::send_ts_of(bytes@),
                None => None,
            };
            &&& final(collector).messages() == (old(collector).messages() + 1) % 0x1_0000_0000_0000_0000
            &&& match (send_ts, delivery) {
                (Some(ts), Some(d)) => {
                    &&& d.e2e_ns == if now_ns >= ts {
                        now_ns - ts
                    } else {
                        0
                    }
                    &&& final(collector).samples() == old(collector).samples().push(d.e2e_ns)
                    &&& d.logged == (final(collector).messages() % 1000 == 0)
                },
                (None, None) => final(collector).samples() == old(collector).samples(),
                _ => false,
            }
        }),
{
    let send_ts: Option<u64> = match attachment {
        Some(bytes) => metrics::decode_forward_attachment(bytes),
        None => None,
    };
    collector.record_message();
    match send_ts {
        Some(ts) => {
            let e2e_ns: u64 = now_ns.saturating_sub(ts);
            collector.record_latency(e2e_ns);
            Some(Delivery { e2e_ns, logged: collector.msg_count() % 1000 == 0 })
        },
        None => None,
    }
}

/// The JSON text of a section that lists one endpoint, which is copied as it is.
pub fn endpoint_json(endpoint: &str) -> (json: String)
    ensures
        json@ == "{\"endpoints\": [\""@ + endpoint@ + "\"]}"@,
{
    let mut json = "{\"endpoints\": [\"".to_owned();
    json.append(endpoint);
    json.append("\"]}");
    json
}

/// How many topics lie in a shard: as many as are left when the topics of other shards are
/// taken out.
pub proof fn law_topics_of_a_shard_are_counted(topics: Seq<Seq<char>>, shard: Seq<char>)
    ensures
        topics_in_shard(topics, shard) == topics.filter(
            |topic: Seq<char>| hashing::shard_of(topic) == shard,
        ).len(),
    decreases topics.len(),
{
    reveal(Seq::filter);
    if topics.len() > 0 {
        law_topics_of_a_shard_are_counted(topics.drop_last(), shard);
    }
}

/// A generated topic is the whole prefix, a hyphen, and its number.
pub proof fn law_generated_topic_holds_prefix_and_number(prefix: Seq<char>, i: nat)
    ensures
        numbered_topic(prefix, i) == prefix + "-"@ + text::decimal(i),
{
}

} // verus!
