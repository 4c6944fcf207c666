//! The forwarding path: which upstream messages go on to the local consumers.

use vstd::prelude::*;
use vstd::utf8;
use crate::big_endian;
use crate::interest;
use crate::interest::GatewayState;
use crate::layers;
use crate::metrics;
use crate::text;

verus! {

/// A message as it arrives from upstream.
pub struct Sample {
    pub attachment: Option<Vec<u8>>,
    pub payload: Vec<u8>,
}

/// A message for the downstream mesh.
pub struct ForwardedMessage {
    /// The topic, under which the message is put.
    pub key: String,
    pub payload: Vec<u8>,
    /// The send timestamp of the producer, where it sent one.
    pub attachment: Option<Vec<u8>>,
}

/// What an attachment says of its message: the topic, and the send timestamp where there is
/// one. An attachment that is not a topic with a timestamp behind it is a topic as a whole.
pub open spec fn addressed_to(attachment: Seq<u8>) -> (Seq<char>, Option<u64>) {
    match metrics::producer_attachment_content(attachment) {
        Some((topic, send_ts_ns)) => (topic, Some(send_ts_ns)),
        None => (text::lossy_text(attachment), None),
    }
}

/// `message` carries `payload` to `topic`, with the send timestamp where there is one.
pub open spec fn carries(
    message: ForwardedMessage,
    topic: Seq<char>,
    send_ts_ns: Option<u64>,
    payload: Seq<u8>,
) -> bool {
    &&& message.key@ == topic
    &&& message.payload@ == payload
    &&& match (message.attachment, send_ts_ns) {
        (Some(attachment), Some(ts)) => attachment@ == big_endian::be_bytes(ts as nat, 8),
        (None, None) => true,
        _ => false,
    }
}

/// Forwards messages from upstream to downstream where a local client is interested in them.
pub struct ForwardingHandler<'a, H> {
    state: &'a GatewayState<H>,
}

impl<'a, H> ForwardingHandler<'a, H> {
    /// The gateway whose interests decide.
    pub closed spec fn gateway(&self) -> GatewayState<H> {
        *self.state
    }

    pub fn new(state: &'a GatewayState<H>) -> (handler: Self)
        ensures
            handler.gateway() == *state,
    {
        ForwardingHandler { state }
    }

    /// Forwards a message whose topic is known: only where the topic has local subscribers.
    pub fn forward(
        &self,
        topic: String,
        send_ts_ns: Option<u64>,
        payload: Vec<u8>,
    ) -> (message: Option<ForwardedMessage>)
        requires
            self.gateway().wf(),
        ensures
            message is Some <==> self.gateway().topics().contains(topic@),
            message matches Some(m) ==> carries(m, topic@, send_ts_ns, payload@),
            message matches Some(m) ==> m.key@ == topic@ && m.payload@ == payload@,
            message matches Some(m) ==> match m.attachment {
                Some(a) => send_ts_ns is Some && metrics::send_ts_of(a@) == send_ts_ns && a@.len()
                    == 8,
                None => send_ts_ns is None,
            },
    {
        if self.state.has_subscribers(topic.as_str()) {
            proof {
                if let Some(ts) = send_ts_ns {
                    let bytes = big_endian::be_bytes(ts as nat, 8);
                    big_endian::law_number_as_eight_bytes(ts);
                    metrics::law_send_ts_reads_back(ts, seq![]);
                    assert(bytes + seq![] =~= bytes);
                }
            }
            let attachment = match send_ts_ns {
                Some(ts) => Some(metrics::encode_forward_attachment(ts)),
                None => None,
            };
            Some(ForwardedMessage { key: topic, payload, attachment })
        } else {
            None
        }
    }

    /// Handles a message from upstream. Returns what has to be put downstream: nothing for a
    /// message without an attachment, and nothing for a topic without local subscribers.
    pub fn on_sample(&self, sample: Sample) -> (message: Option<ForwardedMessage>)
        requires
            self.gateway().wf(),
        ensures
            message is Some <==> (sample.attachment matches Some(a)
                && self.gateway().topics().contains(addressed_to(a@).0)),
            message matches Some(m) ==> (sample.attachment matches Some(a) && carries(
                m,
                addressed_to(a@).0,
                addressed_to(a@).1,
                sample.payload@,
            )),
            message matches Some(m) ==> m.payload@ == sample.payload@,
            message matches Some(m) ==> (sample.attachment matches Some(a) && m.key@
                == addressed_to(a@).0),
            message matches Some(m) ==> match m.attachment {
                Some(ts) => sample.attachment matches Some(a) && ts@.len() == 8
                    && addressed_to(a@).1 is Some && metrics::send_ts_of(ts@) == addressed_to(
                    a@,
                ).1,
                None => sample.attachment matches Some(a) && addressed_to(a@).1 is None,
            },
    {
        match sample.attachment {
            Some(attachment) => match metrics::decode_producer_attachment(
                attachment.as_slice(),
            ) {
                Some((topic, send_ts_ns)) => self.forward(
                    topic,
                    Some(send_ts_ns),
                    sample.payload,
                ),
                None => self.forward(
                    text::decode_lossy(attachment.as_slice()),
                    None,
                    sample.payload,
                ),
            },
            None => None,
        }
    }
}

/// What a producer attaches reaches the forwarding path: the message is addressed to its
/// topic and carries its timestamp. A topic with a null character is cut there (see
/// `law_topic_with_null_character_is_cut`).
pub proof fn law_message_is_addressed_to_its_topic(topic: Seq<char>, send_ts_ns: u64)
    requires
        !topic.contains('\0'),
    ensures
        addressed_to(metrics::producer_attachment(topic, send_ts_ns)) == (topic, Some(send_ts_ns)),
{
    metrics::law_producer_attachment_reads_back(topic, send_ts_ns);
}

/// A message for a topic with a null character is addressed to what stands before it.
pub proof fn law_topic_with_null_character_is_cut(topic: Seq<char>, send_ts_ns: u64)
    requires
        topic.contains('\0'),
    ensures
        addressed_to(metrics::producer_attachment(topic, send_ts_ns)).0 == topic.take(
            topic.index_of_first('\0')->0,
        ),
{
    metrics::law_topic_is_cut_at_null_character(topic, send_ts_ns);
}

/// An attachment that is the topic and nothing else addresses the message to that topic,
/// unless the topic itself has a null character with a whole timestamp behind it.
pub proof fn law_bare_topic_is_an_address(topic: Seq<char>)
    requires
        !topic.contains('\0') || metrics::producer_attachment_content(
            utf8::encode_utf8(topic),
        ) is None,
    ensures
        addressed_to(utf8::encode_utf8(topic)) == (topic, None::<u64>),
{
    let bytes = utf8::encode_utf8(topic);
    if !topic.contains('\0') {
        metrics::lemma_text_without_zero_byte(topic);
        bytes.index_of_first_ensures(0u8);
    }
    utf8::encode_utf8_valid_utf8(topic);
    utf8::encode_utf8_decode_utf8(topic);
}

/// A message for a topic that a client has registered is forwarded to that topic, payload
/// and timestamp as the producer sent them.
pub proof fn law_registered_topic_is_forwarded<H>(
    state: GatewayState<H>,
    before: layers::Layer,
    client: Seq<char>,
    registered: Seq<Seq<char>>,
    topic: Seq<char>,
    send_ts_ns: u64,
)
    requires
        state.wf(),
        state.interests() == interest::registered(before, client, registered),
        registered.contains(topic),
        !topic.contains('\0'),
    ensures
        ({
            let (key, ts) = addressed_to(metrics::producer_attachment(topic, send_ts_ns));
            &&& state.topics().contains(key)
            &&& key == topic
            &&& ts == Some(send_ts_ns)
        }),
{
    law_message_is_addressed_to_its_topic(topic, send_ts_ns);
    interest::law_registered_topics_have_subscribers(before, client, registered, topic);
}

/// The consumer reads from a forwarded message the timestamp that the producer wrote.
pub proof fn law_timestamp_reaches_the_consumer(
    message: ForwardedMessage,
    topic: Seq<char>,
    send_ts_ns: u64,
    payload: Seq<u8>,
)
    requires
        carries(message, topic, Some(send_ts_ns), payload),
    ensures
        message.attachment matches Some(a) && metrics::send_ts_of(a@) == Some(send_ts_ns),
{
    let bytes = big_endian::be_bytes(send_ts_ns as nat, 8);
    metrics::law_send_ts_reads_back(send_ts_ns, seq![]);
    assert(bytes + seq![] =~= bytes);
}

/// A forwarded message has the whole payload, every byte in its place, the whole topic as
/// its key, and the timestamp where there is one.
pub proof fn law_payload_is_forwarded_whole(
    message: ForwardedMessage,
    topic: Seq<char>,
    send_ts_ns: Option<u64>,
    payload: Seq<u8>,
)
    requires
        carries(message, topic, send_ts_ns, payload),
    ensures
        message.payload.len() == payload.len(),
        forall|i: int| 0 <= i < payload.len() ==> #[trigger] message.payload[i] == payload[i],
        message.key@ == topic,
        message.attachment is Some <==> send_ts_ns is Some,
{
}

/// What an attachment says: where it is a topic and a timestamp, both; otherwise it is a
/// topic as a whole.
pub proof fn law_attachment_is_an_address(head: Seq<u8>, tail: Seq<u8>)
    requires
        !head.contains(0u8),
    ensures
        addressed_to(head) == (text::lossy_text(head), None::<u64>),
        tail.len() >= 8 ==> addressed_to(head.push(0) + tail) == (
            text::lossy_text(head),
            metrics::send_ts_of(tail),
        ),
        tail.len() < 8 ==> addressed_to(head.push(0) + tail) == (
            text::lossy_text(head.push(0) + tail),
            None::<u64>,
        ),
{
    metrics::law_attachment_is_cut_at_the_first_zero_byte(head, tail);
}

} // verus!
