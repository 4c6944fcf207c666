//! Message counts and latency statistics.

use vstd::prelude::*;
use vstd::relations;
use vstd::seq_lib;
use vstd::utf8;
use crate::big_endian;
use crate::rounding;
use crate::text;

pub use crate::clock::now_ns;

verus! {

/// The samples in ascending order.
pub open spec fn in_order(samples: Seq<u64>) -> Seq<u64> {
    samples.sort_by(|a: u64, b: u64| a <= b)
}

/// Sum of the samples.
pub open spec fn sum(samples: Seq<u64>) -> nat
    decreases samples.len(),
{
    if samples.len() == 0 {
        0
    } else {
        sum(samples.drop_last()) + samples.last() as nat
    }
}

/// The `p`-th percentile of the values by the nearest-rank method: the smallest value that
/// at least `p` of a hundred values do not exceed. `sorted` is in ascending order.
pub open spec fn nearest_rank(sorted: Seq<u64>, p: nat) -> u64 {
    if sorted.len() == 0 {
        0
    } else {
        let rank = (p * sorted.len() + 99) / 100;
        let position = if rank < sorted.len() {
            rank
        } else {
            sorted.len()
        };
        sorted[position - 1]
    }
}

/// Calculates a percentile of values in ascending order by the nearest-rank method.
pub fn percentile(sorted: &[u64], p: u64) -> (value: u64)
    requires
        sorted@.len() > 0 ==> p > 0,
    ensures
        value == nearest_rank(sorted@, p as nat),
{
    if sorted.len() == 0 {
        return 0;
    }
    let len: u128 = sorted.len() as u128;
    assert(p * len <= 0xffff_ffff_ffff_ffff * 0xffff_ffff_ffff_ffff) by (nonlinear_arith)
        requires
            p <= 0xffff_ffff_ffff_ffff,
            len <= 0xffff_ffff_ffff_ffff,
    ;
    assert(p * len >= len) by (nonlinear_arith)
        requires
            p >= 1,
            len >= 0,
    ;
    let rank: u128 = (p as u128 * len + 99) / 100;
    let position: u128 = if rank < len {
        rank
    } else {
        len
    };
    sorted[(position - 1) as usize]
}

/// Sorts the samples with `slice::sort_unstable`, which leaves the same values in ascending
/// order.
#[verifier::external_body]
fn sort_ascending(samples: &mut Vec<u64>)
    ensures
        final(samples)@.to_multiset() == old(samples)@.to_multiset(),
        forall|i: int, j: int|
            0 <= i <= j < final(samples)@.len() ==> final(samples)@[i] <= final(samples)@[j],
{
    samples.sort_unstable();
}

proof fn lemma_sorted_is_in_order(sorted: Seq<u64>, samples: Seq<u64>)
    requires
        sorted.to_multiset() == samples.to_multiset(),
        forall|i: int, j: int| 0 <= i <= j < sorted.len() ==> sorted[i] <= sorted[j],
    ensures
        sorted == in_order(samples),
{
    let leq = |a: u64, b: u64| a <= b;
    assert(relations::total_ordering(leq));
    samples.lemma_sort_by_ensures(leq);
    assert(relations::sorted_by(sorted, leq));
    seq_lib::lemma_sorted_unique(sorted, samples.sort_by(leq), leq);
}

/// Computes the average of the samples.
fn average(samples: &Vec<u64>) -> (value: u64)
    requires
        samples.len() > 0,
    ensures
        value == sum(samples@) / samples@.len(),
{
    let mut total: u128 = 0;
    let mut i: usize = 0;
    while i < samples.len()
        invariant
            i <= samples.len(),
            total == sum(samples@.take(i as int)),
            total <= i * 0xffff_ffff_ffff_ffff,
        decreases samples.len() - i,
    {
        assert(samples@.take(i + 1).drop_last() =~= samples@.take(i as int));
        total = total + samples[i] as u128;
        i += 1;
    }
    assert(samples@.take(i as int) =~= samples@);
    let len: u128 = samples.len() as u128;
    let value: u128 = total / len;
    assert(value <= 0xffff_ffff_ffff_ffff) by (nonlinear_arith)
        requires
            value == total / len,
            len > 0,
            total <= len * 0xffff_ffff_ffff_ffff,
    ;
    value as u64
}

/// Collects message counts and latency samples, and produces statistics on demand.
pub struct MetricsCollector {
    msg_count: u64,
    latency_samples: Vec<u64>,
}

/// Statistics of what was recorded between two snapshots.
pub struct MetricsSnapshot {
    pub msg_count: u64,
    pub latency_min_ns: u64,
    pub latency_max_ns: u64,
    pub latency_avg_ns: u64,
    pub latency_p50_ns: u64,
    pub latency_p90_ns: u64,
    pub latency_p99_ns: u64,
}

impl MetricsSnapshot {
    /// The statistics describe `samples`. Without samples they are all zero.
    pub open spec fn describes(&self, samples: Seq<u64>) -> bool {
        if samples.len() == 0 {
            &&& self.latency_min_ns == 0
            &&& self.latency_max_ns == 0
            &&& self.latency_avg_ns == 0
            &&& self.latency_p50_ns == 0
            &&& self.latency_p90_ns == 0
            &&& self.latency_p99_ns == 0
        } else {
            let sorted = in_order(samples);
            &&& self.latency_min_ns == sorted.first()
            &&& self.latency_max_ns == sorted.last()
            &&& self.latency_avg_ns == sum(samples) / samples.len()
            &&& self.latency_p50_ns == nearest_rank(sorted, 50)
            &&& self.latency_p90_ns == nearest_rank(sorted, 90)
            &&& self.latency_p99_ns == nearest_rank(sorted, 99)
        }
    }
}

impl MetricsCollector {
    /// Number of messages recorded since the last snapshot.
    pub closed spec fn messages(&self) -> u64 {
        self.msg_count
    }

    /// The latency samples recorded since the last snapshot, in nanoseconds.
    pub closed spec fn samples(&self) -> Seq<u64> {
        self.latency_samples@
    }

    pub fn new() -> (collector: Self)
        ensures
            collector.messages() == 0,
            collector.samples() == Seq::<u64>::empty(),
    {
        MetricsCollector { msg_count: 0, latency_samples: Vec::new() }
    }

    /// Increments the message counter by one. The counter wraps around.
    pub fn record_message(&mut self)
        ensures
            final(self).messages() == (old(self).messages() + 1) % 0x1_0000_0000_0000_0000,
            final(self).samples() == old(self).samples(),
    {
        self.msg_count = self.msg_count.wrapping_add(1);
    }

    /// The current message count.
    pub fn msg_count(&self) -> (n: u64)
        ensures
            n == self.messages(),
    {
        self.msg_count
    }

    /// Records a latency sample in nanoseconds.
    pub fn record_latency(&mut self, latency_ns: u64)
        ensures
            final(self).messages() == old(self).messages(),
            final(self).samples() == old(self).samples().push(latency_ns),
    {
        self.latency_samples.push(latency_ns);
    }

    /// Takes a snapshot of the current statistics and resets everything. Returns `None` if
    /// no messages were recorded.
    pub fn snapshot_and_reset(&mut self) -> (snapshot: Option<MetricsSnapshot>)
        ensures
            final(self).messages() == 0,
            final(self).samples() == Seq::<u64>::empty(),
            snapshot is None <==> old(self).messages() == 0,
            snapshot matches Some(s) ==> {
                &&& s.msg_count == old(self).messages()
                &&& s.describes(old(self).samples())
            },
    {
        let msg_count: u64 = self.msg_count;
        self.msg_count = 0;
        let mut samples: Vec<u64> = Vec::new();
        std::mem::swap(&mut samples, &mut self.latency_samples);
        if msg_count == 0 {
            return None;
        }
        if samples.len() == 0 {
            return Some(
                MetricsSnapshot {
                    msg_count,
                    latency_min_ns: 0,
                    latency_max_ns: 0,
                    latency_avg_ns: 0,
                    latency_p50_ns: 0,
                    latency_p90_ns: 0,
                    latency_p99_ns: 0,
                },
            );
        }
        let latency_avg_ns: u64 = average(&samples);
        sort_ascending(&mut samples);
        proof {
            lemma_sorted_is_in_order(samples@, old(self).samples());
            old(self).samples().to_multiset_ensures();
            samples@.to_multiset_ensures();
        }
        Some(
            MetricsSnapshot {
                msg_count,
                latency_min_ns: samples[0],
                latency_max_ns: samples[samples.len() - 1],
                latency_avg_ns,
                latency_p50_ns: percentile(samples.as_slice(), 50),
                latency_p90_ns: percentile(samples.as_slice(), 90),
                latency_p99_ns: percentile(samples.as_slice(), 99),
            },
        )
    }
}

impl Default for MetricsCollector {
    fn default() -> (collector: Self)
        ensures
            collector.messages() == 0,
            collector.samples() == Seq::<u64>::empty(),
    {
        MetricsCollector::new()
    }
}

/// A latency as it is displayed: in whole microseconds below a millisecond, and in
/// milliseconds with two decimals otherwise.
pub open spec fn latency_text(ns: u64) -> Seq<char> {
    if ns < 1_000_000 {
        text::decimal(rounding::rounded_quotient(ns as nat, 1_000, 1)) + "us"@
    } else {
        let hundredths = rounding::rounded_quotient(ns as nat, 1_000_000, 100);
        text::decimal(hundredths / 100) + "."@ + seq![
            text::digit(hundredths % 100 / 10),
            text::digit(hundredths % 10),
        ] + "ms"@
    }
}

impl MetricsSnapshot {
    /// The line that displays the latencies under `label`.
    pub open spec fn latency_line(&self, label: Seq<char>) -> Seq<char> {
        label + ": min="@ + latency_text(self.latency_min_ns) + " max="@ + latency_text(
            self.latency_max_ns,
        ) + " avg="@ + latency_text(self.latency_avg_ns) + " p50="@ + latency_text(
            self.latency_p50_ns,
        ) + " p90="@ + latency_text(self.latency_p90_ns) + " p99="@ + latency_text(
            self.latency_p99_ns,
        )
    }

    /// Formats a latency for display.
    pub fn format_latency(ns: u64) -> (s: String)
        ensures
            s@ == latency_text(ns),
    {
        let mut s = String::new();
        if ns < 1_000_000 {
            text::push_decimal(&mut s, rounding::divide_and_round(ns, 1_000, 1));
            s.append("us");
        } else {
            let hundredths: u128 = rounding::divide_and_round(ns, 1_000_000, 100);
            text::push_decimal(&mut s, hundredths / 100);
            s.append(".");
            s.push((48u8 + (hundredths % 100 / 10) as u8) as char);
            s.push((48u8 + (hundredths % 10) as u8) as char);
            s.append("ms");
        }
        assert(s@ =~= latency_text(ns));
        s
    }

    /// Formats the latencies as one line for display.
    pub fn format_latency_line(&self, label: &str) -> (line: String)
        ensures
            line@ == self.latency_line(label@),
    {
        let mut line = label.to_owned();
        line.append(": min=");
        line.append(Self::format_latency(self.latency_min_ns).as_str());
        line.append(" max=");
        line.append(Self::format_latency(self.latency_max_ns).as_str());
        line.append(" avg=");
        line.append(Self::format_latency(self.latency_avg_ns).as_str());
        line.append(" p50=");
        line.append(Self::format_latency(self.latency_p50_ns).as_str());
        line.append(" p90=");
        line.append(Self::format_latency(self.latency_p90_ns).as_str());
        line.append(" p99=");
        line.append(Self::format_latency(self.latency_p99_ns).as_str());
        line
    }
}

/// Encodes a send timestamp as eight bytes, the most significant one first.
pub fn encode_send_ts(ts_ns: u64) -> (bytes: [u8; 8])
    ensures
        bytes@ == big_endian::be_bytes(ts_ns as nat, 8),
{
    big_endian::write_u64(ts_ns)
}

/// The timestamp that stands at the start of `bytes`.
pub open spec fn send_ts_of(bytes: Seq<u8>) -> Option<u64> {
    if bytes.len() >= 8 {
        Some(big_endian::be_value(bytes.take(8)) as u64)
    } else {
        None
    }
}

/// Decodes a send timestamp from the first eight bytes. Returns `None` if there are fewer.
pub fn decode_send_ts(bytes: &[u8]) -> (ts_ns: Option<u64>)
    ensures
        ts_ns == send_ts_of(bytes@),
{
    if bytes.len() >= 8 {
        assert(bytes@.subrange(0, 8) =~= bytes@.take(8));
        Some(big_endian::read_u64(bytes, 0))
    } else {
        None
    }
}

/// The attachment of a message from a producer to a gateway: the topic, a zero byte, and
/// the send timestamp.
pub open spec fn producer_attachment(topic: Seq<char>, send_ts_ns: u64) -> Seq<u8> {
    utf8::encode_utf8(topic) + seq![0u8] + big_endian::be_bytes(send_ts_ns as nat, 8)
}

/// What an attachment of a producer says: what stands before the first zero byte is the
/// topic, and what stands behind it starts with the send timestamp.
pub open spec fn producer_attachment_content(attachment: Seq<u8>) -> Option<(Seq<char>, u64)> {
    match attachment.index_of_first(0u8) {
        Some(k) => match send_ts_of(attachment.skip(k + 1)) {
            Some(send_ts_ns) => Some((text::lossy_text(attachment.take(k)), send_ts_ns)),
            None => None,
        },
        None => None,
    }
}

/// Encodes the attachment of a message from a producer to a gateway.
pub fn encode_producer_attachment(topic: &str, send_ts_ns: u64) -> (attachment: Vec<u8>)
    ensures
        attachment@ == producer_attachment(topic@, send_ts_ns),
{
    let mut attachment: Vec<u8> = topic.as_bytes_vec();
    attachment.push(0u8);
    let mut ts = encode_forward_attachment(send_ts_ns);
    attachment.append(&mut ts);
    assert(attachment@ =~= producer_attachment(topic@, send_ts_ns));
    attachment
}

/// Finds the first zero byte.
fn find_zero(bytes: &[u8]) -> (position: Option<usize>)
    ensures
        match position {
            Some(i) => bytes@.index_of_first(0u8) == Some(i as int) && i < bytes@.len(),
            None => bytes@.index_of_first(0u8) is None,
        },
{
    proof {
        bytes@.index_of_first_ensures(0u8);
    }
    let mut i: usize = 0;
    while i < bytes.len()
        invariant
            i <= bytes.len(),
            forall|j: int| 0 <= j < i ==> bytes@[j] != 0,
            match bytes@.index_of_first(0u8) {
                Some(k) => 0 <= k < bytes@.len() && bytes@[k] == 0 && forall|j: int|
                    0 <= j < k ==> bytes@[j] != 0,
                None => !bytes@.contains(0u8),
            },
        decreases bytes.len() - i,
    {
        if bytes[i] == 0 {
            assert(bytes@.contains(bytes@[i as int]));
            return Some(i);
        }
        i += 1;
    }
    None
}

/// The bytes from `from` up to, not including, `to`.
fn copy_range(bytes: &[u8], from: usize, to: usize) -> (copy: Vec<u8>)
    requires
        from <= to <= bytes.len(),
    ensures
        copy@ == bytes@.subrange(from as int, to as int),
{
    let mut copy: Vec<u8> = Vec::new();
    let mut i: usize = from;
    while i < to
        invariant
            from <= i <= to <= bytes.len(),
            copy@ == bytes@.subrange(from as int, i as int),
        decreases to - i,
    {
        copy.push(bytes[i]);
        i += 1;
        assert(copy@ =~= bytes@.subrange(from as int, i as int));
    }
    copy
}

/// Decodes the attachment of a producer into topic and send timestamp. Returns `None` if
/// there is no zero byte or no whole timestamp behind it.
pub fn decode_producer_attachment(attachment: &[u8]) -> (content: Option<(String, u64)>)
    ensures
        match content {
            Some((topic, send_ts_ns)) => producer_attachment_content(attachment@) == Some(
                (topic@, send_ts_ns),
            ),
            None => producer_attachment_content(attachment@) is None,
        },
{
    let len: usize = attachment.len();
    match find_zero(attachment) {
        Some(k) => {
            let topic = copy_range(attachment, 0, k);
            let rest = copy_range(attachment, k + 1, len);
            assert(topic@ =~= attachment@.take(k as int));
            assert(rest@ =~= attachment@.skip(k + 1));
            match decode_send_ts(rest.as_slice()) {
                Some(send_ts_ns) => Some((text::decode_lossy(topic.as_slice()), send_ts_ns)),
                None => None,
            }
        },
        None => None,
    }
}

/// Encodes the attachment of a message from a gateway to a consumer: the send timestamp.
pub fn encode_forward_attachment(send_ts_ns: u64) -> (attachment: Vec<u8>)
    ensures
        attachment@ == big_endian::be_bytes(send_ts_ns as nat, 8),
{
    let bytes: [u8; 8] = encode_send_ts(send_ts_ns);
    copy_range(bytes.as_slice(), 0, 8)
}

/// Decodes the attachment of a message from a gateway to a consumer.
pub fn decode_forward_attachment(attachment: &[u8]) -> (send_ts_ns: Option<u64>)
    ensures
        send_ts_ns == send_ts_of(attachment@),
{
    decode_send_ts(attachment)
}

proof fn lemma_scalar_without_zero_byte(scalar: u32)
    requires
        scalar != 0,
    ensures
        forall|i: int|
            0 <= i < utf8::encode_scalar(scalar).len() ==> #[trigger] utf8::encode_scalar(
                scalar,
            )[i] != 0,
{
    assert(0 < scalar <= 0x7f ==> (scalar & 0x7f) as u8 != 0) by (bit_vector);
    assert(forall|b: u8| #[trigger] (0x80u8 | b) != 0) by (bit_vector);
    assert(forall|b: u8| #[trigger] (0xc0u8 | b) != 0) by (bit_vector);
    assert(forall|b: u8| #[trigger] (0xe0u8 | b) != 0) by (bit_vector);
    assert(forall|b: u8| #[trigger] (0xf0u8 | b) != 0) by (bit_vector);
}

/// The encoding of a text has a zero byte only where the text has a null character.
pub proof fn lemma_text_without_zero_byte(s: Seq<char>)
    requires
        !s.contains('\0'),
    ensures
        !utf8::encode_utf8(s).contains(0u8),
    decreases s.len(),
{
    let bytes = utf8::encode_utf8(s);
    if s.len() > 0 {
        let rest = s.drop_first();
        assert(s.contains(s[0]));
        assert forall|c: char| rest.contains(c) implies s.contains(c) by {
            let k = choose|k: int| 0 <= k < rest.len() && rest[k] == c;
            assert(s[k + 1] == c);
        }
        let c: char = s[0];
        if c as u32 == 0 {
            utf8::char_u32_cast(c, 0);
        }
        lemma_scalar_without_zero_byte(c as u32);
        lemma_text_without_zero_byte(rest);
        let head = utf8::encode_scalar(s[0] as u32);
        let tail = utf8::encode_utf8(rest);
        assert forall|i: int| 0 <= i < bytes.len() implies bytes[i] != 0 by {
            if i >= head.len() {
                assert(bytes[i] == tail[i - head.len()]);
                assert(tail.contains(tail[i - head.len()]));
            }
        }
    }
}

/// A timestamp at the start of an attachment reads back as it was written, whatever
/// follows it.
pub proof fn law_send_ts_reads_back(ts_ns: u64, rest: Seq<u8>)
    ensures
        send_ts_of(big_endian::be_bytes(ts_ns as nat, 8) + rest) == Some(ts_ns),
{
    let bytes = big_endian::be_bytes(ts_ns as nat, 8);
    big_endian::lemma_eight_bytes();
    big_endian::lemma_value_of_bytes(ts_ns as nat, 8);
    assert((bytes + rest).take(8) =~= bytes);
}

/// The attachment of a producer reads back as it was written: the gateway learns topic and
/// send timestamp. A topic with a null character is cut there (see
/// `law_topic_is_cut_at_null_character`).
pub proof fn law_producer_attachment_reads_back(topic: Seq<char>, send_ts_ns: u64)
    requires
        !topic.contains('\0'),
    ensures
        producer_attachment_content(producer_attachment(topic, send_ts_ns)) == Some(
            (topic, send_ts_ns),
        ),
{
    let bytes = utf8::encode_utf8(topic);
    let ts = big_endian::be_bytes(send_ts_ns as nat, 8);
    let attachment = producer_attachment(topic, send_ts_ns);
    let k = bytes.len() as int;
    lemma_text_without_zero_byte(topic);
    attachment.index_of_first_ensures(0u8);
    assert(attachment[k] == 0);
    assert(attachment.contains(0u8));
    let first = attachment.index_of_first(0u8).unwrap();
    if first < k {
        assert(bytes[first] == attachment[first]);
        assert(bytes.contains(0u8));
    }
    assert(first == k);
    assert(attachment.take(k) =~= bytes);
    assert(attachment.skip(k + 1) =~= ts + seq![]);
    law_send_ts_reads_back(send_ts_ns, seq![]);
    utf8::encode_utf8_valid_utf8(topic);
    utf8::encode_utf8_decode_utf8(topic);
}

proof fn lemma_encode_concat(a: Seq<char>, b: Seq<char>)
    ensures
        utf8::encode_utf8(a + b) == utf8::encode_utf8(a) + utf8::encode_utf8(b),
    decreases a.len(),
{
    if a.len() == 0 {
        assert(a + b =~= b);
        assert(utf8::encode_utf8(a) + utf8::encode_utf8(b) =~= utf8::encode_utf8(b));
    } else {
        lemma_encode_concat(a.drop_first(), b);
        assert((a + b).drop_first() =~= a.drop_first() + b);
        assert(utf8::encode_utf8(a + b) =~= utf8::encode_utf8(a) + utf8::encode_utf8(b));
    }
}

/// A topic with a null character does not read back from the attachment: the gateway learns
/// only what stands before the first null character.
pub proof fn law_topic_is_cut_at_null_character(topic: Seq<char>, send_ts_ns: u64)
    requires
        topic.contains('\0'),
    ensures
        producer_attachment_content(producer_attachment(topic, send_ts_ns)) matches Some(content)
            && content.0 == topic.take(topic.index_of_first('\0')->0),
        producer_attachment_content(producer_attachment(topic, send_ts_ns)) != Some(
            (topic, send_ts_ns),
        ),
{
    topic.index_of_first_ensures('\0');
    let k = topic.index_of_first('\0')->0;
    let head = topic.take(k);
    let tail = topic.skip(k);
    assert(head + tail =~= topic);
    lemma_encode_concat(head, tail);
    assert(!head.contains('\0')) by {
        if head.contains('\0') {
            let j = choose|j: int| 0 <= j < head.len() && head[j] == '\0';
            assert(topic[j] == '\0');
        }
    }
    lemma_text_without_zero_byte(head);
    let bytes = utf8::encode_utf8(head);
    let n = bytes.len() as int;
    let attachment = producer_attachment(topic, send_ts_ns);
    big_endian::lemma_eight_bytes();
    big_endian::lemma_value_of_bytes(send_ts_ns as nat, 8);
    assert(utf8::encode_scalar(0)[0] == 0) by {
        assert((0u32 & 0x7f) as u8 == 0) by (bit_vector);
    }
    assert(tail[0] == '\0');
    assert(utf8::encode_utf8(tail)[0] == 0);
    assert(attachment[n] == 0);
    attachment.index_of_first_ensures(0u8);
    assert(attachment.contains(0u8));
    let first = attachment.index_of_first(0u8)->0;
    if first < n {
        assert(bytes[first] == attachment[first]);
        assert(bytes.contains(0u8));
    }
    assert(first == n);
    assert(attachment.take(n) =~= bytes);
    utf8::encode_utf8_valid_utf8(head);
    utf8::encode_utf8_decode_utf8(head);
    assert(head.len() < topic.len());
}

/// The statistics are in their natural order, and the average lies between the extremes.
pub proof fn law_statistics_are_ordered(snapshot: MetricsSnapshot, samples: Seq<u64>)
    requires
        snapshot.describes(samples),
    ensures
        snapshot.latency_min_ns <= snapshot.latency_p50_ns <= snapshot.latency_p90_ns
            <= snapshot.latency_p99_ns <= snapshot.latency_max_ns,
        snapshot.latency_min_ns <= snapshot.latency_avg_ns <= snapshot.latency_max_ns,
{
    if samples.len() > 0 {
        lemma_in_order(samples);
        let sorted = in_order(samples);
        let (low, high) = (snapshot.latency_min_ns, snapshot.latency_max_ns);
        assert forall|i: int| 0 <= i < samples.len() implies low <= #[trigger] samples[i]
            <= high by {
            assert(samples.contains(samples[i]));
            let k = choose|k: int| 0 <= k < sorted.len() && sorted[k] == samples[i];
        }
        lemma_sum_bounds(samples, low as nat, high as nat);
        let n = samples.len();
        let total = sum(samples);
        assert(low <= total / n <= high) by (nonlinear_arith)
            requires
                n > 0,
                low * n <= total <= high * n,
        ;
    }
}

proof fn lemma_in_order(samples: Seq<u64>)
    ensures
        in_order(samples).len() == samples.len(),
        forall|i: int, j: int|
            0 <= i <= j < samples.len() ==> in_order(samples)[i] <= in_order(samples)[j],
        forall|x: u64| samples.contains(x) ==> in_order(samples).contains(x),
{
    let leq = |a: u64, b: u64| a <= b;
    let sorted = in_order(samples);
    assert(relations::total_ordering(leq));
    samples.lemma_sort_by_ensures(leq);
    samples.to_multiset_ensures();
    sorted.to_multiset_ensures();
    assert forall|x: u64| samples.contains(x) implies sorted.contains(x) by {
        assert(samples.to_multiset().count(x) > 0);
    }
    assert forall|i: int, j: int| 0 <= i <= j < sorted.len() implies sorted[i] <= sorted[j] by {
        if i < j {
            assert(leq(sorted[i], sorted[j]));
        }
    }
}

proof fn lemma_sum_bounds(samples: Seq<u64>, low: nat, high: nat)
    requires
        forall|i: int| 0 <= i < samples.len() ==> low <= #[trigger] samples[i] <= high,
    ensures
        low * samples.len() <= sum(samples) <= high * samples.len(),
    decreases samples.len(),
{
    if samples.len() > 0 {
        let rest = samples.drop_last();
        lemma_sum_bounds(rest, low, high);
        let n = rest.len();
        assert(low * (n + 1) == low * n + low) by (nonlinear_arith);
        assert(high * (n + 1) == high * n + high) by (nonlinear_arith);
        assert(low <= samples[samples.len() - 1] <= high);
    } else {
        assert(low * 0 == 0 && high * 0 == 0);
    }
}

/// What a percentile means: at least `p` of a hundred values do not exceed it, which is not
/// so of the values that stand before it.
pub proof fn law_percentile_is_nearest_rank(sorted: Seq<u64>, p: nat) -> (rank: nat)
    requires
        sorted.len() > 0,
        0 < p <= 100,
        forall|i: int, j: int| 0 <= i <= j < sorted.len() ==> sorted[i] <= sorted[j],
    ensures
        1 <= rank <= sorted.len(),
        nearest_rank(sorted, p) == sorted[rank - 1],
        forall|i: int| 0 <= i < rank ==> #[trigger] sorted[i] <= nearest_rank(sorted, p),
        100 * rank >= p * sorted.len(),
        100 * (rank - 1) < p * sorted.len(),
{
    let n = sorted.len();
    assert(0 < p * n <= 100 * n) by (nonlinear_arith)
        requires
            0 < p <= 100,
            n > 0,
    ;
    (p * n + 99) / 100
}

/// The sum is that of all samples.
proof fn lemma_sum_is_fold(samples: Seq<u64>)
    ensures
        sum(samples) == samples.fold_left(0int, |total: int, x: u64| total + x),
    decreases samples.len(),
{
    if samples.len() > 0 {
        lemma_sum_is_fold(samples.drop_last());
    }
}

/// The average is the sum of all samples, divided by their number and rounded down.
pub proof fn law_average_is_sum_by_number(snapshot: MetricsSnapshot, samples: Seq<u64>)
    requires
        snapshot.describes(samples),
        samples.len() > 0,
    ensures
        snapshot.latency_avg_ns * samples.len() <= samples.fold_left(
            0int,
            |total: int, x: u64| total + x,
        ) < (snapshot.latency_avg_ns + 1) * samples.len(),
{
    lemma_sum_is_fold(samples);
    let total = sum(samples);
    let n = samples.len();
    let avg = total / n;
    assert(avg * n <= total < (avg + 1) * n) by (nonlinear_arith)
        requires
            n > 0,
            avg == total / n,
    ;
}

/// Without samples, the statistics are all zero.
pub proof fn law_no_samples_give_zeros(snapshot: MetricsSnapshot)
    requires
        snapshot.describes(seq![]),
    ensures
        snapshot.latency_min_ns == 0,
        snapshot.latency_max_ns == 0,
        snapshot.latency_avg_ns == 0,
        snapshot.latency_p50_ns == 0,
        snapshot.latency_p90_ns == 0,
        snapshot.latency_p99_ns == 0,
{
}

/// The smallest and the largest sample are reported, and as percentiles the samples that
/// stand at their ranks when all samples are put in order.
pub proof fn law_statistics_are_samples_at_their_ranks(
    snapshot: MetricsSnapshot,
    samples: Seq<u64>,
) -> (sorted: Seq<u64>)
    requires
        snapshot.describes(samples),
        samples.len() > 0,
    ensures
        sorted.to_multiset() == samples.to_multiset(),
        sorted.len() == samples.len(),
        forall|i: int, j: int| 0 <= i <= j < sorted.len() ==> sorted[i] <= sorted[j],
        snapshot.latency_min_ns == sorted[0],
        snapshot.latency_max_ns == sorted[sorted.len() - 1],
        exists|r: int|
            0 <= r < sorted.len() && snapshot.latency_p50_ns == #[trigger] sorted[r] && 50
                * sorted.len() <= 100 * (r + 1) < 50 * sorted.len() + 100,
        exists|r: int|
            0 <= r < sorted.len() && snapshot.latency_p90_ns == #[trigger] sorted[r] && 90
                * sorted.len() <= 100 * (r + 1) < 90 * sorted.len() + 100,
        exists|r: int|
            0 <= r < sorted.len() && snapshot.latency_p99_ns == #[trigger] sorted[r] && 99
                * sorted.len() <= 100 * (r + 1) < 99 * sorted.len() + 100,
{
    let sorted = in_order(samples);
    let leq = |a: u64, b: u64| a <= b;
    assert(relations::total_ordering(leq));
    samples.lemma_sort_by_ensures(leq);
    lemma_in_order(samples);
    let n = sorted.len();
    let r50 = (50 * n + 99) / 100 - 1;
    let r90 = (90 * n + 99) / 100 - 1;
    let r99 = (99 * n + 99) / 100 - 1;
    assert(snapshot.latency_p50_ns == sorted[r50]);
    assert(snapshot.latency_p90_ns == sorted[r90]);
    assert(snapshot.latency_p99_ns == sorted[r99]);
    sorted
}

/// A percentile of nothing is zero, and one of a hundred or more is the last value.
pub proof fn law_percentile_at_the_ends(sorted: Seq<u64>, p: nat)
    ensures
        nearest_rank(seq![], p) == 0,
        sorted.len() > 0 && p >= 100 ==> nearest_rank(sorted, p) == sorted[sorted.len() - 1],
{
    if sorted.len() > 0 && p >= 100 {
        let n = sorted.len();
        assert(p * n >= 100 * n) by (nonlinear_arith)
            requires
                p >= 100,
        ;
    }
}

/// How a latency is displayed: below a millisecond in whole microseconds, otherwise in
/// milliseconds with two digits behind the point. What is displayed is the nearest such
/// number to the latency; where the latency is very long, it is off by no more than what
/// doubles lose.
pub proof fn law_displayed_latency_is_near(ns: u64) -> (shown: nat)
    ensures
        ns < 1_000_000 ==> {
            &&& shown == rounding::rounded_quotient(ns as nat, 1_000, 1)
            &&& latency_text(ns) == text::decimal(shown) + "us"@
            &&& -1_000 <= 2 * (shown * 1_000 - ns) <= 1_000
        },
        ns >= 1_000_000 ==> {
            &&& shown == rounding::rounded_quotient(ns as nat, 1_000_000, 100)
            &&& latency_text(ns) == text::decimal(shown / 100) + "."@ + text::decimal(
                shown % 100 / 10,
            ) + text::decimal(shown % 10) + "ms"@
            &&& ns < 0x20_0000_0000_0000 && ns < 67_000_000_000_000 ==> -10_000 <= 2 * (shown
                * 10_000 - ns) <= 10_000
            &&& -1_020_000 <= 2 * (shown * 10_000 - ns) <= 1_020_000
        },
{
    if ns < 1_000_000 {
        rounding::law_rounded_quotient_is_near(ns, 1_000, 1);
        rounding::rounded_quotient(ns as nat, 1_000, 1)
    } else {
        rounding::law_rounded_quotient_is_near(ns, 1_000_000, 100);
        let shown = rounding::rounded_quotient(ns as nat, 1_000_000, 100);
        assert(latency_text(ns) =~= text::decimal(shown / 100) + "."@ + text::decimal(
            shown % 100 / 10,
        ) + text::decimal(shown % 10) + "ms"@);
        shown
    }
}

/// The latency line holds the label and the six statistics, each under its name.
pub proof fn law_latency_line_holds_all_statistics(snapshot: MetricsSnapshot, label: Seq<char>)
    ensures
        snapshot.latency_line(label) == label + ": min="@ + latency_text(snapshot.latency_min_ns)
            + " max="@ + latency_text(snapshot.latency_max_ns) + " avg="@ + latency_text(
            snapshot.latency_avg_ns,
        ) + " p50="@ + latency_text(snapshot.latency_p50_ns) + " p90="@ + latency_text(
            snapshot.latency_p90_ns,
        ) + " p99="@ + latency_text(snapshot.latency_p99_ns),
{
}

/// What is read as a timestamp: the first eight bytes, each counting 256 times as much as
/// the one behind it, and nothing where there are fewer.
pub proof fn law_timestamp_is_the_first_eight_bytes(bytes: Seq<u8>)
    ensures
        bytes.len() < 8 ==> send_ts_of(bytes) is None,
        bytes.len() >= 8 ==> (send_ts_of(bytes) matches Some(ts) && ts == bytes[0]
            * 0x100_0000_0000_0000 + bytes[1] * 0x1_0000_0000_0000 + bytes[2] * 0x100_0000_0000
            + bytes[3] * 0x1_0000_0000 + bytes[4] * 0x100_0000 + bytes[5] * 0x1_0000 + bytes[6]
            * 0x100 + bytes[7]),
{
    if bytes.len() >= 8 {
        big_endian::law_value_of_eight_bytes(bytes.take(8));
    }
}

/// The attachment of a producer holds the bytes of the whole topic, a zero byte, and eight
/// bytes more, which read as the timestamp.
pub proof fn law_producer_attachment_holds_topic_and_timestamp(topic: Seq<char>, send_ts_ns: u64)
    ensures
        ({
            let attachment = producer_attachment(topic, send_ts_ns);
            let n = utf8::encode_utf8(topic).len() as int;
            &&& attachment.len() == n + 9
            &&& attachment.take(n) == utf8::encode_utf8(topic)
            &&& attachment[n] == 0
            &&& send_ts_of(attachment.skip(n + 1)) == Some(send_ts_ns)
        }),
{
    let bytes = utf8::encode_utf8(topic);
    let n = bytes.len() as int;
    let ts = big_endian::be_bytes(send_ts_ns as nat, 8);
    let attachment = producer_attachment(topic, send_ts_ns);
    big_endian::law_number_as_eight_bytes(send_ts_ns);
    assert(attachment.take(n) =~= bytes);
    assert(attachment.skip(n + 1) =~= ts + seq![]);
    law_send_ts_reads_back(send_ts_ns, seq![]);
}

/// How an attachment of a producer is read: the topic is what stands before the first zero
/// byte, the timestamp what stands behind it. Without a zero byte, or with less than a
/// timestamp behind it, nothing is read.
pub proof fn law_attachment_is_cut_at_the_first_zero_byte(head: Seq<u8>, tail: Seq<u8>)
    requires
        !head.contains(0u8),
    ensures
        producer_attachment_content(head) is None,
        tail.len() < 8 ==> producer_attachment_content(head.push(0) + tail) is None,
        tail.len() >= 8 ==> (producer_attachment_content(head.push(0) + tail) matches Some(content)
            && content.0 == text::lossy_text(head) && Some(content.1) == send_ts_of(tail)),
{
    head.index_of_first_ensures(0u8);
    let whole = head.push(0) + tail;
    let n = head.len() as int;
    whole.index_of_first_ensures(0u8);
    assert(whole[n] == 0);
    assert(whole.contains(0u8));
    let first = whole.index_of_first(0u8)->0;
    if first < n {
        assert(head[first] == whole[first]);
        assert(head.contains(0u8));
    }
    assert(first == n);
    assert(whole.take(n) =~= head);
    assert(whole.skip(n + 1) =~= tail);
}

} // verus!
