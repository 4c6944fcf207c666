//! Sharding of topics and rendezvous hashing of shards onto nodes, both by SHA-256.

use sha2::Digest;
use vstd::prelude::*;
use vstd::utf8;
use crate::big_endian;
use crate::order;
use crate::order::Order;
use crate::string_set::StringSet;
use crate::text;

verus! {

/// Number of shards onto which topics are spread.
pub const SHARD_COUNT: usize = 10000;

/// The SHA-256 digest of `data`.
pub uninterp spec fn sha256(data: Seq<u8>) -> Seq<u8>;

/// Computes a digest with `sha2::Sha256::digest`. What is claimed of it is that the digest
/// depends on the data alone; how it is computed is not stated.
#[verifier::external_body]
fn sha256_digest(data: &[u8]) -> (digest: [u8; 32])
    ensures
        digest@ == sha256(data@),
{
    sha2::Sha256::digest(data).into()
}

/// `s` with as many zeros in front as it takes to reach `width` characters.
pub open spec fn zero_padded(s: Seq<char>, width: nat) -> Seq<char> {
    if s.len() < width {
        Seq::new((width - s.len()) as nat, |i: int| '0') + s
    } else {
        s
    }
}

/// The key expression of shard number `index`.
pub open spec fn shard_label(index: nat) -> Seq<char> {
    "shard/p"@ + zero_padded(text::decimal(index), 4)
}

/// Formats a shard index as the key expression of the shard, such as `shard/p0042`.
pub fn shard_name(index: usize) -> (name: String)
    ensures
        name@ == shard_label(index as nat),
{
    let mut name = String::new();
    name.append("shard/p");
    proof {
        reveal_with_fuel(text::decimal, 5);
    }
    let ghost digits = text::decimal(index as nat);
    if index < 1000 {
        name.push('0');
    }
    if index < 100 {
        name.push('0');
    }
    if index < 10 {
        name.push('0');
    }
    proof {
        lemma_decimal_len(index as nat);
    }
    assert(name@ + digits =~= shard_label(index as nat));
    text::push_decimal(&mut name, index as u128);
    name
}

proof fn lemma_decimal_len(n: nat)
    ensures
        n < 10 ==> text::decimal(n).len() == 1,
        10 <= n < 100 ==> text::decimal(n).len() == 2,
        100 <= n < 1000 ==> text::decimal(n).len() == 3,
        1000 <= n ==> text::decimal(n).len() >= 4,
    decreases n,
{
    if n >= 10 {
        lemma_decimal_len(n / 10);
    }
}

/// Number of the shard for a topic with this digest: the last eight bytes, read as a
/// number, modulo the number of shards.
pub open spec fn shard_index(digest: Seq<u8>) -> nat {
    big_endian::be_value(digest.subrange(24, 32)) % SHARD_COUNT as nat
}

/// The shard of `topic`.
pub open spec fn shard_of(topic: Seq<char>) -> Seq<char> {
    shard_label(shard_index(sha256(utf8::encode_utf8(topic))))
}

/// The shard for a topic with the given digest.
pub fn shard_of_digest(digest: &[u8; 32]) -> (shard: String)
    ensures
        shard@ == shard_label(shard_index(digest@)),
{
    let value: u64 = big_endian::read_u64(digest.as_slice(), 24);
    shard_name((value % 10000) as usize)
}

/// Maps a topic to its shard (`shard/p0000` to `shard/p9999`).
pub fn get_shard_id(topic: &str) -> (shard: String)
    ensures
        shard@ == shard_of(topic@),
{
    let digest: [u8; 32] = sha256_digest(topic.as_bytes());
    shard_of_digest(&digest)
}

/// Score of `node` for `shard`: the digest of both names with a bar between them.
pub open spec fn score(node: Seq<char>, shard: Seq<char>) -> Seq<u8> {
    sha256(utf8::encode_utf8(node) + seq![124u8] + utf8::encode_utf8(shard))
}

/// `node` comes before `other` for `shard`: it has the higher score or, where the scores
/// are the same, the smaller name.
pub open spec fn outranks(shard: Seq<char>, node: Seq<char>, other: Seq<char>) -> bool {
    ||| order::bytes_lt(score(other, shard), score(node, shard))
    ||| score(other, shard) == score(node, shard) && order::str_lt(node, other)
}

/// `node` is the owner of `shard` among `nodes`.
pub open spec fn is_owner_among(
    nodes: Set<Seq<char>>,
    shard: Seq<char>,
    node: Seq<char>,
) -> bool {
    &&& nodes.contains(node)
    &&& forall|other: Seq<char>| #[trigger]
        nodes.contains(other) && other != node ==> outranks(shard, node, other)
}

/// What a node with the name `my_id` takes as its own: the shards that it owns among
/// `nodes`, and every shard as long as no node is known.
pub open spec fn owns(nodes: Set<Seq<char>>, my_id: Seq<char>, shard: Seq<char>) -> bool {
    nodes == Set::<Seq<char>>::empty() || is_owner_among(nodes, shard, my_id)
}

/// The highest of the scores stands at `i`, and not before.
pub open spec fn is_first_highest(scores: Seq<[u8; 32]>, i: int) -> bool {
    &&& 0 <= i < scores.len()
    &&& forall|j: int| 0 <= j < i ==> order::bytes_lt(#[trigger] scores[j]@, scores[i]@)
    &&& forall|j: int|
        i <= j < scores.len() ==> {
            ||| order::bytes_lt(#[trigger] scores[j]@, scores[i]@)
            ||| scores[j]@ == scores[i]@
        }
}

proof fn lemma_one_first_highest(scores: Seq<[u8; 32]>, i: int, j: int)
    requires
        is_first_highest(scores, i),
        is_first_highest(scores, j),
    ensures
        i == j,
{
    if i != j {
        assert(order::bytes_lt(scores[i]@, scores[j]@) || order::bytes_lt(scores[j]@, scores[i]@));
        order::lemma_bytes_lt_irreflexive(scores[i]@);
        if order::bytes_lt(scores[i]@, scores[j]@) {
            order::lemma_bytes_lt_asymmetric(scores[i]@, scores[j]@);
        } else {
            order::lemma_bytes_lt_asymmetric(scores[j]@, scores[i]@);
        }
    }
}

/// Finds the position of the highest score, the first one where it occurs more than once.
pub fn highest_score(scores: &Vec<[u8; 32]>) -> (position: Option<usize>)
    ensures
        match position {
            Some(i) => is_first_highest(scores@, i as int),
            None => scores.len() == 0,
        },
{
    if scores.len() == 0 {
        return None;
    }
    let mut best: usize = 0;
    let mut i: usize = 1;
    while i < scores.len()
        invariant
            best < i <= scores.len(),
            forall|j: int| 0 <= j < best ==> order::bytes_lt(#[trigger] scores[j]@, scores[best as int]@),
            forall|j: int|
                best <= j < i ==> {
                    ||| order::bytes_lt(#[trigger] scores[j]@, scores[best as int]@)
                    ||| scores[j]@ == scores[best as int]@
                },
        decreases scores.len() - i,
    {
        match order::compare_bytes(scores[best].as_slice(), scores[i].as_slice()) {
            Order::Less => {
                assert forall|j: int| 0 <= j < i implies order::bytes_lt(
                    #[trigger] scores[j]@,
                    scores[i as int]@,
                ) by {
                    if scores[j]@ != scores[best as int]@ {
                        order::lemma_bytes_lt_transitive(
                            scores[j]@,
                            scores[best as int]@,
                            scores[i as int]@,
                        );
                    }
                }
                best = i;
            },
            _ => {},
        }
        i += 1;
    }
    Some(best)
}

/// Computes the score of a node for a shard.
fn compute_score(node: &str, shard_id: &str) -> (value: [u8; 32])
    ensures
        value@ == score(node@, shard_id@),
{
    let mut data: Vec<u8> = node.as_bytes_vec();
    data.push(124u8);
    let mut tail: Vec<u8> = shard_id.as_bytes_vec();
    data.append(&mut tail);
    assert(data@ =~= utf8::encode_utf8(node@) + seq![124u8] + utf8::encode_utf8(shard_id@));
    sha256_digest(data.as_slice())
}

/// Whether the node `my_id` has the highest score, where `scores` are those of the nodes in
/// ascending order. With no nodes at all, it has.
pub fn has_highest_score(nodes: &StringSet, scores: &Vec<[u8; 32]>, my_id: &str) -> (yes: bool)
    requires
        nodes.wf(),
        scores.len() == nodes.elements().len(),
    ensures
        yes <==> (scores.len() == 0 || exists|k: int| #[trigger]
            is_first_highest(scores@, k) && nodes.elements()[k] == my_id@),
{
    match highest_score(scores) {
        Some(best) => {
            let yes = order::same_str(nodes.get(best).as_str(), my_id);
            proof {
                if exists|k: int| #[trigger]
                    is_first_highest(scores@, k) && nodes.elements()[k] == my_id@ {
                    let k = choose|k: int| #[trigger]
                        is_first_highest(scores@, k) && nodes.elements()[k] == my_id@;
                    lemma_one_first_highest(scores@, k, best as int);
                }
            }
            yes
        },
        None => true,
    }
}

/// Rendezvous hashing: whether `my_id` is the owner of `shard_id` among the nodes. With no
/// nodes at all, it is.
pub fn is_owner(nodes: &StringSet, my_id: &str, shard_id: &str) -> (owned: bool)
    requires
        nodes.wf(),
    ensures
        owned == owns(nodes@, my_id@, shard_id@),
{
    let n: usize = nodes.len();
    let mut scores: Vec<[u8; 32]> = Vec::new();
    let mut i: usize = 0;
    while i < n
        invariant
            n == nodes.elements().len(),
            i <= n,
            scores.len() == i,
            forall|j: int|
                0 <= j < i ==> #[trigger] scores[j]@ == score(nodes.elements()[j], shard_id@),
        decreases n - i,
    {
        scores.push(compute_score(nodes.get(i).as_str(), shard_id));
        i += 1;
    }
    let owned = has_highest_score(nodes, &scores, my_id);
    proof {
        let elements = nodes.elements();
        if n == 0 {
            assert(nodes@ =~= Set::<Seq<char>>::empty());
        } else {
            assert(nodes@.contains(elements[0]));
            if owned {
                let k = choose|k: int| #[trigger]
                    is_first_highest(scores@, k) && elements[k] == my_id@;
                lemma_first_highest_owns(elements, scores@, shard_id@, k);
            }
            if is_owner_among(nodes@, shard_id@, my_id@) {
                let k = choose|k: int| 0 <= k < elements.len() && elements[k] == my_id@;
                lemma_owner_is_first_highest(elements, scores@, shard_id@, k);
            }
        }
    }
    owned
}

/// The node at `k` owns the shard where the first of the highest scores is its own.
proof fn lemma_first_highest_owns(
    nodes: Seq<Seq<char>>,
    scores: Seq<[u8; 32]>,
    shard: Seq<char>,
    k: int,
)
    requires
        crate::string_set::ascending(nodes),
        scores.len() == nodes.len(),
        forall|j: int| 0 <= j < nodes.len() ==> #[trigger] scores[j]@ == score(nodes[j], shard),
        is_first_highest(scores, k),
    ensures
        is_owner_among(nodes.to_set(), shard, nodes[k]),
{
    assert(nodes.to_set().contains(nodes[k]));
    assert(scores[k]@ == score(nodes[k], shard));
    assert forall|other: Seq<char>| #[trigger]
        nodes.to_set().contains(other) && other != nodes[k] implies outranks(
        shard,
        nodes[k],
        other,
    ) by {
        let j = choose|j: int| 0 <= j < nodes.len() && nodes[j] == other;
        assert(scores[j]@ == score(nodes[j], shard));
    }
}

/// Where the node at `k` owns the shard, its score is the first of the highest.
proof fn lemma_owner_is_first_highest(
    nodes: Seq<Seq<char>>,
    scores: Seq<[u8; 32]>,
    shard: Seq<char>,
    k: int,
)
    requires
        crate::string_set::ascending(nodes),
        scores.len() == nodes.len(),
        forall|j: int| 0 <= j < nodes.len() ==> #[trigger] scores[j]@ == score(nodes[j], shard),
        0 <= k < nodes.len(),
        is_owner_among(nodes.to_set(), shard, nodes[k]),
    ensures
        is_first_highest(scores, k),
{
    assert(scores[k]@ == score(nodes[k], shard));
    assert forall|j: int| 0 <= j < nodes.len() && j != k implies outranks(
        shard,
        nodes[k],
        #[trigger] nodes[j],
    ) && nodes[j] != nodes[k] by {
        order::lemma_str_lt_irreflexive(nodes[k]);
        assert(nodes.to_set().contains(nodes[j]));
    }
    assert forall|j: int| 0 <= j < k implies order::bytes_lt(
        #[trigger] scores[j]@,
        scores[k]@,
    ) by {
        assert(outranks(shard, nodes[k], nodes[j]));
        order::lemma_str_lt_asymmetric(nodes[j], nodes[k]);
    }
    assert forall|j: int| k <= j < scores.len() implies order::bytes_lt(
        #[trigger] scores[j]@,
        scores[k]@,
    ) || scores[j]@ == scores[k]@ by {
        if j != k {
            assert(outranks(shard, nodes[k], nodes[j]));
        }
    }
}

/// Two nodes never both own a shard.
pub proof fn law_one_owner_at_most(
    nodes: Set<Seq<char>>,
    shard: Seq<char>,
    a: Seq<char>,
    b: Seq<char>,
)
    requires
        is_owner_among(nodes, shard, a),
        is_owner_among(nodes, shard, b),
    ensures
        a == b,
{
    if a != b {
        assert(outranks(shard, a, b) && outranks(shard, b, a));
        lemma_outranks_asymmetric(shard, a, b);
    }
}

proof fn lemma_outranks_asymmetric(shard: Seq<char>, a: Seq<char>, b: Seq<char>)
    requires
        outranks(shard, a, b),
    ensures
        !outranks(shard, b, a),
{
    if order::bytes_lt(score(b, shard), score(a, shard)) {
        order::lemma_bytes_lt_asymmetric(score(b, shard), score(a, shard));
    } else {
        order::lemma_bytes_lt_irreflexive(score(a, shard));
        order::lemma_str_lt_asymmetric(a, b);
    }
}

proof fn lemma_outranks_transitive(shard: Seq<char>, a: Seq<char>, b: Seq<char>, c: Seq<char>)
    requires
        outranks(shard, a, b),
        outranks(shard, b, c),
    ensures
        outranks(shard, a, c),
{
    let (x, y, z) = (score(a, shard), score(b, shard), score(c, shard));
    if order::bytes_lt(y, x) && order::bytes_lt(z, y) {
        order::lemma_bytes_lt_transitive(z, y, x);
    } else if y == x && z == y {
        order::lemma_str_lt_transitive(a, b, c);
    }
}

proof fn lemma_outranks_total(shard: Seq<char>, a: Seq<char>, b: Seq<char>)
    ensures
        a == b || outranks(shard, a, b) || outranks(shard, b, a),
{
    order::lemma_bytes_lt_total(score(a, shard), score(b, shard));
    order::lemma_str_lt_total(a, b);
}

/// As long as there is a node, each shard has an owner.
pub proof fn law_some_owner(nodes: Set<Seq<char>>, shard: Seq<char>) -> (owner: Seq<char>)
    requires
        nodes.finite(),
        nodes != Set::<Seq<char>>::empty(),
    ensures
        is_owner_among(nodes, shard, owner),
    decreases nodes.len(),
{
    let node = nodes.choose();
    assert(nodes.contains(node)) by {
        if forall|x: Seq<char>| !nodes.contains(x) {
            assert(nodes =~= Set::<Seq<char>>::empty());
        }
    }
    let rest = nodes.remove(node);
    if rest == Set::<Seq<char>>::empty() {
        assert forall|other: Seq<char>| #[trigger]
            nodes.contains(other) && other != node implies outranks(shard, node, other) by {
            assert(rest.contains(other));
        }
        node
    } else {
        let champion = law_some_owner(rest, shard);
        law_joining_node_takes_or_leaves(rest, shard, champion, node);
        assert(rest.insert(node) =~= nodes);
        if outranks(shard, node, champion) {
            node
        } else {
            champion
        }
    }
}

/// When a node joins, a shard either stays with its owner or moves to the new node: no
/// shard moves between nodes that were there before.
pub proof fn law_joining_node_takes_or_leaves(
    nodes: Set<Seq<char>>,
    shard: Seq<char>,
    owner: Seq<char>,
    joining: Seq<char>,
)
    requires
        is_owner_among(nodes, shard, owner),
        !nodes.contains(joining),
    ensures
        outranks(shard, joining, owner) ==> is_owner_among(nodes.insert(joining), shard, joining),
        !outranks(shard, joining, owner) ==> is_owner_among(nodes.insert(joining), shard, owner),
{
    let all = nodes.insert(joining);
    lemma_outranks_total(shard, joining, owner);
    if outranks(shard, joining, owner) {
        assert forall|other: Seq<char>| #[trigger]
            all.contains(other) && other != joining implies outranks(shard, joining, other) by {
            assert(nodes.contains(other));
            if other != owner {
                lemma_outranks_transitive(shard, joining, owner, other);
            }
        }
    } else {
        assert forall|other: Seq<char>| #[trigger]
            all.contains(other) && other != owner implies outranks(shard, owner, other) by {
            if other != joining {
                assert(nodes.contains(other));
            }
        }
    }
}

/// When a node leaves, the shards of the other nodes stay where they are.
pub proof fn law_leaving_node_moves_its_shards_only(
    nodes: Set<Seq<char>>,
    shard: Seq<char>,
    owner: Seq<char>,
    leaving: Seq<char>,
)
    requires
        is_owner_among(nodes, shard, owner),
        leaving != owner,
    ensures
        is_owner_among(nodes.remove(leaving), shard, owner),
{
    assert forall|other: Seq<char>| #[trigger]
        nodes.remove(leaving).contains(other) && other != owner implies outranks(
        shard,
        owner,
        other,
    ) by {
        assert(nodes.contains(other));
    }
}

proof fn lemma_value_of_padded(s: Seq<char>, width: nat)
    ensures
        text::decimal_value(zero_padded(s, width)) == text::decimal_value(s),
    decreases s.len(), width,
{
    let padded = zero_padded(s, width);
    if s.len() == 0 && width > 0 {
        assert(padded.drop_last() =~= zero_padded(s, (width - 1) as nat));
        lemma_value_of_padded(s, (width - 1) as nat);
    } else if s.len() < width {
        assert(padded.drop_last() =~= zero_padded(s.drop_last(), (width - 1) as nat));
        lemma_value_of_padded(s.drop_last(), (width - 1) as nat);
    }
}

/// Different shards have different names.
pub proof fn law_shard_names_are_distinct(i: nat, j: nat)
    requires
        shard_label(i) == shard_label(j),
    ensures
        i == j,
{
    let a = zero_padded(text::decimal(i), 4);
    let b = zero_padded(text::decimal(j), 4);
    reveal_strlit("shard/p");
    assert(shard_label(i).skip(7) =~= a);
    assert(shard_label(j).skip(7) =~= b);
    text::law_decimal_reads_back(i, i);
    text::law_decimal_reads_back(j, j);
    lemma_value_of_padded(text::decimal(i), 4);
    lemma_value_of_padded(text::decimal(j), 4);
}

proof fn lemma_scalar_without_bar(scalar: u32)
    requires
        scalar != 124,
    ensures
        forall|i: int|
            0 <= i < utf8::encode_scalar(scalar).len() ==> #[trigger] utf8::encode_scalar(
                scalar,
            )[i] != 124,
{
    assert(scalar <= 0x7f && scalar != 124 ==> (scalar & 0x7f) as u8 != 124) by (bit_vector);
    assert(forall|b: u8| #[trigger] (0x80u8 | b) != 124) by (bit_vector);
    assert(forall|b: u8| #[trigger] (0xc0u8 | b) != 124) by (bit_vector);
    assert(forall|b: u8| #[trigger] (0xe0u8 | b) != 124) by (bit_vector);
    assert(forall|b: u8| #[trigger] (0xf0u8 | b) != 124) by (bit_vector);
}

/// The encoding of a text has the byte of the bar only where the text has a bar.
proof fn lemma_text_without_bar(s: Seq<char>)
    requires
        !s.contains('|'),
    ensures
        !utf8::encode_utf8(s).contains(124u8),
    decreases s.len(),
{
    let bytes = utf8::encode_utf8(s);
    if s.len() > 0 {
        let rest = s.drop_first();
        assert(s.contains(s[0]));
        assert forall|c: char| rest.contains(c) implies s.contains(c) by {
            let k = choose|k: int| 0 <= k < rest.len() && rest[k] == c;
            assert(s[k + 1] == c);
        }
        let c: char = s[0];
        if c as u32 == 124 {
            utf8::char_u32_cast(c, 124);
        }
        lemma_scalar_without_bar(c as u32);
        lemma_text_without_bar(rest);
        let head = utf8::encode_scalar(s[0] as u32);
        let tail = utf8::encode_utf8(rest);
        assert forall|i: int| 0 <= i < bytes.len() implies bytes[i] != 124 by {
            if i >= head.len() {
                assert(bytes[i] == tail[i - head.len()]);
                assert(tail.contains(tail[i - head.len()]));
            }
        }
    }
}

/// The score is the digest of the whole name of the node, a bar, and the whole name of the
/// shard.
pub proof fn law_score_is_digest_of_both_names(node: Seq<char>, shard: Seq<char>)
    ensures
        score(node, shard) == sha256(
            utf8::encode_utf8(node).push(0x7c) + utf8::encode_utf8(shard),
        ),
{
    assert(utf8::encode_utf8(node).push(0x7c) + utf8::encode_utf8(shard) =~= utf8::encode_utf8(
        node,
    ) + seq![124u8] + utf8::encode_utf8(shard));
}

/// Different pairs of a node and a shard have digests of different data for their scores,
/// so that every node has scores of its own. A bar in the name of a node could blur where
/// it ends.
pub proof fn law_scores_come_from_different_data(
    node: Seq<char>,
    shard: Seq<char>,
    other_node: Seq<char>,
    other_shard: Seq<char>,
)
    requires
        !node.contains('|'),
        !other_node.contains('|'),
        node != other_node || shard != other_shard,
    ensures
        exists|a: Seq<u8>, b: Seq<u8>|
            a != b && score(node, shard) == #[trigger] sha256(a) && score(other_node, other_shard)
                == #[trigger] sha256(b),
{
    let (n1, s1) = (utf8::encode_utf8(node), utf8::encode_utf8(shard));
    let (n2, s2) = (utf8::encode_utf8(other_node), utf8::encode_utf8(other_shard));
    let a = n1.push(0x7c) + s1;
    let b = n2.push(0x7c) + s2;
    law_score_is_digest_of_both_names(node, shard);
    law_score_is_digest_of_both_names(other_node, other_shard);
    if a == b {
        lemma_text_without_bar(node);
        lemma_text_without_bar(other_node);
        assert(a[n1.len() as int] == 124);
        assert(b[n2.len() as int] == 124);
        if n1.len() < n2.len() {
            assert(n2[n1.len() as int] == 124);
            assert(n2.contains(124u8));
        }
        if n2.len() < n1.len() {
            assert(n1[n2.len() as int] == 124);
            assert(n1.contains(124u8));
        }
        assert(a.take(n1.len() as int) =~= n1);
        assert(b.take(n1.len() as int) =~= n2);
        assert(a.skip(n1.len() as int + 1) =~= s1);
        assert(b.skip(n1.len() as int + 1) =~= s2);
        order::lemma_encode_utf8_injective(node, other_node);
        order::lemma_encode_utf8_injective(shard, other_shard);
    }
}

/// Which shards a node takes as its own: as long as no node is known, all; otherwise those
/// for which it is a node itself and no other node has a greater digest, or the same one
/// and a smaller name.
pub proof fn law_owner_has_the_greatest_digest(
    nodes: Set<Seq<char>>,
    my_id: Seq<char>,
    shard: Seq<char>,
)
    ensures
        nodes == Set::<Seq<char>>::empty() ==> owns(nodes, my_id, shard),
        nodes != Set::<Seq<char>>::empty() ==> (owns(nodes, my_id, shard) <==> nodes.contains(my_id)
            && forall|other: Seq<char>| #[trigger]
            nodes.contains(other) && other != my_id ==> {
                let mine = sha256(utf8::encode_utf8(my_id).push(0x7c) + utf8::encode_utf8(shard));
                let theirs = sha256(
                    utf8::encode_utf8(other).push(0x7c) + utf8::encode_utf8(shard),
                );
                ||| order::bytes_lt(theirs, mine)
                ||| theirs == mine && order::str_lt(my_id, other)
            }),
{
    law_score_is_digest_of_both_names(my_id, shard);
    assert forall|other: Seq<char>| score(other, shard) == sha256(
        #[trigger] utf8::encode_utf8(other).push(0x7c) + utf8::encode_utf8(shard),
    ) by {
        law_score_is_digest_of_both_names(other, shard);
    }
    if nodes != Set::<Seq<char>>::empty() {
        if owns(nodes, my_id, shard) {
            assert forall|other: Seq<char>| #[trigger]
                nodes.contains(other) && other != my_id implies {
                let mine = sha256(utf8::encode_utf8(my_id).push(0x7c) + utf8::encode_utf8(shard));
                let theirs = sha256(
                    utf8::encode_utf8(other).push(0x7c) + utf8::encode_utf8(shard),
                );
                ||| order::bytes_lt(theirs, mine)
                ||| theirs == mine && order::str_lt(my_id, other)
            } by {
                assert(outranks(shard, my_id, other));
            }
        }
        if nodes.contains(my_id) && (forall|other: Seq<char>| #[trigger]
            nodes.contains(other) && other != my_id ==> {
                let mine = sha256(utf8::encode_utf8(my_id).push(0x7c) + utf8::encode_utf8(shard));
                let theirs = sha256(
                    utf8::encode_utf8(other).push(0x7c) + utf8::encode_utf8(shard),
                );
                ||| order::bytes_lt(theirs, mine)
                ||| theirs == mine && order::str_lt(my_id, other)
            }) {
            assert forall|other: Seq<char>| #[trigger]
                nodes.contains(other) && other != my_id implies outranks(shard, my_id, other) by {}
            assert(is_owner_among(nodes, shard, my_id));
        }
    }
}

/// The form of a shard's name: `shard/p` and the number of the shard with four digits.
pub proof fn law_shard_name_has_four_digits(index: nat)
    requires
        index < 10_000,
    ensures
        shard_label(index).len() == 11,
        shard_label(index).take(7) == "shard/p"@,
        forall|k: int| 7 <= k < 11 ==> '0' <= #[trigger] shard_label(index)[k] <= '9',
        index == (shard_label(index)[7] as nat - '0' as nat) * 1000 + (shard_label(
            index,
        )[8] as nat - '0' as nat) * 100 + (shard_label(index)[9] as nat - '0' as nat) * 10 + (
        shard_label(index)[10] as nat - '0' as nat),
{
    reveal_strlit("shard/p");
    let s = shard_label(index);
    let digits = zero_padded(text::decimal(index), 4);
    lemma_decimal_len(index);
    lemma_decimal_len_below(index);
    lemma_value_of_padded(text::decimal(index), 4);
    text::lemma_decimal_digits(index);
    assert(digits.len() == 4);
    assert forall|k: int| 0 <= k < 4 implies text::is_digit(#[trigger] digits[k]) by {
        let pad = 4 - text::decimal(index).len();
        if k >= pad {
            assert(digits[k] == text::decimal(index)[k - pad]);
        }
    }
    assert(s.take(7) =~= "shard/p"@);
    assert forall|k: int| 7 <= k < 11 implies s[k] == digits[k - 7] by {}
    let d3 = digits.drop_last();
    let d2 = d3.drop_last();
    let d1 = d2.drop_last();
    assert(text::decimal_value(d1.drop_last()) == 0);
    assert(text::is_digit(digits[0]) && text::is_digit(digits[1]) && text::is_digit(digits[2])
        && text::is_digit(digits[3]));
    assert(text::decimal_value(d1) == digits[0] as nat - '0' as nat);
    assert(text::decimal_value(d2) == text::decimal_value(d1) * 10 + (digits[1] as nat
        - '0' as nat));
    assert(text::decimal_value(d3) == text::decimal_value(d2) * 10 + (digits[2] as nat
        - '0' as nat));
    assert(text::decimal_value(digits) == text::decimal_value(d3) * 10 + (digits[3] as nat
        - '0' as nat));
}

proof fn lemma_decimal_len_below(n: nat)
    requires
        n < 10_000,
    ensures
        text::decimal(n).len() <= 4,
{
    reveal_with_fuel(text::decimal, 5);
}

/// From ten thousand on, the name of a shard is `shard/p` and its number.
pub proof fn law_long_shard_name(index: nat)
    requires
        index >= 10_000,
    ensures
        shard_label(index) == "shard/p"@ + text::decimal(index),
{
    lemma_decimal_len(index);
}

/// The number of a shard: the last eight bytes of a digest, each counting 256 times as much
/// as the one behind it, modulo ten thousand.
pub proof fn law_shard_number_is_that_of_the_last_eight_bytes(digest: Seq<u8>)
    requires
        digest.len() == 32,
    ensures
        shard_index(digest) < 10_000,
        shard_index(digest) == (digest[24] * 0x100_0000_0000_0000 + digest[25]
            * 0x1_0000_0000_0000 + digest[26] * 0x100_0000_0000 + digest[27] * 0x1_0000_0000
            + digest[28] * 0x100_0000 + digest[29] * 0x1_0000 + digest[30] * 0x100 + digest[31])
            % 10_000,
{
    big_endian::law_value_of_eight_bytes(digest.subrange(24, 32));
}

/// The shard of a topic is the one that the digest of the whole topic gives.
pub proof fn law_shard_comes_from_the_whole_topic(topic: Seq<char>)
    ensures
        shard_of(topic) == shard_label(shard_index(sha256(utf8::encode_utf8(topic)))),
{
}

/// Different topics have digests of different data for their shards: no part of a topic is
/// left out.
pub proof fn law_shards_come_from_different_data(topic: Seq<char>, other: Seq<char>)
    requires
        topic != other,
    ensures
        exists|a: Seq<u8>, b: Seq<u8>|
            a != b && shard_of(topic) == shard_label(shard_index(#[trigger] sha256(a))) && shard_of(
                other,
            ) == shard_label(shard_index(#[trigger] sha256(b))),
{
    let a = utf8::encode_utf8(topic);
    let b = utf8::encode_utf8(other);
    if a == b {
        order::lemma_encode_utf8_injective(topic, other);
    }
    assert(shard_of(topic) == shard_label(shard_index(sha256(a))));
    assert(shard_of(other) == shard_label(shard_index(sha256(b))));
}

} // verus!
