//! The key expressions under which gateways and consumers find each other.

use vstd::prelude::*;
use crate::text;

verus! {

/// `key` without `prefix` in front, or `key` itself where it does not start with it.
pub open spec fn without_prefix(key: Seq<char>, prefix: Seq<char>) -> Seq<char> {
    if prefix.is_prefix_of(key) {
        key.skip(prefix.len() as int)
    } else {
        key
    }
}

/// Removes `prefix` from the front of `key` where it stands there.
fn strip_prefix(key: &str, prefix: &str) -> (rest: String)
    ensures
        rest@ == without_prefix(key@, prefix@),
{
    let chars = text::chars_of(key);
    let start = text::chars_of(prefix);
    let len: usize = start.len();
    let mut from: usize = 0;
    if len <= chars.len() {
        let mut i: usize = 0;
        while i < len && chars[i] == start[i]
            invariant
                len == start.len(),
                len <= chars.len(),
                i <= len,
                forall|j: int| 0 <= j < i ==> chars@[j] == start@[j],
            decreases len - i,
        {
            i += 1;
        }
        if i == len {
            from = len;
            assert(prefix@ =~= key@.subrange(0, len as int));
        } else {
            assert(prefix@[i as int] != key@[i as int]);
        }
    }
    let rest = text::string_of(&chars, from, chars.len());
    assert(key@.subrange(0, key@.len() as int) =~= key@);
    rest
}

/// Key of the liveliness token of a gateway.
pub fn cluster_token_key(node_id: &str) -> (key: String)
    ensures
        key@ == "gateway/cluster/"@ + node_id@,
{
    "gateway/cluster/".to_owned().concat(node_id)
}

/// Key of the liveliness token of a consumer.
pub fn consumer_token_key(client_id: &str) -> (key: String)
    ensures
        key@ == "gateway/consumer/"@ + client_id@,
{
    "gateway/consumer/".to_owned().concat(client_id)
}

/// Key under which a consumer answers with the list of its topics.
pub fn interest_key(client_id: &str) -> (key: String)
    ensures
        key@ == "gateway/interest/"@ + client_id@,
{
    "gateway/interest/".to_owned().concat(client_id)
}

/// The gateway that the key of a liveliness token belongs to.
pub fn node_id_of_key(key: &str) -> (node_id: String)
    ensures
        node_id@ == without_prefix(key@, "gateway/cluster/"@),
{
    strip_prefix(key, "gateway/cluster/")
}

/// The consumer that the key of a liveliness token belongs to.
pub fn client_id_of_key(key: &str) -> (client_id: String)
    ensures
        client_id@ == without_prefix(key@, "gateway/consumer/"@),
{
    strip_prefix(key, "gateway/consumer/")
}

/// A key that was made of a prefix and a name gives the name back.
pub proof fn law_key_gives_name_back(prefix: Seq<char>, name: Seq<char>)
    ensures
        without_prefix(prefix + name, prefix) == name,
{
    let key = prefix + name;
    assert(prefix =~= key.subrange(0, prefix.len() as int));
    assert(key.skip(prefix.len() as int) =~= name);
}

/// A key that does not start with the prefix is left as it is.
pub proof fn law_other_keys_are_kept(key: Seq<char>, prefix: Seq<char>)
    requires
        !(exists|name: Seq<char>| key == prefix + name),
    ensures
        without_prefix(key, prefix) == key,
{
    if prefix.is_prefix_of(key) {
        let name = key.skip(prefix.len() as int);
        assert(key =~= prefix + name);
    }
}

} // verus!
