//! Lexicographic order on bytes, and the order that it induces on strings.

use vstd::prelude::*;
use vstd::utf8;

verus! {

/// Outcome of comparing two values of a total order.
#[derive(Clone, Copy, PartialEq, Eq, Structural)]
pub enum Order {
    Less,
    Equal,
    Greater,
}

/// `a` and `b` agree before position `k`, and at `k` either `a` has ended or its
/// byte is the smaller one.
pub open spec fn less_at(a: Seq<u8>, b: Seq<u8>, k: int) -> bool {
    &&& 0 <= k <= a.len()
    &&& k < b.len()
    &&& forall|i: int| 0 <= i < k ==> a[i] == b[i]
    &&& k < a.len() ==> a[k] < b[k]
}

/// `a` comes strictly before `b` in lexicographic order.
pub open spec fn bytes_lt(a: Seq<u8>, b: Seq<u8>) -> bool {
    exists|k: int| less_at(a, b, k)
}

/// `a` comes strictly before `b` in the order of their UTF-8 bytes, which is the
/// order of Rust's strings.
pub open spec fn str_lt(a: Seq<char>, b: Seq<char>) -> bool {
    bytes_lt(utf8::encode_utf8(a), utf8::encode_utf8(b))
}

pub proof fn lemma_bytes_lt_irreflexive(a: Seq<u8>)
    ensures
        !bytes_lt(a, a),
{
}

pub proof fn lemma_bytes_lt_transitive(a: Seq<u8>, b: Seq<u8>, c: Seq<u8>)
    requires
        bytes_lt(a, b),
        bytes_lt(b, c),
    ensures
        bytes_lt(a, c),
{
    let i = choose|k: int| less_at(a, b, k);
    let j = choose|k: int| less_at(b, c, k);
    let k = if i <= j {
        i
    } else {
        j
    };
    assert(less_at(a, c, k));
}

pub proof fn lemma_bytes_lt_asymmetric(a: Seq<u8>, b: Seq<u8>)
    requires
        bytes_lt(a, b),
    ensures
        !bytes_lt(b, a),
        a != b,
{
    if bytes_lt(b, a) {
        lemma_bytes_lt_transitive(a, b, a);
    }
}

/// Any two different byte strings are ordered one way or the other.
pub proof fn lemma_bytes_lt_total(a: Seq<u8>, b: Seq<u8>)
    ensures
        a == b || bytes_lt(a, b) || bytes_lt(b, a),
{
    lemma_first_difference(a, b, 0);
}

proof fn lemma_first_difference(a: Seq<u8>, b: Seq<u8>, k: int)
    requires
        0 <= k <= a.len(),
        k <= b.len(),
        forall|i: int| 0 <= i < k ==> a[i] == b[i],
    ensures
        a == b || bytes_lt(a, b) || bytes_lt(b, a),
    decreases a.len() - k,
{
    if k == a.len() && k == b.len() {
        assert(a =~= b);
    } else if k == a.len() {
        assert(less_at(a, b, k));
    } else if k == b.len() {
        assert(less_at(b, a, k));
    } else if a[k] < b[k] {
        assert(less_at(a, b, k));
    } else if b[k] < a[k] {
        assert(less_at(b, a, k));
    } else {
        lemma_first_difference(a, b, k + 1);
    }
}

/// Strings with the same UTF-8 bytes are the same string.
pub proof fn lemma_encode_utf8_injective(a: Seq<char>, b: Seq<char>)
    requires
        utf8::encode_utf8(a) == utf8::encode_utf8(b),
    ensures
        a == b,
{
    utf8::encode_utf8_decode_utf8(a);
    utf8::encode_utf8_decode_utf8(b);
}

pub proof fn lemma_str_lt_irreflexive(a: Seq<char>)
    ensures
        !str_lt(a, a),
{
    lemma_bytes_lt_irreflexive(utf8::encode_utf8(a));
}

pub proof fn lemma_str_lt_transitive(a: Seq<char>, b: Seq<char>, c: Seq<char>)
    requires
        str_lt(a, b),
        str_lt(b, c),
    ensures
        str_lt(a, c),
{
    lemma_bytes_lt_transitive(utf8::encode_utf8(a), utf8::encode_utf8(b), utf8::encode_utf8(c));
}

pub proof fn lemma_str_lt_asymmetric(a: Seq<char>, b: Seq<char>)
    requires
        str_lt(a, b),
    ensures
        !str_lt(b, a),
        a != b,
{
    lemma_bytes_lt_asymmetric(utf8::encode_utf8(a), utf8::encode_utf8(b));
}

pub proof fn lemma_str_lt_total(a: Seq<char>, b: Seq<char>)
    ensures
        a == b || str_lt(a, b) || str_lt(b, a),
{
    lemma_bytes_lt_total(utf8::encode_utf8(a), utf8::encode_utf8(b));
    if utf8::encode_utf8(a) == utf8::encode_utf8(b) {
        lemma_encode_utf8_injective(a, b);
    }
}

/// Compares two byte strings lexicographically.
pub fn compare_bytes(a: &[u8], b: &[u8]) -> (order: Order)
    ensures
        match order {
            Order::Less => bytes_lt(a@, b@),
            Order::Equal => a@ == b@,
            Order::Greater => bytes_lt(b@, a@),
        },
{
    let mut i: usize = 0;
    while i < a.len() && i < b.len()
        invariant
            i <= a.len(),
            i <= b.len(),
            forall|j: int| 0 <= j < i ==> a@[j] == b@[j],
        decreases a.len() - i,
    {
        if a[i] < b[i] {
            assert(less_at(a@, b@, i as int));
            return Order::Less;
        }
        if b[i] < a[i] {
            assert(less_at(b@, a@, i as int));
            return Order::Greater;
        }
        i += 1;
    }
    if i < b.len() {
        assert(less_at(a@, b@, i as int));
        Order::Less
    } else if i < a.len() {
        assert(less_at(b@, a@, i as int));
        Order::Greater
    } else {
        assert(a@ =~= b@);
        Order::Equal
    }
}

/// Compares two strings by their UTF-8 bytes.
pub fn compare_str(a: &str, b: &str) -> (order: Order)
    ensures
        match order {
            Order::Less => str_lt(a@, b@),
            Order::Equal => a@ == b@,
            Order::Greater => str_lt(b@, a@),
        },
{
    let order = compare_bytes(a.as_bytes(), b.as_bytes());
    proof {
        if order == Order::Equal {
            lemma_encode_utf8_injective(a@, b@);
        }
    }
    order
}

/// Whether two strings are the same.
pub fn same_str(a: &str, b: &str) -> (same: bool)
    ensures
        same == (a@ == b@),
{
    match compare_str(a, b) {
        Order::Equal => true,
        Order::Less => {
            proof {
                lemma_str_lt_asymmetric(a@, b@);
            }
            false
        },
        Order::Greater => {
            proof {
                lemma_str_lt_asymmetric(b@, a@);
            }
            false
        },
    }
}

/// How two byte strings compare: nothing comes before the empty one, which comes before all
/// others; the first bytes decide, and where they are the same, what follows them.
pub proof fn law_first_difference_decides(x: u8, a: Seq<u8>, y: u8, b: Seq<u8>)
    ensures
        !bytes_lt(a, seq![]),
        bytes_lt(seq![], b) <==> b.len() > 0,
        bytes_lt(seq![x] + a, seq![y] + b) <==> x < y || (x == y && bytes_lt(a, b)),
{
    let e = Seq::<u8>::empty();
    assert(!bytes_lt(a, e));
    if b.len() > 0 {
        assert(less_at(e, b, 0));
    }
    let (p, q) = (seq![x] + a, seq![y] + b);
    if bytes_lt(p, q) && x == y {
        let k = choose|k: int| less_at(p, q, k);
        assert(k > 0);
        assert forall|i: int| 0 <= i < k - 1 implies a[i] == b[i] by {
            assert(p[i + 1] == q[i + 1]);
        }
        assert(less_at(a, b, k - 1));
    }
    if bytes_lt(p, q) && x > y {
        let k = choose|k: int| less_at(p, q, k);
        assert(p[0] == x && q[0] == y);
    }
    if x < y {
        assert(less_at(p, q, 0));
    }
    if x == y && bytes_lt(a, b) {
        let k = choose|k: int| less_at(a, b, k);
        assert forall|i: int| 0 <= i < k + 1 implies p[i] == q[i] by {
            if i > 0 {
                assert(a[i - 1] == b[i - 1]);
            }
        }
        assert(less_at(p, q, k + 1));
    }
}

/// Strings compare as their UTF-8 bytes do.
pub proof fn law_strings_compare_as_their_bytes(a: Seq<char>, b: Seq<char>)
    ensures
        str_lt(a, b) == bytes_lt(utf8::encode_utf8(a), utf8::encode_utf8(b)),
{
}

} // verus!
