//! Unsigned numbers as bytes, the most significant byte first.

use vstd::prelude::*;

verus! {

/// Value of a big-endian byte string.
pub open spec fn be_value(s: Seq<u8>) -> nat
    decreases s.len(),
{
    if s.len() == 0 {
        0
    } else {
        be_value(s.drop_last()) * 256 + s.last() as nat
    }
}

/// The lowest `n` bytes of `x`, the most significant one first.
pub open spec fn be_bytes(x: nat, n: nat) -> Seq<u8>
    decreases n,
{
    if n == 0 {
        seq![]
    } else {
        be_bytes(x / 256, (n - 1) as nat).push((x % 256) as u8)
    }
}

/// Number of values that `n` bytes can take.
pub open spec fn byte_power(n: nat) -> nat
    decreases n,
{
    if n == 0 {
        1
    } else {
        256 * byte_power((n - 1) as nat)
    }
}

pub proof fn lemma_be_value_bound(s: Seq<u8>)
    ensures
        be_value(s) < byte_power(s.len()),
    decreases s.len(),
{
    if s.len() > 0 {
        lemma_be_value_bound(s.drop_last());
    }
}

/// Reading what was written gives the number back.
pub proof fn lemma_value_of_bytes(x: nat, n: nat)
    requires
        x < byte_power(n),
    ensures
        be_bytes(x, n).len() == n,
        be_value(be_bytes(x, n)) == x,
    decreases n,
{
    if n > 0 {
        lemma_value_of_bytes(x / 256, (n - 1) as nat);
        assert(be_bytes(x, n).drop_last() =~= be_bytes(x / 256, (n - 1) as nat));
    }
}

/// Writing what was read gives the bytes back.
pub proof fn lemma_bytes_of_value(s: Seq<u8>)
    ensures
        be_bytes(be_value(s), s.len()) == s,
    decreases s.len(),
{
    if s.len() > 0 {
        let high = s.drop_last();
        lemma_bytes_of_value(high);
        let x = be_value(s);
        assert(x / 256 == be_value(high));
        assert(x % 256 == s.last() as nat);
        assert(s =~= high.push(s.last()));
    } else {
        assert(s =~= seq![]);
    }
}

pub proof fn lemma_eight_bytes()
    ensures
        byte_power(7) == 0x100_0000_0000_0000,
        byte_power(8) == 0x1_0000_0000_0000_0000,
{
    reveal_with_fuel(byte_power, 9);
}

/// Writes a number as eight bytes.
pub fn write_u64(x: u64) -> (bytes: [u8; 8])
    ensures
        bytes@ == be_bytes(x as nat, 8),
{
    let x1: u64 = x / 256;
    let x2: u64 = x1 / 256;
    let x3: u64 = x2 / 256;
    let x4: u64 = x3 / 256;
    let x5: u64 = x4 / 256;
    let x6: u64 = x5 / 256;
    let x7: u64 = x6 / 256;
    let bytes: [u8; 8] = [
        (x7 % 256) as u8,
        (x6 % 256) as u8,
        (x5 % 256) as u8,
        (x4 % 256) as u8,
        (x3 % 256) as u8,
        (x2 % 256) as u8,
        (x1 % 256) as u8,
        (x % 256) as u8,
    ];
    proof {
        reveal_with_fuel(be_bytes, 9);
        assert(bytes@ =~= be_bytes(x as nat, 8));
    }
    bytes
}

/// Reads the number that stands in the eight bytes from `from` on.
pub fn read_u64(bytes: &[u8], from: usize) -> (x: u64)
    requires
        from + 8 <= bytes.len(),
    ensures
        x == be_value(bytes@.subrange(from as int, from + 8)),
{
    let ghost field = bytes@.subrange(from as int, from + 8);
    let mut x: u64 = 0;
    let mut i: usize = 0;
    while i < 8
        invariant
            from + 8 <= bytes.len(),
            field == bytes@.subrange(from as int, from + 8),
            i <= 8,
            x == be_value(field.take(i as int)),
        decreases 8 - i,
    {
        proof {
            let done = field.take(i as int);
            lemma_be_value_bound(done);
            lemma_eight_bytes();
            lemma_byte_power_grows(i as nat, 7);
            assert(field.take(i + 1).drop_last() =~= done);
        }
        x = x * 256 + bytes[from + i] as u64;
        i += 1;
    }
    assert(field.take(8) =~= field);
    x
}

proof fn lemma_byte_power_grows(n: nat, m: nat)
    requires
        n <= m,
    ensures
        byte_power(n) <= byte_power(m),
    decreases m,
{
    if n < m {
        lemma_byte_power_grows(n, (m - 1) as nat);
    }
}

/// The value of eight bytes: each counts 256 times as much as the one behind it.
pub proof fn law_value_of_eight_bytes(s: Seq<u8>)
    requires
        s.len() == 8,
    ensures
        be_value(s) == s[0] * 0x100_0000_0000_0000 + s[1] * 0x1_0000_0000_0000 + s[2]
            * 0x100_0000_0000 + s[3] * 0x1_0000_0000 + s[4] * 0x100_0000 + s[5] * 0x1_0000 + s[6]
            * 0x100 + s[7],
{
    let s7 = s.drop_last();
    let s6 = s7.drop_last();
    let s5 = s6.drop_last();
    let s4 = s5.drop_last();
    let s3 = s4.drop_last();
    let s2 = s3.drop_last();
    let s1 = s2.drop_last();
    assert(be_value(s1.drop_last()) == 0);
    assert(be_value(s1) == s[0]);
    assert(be_value(s2) == s[0] * 256 + s[1]);
    assert(be_value(s3) == be_value(s2) * 256 + s[2]);
    assert(be_value(s4) == be_value(s3) * 256 + s[3]);
    assert(be_value(s5) == be_value(s4) * 256 + s[4]);
    assert(be_value(s6) == be_value(s5) * 256 + s[5]);
    assert(be_value(s7) == be_value(s6) * 256 + s[6]);
}

/// The eight bytes of a number: they are eight, and each counts 256 times as much as the
/// one behind it.
pub proof fn law_number_as_eight_bytes(x: u64)
    ensures
        be_bytes(x as nat, 8).len() == 8,
        x == be_bytes(x as nat, 8)[0] * 0x100_0000_0000_0000 + be_bytes(x as nat, 8)[1]
            * 0x1_0000_0000_0000 + be_bytes(x as nat, 8)[2] * 0x100_0000_0000 + be_bytes(
            x as nat,
            8,
        )[3] * 0x1_0000_0000 + be_bytes(x as nat, 8)[4] * 0x100_0000 + be_bytes(x as nat, 8)[5]
            * 0x1_0000 + be_bytes(x as nat, 8)[6] * 0x100 + be_bytes(x as nat, 8)[7],
{
    lemma_eight_bytes();
    lemma_value_of_bytes(x as nat, 8);
    law_value_of_eight_bytes(be_bytes(x as nat, 8));
}

} // verus!
