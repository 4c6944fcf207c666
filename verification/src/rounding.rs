//! Quotients as double-precision arithmetic gives them, rounded to a fixed number of
//! decimals.

use vstd::arithmetic::power2;
use vstd::prelude::*;

verus! {

/// The integer nearest to `a / b`, the even one of two that are equally near.
pub open spec fn half_even(a: nat, b: nat) -> nat {
    let quotient = a / b;
    let remainder = a % b;
    if 2 * remainder < b || (2 * remainder == b && quotient % 2 == 0) {
        quotient
    } else {
        quotient + 1
    }
}

/// The least number of low bits, `k` or more, without which `n` has at most 53 bits.
pub open spec fn excess_bits(n: nat, k: nat) -> nat
    decreases n / power2::pow2(k),
{
    if n < power2::pow2(53 + k) {
        k
    } else {
        proof {
            lemma_quotient_shrinks(n, k);
        }
        excess_bits(n, k + 1)
    }
}

/// The double-precision number nearest to the integer `n`.
pub open spec fn nearest_double(n: nat) -> nat {
    let unit = power2::pow2(excess_bits(n, 0));
    half_even(n, unit) * unit
}

/// The greatest exponent of at most `s` with which `x * 2^s / d` stays below `2^53`.
pub open spec fn quotient_scale(x: nat, d: nat, s: nat) -> nat
    decreases s,
{
    if s > 0 && x * power2::pow2(s) >= d * power2::pow2(53) {
        quotient_scale(x, d, (s - 1) as nat)
    } else {
        s
    }
}

/// `n / d`, computed in double precision, times `scale`, as an integer: the operand and
/// the quotient are each the nearest double, and the result the nearest integer, the even
/// one of two that are equally near. A quotient below one is taken to 52 binary places.
pub open spec fn rounded_quotient(n: nat, d: nat, scale: nat) -> nat {
    let x = nearest_double(n);
    let unit = power2::pow2(quotient_scale(x, d, 52));
    half_even(half_even(x * unit, d) * scale, unit)
}

pub proof fn lemma_quotient_shrinks(n: nat, k: nat)
    requires
        n >= power2::pow2(53 + k),
    ensures
        0 <= n / power2::pow2(k + 1) < n / power2::pow2(k),
{
    power2::lemma_pow2_adds(53, k);
    power2::lemma_pow2_unfold(k + 1);
    power2::lemma_pow2_pos(k);
    power2::lemma_pow2_pos(53);
    let p = power2::pow2(k);
    let q = power2::pow2(53);
    assert(n >= q * p);
    assert(n / (2 * p) < n / p) by (nonlinear_arith)
        requires
            p > 0,
            q > 0,
            n >= q * p,
    {
        assert(n / (2 * p) == (n / p) / 2) by {
            vstd::arithmetic::div_mod::lemma_div_denominator(n as int, p as int, 2);
        }
        assert(n / p >= 1) by {
            assert(n >= p);
        }
    }
    assert(0 <= n / (2 * p)) by (nonlinear_arith)
        requires
            p > 0,
    ;
}

/// Rounds `a / b` to the nearest integer, to the even one of two that are equally near.
fn round_half_even(a: u128, b: u128) -> (value: u128)
    requires
        0 < b,
        b <= 0x8000_0000_0000_0000_0000_0000_0000_0000,
        a <= 0x8000_0000_0000_0000_0000_0000_0000_0000,
    ensures
        value == half_even(a as nat, b as nat),
        value <= a / b + 1,
        value <= a + 1,
{
    let quotient: u128 = a / b;
    let remainder: u128 = a % b;
    assert(quotient <= a) by (nonlinear_arith)
        requires
            quotient == a / b,
            b > 0,
    ;
    if remainder < b - remainder || (remainder == b - remainder && quotient % 2 == 0) {
        quotient
    } else {
        quotient + 1
    }
}

/// Rounds an integer to the nearest double-precision number.
fn round_to_double(n: u64) -> (x: u128)
    ensures
        x == nearest_double(n as nat),
        x <= 0x2_0000_0000_0000_0000,
{
    let mut unit: u128 = 1;
    let ghost mut k: nat = 0;
    proof {
        power2::lemma2_to64();
        power2::lemma2_to64_rest();
    }
    while n as u128 >= unit * 0x20_0000_0000_0000
        invariant
            k <= 11,
            unit == power2::pow2(k),
            1 <= unit <= 2048,
            k == 11 ==> unit == 2048,
            power2::pow2(53) == 0x20_0000_0000_0000,
            power2::pow2(11) == 2048,
            excess_bits(n as nat, k) == excess_bits(n as nat, 0),
        decreases 11 - k,
    {
        proof {
            power2::lemma_pow2_adds(53, k);
            power2::lemma_pow2_unfold(k + 1);
            if k + 1 < 11 {
                power2::lemma_pow2_strictly_increases(k + 1, 11);
            }
            k = k + 1;
        }
        unit = unit * 2;
    }
    proof {
        power2::lemma_pow2_adds(53, k);
    }
    let q: u128 = round_half_even(n as u128, unit);
    assert(q * unit <= n + unit) by (nonlinear_arith)
        requires
            q <= n / (unit as u64) + 1,
            unit == unit as u64,
            unit > 0,
    ;
    q * unit
}

/// Divides as double-precision arithmetic does, and rounds the quotient to a whole number
/// of parts of which there are `scale` in one.
pub fn divide_and_round(n: u64, d: u64, scale: u64) -> (value: u128)
    requires
        0 < d <= 1_000_000,
        scale <= 100,
    ensures
        value == rounded_quotient(n as nat, d as nat, scale as nat),
{
    let x: u128 = round_to_double(n);
    let limit: u128 = d as u128 * 0x20_0000_0000_0000;
    let mut unit: u128 = 0x10_0000_0000_0000;
    let ghost mut s: nat = 52;
    proof {
        power2::lemma2_to64();
        power2::lemma2_to64_rest();
        lemma_product_bound(x, unit);
    }
    while unit > 1 && x * unit >= limit
        invariant
            x <= 0x2_0000_0000_0000_0000,
            limit == d * 0x20_0000_0000_0000,
            power2::pow2(53) == 0x20_0000_0000_0000,
            s <= 52,
            unit == power2::pow2(s),
            1 <= unit <= 0x10_0000_0000_0000,
            x * unit <= 0x2_0000_0000_0000_0000 * 0x10_0000_0000_0000,
            quotient_scale(x as nat, d as nat, s) == quotient_scale(x as nat, d as nat, 52),
        decreases s,
    {
        proof {
            power2::lemma2_to64();
            power2::lemma_pow2_unfold(s);
            s = (s - 1) as nat;
        }
        unit = unit / 2;
        proof {
            lemma_product_bound(x, unit);
        }
    }
    proof {
        if s > 0 {
            power2::lemma_pow2_unfold(s);
            power2::lemma_pow2_pos((s - 1) as nat);
        }
    }
    let significand: u128 = round_half_even(x * unit, d as u128);
    assert(significand * scale <= 0x2_0000_0000_0000_0000 * 0x10_0000_0000_0000 * 100 + 100)
        by (nonlinear_arith)
        requires
            significand <= 0x2_0000_0000_0000_0000 * 0x10_0000_0000_0000 + 1,
            scale <= 100,
    ;
    round_half_even(significand * scale as u128, unit)
}

proof fn lemma_product_bound(x: u128, unit: u128)
    by (nonlinear_arith)
    requires
        x <= 0x2_0000_0000_0000_0000,
        unit <= 0x10_0000_0000_0000,
    ensures
        x * unit <= 0x2_0000_0000_0000_0000 * 0x10_0000_0000_0000,
{
}

/// Rounding to an integer goes to the nearest one, and to the even one of two.
pub proof fn law_rounding_goes_to_the_nearest(a: nat, b: nat)
    requires
        b > 0,
    ensures
        -b <= 2 * (half_even(a, b) * b - a) <= b,
        2 * (half_even(a, b) * b - a) == b || 2 * (a - half_even(a, b) * b) == b ==> half_even(
            a,
            b,
        ) % 2 == 0,
{
    let q = a / b;
    let r = a % b;
    assert(a == q * b + r && r < b) by {
        vstd::arithmetic::div_mod::lemma_fundamental_div_mod(a as int, b as int);
        assert(b * q == q * b) by (nonlinear_arith);
    }
    assert((q + 1) * b == q * b + b) by (nonlinear_arith);
}

proof fn lemma_nearest_double(n: nat)
    requires
        n <= u64::MAX,
    ensures
        n < 0x20_0000_0000_0000 ==> nearest_double(n) == n,
        -2048 <= 2 * (nearest_double(n) - n) <= 2048,
{
    power2::lemma2_to64();
    power2::lemma2_to64_rest();
    let k = excess_bits(n, 0);
    lemma_excess_bits(n, 0);
    let unit = power2::pow2(k);
    power2::lemma_pow2_pos(k);
    if k < 11 {
        power2::lemma_pow2_strictly_increases(k, 11);
    }
    assert(unit <= 2048);
    law_rounding_goes_to_the_nearest(n, unit);
    if n < 0x20_0000_0000_0000 {
        assert(k == 0);
        assert(half_even(n, 1) == n);
    }
}

proof fn lemma_excess_bits(n: nat, k: nat)
    requires
        n <= u64::MAX,
        k <= 11,
    ensures
        excess_bits(n, k) <= 11,
    decreases 11 - k,
{
    power2::lemma2_to64();
    power2::lemma2_to64_rest();
    if n >= power2::pow2(53 + k) {
        if k == 11 {
            assert(power2::pow2(64) == 0x1_0000_0000_0000_0000);
        } else {
            lemma_excess_bits(n, k + 1);
        }
    }
}

proof fn lemma_quotient_scale(x: nat, d: nat, s: nat)
    requires
        x * power2::pow2(27) < d * power2::pow2(53),
        s >= 27,
    ensures
        quotient_scale(x, d, s) >= 27,
    decreases s,
{
    if s > 27 && x * power2::pow2(s) >= d * power2::pow2(53) {
        lemma_quotient_scale(x, d, (s - 1) as nat);
    }
}

proof fn lemma_two_roundings(n: int, x: int, d: int, scale: int, unit: int, m: int, h: int, e: int)
    requires
        d > 0,
        scale >= 0,
        unit >= 1,
        -e <= 2 * (x - n) <= e,
        -d <= 2 * (m * d - x * unit) <= d,
        -unit <= 2 * (h * unit - m * scale) <= unit,
    ensures
        -(unit * d + scale * d + scale * e * unit) <= 2 * unit * (h * d - n * scale) <= unit * d
            + scale * d + scale * e * unit,
{
    let p = h * unit - m * scale;
    let q = m * d - x * unit;
    let r = x - n;
    assert(unit * (h * d - n * scale) == p * d + q * scale + r * scale * unit) by (nonlinear_arith)
        requires
            p == h * unit - m * scale,
            q == m * d - x * unit,
            r == x - n,
    ;
    assert(-(unit * d) <= 2 * (p * d) <= unit * d) by (nonlinear_arith)
        requires
            -unit <= 2 * p <= unit,
            d > 0,
    ;
    assert(-(scale * d) <= 2 * (q * scale) <= scale * d) by (nonlinear_arith)
        requires
            -d <= 2 * q <= d,
            scale >= 0,
    ;
    assert(-(scale * e) <= 2 * (r * scale) <= scale * e) by (nonlinear_arith)
        requires
            -e <= 2 * r <= e,
            scale >= 0,
    ;
    let t = r * scale;
    let u = scale * e;
    assert(-(u * unit) <= 2 * (t * unit) <= u * unit) by (nonlinear_arith)
        requires
            -u <= 2 * t <= u,
            unit >= 1,
    ;
    assert(2 * unit * (h * d - n * scale) == 2 * (unit * (h * d - n * scale)))
        by (nonlinear_arith);
}

/// A rounded quotient is the nearest one to the true quotient, as long as the operand is not
/// large. Where it is, the quotient is off by no more than what doubles lose.
pub proof fn law_rounded_quotient_is_near(n: u64, d: nat, scale: nat)
    requires
        0 < d <= 1_000_000,
        scale <= 100,
    ensures
        n < d * 0x400_0000 && n < 0x20_0000_0000_0000 ==> -d <= 2 * (rounded_quotient(
            n as nat,
            d,
            scale,
        ) * d - n * scale) <= d,
        -(d + scale * d + scale * 2048) <= 2 * (rounded_quotient(n as nat, d, scale) * d - n
            * scale) <= d + scale * d + scale * 2048,
{
    power2::lemma2_to64();
    power2::lemma2_to64_rest();
    let x = nearest_double(n as nat);
    let s = quotient_scale(x, d, 52);
    let unit = power2::pow2(s);
    power2::lemma_pow2_pos(s);
    let m = half_even(x * unit, d);
    let h = rounded_quotient(n as nat, d, scale);
    lemma_nearest_double(n as nat);
    law_rounding_goes_to_the_nearest(x * unit, d);
    law_rounding_goes_to_the_nearest(m * scale, unit);
    let z = h * d - n * scale;
    lemma_two_roundings(
        n as int,
        x as int,
        d as int,
        scale as int,
        unit as int,
        m as int,
        h as int,
        2048,
    );
    let c = d + scale * d + scale * 2048;
    assert(-c <= 2 * z <= c) by (nonlinear_arith)
        requires
            -(unit * d + scale * d + scale * 2048 * unit) <= 2 * unit * z <= unit * d + scale * d
                + scale * 2048 * unit,
            unit >= 1,
            c == d + scale * d + scale * 2048,
            d > 0,
            scale >= 0,
    ;
    if n < d * 0x400_0000 && n < 0x20_0000_0000_0000 {
        assert(x == n);
        assert(d * power2::pow2(53) == d * 0x400_0000 * 0x800_0000);
        lemma_quotient_scale(x, d, 52);
        if s > 27 {
            power2::lemma_pow2_strictly_increases(27, s);
        }
        assert(unit >= 0x800_0000);
        lemma_two_roundings(
            n as int,
            x as int,
            d as int,
            scale as int,
            unit as int,
            m as int,
            h as int,
            0,
        );
        assert(scale * d <= 100_000_000) by (nonlinear_arith)
            requires
                scale <= 100,
                d <= 1_000_000,
        ;
        assert(-d <= 2 * z <= d) by (nonlinear_arith)
            requires
                -(unit * d + scale * d) <= 2 * unit * z <= unit * d + scale * d,
                scale * d < unit,
        ;
    }
}

/// The double nearest to an integer: a whole number of units, which are a power of two and
/// of which there are at most 2 to the power of 53, the even one of two that are equally
/// near. An integer below 2 to the power of 53 is a double itself.
pub proof fn law_nearest_double(n: u64) -> (parts: (nat, nat))
    ensures
        ({
            let (k, q) = parts;
            let unit = power2::pow2(k);
            let x = nearest_double(n as nat);
            &&& n < 0x20_0000_0000_0000 ==> x == n
            &&& x == q * unit
            &&& n < 0x20_0000_0000_0000 * unit
            &&& k > 0 ==> 2 * n >= 0x20_0000_0000_0000 * unit
            &&& -unit <= 2 * (x - n) <= unit
            &&& 2 * (x - n) == unit || 2 * (n - x) == unit ==> q % 2 == 0
        }),
{
    power2::lemma2_to64();
    power2::lemma2_to64_rest();
    let k = excess_bits(n as nat, 0);
    let unit = power2::pow2(k);
    power2::lemma_pow2_pos(k);
    lemma_nearest_double(n as nat);
    lemma_excess_bits(n as nat, 0);
    lemma_excess_is_least(n as nat, 0);
    power2::lemma_pow2_adds(53, k);
    law_rounding_goes_to_the_nearest(n as nat, unit);
    if k > 0 {
        power2::lemma_pow2_adds(53, (k - 1) as nat);
        power2::lemma_pow2_unfold(k);
    }
    (k, half_even(n as nat, unit))
}

proof fn lemma_excess_is_least(n: nat, k: nat)
    requires
        n <= u64::MAX,
        k <= 11,
    ensures
        n < power2::pow2(53 + excess_bits(n, k)),
        excess_bits(n, k) >= k,
        excess_bits(n, k) > k ==> n >= power2::pow2((53 + excess_bits(n, k) - 1) as nat),
    decreases 11 - k,
{
    power2::lemma2_to64();
    power2::lemma2_to64_rest();
    if n >= power2::pow2(53 + k) && k < 11 {
        lemma_excess_is_least(n, k + 1);
    }
}

proof fn lemma_quotient_scale_is_greatest(x: nat, d: nat, s: nat)
    ensures
        quotient_scale(x, d, s) <= s,
        quotient_scale(x, d, s) < s ==> x * power2::pow2(quotient_scale(x, d, s) + 1) >= d
            * power2::pow2(53),
        quotient_scale(x, d, s) > 0 ==> x * power2::pow2(quotient_scale(x, d, s)) < d
            * power2::pow2(53),
    decreases s,
{
    if s > 0 && x * power2::pow2(s) >= d * power2::pow2(53) {
        lemma_quotient_scale_is_greatest(x, d, (s - 1) as nat);
    }
}

/// How a quotient is rounded: first to a double, that is to a whole number of at most 53
/// bits of units that are a power of two, then, multiplied, to an integer. Both roundings go
/// to the nearest, and to the even one of two that are equally near.
pub proof fn law_quotient_is_rounded_twice(n: u64, d: nat, scale: nat) -> (parts: (nat, nat))
    requires
        d > 0,
    ensures
        ({
            let (s, m) = parts;
            let unit = power2::pow2(s);
            let x = nearest_double(n as nat);
            let h = rounded_quotient(n as nat, d, scale);
            &&& s <= 52
            &&& s < 52 ==> 2 * x * unit >= d * 0x20_0000_0000_0000
            &&& s > 0 ==> x * unit < d * 0x20_0000_0000_0000
            &&& -d <= 2 * (m * d - x * unit) <= d
            &&& 2 * (m * d - x * unit) == d || 2 * (x * unit - m * d) == d ==> m % 2 == 0
            &&& -unit <= 2 * (h * unit - m * scale) <= unit
            &&& 2 * (h * unit - m * scale) == unit || 2 * (m * scale - h * unit) == unit ==> h % 2
                == 0
        }),
{
    power2::lemma2_to64();
    power2::lemma2_to64_rest();
    let x = nearest_double(n as nat);
    let s = quotient_scale(x, d, 52);
    let unit = power2::pow2(s);
    power2::lemma_pow2_pos(s);
    let m = half_even(x * unit, d);
    lemma_quotient_scale_is_greatest(x, d, 52);
    law_rounding_goes_to_the_nearest(x * unit, d);
    law_rounding_goes_to_the_nearest(m * scale, unit);
    if s < 52 {
        power2::lemma_pow2_unfold(s + 1);
        assert(x * (2 * unit) == 2 * x * unit) by (nonlinear_arith);
    }
    (s, m)
}

} // verus!
