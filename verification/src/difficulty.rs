//! 256-bit numbers, in which the work behind a chain is counted.
use vstd::arithmetic::power2::{lemma2_to64, lemma_pow2_adds, pow2};
use vstd::prelude::*;

verus! {

/// A 256-bit number: four 64-bit limbs, the least significant one first.
#[derive(Clone, Copy, Debug, PartialEq, Eq)]
pub struct U256 {
    pub limbs: [u64; 4],
}

impl U256 {
    /// The number that the limbs stand for.
    pub open spec fn value(self) -> nat {
        (self.limbs@[0] + self.limbs@[1] * pow2(64) + self.limbs@[2] * pow2(128) + self.limbs@[3]
            * pow2(192)) as nat
    }
}

/// The sum of two numbers, where it fits in 256 bits.
pub open spec fn u256_sum(a: U256, b: U256) -> U256 {
    choose|sum: U256| #[trigger] sum.value() == a.value() + b.value()
}

/// The value of a number determines its limbs.
pub proof fn lemma_value_injective(a: U256, b: U256)
    requires
        a.value() == b.value(),
    ensures
        a == b,
{
    let base = pow2(64) as int;
    lemma2_to64();
    lemma_pow2_adds(64, 64);
    lemma_pow2_adds(64, 128);
    let (a0, a1, a2, a3) = (
        a.limbs@[0] as int,
        a.limbs@[1] as int,
        a.limbs@[2] as int,
        a.limbs@[3] as int,
    );
    let (b0, b1, b2, b3) = (
        b.limbs@[0] as int,
        b.limbs@[1] as int,
        b.limbs@[2] as int,
        b.limbs@[3] as int,
    );
    lemma_horner(a0, a1, a2, a3, base);
    lemma_horner(b0, b1, b2, b3, base);
    lemma_digit(a0, a1 + base * (a2 + base * a3), b0, b1 + base * (b2 + base * b3), base);
    lemma_digit(a1, a2 + base * a3, b1, b2 + base * b3, base);
    lemma_digit(a2, a3, b2, b3, base);
    assert(a.limbs =~= b.limbs);
}

/// Every number below 2^256 has its limbs.
proof fn lemma_value_surjective(n: nat)
    requires
        n < pow2(256),
    ensures
        exists|x: U256| #[trigger] x.value() == n,
{
    let base = pow2(64) as int;
    lemma2_to64();
    lemma_pow2_adds(64, 64);
    lemma_pow2_adds(64, 128);
    lemma_pow2_adds(64, 192);
    let d0 = n as int % base;
    let q1 = n as int / base;
    let d1 = q1 % base;
    let q2 = q1 / base;
    let d2 = q2 % base;
    let q3 = q2 / base;
    assert(n == d0 + base * q1 && 0 <= d0 < base && q1 >= 0) by (nonlinear_arith)
        requires
            d0 == n as int % base,
            q1 == n as int / base,
            base > 0,
    ;
    assert(q1 == d1 + base * q2 && 0 <= d1 < base && q2 >= 0) by (nonlinear_arith)
        requires
            d1 == q1 % base,
            q2 == q1 / base,
            q1 >= 0,
            base > 0,
    ;
    assert(q2 == d2 + base * q3 && 0 <= d2 < base && q3 >= 0) by (nonlinear_arith)
        requires
            d2 == q2 % base,
            q3 == q2 / base,
            q2 >= 0,
            base > 0,
    ;
    lemma_horner(d0, d1, d2, q3, base);
    assert(q3 < base) by (nonlinear_arith)
        requires
            n == d0 + base * q1,
            q1 == d1 + base * q2,
            q2 == d2 + base * q3,
            d0 >= 0,
            d1 >= 0,
            d2 >= 0,
            base > 0,
            n < base * (base * (base * base)),
    ;
    let limbs: [u64; 4] = [d0 as u64, d1 as u64, d2 as u64, q3 as u64];
    let x = U256 { limbs };
    assert(x.value() == n);
}

/// Where the sum of two numbers fits in 256 bits, it is their sum.
pub proof fn lemma_u256_sum(a: U256, b: U256)
    requires
        a.value() + b.value() < pow2(256),
    ensures
        u256_sum(a, b).value() == a.value() + b.value(),
{
    lemma_value_surjective(a.value() + b.value());
}

proof fn lemma_horner(d0: int, d1: int, d2: int, d3: int, base: int)
    ensures
        d0 + d1 * base + d2 * (base * base) + d3 * (base * (base * base)) == d0 + base * (d1 + base
            * (d2 + base * d3)),
{
    assert(d0 + d1 * base + d2 * (base * base) + d3 * (base * (base * base)) == d0 + base * (d1
        + base * (d2 + base * d3))) by (nonlinear_arith);
}

proof fn lemma_digit(x: int, q: int, y: int, r: int, base: int)
    requires
        0 <= x < base,
        0 <= y < base,
        x + base * q == y + base * r,
    ensures
        x == y,
        q == r,
{
    assert(q == r) by (nonlinear_arith)
        requires
            0 <= x < base,
            0 <= y < base,
            x + base * q == y + base * r,
    ;
}

/// `bigint::U256`'s `+`: the sum of the two numbers. It panics where the sum does not fit in
/// 256 bits, which is left out.
#[verifier::external_body]
pub(crate) fn u256_add(a: U256, b: U256) -> (r: U256)
    requires
        a.value() + b.value() < pow2(256),
    ensures
        r.value() == a.value() + b.value(),
{
    U256 { limbs: (bigint::U256(a.limbs) + bigint::U256(b.limbs)).0 }
}

/// `bigint::U256`'s `overflowing_add`: the sum of the two numbers less 2^256 where it does not
/// fit in 256 bits, and whether that was so.
#[verifier::external_body]
pub(crate) fn u256_overflowing_add(a: U256, b: U256) -> (r: (U256, bool))
    ensures
        r.1 == (a.value() + b.value() >= pow2(256)),
        r.0.value() + (if r.1 { pow2(256) } else { 0 }) == a.value() + b.value(),
{
    let (sum, carried) = bigint::U256(a.limbs).overflowing_add(bigint::U256(b.limbs));
    (U256 { limbs: sum.0 }, carried)
}

/// `bigint::U256`'s `>`: whether the first number is the greater one.
#[verifier::external_body]
pub(crate) fn u256_greater(a: U256, b: U256) -> (r: bool)
    ensures
        r == (a.value() > b.value()),
{
    bigint::U256(a.limbs) > bigint::U256(b.limbs)
}

/// `bigint::U256`'s `==`: whether the two are the same number.
#[verifier::external_body]
pub(crate) fn u256_equal(a: U256, b: U256) -> (r: bool)
    ensures
        r == (a.value() == b.value()),
{
    bigint::U256(a.limbs) == bigint::U256(b.limbs)
}

/// The limbs are the digits of the number to the base 2^64, the least significant one first.
pub proof fn law_limbs_are_digits(x: U256)
    ensures
        x.value() == x.limbs@[0] + 0x1_0000_0000_0000_0000 * (x.limbs@[1] + 0x1_0000_0000_0000_0000
            * (x.limbs@[2] + 0x1_0000_0000_0000_0000 * x.limbs@[3])),
        x.value() < pow2(256),
{
    lemma2_to64();
    lemma_pow2_adds(64, 64);
    lemma_pow2_adds(64, 128);
    lemma_pow2_adds(64, 192);
    lemma_horner(
        x.limbs@[0] as int,
        x.limbs@[1] as int,
        x.limbs@[2] as int,
        x.limbs@[3] as int,
        pow2(64) as int,
    );
}

} // verus!
