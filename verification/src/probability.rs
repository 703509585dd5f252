//! Probabilities as bit patterns, and the exact arithmetic of the draws made
//! against them.

use crate::float::{finite, is_finite, negative, SIGN_BIT};
use vstd::arithmetic::power2::{
    lemma2_to64, lemma2_to64_rest, lemma_pow2_adds, lemma_pow2_pos, lemma_pow2_strictly_increases,
    lemma_pow2_unfold, pow2,
};
use vstd::prelude::*;

verus! {

/// Bit pattern of 1.0.
pub const ONE_BITS: u64 = 0x3ff0_0000_0000_0000;

/// Number of outcomes a loss draw chooses from.
pub const LOSS_SCALE: u64 = 1_000_000_000;

/// Why a number is not a probability.
#[derive(Debug, Clone, Copy, PartialEq, Eq, Structural)]
pub enum ProbabilityError {
    /// Value is NaN or infinite.
    NonFinite,
    /// Value is outside 0.0 ..= 1.0 (includes -0.0).
    OutOfRange,
}

impl ProbabilityError {
    /// Human-readable reason.
    pub fn message(&self) -> (text: &'static str)
        ensures
            text == (match *self {
                ProbabilityError::NonFinite => "non-finite probability",
                ProbabilityError::OutOfRange => "probability out of range [0.0, 1.0]",
            }),
    {
        match self {
            ProbabilityError::NonFinite => "non-finite probability",
            ProbabilityError::OutOfRange => "probability out of range [0.0, 1.0]",
        }
    }
}

/// Probability in 0.0 ..= 1.0, rejecting -0.0, NaN and infinities.
#[derive(Debug, Clone, Copy, PartialEq, Eq, Structural)]
pub struct Probability {
    bits: u64,
}

/// The number is finite, has no sign and is at most one.
pub open spec fn probability_bits(bits: u64) -> bool {
    finite(bits) && !negative(bits) && bits <= ONE_BITS
}

/// The error that a number which is not a probability gives.
pub open spec fn probability_fault(bits: u64) -> ProbabilityError {
    if !finite(bits) {
        ProbabilityError::NonFinite
    } else {
        ProbabilityError::OutOfRange
    }
}

impl View for Probability {
    type V = u64;

    closed spec fn view(&self) -> u64 {
        self.bits
    }
}

/// The probability with the given bits.
pub closed spec fn probability_of_bits(bits: u64) -> Probability {
    Probability { bits }
}

/// A probability is determined by its bits.
pub broadcast proof fn lemma_probability_of_bits(bits: u64)
    ensures
        (#[trigger] probability_of_bits(bits))@ == bits,
{
}

/// A probability is determined by its bits.
pub proof fn lemma_same_bits(p: Probability, q: Probability)
    ensures
        p@ == q@ ==> p == q,
{
}

impl Probability {
    /// Every probability is one.
    #[verifier::type_invariant]
    pub closed spec fn valid(self) -> bool {
        probability_bits(self.bits)
    }

    /// Zero probability.
    pub fn zero() -> (p: Probability)
        ensures
            p@ == 0,
    {
        Probability { bits: 0 }
    }

    /// One probability.
    pub fn one() -> (p: Probability)
        ensures
            p@ == ONE_BITS,
    {
        Probability { bits: ONE_BITS }
    }

    /// One tenth probability.
    pub fn tenth() -> (p: Probability)
        ensures
            p@ == 0x3fb9_9999_9999_999a,
    {
        Probability { bits: 0x3fb9_9999_9999_999a }
    }

    /// Create a probability from the bit pattern of a double, validating the
    /// range.
    pub fn new(bits: u64) -> (r: Result<Probability, ProbabilityError>)
        ensures
            match r {
                Ok(p) => probability_bits(bits) && p@ == bits,
                Err(e) => !probability_bits(bits) && e == probability_fault(bits),
            },
    {
        if !is_finite(bits) {
            return Err(ProbabilityError::NonFinite);
        }
        if bits >= SIGN_BIT || bits > ONE_BITS {
            return Err(ProbabilityError::OutOfRange);
        }
        Ok(Probability { bits })
    }

    /// Return the bit representation of the probability.
    pub fn to_bits(self) -> (bits: u64)
        ensures
            bits == self@,
            probability_bits(bits),
    {
        proof {
            use_type_invariant(&self);
        }
        self.bits
    }
}

/// The whole number `m` of a nonnegative finite double `m / 2^k`.
pub open spec fn significand(bits: u64) -> nat {
    if bits < 0x10_0000_0000_0000 {
        bits as nat
    } else {
        (0x10_0000_0000_0000 + bits % 0x10_0000_0000_0000) as nat
    }
}

/// The exponent `k` of a nonnegative double `m / 2^k` that is at most one.
pub open spec fn scale(bits: u64) -> nat {
    if bits < 0x10_0000_0000_0000 {
        1074
    } else {
        (1075 - bits / 0x10_0000_0000_0000) as nat
    }
}

/// How many low bits of `n` a 53-bit significand drops.
pub open spec fn excess(n: nat) -> nat
    decreases n,
{
    if n < 0x20_0000_0000_0000 {
        0
    } else {
        1 + excess(n / 2)
    }
}

/// The whole number nearest to `n` that a double holds, ties to even.
pub open spec fn nearest_double(n: nat) -> nat {
    let unit = pow2(excess(n));
    let kept = n / unit;
    let dropped = n % unit;
    if 2 * dropped > unit || (2 * dropped == unit && kept % 2 == 1) {
        (kept + 1) * unit
    } else {
        kept * unit
    }
}

/// Loss draws below this number lose the message: `p` times [`LOSS_SCALE`] as
/// a double product, rounded down.
pub open spec fn loss_limit(bits: u64) -> nat {
    nearest_double(significand(bits) * (LOSS_SCALE as nat)) / pow2(scale(bits))
}

/// Whether the 64-bit `word`, as a double fraction of the word range, is below
/// the probability.
pub open spec fn chance_hit(bits: u64, word: u64) -> bool {
    nearest_double(word as nat) * pow2(scale(bits)) < significand(bits) * pow2(64)
}

/// Two to the power of `e`.
fn power_of_two(e: u32) -> (p: u128)
    requires
        e <= 126,
    ensures
        p == pow2(e as nat),
{
    let mut p: u128 = 1;
    let mut i: u32 = 0;
    proof {
        lemma2_to64();
    }
    while i < e
        invariant
            i <= e <= 126,
            p == pow2(i as nat),
        decreases e - i,
    {
        proof {
            lemma_pow2_unfold((i + 1) as nat);
            lemma_pow2_at_most(i as nat, 126);
            lemma_pow2_126();
        }
        p = p * 2;
        i = i + 1;
    }
    p
}

proof fn lemma_pow2_at_most(a: nat, b: nat)
    requires
        a <= b,
    ensures
        pow2(a) <= pow2(b),
{
    if a < b {
        lemma_pow2_strictly_increases(a, b);
    }
}

proof fn lemma_pow2_126()
    ensures
        pow2(126) == 0x4000_0000_0000_0000_0000_0000_0000_0000,
{
    lemma2_to64();
    lemma_pow2_adds(63, 63);
    assert(pow2(63) == 0x8000_0000_0000_0000) by {
        lemma_pow2_unfold(64);
    }
}

/// The significand and the exponent of the double nearest to `n`.
fn round_to_double(n: u128) -> (r: (u64, u32))
    requires
        n < 0x10_0000_0000_0000_0000_0000,
    ensures
        r.0 <= 0x20_0000_0000_0000,
        r.1 <= 31,
        nearest_double(n as nat) == (r.0 as nat) * pow2(r.1 as nat),
{
    let mut kept: u128 = n;
    let mut dropped: u128 = 0;
    let mut unit: u128 = 1;
    let mut e: u32 = 0;
    proof {
        lemma2_to64();
    }
    while kept >= 0x20_0000_0000_0000
        invariant
            n < 0x10_0000_0000_0000_0000_0000,
            e <= 31,
            unit == pow2(e as nat),
            unit <= 0x8000_0000,
            n == kept * unit + dropped,
            dropped < unit,
            excess(n as nat) == e + excess(kept as nat),
        decreases kept,
    {
        proof {
            lemma2_to64();
            lemma_pow2_unfold((e + 1) as nat);
            let k: int = kept as int;
            let u: int = unit as int;
            let bit: int = k % 2;
            assert(k == 2 * (k / 2) + bit);
            assert(k * u == (k / 2) * (2 * u) + bit * u) by (nonlinear_arith)
                requires
                    k == 2 * (k / 2) + bit,
            ;
            assert(0 <= bit * u <= u) by (nonlinear_arith)
                requires
                    0 <= bit <= 1,
                    0 <= u,
            ;
            if e == 31 {
                assert(k * u >= 0x20_0000_0000_0000 * 0x8000_0000) by (nonlinear_arith)
                    requires
                        k >= 0x20_0000_0000_0000,
                        u == 0x8000_0000,
                ;
                assert(false);
            }
            assert(unit * 2 <= 0x8000_0000) by {
                lemma_pow2_at_most((e + 1) as nat, 31);
            }
        }
        dropped = dropped + (kept % 2) * unit;
        kept = kept / 2;
        unit = unit * 2;
        e = e + 1;
    }
    proof {
        vstd::arithmetic::div_mod::lemma_fundamental_div_mod_converse(
            n as int,
            unit as int,
            kept as int,
            dropped as int,
        );
    }
    if 2 * dropped > unit || (2 * dropped == unit && kept % 2 == 1) {
        ((kept + 1) as u64, e)
    } else {
        (kept as u64, e)
    }
}

/// The significand and the exponent of a probability.
fn parts(bits: u64) -> (r: (u64, u32))
    requires
        probability_bits(bits),
    ensures
        r.0 == significand(bits),
        r.1 == scale(bits),
        r.0 < 0x20_0000_0000_0000,
        52 <= r.1 <= 1074,
{
    if bits < 0x10_0000_0000_0000 {
        (bits, 1074)
    } else {
        let exponent: u64 = bits / 0x10_0000_0000_0000;
        assert(exponent <= 1023);
        (0x10_0000_0000_0000 + bits % 0x10_0000_0000_0000, (1075 - exponent) as u32)
    }
}

/// Dropping more bits than a unit holds is one division.
proof fn lemma_scaled_division(q: nat, r: nat, k: nat)
    requires
        r <= k,
    ensures
        (q * pow2(r)) / pow2(k) == q / pow2((k - r) as nat),
{
    let d = (k - r) as nat;
    lemma_pow2_adds(r, d);
    lemma_pow2_pos(r);
    lemma_pow2_pos(d);
    vstd::arithmetic::div_mod::lemma_div_denominator(
        (q * pow2(r)) as int,
        pow2(r) as int,
        pow2(d) as int,
    );
    vstd::arithmetic::div_mod::lemma_div_by_multiple(q as int, pow2(r) as int);
}

impl Probability {
    /// Whether the probability is above zero.
    pub fn is_positive(self) -> (yes: bool)
        ensures
            yes == (self@ != 0),
    {
        self.bits != 0
    }

    /// Number of loss draws, out of [`LOSS_SCALE`], that lose the message.
    pub fn loss_limit(self) -> (limit: u64)
        ensures
            limit == loss_limit(self@),
    {
        proof {
            use_type_invariant(&self);
            lemma2_to64();
        }
        let (m, k): (u64, u32) = parts(self.bits);
        assert((m as int) * 1_000_000_000 < 0x10_0000_0000_0000_0000_0000);
        let (q, r): (u64, u32) = round_to_double(m as u128 * LOSS_SCALE as u128);
        proof {
            lemma_scaled_division(q as nat, r as nat, k as nat);
        }
        let shift: u32 = k - r;
        if shift >= 64 {
            proof {
                lemma_pow2_at_most(64, shift as nat);
                vstd::arithmetic::div_mod::lemma_basic_div(q as int, pow2(shift as nat) as int);
            }
            0
        } else {
            proof {
                lemma_pow2_pos(shift as nat);
                vstd::arithmetic::div_mod::lemma_div_is_ordered_by_denominator(
                    q as int,
                    1,
                    pow2(shift as nat) as int,
                );
            }
            (q as u128 / power_of_two(shift)) as u64
        }
    }

    /// Whether a raw 64-bit draw falls below the probability.
    pub fn hit(self, word: u64) -> (yes: bool)
        ensures
            yes == chance_hit(self@, word),
    {
        proof {
            use_type_invariant(&self);
            lemma2_to64();
        }
        let (m, k): (u64, u32) = parts(self.bits);
        let (q, r): (u64, u32) = round_to_double(word as u128);
        let unit: u128 = power_of_two(r);
        proof {
            lemma_pow2_at_most(r as nat, 31);
            assert(0 <= q * unit <= 0x20_0000_0000_0000 * 0x8000_0000) by (nonlinear_arith)
                requires
                    0 <= q <= 0x20_0000_0000_0000,
                    0 <= unit <= 0x8000_0000,
            ;
        }
        let value: u128 = q as u128 * unit;
        if k >= 64 {
            let s: u32 = k - 64;
            proof {
                lemma_pow2_adds(64, s as nat);
                lemma_pow2_pos(s as nat);
                lemma_below_quotient(value as nat, m as nat, pow2(s as nat), pow2(64));
            }
            if m == 0 {
                return false;
            }
            let limit: u128 = if s >= 64 {
                proof {
                    lemma_pow2_at_most(64, s as nat);
                    vstd::arithmetic::div_mod::lemma_basic_div(
                        m as int - 1,
                        pow2(s as nat) as int,
                    );
                }
                0
            } else {
                (m as u128 - 1) / power_of_two(s)
            };
            value <= limit
        } else {
            let s: u32 = 64 - k;
            proof {
                lemma_pow2_adds(k as nat, s as nat);
                lemma_pow2_pos(k as nat);
                lemma_pow2_at_most(s as nat, 12);
                lemma_common_factor(value as nat, m as nat, pow2(k as nat), pow2(s as nat));
            }
            let factor: u128 = power_of_two(s);
            assert(0 <= m * factor <= 0x20_0000_0000_0000 * 0x1000) by (nonlinear_arith)
                requires
                    0 <= m <= 0x20_0000_0000_0000,
                    0 <= factor <= 0x1000,
            ;
            value < m as u128 * factor
        }
    }
}

proof fn lemma_below_quotient(value: nat, m: nat, p: nat, common: nat)
    requires
        p > 0,
        common > 0,
    ensures
        (value * (common * p) < m * common) == (m > 0 && value <= (m - 1) / (p as int)),
{
    let v: int = value as int;
    let n: int = m as int;
    let d: int = p as int;
    let c: int = common as int;
    assert(v * (c * d) < n * c <==> v * d < n) by (nonlinear_arith)
        requires
            c > 0,
    ;
    if m > 0 {
        let q = (n - 1) / d;
        vstd::arithmetic::div_mod::lemma_fundamental_div_mod(n - 1, d);
        assert(v * d < n <==> v <= q) by (nonlinear_arith)
            requires
                d > 0,
                n - 1 == d * q + (n - 1) % d,
                0 <= (n - 1) % d < d,
        ;
    } else {
        assert(v * d >= 0) by (nonlinear_arith)
            requires
                v >= 0,
                d > 0,
        ;
    }
}

proof fn lemma_common_factor(value: nat, m: nat, common: nat, p: nat)
    requires
        common > 0,
    ensures
        (value * common < m * (common * p)) == (value < m * p),
{
    let v: int = value as int;
    let n: int = m as int;
    let d: int = p as int;
    let c: int = common as int;
    assert(v * c < n * (c * d) <==> v < n * d) by (nonlinear_arith)
        requires
            c > 0,
    ;
}

/// A draw never falls below zero probability, and always below certainty
/// unless it rounds to the whole word range.
pub proof fn law_certain_and_impossible(word: u64)
    ensures
        !chance_hit(0, word),
        nearest_double(word as nat) < pow2(64) ==> chance_hit(ONE_BITS, word),
{
    lemma2_to64();
    lemma2_to64_rest();
    assert(significand(0) == 0 && scale(0) == 1074);
    lemma_pow2_pos(1074);
    assert(nearest_double(word as nat) * pow2(1074) >= 0) by (nonlinear_arith);
    assert(0 * pow2(64) == 0) by (nonlinear_arith);
    assert(significand(ONE_BITS) == 0x10_0000_0000_0000 && scale(ONE_BITS) == 52);
    let v: int = nearest_double(word as nat) as int;
    if v < pow2(64) {
        assert(v * 0x10_0000_0000_0000 < 0x10_0000_0000_0000 * pow2(64));
    }
}

/// A number is a probability exactly when it is no sign, no infinity and no NaN
/// and at most one; the error tells a number that is not finite from one out of
/// range.
pub proof fn law_probabilities_lie_between_zero_and_one(bits: u64)
    ensures
        probability_bits(bits) <==> bits <= 0x3ff0_0000_0000_0000,
        !probability_bits(bits) ==> (probability_fault(bits) == ProbabilityError::NonFinite <==> (
        0x7ff0_0000_0000_0000 <= bits < 0x8000_0000_0000_0000 || bits >= 0xfff0_0000_0000_0000)),
{
}

proof fn lemma_excess(n: nat)
    ensures
        n / pow2(excess(n)) < 0x20_0000_0000_0000,
        excess(n) > 0 ==> n / pow2(excess(n)) >= 0x10_0000_0000_0000,
        n < 0x20_0000_0000_0000 ==> excess(n) == 0,
    decreases n,
{
    lemma2_to64();
    if n >= 0x20_0000_0000_0000 {
        let e = excess(n / 2);
        lemma_excess(n / 2);
        lemma_pow2_unfold(e + 1);
        lemma_pow2_pos(e);
        vstd::arithmetic::div_mod::lemma_div_denominator(n as int, 2, pow2(e) as int);
        if e == 0 {
            assert(n / 2 < 0x20_0000_0000_0000);
        }
    }
}

/// A whole number below two to the power of 53 is a double. Any other is off
/// from the double nearest to it by no more than half a unit in the last of 53
/// places.
pub proof fn law_rounding_is_off_by_half_a_unit(n: nat)
    ensures
        n < 0x20_0000_0000_0000 ==> nearest_double(n) == n,
        0x20_0000_0000_0000 * (nearest_double(n) - n) <= n,
        0x20_0000_0000_0000 * (n - nearest_double(n)) <= n,
{
    lemma2_to64();
    lemma_excess(n);
    lemma_pow2_pos(excess(n));
    let unit = pow2(excess(n)) as int;
    let kept = n as int / unit;
    let dropped = n as int % unit;
    vstd::arithmetic::div_mod::lemma_fundamental_div_mod(n as int, unit);
    assert(n == kept * unit + dropped) by (nonlinear_arith)
        requires
            n == unit * kept + dropped,
    ;
    assert((kept + 1) * unit == kept * unit + unit) by (nonlinear_arith);
    if excess(n) == 0 {
        assert(n as int % 1 == 0);
        assert(n as int / 1 == n);
    } else {
        assert(0x10_0000_0000_0000 * unit <= n) by (nonlinear_arith)
            requires
                kept >= 0x10_0000_0000_0000,
                n == kept * unit + dropped,
                dropped >= 0,
                unit > 0,
        ;
    }
}

/// The probability that a pattern stands for: a larger pattern stands for a
/// larger number, and the pattern of one for one.
pub proof fn law_larger_patterns_are_larger_numbers(p: u64, q: u64)
    requires
        p < q <= ONE_BITS,
    ensures
        significand(p) * pow2(scale(q)) < significand(q) * pow2(scale(p)),
        significand(ONE_BITS) == pow2(scale(ONE_BITS)),
{
    lemma2_to64();
    lemma2_to64_rest();
    let (a, b) = (scale(p), scale(q));
    lemma_pow2_pos(a);
    lemma_pow2_pos(b);
    let (x, y) = (significand(p) as int, significand(q) as int);
    if a == b {
        assert(x < y);
        assert(x * pow2(b) < y * pow2(a)) by (nonlinear_arith)
            requires
                x < y,
                pow2(a) == pow2(b),
                pow2(a) > 0,
        ;
    } else {
        assert(b < a);
        assert(x < 0x20_0000_0000_0000);
        assert(y >= 0x10_0000_0000_0000);
        lemma_pow2_adds(b, (a - b) as nat);
        lemma_pow2_unfold((a - b) as nat);
        let d = pow2((a - b) as nat) as int;
        let h = pow2((a - b - 1) as nat) as int;
        lemma_pow2_pos((a - b - 1) as nat);
        assert(x < y * d) by (nonlinear_arith)
            requires
                x < 0x20_0000_0000_0000,
                y >= 0x10_0000_0000_0000,
                d == 2 * h,
                h >= 1,
        ;
        assert(x * pow2(b) < y * pow2(a)) by (nonlinear_arith)
            requires
                x < y * d,
                pow2(a) == pow2(b) * d,
                pow2(b) > 0,
        ;
    }
}

/// Of the draws that choose from [`LOSS_SCALE`] outcomes, the losing ones are as
/// many as the probability times the scale, rounded to a double and then down.
pub proof fn law_losing_draws_are_the_rounded_product(bits: u64) -> (product: nat)
    ensures
        ({
            let exact = significand(bits) * 1_000_000_000;
            &&& 0x20_0000_0000_0000 * (product - exact) <= exact
            &&& 0x20_0000_0000_0000 * (exact - product) <= exact
            &&& loss_limit(bits) * pow2(scale(bits)) <= product
            &&& product < (loss_limit(bits) + 1) * pow2(scale(bits))
        }),
{
    let exact = significand(bits) * 1_000_000_000;
    let product = nearest_double(exact);
    law_rounding_is_off_by_half_a_unit(exact);
    let unit = pow2(scale(bits)) as int;
    lemma_pow2_pos(scale(bits));
    let limit = loss_limit(bits) as int;
    vstd::arithmetic::div_mod::lemma_fundamental_div_mod(product as int, unit);
    assert(limit * unit <= product < (limit + 1) * unit) by (nonlinear_arith)
        requires
            product == unit * limit + product as int % unit,
            0 <= product as int % unit < unit,
    ;
    product
}

/// A word hits a probability exactly when, as a double, it is a smaller part of
/// the word range: so where a word hits, every smaller word that a double holds
/// does, and so does the word for every larger probability.
pub proof fn law_smaller_words_hit_too(p: u64, q: u64, word: u64, other: u64)
    requires
        p <= q <= ONE_BITS,
        other <= word < 0x20_0000_0000_0000,
        chance_hit(p, word),
    ensures
        chance_hit(q, other),
        word * pow2(scale(p)) < significand(p) * pow2(64),
{
    law_rounding_is_off_by_half_a_unit(word as nat);
    law_rounding_is_off_by_half_a_unit(other as nat);
    let (a, b) = (pow2(scale(p)) as int, pow2(scale(q)) as int);
    lemma_pow2_pos(scale(p));
    lemma_pow2_pos(scale(q));
    let (x, y) = (significand(p) as int, significand(q) as int);
    let w = pow2(64) as int;
    lemma_pow2_pos(64);
    assert(x * b <= y * a) by {
        if p < q {
            law_larger_patterns_are_larger_numbers(p, q);
        }
    }
    let (m, n) = (other as int, word as int);
    assert(m * b < y * w) by (nonlinear_arith)
        requires
            0 <= m <= n,
            n * a < x * w,
            x * b <= y * a,
            a > 0,
            b > 0,
            w > 0,
    {
        assert(n * a * b < x * w * b);
        assert(x * w * b <= y * w * a);
        assert(m * a * b <= n * a * b);
        assert((m * b) * a < (y * w) * a);
    }
}

} // verus!
