//! Deterministic retry delays.

use core::time::Duration;
use vstd::arithmetic::power2::{lemma2_to64, lemma2_to64_rest, lemma_pow2_strictly_increases, pow2};
use vstd::prelude::*;

verus! {

/// The length of a duration in nanoseconds: what `Duration::as_nanos` returns.
pub uninterp spec fn duration_nanos(d: Duration) -> u128;

/// Trusted: `Duration::as_nanos` returns the total number of nanoseconds that
/// the duration holds, and nothing else.
pub assume_specification[ Duration::as_nanos ](d: &Duration) -> (nanos: u128)
    ensures
        nanos == duration_nanos(*d),
;

/// Trusted: `Duration::new` builds the duration of that many whole seconds and
/// that many nanoseconds, provided the nanoseconds make no further second.
pub assume_specification[ Duration::new ](secs: u64, nanos: u32) -> (d: Duration)
    requires
        nanos < 1_000_000_000,
    ensures
        duration_nanos(d) == secs * 1_000_000_000 + nanos,
;

/// The lesser of two numbers.
pub open spec fn least(a: nat, b: nat) -> nat {
    if a <= b {
        a
    } else {
        b
    }
}

/// Whole microseconds of a duration, held to 64 bits.
pub open spec fn ticks_of(d: Duration) -> nat {
    least(duration_nanos(d) as nat / 1000, u64::MAX as nat)
}

/// Ticks of the delay before retry number `retry`: `base * 2^retry`, and at
/// most `max`.
pub open spec fn backoff_ticks(base: nat, retry: u32, max: nat) -> nat {
    least(base * pow2(retry as nat), max)
}

/// Whole microseconds of a duration, held to 64 bits.
pub fn whole_micros(d: Duration) -> (ticks: u64)
    ensures
        ticks == ticks_of(d),
{
    let micros: u128 = d.as_nanos() / 1000;
    if micros > u64::MAX as u128 {
        u64::MAX
    } else {
        micros as u64
    }
}

/// The duration of that many microseconds.
pub fn from_micros(ticks: u64) -> (d: Duration)
    ensures
        duration_nanos(d) == ticks * 1000,
{
    let secs: u64 = ticks / 1_000_000;
    let rest: u64 = ticks % 1_000_000;
    Duration::new(secs, (rest * 1000) as u32)
}

/// From the 64th doubling on, no delay fits 64 bits.
proof fn lemma_far_retry(base: nat, retry: nat)
    requires
        base > 0,
        retry >= 64,
    ensures
        base * pow2(retry) > u64::MAX,
{
    lemma2_to64();
    lemma2_to64_rest();
    if retry > 64 {
        lemma_pow2_strictly_increases(64, retry);
    }
    assert(base * pow2(retry) >= pow2(retry)) by (nonlinear_arith)
        requires
            base >= 1,
    ;
}

/// Double `base` `retry` times, holding the product to 64 bits.
fn doubled(base: u64, retry: u32) -> (ticks: u64)
    ensures
        ticks == least((base as nat) * pow2(retry as nat), u64::MAX as nat),
{
    if base == 0 {
        return 0;
    }
    if retry >= 64 {
        proof {
            lemma_far_retry(base as nat, retry as nat);
        }
        return u64::MAX;
    }
    let mut ticks: u64 = base;
    let mut i: u32 = 0;
    proof {
        lemma2_to64();
    }
    while i < retry
        invariant
            i <= retry < 64,
            ticks == least((base as nat) * pow2(i as nat), u64::MAX as nat),
        decreases retry - i,
    {
        proof {
            vstd::arithmetic::power2::lemma_pow2_unfold((i + 1) as nat);
            let p: int = pow2(i as nat) as int;
            let b: int = base as int;
            assert(b * (2 * p) == 2 * (b * p)) by (nonlinear_arith);
        }
        if ticks > u64::MAX / 2 {
            ticks = u64::MAX;
        } else {
            ticks = ticks * 2;
        }
        i = i + 1;
    }
    ticks
}

/// Deterministic exponential backoff delay for retry attempt `retry`.
///
/// The delay is `base * 2^retry` in microseconds, capped at `max_delay`. The
/// sequence is purely arithmetic: it draws nothing and needs no RNG, so
/// identical inputs always produce identical delays.
pub fn backoff(base: Duration, retry: u32, max_delay: Duration) -> (delay: Duration)
    ensures
        duration_nanos(delay) == backoff_ticks(ticks_of(base), retry, ticks_of(max_delay)) * 1000,
{
    let base_ticks: u64 = whole_micros(base);
    let max_ticks: u64 = whole_micros(max_delay);
    let ticks: u64 = doubled(base_ticks, retry);
    from_micros(if ticks < max_ticks {
        ticks
    } else {
        max_ticks
    })
}

/// Nanoseconds of a jittered delay, given the raw draw.
pub open spec fn jittered_nanos(delay: nat, max_nanos: nat, word: u64) -> nat {
    let span = if delay == 0 {
        1
    } else {
        delay
    };
    least((delay + word as nat % span) * 1000, max_nanos)
}

/// Deterministic exponential backoff with jitter from one raw draw of a seeded
/// stream.
///
/// Computes [`backoff`] for the attempt, then adds `word` reduced to
/// `[0, delay)`, clamping the total to `max_delay`. A word of zero gives the
/// unjittered delay.
pub fn backoff_jittered(base: Duration, retry: u32, max_delay: Duration, word: u64) -> (delay:
    Duration)
    ensures
        duration_nanos(delay) == jittered_nanos(
            backoff_ticks(ticks_of(base), retry, ticks_of(max_delay)),
            duration_nanos(max_delay) as nat,
            word,
        ),
{
    let plain: Duration = backoff(base, retry, max_delay);
    let ticks: u64 = whole_micros(plain);
    assert(ticks == backoff_ticks(ticks_of(base), retry, ticks_of(max_delay)));
    let span: u64 = if ticks == 0 {
        1
    } else {
        ticks
    };
    let total: u128 = (ticks as u128 + (word % span) as u128) * 1000;
    if total > max_delay.as_nanos() {
        max_delay
    } else {
        Duration::new((total / 1_000_000_000) as u64, (total % 1_000_000_000) as u32)
    }
}

/// The delay never exceeds the cap and never shrinks from one retry to the
/// next.
pub proof fn law_backoff_grows_to_its_cap(base: nat, retry: u32, later: u32, max: nat)
    requires
        retry <= later,
    ensures
        backoff_ticks(base, retry, max) <= max,
        backoff_ticks(base, retry, max) <= backoff_ticks(base, later, max),
{
    let a = retry as nat;
    let b = later as nat;
    if a < b {
        lemma_pow2_strictly_increases(a, b);
    }
    assert(base * pow2(a) <= base * pow2(b)) by (nonlinear_arith)
        requires
            pow2(a) <= pow2(b),
            0 <= base,
    ;
}

/// A word of zero leaves the delay as it is, and no word takes it below the
/// plain delay or above the cap.
pub proof fn law_jitter_stays_between_delay_and_cap(delay: nat, max_nanos: nat, word: u64)
    requires
        delay * 1000 <= max_nanos,
    ensures
        jittered_nanos(delay, max_nanos, 0) == delay * 1000,
        delay * 1000 <= jittered_nanos(delay, max_nanos, word) <= max_nanos,
{
}

/// The first delay is the base, and each retry doubles the delay of the one
/// before it, up to the cap.
pub proof fn law_each_retry_doubles_the_delay(base: nat, retry: u32, max: nat)
    requires
        retry < u32::MAX,
    ensures
        backoff_ticks(base, 0, max) == if base < max {
            base
        } else {
            max
        },
        ({
            let delay = backoff_ticks(base, retry, max);
            backoff_ticks(base, (retry + 1) as u32, max) == if 2 * delay < max {
                2 * delay
            } else {
                max
            }
        }),
{
    lemma2_to64();
    vstd::arithmetic::power2::lemma_pow2_unfold((retry + 1) as nat);
    let p = pow2(retry as nat) as int;
    assert(base * 1 == base);
    assert(base * (2 * p) == 2 * (base * p)) by (nonlinear_arith);
}

/// The ticks of a duration are its whole microseconds, and no duration has more
/// ticks than a word holds.
pub proof fn law_ticks_are_whole_microseconds(d: Duration)
    ensures
        ticks_of(d) * 1000 <= duration_nanos(d),
        ticks_of(d) < u64::MAX ==> duration_nanos(d) < (ticks_of(d) + 1) * 1000,
        ticks_of(d) <= u64::MAX,
{
}

/// Jitter adds what is left of the word after whole delays are taken from it, in
/// microseconds, and the sum is held to the cap.
pub proof fn law_jitter_is_the_word_reduced_to_the_delay(
    delay: nat,
    max_nanos: nat,
    word: u64,
    whole: nat,
    rest: nat,
)
    requires
        delay > 0,
        rest < delay,
        word == whole * delay + rest,
    ensures
        jittered_nanos(delay, max_nanos, word) == if (delay + rest) * 1000 < max_nanos {
            (delay + rest) * 1000
        } else {
            max_nanos
        },
        jittered_nanos(0, max_nanos, word) == 0,
{
    vstd::arithmetic::div_mod::lemma_fundamental_div_mod_converse(
        word as int,
        delay as int,
        whole as int,
        rest as int,
    );
}

} // verus!
