//! When to try again: the time between attempts grows, with a random part so that nodes do not
//! all try at once.
use vstd::prelude::*;
use crate::bytes::{be_value, lemma_be_value_bound, lemma_range_grows, lemma_ranges};
use crate::crypto::{draw_bytes, generator_failed, generator_gave, random_error_text};
use crate::CoreError;

verus! {

#[derive(Debug, Clone, Copy)]
pub struct RetryPolicy {
    /// Attempts in all, the first one included.
    pub max_attempts: u32,
    pub base_delay_ms: u64,
    pub max_delay_ms: u64,
}

/// `base` doubled `n` times.
pub open spec fn doubled(base: nat, n: nat) -> nat
    decreases n,
{
    if n == 0 {
        base
    } else {
        2 * doubled(base, (n - 1) as nat)
    }
}

/// Doubling never makes smaller, and nothing doubled stays nothing.
proof fn lemma_doubled_grows(base: nat, a: nat, b: nat)
    requires
        a <= b,
    ensures
        base <= doubled(base, a) <= doubled(base, b),
        base == 0 ==> doubled(base, b) == 0,
    decreases b,
{
    if a < b {
        lemma_doubled_grows(base, a, (b - 1) as nat);
    } else if a > 0 {
        lemma_doubled_grows(base, (a - 1) as nat, (b - 1) as nat);
    }
}

impl RetryPolicy {
    /// Another attempt follows the failure of this one.
    pub open spec fn goes_on(self, attempt: u32) -> bool {
        1 <= attempt < self.max_attempts
    }

    /// Longest delay after a failed attempt: the base doubled for every attempt before, within
    /// the maximum, and never below the base.
    pub open spec fn longest_delay(self, attempt: u32) -> nat {
        let steps = if attempt - 1 > 20 {
            20nat
        } else {
            (attempt - 1) as nat
        };
        let grown = doubled(self.base_delay_ms as nat, steps);
        let capped = if grown > self.max_delay_ms {
            self.max_delay_ms as nat
        } else {
            grown
        };
        if capped < self.base_delay_ms {
            self.base_delay_ms as nat
        } else {
            capped
        }
    }

    /// The delay that a random number stands for.
    pub open spec fn delay(self, attempt: u32, random: nat) -> nat {
        self.base_delay_ms as nat + random % (self.longest_delay(attempt) - self.base_delay_ms
            + 1) as nat
    }

    /// A delay after a failed attempt is the one for a number that the operating system's generator
    /// gave.
    pub open spec fn is_drawn(self, attempt: u32, delay: u64) -> bool {
        exists|bytes: Seq<u8>| #[trigger]
            generator_gave(8, bytes) && delay == self.delay(attempt, be_value(bytes))
    }

    /// Why no delay follows an attempt.
    pub open spec fn refusal(attempt: u32) -> Seq<char> {
        if attempt == 0 {
            "attempt starts at 1"@
        } else {
            "attempts exhausted, no next delay"@
        }
    }

    /// Longest delay after a failed attempt.
    fn cap_ms(&self, attempt: u32) -> (r: u64)
        requires
            attempt >= 1,
        ensures
            r == self.longest_delay(attempt),
            self.base_delay_ms <= r,
            r < u64::MAX || self.base_delay_ms > 0,
    {
        let steps: u32 = if attempt - 1 > 20 {
            20
        } else {
            attempt - 1
        };
        let most: u128 = self.max_delay_ms as u128;
        let mut grown: u128 = self.base_delay_ms as u128;
        let mut i: u32 = 0;
        while i < steps && grown <= most
            invariant
                i <= steps,
                most == self.max_delay_ms,
                grown == doubled(self.base_delay_ms as nat, i as nat),
                grown <= 2 * 0xffff_ffff_ffff_ffff,
            decreases steps - i,
        {
            grown = 2 * grown;
            i = i + 1;
        }
        proof {
            lemma_doubled_grows(self.base_delay_ms as nat, i as nat, steps as nat);
            lemma_doubled_grows(self.base_delay_ms as nat, 0, steps as nat);
        }
        let capped: u64 = if grown > self.max_delay_ms as u128 {
            self.max_delay_ms
        } else {
            grown as u64
        };
        if capped < self.base_delay_ms {
            self.base_delay_ms
        } else {
            capped
        }
    }

    /// The delay after a failed attempt, for a given random number.
    pub fn delay_with(&self, attempt: u32, random: u64) -> (r: Result<u64, CoreError>)
        ensures
            match r {
                Ok(d) => self.goes_on(attempt) && d == self.delay(attempt, random as nat)
                    && self.base_delay_ms <= d <= self.longest_delay(attempt),
                Err(e) => !self.goes_on(attempt) && e is Config && e.text() == Self::refusal(attempt),
            },
    {
        if attempt == 0 {
            return Err(CoreError::Config("attempt starts at 1".to_owned()));
        }
        if attempt >= self.max_attempts {
            return Err(CoreError::Config("attempts exhausted, no next delay".to_owned()));
        }
        let cap: u64 = self.cap_ms(attempt);
        let span: u64 = cap - self.base_delay_ms + 1;
        Ok(self.base_delay_ms + random % span)
    }

    /// The delay after a failed attempt, chosen at random between the base and the longest delay.
    pub fn next_delay_ms(&self, attempt: u32) -> (r: Result<u64, CoreError>)
        ensures
            match r {
                Ok(d) => self.goes_on(attempt) && self.is_drawn(attempt, d) && self.base_delay_ms
                    <= d <= self.longest_delay(attempt),
                Err(e) => if self.goes_on(attempt) {
                    generator_failed(8) && e is Entropy
                } else {
                    e is Config && e.text() == Self::refusal(attempt)
                },
            },
    {
        if attempt == 0 || attempt >= self.max_attempts {
            return self.delay_with(attempt, 0);
        }
        match draw_bytes(8) {
            Ok(v) => {
                let random: u64 = read_be64(v.as_slice());
                self.delay_with(attempt, random)
            },
            Err(e) => Err(CoreError::Entropy(random_error_text(&e))),
        }
    }

    /// Whether no attempt is left.
    pub fn exhausted(&self, attempts: u32) -> (r: bool)
        ensures
            r == (attempts >= self.max_attempts),
    {
        attempts >= self.max_attempts
    }
}

impl Default for RetryPolicy {
    /// Eight attempts, two seconds at first, a quarter of an hour at most.
    fn default() -> (r: RetryPolicy)
        ensures
            r == (RetryPolicy { max_attempts: 8, base_delay_ms: 2_000, max_delay_ms: 900_000 }),
    {
        RetryPolicy { max_attempts: 8, base_delay_ms: 2_000, max_delay_ms: 900_000 }
    }
}

/// The number in eight bytes, most significant first.
fn read_be64(s: &[u8]) -> (r: u64)
    requires
        s@.len() == 8,
    ensures
        r == be_value(s@),
{
    let mut x: u64 = 0;
    let mut i: usize = 0;
    while i < 8
        invariant
            i <= 8,
            s@.len() == 8,
            x == be_value(s@.take(i as int)),
        decreases 8 - i,
    {
        proof {
            let t = s@.take(i + 1);
            assert(t.drop_last() =~= s@.take(i as int));
            assert(t.last() == s@[i as int]);
            lemma_be_value_bound(t);
            lemma_range_grows(t.len(), 8);
            lemma_ranges();
        }
        x = x * 256 + s[i] as u64;
        i = i + 1;
    }
    assert(s@.take(8) =~= s@);
    x
}

/// A delay lies between the base and the longest one for its attempt, and that one within the
/// maximum, if the maximum is no less than the base.
pub proof fn law_delay_in_bounds(p: RetryPolicy, attempt: u32, random: nat)
    requires
        attempt >= 1,
        p.base_delay_ms <= p.max_delay_ms,
    ensures
        p.base_delay_ms <= p.delay(attempt, random) <= p.longest_delay(attempt) <= p.max_delay_ms,
{
    let steps = if attempt - 1 > 20 {
        20nat
    } else {
        (attempt - 1) as nat
    };
    lemma_doubled_grows(p.base_delay_ms as nat, 0, steps);
    let span = (p.longest_delay(attempt) - p.base_delay_ms + 1) as nat;
    assert(random % span < span) by (nonlinear_arith)
        requires
            span >= 1,
    ;
}

/// The longest delay never shrinks from one attempt to a later one.
pub proof fn law_delays_grow(p: RetryPolicy, earlier: u32, later: u32)
    requires
        1 <= earlier <= later,
    ensures
        p.longest_delay(earlier) <= p.longest_delay(later),
{
    let a = if earlier - 1 > 20 {
        20nat
    } else {
        (earlier - 1) as nat
    };
    let b = if later - 1 > 20 {
        20nat
    } else {
        (later - 1) as nat
    };
    lemma_doubled_grows(p.base_delay_ms as nat, a, b);
}

/// Full jitter: every delay between the base and the longest one can come about.
pub proof fn law_every_delay_is_possible(p: RetryPolicy, attempt: u32, delay: nat)
    requires
        attempt >= 1,
        p.base_delay_ms <= delay <= p.longest_delay(attempt),
    ensures
        p.delay(attempt, (delay - p.base_delay_ms) as nat) == delay,
{
    let random = (delay - p.base_delay_ms) as nat;
    let span = (p.longest_delay(attempt) - p.base_delay_ms + 1) as nat;
    assert(random % span == random) by (nonlinear_arith)
        requires
            random < span,
    ;
}

/// The longest delay begins at the base and doubles from attempt to attempt, until it reaches the
/// maximum.
pub proof fn law_longest_delay_doubles(p: RetryPolicy, attempt: u32)
    requires
        p.base_delay_ms <= p.max_delay_ms,
        1 <= attempt <= 20,
    ensures
        p.longest_delay(1) == p.base_delay_ms,
        2 * p.longest_delay(attempt) <= p.max_delay_ms ==> p.longest_delay((attempt + 1) as u32) == 2
            * p.longest_delay(attempt),
        2 * p.longest_delay(attempt) > p.max_delay_ms ==> p.longest_delay((attempt + 1) as u32)
            == p.max_delay_ms,
{
    let base = p.base_delay_ms as nat;
    lemma_doubled_grows(base, 0, (attempt - 1) as nat);
    lemma_doubled_grows(base, (attempt - 1) as nat, attempt as nat);
    assert(doubled(base, attempt as nat) == 2 * doubled(base, (attempt - 1) as nat));
    assert(doubled(base, 0) == base);
}

/// A policy of so many attempts tries a message so often: another attempt follows every failure but the
/// last one.
pub proof fn law_every_attempt_is_made(p: RetryPolicy, attempt: u32)
    ensures
        p.goes_on(attempt) == (1 <= attempt && attempt + 1 <= p.max_attempts),
{
}

/// The random part of a delay is spread evenly: random numbers that follow each other give delays that
/// follow each other, and start again from the base behind the longest one.
pub proof fn law_jitter_is_even(p: RetryPolicy, attempt: u32, random: nat)
    requires
        attempt >= 1,
    ensures
        p.delay(attempt, 0) == p.base_delay_ms,
        p.delay(attempt, random) < p.longest_delay(attempt) ==> p.delay(attempt, random + 1) == p.delay(
            attempt,
            random,
        ) + 1,
        p.delay(attempt, random) >= p.longest_delay(attempt) ==> p.delay(attempt, random + 1)
            == p.base_delay_ms,
{
    let span = (p.longest_delay(attempt) - p.base_delay_ms + 1) as nat;
    assert(0nat % span == 0) by (nonlinear_arith)
        requires
            span >= 1,
    ;
    let k = random % span;
    assert(k < span) by (nonlinear_arith)
        requires
            k == random % span,
            span >= 1,
    ;
    if k + 1 < span {
        assert((random + 1) % span == k + 1) by (nonlinear_arith)
            requires
                k == random % span,
                k + 1 < span,
                span >= 1,
        ;
    } else {
        assert((random + 1) % span == 0) by (nonlinear_arith)
            requires
                k == random % span,
                k + 1 == span,
                span >= 1,
        ;
    }
}

/// From the twenty-first attempt on the longest delay grows no more. Where the base lies above the maximum,
/// it is the base.
pub proof fn law_longest_delay_ends_growing(p: RetryPolicy, attempt: u32)
    ensures
        attempt >= 21 ==> p.longest_delay(attempt) == p.longest_delay(21),
        attempt >= 1 && p.base_delay_ms >= p.max_delay_ms ==> p.longest_delay(attempt) == p.base_delay_ms,
{
}

/// A delay is drawn evenly from the base to the longest: it is the base and the rest of a number of eight
/// random bytes.
pub proof fn law_drawn_delay_is_in_bounds(p: RetryPolicy, attempt: u32, delay: u64)
    requires
        attempt >= 1,
        p.is_drawn(attempt, delay),
    ensures
        p.base_delay_ms <= delay <= p.longest_delay(attempt),
        exists|bytes: Seq<u8>| #[trigger]
            generator_gave(8, bytes) && (be_value(bytes) - (delay - p.base_delay_ms)) % (p.longest_delay(
                attempt,
            ) - p.base_delay_ms + 1) == 0,
{
    let bytes = choose|bytes: Seq<u8>| #[trigger]
        generator_gave(8, bytes) && delay == p.delay(attempt, be_value(bytes));
    assert(generator_gave(8, bytes));
    let n = p.longest_delay(attempt) - p.base_delay_ms + 1;
    let v = be_value(bytes) as int;
    assert(n > 0);
    assert((v - v % n) % n == 0 && 0 <= v % n < n) by (nonlinear_arith)
        requires
            n > 0,
    ;
}

} // verus!
