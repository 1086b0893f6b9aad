//! Exponential backoff between retries of a request that met a server error.

use vstd::prelude::*;

verus! {

/// Nanoseconds in one second.
pub const NANOS_PER_SECOND: u64 = 1_000_000_000;

/// Wait before the first retry under the default policy: ten seconds.
pub const DEFAULT_INITIAL_NANOS: u64 = 10_000_000_000;

/// `start` multiplied `steps` times by `num / den`, each product rounded down.
pub open spec fn grown(start: nat, num: nat, den: nat, steps: nat) -> nat
    decreases steps,
{
    if steps == 0 {
        start
    } else {
        grown(start, num, den, (steps - 1) as nat) * num / den
    }
}

/// `base` raised to the power `exp`.
pub open spec fn power(base: nat, exp: nat) -> nat
    decreases exp,
{
    if exp == 0 {
        1
    } else {
        base * power(base, (exp - 1) as nat)
    }
}

/// The configuration of a backoff policy, as plain numbers.
pub struct PolicyView {
    /// Wait before the first retry, in nanoseconds (the constant `C`).
    pub initial: nat,
    /// Numerator of the growth base `B`.
    pub num: nat,
    /// Denominator of the growth base `B`.
    pub den: nat,
    /// How many factors of `B` each further retry adds (the exponent step `E`).
    pub step: nat,
    /// Largest number of retries after server errors; `None` retries without end.
    pub max_retries: Option<nat>,
    /// Largest extra wait added at random to a backoff, in nanoseconds.
    pub max_jitter: nat,
}

impl PolicyView {
    /// The wait before retry `attempt` (zero-based): `C * B^(E * attempt)`,
    /// each factor of `B` applied to the nanosecond count rounded down, and
    /// capped at the largest `u64`.
    pub open spec fn delay(self, attempt: nat) -> nat {
        let g = grown(self.initial, self.num, self.den, self.step * attempt);
        if g > u64::MAX {
            u64::MAX as nat
        } else {
            g
        }
    }

    /// The extra wait that a random draw `draw` adds.
    pub open spec fn jitter(self, draw: nat) -> nat {
        draw % (self.max_jitter + 1)
    }

    /// The full wait before retry `attempt` with random draw `draw`, capped
    /// at the largest `u64`.
    pub open spec fn wait(self, attempt: nat, draw: nat) -> nat {
        let w = self.delay(attempt) + self.jitter(draw);
        if w > u64::MAX {
            u64::MAX as nat
        } else {
            w
        }
    }

    /// Whether no retry is left after `attempt` retries.
    pub open spec fn exhausted(self, attempt: nat) -> bool {
        match self.max_retries {
            Some(m) => attempt >= m,
            None => false,
        }
    }

    /// Whether each retry waits strictly longer than the one before, until the cap.
    pub open spec fn growing(self) -> bool {
        &&& self.den >= 1
        &&& self.num > self.den
        &&& self.step >= 1
        &&& self.initial >= self.den
    }

    /// The documented defaults: `C = 10 s`, `B = 3/2`, `E = 1`, no retry
    /// ceiling and no jitter.
    pub open spec fn documented() -> PolicyView {
        PolicyView {
            initial: DEFAULT_INITIAL_NANOS as nat,
            num: 3,
            den: 2,
            step: 1,
            max_retries: None,
            max_jitter: 0,
        }
    }
}

/// How long to wait before each retry of a request that met a server error.
pub struct BackoffPolicy {
    initial_nanos: u64,
    growth_num: u64,
    growth_den: u64,
    exponent_step: u64,
    max_retries: Option<u64>,
    max_jitter_nanos: u64,
}

impl View for BackoffPolicy {
    type V = PolicyView;

    closed spec fn view(&self) -> PolicyView {
        PolicyView {
            initial: self.initial_nanos as nat,
            num: self.growth_num as nat,
            den: self.growth_den as nat,
            step: self.exponent_step as nat,
            max_retries: match self.max_retries {
                Some(m) => Some(m as nat),
                None => None,
            },
            max_jitter: self.max_jitter_nanos as nat,
        }
    }
}

impl BackoffPolicy {
    #[verifier::type_invariant]
    closed spec fn has_divisor(self) -> bool {
        self.growth_den > 0
    }

    /// A policy waiting `initial_nanos * (growth_num / growth_den)^(exponent_step * k)`
    /// before retry `k`; `None` when `growth_den` is zero.
    pub fn new(
        initial_nanos: u64,
        growth_num: u64,
        growth_den: u64,
        exponent_step: u64,
        max_retries: Option<u64>,
        max_jitter_nanos: u64,
    ) -> (r: Option<BackoffPolicy>)
        ensures
            r is None <==> growth_den == 0,
            r matches Some(p) ==> p@ == (PolicyView {
                initial: initial_nanos as nat,
                num: growth_num as nat,
                den: growth_den as nat,
                step: exponent_step as nat,
                max_retries: match max_retries {
                    Some(m) => Some(m as nat),
                    None => None,
                },
                max_jitter: max_jitter_nanos as nat,
            }),
    {
        if growth_den == 0 {
            None
        } else {
            Some(
                BackoffPolicy {
                    initial_nanos,
                    growth_num,
                    growth_den,
                    exponent_step,
                    max_retries,
                    max_jitter_nanos,
                },
            )
        }
    }

    /// The largest number of retries after server errors, if any.
    pub fn max_retries(&self) -> (r: Option<u64>)
        ensures
            match r {
                Some(m) => self@.max_retries == Some(m as nat),
                None => self@.max_retries is None,
            },
    {
        self.max_retries
    }

    /// The wait before retry `attempt` (zero-based), in nanoseconds. Stops
    /// early once the wait reaches the cap or stops changing.
    pub fn delay(&self, attempt: u64) -> (r: u64)
        ensures
            r == self@.delay(attempt as nat),
    {
        proof {
            use_type_invariant(self);
        }
        let num = self.growth_num as u128;
        let den = self.growth_den as u128;
        let e = self.exponent_step as u128;
        let k = attempt as u128;
        assert(e * k <= u64::MAX * u64::MAX) by (nonlinear_arith)
            requires
                e <= u64::MAX,
                k <= u64::MAX,
        ;
        let steps: u128 = e * k;
        let ghost start = self.initial_nanos as nat;
        let mut x: u128 = self.initial_nanos as u128;
        let mut i: u128 = 0;
        while i < steps
            invariant
                0 <= i <= steps,
                steps == self@.step * attempt,
                num == self@.num,
                den == self@.den,
                den > 0,
                start == self@.initial,
                x == grown(start, num as nat, den as nat, i as nat),
                x <= u64::MAX,
            decreases steps - i,
        {
            let ghost before = x as nat;
            let prev: u128 = x;
            assert(x * num <= u64::MAX * u64::MAX) by (nonlinear_arith)
                requires
                    x <= u64::MAX,
                    num <= u64::MAX,
            ;
            x = x * num / den;
            i = i + 1;
            if x == prev {
                // a fixed point: every further step gives the same value
                proof {
                    lemma_grown_fixed(start, num as nat, den as nat, (i - 1) as nat, steps as nat);
                }
                return x as u64;
            }
            if x > u64::MAX as u128 {
                proof {
                    if num < den {
                        lemma_scale_down(before, num as nat, den as nat);
                    }
                    lemma_grown_monotone(start, num as nat, den as nat, i as nat, steps as nat);
                }
                return u64::MAX;
            }
        }
        x as u64
    }

    /// The full wait before retry `attempt`, adding the jitter that the random
    /// number `draw` selects.
    pub fn wait(&self, attempt: u64, draw: u64) -> (r: u64)
        ensures
            r == self@.wait(attempt as nat, draw as nat),
    {
        let d = self.delay(attempt);
        let extra: u64 = if self.max_jitter_nanos == u64::MAX {
            proof {
                vstd::arithmetic::div_mod::lemma_small_mod(draw as nat, (self.max_jitter_nanos + 1) as nat);
            }
            draw
        } else {
            draw % (self.max_jitter_nanos + 1)
        };
        d.saturating_add(extra)
    }
}

impl Default for BackoffPolicy {
    /// The documented policy: ten seconds, growing by half at each retry.
    fn default() -> (r: BackoffPolicy)
        ensures
            r@ == PolicyView::documented(),
    {
        BackoffPolicy {
            initial_nanos: DEFAULT_INITIAL_NANOS,
            growth_num: 3,
            growth_den: 2,
            exponent_step: 1,
            max_retries: None,
            max_jitter_nanos: 0,
        }
    }
}

/// Each exponent step lengthens a wait of at least `den` nanoseconds.
proof fn lemma_scale_strict(x: nat, num: nat, den: nat)
    requires
        den > 0,
        num > den,
        x >= den,
    ensures
        x * num / den > x,
{
    assert(x * num >= x * den + den) by (nonlinear_arith)
        requires
            num >= den + 1,
            x >= den,
    ;
    assert((x * den + den) / den == x + 1) by (nonlinear_arith)
        requires
            den > 0,
    ;
    lemma_div_monotone(x * den + den, x * num, den);
}

/// With a growth ratio above one and a start of at least `den`, every
/// further step gives strictly more.
pub proof fn lemma_grown_strict(start: nat, num: nat, den: nat, i: nat, n: nat)
    requires
        den > 0,
        num > den,
        start >= den,
        i < n,
    ensures
        grown(start, num, den, i) < grown(start, num, den, n),
    decreases n - i,
{
    let prev = grown(start, num, den, (n - 1) as nat);
    lemma_grown_monotone(start, num, den, 0, (n - 1) as nat);
    lemma_scale_strict(prev, num, den);
    if i < n - 1 {
        lemma_grown_strict(start, num, den, i, (n - 1) as nat);
    }
}

/// Backoff grows strictly with the attempt number: a retry that is not yet
/// at the cap waits longer than the retry before it.
pub proof fn lemma_backoff_increasing(p: PolicyView, k: nat)
    requires
        p.growing(),
        p.delay(k + 1) < u64::MAX,
    ensures
        p.delay(k) < p.delay(k + 1),
{
    assert(p.step * k < p.step * (k + 1)) by (nonlinear_arith)
        requires
            p.step >= 1,
    ;
    lemma_grown_strict(p.initial, p.num, p.den, p.step * k, p.step * (k + 1));
}

/// How far the rounded-down growth stays from the exact product
/// `start * (num / den)^steps`: never above it, and below it by less than
/// `(den - 1) * ((num / den)^steps - 1) / (num - den)` after clearing
/// denominators.
pub proof fn lemma_grown_precision(start: nat, num: nat, den: nat, steps: nat)
    requires
        den > 0,
        num >= den,
    ensures
        grown(start, num, den, steps) * power(den, steps) <= start * power(num, steps),
        (start * power(num, steps) - grown(start, num, den, steps) * power(den, steps)) * (num
            - den) <= (den - 1) * (power(num, steps) - power(den, steps)),
    decreases steps,
{
    if steps > 0 {
        let j = (steps - 1) as nat;
        lemma_grown_precision(start, num, den, j);
        let g = grown(start, num, den, j);
        let g2 = grown(start, num, den, steps);
        let p = power(num, j);
        let q = power(den, j);
        assert(g2 == g * num / den);
        assert(g2 * den <= g * num && g * num <= g2 * den + den - 1) by (nonlinear_arith)
            requires
                g2 == g * num / den,
                den > 0,
        ;
        let a = start * p - g * q;
        assert(g2 * (den * q) <= start * (num * p)) by (nonlinear_arith)
            requires
                g * q <= start * p,
                g2 * den <= g * num,
                q >= 0,
                num >= 0,
        ;
        assert(start * (num * p) - g2 * (den * q) <= num * a + (den - 1) * q) by (nonlinear_arith)
            requires
                a == start * p - g * q,
                g * num <= g2 * den + den - 1,
                q >= 0,
        ;
        assert((num * a + (den - 1) * q) * (num - den) <= (den - 1) * (num * p - den * q))
            by (nonlinear_arith)
            requires
                a * (num - den) <= (den - 1) * (p - q),
                num >= den,
                den >= 1,
        ;
        assert((start * (num * p) - g2 * (den * q)) * (num - den) <= (num * a + (den - 1) * q) * (
        num - den)) by (nonlinear_arith)
            requires
                start * (num * p) - g2 * (den * q) <= num * a + (den - 1) * q,
                num >= den,
        ;
        assert(power(num, steps) == num * p);
        assert(power(den, steps) == den * q);
    } else {
        assert(power(num, 0) == 1 && power(den, 0) == 1);
        assert(grown(start, num, den, 0) == start);
    }
}

/// Under the documented policy the waits before the first three retries are
/// exactly 10 s, 15 s and 22.5 s, and every uncapped wait `d` before retry
/// `k` satisfies `d <= 10 s * 1.5^k < d + 1.5^k ns`: it is `10 * 1.5^k`
/// seconds rounded down, off by less than one part in ten billion.
pub proof fn lemma_documented_delays(k: nat)
    ensures
        PolicyView::documented().delay(0) == 10_000_000_000,
        PolicyView::documented().delay(1) == 15_000_000_000,
        PolicyView::documented().delay(2) == 22_500_000_000,
        PolicyView::documented().delay(k) < u64::MAX ==> {
            let d = PolicyView::documented().delay(k);
            &&& d * power(2, k) <= DEFAULT_INITIAL_NANOS * power(3, k)
            &&& DEFAULT_INITIAL_NANOS * power(3, k) - d * power(2, k) <= power(3, k) - power(2, k)
        },
{
    let p = PolicyView::documented();
    reveal_with_fuel(grown, 3);
    assert(p.step * k == k);
    lemma_grown_precision(p.initial, 3, 2, k);
}

/// Once a step leaves the value unchanged, so does every later step.
proof fn lemma_grown_fixed(start: nat, num: nat, den: nat, i: nat, n: nat)
    requires
        i < n,
        grown(start, num, den, i + 1) == grown(start, num, den, i),
    ensures
        grown(start, num, den, n) == grown(start, num, den, i),
    decreases n - i,
{
    if i + 1 < n {
        lemma_grown_fixed(start, num, den, i, (n - 1) as nat);
    }
}

/// Scaling by a ratio of at most one does not increase a number.
proof fn lemma_scale_down(x: nat, num: nat, den: nat)
    requires
        den > 0,
        num <= den,
    ensures
        x * num / den <= x,
{
    assert(x * num <= x * den) by (nonlinear_arith)
        requires
            num <= den,
    ;
    assert(x * den / den == x) by (nonlinear_arith)
        requires
            den > 0,
    ;
    lemma_div_monotone(x * num, x * den, den);
}

/// Scaling by a ratio of at least one does not decrease a number.
proof fn lemma_scale_up(x: nat, num: nat, den: nat)
    requires
        den > 0,
        num >= den,
    ensures
        x * num / den >= x,
{
    assert(x * num >= x * den) by (nonlinear_arith)
        requires
            num >= den,
    ;
    assert(x * den / den == x) by (nonlinear_arith)
        requires
            den > 0,
    ;
    lemma_div_monotone(x * den, x * num, den);
}

proof fn lemma_div_monotone(a: nat, b: nat, d: nat)
    requires
        d > 0,
        a <= b,
    ensures
        a / d <= b / d,
{
    vstd::arithmetic::div_mod::lemma_div_is_ordered(a as int, b as int, d as int);
}

/// With a growth ratio of at least one, more steps never give less.
pub proof fn lemma_grown_monotone(start: nat, num: nat, den: nat, i: nat, n: nat)
    requires
        den > 0,
        num >= den,
        i <= n,
    ensures
        grown(start, num, den, i) <= grown(start, num, den, n),
    decreases n - i,
{
    if i < n {
        lemma_grown_monotone(start, num, den, i, (n - 1) as nat);
        lemma_scale_up(grown(start, num, den, (n - 1) as nat), num, den);
    }
}

} // verus!
