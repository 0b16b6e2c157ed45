//! How long to wait between attempts.

use vstd::arithmetic::power::{
    lemma0_pow, lemma1_pow, lemma_pow0, lemma_pow1, lemma_pow_adds, lemma_pow_positive, pow,
};
use vstd::prelude::*;

use crate::bignum::scaled;
use crate::ratio::Ratio;
use crate::time::{max_int, min_int, nanos_of, span, Duration};

verus! {

/// How a delay is spread at random.
#[non_exhaustive]
#[derive(Debug, Clone, Copy, PartialEq, Eq, Default, Structural)]
pub enum Jitter {
    /// Not at all.
    Off,
    /// Anywhere from zero to the delay.
    Full,
    /// Anywhere from half the delay to the delay.
    Equal,
    /// Anywhere from the base to three times the delay before.
    #[default]
    Decorrelated,
}

/// How delays grow.
#[derive(Debug, Clone, Copy, PartialEq, Eq, Structural)]
pub enum Kind {
    /// They stay the same.
    Constant,
    /// They grow by the same increment.
    Linear,
    /// They grow by the same factor.
    Exponential,
}

/// A policy for the delays between attempts.
#[derive(Debug, Clone, Copy)]
pub struct Backoff {
    kind: Kind,
    base: Duration,
    factor: Ratio,
    increment: Duration,
    max: Duration,
    jitter: Jitter,
}

/// What a policy says.
pub struct Policy {
    /// How delays grow.
    pub kind: Kind,
    /// The first delay.
    pub base: Duration,
    /// The factor by which delays grow, as a numerator and a denominator.
    pub factor: (nat, nat),
    /// The increment by which delays grow.
    pub increment: Duration,
    /// The longest delay.
    pub max: Duration,
    /// How delays are spread.
    pub jitter: Jitter,
}

/// The nanoseconds that attempt number `attempt`, counted from zero, waits for before anything
/// caps or spreads them.
pub open spec fn raw_delay(policy: Policy, attempt: u32) -> u64 {
    let base = nanos_of(policy.base);
    match policy.kind {
        Kind::Constant => base,
        Kind::Linear => min_int(
            base + min_int(nanos_of(policy.increment) * attempt, u64::MAX as int),
            u64::MAX as int,
        ) as u64,
        Kind::Exponential => scaled(
            base,
            policy.factor.0,
            policy.factor.1,
            min_int(attempt as int, 64) as nat,
        ),
    }
}

/// The state of the generator after one draw.
pub open spec fn advanced(state: u64) -> u64 {
    state.wrapping_add(0x9E37_79B9_7F4A_7C15)
}

/// The number that a state of the generator stands for.
pub open spec fn mixed(state: u64) -> u64 {
    let a = (state ^ (state >> 30)).wrapping_mul(0xBF58_476D_1CE4_E5B9);
    let b = (a ^ (a >> 27)).wrapping_mul(0x94D0_49BB_1331_11EB);
    b ^ (b >> 31)
}

/// A number from `low` to `high` that a state of the generator gives; `low` where there is none.
pub open spec fn drawn(state: u64, low: u64, high: u64) -> u64 {
    if high <= low {
        low
    } else {
        (low + mixed(advanced(state)) as int % (high - low + 1)) as u64
    }
}

/// The state of the generator after a number from `low` to `high` was drawn.
pub open spec fn after_draw(state: u64, low: u64, high: u64) -> u64 {
    if high <= low {
        state
    } else {
        advanced(state)
    }
}

/// The number that a state of the generator stands for.
fn mix(state: u64) -> (n: u64)
    ensures
        n == mixed(state),
{
    let a: u64 = (state ^ (state >> 30)).wrapping_mul(0xBF58_476D_1CE4_E5B9);
    let b: u64 = (a ^ (a >> 27)).wrapping_mul(0x94D0_49BB_1331_11EB);
    b ^ (b >> 31)
}

/// A generator of numbers that look random, the same for the same seed.
#[derive(Debug, Clone, Copy)]
pub struct Rng {
    state: u64,
}

impl Rng {
    /// The state of the generator.
    pub closed spec fn state(&self) -> u64 {
        self.state
    }

    /// A generator that starts from `seed`.
    pub fn new(seed: u64) -> (rng: Self)
        ensures
            rng.state() == seed,
    {
        Rng { state: seed }
    }

    /// The next number.
    pub fn next_u64(&mut self) -> (n: u64)
        ensures
            final(self).state() == advanced(old(self).state()),
            n == mixed(final(self).state()),
    {
        self.state = self.state.wrapping_add(0x9E37_79B9_7F4A_7C15);
        mix(self.state)
    }

    /// A number from `low` to `high`, or `low` where `high` is not above it.
    pub fn range(&mut self, low: u64, high: u64) -> (n: u64)
        ensures
            n == drawn(old(self).state(), low, high),
            final(self).state() == after_draw(old(self).state(), low, high),
            low <= n,
            n <= max_int(low as int, high as int),
    {
        if high <= low {
            return low;
        }
        let width: u128 = (high - low) as u128 + 1;
        let n: u64 = self.next_u64();
        let offset: u128 = n as u128 % width;
        low + offset as u64
    }
}

/// The seed that an instant and a count of seeds give.
pub open spec fn seed_of(nanos: u64, count: u64) -> u64 {
    mixed(nanos ^ count.wrapping_mul(0x9E37_79B9_7F4A_7C15))
}

/// The seed for the delays of a retry that starts at the Unix time `nanos`, in nanoseconds, as
/// number `count` in its process.
pub fn entropy_seed(nanos: u64, count: u64) -> (seed: u64)
    ensures
        seed == seed_of(nanos, count),
{
    mix(nanos ^ count.wrapping_mul(0x9E37_79B9_7F4A_7C15))
}

impl Backoff {
    /// What the policy says.
    pub closed spec fn policy(&self) -> Policy {
        Policy {
            kind: self.kind,
            base: self.base,
            factor: (self.factor.num(), self.factor.den()),
            increment: self.increment,
            max: self.max,
            jitter: self.jitter,
        }
    }

    /// The same delay every time.
    pub fn constant(delay: Duration) -> (backoff: Self)
        ensures
            backoff.policy() == (Policy {
                kind: Kind::Constant,
                base: delay,
                factor: (2, 1),
                increment: span(0),
                max: delay,
                jitter: Jitter::Off,
            }),
    {
        Backoff {
            kind: Kind::Constant,
            base: delay,
            factor: Ratio::new(2, 1),
            increment: Duration::zero(),
            max: delay,
            jitter: Jitter::Off,
        }
    }

    /// Delays that start at `initial` and grow by `increment`, up to thirty seconds.
    pub fn linear(initial: Duration, increment: Duration) -> (backoff: Self)
        ensures
            backoff.policy() == (Policy {
                kind: Kind::Linear,
                base: initial,
                factor: (2, 1),
                increment,
                max: span(30_000_000_000),
                jitter: Jitter::Off,
            }),
    {
        Backoff {
            kind: Kind::Linear,
            base: initial,
            factor: Ratio::new(2, 1),
            increment,
            max: Duration::from_secs(30),
            jitter: Jitter::Off,
        }
    }

    /// Delays that start at `initial` and grow by `factor`, up to thirty seconds.
    pub fn exponential(initial: Duration, factor: Ratio) -> (backoff: Self)
        ensures
            backoff.policy() == (Policy {
                kind: Kind::Exponential,
                base: initial,
                factor: (factor.num(), factor.den()),
                increment: span(0),
                max: span(30_000_000_000),
                jitter: Jitter::Off,
            }),
    {
        Backoff {
            kind: Kind::Exponential,
            base: initial,
            factor,
            increment: Duration::zero(),
            max: Duration::from_secs(30),
            jitter: Jitter::Off,
        }
    }

    /// The policy with another longest delay.
    pub fn with_max(self, max: Duration) -> (backoff: Self)
        ensures
            backoff.policy() == (Policy { max, ..self.policy() }),
    {
        Backoff { max, ..self }
    }

    /// The policy with delays spread in another way.
    pub fn with_jitter(self, jitter: Jitter) -> (backoff: Self)
        ensures
            backoff.policy() == (Policy { jitter, ..self.policy() }),
    {
        Backoff { jitter, ..self }
    }

    /// The longest delay.
    pub fn max(&self) -> (max: Duration)
        ensures
            max == self.policy().max,
    {
        self.max
    }

    /// How delays are spread.
    pub fn jitter(&self) -> (jitter: Jitter)
        ensures
            jitter == self.policy().jitter,
    {
        self.jitter
    }

    /// The delays of the policy, spread as `seed` has it.
    pub fn iter_seeded(&self, seed: u64) -> (delays: BackoffIter)
        ensures
            delays.progress() == start_of(self.policy(), seed),
    {
        BackoffIter { policy: *self, attempt: 0, previous: self.base, rng: Rng::new(seed) }
    }
}

impl Default for Backoff {
    fn default() -> (backoff: Self)
        ensures
            backoff.policy() == (Policy {
                kind: Kind::Exponential,
                base: span(100_000_000),
                factor: (2, 1),
                increment: span(0),
                max: span(30_000_000_000),
                jitter: Jitter::Decorrelated,
            }),
    {
        Backoff::exponential(Duration::from_millis(100), Ratio::new(2, 1)).with_max(
            Duration::from_secs(30),
        ).with_jitter(Jitter::Decorrelated)
    }
}

/// The delays of a policy, one after the other.
#[derive(Debug, Clone, Copy)]
pub struct BackoffIter {
    policy: Backoff,
    attempt: u32,
    previous: Duration,
    rng: Rng,
}

/// How far the delays of a policy have come.
pub struct Progress {
    /// The policy.
    pub policy: Policy,
    /// The attempt that waits next, counted from zero.
    pub attempt: u32,
    /// The delay before, at least the base.
    pub previous: Duration,
    /// The state of the generator.
    pub rng: u64,
}

impl Progress {
    /// The longest delay in nanoseconds.
    pub open spec fn cap(self) -> u64 {
        nanos_of(self.policy.max)
    }

    /// The next delay before it is spread, in nanoseconds.
    pub open spec fn capped(self) -> u64 {
        min_int(raw_delay(self.policy, self.attempt) as int, self.cap() as int) as u64
    }

    /// The most nanoseconds that a decorrelated delay may last.
    pub open spec fn high(self) -> u64 {
        min_int(
            max_int(
                min_int(nanos_of(self.previous) * 3, u64::MAX as int),
                nanos_of(self.policy.base) as int,
            ),
            self.cap() as int,
        ) as u64
    }

    /// The fewest nanoseconds that a decorrelated delay may last.
    pub open spec fn low(self) -> u64 {
        min_int(nanos_of(self.policy.base) as int, self.high() as int) as u64
    }

    /// The next delay in nanoseconds.
    pub open spec fn delay(self) -> u64 {
        let capped = self.capped();
        let half = capped / 2;
        match self.policy.jitter {
            Jitter::Off => capped,
            Jitter::Full => drawn(self.rng, 0, capped),
            Jitter::Equal => (half + drawn(self.rng, 0, (capped - half) as u64)) as u64,
            Jitter::Decorrelated => drawn(self.rng, self.low(), self.high()),
        }
    }

    /// How far the delays have come after the next.
    pub open spec fn next(self) -> Progress {
        let capped = self.capped();
        let half = capped / 2;
        let rng = match self.policy.jitter {
            Jitter::Off => self.rng,
            Jitter::Full => after_draw(self.rng, 0, capped),
            Jitter::Equal => after_draw(self.rng, 0, (capped - half) as u64),
            Jitter::Decorrelated => after_draw(self.rng, self.low(), self.high()),
        };
        Progress {
            policy: self.policy,
            attempt: min_int(self.attempt + 1, u32::MAX as int) as u32,
            previous: if self.policy.jitter == Jitter::Decorrelated {
                span(max_int(self.delay() as int, nanos_of(self.policy.base) as int) as nat)
            } else {
                self.previous
            },
            rng,
        }
    }

    /// How far the delays have come after `n` more.
    pub open spec fn after(self, n: nat) -> Progress
        decreases n,
    {
        if n == 0 {
            self
        } else {
            self.after((n - 1) as nat).next()
        }
    }
}

impl BackoffIter {
    /// How far the delays have come.
    pub closed spec fn progress(&self) -> Progress {
        Progress {
            policy: self.policy.policy(),
            attempt: self.attempt,
            previous: self.previous,
            rng: self.rng.state(),
        }
    }

    /// The next delay.
    pub fn next_delay(&mut self) -> (delay: Duration)
        ensures
            delay@ == old(self).progress().delay(),
            final(self).progress() == old(self).progress().next(),
            delay@ <= old(self).progress().cap(),
    {
        let max: u64 = self.policy.max.nanos_saturating();
        let nanos: u64 = match self.policy.jitter {
            Jitter::Decorrelated => self.decorrelated(max),
            _ => {
                let raw: u64 = self.raw_nanos(self.attempt);
                let capped: u64 = if raw < max {
                    raw
                } else {
                    max
                };
                match self.policy.jitter {
                    Jitter::Full => self.rng.range(0, capped),
                    Jitter::Equal => {
                        let half: u64 = capped / 2;
                        half + self.rng.range(0, capped - half)
                    },
                    _ => capped,
                }
            },
        };
        self.attempt = self.attempt.saturating_add(1);
        Duration::from_nanos(nanos)
    }

    /// The nanoseconds that attempt number `attempt` waits for before anything caps or spreads
    /// them.
    fn raw_nanos(&self, attempt: u32) -> (nanos: u64)
        ensures
            nanos == raw_delay(self.policy.policy(), attempt),
    {
        let base: u64 = self.policy.base.nanos_saturating();
        match self.policy.kind {
            Kind::Constant => base,
            Kind::Linear => {
                let increment: u64 = self.policy.increment.nanos_saturating();
                assert(0 <= increment * attempt <= u64::MAX * u32::MAX) by (nonlinear_arith)
                    requires
                        0 <= increment <= u64::MAX,
                        0 <= attempt <= u32::MAX,
                ;
                let grown: u128 = increment as u128 * attempt as u128;
                let grown: u64 = if grown > u64::MAX as u128 {
                    u64::MAX
                } else {
                    grown as u64
                };
                base.saturating_add(grown)
            },
            Kind::Exponential => {
                let exp: u32 = if attempt < 64 {
                    attempt
                } else {
                    64
                };
                self.policy.factor.power_of(base, exp)
            },
        }
    }

    /// The next delay spread from the base to three times the delay before, in nanoseconds.
    fn decorrelated(&mut self, max: u64) -> (nanos: u64)
        requires
            max == old(self).progress().cap(),
            old(self).progress().policy.jitter == Jitter::Decorrelated,
        ensures
            nanos == old(self).progress().delay(),
            nanos <= max,
            final(self).progress() == (Progress {
                attempt: old(self).progress().attempt,
                ..old(self).progress().next()
            }),
            final(self).attempt == old(self).attempt,
    {
        let base: u64 = self.policy.base.nanos_saturating();
        let previous: u64 = self.previous.nanos_saturating();
        let mut high: u64 = if previous > u64::MAX / 3 {
            u64::MAX
        } else {
            previous * 3
        };
        if high < base {
            high = base;
        }
        if high > max {
            high = max;
        }
        let low: u64 = if base < high {
            base
        } else {
            high
        };
        let chosen: u64 = self.rng.range(low, high);
        self.previous = Duration::from_nanos(
            if chosen < base {
                base
            } else {
                chosen
            },
        );
        chosen
    }
}

/// However far the delays of a policy have come, none exceeds the longest.
pub proof fn lemma_no_delay_exceeds_the_longest(start: Progress, n: nat)
    ensures
        start.after(n).policy == start.policy,
        start.after(n).delay() <= start.cap(),
    decreases n,
{
    if n > 0 {
        lemma_no_delay_exceeds_the_longest(start, (n - 1) as nat);
    }
    lemma_spread(start.after(n));
}

/// Where the next delay lies, for each way of spreading it.
pub proof fn lemma_spread(at: Progress)
    ensures
        at.policy.jitter == Jitter::Off ==> at.delay() == at.capped(),
        at.policy.jitter == Jitter::Full ==> at.delay() <= at.capped(),
        at.policy.jitter == Jitter::Equal ==> at.capped() / 2 <= at.delay() <= at.capped(),
        at.policy.jitter == Jitter::Decorrelated ==> min_int(
            nanos_of(at.policy.base) as int,
            at.cap() as int,
        ) <= at.delay() <= at.high(),
        at.delay() <= at.cap(),
{
    let capped = at.capped();
    let half = capped / 2;
    lemma_drawn(at.rng, 0, capped);
    lemma_drawn(at.rng, 0, (capped - half) as u64);
    lemma_drawn(at.rng, at.low(), at.high());
}

proof fn lemma_drawn(state: u64, low: u64, high: u64)
    ensures
        low <= drawn(state, low, high) <= max_int(low as int, high as int),
{
}

/// Where the delays of a policy start.
pub open spec fn start_of(policy: Policy, seed: u64) -> Progress {
    Progress { policy, attempt: 0, previous: policy.base, rng: seed }
}

/// After `n` delays the next is that of attempt `n`, as far as attempts are counted.
proof fn lemma_attempts_count_up(start: Progress, n: nat)
    requires
        start.attempt == 0,
    ensures
        start.after(n).attempt == min_int(n as int, u32::MAX as int),
        start.after(n).policy == start.policy,
    decreases n,
{
    if n > 0 {
        lemma_attempts_count_up(start, (n - 1) as nat);
    }
}

/// A constant policy waits the same every time, up to its longest delay.
pub proof fn lemma_constant_delays(policy: Policy, seed: u64, n: nat)
    requires
        policy.kind == Kind::Constant,
        policy.jitter == Jitter::Off,
        policy.base@ <= u64::MAX,
        policy.max@ <= u64::MAX,
    ensures
        policy.base@ <= policy.max@ ==> start_of(policy, seed).after(n).delay() == policy.base@,
        policy.base@ > policy.max@ ==> start_of(policy, seed).after(n).delay() == policy.max@,
{
    lemma_attempts_count_up(start_of(policy, seed), n);
}

/// A linear policy waits for its base and as many increments as there were delays before, up to its
/// longest delay.
pub proof fn lemma_linear_delays(policy: Policy, seed: u64, n: nat)
    requires
        policy.kind == Kind::Linear,
        policy.jitter == Jitter::Off,
        n <= u32::MAX,
        policy.base@ <= u64::MAX,
        policy.increment@ <= u64::MAX,
        policy.max@ <= u64::MAX,
    ensures
        policy.base@ + n * policy.increment@ <= policy.max@ ==> start_of(policy, seed).after(n).delay()
            == policy.base@ + n * policy.increment@,
        policy.base@ + n * policy.increment@ > policy.max@ ==> start_of(policy, seed).after(n).delay()
            == policy.max@,
{
    lemma_attempts_count_up(start_of(policy, seed), n);
    assert(n * policy.increment@ == policy.increment@ * n) by (nonlinear_arith);
    assert(n * policy.increment@ >= 0) by (nonlinear_arith)
        requires
            n >= 0,
            policy.increment@ >= 0,
    ;
}

/// An exponential policy waits for its base times its factor to the power of the number of delays
/// before, rounded down, up to its longest delay.
pub proof fn lemma_exponential_delays(policy: Policy, seed: u64, n: nat, num: int, den: int, d: int)
    requires
        policy.kind == Kind::Exponential,
        policy.jitter == Jitter::Off,
        n <= 64,
        policy.base@ <= u64::MAX,
        policy.max@ <= u64::MAX,
        num == pow(policy.factor.0 as int, n),
        den == pow(policy.factor.1 as int, n),
        policy.factor.1 > 0,
        d * den <= policy.base@ * num < (d + 1) * den,
    ensures
        0 <= d <= policy.max@ ==> start_of(policy, seed).after(n).delay() == d,
        d > policy.max@ ==> start_of(policy, seed).after(n).delay() == policy.max@,
{
    let start = start_of(policy, seed);
    lemma_attempts_count_up(start, n);
    lemma_pow_positive(policy.factor.1 as int, n);
    let x = policy.base@ * num;
    assert(x / den == d) by {
        let r = x - d * den;
        assert(x == d * den + r);
        assert(0 <= r < den) by (nonlinear_arith)
            requires
                d * den <= x < (d + 1) * den,
                r == x - d * den,
        ;
        vstd::arithmetic::div_mod::lemma_fundamental_div_mod_converse(x, den, d, r);
    }
}

/// With a whole factor, each delay is the one before times the factor, as long as neither is cut
/// off at the longest delay.
pub proof fn lemma_delays_multiply(policy: Policy, seed: u64, n: nat)
    requires
        policy.kind == Kind::Exponential,
        policy.jitter == Jitter::Off,
        n < 64,
        policy.base@ <= u64::MAX,
        policy.max@ <= u64::MAX,
        policy.factor.1 == 1,
        start_of(policy, seed).after(n + 1).delay() < policy.max@,
        start_of(policy, seed).after(n).delay() < policy.max@,
    ensures
        start_of(policy, seed).after(0).delay() == min_int(
            policy.base@ as int,
            policy.max@ as int,
        ),
        start_of(policy, seed).after(n + 1).delay() == start_of(policy, seed).after(n).delay()
            * policy.factor.0,
{
    let start = start_of(policy, seed);
    let f = policy.factor.0 as int;
    let base = policy.base@ as int;
    lemma_attempts_count_up(start, n);
    lemma_attempts_count_up(start, n + 1);
    lemma_pow0(f);
    lemma_pow0(1);
    lemma_pow1(f);
    lemma_pow_adds(f, n, 1);
    lemma1_pow(n);
    lemma1_pow(n + 1);
    let p = pow(f, n);
    assert(base * (p * f) == (base * p) * f) by (nonlinear_arith);
    assert(p >= 0) by {
        if f > 0 {
            lemma_pow_positive(f, n);
        } else if n > 0 {
            lemma0_pow(n);
        }
    }
    assert(base * p >= 0 && (base * p) * f >= 0) by (nonlinear_arith)
        requires
            base >= 0,
            p >= 0,
            f >= 0,
    ;
    let now = (base * p) / pow(1, n);
    let next = (base * pow(f, n + 1)) / pow(1, n + 1);
    assert(now == base * p);
    assert(next == (base * p) * f);
    assert(start.after(n).delay() == min_int(now, policy.max@ as int));
    assert(start.after(n + 1).delay() == min_int(next, policy.max@ as int));
    assert(base * pow(f, 0) == base) by (nonlinear_arith)
        requires
            pow(f, 0) == 1,
    ;
}

/// A delay that is spread over everything lies anywhere up to the delay that is not; one that is
/// spread equally keeps half of that; none of it changes how the delays grow.
pub proof fn lemma_spread_delays(policy: Policy, plain: Policy, seed: u64, n: nat)
    requires
        policy.jitter == Jitter::Full || policy.jitter == Jitter::Equal,
        plain == (Policy { jitter: Jitter::Off, ..policy }),
    ensures
        ({
            let whole = start_of(plain, seed).after(n).delay();
            let at = start_of(policy, seed).after(n);
            let half = whole / 2;
            &&& policy.jitter == Jitter::Full ==> at.delay() == drawn(at.rng, 0, whole)
            &&& policy.jitter == Jitter::Equal ==> at.delay() == half + drawn(
                at.rng,
                0,
                (whole - half) as u64,
            )
        }),
{
    lemma_attempts_count_up(start_of(policy, seed), n);
    lemma_attempts_count_up(start_of(plain, seed), n);
    lemma_drawn(start_of(policy, seed).after(n).rng, 0, start_of(plain, seed).after(n).delay());
    let whole = start_of(plain, seed).after(n).delay();
    let half = whole / 2;
    lemma_drawn(start_of(policy, seed).after(n).rng, 0, (whole - half) as u64);
}

/// A decorrelated delay is drawn from the base up to three times the delay before, which is the
/// base at first, and never from more than the longest delay.
pub proof fn lemma_decorrelated_delays(policy: Policy, seed: u64, n: nat)
    requires
        policy.jitter == Jitter::Decorrelated,
        policy.base@ <= policy.max@ <= u64::MAX,
    ensures
        ({
            let first = start_of(policy, seed);
            let at = first.after(n);
            let next = first.after(n + 1);
            &&& first.delay() == drawn(
                seed,
                policy.base@ as u64,
                min_int(3 * policy.base@ as int, policy.max@ as int) as u64,
            )
            &&& next.delay() == drawn(
                next.rng,
                policy.base@ as u64,
                min_int(3 * at.delay(), policy.max@ as int) as u64,
            )
            &&& policy.base@ <= at.delay() <= policy.max@
        }),
    decreases n,
{
    let first = start_of(policy, seed);
    lemma_no_delay_exceeds_the_longest(first, n);
    lemma_no_delay_exceeds_the_longest(first, n + 1);
    lemma_spread(first.after(n));
    assert(first.after(n + 1) == first.after(n).next());
    assert(first.after(0) == first);
}

/// Each delay that is drawn takes a number of its own from the generator: the states are those of a
/// counter that goes up in fixed steps from the seed.
pub proof fn lemma_every_draw_is_its_own(policy: Policy, seed: u64, n: nat)
    requires
        policy.jitter == Jitter::Decorrelated,
        0 < policy.base@ < policy.max@ <= u64::MAX,
    ensures
        start_of(policy, seed).after(n).rng == (seed + n * 0x9E37_79B9_7F4A_7C15)
            % 0x1_0000_0000_0000_0000,
    decreases n,
{
    let first = start_of(policy, seed);
    if n > 0 {
        let before = first.after((n - 1) as nat);
        lemma_every_draw_is_its_own(policy, seed, (n - 1) as nat);
        lemma_a_delay_before_is_no_less_than_the_base(policy, seed, (n - 1) as nat);
        assert(before.low() < before.high());
        assert(first.after(n) == before.next());
        assert(before.next().rng == advanced(before.rng));
        lemma_advanced(before.rng);
        let c = 0x9E37_79B9_7F4A_7C15int;
        let sum = seed + (n - 1) * c;
        assert(seed + n * c == sum + c);
        lemma_counting_on(sum, c);
    }
}

/// A count that starts anew past the largest number may do so at any time.
proof fn lemma_counting_on(sum: int, c: int)
    ensures
        (sum % 0x1_0000_0000_0000_0000 + c) % 0x1_0000_0000_0000_0000 == (sum + c)
            % 0x1_0000_0000_0000_0000,
{
    let m = 0x1_0000_0000_0000_0000int;
    vstd::arithmetic::div_mod::lemma_fundamental_div_mod(sum, m);
    vstd::arithmetic::div_mod::lemma_mod_multiples_vanish(sum / m, sum % m + c, m);
}

/// The generator counts up and starts anew past the largest number.
proof fn lemma_advanced(state: u64)
    ensures
        advanced(state) == (state + 0x9E37_79B9_7F4A_7C15) % 0x1_0000_0000_0000_0000,
{
}

/// What a decorrelated delay takes for the one before is at least the base.
proof fn lemma_a_delay_before_is_no_less_than_the_base(policy: Policy, seed: u64, n: nat)
    requires
        policy.jitter == Jitter::Decorrelated,
        policy.base@ <= policy.max@ <= u64::MAX,
    ensures
        start_of(policy, seed).after(n).previous@ >= policy.base@,
        start_of(policy, seed).after(n).policy == policy,
    decreases n,
{
    if n > 0 {
        lemma_a_delay_before_is_no_less_than_the_base(policy, seed, (n - 1) as nat);
    }
}

/// A number that is drawn from a range lies in it, and differs from the lowest by the generator's
/// number less a multiple of how many there are.
pub proof fn lemma_draws_cover_their_range(state: u64, low: u64, high: u64)
    requires
        low <= high,
    ensures
        low <= drawn(state, low, high) <= high,
        (mixed(advanced(state)) - (drawn(state, low, high) - low)) % (high - low + 1) == 0,
        low == 0 && high == u64::MAX ==> drawn(state, low, high) == mixed(advanced(state)),
{
    let width = high - low + 1;
    let n = mixed(advanced(state)) as int;
    if low < high {
        vstd::arithmetic::div_mod::lemma_fundamental_div_mod(n, width);
        let q = n / width;
        assert(n - n % width == q * width) by (nonlinear_arith)
            requires
                n == width * q + n % width,
        ;
        vstd::arithmetic::div_mod::lemma_mod_multiples_basic(q, width);
        if low == 0 && high == u64::MAX {
            vstd::arithmetic::div_mod::lemma_small_mod(n as nat, width as nat);
        }
    }
}

/// Exponential delays stop growing after the sixty-fourth, and linear ones once attempts are
/// counted no further.
pub proof fn lemma_growth_ends(policy: Policy, seed: u64, n: nat)
    requires
        policy.jitter == Jitter::Off,
    ensures
        policy.kind == Kind::Exponential && n >= 64 ==> start_of(policy, seed).after(n).delay()
            == start_of(policy, seed).after(64).delay(),
        n >= u32::MAX ==> start_of(policy, seed).after(n).delay() == start_of(policy, seed).after(
            u32::MAX as nat,
        ).delay(),
{
    lemma_attempts_count_up(start_of(policy, seed), n);
    lemma_attempts_count_up(start_of(policy, seed), 64);
    lemma_attempts_count_up(start_of(policy, seed), u32::MAX as nat);
}

/// Where the base is longer than the longest delay, every decorrelated delay is the longest.
pub proof fn lemma_decorrelated_delays_are_cut_off(policy: Policy, seed: u64, n: nat)
    requires
        policy.jitter == Jitter::Decorrelated,
        policy.max@ < policy.base@ <= u64::MAX,
    ensures
        start_of(policy, seed).after(n).delay() == policy.max@,
    decreases n,
{
    lemma_no_delay_exceeds_the_longest(start_of(policy, seed), n);
}

/// A delay takes a number from the generator exactly if there is more than one length to choose
/// from: the next delay is then drawn from the next number.
pub proof fn lemma_a_number_is_taken_only_where_there_is_a_choice(at: Progress, whole: int)
    requires
        whole == at.capped(),
    ensures
        at.policy.jitter == Jitter::Off ==> at.next().rng == at.rng,
        at.policy.jitter == Jitter::Full && whole > 0 ==> at.next().rng == advanced(at.rng),
        at.policy.jitter == Jitter::Full && whole == 0 ==> at.next().rng == at.rng,
        at.policy.jitter == Jitter::Equal && whole > 0 ==> at.next().rng == advanced(at.rng),
        at.policy.jitter == Jitter::Equal && whole == 0 ==> at.next().rng == at.rng,
        at.policy.jitter == Jitter::Decorrelated && at.low() == at.high() ==> at.next().rng == at.rng,
        at.policy.jitter == Jitter::Decorrelated && at.low() < at.high() ==> at.next().rng == advanced(
            at.rng,
        ),
{
}

} // verus!
