//! A limit on requests in flight that adapts to how they fare.

use vstd::prelude::*;

use crate::clock::{may_be_now, reading_of, Clock, SystemClock};
use crate::ratio::{share, Ratio};
use crate::time::{max_int, min_int, nanos_of, span, Duration};

verus! {

/// How a request fared.
#[non_exhaustive]
#[derive(Debug, Clone, Copy, PartialEq, Eq, Structural)]
pub enum Outcome {
    /// It succeeded.
    Success {
        /// How long it took.
        rtt: Duration,
    },
    /// It failed.
    Failure,
}

/// A rule that moves the limit.
pub trait AdaptiveStrategy: Send + Sync {
    /// The limit that the rule proposes.
    spec fn proposal(&self, current: u32, in_flight: u32, outcome: Outcome) -> u32;

    /// Whether the rule becomes `post` by a proposal.
    spec fn learns(&self, post: &Self, current: u32, in_flight: u32, outcome: Outcome) -> bool;

    /// Proposes a limit after a request that fared as `outcome` says, with `in_flight` requests
    /// under way, that one included.
    fn adjust(&mut self, current: u32, in_flight: u32, outcome: Outcome) -> (proposed: u32)
        ensures
            proposed == old(self).proposal(current, in_flight, outcome),
            old(self).learns(final(self), current, in_flight, outcome),
    ;
}

/// Additive increase and multiplicative decrease: a success while the limit is reached adds a
/// little to it, and a failure cuts it to a fraction.
#[derive(Debug, Clone, Copy)]
pub struct Aimd {
    increase: u32,
    decrease: Ratio,
}

impl Aimd {
    /// What a success adds.
    pub closed spec fn step(&self) -> u32 {
        self.increase
    }

    /// The fraction that a failure cuts to.
    pub closed spec fn cut(&self) -> Ratio {
        self.decrease
    }

    /// Adds `increase`, at least one, on a success, and cuts to `decrease`, at most one, on a
    /// failure.
    pub fn new(increase: u32, decrease: Ratio) -> (rule: Self)
        ensures
            rule.step() == max_int(increase as int, 1),
            decrease.num() <= decrease.den() ==> rule.cut() == decrease,
            decrease.num() > decrease.den() ==> rule.cut().num() == rule.cut().den()
                && rule.cut().den() > 0,
    {
        let increase: u32 = if increase == 0 {
            1
        } else {
            increase
        };
        Aimd { increase, decrease: decrease.at_most_one() }
    }
}

impl Default for Aimd {
    fn default() -> (rule: Self)
        ensures
            rule.step() == 1,
            rule.cut().num() == 1,
            rule.cut().den() == 2,
    {
        Aimd::new(1, Ratio::new(1, 2))
    }
}

impl AdaptiveStrategy for Aimd {
    open spec fn proposal(&self, current: u32, in_flight: u32, outcome: Outcome) -> u32 {
        match outcome {
            Outcome::Success { .. } => if in_flight >= current {
                min_int(current + self.step(), u32::MAX as int) as u32
            } else {
                current
            },
            Outcome::Failure => max_int(share(self.cut(), current) as int, 1) as u32,
        }
    }

    open spec fn learns(
        &self,
        post: &Self,
        current: u32,
        in_flight: u32,
        outcome: Outcome,
    ) -> bool {
        *post == *self
    }

    fn adjust(&mut self, current: u32, in_flight: u32, outcome: Outcome) -> (proposed: u32) {
        match outcome {
            Outcome::Success { .. } => {
                if in_flight >= current {
                    current.saturating_add(self.increase)
                } else {
                    current
                }
            },
            Outcome::Failure => {
                let cut: u32 = self.decrease.of(current);
                if cut == 0 {
                    1
                } else {
                    cut
                }
            },
        }
    }
}

/// A rule that watches how long requests take: the limit grows while they take little longer than
/// the quickest has, and shrinks once they queue up.
#[derive(Debug, Clone, Copy)]
pub struct Vegas {
    alpha: u32,
    beta: u32,
    min_rtt_ns: u64,
}

impl Vegas {
    /// Fewer queued requests than this let the limit grow.
    pub closed spec fn low(&self) -> u32 {
        self.alpha
    }

    /// More queued requests than this make the limit shrink.
    pub closed spec fn high(&self) -> u32 {
        self.beta
    }

    /// The quickest request so far, in nanoseconds.
    pub closed spec fn quickest(&self) -> u64 {
        self.min_rtt_ns
    }

    /// Whether the rule has seen no request succeed.
    pub closed spec fn is_new(&self) -> bool {
        self.min_rtt_ns == u64::MAX
    }

    /// The time of a request in nanoseconds, at least one.
    pub open spec fn time_of(rtt: Duration) -> u64 {
        max_int(nanos_of(rtt) as int, 1) as u64
    }

    /// How many of `current` requests wait in a queue, if one takes `rtt` nanoseconds and the
    /// quickest `least`.
    pub open spec fn queued(current: u32, rtt: u64, least: u64) -> int {
        min_int(current * (rtt - least), u64::MAX as int) / rtt as int
    }

    /// The limit grows below `alpha` queued requests and shrinks above `beta`, which is at least
    /// `alpha`.
    pub fn new(alpha: u32, beta: u32) -> (rule: Self)
        ensures
            rule.low() == alpha,
            rule.high() == max_int(alpha as int, beta as int),
            rule.quickest() == u64::MAX,
            rule.is_new(),
    {
        let beta: u32 = if beta < alpha {
            alpha
        } else {
            beta
        };
        Vegas { alpha, beta, min_rtt_ns: u64::MAX }
    }
}

impl Default for Vegas {
    fn default() -> (rule: Self)
        ensures
            rule.low() == 3,
            rule.high() == 6,
            rule.quickest() == u64::MAX,
            rule.is_new(),
    {
        Vegas::new(3, 6)
    }
}

impl AdaptiveStrategy for Vegas {
    open spec fn proposal(&self, current: u32, in_flight: u32, outcome: Outcome) -> u32 {
        match outcome {
            Outcome::Failure => max_int(current as int / 2, 1) as u32,
            Outcome::Success { rtt } => {
                let time = Vegas::time_of(rtt);
                let least = min_int(self.quickest() as int, time as int) as u64;
                let queue = Vegas::queued(current, time, least);
                if queue < self.low() {
                    min_int(current + 1, u32::MAX as int) as u32
                } else if queue > self.high() {
                    max_int(current - 1, 0) as u32
                } else {
                    current
                }
            },
        }
    }

    open spec fn learns(
        &self,
        post: &Self,
        current: u32,
        in_flight: u32,
        outcome: Outcome,
    ) -> bool {
        &&& post.low() == self.low()
        &&& post.high() == self.high()
        &&& post.quickest() == (match outcome {
            Outcome::Success { rtt } => min_int(
                self.quickest() as int,
                Vegas::time_of(rtt) as int,
            ),
            Outcome::Failure => self.quickest() as int,
        })
    }

    fn adjust(&mut self, current: u32, in_flight: u32, outcome: Outcome) -> (proposed: u32) {
        let rtt = match outcome {
            Outcome::Failure => {
                let half: u32 = current / 2;
                return if half == 0 {
                    1
                } else {
                    half
                };
            },
            Outcome::Success { rtt } => rtt,
        };
        let mut rtt_ns: u64 = rtt.nanos_saturating();
        if rtt_ns == 0 {
            rtt_ns = 1;
        }
        if rtt_ns < self.min_rtt_ns {
            self.min_rtt_ns = rtt_ns;
        }
        let excess: u64 = rtt_ns - self.min_rtt_ns;
        assert(0 <= current * excess <= u32::MAX * u64::MAX) by (nonlinear_arith)
            requires
                0 <= current <= u32::MAX,
                0 <= excess <= u64::MAX,
        ;
        let weight: u128 = current as u128 * excess as u128;
        let weight: u64 = if weight > u64::MAX as u128 {
            u64::MAX
        } else {
            weight as u64
        };
        let queue: u64 = weight / rtt_ns;
        if queue < self.alpha as u64 {
            current.saturating_add(1)
        } else if queue > self.beta as u64 {
            current.saturating_sub(1)
        } else {
            current
        }
    }
}

/// `n`, but no less than `low` and no more than `high`.
pub open spec fn clamped(n: u32, low: u32, high: u32) -> u32 {
    if n < low {
        low
    } else if n > high {
        high
    } else {
        n
    }
}

/// `n`, but no less than `low` and no more than `high`.
fn clamp(n: u32, low: u32, high: u32) -> (m: u32)
    ensures
        m == clamped(n, low, high),
{
    if n < low {
        low
    } else if n > high {
        high
    } else {
        n
    }
}

/// A limit on requests in flight that a rule moves between a floor and a ceiling.
pub struct AdaptiveLimiter<S, C = SystemClock> {
    strategy: S,
    limit: u32,
    in_flight: u32,
    floor: u32,
    ceiling: u32,
    clock: C,
}

/// A place among the requests in flight. Its outcome is owed to the limiter; a permit that is given
/// up without one counts as a failure.
#[must_use]
pub struct AdaptivePermit {
    started: Duration,
}

impl AdaptivePermit {
    /// The reading of the limiter's clock at which the request started.
    pub closed spec fn since(&self) -> Duration {
        self.started
    }
}

impl AdaptiveLimiter<Aimd> {
    /// Starts building a limiter.
    pub fn builder() -> (builder: AdaptiveLimiterBuilder)
        ensures
            builder.is_default(),
    {
        AdaptiveLimiterBuilder::new()
    }
}

impl<S: AdaptiveStrategy, C> AdaptiveLimiter<S, C> {
    /// The rule that moves the limit.
    pub closed spec fn rule(&self) -> S {
        self.strategy
    }

    /// The limit at present.
    pub closed spec fn limit(&self) -> u32 {
        self.limit
    }

    /// The requests under way.
    pub closed spec fn flying(&self) -> u32 {
        self.in_flight
    }

    /// The time source of the limiter.
    pub closed spec fn clock(&self) -> C {
        self.clock
    }

    /// The least limit.
    pub closed spec fn least(&self) -> u32 {
        self.floor
    }

    /// The greatest limit.
    pub closed spec fn most(&self) -> u32 {
        self.ceiling
    }

    /// The invariant: the limit lies between the floor, which is at least one, and the ceiling;
    /// and never more requests are under way than the ceiling.
    pub open spec fn valid(&self) -> bool {
        &&& 1 <= self.least() <= self.limit() <= self.most()
        &&& self.flying() <= self.most()
    }

    /// Whether the limiter has these bounds, starts at `initial` within them, and has nothing
    /// under way.
    pub open spec fn fresh(&self, rule: S, floor: u32, ceiling: u32, initial: u32) -> bool {
        let low = max_int(floor as int, 1) as u32;
        let high = max_int(ceiling as int, low as int) as u32;
        &&& self.rule() == rule
        &&& self.least() == low
        &&& self.most() == high
        &&& self.limit() == clamped(initial, low, high)
        &&& self.flying() == 0
    }

    /// The limit at present.
    pub fn current_limit(&self) -> (n: u32)
        ensures
            n == self.limit(),
    {
        self.limit
    }

    /// The requests under way.
    pub fn in_flight(&self) -> (n: u32)
        ensures
            n == self.flying(),
    {
        self.in_flight
    }

    /// The greatest limit.
    pub fn ceiling(&self) -> (n: u32)
        ensures
            n == self.most(),
    {
        self.ceiling
    }

    /// Takes a place among the requests in flight, if the limit leaves one.
    pub fn try_reserve(&mut self) -> (ok: bool)
        requires
            old(self).valid(),
        ensures
            final(self).valid(),
            old(self).reserved(final(self), ok),
    {
        if self.in_flight >= self.limit {
            return false;
        }
        self.in_flight = self.in_flight + 1;
        true
    }

    /// Whether nothing but the requests under way changed.
    pub open spec fn same_but_flying(&self, post: &Self) -> bool {
        &&& post.rule() == self.rule()
        &&& post.limit() == self.limit()
        &&& post.least() == self.least()
        &&& post.most() == self.most()
        &&& post.clock() == self.clock()
    }

    /// Whether asking for a place turned `self` into `post`, with a place or not as `ok` says:
    /// there is one exactly while fewer requests are under way than the limit.
    pub open spec fn reserved(&self, post: &Self, ok: bool) -> bool {
        &&& post.valid()
        &&& ok == (self.flying() < self.limit())
        &&& ok ==> post.flying() == self.flying() + 1
        &&& !ok ==> *post == *self
        &&& self.same_but_flying(post)
    }

    /// Whether a request that fared as `outcome` says gave its place back and moved the limit.
    pub open spec fn settled(&self, post: &Self, outcome: Outcome) -> bool {
        &&& post.valid()
        &&& post.least() == self.least()
        &&& post.most() == self.most()
        &&& post.clock() == self.clock()
        &&& post.flying() == self.flying() - 1
        &&& self.rule().learns(&post.rule(), self.limit(), self.flying(), outcome)
        &&& post.limit() == clamped(
            self.rule().proposal(self.limit(), self.flying(), outcome),
            self.least(),
            self.most(),
        )
    }

    /// Gives the place of a request back and lets the rule move the limit.
    pub fn settle(&mut self, outcome: Outcome)
        requires
            old(self).valid(),
            old(self).flying() > 0,
        ensures
            final(self).valid(),
            old(self).settled(final(self), outcome),
    {
        let proposed: u32 = self.strategy.adjust(self.limit, self.in_flight, outcome);
        self.limit = clamp(proposed, self.floor, self.ceiling);
        self.in_flight = self.in_flight - 1;
    }
}

impl<S: AdaptiveStrategy, C: Clock> AdaptiveLimiter<S, C> {
    fn new(strategy: S, floor: u32, ceiling: u32, initial: u32, clock: C) -> (limiter: Self)
        ensures
            limiter.valid(),
            limiter.fresh(strategy, floor, ceiling, initial),
            limiter.clock() == clock,
    {
        let floor: u32 = if floor == 0 {
            1
        } else {
            floor
        };
        let ceiling: u32 = if ceiling < floor {
            floor
        } else {
            ceiling
        };
        AdaptiveLimiter {
            strategy,
            limit: clamp(initial, floor, ceiling),
            in_flight: 0,
            floor,
            ceiling,
            clock,
        }
    }

    /// The limiter with `clock` as its time source, at its present limit and with nothing under
    /// way.
    pub fn with_clock<D: Clock>(self, clock: D) -> (limiter: AdaptiveLimiter<S, D>)
        ensures
            limiter.valid(),
            limiter.fresh(self.rule(), self.least(), self.most(), self.limit()),
            limiter.clock() == clock,
    {
        AdaptiveLimiter::new(self.strategy, self.floor, self.ceiling, self.limit, clock)
    }

    /// Takes a place among the requests in flight, if the limit leaves one.
    pub fn try_acquire(&mut self) -> (permit: Option<AdaptivePermit>)
        requires
            old(self).valid(),
        ensures
            final(self).valid(),
            old(self).reserved(final(self), permit is Some),
            permit matches Some(p) ==> reading_of(old(self).clock(), p.since()),
    {
        if self.try_reserve() {
            Some(AdaptivePermit { started: self.clock.elapsed() })
        } else {
            None
        }
    }
}

/// The time from `started` to `now`.
pub open spec fn time_since(started: Duration, now: Duration) -> Duration {
    span(max_int(now@ - started@, 0) as nat)
}

impl AdaptivePermit {
    /// Tells `limiter` that the request succeeded.
    pub fn success<S: AdaptiveStrategy, C: Clock>(self, limiter: &mut AdaptiveLimiter<S, C>)
        requires
            old(limiter).valid(),
            old(limiter).flying() > 0,
        ensures
            final(limiter).valid(),
            exists|now: Duration|
                reading_of(old(limiter).clock(), now) && old(limiter).settled(
                    final(limiter),
                    Outcome::Success { rtt: #[trigger] time_since(self.since(), now) },
                ),
    {
        let now = limiter.clock.elapsed();
        assert(reading_of(old(limiter).clock(), now));
        let rtt = now.saturating_sub(self.started);
        assert(rtt == time_since(self.since(), now));
        limiter.settle(Outcome::Success { rtt });
    }

    /// Tells `limiter` that the request failed.
    pub fn failure<S: AdaptiveStrategy, C: Clock>(self, limiter: &mut AdaptiveLimiter<S, C>)
        requires
            old(limiter).valid(),
            old(limiter).flying() > 0,
        ensures
            final(limiter).valid(),
            old(limiter).settled(final(limiter), Outcome::Failure),
    {
        limiter.settle(Outcome::Failure);
    }

    /// Gives the permit up without an outcome, which counts as a failure.
    pub fn abandon<S: AdaptiveStrategy, C: Clock>(self, limiter: &mut AdaptiveLimiter<S, C>)
        requires
            old(limiter).valid(),
            old(limiter).flying() > 0,
        ensures
            final(limiter).valid(),
            old(limiter).settled(final(limiter), Outcome::Failure),
    {
        limiter.settle(Outcome::Failure);
    }
}

/// Collects the bounds of an [`AdaptiveLimiter`].
#[derive(Debug, Clone, Copy)]
pub struct AdaptiveLimiterBuilder {
    floor: u32,
    ceiling: u32,
    initial: Option<u32>,
}

impl Default for AdaptiveLimiterBuilder {
    fn default() -> (builder: Self)
        ensures
            builder.is_default(),
    {
        AdaptiveLimiterBuilder::new()
    }
}

impl AdaptiveLimiterBuilder {
    /// The least limit, the greatest limit, and the limit to start at if it is set.
    pub closed spec fn bounds(&self) -> (u32, u32, Option<u32>) {
        (self.floor, self.ceiling, self.initial)
    }

    /// A limit from 1 to 100 that starts at its floor.
    pub open spec fn is_default(&self) -> bool {
        self.bounds() == (1u32, 100u32, None::<u32>)
    }

    /// A limit from 1 to 100 that starts at its floor.
    pub fn new() -> (builder: Self)
        ensures
            builder.is_default(),
    {
        AdaptiveLimiterBuilder { floor: 1, ceiling: 100, initial: None }
    }

    /// Sets the least limit, at least one.
    pub fn floor(self, floor: u32) -> (builder: Self)
        ensures
            builder.bounds() == (
                max_int(floor as int, 1) as u32,
                self.bounds().1,
                self.bounds().2,
            ),
    {
        let floor: u32 = if floor == 0 {
            1
        } else {
            floor
        };
        AdaptiveLimiterBuilder { floor, ceiling: self.ceiling, initial: self.initial }
    }

    /// Sets the greatest limit.
    pub fn ceiling(self, ceiling: u32) -> (builder: Self)
        ensures
            builder.bounds() == (self.bounds().0, ceiling, self.bounds().2),
    {
        AdaptiveLimiterBuilder { floor: self.floor, ceiling, initial: self.initial }
    }

    /// Sets the limit to start at.
    pub fn initial(self, initial: u32) -> (builder: Self)
        ensures
            builder.bounds() == (self.bounds().0, self.bounds().1, Some(initial)),
    {
        AdaptiveLimiterBuilder {
            floor: self.floor,
            ceiling: self.ceiling,
            initial: Some(initial),
        }
    }

    /// A limiter that `strategy` moves. It starts at the floor where nothing else is set.
    pub fn build<S: AdaptiveStrategy>(self, strategy: S) -> (limiter: AdaptiveLimiter<
        S,
        SystemClock,
    >)
        ensures
            limiter.valid(),
            limiter.fresh(
                strategy,
                self.bounds().0,
                self.bounds().1,
                match self.bounds().2 {
                    Some(initial) => initial,
                    None => self.bounds().0,
                },
            ),
            may_be_now(limiter.clock().origin()),
    {
        let initial: u32 = match self.initial {
            Some(initial) => initial,
            None => self.floor,
        };
        AdaptiveLimiter::new(strategy, self.floor, self.ceiling, initial, SystemClock::new())
    }
}

/// Whether `best` is the least time that a success in `outcomes` or the request that took `last`
/// nanoseconds took. A success takes at least a nanosecond.
pub open spec fn is_best_time(outcomes: Seq<Outcome>, last: int, best: int) -> bool {
    &&& best <= last
    &&& forall|i: int|
        0 <= i < outcomes.len() ==> (#[trigger] outcomes[i] matches Outcome::Success { rtt } ==> best
            <= max_int(rtt@ as int, 1))
    &&& best == last || exists|i: int|
        0 <= i < outcomes.len() && (#[trigger] outcomes[i] matches Outcome::Success { rtt } && best
            == max_int(rtt@ as int, 1))
}

/// A rule compares with the best time of all successes so far, however many there were and in
/// whatever order they came: of `current` requests, the share by which the last took longer than
/// the best is taken to wait, as far as it can be counted. Fewer than `alpha` of them add one to
/// the limit, more than `beta` take one off, and what lies between leaves it.
pub proof fn lemma_latency_is_held_against_the_best(
    states: Seq<Vegas>,
    currents: Seq<u32>,
    flying: Seq<u32>,
    outcomes: Seq<Outcome>,
    current: u32,
    in_flight: u32,
    rtt: Duration,
    best: int,
)
    requires
        states.len() == outcomes.len() + 1,
        currents.len() == outcomes.len(),
        flying.len() == outcomes.len(),
        states[0].is_new(),
        forall|i: int|
            0 <= i < outcomes.len() ==> (#[trigger] states[i]).learns(
                &states[i + 1],
                currents[i],
                flying[i],
                outcomes[i],
            ),
        0 < rtt@ <= u64::MAX,
        is_best_time(outcomes, rtt@ as int, best),
    ensures
        ({
            let next = states.last().proposal(current, in_flight, Outcome::Success { rtt });
            let waiting = min_int(current * (rtt@ - best), u64::MAX as int) / rtt@ as int;
            &&& waiting < states[0].low() ==> next == min_int(current + 1, u32::MAX as int)
            &&& states[0].low() <= waiting <= states[0].high() ==> next == current
            &&& waiting > states[0].high() && waiting >= states[0].low() ==> next == max_int(
                current - 1,
                0,
            )
        }),
{
    lemma_best_is_kept(states, currents, flying, outcomes);
    let kept = states.last().quickest();
    let last = rtt@ as int;
    assert(best == min_int(kept as int, last)) by {
        if best != last {
            let i = choose|i: int|
                0 <= i < outcomes.len() && (#[trigger] outcomes[i] matches Outcome::Success { rtt }
                    && best == max_int(rtt@ as int, 1));
            assert(kept <= Vegas::time_of(outcomes[i]->rtt));
        }
        if kept < last {
            let i = choose|i: int|
                0 <= i < outcomes.len() && (#[trigger] outcomes[i] matches Outcome::Success { rtt }
                    && kept == Vegas::time_of(rtt));
            assert(best <= max_int(outcomes[i]->rtt@ as int, 1));
        }
    }
}

/// What a rule keeps is the time of some success so far, and none was quicker.
proof fn lemma_best_is_kept(
    states: Seq<Vegas>,
    currents: Seq<u32>,
    flying: Seq<u32>,
    outcomes: Seq<Outcome>,
)
    requires
        states.len() == outcomes.len() + 1,
        currents.len() == outcomes.len(),
        flying.len() == outcomes.len(),
        states[0].is_new(),
        forall|i: int|
            0 <= i < outcomes.len() ==> (#[trigger] states[i]).learns(
                &states[i + 1],
                currents[i],
                flying[i],
                outcomes[i],
            ),
    ensures
        states.last().low() == states[0].low(),
        states.last().high() == states[0].high(),
        forall|i: int|
            0 <= i < outcomes.len() ==> (#[trigger] outcomes[i] matches Outcome::Success { rtt }
                ==> states.last().quickest() <= Vegas::time_of(rtt)),
        states.last().quickest() == u64::MAX || exists|i: int|
            0 <= i < outcomes.len() && (#[trigger] outcomes[i] matches Outcome::Success { rtt }
                && states.last().quickest() == Vegas::time_of(rtt)),
    decreases outcomes.len(),
{
    if outcomes.len() > 0 {
        let s = states.drop_last();
        let o = outcomes.drop_last();
        let n = outcomes.len() - 1;
        assert forall|i: int| 0 <= i < o.len() implies (#[trigger] s[i]).learns(
            &s[i + 1],
            currents.drop_last()[i],
            flying.drop_last()[i],
            o[i],
        ) by {
            assert(states[i].learns(&states[i + 1], currents[i], flying[i], outcomes[i]));
        }
        lemma_best_is_kept(s, currents.drop_last(), flying.drop_last(), o);
        assert(s.last() == states[n]);
        assert(states[n].learns(&states[n + 1], currents[n], flying[n], outcomes[n]));
        assert forall|i: int| 0 <= i < outcomes.len() implies (
        #[trigger] outcomes[i] matches Outcome::Success { rtt } ==> states.last().quickest()
            <= Vegas::time_of(rtt)) by {
            if i < n {
                assert(o[i] == outcomes[i]);
            }
        }
        if states.last().quickest() != u64::MAX {
            if states.last().quickest() == s.last().quickest() {
                let i = choose|i: int|
                    0 <= i < o.len() && (#[trigger] o[i] matches Outcome::Success { rtt }
                        && s.last().quickest() == Vegas::time_of(rtt));
                assert(outcomes[i] == o[i]);
            } else {
                assert(outcomes[n] is Success);
            }
        }
    }
}

/// A failure halves the limit, and leaves at least one.
pub proof fn lemma_a_failure_halves(rule: Vegas, current: u32, in_flight: u32)
    ensures
        ({
            let next = rule.proposal(current, in_flight, Outcome::Failure);
            &&& next >= 1
            &&& current >= 2 ==> current - 1 <= 2 * next <= current
            &&& current < 2 ==> next == 1
        }),
{
}

/// A success adds the step while the limit is reached, up to what can be counted, and nothing while
/// it is not. A failure leaves the whole number of requests that the fraction makes of the limit,
/// at least one.
pub proof fn lemma_additive_up_and_multiplicative_down(
    rule: Aimd,
    current: u32,
    in_flight: u32,
    rtt: Duration,
)
    ensures
        ({
            let up = rule.proposal(current, in_flight, Outcome::Success { rtt });
            &&& in_flight < current ==> up == current
            &&& in_flight >= current && current + rule.step() <= u32::MAX ==> up - current
                == rule.step()
            &&& in_flight >= current && current + rule.step() > u32::MAX ==> up == u32::MAX
        }),
        rule.cut().num() <= rule.cut().den() && rule.cut().den() > 0 ==> {
            let down = rule.proposal(current, in_flight, Outcome::Failure);
            let whole = rule.cut().num() * current;
            &&& down >= 1
            &&& down > 1 ==> down * rule.cut().den() <= whole
            &&& whole < (down + 1) * rule.cut().den()
        },
{
    let num = rule.cut().num() as int;
    let den = rule.cut().den() as int;
    if 0 < den && num <= den {
        let whole = num * current;
        let part = whole / den;
        assert(part * den <= whole < (part + 1) * den && part <= current) by (nonlinear_arith)
            requires
                part == whole / den,
                whole == num * current,
                0 <= num <= den,
                den > 0,
                current >= 0,
        ;
        assert(part == 0 ==> whole < 2 * den) by (nonlinear_arith)
            requires
                whole < (part + 1) * den,
                den > 0,
        ;
    }
}

/// A request that succeeds while as many are under way as the limit, itself included, raises the
/// limit by the step, up to the ceiling; one that succeeds while fewer are leaves it. A request
/// that fails never raises it. Either way the request gives its place back.
pub proof fn lemma_the_limit_grows_only_while_it_is_reached<C>(
    pre: AdaptiveLimiter<Aimd, C>,
    post: AdaptiveLimiter<Aimd, C>,
    outcome: Outcome,
)
    requires
        pre.valid(),
        pre.flying() > 0,
        pre.settled(&post, outcome),
        pre.rule().cut().num() <= pre.rule().cut().den(),
        pre.rule().cut().den() > 0,
    ensures
        post.flying() + 1 == pre.flying(),
        outcome is Success && pre.flying() >= pre.limit() ==> post.limit() == min_int(
            pre.limit() + pre.rule().step(),
            pre.most() as int,
        ),
        outcome is Success && pre.flying() < pre.limit() ==> post.limit() == pre.limit(),
        outcome is Failure ==> pre.least() <= post.limit() <= pre.limit(),
{
    lemma_additive_up_and_multiplicative_down(pre.rule(), pre.limit(), pre.flying(), span(0));
    let num = pre.rule().cut().num() as int;
    let den = pre.rule().cut().den() as int;
    let limit = pre.limit() as int;
    assert((num * limit) / den <= limit) by (nonlinear_arith)
        requires
            0 <= num <= den,
            den > 0,
            limit >= 0,
    ;
}

/// What happens to a limiter.
pub enum Event {
    /// A request asked for a place and got one or not.
    Asked {
        /// Whether it got one.
        ok: bool,
    },
    /// A request gave its place back.
    Settled {
        /// How it fared.
        outcome: Outcome,
    },
}

/// Whether `event` turned `pre` into `post`.
pub open spec fn happens<S: AdaptiveStrategy, C>(
    pre: AdaptiveLimiter<S, C>,
    post: AdaptiveLimiter<S, C>,
    event: Event,
) -> bool {
    match event {
        Event::Asked { ok } => pre.reserved(&post, ok),
        Event::Settled { outcome } => pre.flying() > 0 && pre.settled(&post, outcome),
    }
}

/// How many of `events` gave out a place.
pub open spec fn places_given(events: Seq<Event>) -> nat
    decreases events.len(),
{
    if events.len() == 0 {
        0
    } else {
        places_given(events.drop_last()) + if events.last() == (Event::Asked { ok: true }) {
            1nat
        } else {
            0nat
        }
    }
}

/// How many of `events` took a place back.
pub open spec fn places_returned(events: Seq<Event>) -> nat
    decreases events.len(),
{
    if events.len() == 0 {
        0
    } else {
        places_returned(events.drop_last()) + if events.last() is Settled {
            1nat
        } else {
            0nat
        }
    }
}

/// However requests come and go, those under way are the places given out less those returned, and
/// never more than the ceiling: so nothing is under way once every place has been returned.
pub proof fn lemma_every_place_comes_back<S: AdaptiveStrategy, C>(
    states: Seq<AdaptiveLimiter<S, C>>,
    events: Seq<Event>,
)
    requires
        states.len() == events.len() + 1,
        states[0].valid(),
        states[0].flying() == 0,
        forall|i: int|
            0 <= i < events.len() ==> happens(#[trigger] states[i], states[i + 1], events[i]),
    ensures
        states.last().valid(),
        states.last().most() == states[0].most(),
        states.last().flying() == places_given(events) - places_returned(events),
        states.last().flying() <= states[0].most(),
        places_given(events) == places_returned(events) ==> states.last().flying() == 0,
    decreases events.len(),
{
    if events.len() > 0 {
        let s = states.drop_last();
        let e = events.drop_last();
        let n = events.len() - 1;
        assert forall|i: int| 0 <= i < e.len() implies happens(#[trigger] s[i], s[i + 1], e[i]) by {
            assert(happens(states[i], states[i + 1], events[i]));
        }
        lemma_every_place_comes_back(s, e);
        assert(s.last() == states[n]);
        assert(happens(states[n], states[n + 1], events[n]));
    }
}

/// The limit after `n` requests in a row that all fared alike, each settled with the limit reached.
pub open spec fn limit_after(
    rule: Aimd,
    limit: u32,
    floor: u32,
    ceiling: u32,
    outcome: Outcome,
    n: nat,
) -> u32
    decreases n,
{
    if n == 0 {
        limit
    } else {
        let before = limit_after(rule, limit, floor, ceiling, outcome, (n - 1) as nat);
        clamped(rule.proposal(before, before, outcome), floor, ceiling)
    }
}

/// Failures drive the limit down to its floor, and no further: each takes off at least one until
/// it is there.
pub proof fn lemma_failures_reach_the_floor(
    rule: Aimd,
    limit: u32,
    floor: u32,
    ceiling: u32,
    n: nat,
)
    requires
        1 <= floor <= limit <= ceiling,
        rule.cut().num() < rule.cut().den(),
    ensures
        floor <= limit_after(rule, limit, floor, ceiling, Outcome::Failure, n) <= max_int(
            limit - n,
            floor as int,
        ),
    decreases n,
{
    if n > 0 {
        lemma_failures_reach_the_floor(rule, limit, floor, ceiling, (n - 1) as nat);
        let before = limit_after(rule, limit, floor, ceiling, Outcome::Failure, (n - 1) as nat);
        let num = rule.cut().num();
        let den = rule.cut().den();
        assert((num * before as nat) / den < before || before == 0) by (nonlinear_arith)
            requires
                0 <= num < den,
                before >= 0,
        ;
    }
}

/// Successes with the limit reached drive it up to its ceiling, and no further.
pub proof fn lemma_successes_reach_the_ceiling(
    rule: Aimd,
    limit: u32,
    floor: u32,
    ceiling: u32,
    rtt: Duration,
    n: nat,
)
    requires
        1 <= floor <= limit <= ceiling,
        rule.step() >= 1,
    ensures
        min_int(limit + n, ceiling as int) <= limit_after(
            rule,
            limit,
            floor,
            ceiling,
            Outcome::Success { rtt },
            n,
        ) <= ceiling,
    decreases n,
{
    if n > 0 {
        lemma_successes_reach_the_ceiling(rule, limit, floor, ceiling, rtt, (n - 1) as nat);
    }
}

/// The limit goes where the rule wants it, as far as its bounds let it: never below the floor,
/// never above the ceiling.
pub proof fn lemma_the_limit_follows_the_rule_within_its_bounds<S: AdaptiveStrategy, C>(
    pre: AdaptiveLimiter<S, C>,
    post: AdaptiveLimiter<S, C>,
    outcome: Outcome,
)
    requires
        pre.valid(),
        pre.flying() > 0,
        pre.settled(&post, outcome),
    ensures
        pre.least() <= post.limit() <= pre.most(),
        post.least() == pre.least(),
        post.most() == pre.most(),
        ({
            let wanted = pre.rule().proposal(pre.limit(), pre.flying(), outcome);
            &&& pre.least() <= wanted <= pre.most() ==> post.limit() == wanted
            &&& wanted < pre.least() ==> post.limit() == pre.least()
            &&& wanted > pre.most() ==> post.limit() == pre.most()
        }),
        post.flying() == pre.flying() - 1,
{
}

/// Of requests that ask one after the other while none gives its place back, as many get one as the
/// limit leaves free, the first of them, and the limit stays where it is.
pub proof fn lemma_places_are_given_up_to_the_limit<S: AdaptiveStrategy, C>(
    states: Seq<AdaptiveLimiter<S, C>>,
    oks: Seq<bool>,
)
    requires
        states.len() == oks.len() + 1,
        states[0].valid(),
        forall|i: int|
            0 <= i < oks.len() ==> (#[trigger] states[i]).reserved(&states[i + 1], oks[i]),
    ensures
        states.last().limit() == states[0].limit(),
        forall|i: int|
            0 <= i < oks.len() ==> #[trigger] oks[i] == (states[0].flying() + i < states[0].limit()),
        states.last().flying() == (if states[0].flying() + oks.len() <= states[0].limit() {
            states[0].flying() + oks.len()
        } else {
            max_int(states[0].flying() as int, states[0].limit() as int)
        }),
    decreases oks.len(),
{
    if oks.len() > 0 {
        let s = states.drop_last();
        let o = oks.drop_last();
        let n = oks.len() - 1;
        assert forall|i: int| 0 <= i < o.len() implies (#[trigger] s[i]).reserved(
            &s[i + 1],
            o[i],
        ) by {
            assert(states[i].reserved(&states[i + 1], oks[i]));
        }
        lemma_places_are_given_up_to_the_limit(s, o);
        assert(s.last() == states[n]);
        assert(states[n].reserved(&states[n + 1], oks[n]));
        assert forall|i: int| 0 <= i < oks.len() implies #[trigger] oks[i] == (states[0].flying() + i
            < states[0].limit()) by {
            if i < n {
                assert(o[i] == oks[i]);
            }
        }
    }
}

/// A limiter that is made with a floor, a ceiling and a limit to start at has a floor of at least
/// one, a ceiling no lower, and starts at the limit if that lies between them, else at the nearer
/// of the two.
pub proof fn lemma_bounds_are_put_in_order<S: AdaptiveStrategy, C>(
    limiter: AdaptiveLimiter<S, C>,
    rule: S,
    floor: u32,
    ceiling: u32,
    initial: u32,
)
    requires
        limiter.fresh(rule, floor, ceiling, initial),
    ensures
        1 <= limiter.least() <= limiter.limit() <= limiter.most(),
        floor > 0 ==> limiter.least() == floor,
        floor == 0 ==> limiter.least() == 1,
        ceiling >= limiter.least() ==> limiter.most() == ceiling,
        ceiling < limiter.least() ==> limiter.most() == limiter.least(),
        limiter.least() <= initial <= limiter.most() ==> limiter.limit() == initial,
        initial < limiter.least() ==> limiter.limit() == limiter.least(),
        initial > limiter.most() ==> limiter.limit() == limiter.most(),
        limiter.flying() == 0,
        limiter.rule() == rule,
{
}

/// The time of a request is what its clock has gone on by since it started, and nothing where the
/// clock has gone back.
pub proof fn lemma_a_request_takes_from_its_start_to_its_end(started: Duration, now: Duration)
    ensures
        started@ <= now@ ==> started@ + time_since(started, now)@ == now@,
        started@ > now@ ==> time_since(started, now)@ == 0,
{
}

/// A request that took no time counts as one that took a nanosecond.
pub proof fn lemma_no_time_counts_as_a_nanosecond(rule: Vegas, post: Vegas, current: u32, in_flight: u32)
    ensures
        rule.proposal(current, in_flight, Outcome::Success { rtt: span(0) }) == rule.proposal(
            current,
            in_flight,
            Outcome::Success { rtt: span(1) },
        ),
        rule.learns(&post, current, in_flight, Outcome::Success { rtt: span(0) }) <==> rule.learns(
            &post,
            current,
            in_flight,
            Outcome::Success { rtt: span(1) },
        ),
{
}

/// The outcomes among `events`, in order.
pub open spec fn outcomes_in(events: Seq<Event>) -> Seq<Outcome>
    decreases events.len(),
{
    if events.len() == 0 {
        Seq::empty()
    } else {
        let before = outcomes_in(events.drop_last());
        match events.last() {
            Event::Settled { outcome } => before.push(outcome),
            Event::Asked { .. } => before,
        }
    }
}

/// However requests come and go, a limiter holds the time of the next success against the best time
/// of all successes since it was made: the share of its limit by which the last took longer is
/// taken to wait, and the limit grows by one, stays or shrinks by one as fewer than `alpha` wait,
/// more than `beta`, or a number between, as far as its bounds let it.
pub proof fn lemma_a_limiter_remembers_the_best_time<C>(
    states: Seq<AdaptiveLimiter<Vegas, C>>,
    events: Seq<Event>,
    post: AdaptiveLimiter<Vegas, C>,
    rtt: Duration,
    best: int,
)
    requires
        states.len() == events.len() + 1,
        states[0].valid(),
        states[0].rule().is_new(),
        forall|i: int|
            0 <= i < events.len() ==> happens(#[trigger] states[i], states[i + 1], events[i]),
        states.last().flying() > 0,
        states.last().settled(&post, Outcome::Success { rtt }),
        0 < rtt@ <= u64::MAX,
        is_best_time(outcomes_in(events), rtt@ as int, best),
    ensures
        ({
            let limit = states.last().limit();
            let waiting = min_int(limit * (rtt@ - best), u64::MAX as int) / rtt@ as int;
            let low = states[0].rule().low();
            let high = states[0].rule().high();
            &&& waiting < low ==> post.limit() == min_int(limit + 1, states[0].most() as int)
            &&& low <= waiting <= high ==> post.limit() == limit
            &&& waiting > high && waiting >= low ==> post.limit() == max_int(
                limit - 1,
                states[0].least() as int,
            )
        }),
{
    lemma_best_is_remembered(states, events);
    let outcomes = outcomes_in(events);
    let kept = states.last().rule().quickest();
    let last = rtt@ as int;
    assert(best == min_int(kept as int, last)) by {
        if best != last {
            let i = choose|i: int|
                0 <= i < outcomes.len() && (#[trigger] outcomes[i] matches Outcome::Success { rtt }
                    && best == max_int(rtt@ as int, 1));
            assert(kept <= Vegas::time_of(outcomes[i]->rtt));
        }
        if kept < last {
            let i = choose|i: int|
                0 <= i < outcomes.len() && (#[trigger] outcomes[i] matches Outcome::Success { rtt }
                    && kept == Vegas::time_of(rtt));
            assert(best <= max_int(outcomes[i]->rtt@ as int, 1));
        }
    }
}

/// What a limiter's rule keeps is the time of some success so far, and none was quicker.
proof fn lemma_best_is_remembered<C>(states: Seq<AdaptiveLimiter<Vegas, C>>, events: Seq<Event>)
    requires
        states.len() == events.len() + 1,
        states[0].valid(),
        states[0].rule().is_new(),
        forall|i: int|
            0 <= i < events.len() ==> happens(#[trigger] states[i], states[i + 1], events[i]),
    ensures
        states.last().valid(),
        states.last().least() == states[0].least(),
        states.last().most() == states[0].most(),
        states.last().rule().low() == states[0].rule().low(),
        states.last().rule().high() == states[0].rule().high(),
        forall|i: int|
            0 <= i < outcomes_in(events).len() ==> (#[trigger] outcomes_in(events)[i] matches Outcome::Success {
                rtt,
            } ==> states.last().rule().quickest() <= Vegas::time_of(rtt)),
        states.last().rule().quickest() == u64::MAX || exists|i: int|
            0 <= i < outcomes_in(events).len() && (#[trigger] outcomes_in(events)[i] matches Outcome::Success {
                rtt,
            } && states.last().rule().quickest() == Vegas::time_of(rtt)),
    decreases events.len(),
{
    if events.len() > 0 {
        let s = states.drop_last();
        let e = events.drop_last();
        let n = events.len() - 1;
        assert forall|i: int| 0 <= i < e.len() implies happens(#[trigger] s[i], s[i + 1], e[i]) by {
            assert(happens(states[i], states[i + 1], events[i]));
        }
        lemma_best_is_remembered(s, e);
        assert(s.last() == states[n]);
        assert(happens(states[n], states[n + 1], events[n]));
        let before = outcomes_in(e);
        let after = outcomes_in(events);
        let kept = states.last().rule().quickest();
        assert forall|i: int| 0 <= i < after.len() implies (#[trigger] after[i] matches Outcome::Success {
            rtt,
        } ==> kept <= Vegas::time_of(rtt)) by {
            if i < before.len() {
                assert(after[i] == before[i]);
            }
        }
        if kept != u64::MAX {
            if kept == s.last().rule().quickest() {
                let i = choose|i: int|
                    0 <= i < before.len() && (#[trigger] before[i] matches Outcome::Success { rtt }
                        && kept == Vegas::time_of(rtt));
                assert(after[i] == before[i]);
            } else {
                assert(after[before.len() as int] is Success);
            }
        }
    }
}

} // verus!
