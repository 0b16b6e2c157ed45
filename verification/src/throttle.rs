//! A single token-bucket limiter.

use vstd::prelude::*;

use crate::bucket::{
    in_order, is_step, lemma_full_again_after_a_period,
    lemma_the_sustained_rate_is_the_refill_rate, tier_one, TokenBucket,
};
use crate::clock::{may_be_now, reading_of, Clock, SystemClock};
use crate::decision::Decision;
use crate::error::ThrottleError;
use crate::limiter::{granted_in_all, Limiter, Reading};
use crate::step::{next_step, step_after, Step};
use crate::time::{min_int, Duration, MAX_NANOS};

verus! {

/// A limiter that holds a number of tokens and regains them at a steady rate.
pub struct Throttle<C = SystemClock> {
    bucket: TokenBucket,
    clock: C,
}

impl Throttle<SystemClock> {
    /// Whether the throttle has a clock of its own that was set going when it was made, and its
    /// bucket fills from a reading of that clock.
    pub open spec fn starts_now(&self) -> bool {
        &&& may_be_now(self.clock().origin())
        &&& reading_of(self.clock(), self.bucket().started())
    }

    /// A throttle that holds up to `rate` tokens and regains `rate` a second, full.
    pub fn per_second(rate: u32) -> (throttle: Self)
        ensures
            throttle.valid(),
            throttle.limits() == tier_one(rate, 1_000_000_000),
            throttle.full(),
            throttle.starts_now(),
    {
        Throttle::per_duration(rate, Duration::from_secs(1))
    }

    /// A throttle that holds up to `amount` tokens and regains `amount` every `period`, full.
    pub fn per_duration(amount: u32, period: Duration) -> (throttle: Self)
        ensures
            throttle.valid(),
            throttle.limits() == tier_one(
                amount,
                min_int(period@ as int, MAX_NANOS as int) as nat,
            ),
            throttle.full(),
            throttle.starts_now(),
    {
        let clock = SystemClock::new();
        let now = clock.elapsed();
        Throttle { bucket: TokenBucket::new(amount, period, now), clock }
    }
}

impl<C> Throttle<C> {
    /// The bucket behind the throttle.
    pub closed spec fn bucket(&self) -> TokenBucket {
        self.bucket
    }

    /// The time source of the throttle.
    pub closed spec fn clock(&self) -> C {
        self.clock
    }

    /// The capacity, the tokens regained per period, and the period in nanoseconds.
    pub open spec fn limits(&self) -> (u32, u32, nat) {
        (self.bucket().limit(), self.bucket().refill(), self.bucket().period())
    }

    /// Whether the throttle holds all the tokens it can, whatever its clock reads.
    pub open spec fn full(&self) -> bool {
        forall|t: Duration| #[trigger] self.bucket().tokens(t) == self.bucket().limit()
    }
}

impl<C: Clock> Throttle<C> {
    /// The throttle with `clock` as its time source, full.
    pub fn with_clock<D: Clock>(self, clock: D) -> (throttle: Throttle<D>)
        requires
            self.bucket().valid(),
        ensures
            throttle.valid(),
            throttle.limits() == self.limits(),
            throttle.full(),
            throttle.clock() == clock,
            reading_of(clock, throttle.bucket().started()),
    {
        let now = clock.elapsed();
        Throttle { bucket: self.bucket.renewed(now), clock }
    }

    /// The most tokens the throttle can hold.
    pub fn capacity(&self) -> (n: u32)
        ensures
            n == self.bucket().limit(),
    {
        self.bucket.capacity()
    }

    /// The tokens on hand now.
    pub fn available(&self) -> (n: u32)
        ensures
            exists|now: Duration|
                reading_of(self.clock(), now) && n == #[trigger] self.bucket().tokens(now),
    {
        let now = self.clock.elapsed();
        let n: u32 = self.bucket.available_at(now);
        assert(n == self.bucket().tokens(now));
        n
    }

    /// Takes one token now, if there is one.
    pub fn try_acquire(&mut self) -> (ok: bool)
        requires
            old(self).bucket().valid(),
        ensures
            exists|now: Duration|
                reading_of(old(self).clock(), now) && #[trigger] old(self).took(
                    final(self),
                    1,
                    now,
                    ok,
                ),
    {
        self.try_acquire_with_cost(1)
    }

    /// Takes `cost` tokens now, all or none.
    pub fn try_acquire_with_cost(&mut self, cost: u32) -> (ok: bool)
        requires
            old(self).bucket().valid(),
        ensures
            exists|now: Duration|
                reading_of(old(self).clock(), now) && #[trigger] old(self).took(
                    final(self),
                    cost,
                    now,
                    ok,
                ),
    {
        let now = self.clock.elapsed();
        let ok = self.bucket.decide_at(cost, now).is_acquired();
        assert(old(self).took(self, cost, now, ok));
        ok
    }

    /// What a request for `cost` tokens would get now, taking nothing. The wait in the answer is
    /// estimated from the refill rate.
    pub fn peek(&self, cost: u32) -> (answer: Decision)
        requires
            self.bucket().valid(),
        ensures
            exists|now: Duration|
                reading_of(self.clock(), now) && answer == #[trigger] self.bucket().peeked(
                    cost,
                    now,
                ),
    {
        let now = self.clock.elapsed();
        self.bucket.peek_at(cost, now)
    }

    /// Takes tokens now until no more than `remaining` are left, and gives how many were taken.
    pub fn drain_to(&mut self, remaining: u64) -> (drained: u32)
        requires
            old(self).bucket().valid(),
        ensures
            exists|now: Duration|
                reading_of(old(self).clock(), now) && #[trigger] old(self).drained(
                    final(self),
                    remaining,
                    now,
                    drained,
                ),
            forall|t: Duration| #[trigger]
                final(self).bucket().tokens(t) <= old(self).bucket().tokens(t),
    {
        let now = self.clock.elapsed();
        let available: u32 = self.bucket.available_at(now);
        let mut drained: u32 = 0;
        if remaining < available as u64 {
            drained = available - remaining as u32;
            let answer = self.bucket.decide_at(drained, now);
            if !answer.is_acquired() {
                drained = 0;
            }
        }
        assert(old(self).drained(self, remaining, now, drained));
        drained
    }

    /// Whether draining to `remaining` at the reading `now` took `drained` tokens and turned
    /// `self` into `post`.
    pub open spec fn drained(&self, post: &Self, remaining: u64, now: Duration, drained: u32) -> bool {
        let available = self.bucket().tokens(now);
        if available <= remaining {
            drained == 0 && *post == *self
        } else {
            drained == available - remaining && self.took(post, drained, now, true)
        }
    }

    /// One step of an acquisition that waits for `cost` tokens.
    pub fn acquire_step(&mut self, cost: u32) -> (step: Step)
        requires
            old(self).bucket().valid(),
        ensures
            exists|now: Duration, answer: Decision|
                {
                    &&& reading_of(old(self).clock(), now)
                    &&& #[trigger] old(self).bucket().answered(cost, now, answer)
                    &&& step == step_after(answer, cost, old(self).bucket().limit())
                    &&& old(self).took(final(self), cost, now, answer is Acquired)
                },
            cost > old(self).bucket().limit() ==> step == Step::Failed(
                ThrottleError::CostExceedsCapacity { cost, capacity: old(self).bucket().limit() },
            ) && final(self).bucket() == old(self).bucket(),
    {
        let now = self.clock.elapsed();
        let answer = self.bucket.decide_at(cost, now);
        assert(old(self).took(self, cost, now, answer is Acquired));
        assert(old(self).bucket().answered(cost, now, answer));
        next_step(answer, cost, self.bucket.capacity())
    }

    /// Whether a request for `cost` tokens at the reading `now` turns `self` into `post`, granted
    /// or not as `ok` says.
    pub open spec fn took(&self, post: &Self, cost: u32, now: Duration, ok: bool) -> bool {
        &&& post.bucket().valid()
        &&& self.bucket().same_limits(&post.bucket())
        &&& post.clock() == self.clock()
        &&& ok == (cost <= self.bucket().tokens(now))
        &&& ok ==> self.bucket().charged(&post.bucket(), cost, now)
        &&& !ok ==> post.bucket() == self.bucket()
    }
}

/// A throttle that was drained holds what was to remain, or what it held if that was less, and the
/// difference was taken; as long as it counts single tokens.
pub proof fn lemma_a_drained_throttle_holds_what_remains<C: Clock>(
    pre: Throttle<C>,
    post: Throttle<C>,
    remaining: u64,
    now: Duration,
    drained: u32,
)
    requires
        pre.drained(&post, remaining, now, drained),
        pre.bucket().exact(),
    ensures
        post.bucket().tokens(now) == min_int(pre.bucket().tokens(now) as int, remaining as int),
        drained == pre.bucket().tokens(now) - post.bucket().tokens(now),
{
}

/// A throttle keeps to its rate: over any run of requests, the tokens granted are at most a full
/// bucket, two more, and what the rate refills from the first reading to the last.
pub proof fn lemma_a_throttle_keeps_to_its_rate<C: Clock>(
    states: Seq<Throttle<C>>,
    costs: Seq<u32>,
    times: Seq<Duration>,
    answers: Seq<Decision>,
)
    requires
        costs.len() > 0,
        states.len() == costs.len() + 1,
        times.len() == costs.len(),
        answers.len() == costs.len(),
        states[0].valid(),
        in_order(times),
        forall|i: int|
            0 <= i < costs.len() ==> (#[trigger] states[i]).took(
                &states[i + 1],
                costs[i],
                times[i],
                answers[i] is Acquired,
            ),
        states[0].bucket().exact(),
        states[0].bucket().period() <= u64::MAX,
    ensures
        ({
            let first = states[0].bucket();
            granted_in_all(costs, answers) * first.period() <= (first.limit() + 2) * first.period()
                + (times.last()@ - times[0]@) * first.refill()
        }),
{
    let buckets = Seq::new(states.len(), |i: int| states[i].bucket());
    assert forall|i: int| 0 <= i < costs.len() implies #[trigger] is_step(
        buckets,
        costs,
        times,
        answers,
        i,
    ) by {
        assert(states[i].took(&states[i + 1], costs[i], times[i], answers[i] is Acquired));
    }
    lemma_the_sustained_rate_is_the_refill_rate(buckets, costs, times, answers);
}

/// A throttle that has granted tokens is full again a refill period later, if nothing is taken
/// meanwhile and its clock has not run for 73 years.
pub proof fn lemma_a_throttle_is_full_again_after_a_period<C: Clock>(
    pre: Throttle<C>,
    post: Throttle<C>,
    cost: u32,
    now: Duration,
    later: Duration,
)
    requires
        pre.took(&post, cost, now, true),
        cost > 0,
        pre.bucket().exact(),
        pre.bucket().started()@ <= now@,
        now@ + pre.bucket().period() <= later@,
        later@ - pre.bucket().started()@ <= 0x2000_0000_0000_0000,
    ensures
        post.bucket().tokens(later) == pre.bucket().limit(),
{
    lemma_full_again_after_a_period(pre.bucket(), post.bucket(), cost, now, later);
}

impl<C: Clock> Limiter for Throttle<C> {
    open spec fn valid(&self) -> bool {
        self.bucket().valid()
    }

    open spec fn reads(&self, at: Reading) -> bool {
        true
    }

    open spec fn may_read(&self, at: Reading) -> bool {
        reading_of(self.clock(), at.at) && at.parts@.len() == 0
    }

    open spec fn limit(&self) -> u32 {
        self.bucket().limit()
    }

    open spec fn tokens(&self, at: Reading) -> u32 {
        self.bucket().tokens(at.at)
    }

    open spec fn peeked(&self, cost: u32, at: Reading) -> Decision {
        self.bucket().peeked(cost, at.at)
    }

    open spec fn answered(&self, cost: u32, at: Reading, answer: Decision) -> bool {
        self.bucket().answered(cost, at.at, answer)
    }

    open spec fn exact(&self, at: Reading) -> bool {
        self.bucket().exact()
    }

    proof fn lemma_peek(&self, cost: u32, at: Reading) {
        self.bucket().lemma_bounded(at.at);
    }

    fn read(&self) -> (at: Reading) {
        Reading::single(self.clock.elapsed())
    }

    fn peek_at(&self, cost: u32, at: &Reading) -> (answer: Decision) {
        let answer = self.bucket.peek_at(cost, at.at);
        assert(self.tokens(*at) == self.bucket().tokens(at.at));
        assert(self.limit() == self.bucket().limit());
        answer
    }

    fn acquire_cost_at(&mut self, cost: u32, at: &Reading) -> (answer: Decision)
        ensures
            old(self).took(final(self), cost, at.at, answer is Acquired),
    {
        self.bucket.decide_at(cost, at.at)
    }

    fn available_at(&self, at: &Reading) -> (n: u32) {
        self.bucket.available_at(at.at)
    }

    fn capacity(&self) -> (n: u32) {
        self.bucket.capacity()
    }
}

/// A throttle grants what it holds and no more: while its clock stands still, what requests get in
/// all and what is left make up what was on hand; each is granted exactly if what is left suffices,
/// and one that is refused changes nothing.
pub proof fn lemma_a_throttle_grants_what_it_holds<C: Clock>(
    states: Seq<Throttle<C>>,
    costs: Seq<u32>,
    oks: Seq<bool>,
    now: Duration,
)
    requires
        states.len() == costs.len() + 1,
        oks.len() == costs.len(),
        states[0].bucket().exact(),
        forall|i: int|
            0 <= i < costs.len() ==> (#[trigger] states[i]).took(
                &states[i + 1],
                costs[i],
                now,
                oks[i],
            ),
    ensures
        states.last().bucket().exact(),
        granted_cost(costs, oks) + states.last().bucket().tokens(now) == states[0].bucket().tokens(now),
        forall|i: int|
            0 <= i < costs.len() ==> #[trigger] oks[i] == (costs[i] <= states[i].bucket().tokens(now)),
        forall|i: int|
            0 <= i < costs.len() && !(#[trigger] oks[i]) ==> states[i + 1].bucket()
                == states[i].bucket(),
    decreases costs.len(),
{
    if costs.len() > 0 {
        let s = states.drop_last();
        let c = costs.drop_last();
        let o = oks.drop_last();
        let n = costs.len() - 1;
        assert forall|i: int| 0 <= i < c.len() implies (#[trigger] s[i]).took(
            &s[i + 1],
            c[i],
            now,
            o[i],
        ) by {
            assert(states[i].took(&states[i + 1], costs[i], now, oks[i]));
        }
        lemma_a_throttle_grants_what_it_holds(s, c, o, now);
        assert(s.last() == states[n]);
        assert(states[n].took(&states[n + 1], costs[n], now, oks[n]));
        assert forall|i: int| 0 <= i < costs.len() implies #[trigger] oks[i] == (costs[i]
            <= states[i].bucket().tokens(now)) by {
            assert(states[i].took(&states[i + 1], costs[i], now, oks[i]));
        }
        assert forall|i: int| 0 <= i < costs.len() && !(#[trigger] oks[i]) implies states[i
            + 1].bucket() == states[i].bucket() by {
            assert(states[i].took(&states[i + 1], costs[i], now, oks[i]));
        }
    }
}

/// The tokens granted in all, of requests for `costs` that were granted or not as `oks` says.
pub open spec fn granted_cost(costs: Seq<u32>, oks: Seq<bool>) -> nat
    decreases costs.len(),
{
    if costs.len() == 0 {
        0
    } else {
        granted_cost(costs.drop_last(), oks.drop_last()) + if oks.last() {
            costs.last() as nat
        } else {
            0nat
        }
    }
}

} // verus!
