//! A token bucket read at explicit instants.
//!
//! The accounting is done by the `better_bucket` crate. This module states what that accounting
//! does to the tokens on hand, and builds the limiter's answers on top of it.

use better_bucket::BucketCore;
use vstd::prelude::*;

use crate::decision::Decision;
use crate::limiter::granted_in_all;
use crate::time::{max_int, min_int, parts_nanos, span, Duration, MAX_NANOS};

verus! {

/// The bucket engine of `better_bucket`, carried as an opaque value.
#[verifier::external_type_specification]
#[verifier::external_body]
pub struct ExBucketCore(better_bucket::BucketCore);

/// The whole tokens that `bucket` holds when its clock reads `now` nanoseconds.
pub uninterp spec fn bucket_tokens(bucket: BucketCore, now: nat) -> nat;

/// What `bucket` was made with: its capacity, the tokens it gains per refill period, and that
/// period in nanoseconds.
pub uninterp spec fn bucket_limits(bucket: BucketCore) -> (u32, u32, nat);

/// The fraction of a token in which `bucket` counts: this many of them make a token.
pub uninterp spec fn bucket_grain(bucket: BucketCore) -> nat;

/// How full `bucket` is when its clock reads `now` nanoseconds, in fractions of a token.
pub uninterp spec fn bucket_level(bucket: BucketCore, now: nat) -> nat;

/// What flows to `bucket` until its clock reads `now` nanoseconds, in fractions of a token.
pub uninterp spec fn bucket_inflow(bucket: BucketCore, now: nat) -> nat;

/// The limits of a bucket that holds `amount` tokens and regains them every `period` nanoseconds.
/// With no tokens or no period the bucket holds nothing and never refills.
pub open spec fn tier_one(amount: u32, period: nat) -> (u32, u32, nat) {
    if amount == 0 || period == 0 {
        (0, 0, 1_000_000_000)
    } else {
        (amount, amount, period)
    }
}

/// Whether single tokens are accounted for exactly. A bucket that refills faster than 4.3 tokens
/// per nanosecond counts in blocks of several tokens.
pub open spec fn counts_singly(bucket: BucketCore) -> bool {
    10 * bucket_limits(bucket).1 <= 43 * bucket_limits(bucket).2
}

/// The most fractions of a token that `bucket` holds.
pub open spec fn brim(bucket: BucketCore) -> nat {
    bucket_limits(bucket).0 as nat * bucket_grain(bucket)
}

/// The tokens on hand never exceed the capacity, and never fall as the clock advances.
pub open spec fn steady(bucket: BucketCore) -> bool {
    &&& forall|t: nat| #[trigger] bucket_tokens(bucket, t) <= bucket_limits(bucket).0
    &&& forall|s: nat, t: nat|
        s <= t ==> #[trigger] bucket_tokens(bucket, s) <= #[trigger] bucket_tokens(bucket, t)
}

/// The whole tokens on hand are those that the fractions make up, and what is gained by waiting
/// flowed in meanwhile.
pub open spec fn filled_by_inflow(bucket: BucketCore) -> bool {
    &&& bucket_grain(bucket) > 0
    &&& forall|t: nat| #[trigger]
        bucket_tokens(bucket, t) == bucket_level(bucket, t) / bucket_grain(bucket)
    &&& forall|t: nat| #[trigger] bucket_level(bucket, t) <= brim(bucket)
    &&& forall|s: nat, t: nat|
        s <= t ==> #[trigger] bucket_inflow(bucket, s) <= #[trigger] bucket_inflow(bucket, t)
    &&& forall|s: nat, t: nat|
        s <= t ==> #[trigger] bucket_level(bucket, t) <= #[trigger] bucket_level(bucket, s)
            + bucket_inflow(bucket, t) - bucket_inflow(bucket, s)
}

/// The inflow keeps to the refill rate. From `s` to `t` it is that of the rate, less no more than
/// a fraction and plus no more than two. A period longer than the clock may gain more, and a clock
/// that has run for 73 years may lose some.
pub open spec fn paced(bucket: BucketCore, s: nat, t: nat) -> bool {
    let period = bucket_limits(bucket).2;
    let due = (t - s) * (bucket_limits(bucket).1 * bucket_grain(bucket));
    let flowed = bucket_inflow(bucket, t) - bucket_inflow(bucket, s);
    &&& period <= u64::MAX ==> flowed * period <= due + 2 * period
    &&& t <= 0x2000_0000_0000_0000 ==> due < (flowed + 1) * period
}

/// What holds of every bucket.
pub open spec fn sound(bucket: BucketCore) -> bool {
    &&& steady(bucket)
    &&& counts_singly(bucket) ==> filled_by_inflow(bucket)
    &&& counts_singly(bucket) ==> forall|s: nat, t: nat|
        s <= t ==> #[trigger] paced(bucket, s, t)
}

/// Whether `wait` is the wait reported to a request for `n` tokens that `bucket` refuses at `now`:
/// the least whole number of milliseconds after which it holds `n` tokens, or [`MAX_NANOS`] if it
/// never will.
pub open spec fn refusal_wait(bucket: BucketCore, n: u32, now: nat, wait: nat) -> bool {
    if wait == MAX_NANOS {
        forall|t: nat| #[trigger] bucket_tokens(bucket, t) < n
    } else {
        &&& wait < MAX_NANOS
        &&& wait % 1_000_000 == 0
        &&& n <= bucket_tokens(bucket, now + wait)
        &&& forall|t: nat|
            t + 1_000_000 <= now + wait ==> #[trigger] bucket_tokens(bucket, t) < n
    }
}

/// What granting `n` tokens at `now` does to a bucket: they are taken off what it holds, and it
/// fills up from there.
pub open spec fn granted(pre: BucketCore, post: BucketCore, n: u32, now: nat) -> bool {
    &&& bucket_limits(post) == bucket_limits(pre)
    &&& bucket_grain(post) == bucket_grain(pre)
    &&& sound(post)
    &&& forall|t: nat| #[trigger] bucket_tokens(post, t) <= bucket_tokens(pre, t)
    &&& counts_singly(pre) ==> bucket_level(post, now) == bucket_level(pre, now) - n
        * bucket_grain(pre)
    &&& counts_singly(pre) ==> forall|t: nat|
        now <= t ==> #[trigger] bucket_level(post, t) == min_int(
            bucket_level(post, now) + bucket_inflow(post, t) - bucket_inflow(post, now),
            brim(post) as int,
        )
}

/// `better_bucket::Bucket::per_duration`, whose configuration is handed to
/// `better_bucket::BucketCore::new` with the clock at zero.
///
/// Claimed: the capacity and the refill amount are `amount`, the refill period is the one given
/// (both zero, and one second, where `amount` or the period is zero), and the bucket starts full.
#[verifier::external_body]
fn full_bucket(amount: u32, secs: u64, nanos: u32) -> (bucket: BucketCore)
    requires
        nanos < 1_000_000_000,
    ensures
        bucket_limits(bucket) == tier_one(amount, parts_nanos(secs, nanos)),
        bucket_tokens(bucket, 0) == bucket_limits(bucket).0,
        counts_singly(bucket) ==> bucket_level(bucket, 0) == bucket_limits(bucket).0
            * bucket_grain(bucket),
        sound(bucket),
{
    let period = core::time::Duration::new(secs, nanos);
    let config = better_bucket::Bucket::per_duration(amount, period).config();
    BucketCore::new(config, core::time::Duration::ZERO)
}

/// `better_bucket::BucketCore::acquire_at`, which takes `n` tokens if it can.
///
/// Claimed: the tokens are taken (`None`) exactly when that many are on hand; a refusal, or a
/// request for none, changes nothing; and a refusal gives the wait, as seconds and nanoseconds.
#[verifier::external_body]
fn bucket_acquire(bucket: &mut BucketCore, n: u32, secs: u64, nanos: u32) -> (wait: Option<
    (u64, u32),
>)
    requires
        nanos < 1_000_000_000,
    ensures
        wait is None <==> n <= bucket_tokens(*old(bucket), parts_nanos(secs, nanos)),
        wait is None && n > 0 ==> granted(
            *old(bucket),
            *final(bucket),
            n,
            parts_nanos(secs, nanos),
        ),
        wait is Some || n == 0 ==> *final(bucket) == *old(bucket),
        forall|t: nat| #[trigger]
            bucket_inflow(*final(bucket), t) == bucket_inflow(*old(bucket), t),
        wait matches Some(w) ==> refusal_wait(
            *old(bucket),
            n,
            parts_nanos(secs, nanos),
            parts_nanos(w.0, w.1),
        ),
{
    match bucket.acquire_at(n, core::time::Duration::new(secs, nanos)) {
        better_bucket::Decision::Allowed => None,
        better_bucket::Decision::Denied { retry_after } => {
            Some((retry_after.as_secs(), retry_after.subsec_nanos()))
        },
        _ => Some((u64::MAX, 999_999_999)),
    }
}

/// `better_bucket::BucketCore::available_at`.
///
/// Claimed: it gives the tokens on hand.
#[verifier::external_body]
fn bucket_available(bucket: &BucketCore, secs: u64, nanos: u32) -> (n: u32)
    requires
        nanos < 1_000_000_000,
    ensures
        n == bucket_tokens(*bucket, parts_nanos(secs, nanos)),
{
    bucket.available_at(core::time::Duration::new(secs, nanos))
}

/// `better_bucket::BucketCore::capacity`.
///
/// Claimed: it gives the capacity that the bucket was made with.
#[verifier::external_body]
fn bucket_capacity(bucket: &BucketCore) -> (n: u32)
    ensures
        n == bucket_limits(*bucket).0,
{
    bucket.capacity()
}

/// `better_bucket::BucketCore::config`.
///
/// Claimed: it gives the refill amount, and the refill period as seconds and nanoseconds.
#[verifier::external_body]
fn bucket_refill(bucket: &BucketCore) -> (refill: (u32, u64, u32))
    ensures
        refill.0 == bucket_limits(*bucket).1,
        parts_nanos(refill.1, refill.2) == bucket_limits(*bucket).2,
        refill.2 < 1_000_000_000,
{
    let config = bucket.config();
    (config.refill_amount(), config.refill_period().as_secs(), config.refill_period().subsec_nanos())
}

/// `a` divided by `b`, rounded up.
pub open spec fn ceil_div(a: nat, b: nat) -> nat {
    if b == 0 {
        0
    } else {
        ((a + b - 1) / b as int) as nat
    }
}

/// An estimate of the wait until `deficit` tokens have accrued, `refill` tokens per `period`.
fn estimate_refill_wait(period: Duration, deficit: u32, refill: u32) -> (wait: Duration)
    requires
        refill > 0,
        period@ <= MAX_NANOS,
    ensures
        wait@ == min_int(ceil_div(period@ * deficit as nat, refill as nat) as int, u64::MAX as int),
{
    assert(0 <= period.nanos * deficit <= MAX_NANOS * u32::MAX) by (nonlinear_arith)
        requires
            0 <= period.nanos <= MAX_NANOS,
            0 <= deficit <= u32::MAX,
    ;
    assert(MAX_NANOS * u32::MAX < u128::MAX - u32::MAX) by (nonlinear_arith);
    let numerator: u128 = period.nanos * deficit as u128;
    let nanos: u128 = (numerator + (refill as u128 - 1)) / refill as u128;
    if nanos > u64::MAX as u128 {
        Duration::from_nanos(u64::MAX)
    } else {
        Duration::from_nanos(nanos as u64)
    }
}

/// A token bucket whose clock readings are handed in by the caller.
pub struct TokenBucket {
    core: BucketCore,
    origin: Duration,
}

impl TokenBucket {
    /// The invariant: the tokens on hand are bounded and never fall by waiting.
    pub closed spec fn valid(&self) -> bool {
        &&& sound(self.core)
        &&& bucket_limits(self.core).2 <= MAX_NANOS
        &&& bucket_limits(self.core) == tier_one(
            bucket_limits(self.core).1,
            bucket_limits(self.core).2,
        )
    }

    /// The nanoseconds on the bucket's own clock at the reading `now`.
    spec fn elapsed(&self, now: Duration) -> nat {
        min_int(max_int(now@ - self.origin@, 0), MAX_NANOS as int) as nat
    }

    /// The most tokens the bucket can hold.
    pub closed spec fn limit(&self) -> u32 {
        bucket_limits(self.core).0
    }

    /// The tokens gained every [`TokenBucket::period`].
    pub closed spec fn refill(&self) -> u32 {
        bucket_limits(self.core).1
    }

    /// The refill period in nanoseconds.
    pub closed spec fn period(&self) -> nat {
        bucket_limits(self.core).2
    }

    /// The tokens on hand at the reading `now`.
    pub closed spec fn tokens(&self, now: Duration) -> u32 {
        bucket_tokens(self.core, self.elapsed(now)) as u32
    }

    /// The fraction of a token in which the bucket counts: this many of them make a token.
    pub closed spec fn grain(&self) -> nat {
        bucket_grain(self.core)
    }

    /// How full the bucket is at the reading `now`, in fractions of a token.
    pub closed spec fn level(&self, now: Duration) -> nat {
        bucket_level(self.core, self.elapsed(now))
    }

    /// What flows to the bucket until the reading `now`, in fractions of a token.
    pub closed spec fn inflow(&self, now: Duration) -> nat {
        bucket_inflow(self.core, self.elapsed(now))
    }

    /// Whether single tokens are accounted for exactly.
    pub open spec fn exact(&self) -> bool {
        10 * self.refill() <= 43 * self.period()
    }

    /// What a peek for `cost` tokens answers at the reading `now`.
    pub open spec fn peeked(&self, cost: u32, now: Duration) -> Decision {
        if cost > self.limit() {
            Decision::Impossible
        } else if cost <= self.tokens(now) {
            Decision::Acquired
        } else {
            Decision::Retry {
                after: span(
                    min_int(
                        ceil_div(
                            self.period() * (cost - self.tokens(now)) as nat,
                            self.refill() as nat,
                        ) as int,
                        u64::MAX as int,
                    ) as nat,
                ),
            }
        }
    }

    /// Whether the bucket will never hold `cost` tokens, however long one waits.
    pub open spec fn never(&self, cost: u32) -> bool {
        forall|t: Duration| #[trigger] self.tokens(t) < cost
    }

    /// Whether `after` is the wait reported for `cost` tokens refused at the reading `now`: whole
    /// milliseconds, the fewest after which the tokens are there.
    pub open spec fn waits(&self, cost: u32, now: Duration, after: Duration) -> bool {
        let due = max_int(now@ as int, self.started()@ as int) + after@;
        &&& 0 < after@ < MAX_NANOS
        &&& after@ % 1_000_000 == 0
        &&& forall|t: Duration|
            due <= t@ <= self.started()@ + MAX_NANOS ==> cost <= #[trigger] self.tokens(t)
        &&& forall|t: Duration| t@ + 1_000_000 <= due ==> #[trigger] self.tokens(t) < cost
    }

    /// Whether `answer` is what a request for `cost` tokens gets at the reading `now`.
    pub open spec fn answered(&self, cost: u32, now: Duration, answer: Decision) -> bool {
        match answer {
            Decision::Acquired => cost <= self.tokens(now),
            Decision::Impossible => self.never(cost),
            Decision::Retry { after } => self.tokens(now) < cost <= self.limit() && self.waits(
                cost,
                now,
                after,
            ),
        }
    }

    /// The reading at which the bucket was made.
    pub closed spec fn started(&self) -> Duration {
        self.origin
    }

    /// What taking `cost` tokens at the reading `now` turns `self` into.
    pub open spec fn charged(&self, post: &Self, cost: u32, now: Duration) -> bool {
        &&& forall|t: Duration| #[trigger] post.tokens(t) <= self.tokens(t)
        &&& self.exact() ==> {
            &&& post.tokens(now) == self.tokens(now) - cost
            &&& post.level(now) == self.level(now) - cost * self.grain()
            &&& forall|t: Duration|
                now@ <= t@ ==> self.tokens(t) <= #[trigger] post.tokens(t) + cost
            &&& cost > 0 ==> forall|t: Duration|
                now@ <= t@ ==> #[trigger] post.level(t) == min_int(
                    post.level(now) + post.inflow(t) - post.inflow(now),
                    (post.limit() * post.grain()) as int,
                )
        }
    }

    /// Whether `post` has the limits and the clock origin of `self`.
    pub open spec fn same_limits(&self, post: &Self) -> bool {
        &&& post.limit() == self.limit()
        &&& post.refill() == self.refill()
        &&& post.period() == self.period()
        &&& post.started() == self.started()
        &&& post.grain() == self.grain()
        &&& forall|t: Duration| #[trigger] post.inflow(t) == self.inflow(t)
    }

    /// A bucket that holds up to `amount` tokens and regains `amount` every `period`, full at the
    /// reading `now`. With no tokens or no period it never grants anything.
    pub fn new(amount: u32, period: Duration, now: Duration) -> (bucket: Self)
        ensures
            bucket.valid(),
            (bucket.limit(), bucket.refill(), bucket.period()) == tier_one(
                amount,
                min_int(period@ as int, MAX_NANOS as int) as nat,
            ),
            bucket.started() == now,
            forall|t: Duration| #[trigger] bucket.tokens(t) == bucket.limit(),
    {
        let (secs, nanos) = period.to_parts();
        TokenBucket { core: full_bucket(amount, secs, nanos), origin: now }
    }

    /// A bucket with the limits of `self`, full at the reading `now`.
    pub fn renewed(&self, now: Duration) -> (bucket: Self)
        requires
            self.valid(),
        ensures
            bucket.valid(),
            bucket.limit() == self.limit(),
            bucket.refill() == self.refill(),
            bucket.period() == self.period(),
            bucket.started() == now,
            forall|t: Duration| #[trigger] bucket.tokens(t) == bucket.limit(),
    {
        let (refill, secs, nanos) = bucket_refill(&self.core);
        TokenBucket::new(refill, Duration::from_parts(secs, nanos), now)
    }

    /// The clock of the bucket at the reading `now`, as seconds and nanoseconds.
    fn clock_at(&self, now: Duration) -> (parts: (u64, u32))
        ensures
            parts.1 < 1_000_000_000,
            parts_nanos(parts.0, parts.1) == self.elapsed(now),
    {
        now.saturating_sub(self.origin).to_parts()
    }

    /// The most tokens the bucket can hold.
    pub fn capacity(&self) -> (n: u32)
        ensures
            n == self.limit(),
    {
        bucket_capacity(&self.core)
    }

    /// The tokens on hand at the reading `now`.
    pub fn available_at(&self, now: Duration) -> (n: u32)
        ensures
            n == self.tokens(now),
    {
        let (secs, nanos) = self.clock_at(now);
        bucket_available(&self.core, secs, nanos)
    }

    /// What a request for `cost` tokens would get at the reading `now`, taking nothing. The wait
    /// in the answer is estimated from the refill rate.
    pub fn peek_at(&self, cost: u32, now: Duration) -> (answer: Decision)
        requires
            self.valid(),
        ensures
            answer == self.peeked(cost, now),
            answer is Acquired <==> cost <= self.tokens(now),
    {
        let capacity: u32 = self.capacity();
        let (secs, nanos) = self.clock_at(now);
        if cost > capacity {
            return Decision::Impossible;
        }
        let available: u32 = bucket_available(&self.core, secs, nanos);
        if available >= cost {
            return Decision::Acquired;
        }
        let (refill, period_secs, period_nanos) = bucket_refill(&self.core);
        let period = Duration::from_parts(period_secs, period_nanos);
        if refill == 0 || period.is_zero() {
            return Decision::Impossible;
        }
        Decision::Retry { after: estimate_refill_wait(period, cost - available, refill) }
    }

    /// Takes `cost` tokens at the reading `now`, all or none.
    pub fn decide_at(&mut self, cost: u32, now: Duration) -> (answer: Decision)
        requires
            old(self).valid(),
        ensures
            final(self).valid(),
            old(self).answered(cost, now, answer),
            answer is Acquired <==> cost <= old(self).tokens(now),
            cost > old(self).limit() ==> answer is Impossible,
            old(self).same_limits(final(self)),
            answer is Acquired ==> old(self).charged(final(self), cost, now),
            answer !is Acquired ==> *final(self) == *old(self),
    {
        let (secs, nanos) = self.clock_at(now);
        let ghost pre = *self;
        match bucket_acquire(&mut self.core, cost, secs, nanos) {
            None => {
                proof {
                    if pre.exact() {
                        lemma_charged(pre, *self, cost, now);
                    }
                }
                Decision::Acquired
            },
            Some(wait) => {
                let after = Duration::from_parts(wait.0, wait.1);
                if after.nanos == MAX_NANOS {
                    Decision::Impossible
                } else {
                    proof {
                        lemma_waits(pre, cost, now, after);
                    }
                    Decision::Retry { after }
                }
            },
        }
    }

    /// The tokens on hand never exceed the capacity.
    pub proof fn lemma_bounded(&self, now: Duration)
        requires
            self.valid(),
        ensures
            self.tokens(now) <= self.limit(),
    {
    }
}

/// What a refusal says of the bucket's own clock holds of its readings.
proof fn lemma_waits(bucket: TokenBucket, cost: u32, now: Duration, after: Duration)
    requires
        bucket.valid(),
        cost > bucket.tokens(now),
        after@ < MAX_NANOS,
        refusal_wait(bucket.core, cost, bucket.elapsed(now), after@),
    ensures
        bucket.waits(cost, now, after),
{
    let e = bucket.elapsed(now);
    assert(after@ > 0) by {
        if after@ == 0 {
            assert(bucket_tokens(bucket.core, e + after@) == bucket_tokens(bucket.core, e));
        }
    }
    let due = max_int(now@ as int, bucket.started()@ as int) + after@;
    assert forall|t: Duration| due <= t@ <= bucket.started()@ + MAX_NANOS implies cost
        <= #[trigger] bucket.tokens(t) by {
        assert(bucket_tokens(bucket.core, e + after@) <= bucket_tokens(
            bucket.core,
            bucket.elapsed(t),
        ));
    }
    assert forall|t: Duration| t@ + 1_000_000 <= due implies #[trigger] bucket.tokens(t) < cost by {
        assert(bucket.elapsed(t) + 1_000_000 <= e + after@);
    }
}

/// A grant takes whole tokens off the tokens on hand, now and later.
proof fn lemma_charged(pre: TokenBucket, post: TokenBucket, cost: u32, now: Duration)
    requires
        pre.valid(),
        pre.exact(),
        pre.origin == post.origin,
        cost <= pre.tokens(now),
        cost > 0 ==> granted(pre.core, post.core, cost, pre.elapsed(now)),
        forall|t: nat| #[trigger] bucket_inflow(post.core, t) == bucket_inflow(pre.core, t),
        cost == 0 ==> post == pre,
    ensures
        post.tokens(now) == pre.tokens(now) - cost,
        post.level(now) == pre.level(now) - cost * pre.grain(),
        forall|t: Duration| now@ <= t@ ==> pre.tokens(t) <= #[trigger] post.tokens(t) + cost,
{
    let grain = pre.grain();
    if cost == 0 {
        assert(cost * grain == 0) by (nonlinear_arith)
            requires
                cost == 0,
        ;
    } else {
        let e = pre.elapsed(now);
        assert(bucket_tokens(pre.core, e) == bucket_level(pre.core, e) / grain);
        assert(bucket_tokens(post.core, e) == bucket_level(post.core, e) / grain);
        lemma_whole_tokens(bucket_level(pre.core, e) as int, cost as int, grain as int);
        assert forall|t: Duration| now@ <= t@ implies pre.tokens(t) <= #[trigger] post.tokens(t)
            + cost by {
            let f = pre.elapsed(t);
            assert(bucket_tokens(pre.core, f) == bucket_level(pre.core, f) / grain);
            assert(bucket_tokens(post.core, f) == bucket_level(post.core, f) / grain);
            assert(bucket_level(pre.core, f) <= bucket_level(pre.core, e) + bucket_inflow(
                pre.core,
                f,
            ) - bucket_inflow(pre.core, e));
            assert(bucket_inflow(post.core, f) == bucket_inflow(pre.core, f));
            assert(bucket_inflow(post.core, e) == bucket_inflow(pre.core, e));
            let x = bucket_level(pre.core, f) as int;
            let y = bucket_level(post.core, f) as int;
            assert(0 <= cost * grain) by (nonlinear_arith)
                requires
                    0 <= cost,
                    0 <= grain,
            ;
            assert(x <= y + cost * grain);
            assert(x / grain as int <= y / grain as int + cost) by (nonlinear_arith)
                requires
                    x <= y + cost * grain,
                    grain > 0,
            ;
        }
    }
}

/// Taking whole tokens off takes them off the whole tokens on hand.
proof fn lemma_whole_tokens(level: int, n: int, grain: int)
    requires
        grain > 0,
    ensures
        (level - n * grain) / grain == level / grain - n,
{
    assert((level - n * grain) / grain == level / grain - n) by (nonlinear_arith)
        requires
            grain > 0,
    ;
}

/// Whether each of `states` comes from the one before by a request for tokens: number `i` asks for
/// `costs[i]` at the reading `times[i]` and gets `answers[i]`.
pub open spec fn is_run(
    states: Seq<TokenBucket>,
    costs: Seq<u32>,
    times: Seq<Duration>,
    answers: Seq<Decision>,
) -> bool {
    &&& states.len() == costs.len() + 1
    &&& times.len() == costs.len()
    &&& answers.len() == costs.len()
    &&& states[0].valid()
    &&& forall|i: int| 0 <= i < costs.len() ==> #[trigger] is_step(states, costs, times, answers, i)
}

/// Whether request number `i` of a run is answered as its bucket answers it.
pub open spec fn is_step(
    states: Seq<TokenBucket>,
    costs: Seq<u32>,
    times: Seq<Duration>,
    answers: Seq<Decision>,
    i: int,
) -> bool {
    &&& states[i + 1].valid()
    &&& states[i].same_limits(&states[i + 1])
    &&& answers[i] is Acquired ==> states[i].charged(&states[i + 1], costs[i], times[i])
    &&& answers[i] !is Acquired ==> states[i + 1] == states[i]
}

/// Whether no reading is before the one preceding it.
pub open spec fn in_order(times: Seq<Duration>) -> bool {
    forall|i: int, j: int|
        0 <= i <= j < times.len() ==> (#[trigger] times[i])@ <= (#[trigger] times[j])@
}

/// What is granted, with what is left, never exceeds a full bucket and what flowed in.
proof fn lemma_balance(
    states: Seq<TokenBucket>,
    costs: Seq<u32>,
    times: Seq<Duration>,
    answers: Seq<Decision>,
)
    requires
        is_run(states, costs, times, answers),
        in_order(times),
        costs.len() > 0,
        states[0].exact(),
    ensures
        states.last().valid(),
        states[0].same_limits(&states.last()),
        granted_in_all(costs, answers) * states[0].grain() + states.last().level(times.last())
            <= states[0].limit() * states[0].grain() + states[0].inflow(times.last())
            - states[0].inflow(times[0]),
    decreases costs.len(),
{
    let n = costs.len() - 1;
    let first = states[0];
    let grain = first.grain();
    let pre = states[n];
    let post = states[n + 1];
    let now = times[n];
    let total = granted_in_all(costs.drop_last(), answers.drop_last());
    assert(is_step(states, costs, times, answers, n));
    if n == 0 {
        assert(total == 0);
        assert(total * grain == 0) by (nonlinear_arith)
            requires
                total == 0,
        ;
        assert(bucket_level(first.core, first.elapsed(now)) <= brim(first.core));
    } else {
        let s = states.drop_last();
        let c = costs.drop_last();
        let t = times.drop_last();
        let a = answers.drop_last();
        assert forall|i: int| 0 <= i < c.len() implies #[trigger] is_step(s, c, t, a, i) by {
            assert(is_step(states, costs, times, answers, i));
        }
        lemma_balance(s, c, t, a);
        assert(s.last() == pre);
        assert(t.last() == times[n - 1]);
        assert(times[n - 1]@ <= times[n]@);
        let e = pre.elapsed(times[n - 1]);
        let f = pre.elapsed(now);
        assert(bucket_level(pre.core, f) <= bucket_level(pre.core, e) + bucket_inflow(pre.core, f)
            - bucket_inflow(pre.core, e));
        assert(pre.inflow(now) == first.inflow(now));
        assert(pre.inflow(times[n - 1]) == first.inflow(times[n - 1]));
    }
    if answers[n] is Acquired {
        assert((total + costs[n]) * grain == total * grain + costs[n] * grain) by (nonlinear_arith);
    }
}

/// The sustained rate is the refill rate: over any run of requests, from any state, the tokens
/// granted are at most a full bucket, two more, and what the rate refills from the first reading
/// to the last.
pub proof fn lemma_the_sustained_rate_is_the_refill_rate(
    states: Seq<TokenBucket>,
    costs: Seq<u32>,
    times: Seq<Duration>,
    answers: Seq<Decision>,
)
    requires
        is_run(states, costs, times, answers),
        in_order(times),
        costs.len() > 0,
        states[0].exact(),
        states[0].period() <= u64::MAX,
    ensures
        granted_in_all(costs, answers) * states[0].period() <= (states[0].limit() + 2)
            * states[0].period() + (times.last()@ - times[0]@) * states[0].refill(),
{
    lemma_balance(states, costs, times, answers);
    let first = states[0];
    let e = first.elapsed(times[0]);
    let f = first.elapsed(times.last());
    assert(times[0]@ <= times[costs.len() - 1]@);
    assert(paced(first.core, e, f));
    let total = granted_in_all(costs, answers) as int;
    let grain = first.grain() as int;
    let period = first.period() as int;
    let cap = first.limit() as int;
    let amount = first.refill() as int;
    let flowed = first.inflow(times.last()) - first.inflow(times[0]);
    let span = times.last()@ - times[0]@;
    assert(f - e <= span);
    assert((f - e) * (amount * grain) <= span * (amount * grain)) by (nonlinear_arith)
        requires
            f - e <= span,
            amount >= 0,
            grain >= 0,
    ;
    assert(total * grain <= cap * grain + flowed);
    assert(flowed * period <= span * (amount * grain) + 2 * period);
    assert(total * period <= (cap + 2) * period + span * amount) by (nonlinear_arith)
        requires
            total * grain <= cap * grain + flowed,
            flowed * period <= span * (amount * grain) + 2 * period,
            grain >= 1,
            period >= 0,
            span >= 0,
            amount >= 0,
    {
        assert((total * grain) * period <= (cap * grain + flowed) * period);
        assert((total * period) * grain <= (cap * period) * grain + (span * amount) * grain + 2
            * period);
        assert(2 * period <= (2 * period) * grain);
        assert((total * period) * grain <= ((cap + 2) * period + span * amount) * grain);
    }
}

/// A bucket that has granted tokens is full again a refill period later, if nothing is taken
/// meanwhile and its clock has not run for 73 years.
pub proof fn lemma_full_again_after_a_period(
    pre: TokenBucket,
    post: TokenBucket,
    cost: u32,
    now: Duration,
    later: Duration,
)
    requires
        post.valid(),
        pre.exact(),
        pre.same_limits(&post),
        pre.charged(&post, cost, now),
        cost > 0,
        post.started()@ <= now@,
        now@ + post.period() <= later@,
        later@ - post.started()@ <= 0x2000_0000_0000_0000,
    ensures
        post.tokens(later) == post.limit(),
{
    let e = post.elapsed(now);
    let f = post.elapsed(later);
    assert(paced(post.core, e, f));
    let grain = post.grain() as int;
    let cap = post.limit() as int;
    let period = post.period() as int;
    let flowed = post.inflow(later) - post.inflow(now);
    assert(f - e == later@ - now@);
    assert(flowed >= cap * grain) by (nonlinear_arith)
        requires
            (f - e) * (cap * grain) < (flowed + 1) * period,
            f - e >= period,
            period > 0,
            cap >= 0,
            grain >= 0,
    {
        assert((f - e) * (cap * grain) >= period * (cap * grain));
        assert(period * (cap * grain) < (flowed + 1) * period);
        assert(period * ((flowed + 1) - cap * grain) > 0);
    }
    assert(post.level(later) == cap * grain);
    assert(bucket_tokens(post.core, f) == bucket_level(post.core, f) / bucket_grain(post.core));
    assert((cap * grain) / grain == cap) by (nonlinear_arith)
        requires
            grain > 0,
    ;
}

/// A refused request is told the truth: once the wait it was given is over, its tokens are there,
/// unless others took them; and a millisecond before they were not.
pub proof fn lemma_the_wait_is_enough(
    bucket: TokenBucket,
    cost: u32,
    now: Duration,
    after: Duration,
    later: Duration,
)
    requires
        bucket.valid(),
        bucket.answered(cost, now, Decision::Retry { after }),
        bucket.started()@ <= now@,
        later@ <= MAX_NANOS,
    ensures
        now@ + after@ <= later@ ==> cost <= bucket.tokens(later),
        later@ + 1_000_000 <= now@ + after@ ==> cost > bucket.tokens(later),
{
}

/// A request that fits is never refused for good: a bucket that has granted tokens will hold any
/// number up to its capacity, as long as its clock has a refill period left before it has run for
/// 73 years.
pub proof fn lemma_what_fits_is_granted_in_time(
    pre: TokenBucket,
    post: TokenBucket,
    taken: u32,
    now: Duration,
    cost: u32,
    later: Duration,
    answer: Decision,
)
    requires
        post.valid(),
        pre.exact(),
        pre.same_limits(&post),
        pre.charged(&post, taken, now),
        taken > 0,
        post.started()@ <= now@ <= MAX_NANOS,
        now@ + post.period() - post.started()@ <= 0x2000_0000_0000_0000,
        cost <= post.limit(),
        post.answered(cost, later, answer),
    ensures
        answer !is Impossible,
{
    let full = span((now@ + post.period()) as nat);
    lemma_full_again_after_a_period(pre, post, taken, now, full);
}

/// A bucket for `amount` tokens per `period` holds and regains that many in that time; one for
/// none, or with no time, holds nothing.
pub proof fn lemma_a_bucket_has_the_rate_it_was_made_for(
    bucket: TokenBucket,
    amount: u32,
    period: nat,
)
    requires
        (bucket.limit(), bucket.refill(), bucket.period()) == tier_one(amount, period),
        bucket.valid(),
    ensures
        amount > 0 && period > 0 ==> bucket.limit() == amount && bucket.refill() == amount
            && bucket.period() == period,
        amount == 0 || period == 0 ==> bucket.limit() == 0,
        amount == 0 || period == 0 ==> forall|t: Duration| #[trigger] bucket.tokens(t) == 0,
{
    assert forall|t: Duration| amount == 0 || period == 0 implies #[trigger] bucket.tokens(t)
        == 0 by {
        bucket.lemma_bounded(t);
    }
}

/// A peek that refuses for now names the shortest time in which the refill rate makes up for the
/// tokens that are missing; it refuses for good what is more than the bucket can hold, and nothing
/// else.
pub proof fn lemma_a_peek_estimates_from_the_rate(
    bucket: TokenBucket,
    cost: u32,
    now: Duration,
    after: Duration,
)
    requires
        bucket.valid(),
    ensures
        bucket.peeked(cost, now) is Acquired <==> cost <= bucket.tokens(now),
        bucket.peeked(cost, now) is Impossible <==> cost > bucket.limit(),
        bucket.peeked(cost, now) == (Decision::Retry { after }) && after@ < u64::MAX ==> {
            &&& (after@ - 1) * bucket.refill() < bucket.period() * (cost - bucket.tokens(now))
            &&& bucket.period() * (cost - bucket.tokens(now)) <= after@ * bucket.refill()
        },
{
    bucket.lemma_bounded(now);
    if bucket.peeked(cost, now) == (Decision::Retry { after }) && after@ < u64::MAX {
        let need = bucket.period() * (cost - bucket.tokens(now)) as nat;
        let refill = bucket.refill() as int;
        assert(refill > 0);
        assert(need >= 0);
        let a = ceil_div(need, refill as nat) as int;
        assert(after@ == a);
        assert((a - 1) * refill < need <= a * refill) by (nonlinear_arith)
            requires
                a == (need + refill - 1) / refill,
                refill > 0,
        ;
    }
}

/// Tokens come back smoothly: a bucket that has granted some regains each as soon as its share of
/// the refill period is over, up to its capacity, as long as its clock has not run for 73 years.
pub proof fn lemma_tokens_come_back_one_by_one(
    pre: TokenBucket,
    post: TokenBucket,
    cost: u32,
    now: Duration,
    later: Duration,
    k: nat,
)
    requires
        post.valid(),
        pre.exact(),
        pre.same_limits(&post),
        pre.charged(&post, cost, now),
        cost > 0,
        post.started()@ <= now@ <= later@,
        later@ - post.started()@ <= 0x2000_0000_0000_0000,
        k * post.period() <= (later@ - now@) * post.refill(),
    ensures
        post.tokens(later) >= min_int(post.tokens(now) + k, post.limit() as int),
{
    let e = post.elapsed(now);
    let f = post.elapsed(later);
    assert(paced(post.core, e, f));
    let grain = post.grain() as int;
    let cap = post.limit() as int;
    let period = post.period() as int;
    let amount = post.refill() as int;
    let flowed = post.inflow(later) - post.inflow(now);
    let held = post.tokens(now) as int;
    let span = later@ - now@;
    assert(f - e == span);
    assert(flowed >= k * grain) by (nonlinear_arith)
        requires
            span * (amount * grain) < (flowed + 1) * period,
            k * period <= span * amount,
            grain > 0,
            period > 0,
    {
        assert((k * period) * grain <= (span * amount) * grain);
        assert((k * grain) * period < (flowed + 1) * period);
        assert(k * grain < flowed + 1);
    }
    assert(bucket_tokens(post.core, e) == bucket_level(post.core, e) / bucket_grain(post.core));
    assert(bucket_tokens(post.core, f) == bucket_level(post.core, f) / bucket_grain(post.core));
    let low = post.level(now) as int;
    let high = post.level(later) as int;
    assert(held * grain <= low) by (nonlinear_arith)
        requires
            held == low / grain,
            grain > 0,
    ;
    assert(high == min_int(low + flowed, cap * grain));
    let goal = min_int(held + k, cap);
    assert(goal * grain <= high) by (nonlinear_arith)
        requires
            high == low + flowed || high == cap * grain,
            goal <= held + k,
            goal <= cap,
            held * grain <= low,
            k * grain <= flowed,
            grain > 0,
    ;
    assert(high / grain >= goal) by (nonlinear_arith)
        requires
            goal * grain <= high,
            grain > 0,
    ;
}

/// Tokens come back no faster than the refill rate: what a bucket holds later is at most what it
/// held, three more, and what the rate refills meanwhile.
pub proof fn lemma_tokens_come_back_at_the_rate(bucket: TokenBucket, now: Duration, later: Duration)
    requires
        bucket.valid(),
        bucket.exact(),
        bucket.period() <= u64::MAX,
        now@ <= later@,
    ensures
        bucket.tokens(later) * bucket.period() <= (bucket.tokens(now) + 3) * bucket.period() + (
        later@ - now@) * bucket.refill(),
{
    let e = bucket.elapsed(now);
    let f = bucket.elapsed(later);
    assert(paced(bucket.core, e, f));
    let grain = bucket.grain() as int;
    let period = bucket.period() as int;
    let amount = bucket.refill() as int;
    let held = bucket.tokens(now) as int;
    let holds = bucket.tokens(later) as int;
    let flowed = bucket.inflow(later) - bucket.inflow(now);
    let span = later@ - now@;
    let low = bucket.level(now) as int;
    let high = bucket.level(later) as int;
    assert(bucket_tokens(bucket.core, e) == bucket_level(bucket.core, e) / bucket_grain(bucket.core));
    assert(bucket_tokens(bucket.core, f) == bucket_level(bucket.core, f) / bucket_grain(bucket.core));
    assert(f - e <= span);
    assert((f - e) * (amount * grain) <= span * (amount * grain)) by (nonlinear_arith)
        requires
            f - e <= span,
            amount >= 0,
            grain >= 0,
    ;
    assert(low < (held + 1) * grain && holds * grain <= high) by (nonlinear_arith)
        requires
            held == low / grain,
            holds == high / grain,
            grain > 0,
    ;
    assert(high <= low + flowed);
    assert(holds * period <= (held + 3) * period + span * amount) by (nonlinear_arith)
        requires
            holds * grain <= high,
            high <= low + flowed,
            low < (held + 1) * grain,
            flowed * period <= span * (amount * grain) + 2 * period,
            grain >= 1,
            period >= 0,
            span >= 0,
            amount >= 0,
    {
        assert((holds * grain) * period <= (low + flowed) * period);
        assert(low * period <= ((held + 1) * grain) * period);
        assert((holds * period) * grain <= ((held + 1) * period) * grain + (span * amount) * grain + 2
            * period);
        assert(2 * period <= (2 * period) * grain);
        assert((holds * period) * grain <= ((held + 3) * period + span * amount) * grain);
    }
}

/// A grant takes its cost and nothing else: as far as single tokens are counted, the bucket holds
/// that much less at once, never more than it would have held without the grant, and never less by
/// more than the cost.
pub proof fn lemma_a_grant_takes_its_cost(
    pre: TokenBucket,
    post: TokenBucket,
    cost: u32,
    now: Duration,
    later: Duration,
)
    requires
        pre.charged(&post, cost, now),
    ensures
        post.tokens(later) <= pre.tokens(later),
        pre.exact() ==> post.tokens(now) + cost == pre.tokens(now),
        pre.exact() && now@ <= later@ ==> pre.tokens(later) <= post.tokens(later) + cost,
{
}

/// What a bucket answers tells what it holds: it grants no more than it holds, asks for a wait only
/// for what it does not hold but can, a wait of whole milliseconds, and refuses for good only what
/// it will never hold.
pub proof fn lemma_an_answer_tells_what_is_held(
    bucket: TokenBucket,
    cost: u32,
    now: Duration,
    answer: Decision,
    t: Duration,
)
    requires
        bucket.valid(),
        bucket.answered(cost, now, answer),
    ensures
        answer is Acquired ==> cost <= bucket.tokens(now),
        answer is Impossible ==> bucket.tokens(t) < cost,
        answer matches Decision::Retry { after } ==> {
            &&& bucket.tokens(now) < cost <= bucket.limit()
            &&& after@ > 0
            &&& after@ % 1_000_000 == 0
        },
{
}

} // verus!
