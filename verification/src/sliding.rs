//! A limiter that remembers each grant and bounds every trailing window exactly.

use std::collections::VecDeque;
use vstd::prelude::*;

use crate::clock::{may_be_now, reading_of, Clock, SystemClock};
use crate::decision::Decision;
use crate::limiter::{Limiter, Reading};
use crate::step::{next_step, step_after, Step};
use crate::time::{max_int, millis_of, millis_up, min_int, span, Duration};

verus! {

/// Tokens granted at one instant.
#[derive(Debug, Clone, Copy)]
pub struct Grant {
    /// When they were granted, in milliseconds.
    pub at_ms: u64,
    /// How many were granted.
    pub count: u32,
}

/// The tokens in all of `grants`.
pub open spec fn total(grants: Seq<Grant>) -> nat
    decreases grants.len(),
{
    if grants.len() == 0 {
        0
    } else {
        grants[0].count as nat + total(grants.drop_first())
    }
}

/// When `grant` leaves the window, in milliseconds, saturated to `u64`.
pub open spec fn leaves_at(grant: Grant, window_ms: u64) -> int {
    min_int(grant.at_ms + window_ms, u64::MAX as int)
}

/// The grants that are left once those at the front that have left the window are dropped.
pub open spec fn live(grants: Seq<Grant>, now_ms: u64, window_ms: u64) -> Seq<Grant>
    decreases grants.len(),
{
    if grants.len() > 0 && leaves_at(grants[0], window_ms) <= now_ms {
        live(grants.drop_first(), now_ms, window_ms)
    } else {
        grants
    }
}

/// The grant whose leaving frees the last of `needed` tokens, the oldest leaving first.
pub open spec fn freeing(grants: Seq<Grant>, needed: int) -> int
    decreases grants.len(),
{
    if grants.len() == 0 || grants[0].count >= needed {
        0
    } else {
        1 + freeing(grants.drop_first(), needed - grants[0].count)
    }
}

/// Whether `grants` that lie less than `window_ms` apart never add up to more than `limit`.
pub open spec fn windowed(grants: Seq<Grant>, window_ms: u64, limit: u32) -> bool {
    forall|i: int, j: int|
        0 <= i <= j < grants.len() && grants[j].at_ms < grants[i].at_ms + window_ms ==> total(
            #[trigger] grants.subrange(i, j + 1),
        ) <= limit
}

proof fn lemma_total_append(a: Seq<Grant>, b: Seq<Grant>)
    ensures
        total(a + b) == total(a) + total(b),
    decreases a.len(),
{
    if a.len() == 0 {
        assert(a + b =~= b);
    } else {
        assert((a + b).drop_first() =~= a.drop_first() + b);
        lemma_total_append(a.drop_first(), b);
    }
}

proof fn lemma_total_push(a: Seq<Grant>, g: Grant)
    ensures
        total(a.push(g)) == total(a) + g.count,
{
    assert(a.push(g) =~= a + seq![g]);
    lemma_total_append(a, seq![g]);
    assert(seq![g].drop_first() =~= Seq::<Grant>::empty());
    assert(total(seq![g]) == g.count as nat + total(seq![g].drop_first()));
}

/// What is live is a suffix; what was dropped has left the window; dropping more later is the same
/// as dropping at once.
proof fn lemma_live(grants: Seq<Grant>, now_ms: u64, window_ms: u64)
    ensures
        live(grants, now_ms, window_ms).len() <= grants.len(),
        live(grants, now_ms, window_ms) == grants.skip(
            grants.len() - live(grants, now_ms, window_ms).len(),
        ),
        forall|i: int|
            0 <= i < grants.len() - live(grants, now_ms, window_ms).len() ==> leaves_at(
                #[trigger] grants[i],
                window_ms,
            ) <= now_ms,
        live(grants, now_ms, window_ms).len() > 0 ==> leaves_at(
            live(grants, now_ms, window_ms)[0],
            window_ms,
        ) > now_ms,
        total(live(grants, now_ms, window_ms)) <= total(grants),
    decreases grants.len(),
{
    if grants.len() > 0 && leaves_at(grants[0], window_ms) <= now_ms {
        let rest = grants.drop_first();
        lemma_live(rest, now_ms, window_ms);
        let kept = live(grants, now_ms, window_ms);
        assert(grants.skip(grants.len() - kept.len()) =~= rest.skip(rest.len() - kept.len()));
        assert forall|i: int| 0 <= i < grants.len() - kept.len() implies leaves_at(
            #[trigger] grants[i],
            window_ms,
        ) <= now_ms by {
            if i > 0 {
                assert(rest[i - 1] == grants[i]);
            }
        }
    } else {
        assert(grants.skip(0) =~= grants);
    }
}

/// Dropping at one reading and again at a later one drops as the later one alone does.
proof fn lemma_live_again(grants: Seq<Grant>, now_ms: u64, later_ms: u64, window_ms: u64)
    requires
        now_ms <= later_ms,
    ensures
        live(live(grants, now_ms, window_ms), later_ms, window_ms) == live(
            grants,
            later_ms,
            window_ms,
        ),
    decreases grants.len(),
{
    if grants.len() > 0 && leaves_at(grants[0], window_ms) <= now_ms {
        lemma_live_again(grants.drop_first(), now_ms, later_ms, window_ms);
    }
}

/// One more grant at the end adds no more than its tokens to what is live.
proof fn lemma_live_push(grants: Seq<Grant>, grant: Grant, now_ms: u64, window_ms: u64)
    ensures
        total(live(grants, now_ms, window_ms)) <= total(
            live(grants.push(grant), now_ms, window_ms),
        ) <= total(live(grants, now_ms, window_ms)) + grant.count,
    decreases grants.len(),
{
    if grants.len() > 0 && leaves_at(grants[0], window_ms) <= now_ms {
        assert(grants.push(grant).drop_first() =~= grants.drop_first().push(grant));
        lemma_live_push(grants.drop_first(), grant, now_ms, window_ms);
    } else {
        lemma_total_push(grants, grant);
        if grants.len() == 0 {
            lemma_live(grants.push(grant), now_ms, window_ms);
        }
    }
}

/// What the limiter has done so far.
pub struct Trail {
    /// Every grant, oldest first.
    pub history: Seq<Grant>,
    /// How many of them have been forgotten.
    pub dropped: nat,
    /// The last reading at which tokens were asked for, in milliseconds.
    pub latest: u64,
    /// Whether no reading was before the one preceding it, or at the end of the clock.
    pub in_order: bool,
}

/// A limiter that grants at most `limit` tokens in any trailing window.
pub struct SlidingWindowLog<C = SystemClock> {
    limit: u32,
    window: Duration,
    grants: VecDeque<Grant>,
    used: u32,
    trail: Ghost<Trail>,
    clock: C,
    epoch: Duration,
}

impl<C> SlidingWindowLog<C> {
    /// The grants that the limiter remembers, oldest first.
    pub closed spec fn log(&self) -> Seq<Grant> {
        self.grants@
    }

    /// What the limiter has done so far.
    pub closed spec fn trail(&self) -> Trail {
        self.trail@
    }

    /// The most tokens granted in any window.
    pub closed spec fn most(&self) -> u32 {
        self.limit
    }

    /// The length of the window.
    pub closed spec fn window(&self) -> Duration {
        self.window
    }

    /// The length of the window in milliseconds, a part of one counted as a whole.
    pub open spec fn window_millis(&self) -> u64 {
        millis_up(self.window())
    }

    /// The reading of the clock at which the limiter was made.
    pub closed spec fn started(&self) -> Duration {
        self.epoch
    }

    /// The time source of the limiter.
    pub closed spec fn clock(&self) -> C {
        self.clock
    }

    /// Milliseconds since the limiter was made, at the reading `now`.
    pub open spec fn millis_at(&self, now: Duration) -> u64 {
        millis_of(span(max_int(now@ - self.started()@, 0) as nat))
    }

    /// The grants inside the window at `now_ms`.
    pub open spec fn live_at(&self, now_ms: u64) -> Seq<Grant> {
        live(self.log(), now_ms, self.window_millis())
    }

    /// The tokens that may still be granted at `now_ms`.
    pub open spec fn free_at(&self, now_ms: u64) -> u32 {
        (self.most() - total(self.live_at(now_ms))) as u32
    }

    /// The answer to a request for `cost` tokens at `now_ms`.
    pub open spec fn answer_at(&self, cost: u32, now_ms: u64) -> Decision {
        if cost > self.most() {
            Decision::Impossible
        } else if cost <= self.free_at(now_ms) {
            Decision::Acquired
        } else {
            let grants = self.live_at(now_ms);
            let last = grants[freeing(grants, cost - self.free_at(now_ms))];
            Decision::Retry {
                after: span(
                    (max_int(leaves_at(last, self.window_millis()) - now_ms, 0) * 1_000_000) as nat,
                ),
            }
        }
    }

    /// The invariant: the count of used tokens is that of the log, which is the tail of the
    /// history; and as long as the readings were in order, no window of the history holds more
    /// than the limit.
    pub closed spec fn well_formed(&self) -> bool {
        let trail = self.trail@;
        &&& self.used == total(self.grants@)
        &&& self.used <= self.limit
        &&& trail.dropped <= trail.history.len()
        &&& self.grants@ == trail.history.skip(trail.dropped as int)
        &&& trail.in_order ==> {
            &&& forall|i: int|
                0 <= i < trail.history.len() ==> #[trigger] trail.history[i].at_ms <= trail.latest
            &&& forall|i: int, j: int|
                0 <= i <= j < trail.history.len() ==> #[trigger] trail.history[i].at_ms
                    <= #[trigger] trail.history[j].at_ms
            &&& forall|i: int|
                0 <= i < trail.dropped ==> #[trigger] trail.history[i].at_ms + self.window_millis()
                    <= trail.latest
            &&& windowed(trail.history, self.window_millis(), self.limit)
        }
    }

    /// As long as the readings were in order, no window of the history holds more than the limit:
    /// grants that lie less than a window apart never add up to more.
    pub proof fn lemma_every_window_is_bounded(&self)
        requires
            self.well_formed(),
            self.trail().in_order,
        ensures
            windowed(self.trail().history, self.window_millis(), self.most()),
    {
    }

    /// Whether `post` is `self` with the same limits.
    pub open spec fn same_limits<D>(&self, post: &SlidingWindowLog<D>) -> bool {
        &&& post.most() == self.most()
        &&& post.window() == self.window()
    }

    /// Where the live grants begin and how many tokens they hold.
    fn survey(&self, now_ms: u64) -> (found: (usize, u32))
        requires
            self.well_formed(),
        ensures
            found.0 <= self.log().len(),
            self.log().skip(found.0 as int) == self.live_at(now_ms),
            found.1 == total(self.live_at(now_ms)),
            found.1 <= self.most(),
    {
        let window_ms: u64 = self.window.millis_rounded_up();
        let mut start: usize = 0;
        let mut used: u32 = self.used;
        assert(self.grants@.skip(0) =~= self.grants@);
        while start < self.grants.len() && self.grants[start].at_ms.saturating_add(window_ms)
            <= now_ms
            invariant
                start <= self.grants@.len(),
                window_ms == self.window_millis(),
                used == total(self.grants@.skip(start as int)),
                used <= self.limit,
                live(self.grants@.skip(start as int), now_ms, window_ms) == self.live_at(now_ms),
            decreases self.grants@.len() - start,
        {
            let ghost rest = self.grants@.skip(start as int);
            assert(rest.drop_first() =~= self.grants@.skip(start + 1));
            used = used - self.grants[start].count;
            start += 1;
        }
        (start, used)
    }

    /// The wait until `needed` tokens have left the window, of the grants from `start` on.
    fn wait_for(&self, start: usize, now_ms: u64, needed: u32) -> (wait: Duration)
        requires
            self.well_formed(),
            start <= self.log().len(),
            0 < needed <= total(self.log().skip(start as int)),
        ensures
            ({
                let grants = self.log().skip(start as int);
                let last = grants[freeing(grants, needed as int)];
                wait == span(
                    (max_int(leaves_at(last, self.window_millis()) - now_ms, 0) * 1_000_000) as nat,
                )
            }),
    {
        let window_ms: u64 = self.window.millis_rounded_up();
        let mut left: u32 = needed;
        let mut i: usize = start;
        let ghost grants = self.grants@.skip(start as int);
        assert(grants.skip(0) =~= grants);
        while i < self.grants.len() && self.grants[i].count < left
            invariant
                start <= i <= self.grants@.len(),
                grants == self.grants@.skip(start as int),
                0 < left <= total(grants.skip(i - start)),
                freeing(grants, needed as int) == (i - start) + freeing(
                    grants.skip(i - start),
                    left as int,
                ),
            decreases self.grants@.len() - i,
        {
            assert(grants.skip(i - start).drop_first() =~= grants.skip(i - start + 1));
            assert(self.grants@[i as int] == grants.skip(i - start)[0]);
            left = left - self.grants[i].count;
            i += 1;
        }
        assert(i < self.grants@.len());
        assert(self.grants@[i as int] == grants.skip(i - start)[0]);
        assert(self.grants@[i as int] == grants[i - start]);
        let ready_at: u64 = self.grants[i].at_ms.saturating_add(window_ms);
        Duration::from_millis(ready_at.saturating_sub(now_ms))
    }

    /// The answer to a request for `cost` tokens at `now_ms`, granting nothing.
    fn consider(&self, cost: u32, now_ms: u64) -> (answer: Decision)
        requires
            self.well_formed(),
        ensures
            answer == self.answer_at(cost, now_ms),
            answer is Acquired <==> cost <= self.free_at(now_ms),
    {
        proof {
            lemma_live(self.grants@, now_ms, self.window_millis());
        }
        if cost > self.limit {
            return Decision::Impossible;
        }
        let (start, used) = self.survey(now_ms);
        let free: u32 = self.limit - used;
        if cost <= free {
            Decision::Acquired
        } else {
            Decision::Retry { after: self.wait_for(start, now_ms, cost - free) }
        }
    }

    /// Forgets the grants that have left the window at `now_ms`.
    fn prune(&mut self, now_ms: u64)
        requires
            old(self).well_formed(),
        ensures
            final(self).well_formed(),
            final(self).log() == old(self).live_at(now_ms),
            old(self).same_limits(final(self)),
            final(self).started() == old(self).started(),
            final(self).clock() == old(self).clock(),
            final(self).trail().history == old(self).trail().history,
            final(self).trail().latest == now_ms,
            final(self).trail().in_order == (old(self).trail().in_order
                && old(self).trail().latest <= now_ms && now_ms < u64::MAX),
    {
        let (start, used) = self.survey(now_ms);
        let ghost trail = self.trail@;
        let ghost log = self.grants@;
        let mut n: usize = 0;
        assert(log.skip(0) =~= log);
        while n < start
            invariant
                n <= start <= log.len(),
                self.grants@ == log.skip(n as int),
                self.limit == old(self).limit,
                self.window == old(self).window,
                self.epoch == old(self).epoch,
                self.clock == old(self).clock,
                self.trail@ == trail,
            decreases start - n,
        {
            assert(log.skip(n as int).subrange(1, log.len() - n) =~= log.skip(n + 1));
            let _ = self.grants.pop_front();
            n += 1;
        }
        self.used = used;
        let ghost next = Trail {
            history: trail.history,
            dropped: trail.dropped + start as nat,
            latest: now_ms,
            in_order: trail.in_order && trail.latest <= now_ms && now_ms < u64::MAX,
        };
        self.trail = Ghost(next);
        proof {
            lemma_live(log, now_ms, self.window_millis());
            assert(log.skip(start as int).len() == log.len() - start);
            assert(trail.history.skip(trail.dropped as int).skip(start as int)
                =~= trail.history.skip(next.dropped as int));
            if next.in_order {
                assert forall|i: int| 0 <= i < next.dropped implies #[trigger] next.history[i].at_ms
                    + self.window_millis() <= next.latest by {
                    if i >= trail.dropped {
                        assert(log[i - trail.dropped] == next.history[i]);
                    }
                }
            }
        }
    }

    /// Remembers a grant of `cost` tokens at `now_ms`.
    fn record(&mut self, cost: u32, now_ms: u64)
        requires
            old(self).well_formed(),
            old(self).trail().latest == now_ms,
            total(old(self).log()) + cost <= old(self).most(),
        ensures
            final(self).well_formed(),
            final(self).log() == old(self).log().push(Grant { at_ms: now_ms, count: cost }),
            old(self).same_limits(final(self)),
            final(self).started() == old(self).started(),
            final(self).clock() == old(self).clock(),
            final(self).trail().history == old(self).trail().history.push(
                Grant { at_ms: now_ms, count: cost },
            ),
            final(self).trail().latest == now_ms,
            final(self).trail().in_order == old(self).trail().in_order,
    {
        let grant = Grant { at_ms: now_ms, count: cost };
        let ghost trail = self.trail@;
        let ghost log = self.grants@;
        proof {
            lemma_total_push(log, grant);
        }
        self.used = self.used + cost;
        self.grants.push_back(grant);
        let ghost history = trail.history.push(grant);
        self.trail = Ghost(
            Trail {
                history,
                dropped: trail.dropped,
                latest: trail.latest,
                in_order: trail.in_order,
            },
        );
        proof {
            assert(self.grants@ =~= history.skip(trail.dropped as int));
            if trail.in_order {
                lemma_window_grows(
                    trail.history,
                    grant,
                    trail.dropped as int,
                    self.window_millis(),
                    self.limit,
                );
                assert forall|i: int| 0 <= i < trail.dropped implies #[trigger] history[i].at_ms
                    + self.window_millis() <= trail.latest by {
                    assert(history[i] == trail.history[i]);
                }
            }
        }
    }

    /// Grants `cost` tokens at `now_ms`, all or none.
    pub fn decide_at_millis(&mut self, cost: u32, now_ms: u64) -> (answer: Decision)
        requires
            old(self).well_formed(),
        ensures
            final(self).well_formed(),
            answer == old(self).answer_at(cost, now_ms),
            answer is Acquired <==> cost <= old(self).free_at(now_ms),
            old(self).same_limits(final(self)),
            final(self).started() == old(self).started(),
            final(self).clock() == old(self).clock(),
            cost == 0 || cost > old(self).most() ==> *final(self) == *old(self),
            0 < cost <= old(self).most() ==> {
                &&& final(self).log() == if answer is Acquired {
                    old(self).live_at(now_ms).push(Grant { at_ms: now_ms, count: cost })
                } else {
                    old(self).live_at(now_ms)
                }
                &&& final(self).trail().history == if answer is Acquired {
                    old(self).trail().history.push(Grant { at_ms: now_ms, count: cost })
                } else {
                    old(self).trail().history
                }
                &&& final(self).trail().latest == now_ms
                &&& final(self).trail().in_order == (old(self).trail().in_order
                    && old(self).trail().latest <= now_ms && now_ms < u64::MAX)
            },
    {
        let answer = self.consider(cost, now_ms);
        if cost == 0 || cost > self.limit {
            return answer;
        }
        proof {
            lemma_live(self.grants@, now_ms, self.window_millis());
        }
        self.prune(now_ms);
        if answer.is_acquired() {
            self.record(cost, now_ms);
        }
        answer
    }
}

/// A grant that fits beside the grants still inside its window keeps every window bounded.
proof fn lemma_window_grows(
    history: Seq<Grant>,
    grant: Grant,
    dropped: int,
    window_ms: u64,
    limit: u32,
)
    requires
        0 <= dropped <= history.len(),
        windowed(history, window_ms, limit),
        forall|i: int|
            0 <= i < dropped ==> #[trigger] history[i].at_ms + window_ms <= grant.at_ms,
        total(history.skip(dropped)) + grant.count <= limit,
    ensures
        windowed(history.push(grant), window_ms, limit),
{
    let next = history.push(grant);
    assert forall|i: int, j: int|
        0 <= i <= j < next.len() && next[j].at_ms < next[i].at_ms + window_ms implies total(
        #[trigger] next.subrange(i, j + 1),
    ) <= limit by {
        if j < history.len() {
            assert(next.subrange(i, j + 1) =~= history.subrange(i, j + 1));
        } else {
            if i < dropped {
                assert(next[i] == history[i]);
            }
            let tail = history.skip(dropped);
            assert(next.subrange(i, j + 1) =~= history.skip(i).push(grant));
            if i < history.len() {
                assert(tail =~= history.subrange(dropped, i) + history.skip(i));
                lemma_total_append(history.subrange(dropped, i), history.skip(i));
            } else {
                assert(history.skip(i) =~= Seq::<Grant>::empty());
            }
            lemma_total_push(history.skip(i), grant);
        }
    }
}

impl SlidingWindowLog<SystemClock> {
    /// Whether the limiter has a clock of its own that was set going when it was made, and counts
    /// time from a reading of that clock.
    pub open spec fn starts_now(&self) -> bool {
        &&& may_be_now(self.clock().origin())
        &&& reading_of(self.clock(), self.started())
    }

    /// A limiter that grants at most `limit` tokens in any trailing `window`.
    pub fn new(limit: u32, window: Duration) -> (limiter: Self)
        ensures
            limiter.fresh(limit, window),
            limiter.starts_now(),
    {
        SlidingWindowLog::with_clock_inner(limit, window, SystemClock::new())
    }

    /// A limiter that grants at most `rate` tokens in any trailing second.
    pub fn per_second(rate: u32) -> (limiter: Self)
        ensures
            limiter.fresh(rate, span(1_000_000_000)),
            limiter.starts_now(),
    {
        SlidingWindowLog::new(rate, Duration::from_secs(1))
    }
}

impl<C: Clock> SlidingWindowLog<C> {
    /// Whether the limiter's clock may show that `now_ms` milliseconds have passed since the
    /// limiter was made.
    pub open spec fn shows(&self, now_ms: u64) -> bool {
        exists|now: Duration| #[trigger]
            reading_of(self.clock(), now) && now_ms == self.millis_at(now)
    }

    /// Whether the limiter has these limits and has granted nothing.
    pub open spec fn fresh(&self, limit: u32, window: Duration) -> bool {
        &&& self.well_formed()
        &&& self.most() == limit
        &&& self.window() == window
        &&& self.log() == Seq::<Grant>::empty()
        &&& self.trail().history == Seq::<Grant>::empty()
        &&& self.trail().latest == 0
        &&& self.trail().in_order
    }

    fn with_clock_inner(limit: u32, window: Duration, clock: C) -> (limiter: Self)
        ensures
            limiter.fresh(limit, window),
            limiter.clock() == clock,
            reading_of(clock, limiter.started()),
    {
        let epoch = clock.elapsed();
        let ghost trail = Trail {
            history: Seq::<Grant>::empty(),
            dropped: 0,
            latest: 0,
            in_order: true,
        };
        assert(trail.history.skip(0) =~= Seq::<Grant>::empty());
        SlidingWindowLog {
            limit,
            window,
            grants: VecDeque::new(),
            used: 0,
            trail: Ghost(trail),
            clock,
            epoch,
        }
    }

    /// A limiter with the limits of `self` and `clock` as its time source, with nothing granted.
    pub fn with_clock<D: Clock>(self, clock: D) -> (limiter: SlidingWindowLog<D>)
        ensures
            limiter.fresh(self.most(), self.window()),
            limiter.clock() == clock,
            reading_of(clock, limiter.started()),
    {
        SlidingWindowLog::with_clock_inner(self.limit, self.window, clock)
    }

    /// Milliseconds since the limiter was made, at the reading `now`.
    fn millis(&self, now: Duration) -> (ms: u64)
        ensures
            ms == self.millis_at(now),
    {
        now.saturating_sub(self.epoch).millis_saturating()
    }

    /// Milliseconds since the limiter was made.
    fn now_ms(&self) -> (ms: u64)
        ensures
            self.shows(ms),
    {
        let now = self.clock.elapsed();
        assert(reading_of(self.clock(), now));
        self.millis(now)
    }

    /// Takes one token now, if there is one.
    pub fn try_acquire(&mut self) -> (ok: bool)
        requires
            old(self).well_formed(),
        ensures
            exists|now_ms: u64|
                old(self).shows(now_ms) && #[trigger] old(self).took(final(self), 1, now_ms, ok),
    {
        self.try_acquire_with_cost(1)
    }

    /// Takes `cost` tokens now, all or none.
    pub fn try_acquire_with_cost(&mut self, cost: u32) -> (ok: bool)
        requires
            old(self).well_formed(),
        ensures
            exists|now_ms: u64|
                old(self).shows(now_ms) && #[trigger] old(self).took(
                    final(self),
                    cost,
                    now_ms,
                    ok,
                ),
    {
        let now_ms: u64 = self.now_ms();
        let ok = self.decide_at_millis(cost, now_ms).is_acquired();
        assert(old(self).took(self, cost, now_ms, ok));
        ok
    }

    /// One step of an acquisition that waits for `cost` tokens.
    pub fn acquire_step(&mut self, cost: u32) -> (step: Step)
        requires
            old(self).well_formed(),
        ensures
            exists|now_ms: u64|
                {
                    &&& old(self).shows(now_ms)
                    &&& step == step_after(
                        #[trigger] old(self).answer_at(cost, now_ms),
                        cost,
                        old(self).most(),
                    )
                    &&& old(self).took(
                        final(self),
                        cost,
                        now_ms,
                        old(self).answer_at(cost, now_ms) is Acquired,
                    )
                },
    {
        let now_ms: u64 = self.now_ms();
        let answer = self.decide_at_millis(cost, now_ms);
        assert(answer == old(self).answer_at(cost, now_ms));
        assert(old(self).took(self, cost, now_ms, answer is Acquired));
        next_step(answer, cost, self.limit)
    }

    /// What a request for `cost` tokens would get now, taking nothing.
    pub fn peek(&self, cost: u32) -> (answer: Decision)
        requires
            self.well_formed(),
        ensures
            exists|now_ms: u64|
                self.shows(now_ms) && answer == #[trigger] self.answer_at(cost, now_ms),
    {
        let now_ms: u64 = self.now_ms();
        self.consider(cost, now_ms)
    }

    /// The tokens that may still be granted now.
    pub fn available(&self) -> (n: u32)
        requires
            self.well_formed(),
        ensures
            exists|now_ms: u64|
                self.shows(now_ms) && n == #[trigger] self.free_at(now_ms),
    {
        let now_ms: u64 = self.now_ms();
        let n: u32 = self.limit - self.survey(now_ms).1;
        assert(n == self.free_at(now_ms));
        n
    }

    /// The most tokens granted in any window.
    pub fn capacity(&self) -> (n: u32)
        ensures
            n == self.most(),
    {
        self.limit
    }

    /// Whether a request for `cost` tokens at `now_ms` turns `self` into `post`, granted or not as
    /// `ok` says.
    pub open spec fn took(&self, post: &Self, cost: u32, now_ms: u64, ok: bool) -> bool {
        &&& post.well_formed()
        &&& self.same_limits(post)
        &&& post.started() == self.started()
        &&& post.clock() == self.clock()
        &&& ok == (cost <= self.free_at(now_ms))
        &&& cost == 0 || cost > self.most() ==> *post == *self
        &&& 0 < cost <= self.most() ==> {
            &&& post.log() == if ok {
                self.live_at(now_ms).push(Grant { at_ms: now_ms, count: cost })
            } else {
                self.live_at(now_ms)
            }
            &&& post.trail().history == if ok {
                self.trail().history.push(Grant { at_ms: now_ms, count: cost })
            } else {
                self.trail().history
            }
            &&& post.trail().latest == now_ms
            &&& post.trail().in_order == (self.trail().in_order && self.trail().latest <= now_ms
                && now_ms < u64::MAX)
        }
    }
}

impl<C: Clock> Limiter for SlidingWindowLog<C> {
    open spec fn valid(&self) -> bool {
        self.well_formed()
    }

    open spec fn reads(&self, at: Reading) -> bool {
        true
    }

    open spec fn may_read(&self, at: Reading) -> bool {
        reading_of(self.clock(), at.at) && at.parts@.len() == 0
    }

    open spec fn limit(&self) -> u32 {
        self.most()
    }

    open spec fn tokens(&self, at: Reading) -> u32 {
        self.free_at(self.millis_at(at.at))
    }

    open spec fn peeked(&self, cost: u32, at: Reading) -> Decision {
        self.answer_at(cost, self.millis_at(at.at))
    }

    open spec fn answered(&self, cost: u32, at: Reading, answer: Decision) -> bool {
        answer == self.peeked(cost, at)
    }

    open spec fn exact(&self, at: Reading) -> bool {
        &&& self.window_millis() > 0
        &&& self.millis_at(at.at) < u64::MAX
    }

    proof fn lemma_peek(&self, cost: u32, at: Reading) {
        lemma_live(self.log(), self.millis_at(at.at), self.window_millis());
    }

    fn read(&self) -> (at: Reading) {
        Reading::single(self.clock.elapsed())
    }

    fn peek_at(&self, cost: u32, at: &Reading) -> (answer: Decision) {
        let now_ms: u64 = self.millis(at.at);
        assert(self.tokens(*at) == self.free_at(now_ms));
        assert(self.limit() == self.most());
        self.consider(cost, now_ms)
    }

    fn acquire_cost_at(&mut self, cost: u32, at: &Reading) -> (answer: Decision)
        ensures
            old(self).took(
                final(self),
                cost,
                old(self).millis_at(at.at),
                answer is Acquired,
            ),
    {
        let now_ms: u64 = self.millis(at.at);
        let answer = self.decide_at_millis(cost, now_ms);
        proof {
            old(self).lemma_took(self, cost, now_ms, answer is Acquired);
        }
        answer
    }

    fn available_at(&self, at: &Reading) -> (n: u32) {
        let now_ms: u64 = self.millis(at.at);
        self.limit - self.survey(now_ms).1
    }

    fn capacity(&self) -> (n: u32) {
        self.limit
    }
}

impl<C: Clock> SlidingWindowLog<C> {
    /// A grant takes its tokens off those that are free, and a refusal changes no later answer.
    proof fn lemma_took(&self, post: &Self, cost: u32, now_ms: u64, ok: bool)
        requires
            self.well_formed(),
            self.took(post, cost, now_ms, ok),
        ensures
            ok && self.window_millis() > 0 && now_ms < u64::MAX ==> post.free_at(now_ms)
                == self.free_at(now_ms) - cost,
            !ok ==> forall|later: u64|
                now_ms <= later ==> #[trigger] post.live_at(later) == self.live_at(later),
            forall|later: u64|
                now_ms <= later ==> self.free_at(later) - cost <= #[trigger] post.free_at(later)
                    <= self.free_at(later),
    {
        let window_ms = self.window_millis();
        let kept = self.live_at(now_ms);
        lemma_live(self.log(), now_ms, window_ms);
        if 0 < cost <= self.most() {
            if ok {
                let grant = Grant { at_ms: now_ms, count: cost };
                lemma_total_push(kept, grant);
                if window_ms > 0 && now_ms < u64::MAX {
                    assert(kept.push(grant)[0] == if kept.len() > 0 {
                        kept[0]
                    } else {
                        grant
                    });
                    assert(live(kept.push(grant), now_ms, window_ms) == kept.push(grant));
                }
                assert forall|later: u64| now_ms <= later implies self.free_at(later) - cost
                    <= #[trigger] post.free_at(later) <= self.free_at(later) by {
                    lemma_live(self.log(), later, window_ms);
                    lemma_live_again(self.log(), now_ms, later, window_ms);
                    lemma_live_push(kept, grant, later, window_ms);
                    lemma_live(post.log(), later, window_ms);
                }
            } else {
                assert forall|later: u64| now_ms <= later implies #[trigger] post.live_at(later)
                    == self.live_at(later) by {
                    lemma_live_again(self.log(), now_ms, later, window_ms);
                }
            }
        }
    }
}

/// The tokens granted after `after` and no later than `until`.
pub open spec fn granted_between(grants: Seq<Grant>, after: int, until: int) -> nat
    decreases grants.len(),
{
    if grants.len() == 0 {
        0
    } else {
        granted_between(grants.drop_first(), after, until) + if after < grants[0].at_ms <= until {
            grants[0].count as nat
        } else {
            0nat
        }
    }
}

/// Whether no grant was made before the one preceding it.
pub open spec fn sorted(grants: Seq<Grant>) -> bool {
    forall|i: int, j: int|
        0 <= i <= j < grants.len() ==> #[trigger] grants[i].at_ms <= #[trigger] grants[j].at_ms
}

proof fn lemma_sorted_rest(grants: Seq<Grant>)
    requires
        grants.len() > 0,
        sorted(grants),
    ensures
        sorted(grants.drop_first()),
{
    let rest = grants.drop_first();
    assert forall|i: int, j: int| 0 <= i <= j < rest.len() implies #[trigger] rest[i].at_ms
        <= #[trigger] rest[j].at_ms by {
        assert(grants[i + 1].at_ms <= grants[j + 1].at_ms);
    }
}

/// Where the grants after `after` begin, of grants none of which is later than `until`.
proof fn lemma_grants_after(grants: Seq<Grant>, after: int, until: int) -> (start: int)
    requires
        sorted(grants),
        forall|i: int| 0 <= i < grants.len() ==> #[trigger] grants[i].at_ms <= until,
    ensures
        0 <= start <= grants.len(),
        forall|i: int| 0 <= i < start ==> #[trigger] grants[i].at_ms <= after,
        forall|i: int| start <= i < grants.len() ==> #[trigger] grants[i].at_ms > after,
        granted_between(grants, after, until) == total(grants.skip(start)),
    decreases grants.len(),
{
    if grants.len() == 0 {
        assert(grants.skip(0) =~= grants);
        0
    } else {
        let rest = grants.drop_first();
        lemma_sorted_rest(grants);
        assert forall|i: int| 0 <= i < rest.len() implies #[trigger] rest[i].at_ms <= until by {
            assert(grants[i + 1].at_ms <= until);
        }
        let start = lemma_grants_after(rest, after, until);
        assert forall|i: int| 1 <= i < grants.len() implies grants[i] == #[trigger] rest[i - 1] by {}
        if grants[0].at_ms > after {
            if start > 0 {
                assert(rest[0].at_ms <= after);
                assert(grants[0].at_ms <= grants[1].at_ms);
            }
            assert(rest.skip(0) =~= rest);
            assert(grants.skip(0) =~= grants);
            assert forall|i: int| 0 <= i < grants.len() implies #[trigger] grants[i].at_ms > after by {
                assert(grants[0].at_ms <= grants[i].at_ms);
            }
            0
        } else {
            assert(rest.skip(start) =~= grants.skip(start + 1));
            assert forall|i: int| 0 <= i < start + 1 implies #[trigger] grants[i].at_ms <= after by {
                if i > 0 {
                    assert(rest[i - 1].at_ms <= after);
                }
            }
            assert forall|i: int| start + 1 <= i < grants.len() implies #[trigger] grants[i].at_ms
                > after by {
                assert(rest[i - 1].at_ms > after);
            }
            start + 1
        }
    }
}

/// How many of `grants` were made no later than `until`.
proof fn lemma_grants_until(grants: Seq<Grant>, after: int, until: int) -> (end: int)
    requires
        sorted(grants),
    ensures
        0 <= end <= grants.len(),
        forall|i: int| 0 <= i < end ==> #[trigger] grants[i].at_ms <= until,
        forall|i: int| end <= i < grants.len() ==> #[trigger] grants[i].at_ms > until,
        granted_between(grants, after, until) == granted_between(grants.take(end), after, until),
    decreases grants.len(),
{
    if grants.len() == 0 {
        assert(grants.take(0) =~= grants);
        0
    } else {
        let rest = grants.drop_first();
        lemma_sorted_rest(grants);
        let end = lemma_grants_until(rest, after, until);
        assert forall|i: int| 1 <= i < grants.len() implies grants[i] == #[trigger] rest[i - 1] by {}
        if grants[0].at_ms > until {
            if end > 0 {
                assert(rest[0].at_ms <= until);
                assert(grants[0].at_ms <= grants[1].at_ms);
            }
            assert(rest.take(0) =~= Seq::<Grant>::empty());
            assert(grants.take(0) =~= Seq::<Grant>::empty());
            assert forall|i: int| 0 <= i < grants.len() implies #[trigger] grants[i].at_ms > until by {
                assert(grants[0].at_ms <= grants[i].at_ms);
            }
            0
        } else {
            assert(grants.take(end + 1).drop_first() =~= rest.take(end));
            assert(grants.take(end + 1)[0] == grants[0]);
            assert forall|i: int| 0 <= i < end + 1 implies #[trigger] grants[i].at_ms <= until by {
                if i > 0 {
                    assert(rest[i - 1].at_ms <= until);
                }
            }
            assert forall|i: int| end + 1 <= i < grants.len() implies #[trigger] grants[i].at_ms
                > until by {
                assert(rest[i - 1].at_ms > until);
            }
            end + 1
        }
    }
}

/// What the first `e` grants hold, and what the rest hold, make up all.
proof fn lemma_total_split(grants: Seq<Grant>, e: int)
    requires
        0 <= e <= grants.len(),
    ensures
        total(grants) == total(grants.take(e)) + total(grants.skip(e)),
{
    assert(grants =~= grants.take(e) + grants.skip(e));
    lemma_total_append(grants.take(e), grants.skip(e));
}

/// The grant that frees the last of `needed` tokens: those before it hold fewer, and those up to
/// it hold enough.
proof fn lemma_freeing(grants: Seq<Grant>, needed: int, e: int)
    requires
        0 < needed <= total(grants),
        0 <= e <= grants.len(),
    ensures
        0 <= freeing(grants, needed) < grants.len(),
        e <= freeing(grants, needed) ==> total(grants.take(e)) < needed,
        e > freeing(grants, needed) ==> total(grants.take(e)) >= needed,
    decreases grants.len(),
{
    let rest = grants.drop_first();
    if e > 0 {
        assert(grants.take(e).drop_first() =~= rest.take(e - 1));
        assert(grants.take(e)[0] == grants[0]);
    } else {
        assert(grants.take(0) =~= Seq::<Grant>::empty());
    }
    if grants[0].count < needed {
        lemma_freeing(
            rest,
            needed - grants[0].count,
            if e > 0 {
                e - 1
            } else {
                0
            },
        );
    }
}

impl<C> SlidingWindowLog<C> {
    /// As long as the readings were in order, the history is too, and none of it lies ahead.
    pub proof fn lemma_the_history_is_in_order(&self)
        requires
            self.well_formed(),
            self.trail().in_order,
        ensures
            sorted(self.trail().history),
            forall|i: int|
                0 <= i < self.trail().history.len() ==> #[trigger] self.trail().history[i].at_ms
                    <= self.trail().latest,
    {
    }

    /// At most the limit is granted in the window that ends at any instant, before it and at it.
    pub proof fn lemma_every_instant_is_bounded(&self, at_ms: int)
        requires
            self.well_formed(),
            self.trail().in_order,
        ensures
            granted_between(self.trail().history, at_ms - self.window_millis(), at_ms)
                <= self.most(),
    {
        let history = self.trail().history;
        let after = at_ms - self.window_millis();
        let end = lemma_grants_until(history, after, at_ms);
        let part = history.take(end);
        assert forall|i: int, j: int| 0 <= i <= j < part.len() implies #[trigger] part[i].at_ms
            <= #[trigger] part[j].at_ms by {
            assert(history[i].at_ms <= history[j].at_ms);
        }
        assert forall|i: int| 0 <= i < part.len() implies #[trigger] part[i].at_ms <= at_ms by {
            assert(history[i].at_ms <= at_ms);
        }
        let start = lemma_grants_after(part, after, at_ms);
        if start < end {
            assert(part[start].at_ms > after && part[end - 1].at_ms <= at_ms);
            assert(part.skip(start) =~= history.subrange(start, end - 1 + 1));
        } else {
            assert(part.skip(start) =~= Seq::<Grant>::empty());
        }
    }

    /// The tokens that may still be granted are those that the window has not seen granted.
    proof fn lemma_free_is_what_the_window_leaves(&self, now_ms: u64)
        requires
            self.well_formed(),
            self.trail().in_order,
            self.trail().latest <= now_ms < u64::MAX,
        ensures
            self.free_at(now_ms) + granted_between(
                self.trail().history,
                now_ms - self.window_millis(),
                now_ms as int,
            ) == self.most(),
    {
        let history = self.trail().history;
        let window_ms = self.window_millis();
        let dropped = self.trail().dropped as int;
        let log = self.log();
        let kept = self.live_at(now_ms);
        lemma_live(log, now_ms, window_ms);
        let start = lemma_grants_after(history, now_ms - window_ms, now_ms as int);
        let d = log.len() - kept.len();
        if start < dropped + d {
            if start < dropped {
                assert(history[start].at_ms + window_ms <= self.trail().latest);
            } else {
                assert(log[start - dropped] == history[start]);
                assert(leaves_at(log[start - dropped], window_ms) <= now_ms);
            }
            assert(history[start].at_ms > now_ms - window_ms);
            assert(false);
        }
        if start > dropped + d {
            assert(kept[0] == history[dropped + d]);
            assert(history[dropped + d].at_ms <= now_ms - window_ms);
            assert(false);
        }
        assert(history.skip(start) =~= kept);
    }

    /// A request is granted exactly when what was granted in the window that ends now, and what it
    /// asks for, stay within the limit; and it is refused for good exactly when it asks for more
    /// than the limit.
    pub proof fn lemma_granted_exactly_when_the_window_has_room(&self, cost: u32, now_ms: u64)
        requires
            self.well_formed(),
            self.trail().in_order,
            self.trail().latest <= now_ms < u64::MAX,
        ensures
            self.answer_at(cost, now_ms) is Acquired <==> granted_between(
                self.trail().history,
                now_ms - self.window_millis(),
                now_ms as int,
            ) + cost <= self.most(),
            self.answer_at(cost, now_ms) is Impossible <==> cost > self.most(),
    {
        self.lemma_free_is_what_the_window_leaves(now_ms);
    }

    /// The tokens that may still be granted later, while nothing is granted: those of the grants
    /// that are dropped by then are added to those of now.
    proof fn lemma_free_later(&self, now_ms: u64, later_ms: u64) -> (e: int)
        requires
            self.well_formed(),
            now_ms <= later_ms,
        ensures
            0 <= e <= self.live_at(now_ms).len(),
            self.free_at(later_ms) == self.free_at(now_ms) + total(self.live_at(now_ms).take(e)),
            forall|i: int|
                0 <= i < e ==> leaves_at(#[trigger] self.live_at(now_ms)[i], self.window_millis())
                    <= later_ms,
            e < self.live_at(now_ms).len() ==> leaves_at(
                self.live_at(now_ms)[e],
                self.window_millis(),
            ) > later_ms,
    {
        let window_ms = self.window_millis();
        let kept = self.live_at(now_ms);
        lemma_live(self.log(), now_ms, window_ms);
        lemma_live_again(self.log(), now_ms, later_ms, window_ms);
        lemma_live(kept, later_ms, window_ms);
        let e = kept.len() - live(kept, later_ms, window_ms).len();
        lemma_total_split(kept, e);
        e
    }
}

impl<C: Clock> SlidingWindowLog<C> {
    /// The wait that a refusal gives is the shortest that works: while nothing else is granted, the
    /// same request is refused at every instant before it is over, and granted from then on.
    #[verifier::rlimit(40)]
    pub proof fn lemma_the_wait_is_the_shortest(
        &self,
        post: &Self,
        cost: u32,
        now_ms: u64,
        after: Duration,
        later_ms: u64,
    )
        requires
            self.well_formed(),
            self.trail().in_order,
            self.trail().latest <= now_ms <= later_ms,
            self.answer_at(cost, now_ms) == (Decision::Retry { after }),
            self.took(post, cost, now_ms, false),
        ensures
            after@ > 0,
            post.answer_at(cost, later_ms) is Acquired <==> now_ms * 1_000_000 + after@ <= later_ms
                * 1_000_000,
    {
        let window_ms = self.window_millis();
        let kept = self.live_at(now_ms);
        let needed = cost - self.free_at(now_ms);
        lemma_live(self.log(), now_ms, window_ms);
        self.lemma_took(post, cost, now_ms, false);
        assert(post.live_at(later_ms) == self.live_at(later_ms));
        let e = self.lemma_free_later(now_ms, later_ms);
        lemma_freeing(kept, needed, e);
        let k = freeing(kept, needed);
        let history = self.trail().history;
        let offset = history.len() - kept.len();
        assert forall|i: int| 0 <= i < kept.len() implies #[trigger] kept[i] == history[offset + i] by {}
        assert(kept[0].at_ms <= kept[k].at_ms) by {
            assert(history[offset].at_ms <= history[offset + k].at_ms);
        }
        assert(leaves_at(kept[k], window_ms) > now_ms);
        if later_ms < leaves_at(kept[k], window_ms) {
            if e > k {
                assert(leaves_at(kept[k], window_ms) <= later_ms);
            }
        } else if e <= k {
            assert(history[offset + e].at_ms <= history[offset + k].at_ms);
            assert(kept[e].at_ms <= kept[k].at_ms);
        }
    }
}

/// What `n` requests for `costs` at `times` were granted, of which those that `oks` says were.
pub open spec fn grants_of(costs: Seq<u32>, times: Seq<u64>, oks: Seq<bool>, n: nat) -> Seq<Grant>
    decreases n,
{
    if n == 0 {
        Seq::<Grant>::empty()
    } else {
        let m = (n - 1) as nat;
        let before = grants_of(costs, times, oks, m);
        if oks[m as int] && costs[m as int] > 0 {
            before.push(Grant { at_ms: times[m as int], count: costs[m as int] })
        } else {
            before
        }
    }
}

/// Of any requests made one after the other, each is granted exactly when what was granted before
/// it in the window that ends with it, and what it asks for, stay within the limit.
pub proof fn lemma_a_run_grants_what_the_window_has_room_for<C: Clock>(
    states: Seq<SlidingWindowLog<C>>,
    costs: Seq<u32>,
    times: Seq<u64>,
    oks: Seq<bool>,
    n: nat,
)
    requires
        states.len() == oks.len() + 1,
        costs.len() == oks.len(),
        times.len() == oks.len(),
        n <= oks.len(),
        states[0].well_formed(),
        states[0].trail().history.len() == 0,
        states[0].trail().latest == 0,
        states[0].trail().in_order,
        forall|i: int, j: int| 0 <= i <= j < times.len() ==> #[trigger] times[i] <= #[trigger] times[j],
        forall|i: int| 0 <= i < times.len() ==> #[trigger] times[i] < u64::MAX,
        forall|i: int|
            0 <= i < oks.len() ==> (#[trigger] states[i]).took(
                &states[i + 1],
                costs[i],
                times[i],
                oks[i],
            ),
    ensures
        states[n as int].well_formed(),
        states[0].same_limits(&states[n as int]),
        states[n as int].trail().in_order,
        states[n as int].trail().history == grants_of(costs, times, oks, n),
        n < oks.len() ==> states[n as int].trail().latest <= times[n as int],
        n < oks.len() ==> (oks[n as int] <==> granted_between(
            grants_of(costs, times, oks, n),
            times[n as int] - states[0].window_millis(),
            times[n as int] as int,
        ) + costs[n as int] <= states[0].most()),
    decreases n,
{
    if n == 0 {
        assert(states[0].trail().history =~= Seq::<Grant>::empty());
    } else {
        let m = (n - 1) as nat;
        lemma_a_run_grants_what_the_window_has_room_for(states, costs, times, oks, m);
        assert(states[m as int].took(&states[n as int], costs[m as int], times[m as int], oks[m as int]));
        if oks[m as int] {
            lemma_live(
                states[m as int].log(),
                times[m as int],
                states[m as int].window_millis(),
            );
            assert(costs[m as int] <= states[m as int].most());
        }
    }
    if n < oks.len() {
        let now_ms = times[n as int];
        let state = states[n as int];
        assert(state.took(&states[n as int + 1], costs[n as int], now_ms, oks[n as int]));
        state.lemma_granted_exactly_when_the_window_has_room(costs[n as int], now_ms);
        lemma_live(state.log(), now_ms, state.window_millis());
    }
}

/// Time is counted in whole milliseconds from when the limiter was made, and a window lasts a whole
/// number of them, no less than it was made for.
pub proof fn lemma_windows_are_whole_milliseconds<C>(limiter: SlidingWindowLog<C>, now: Duration)
    requires
        limiter.window()@ <= u64::MAX as nat * 1_000_000,
        limiter.started()@ <= now@,
        now@ - limiter.started()@ <= u64::MAX as nat * 1_000_000,
    ensures
        (limiter.window_millis() - 1) * 1_000_000 < limiter.window()@ <= limiter.window_millis()
            * 1_000_000,
        limiter.millis_at(now) * 1_000_000 <= now@ - limiter.started()@ < (limiter.millis_at(now) + 1)
            * 1_000_000,
        limiter.millis_at(limiter.started()) == 0,
{
}

/// The time that the limiter goes by is a reading of its own clock, in whole milliseconds from when
/// the limiter was made.
pub proof fn lemma_the_limiter_goes_by_its_clock<C: Clock>(
    limiter: SlidingWindowLog<C>,
    now_ms: u64,
)
    requires
        limiter.shows(now_ms),
        now_ms < u64::MAX,
    ensures
        exists|now: Duration|
            {
                &&& #[trigger] reading_of(limiter.clock(), now)
                &&& now@ <= limiter.started()@ ==> now_ms == 0
                &&& now@ > limiter.started()@ ==> now_ms * 1_000_000 <= now@ - limiter.started()@ < (
                now_ms + 1) * 1_000_000
            },
{
    let now = choose|now: Duration| #[trigger]
        reading_of(limiter.clock(), now) && now_ms == limiter.millis_at(now);
    assert(reading_of(limiter.clock(), now));
}

} // verus!
