//! A circuit breaker in front of a limiter.
//!
//! A closed breaker lets requests through and counts failures. Once they trip it, it is open and
//! sheds requests for a cooldown. Then it is half open: a few trial requests go through, and it
//! closes if enough of them succeed, or opens again if one fails.

use std::collections::VecDeque;
use vstd::prelude::*;

use crate::clock::{may_be_now, reading_of, Clock, SystemClock};
use crate::decision::Decision;
use crate::error::ThrottleError;
use crate::limiter::{lasts, lemma_not_before_itself, same_nature, unmoved, Limiter, Reading};
use crate::ratio::Ratio;
use crate::step::{next_step, step_after, Step};
use crate::time::{max_int, millis_of, millis_up, min_int, span, Duration};

verus! {

/// What trips a breaker.
#[non_exhaustive]
#[derive(Debug, Clone, Copy)]
pub enum Trip {
    /// This many failures in a row.
    Consecutive(u32),
    /// This share of failures among the latest calls.
    Ratio {
        /// How many of the latest calls count.
        window: u32,
        /// The share of failures that trips.
        ratio: Ratio,
        /// How many calls must have been observed before the share counts.
        min_calls: u32,
    },
    /// This many failures within a period.
    Windowed {
        /// The failures that trip.
        failures: u32,
        /// The period that they fall in.
        period: Duration,
    },
}

/// Whether a breaker lets requests through.
#[non_exhaustive]
#[derive(Debug, Clone, Copy, PartialEq, Eq, Structural)]
pub enum BreakerState {
    /// Requests go through.
    Closed,
    /// Requests are shed.
    Open,
    /// A few trial requests go through.
    HalfOpen,
}

/// The settings of a breaker.
#[derive(Debug, Clone, Copy)]
pub struct Config {
    /// What trips it.
    pub trip: Trip,
    /// How long it stays open. A part of a millisecond counts as a whole one.
    pub cooldown: Duration,
    /// How many trial requests are let through at a time.
    pub half_open_trials: u32,
    /// How many trial requests must succeed.
    pub half_open_required: u32,
}

/// What a breaker knows.
pub struct Book {
    /// Whether requests go through.
    pub state: BreakerState,
    /// The failures in a row, saturated to `u32`.
    pub consecutive: u32,
    /// The latest calls, oldest first; true for a failure.
    pub outcomes: Seq<bool>,
    /// The calls observed since the breaker closed, for a trip by share, saturated to `u32`.
    pub observed: u32,
    /// When the latest failures happened, oldest first, in milliseconds.
    pub failure_times: Seq<u64>,
    /// The trial requests under way.
    pub inflight: u32,
    /// The trial requests that have succeeded.
    pub successes: u32,
    /// When an open breaker lets a trial through, in milliseconds.
    pub open_until_ms: u64,
}

/// The last `n` of `s`.
pub open spec fn last_of(s: Seq<bool>, n: nat) -> Seq<bool> {
    if s.len() <= n {
        s
    } else {
        s.skip(s.len() - n)
    }
}

/// `times` without those at its start that are before `cutoff`.
pub open spec fn since(times: Seq<u64>, cutoff: int) -> Seq<u64>
    decreases times.len(),
{
    if times.len() > 0 && times[0] < cutoff {
        since(times.drop_first(), cutoff)
    } else {
        times
    }
}

/// How many of `outcomes` are failures.
pub open spec fn failures_in(outcomes: Seq<bool>) -> nat
    decreases outcomes.len(),
{
    if outcomes.len() == 0 {
        0
    } else {
        failures_in(outcomes.drop_last()) + if outcomes.last() {
            1nat
        } else {
            0nat
        }
    }
}

/// How many of `times` are at or after `cutoff`.
pub open spec fn recent_in(times: Seq<u64>, cutoff: int) -> nat
    decreases times.len(),
{
    if times.len() == 0 {
        0
    } else {
        recent_in(times.drop_last(), cutoff) + if times.last() >= cutoff {
            1nat
        } else {
            0nat
        }
    }
}

/// The start of the period that ends at `now_ms`.
pub open spec fn cutoff_at(now_ms: u64, period: Duration) -> int {
    max_int(now_ms - millis_of(period), 0)
}

/// The book after a call ended at `now_ms`, before asking whether it trips.
pub open spec fn noted(book: Book, trip: Trip, failure: bool, now_ms: u64) -> Book {
    match trip {
        Trip::Consecutive(_) => book,
        Trip::Ratio { window, .. } => Book {
            outcomes: last_of(book.outcomes.push(failure), window as nat),
            observed: min_int(book.observed + 1, u32::MAX as int) as u32,
            ..book
        },
        Trip::Windowed { period, .. } => Book {
            failure_times: since(
                if failure {
                    book.failure_times.push(now_ms)
                } else {
                    book.failure_times
                },
                cutoff_at(now_ms, period),
            ),
            ..book
        },
    }
}

/// Whether what the book holds trips the breaker at `now_ms`.
pub open spec fn trips(book: Book, trip: Trip, now_ms: u64) -> bool {
    match trip {
        Trip::Consecutive(n) => book.consecutive >= n,
        Trip::Ratio { ratio, min_calls, .. } => {
            let total = book.outcomes.len();
            &&& total > 0
            &&& book.observed >= min_calls
            &&& failures_in(book.outcomes) * ratio.den() >= ratio.num() * total
        },
        Trip::Windowed { failures, period } => recent_in(
            book.failure_times,
            cutoff_at(now_ms, period),
        ) >= failures,
    }
}

/// The book once the breaker has opened at `now_ms`.
pub open spec fn opened(book: Book, config: Config, now_ms: u64) -> Book {
    Book {
        state: BreakerState::Open,
        open_until_ms: min_int(now_ms + millis_up(config.cooldown), u64::MAX as int) as u64,
        inflight: 0,
        successes: 0,
        ..book
    }
}

/// The book once the breaker has closed.
pub open spec fn closed(book: Book) -> Book {
    Book {
        state: BreakerState::Closed,
        consecutive: 0,
        outcomes: Seq::<bool>::empty(),
        observed: 0,
        failure_times: Seq::<u64>::empty(),
        inflight: 0,
        successes: 0,
        ..book
    }
}

/// The book after a call ended at `now_ms`, with success or not.
pub open spec fn recorded(book: Book, config: Config, success: bool, now_ms: u64) -> Book {
    match book.state {
        BreakerState::HalfOpen => {
            let inflight = max_int(book.inflight - 1, 0) as u32;
            let successes = (book.successes + 1) as u32;
            if !success {
                opened(Book { inflight, ..book }, config, now_ms)
            } else if successes >= config.half_open_required {
                closed(book)
            } else {
                Book { inflight, successes, ..book }
            }
        },
        BreakerState::Closed => {
            if success {
                noted(Book { consecutive: 0, ..book }, config.trip, false, now_ms)
            } else {
                let next = noted(
                    Book {
                        consecutive: min_int(book.consecutive + 1, u32::MAX as int) as u32,
                        ..book
                    },
                    config.trip,
                    true,
                    now_ms,
                );
                if trips(next, config.trip, now_ms) {
                    opened(next, config, now_ms)
                } else {
                    next
                }
            }
        },
        BreakerState::Open => book,
    }
}

/// Whether a request is shed at `now_ms`, and if so for how long.
pub open spec fn shed_for(book: Book, config: Config, now_ms: u64) -> Option<Duration> {
    match book.state {
        BreakerState::Closed => None,
        BreakerState::Open => if now_ms >= book.open_until_ms {
            None
        } else {
            Some(span(((book.open_until_ms - now_ms) * 1_000_000) as nat))
        },
        BreakerState::HalfOpen => if book.inflight < config.half_open_trials {
            None
        } else {
            Some(span(0))
        },
    }
}

/// The book after a request asked to go through at `now_ms`.
pub open spec fn admitted(book: Book, config: Config, now_ms: u64) -> Book {
    if shed_for(book, config, now_ms) is Some {
        book
    } else {
        match book.state {
            BreakerState::Closed => book,
            BreakerState::Open => Book {
                state: BreakerState::HalfOpen,
                inflight: 1,
                successes: 0,
                ..book
            },
            BreakerState::HalfOpen => Book { inflight: (book.inflight + 1) as u32, ..book },
        }
    }
}

/// The book after a request that had gone through was given up before it was made.
pub open spec fn aborted(book: Book) -> Book {
    if book.state == BreakerState::HalfOpen {
        Book { inflight: max_int(book.inflight - 1, 0) as u32, ..book }
    } else {
        book
    }
}

/// The book of a breaker that has seen nothing.
pub open spec fn blank() -> Book {
    Book {
        state: BreakerState::Closed,
        consecutive: 0,
        outcomes: Seq::<bool>::empty(),
        observed: 0,
        failure_times: Seq::<u64>::empty(),
        inflight: 0,
        successes: 0,
        open_until_ms: 0,
    }
}

/// Whether a book can come about: never more trials under way than are let through, a half-open
/// breaker with too few successes to close, and no more calls kept than count.
pub open spec fn in_bounds(book: Book, config: Config) -> bool {
    &&& 1 <= config.half_open_required <= config.half_open_trials
    &&& book.inflight <= config.half_open_trials
    &&& book.successes < config.half_open_required
    &&& config.trip matches Trip::Ratio { window, .. } ==> book.outcomes.len() <= window
}

struct Shared {
    state: BreakerState,
    consecutive: u32,
    outcomes: VecDeque<bool>,
    observed: u32,
    failure_times: VecDeque<u64>,
    half_open_inflight: u32,
    half_open_successes: u32,
    open_until_ms: u64,
}

impl Shared {
    closed spec fn book(&self) -> Book {
        Book {
            state: self.state,
            consecutive: self.consecutive,
            outcomes: self.outcomes@,
            observed: self.observed,
            failure_times: self.failure_times@,
            inflight: self.half_open_inflight,
            successes: self.half_open_successes,
            open_until_ms: self.open_until_ms,
        }
    }

    fn new() -> (shared: Self)
        ensures
            shared.book() == blank(),
    {
        Shared {
            state: BreakerState::Closed,
            consecutive: 0,
            outcomes: VecDeque::new(),
            observed: 0,
            failure_times: VecDeque::new(),
            half_open_inflight: 0,
            half_open_successes: 0,
            open_until_ms: 0,
        }
    }

    fn close(&mut self)
        ensures
            final(self).book() == closed(old(self).book()),
    {
        self.state = BreakerState::Closed;
        self.consecutive = 0;
        self.outcomes.clear();
        self.observed = 0;
        self.failure_times.clear();
        self.half_open_inflight = 0;
        self.half_open_successes = 0;
    }

    fn open(&mut self, config: &Config, now_ms: u64)
        ensures
            final(self).book() == opened(old(self).book(), *config, now_ms),
    {
        self.state = BreakerState::Open;
        self.open_until_ms = now_ms.saturating_add(config.cooldown.millis_rounded_up());
        self.half_open_inflight = 0;
        self.half_open_successes = 0;
    }

    /// Keeps what a call that ended at `now_ms` adds to the reasons to trip.
    fn record_outcome(&mut self, trip: Trip, failure: bool, now_ms: u64)
        requires
            trip matches Trip::Ratio { window, .. } ==> old(self).outcomes@.len() <= window,
        ensures
            final(self).book() == noted(old(self).book(), trip, failure, now_ms),
    {
        match trip {
            Trip::Consecutive(_) => {},
            Trip::Ratio { window, .. } => {
                self.observed = self.observed.saturating_add(1);
                self.outcomes.push_back(failure);
                let ghost all = self.outcomes@;
                if self.outcomes.len() > window as usize {
                    let _ = self.outcomes.pop_front();
                    assert(self.outcomes@ =~= last_of(all, window as nat));
                }
            },
            Trip::Windowed { period, .. } => {
                if failure {
                    self.failure_times.push_back(now_ms);
                }
                let cutoff: u64 = now_ms.saturating_sub(period.millis_saturating());
                let ghost all = self.failure_times@;
                while self.failure_times.len() > 0 && self.failure_times[0] < cutoff
                    invariant
                        since(all, cutoff as int) == since(self.failure_times@, cutoff as int),
                        self.state == old(self).state,
                        self.consecutive == old(self).consecutive,
                        self.outcomes == old(self).outcomes,
                        self.observed == old(self).observed,
                        self.half_open_inflight == old(self).half_open_inflight,
                        self.half_open_successes == old(self).half_open_successes,
                        self.open_until_ms == old(self).open_until_ms,
                    decreases self.failure_times@.len(),
                {
                    let ghost times = self.failure_times@;
                    let _ = self.failure_times.pop_front();
                    assert(self.failure_times@ =~= times.drop_first());
                }
            },
        }
    }

    /// Whether what is kept trips the breaker at `now_ms`.
    fn tripped(&self, trip: Trip, now_ms: u64) -> (yes: bool)
        requires
            trip matches Trip::Ratio { window, .. } ==> self.outcomes@.len() <= window,
        ensures
            yes == trips(self.book(), trip, now_ms),
    {
        match trip {
            Trip::Consecutive(n) => self.consecutive >= n,
            Trip::Ratio { ratio, min_calls, .. } => {
                let total: u32 = self.outcomes.len() as u32;
                if self.observed < min_calls || total == 0 {
                    return false;
                }
                let failures: u32 = self.count_failures();
                ratio.is_reached_by(failures, total)
            },
            Trip::Windowed { failures, period } => {
                let cutoff: u64 = now_ms.saturating_sub(period.millis_saturating());
                let recent: usize = self.count_recent(cutoff);
                recent >= failures as usize
            },
        }
    }

    fn count_failures(&self) -> (n: u32)
        requires
            self.outcomes@.len() <= u32::MAX,
        ensures
            n == failures_in(self.outcomes@),
            n <= self.outcomes@.len(),
    {
        let mut n: u32 = 0;
        let mut i: usize = 0;
        while i < self.outcomes.len()
            invariant
                i <= self.outcomes@.len() <= u32::MAX,
                n <= i,
                n == failures_in(self.outcomes@.take(i as int)),
            decreases self.outcomes@.len() - i,
        {
            assert(self.outcomes@.take(i + 1).drop_last() =~= self.outcomes@.take(i as int));
            if self.outcomes[i] {
                n += 1;
            }
            i += 1;
        }
        assert(self.outcomes@.take(i as int) =~= self.outcomes@);
        n
    }

    fn count_recent(&self, cutoff: u64) -> (n: usize)
        ensures
            n == recent_in(self.failure_times@, cutoff as int),
    {
        let mut n: usize = 0;
        let mut i: usize = 0;
        while i < self.failure_times.len()
            invariant
                i <= self.failure_times@.len(),
                n <= i,
                n == recent_in(self.failure_times@.take(i as int), cutoff as int),
            decreases self.failure_times@.len() - i,
        {
            assert(self.failure_times@.take(i + 1).drop_last() =~= self.failure_times@.take(
                i as int,
            ));
            if self.failure_times[i] >= cutoff {
                n += 1;
            }
            i += 1;
        }
        assert(self.failure_times@.take(i as int) =~= self.failure_times@);
        n
    }

    /// Lets a request through at `now_ms`, or gives how long it is shed for.
    fn let_through(&mut self, config: &Config, now_ms: u64) -> (shed: Option<Duration>)
        requires
            in_bounds(old(self).book(), *config),
        ensures
            shed == shed_for(old(self).book(), *config, now_ms),
            final(self).book() == admitted(old(self).book(), *config, now_ms),
    {
        match self.state {
            BreakerState::Closed => None,
            BreakerState::Open => {
                if now_ms >= self.open_until_ms {
                    self.state = BreakerState::HalfOpen;
                    self.half_open_inflight = 1;
                    self.half_open_successes = 0;
                    None
                } else {
                    Some(Duration::from_millis(self.open_until_ms - now_ms))
                }
            },
            BreakerState::HalfOpen => {
                if self.half_open_inflight < config.half_open_trials {
                    self.half_open_inflight = self.half_open_inflight + 1;
                    None
                } else {
                    Some(Duration::zero())
                }
            },
        }
    }

    /// Takes back a request that had been let through.
    fn abort(&mut self)
        ensures
            final(self).book() == aborted(old(self).book()),
    {
        match self.state {
            BreakerState::HalfOpen => {
                self.half_open_inflight = self.half_open_inflight.saturating_sub(1);
            },
            _ => {},
        }
    }

    /// Keeps that a call ended at `now_ms`, with success or not.
    fn record(&mut self, config: &Config, success: bool, now_ms: u64)
        requires
            in_bounds(old(self).book(), *config),
        ensures
            final(self).book() == recorded(old(self).book(), *config, success, now_ms),
    {
        match self.state {
            BreakerState::HalfOpen => {
                self.half_open_inflight = self.half_open_inflight.saturating_sub(1);
                if success {
                    self.half_open_successes = self.half_open_successes + 1;
                    if self.half_open_successes >= config.half_open_required {
                        self.close();
                    }
                } else {
                    self.open(config, now_ms);
                }
            },
            BreakerState::Closed => {
                if success {
                    self.consecutive = 0;
                    self.record_outcome(config.trip, false, now_ms);
                } else {
                    self.consecutive = self.consecutive.saturating_add(1);
                    self.record_outcome(config.trip, true, now_ms);
                    if self.tripped(config.trip, now_ms) {
                        self.open(config, now_ms);
                    }
                }
            },
            BreakerState::Open => {},
        }
    }
}

/// Every step keeps a book within its bounds.
pub proof fn lemma_steps_stay_in_bounds(book: Book, config: Config, success: bool, now_ms: u64)
    requires
        in_bounds(book, config),
    ensures
        in_bounds(admitted(book, config, now_ms), config),
        in_bounds(aborted(book), config),
        in_bounds(recorded(book, config, success, now_ms), config),
{
}

/// A breaker in front of a limiter.
pub struct CircuitBreaker<L, C = SystemClock> {
    inner: L,
    config: Config,
    shared: Shared,
    clock: C,
    epoch: Duration,
}

/// A request that was let through. Its outcome is owed to the breaker; a permit that is given up
/// without one counts as a failure.
#[must_use]
pub struct Permit {
    issued: (),
}

/// What asking a breaker for a permit came to.
pub type Granted = Result<Option<Permit>, ThrottleError>;

impl<L: Limiter, C> CircuitBreaker<L, C> {
    /// What the breaker knows.
    pub closed spec fn book(&self) -> Book {
        self.shared.book()
    }

    /// The settings of the breaker.
    pub closed spec fn config(&self) -> Config {
        self.config
    }

    /// The limiter behind the breaker.
    pub closed spec fn limiter(&self) -> L {
        self.inner
    }

    /// The reading of the clock at which the breaker was made.
    pub closed spec fn started(&self) -> Duration {
        self.epoch
    }

    /// The time source of the breaker.
    pub closed spec fn clock(&self) -> C {
        self.clock
    }

    /// The invariant.
    pub open spec fn valid(&self) -> bool {
        &&& in_bounds(self.book(), self.config())
        &&& self.limiter().valid()
    }

    /// Whether `post` has the settings of `self`.
    pub open spec fn same_settings(&self, post: &Self) -> bool {
        &&& post.config() == self.config()
        &&& post.started() == self.started()
        &&& post.clock() == self.clock()
    }

    /// Whether the limiter answered `answer` to a request for one token at `at`, and was charged
    /// if it granted it.
    pub open spec fn asked(&self, post: &Self, at: Reading, answer: Decision) -> bool {
        &&& self.limiter().answered(1, at, answer)
        &&& answer is Acquired <==> 1 <= self.limiter().tokens(at)
        &&& answer is Acquired && self.limiter().exact(at) ==> post.limiter().tokens(at)
            == self.limiter().tokens(at) - 1
        &&& answer is Acquired ==> lasts(self.limiter(), post.limiter(), 1, at)
        &&& answer !is Acquired ==> unmoved(self.limiter(), post.limiter(), at)
        &&& 1 > self.limiter().limit() ==> answer is Impossible
        &&& same_nature(self.limiter(), post.limiter())
    }

    /// Whether asking for a permit at `now_ms` turned `self` into `post` with `outcome`.
    pub open spec fn tried(&self, post: &Self, now_ms: u64, at: Reading, outcome: Granted) -> bool {
        match shed_for(self.book(), self.config(), now_ms) {
            Some(retry_after) => {
                &&& outcome == Err::<Option<Permit>, ThrottleError>(
                    ThrottleError::CircuitOpen { retry_after },
                )
                &&& post.book() == self.book()
                &&& post.limiter() == self.limiter()
            },
            None => exists|answer: Decision|
                {
                    let book = admitted(self.book(), self.config(), now_ms);
                    &&& #[trigger] self.asked(post, at, answer)
                    &&& match answer {
                        Decision::Acquired => outcome is Ok && outcome->Ok_0 is Some && post.book()
                            == book,
                        Decision::Retry { .. } => outcome is Ok && outcome->Ok_0 is None
                            && post.book() == aborted(book),
                        Decision::Impossible => {
                            &&& outcome == Err::<Option<Permit>, ThrottleError>(
                                ThrottleError::CostExceedsCapacity {
                                    cost: 1,
                                    capacity: self.limiter().limit(),
                                },
                            )
                            &&& post.book() == aborted(book)
                        },
                    }
                },
        }
    }

    /// Whether requests go through.
    pub fn state(&self) -> (state: BreakerState)
        ensures
            state == self.book().state,
    {
        self.shared.state
    }

    /// The limiter behind the breaker.
    pub fn inner(&self) -> (limiter: &L)
        ensures
            *limiter == self.limiter(),
    {
        &self.inner
    }

    /// Asks for a permit at `now_ms`, with the limiter read at `at`.
    ///
    /// A breaker that sheds gives an error and leaves the limiter alone. Else the limiter decides:
    /// no permit while it has no token, and an error if it never will.
    pub fn try_acquire_at(&mut self, now_ms: u64, at: &Reading) -> (outcome: Granted)
        requires
            old(self).valid(),
            old(self).limiter().reads(*at),
        ensures
            final(self).valid(),
            old(self).same_settings(final(self)),
            old(self).tried(final(self), now_ms, *at, outcome),
    {
        proof {
            lemma_steps_stay_in_bounds(self.book(), self.config, true, now_ms);
            lemma_steps_stay_in_bounds(
                admitted(self.book(), self.config, now_ms),
                self.config,
                true,
                now_ms,
            );
        }
        let config = self.config;
        if let Some(retry_after) = self.shared.let_through(&config, now_ms) {
            return Err(ThrottleError::CircuitOpen { retry_after });
        }
        let capacity: u32 = self.inner.capacity();
        let answer = self.inner.acquire_cost_at(1, at);
        assert(old(self).asked(self, *at, answer));
        match answer {
            Decision::Acquired => Ok(Some(Permit { issued: () })),
            Decision::Retry { .. } => {
                self.shared.abort();
                assert(old(self).asked(self, *at, answer));
                Ok(None)
            },
            Decision::Impossible => {
                self.shared.abort();
                assert(old(self).asked(self, *at, answer));
                Err(ThrottleError::CostExceedsCapacity { cost: 1, capacity })
            },
        }
    }

    /// Tells the breaker that a call ended at `now_ms`, with success or not.
    pub fn record_at(&mut self, success: bool, now_ms: u64)
        requires
            old(self).valid(),
        ensures
            final(self).valid(),
            old(self).same_settings(final(self)),
            final(self).limiter() == old(self).limiter(),
            final(self).book() == recorded(old(self).book(), old(self).config(), success, now_ms),
    {
        proof {
            lemma_steps_stay_in_bounds(self.book(), self.config, success, now_ms);
        }
        let config = self.config;
        self.shared.record(&config, success, now_ms);
    }

    /// Asks to go through at `now_ms`, ahead of a wait for the limiter.
    pub fn enter_at(&mut self, now_ms: u64) -> (outcome: Result<(), ThrottleError>)
        requires
            old(self).valid(),
        ensures
            final(self).valid(),
            old(self).same_settings(final(self)),
            final(self).limiter() == old(self).limiter(),
            final(self).book() == admitted(old(self).book(), old(self).config(), now_ms),
            outcome == (match shed_for(old(self).book(), old(self).config(), now_ms) {
                Some(retry_after) => Err::<(), ThrottleError>(
                    ThrottleError::CircuitOpen { retry_after },
                ),
                None => Ok(()),
            }),
    {
        proof {
            lemma_steps_stay_in_bounds(self.book(), self.config, true, now_ms);
        }
        let config = self.config;
        match self.shared.let_through(&config, now_ms) {
            Some(retry_after) => Err(ThrottleError::CircuitOpen { retry_after }),
            None => Ok(()),
        }
    }

    /// One step of a request that has gone through and waits for a token, with the limiter read
    /// at `at`. A request that can never be granted gives its place back.
    pub fn advance_at(&mut self, at: &Reading) -> (step: Step)
        requires
            old(self).valid(),
            old(self).limiter().reads(*at),
        ensures
            final(self).valid(),
            old(self).same_settings(final(self)),
            old(self).advanced(final(self), *at, step),
    {
        proof {
            lemma_steps_stay_in_bounds(self.book(), self.config, true, 0);
        }
        let capacity: u32 = self.inner.capacity();
        let answer = self.inner.acquire_cost_at(1, at);
        match answer {
            Decision::Impossible => {
                self.shared.abort();
            },
            _ => {},
        }
        assert(old(self).asked(self, *at, answer));
        next_step(answer, 1, capacity)
    }

    /// Whether one step of a request that has gone through turned `self` into `post`.
    pub open spec fn advanced(&self, post: &Self, at: Reading, step: Step) -> bool {
        exists|answer: Decision|
            {
                &&& #[trigger] self.asked(post, at, answer)
                &&& step == step_after(answer, 1, self.limiter().limit())
                &&& post.book() == if answer is Impossible {
                    aborted(self.book())
                } else {
                    self.book()
                }
            }
    }
}

impl CircuitBreaker<crate::throttle::Throttle> {
    /// Starts building a breaker.
    pub fn builder() -> (builder: CircuitBreakerBuilder)
        ensures
            builder.is_default(),
    {
        CircuitBreakerBuilder::new()
    }
}

impl<L: Limiter, C: Clock> CircuitBreaker<L, C> {
    /// Milliseconds since the breaker was made, at the reading `now`.
    pub open spec fn millis_at(&self, now: Duration) -> u64 {
        millis_of(span(max_int(now@ - self.started()@, 0) as nat))
    }

    /// Whether the breaker's clock may show that `now_ms` milliseconds have passed since the
    /// breaker was made.
    pub open spec fn shows(&self, now_ms: u64) -> bool {
        exists|now: Duration| #[trigger]
            reading_of(self.clock(), now) && now_ms == self.millis_at(now)
    }

    fn new(inner: L, config: Config, clock: C) -> (breaker: Self)
        ensures
            breaker.limiter() == inner,
            breaker.config() == config,
            breaker.book() == blank(),
            breaker.clock() == clock,
            reading_of(clock, breaker.started()),
    {
        let epoch = clock.elapsed();
        CircuitBreaker { inner, config, shared: Shared::new(), clock, epoch }
    }

    /// The breaker with `clock` as its time source, closed and with nothing seen.
    pub fn with_clock<D: Clock>(self, clock: D) -> (breaker: CircuitBreaker<L, D>)
        ensures
            breaker.limiter() == self.limiter(),
            breaker.config() == self.config(),
            breaker.book() == blank(),
            breaker.clock() == clock,
            reading_of(clock, breaker.started()),
    {
        CircuitBreaker::new(self.inner, self.config, clock)
    }

    /// Milliseconds since the breaker was made.
    fn now_ms(&self) -> (ms: u64)
        ensures
            self.shows(ms),
    {
        let now = self.clock.elapsed();
        assert(reading_of(self.clock(), now));
        now.saturating_sub(self.epoch).millis_saturating()
    }

    /// Asks for a permit now.
    pub fn try_acquire(&mut self) -> (outcome: Granted)
        requires
            old(self).valid(),
        ensures
            final(self).valid(),
            old(self).same_settings(final(self)),
            exists|now_ms: u64, at: Reading|
                {
                    &&& old(self).shows(now_ms)
                    &&& old(self).limiter().reads(at)
                    &&& old(self).limiter().may_read(at)
                    &&& #[trigger] old(self).tried(final(self), now_ms, at, outcome)
                },
    {
        let now_ms: u64 = self.now_ms();
        let at = self.inner.read();
        let outcome = self.try_acquire_at(now_ms, &at);
        assert(old(self).tried(self, now_ms, at, outcome));
        outcome
    }

    /// Asks to go through now, ahead of a wait for the limiter.
    pub fn enter(&mut self) -> (outcome: Result<(), ThrottleError>)
        requires
            old(self).valid(),
        ensures
            final(self).valid(),
            old(self).same_settings(final(self)),
            final(self).limiter() == old(self).limiter(),
            exists|now_ms: u64|
                {
                    &&& old(self).shows(now_ms)
                    &&& final(self).book() == #[trigger] admitted(
                        old(self).book(),
                        old(self).config(),
                        now_ms,
                    )
                    &&& outcome == (match shed_for(old(self).book(), old(self).config(), now_ms) {
                        Some(retry_after) => Err::<(), ThrottleError>(
                            ThrottleError::CircuitOpen { retry_after },
                        ),
                        None => Ok(()),
                    })
                },
    {
        let now_ms: u64 = self.now_ms();
        self.enter_at(now_ms)
    }

    /// One step, now, of a request that has gone through and waits for a token.
    pub fn advance(&mut self) -> (step: Step)
        requires
            old(self).valid(),
        ensures
            final(self).valid(),
            old(self).same_settings(final(self)),
            exists|at: Reading|
                {
                    &&& old(self).limiter().reads(at)
                    &&& old(self).limiter().may_read(at)
                    &&& #[trigger] old(self).advanced(final(self), at, step)
                },
    {
        let at = self.inner.read();
        let step = self.advance_at(&at);
        assert(old(self).advanced(self, at, step));
        step
    }

    /// Whether `post` is `self` told now that a call ended, with success or not.
    pub open spec fn told(&self, post: &Self, success: bool) -> bool {
        &&& post.valid()
        &&& self.same_settings(post)
        &&& post.limiter() == self.limiter()
        &&& exists|now_ms: u64|
            self.shows(now_ms) && post.book() == #[trigger] recorded(
                self.book(),
                self.config(),
                success,
                now_ms,
            )
    }

    fn record(&mut self, success: bool)
        requires
            old(self).valid(),
        ensures
            old(self).told(final(self), success),
    {
        let now_ms: u64 = self.now_ms();
        self.record_at(success, now_ms);
    }

    /// Tells the breaker that a call succeeded.
    pub fn record_success(&mut self)
        requires
            old(self).valid(),
        ensures
            old(self).told(final(self), true),
    {
        self.record(true);
    }

    /// Tells the breaker that a call failed.
    pub fn record_failure(&mut self)
        requires
            old(self).valid(),
        ensures
            old(self).told(final(self), false),
    {
        self.record(false);
    }
}

impl Permit {
    /// Tells `breaker` that the call succeeded.
    pub fn success<L: Limiter, C: Clock>(self, breaker: &mut CircuitBreaker<L, C>)
        requires
            old(breaker).valid(),
        ensures
            old(breaker).told(final(breaker), true),
    {
        breaker.record(true);
    }

    /// Tells `breaker` that the call failed.
    pub fn failure<L: Limiter, C: Clock>(self, breaker: &mut CircuitBreaker<L, C>)
        requires
            old(breaker).valid(),
        ensures
            old(breaker).told(final(breaker), false),
    {
        breaker.record(false);
    }

    /// Gives the permit up without an outcome, which counts as a failure.
    pub fn abandon<L: Limiter, C: Clock>(self, breaker: &mut CircuitBreaker<L, C>)
        requires
            old(breaker).valid(),
        ensures
            old(breaker).told(final(breaker), false),
    {
        breaker.record(false);
    }
}

/// Collects the settings of a [`CircuitBreaker`].
#[derive(Debug, Clone, Copy)]
pub struct CircuitBreakerBuilder {
    config: Config,
}

impl Default for CircuitBreakerBuilder {
    fn default() -> (builder: Self)
        ensures
            builder.is_default(),
    {
        CircuitBreakerBuilder::new()
    }
}

impl CircuitBreakerBuilder {
    /// The settings collected so far.
    pub closed spec fn config(&self) -> Config {
        self.config
    }

    /// The invariant: at least one trial must succeed, and no more than are let through.
    #[verifier::type_invariant]
    closed spec fn sound(&self) -> bool {
        1 <= self.config.half_open_required <= self.config.half_open_trials
    }

    /// Five failures in a row trip, the cooldown is thirty seconds, and one trial closes.
    pub open spec fn is_default(&self) -> bool {
        &&& self.config().trip == Trip::Consecutive(5)
        &&& self.config().cooldown@ == 30_000_000_000
        &&& self.config().half_open_trials == 1
        &&& self.config().half_open_required == 1
    }

    /// Five failures in a row trip, the cooldown is thirty seconds, and one trial closes.
    pub fn new() -> (builder: Self)
        ensures
            builder.is_default(),
    {
        CircuitBreakerBuilder {
            config: Config {
                trip: Trip::Consecutive(5),
                cooldown: Duration::from_secs(30),
                half_open_trials: 1,
                half_open_required: 1,
            },
        }
    }

    /// Sets what trips the breaker.
    pub fn trip(self, trip: Trip) -> (builder: Self)
        ensures
            builder.config() == (Config { trip, ..self.config() }),
    {
        proof {
            use_type_invariant(&self);
        }
        CircuitBreakerBuilder { config: Config { trip, ..self.config } }
    }

    /// Sets how long the breaker stays open.
    pub fn cooldown(self, cooldown: Duration) -> (builder: Self)
        ensures
            builder.config() == (Config { cooldown, ..self.config() }),
    {
        proof {
            use_type_invariant(&self);
        }
        CircuitBreakerBuilder { config: Config { cooldown, ..self.config } }
    }

    /// Sets how many trials are let through at a time, at least one, and how many must succeed,
    /// at least one and no more than are let through.
    pub fn half_open(self, trials: u32, required: u32) -> (builder: Self)
        ensures
            builder.config() == (Config {
                half_open_trials: max_int(trials as int, 1) as u32,
                half_open_required: min_int(
                    max_int(required as int, 1),
                    max_int(trials as int, 1),
                ) as u32,
                ..self.config()
            }),
    {
        let half_open_trials: u32 = if trials == 0 {
            1
        } else {
            trials
        };
        let required: u32 = if required == 0 {
            1
        } else {
            required
        };
        let half_open_required: u32 = if required < half_open_trials {
            required
        } else {
            half_open_trials
        };
        CircuitBreakerBuilder {
            config: Config { half_open_trials, half_open_required, ..self.config },
        }
    }

    /// A closed breaker in front of `limiter`.
    pub fn build<L: Limiter>(self, limiter: L) -> (breaker: CircuitBreaker<L, SystemClock>)
        ensures
            breaker.limiter() == limiter,
            breaker.config() == self.config(),
            breaker.book() == blank(),
            limiter.valid() ==> breaker.valid(),
            may_be_now(breaker.clock().origin()),
            reading_of(breaker.clock(), breaker.started()),
    {
        proof {
            use_type_invariant(&self);
        }
        CircuitBreaker::new(limiter, self.config, SystemClock::new())
    }
}

/// The book after calls that ended at `times`, all with success or all without.
pub open spec fn recorded_all(book: Book, config: Config, success: bool, times: Seq<u64>) -> Book
    decreases times.len(),
{
    if times.len() == 0 {
        book
    } else {
        recorded(
            recorded_all(book, config, success, times.drop_last()),
            config,
            success,
            times.last(),
        )
    }
}

/// A breaker that trips on failures in a row opens on the failure that completes the row, and on
/// none before it.
pub proof fn lemma_failures_in_a_row_trip(book: Book, config: Config, n: u32, times: Seq<u64>)
    requires
        book.state == BreakerState::Closed,
        book.consecutive == 0,
        config.trip == Trip::Consecutive(n),
    ensures
        times.len() < n ==> recorded_all(book, config, false, times).state == BreakerState::Closed
            && recorded_all(book, config, false, times).consecutive == times.len(),
        times.len() > 0 && times.len() >= n ==> recorded_all(book, config, false, times).state
            == BreakerState::Open,
    decreases times.len(),
{
    if times.len() > 0 {
        lemma_failures_in_a_row_trip(book, config, n, times.drop_last());
    }
}

/// A success starts the count of failures in a row afresh.
pub proof fn lemma_success_ends_the_row(book: Book, config: Config, now_ms: u64)
    requires
        book.state == BreakerState::Closed,
    ensures
        recorded(book, config, true, now_ms).state == BreakerState::Closed,
        recorded(book, config, true, now_ms).consecutive == 0,
{
}

/// The book after calls that ended one after the other: `calls` says which failed, and when each
/// ended.
pub open spec fn recorded_each(book: Book, config: Config, calls: Seq<(bool, u64)>) -> Book
    decreases calls.len(),
{
    if calls.len() == 0 {
        book
    } else {
        recorded(
            recorded_each(book, config, calls.drop_last()),
            config,
            !calls.last().0,
            calls.last().1,
        )
    }
}

/// Whether the `n` calls from `i` on all failed.
pub open spec fn is_row(calls: Seq<(bool, u64)>, i: int, n: nat) -> bool {
    &&& 0 <= i
    &&& i + n <= calls.len()
    &&& forall|j: int| i <= j < i + n ==> (#[trigger] calls[j]).0
}

/// Whether `n` calls in a row failed.
pub open spec fn has_row(calls: Seq<(bool, u64)>, n: nat) -> bool {
    exists|i: int| #[trigger] is_row(calls, i, n)
}

/// How many of the latest calls failed in a row.
spec fn row_at_end(calls: Seq<(bool, u64)>) -> nat
    decreases calls.len(),
{
    if calls.len() == 0 || !calls.last().0 {
        0
    } else {
        1 + row_at_end(calls.drop_last())
    }
}

proof fn lemma_row_at_end(calls: Seq<(bool, u64)>, n: nat)
    ensures
        row_at_end(calls) <= calls.len(),
        n <= row_at_end(calls) <==> is_row(calls, calls.len() - n, n),
    decreases calls.len(),
{
    if n > 0 && calls.len() > 0 {
        let front = calls.drop_last();
        let m = (n - 1) as nat;
        lemma_row_at_end(front, m);
        if is_row(calls, calls.len() - n, n) {
            assert(calls[calls.len() - 1].0);
            assert forall|j: int| front.len() - m <= j < front.len() implies (#[trigger] front[j]).0 by {
                assert(front[j] == calls[j]);
            }
        }
        if n <= row_at_end(calls) {
            assert forall|j: int| calls.len() - n <= j < calls.len() implies (
            #[trigger] calls[j]).0 by {
                if j < front.len() {
                    assert(front[j] == calls[j]);
                }
            }
        }
    } else if calls.len() > 0 {
        lemma_row_at_end(calls.drop_last(), 0);
    }
}

/// One more call makes a row only at the end.
proof fn lemma_row_grows(calls: Seq<(bool, u64)>, n: nat)
    requires
        calls.len() > 0,
    ensures
        has_row(calls, n) <==> has_row(calls.drop_last(), n) || n <= row_at_end(calls),
{
    let front = calls.drop_last();
    lemma_row_at_end(calls, n);
    if has_row(front, n) {
        let i = choose|i: int| #[trigger] is_row(front, i, n);
        assert forall|j: int| i <= j < i + n implies (#[trigger] calls[j]).0 by {
            assert(front[j] == calls[j]);
        }
        assert(is_row(calls, i, n));
    }
    if has_row(calls, n) && n > row_at_end(calls) {
        let i = choose|i: int| #[trigger] is_row(calls, i, n);
        assert(i + n <= front.len());
        assert forall|j: int| i <= j < i + n implies (#[trigger] front[j]).0 by {
            assert(front[j] == calls[j]);
        }
        assert(is_row(front, i, n));
    }
}

/// Whatever the outcomes, a breaker that trips on `n` failures in a row is open in the end exactly
/// if `n` calls in a row failed at some point: successes in between start the count afresh, and
/// nothing that ends while the breaker is open closes it.
pub proof fn lemma_open_exactly_after_a_row_of_failures(
    book: Book,
    config: Config,
    n: u32,
    calls: Seq<(bool, u64)>,
)
    requires
        book.state == BreakerState::Closed,
        book.consecutive == 0,
        config.trip == Trip::Consecutive(n),
        n > 0,
    ensures
        has_row(calls, n as nat) ==> recorded_each(book, config, calls).state == BreakerState::Open,
        !has_row(calls, n as nat) ==> recorded_each(book, config, calls).state
            == BreakerState::Closed,
{
    lemma_row_is_counted(book, config, n, calls);
}

proof fn lemma_row_is_counted(book: Book, config: Config, n: u32, calls: Seq<(bool, u64)>)
    requires
        book.state == BreakerState::Closed,
        book.consecutive == 0,
        config.trip == Trip::Consecutive(n),
        n > 0,
    ensures
        ({
            let after = recorded_each(book, config, calls);
            &&& has_row(calls, n as nat) ==> after.state == BreakerState::Open
            &&& !has_row(calls, n as nat) ==> after.state == BreakerState::Closed
                && after.consecutive == row_at_end(calls) && row_at_end(calls) < n
        }),
    decreases calls.len(),
{
    if calls.len() > 0 {
        lemma_row_is_counted(book, config, n, calls.drop_last());
        lemma_row_grows(calls, n as nat);
    }
}

/// Which of `calls` failed.
pub open spec fn outcomes_of(calls: Seq<(bool, u64)>) -> Seq<bool> {
    calls.map_values(|call: (bool, u64)| call.0)
}

/// Whether the last of `calls` is a failure that completes the share `ratio` among the latest
/// `window` calls, with `min_calls` calls observed.
pub open spec fn completes_share(
    calls: Seq<(bool, u64)>,
    window: u32,
    ratio: Ratio,
    min_calls: u32,
) -> bool {
    let latest = last_of(outcomes_of(calls), window as nat);
    &&& calls.len() > 0
    &&& calls.last().0
    &&& calls.len() >= min_calls
    &&& latest.len() > 0
    &&& failures_in(latest) * ratio.den() >= ratio.num() * latest.len()
}

proof fn lemma_latest_grows(outcomes: Seq<bool>, failure: bool, window: nat)
    ensures
        last_of(last_of(outcomes, window).push(failure), window) == last_of(
            outcomes.push(failure),
            window,
        ),
{
    assert(last_of(last_of(outcomes, window).push(failure), window) =~= last_of(
        outcomes.push(failure),
        window,
    ));
}

/// Whatever the outcomes, a breaker that trips on a share of failures is open in the end exactly
/// if some failure completed that share among the latest `window` calls, once `min_calls` calls had
/// been observed; also where that is more calls than the window holds.
pub proof fn lemma_open_exactly_after_a_share_of_failures(
    book: Book,
    config: Config,
    window: u32,
    ratio: Ratio,
    min_calls: u32,
    calls: Seq<(bool, u64)>,
)
    requires
        book.state == BreakerState::Closed,
        book.outcomes.len() == 0,
        book.observed == 0,
        config.trip == (Trip::Ratio { window, ratio, min_calls }),
    ensures
        (exists|i: int|
            0 <= i <= calls.len() && completes_share(
                #[trigger] calls.take(i),
                window,
                ratio,
                min_calls,
            )) ==> recorded_each(book, config, calls).state == BreakerState::Open,
        (forall|i: int|
            0 <= i <= calls.len() ==> !completes_share(
                #[trigger] calls.take(i),
                window,
                ratio,
                min_calls,
            )) ==> recorded_each(book, config, calls).state == BreakerState::Closed,
{
    lemma_share_is_counted(book, config, window, ratio, min_calls, calls);
}

#[verifier::rlimit(40)]
proof fn lemma_share_is_counted(
    book: Book,
    config: Config,
    window: u32,
    ratio: Ratio,
    min_calls: u32,
    calls: Seq<(bool, u64)>,
)
    requires
        book.state == BreakerState::Closed,
        book.outcomes.len() == 0,
        book.observed == 0,
        config.trip == (Trip::Ratio { window, ratio, min_calls }),
    ensures
        ({
            let after = recorded_each(book, config, calls);
            let reached = exists|i: int|
                0 <= i <= calls.len() && completes_share(
                    #[trigger] calls.take(i),
                    window,
                    ratio,
                    min_calls,
                );
            &&& reached ==> after.state == BreakerState::Open
            &&& !reached ==> {
                &&& after.state == BreakerState::Closed
                &&& after.outcomes == last_of(outcomes_of(calls), window as nat)
                &&& after.observed == min_int(calls.len() as int, u32::MAX as int)
            }
        }),
    decreases calls.len(),
{
    assert(calls.take(calls.len() as int) =~= calls);
    if calls.len() == 0 {
        assert(outcomes_of(calls) =~= Seq::<bool>::empty());
        assert(book.outcomes =~= Seq::<bool>::empty());
    } else {
        let front = calls.drop_last();
        let n = front.len() as int;
        lemma_share_is_counted(book, config, window, ratio, min_calls, front);
        assert forall|i: int| 0 <= i <= n implies #[trigger] calls.take(i) == front.take(i) by {
            assert(calls.take(i) =~= front.take(i));
        }
        assert(outcomes_of(calls) =~= outcomes_of(front).push(calls.last().0));
        lemma_latest_grows(outcomes_of(front), calls.last().0, window as nat);
        let before = exists|i: int|
            0 <= i <= n && completes_share(#[trigger] front.take(i), window, ratio, min_calls);
        if before {
            let i = choose|i: int|
                0 <= i <= n && completes_share(#[trigger] front.take(i), window, ratio, min_calls);
            assert(completes_share(calls.take(i), window, ratio, min_calls));
        } else {
            assert forall|i: int| 0 <= i <= n implies !completes_share(
                #[trigger] calls.take(i),
                window,
                ratio,
                min_calls,
            ) by {
                assert(!completes_share(front.take(i), window, ratio, min_calls));
            }
        }
    }
}

/// How many of `calls` failed at `from_ms` or later.
pub open spec fn failed_since(calls: Seq<(bool, u64)>, from_ms: int) -> nat
    decreases calls.len(),
{
    if calls.len() == 0 {
        0
    } else {
        failed_since(calls.drop_last(), from_ms) + if calls.last().0 && calls.last().1 >= from_ms {
            1nat
        } else {
            0nat
        }
    }
}

/// Whether the last of `calls` is a failure, and at least `n` failures, that one included, lie no
/// more than `period` before it, in whole milliseconds.
pub open spec fn completes_burst(calls: Seq<(bool, u64)>, n: u32, period: Duration) -> bool {
    &&& calls.len() > 0
    &&& calls.last().0
    &&& failed_since(calls, calls.last().1 - (period@ / 1_000_000)) >= n
}

proof fn lemma_recent_of_push(times: Seq<u64>, t: u64, cutoff: int)
    ensures
        recent_in(times.push(t), cutoff) == recent_in(times, cutoff) + if t >= cutoff {
            1nat
        } else {
            0nat
        },
{
    assert(times.push(t).drop_last() =~= times);
}

proof fn lemma_recent_of_rest(times: Seq<u64>, cutoff: int)
    requires
        times.len() > 0,
    ensures
        recent_in(times, cutoff) == recent_in(times.drop_first(), cutoff) + if times[0] >= cutoff {
            1nat
        } else {
            0nat
        },
    decreases times.len(),
{
    if times.len() > 1 {
        lemma_recent_of_rest(times.drop_last(), cutoff);
        assert(times.drop_first().drop_last() =~= times.drop_last().drop_first());
    } else {
        assert(times.drop_last() =~= Seq::<u64>::empty());
        assert(times.drop_first() =~= Seq::<u64>::empty());
    }
}

/// What is forgotten for being old does not count as recent.
proof fn lemma_recent_of_since(times: Seq<u64>, from: int, cutoff: int)
    requires
        from <= cutoff,
    ensures
        recent_in(since(times, from), cutoff) == recent_in(times, cutoff),
    decreases times.len(),
{
    if times.len() > 0 && times[0] < from {
        lemma_recent_of_rest(times, cutoff);
        lemma_recent_of_since(times.drop_first(), from, cutoff);
    }
}

/// Whatever the outcomes, a breaker that trips on `n` failures within a period is open in the end
/// exactly if some failure completed them: at least `n` failures, that one included, lay no more
/// than the period before it. Successes in between change nothing.
pub proof fn lemma_open_exactly_after_a_burst_of_failures(
    book: Book,
    config: Config,
    n: u32,
    period: Duration,
    calls: Seq<(bool, u64)>,
)
    requires
        book.state == BreakerState::Closed,
        book.failure_times.len() == 0,
        config.trip == (Trip::Windowed { failures: n, period }),
        forall|i: int, j: int|
            0 <= i <= j < calls.len() ==> (#[trigger] calls[i]).1 <= (#[trigger] calls[j]).1,
    ensures
        (exists|i: int|
            0 <= i <= calls.len() && completes_burst(#[trigger] calls.take(i), n, period))
            ==> recorded_each(book, config, calls).state == BreakerState::Open,
        (forall|i: int|
            0 <= i <= calls.len() ==> !completes_burst(#[trigger] calls.take(i), n, period))
            ==> recorded_each(book, config, calls).state == BreakerState::Closed,
{
    lemma_burst_is_counted(book, config, n, period, calls);
}

proof fn lemma_burst_is_counted(
    book: Book,
    config: Config,
    n: u32,
    period: Duration,
    calls: Seq<(bool, u64)>,
)
    requires
        book.state == BreakerState::Closed,
        book.failure_times.len() == 0,
        config.trip == (Trip::Windowed { failures: n, period }),
        forall|i: int, j: int|
            0 <= i <= j < calls.len() ==> (#[trigger] calls[i]).1 <= (#[trigger] calls[j]).1,
    ensures
        ({
            let after = recorded_each(book, config, calls);
            let reached = exists|i: int|
                0 <= i <= calls.len() && completes_burst(#[trigger] calls.take(i), n, period);
            &&& reached ==> after.state == BreakerState::Open
            &&& !reached ==> {
                &&& after.state == BreakerState::Closed
                &&& forall|c: int|
                    (calls.len() > 0 ==> cutoff_at(calls.last().1, period) <= c)
                        ==> #[trigger] recent_in(after.failure_times, c) == failed_since(calls, c)
            }
        }),
    decreases calls.len(),
{
    assert(calls.take(calls.len() as int) =~= calls);
    if calls.len() == 0 {
        assert(book.failure_times =~= Seq::<u64>::empty());
    } else {
        let front = calls.drop_last();
        let m = front.len() as int;
        let (failed, now_ms) = calls.last();
        let cutoff = cutoff_at(now_ms, period);
        assert forall|i: int, j: int| 0 <= i <= j < front.len() implies (#[trigger] front[i]).1 <= (
        #[trigger] front[j]).1 by {
            assert(calls[i].1 <= calls[j].1);
        }
        lemma_burst_is_counted(book, config, n, period, front);
        assert forall|i: int| 0 <= i <= m implies #[trigger] calls.take(i) == front.take(i) by {
            assert(calls.take(i) =~= front.take(i));
        }
        if exists|i: int| 0 <= i <= m && completes_burst(#[trigger] front.take(i), n, period) {
            let i = choose|i: int|
                0 <= i <= m && completes_burst(#[trigger] front.take(i), n, period);
            assert(completes_burst(calls.take(i), n, period));
        } else {
            assert forall|i: int| 0 <= i <= m implies !completes_burst(
                #[trigger] calls.take(i),
                n,
                period,
            ) by {
                assert(!completes_burst(front.take(i), n, period));
            }
            let before = recorded_each(book, config, front);
            if front.len() > 0 {
                assert(calls[m - 1].1 <= calls[m].1);
            }
            let all = if failed {
                before.failure_times.push(now_ms)
            } else {
                before.failure_times
            };
            let kept = since(all, cutoff);
            assert forall|c: int| cutoff <= c implies #[trigger] recent_in(kept, c) == failed_since(
                calls,
                c,
            ) by {
                lemma_recent_of_since(all, cutoff, c);
                assert(recent_in(before.failure_times, c) == failed_since(front, c));
                lemma_recent_of_push(before.failure_times, now_ms, c);
            }
            assert(recent_in(kept, cutoff) == failed_since(calls, cutoff));
            lemma_failed_since_start(calls, now_ms - (period@ / 1_000_000), cutoff);
        }
    }
}

/// No call ended before the clock started.
proof fn lemma_failed_since_start(calls: Seq<(bool, u64)>, a: int, b: int)
    requires
        a == b || (a <= 0 && b == 0),
    ensures
        failed_since(calls, a) == failed_since(calls, b),
    decreases calls.len(),
{
    if calls.len() > 0 {
        lemma_failed_since_start(calls.drop_last(), a, b);
    }
}

/// Of requests that ask one after the other once the cooldown is over, while none has ended,
/// exactly as many go through as trials are let through at a time. The others are told to come back
/// at once, and take no place.
pub proof fn lemma_only_trials_go_through(book: Book, config: Config, now_ms: u64, asked: Seq<u64>)
    requires
        1 <= config.half_open_trials,
        forall|i: int|
            0 <= i < asked.len() ==> now_ms + millis_up(config.cooldown) <= #[trigger] asked[i],
    ensures
        ({
            let after = asked_each(opened(book, config, now_ms), config, asked);
            &&& asked.len() > 0 ==> after.state == BreakerState::HalfOpen && after.inflight
                == min_int(asked.len() as int, config.half_open_trials as int)
            &&& forall|t: u64|
                now_ms + millis_up(config.cooldown) <= t ==> #[trigger] shed_for(after, config, t)
                    == if asked.len() < config.half_open_trials {
                    None::<Duration>
                } else {
                    Some(span(0))
                }
        }),
    decreases asked.len(),
{
    if asked.len() > 0 {
        let front = asked.drop_last();
        assert forall|i: int| 0 <= i < front.len() implies now_ms + millis_up(config.cooldown)
            <= #[trigger] front[i] by {
            assert(asked[i] == front[i]);
        }
        lemma_only_trials_go_through(book, config, now_ms, front);
        assert(asked.last() == asked[asked.len() - 1]);
        let before = asked_each(opened(book, config, now_ms), config, front);
        assert(shed_for(before, config, asked.last()) == if front.len() < config.half_open_trials {
            None::<Duration>
        } else {
            Some(span(0))
        });
    }
}

/// The book after requests asked to go through at `times`.
pub open spec fn asked_each(book: Book, config: Config, times: Seq<u64>) -> Book
    decreases times.len(),
{
    if times.len() == 0 {
        book
    } else {
        admitted(asked_each(book, config, times.drop_last()), config, times.last())
    }
}

/// A trial that was given up before it was made gives its place to another, and one that ended in
/// success does too while more must succeed.
pub proof fn lemma_a_trial_that_ends_makes_room(book: Book, config: Config, now_ms: u64, later_ms: u64)
    requires
        in_bounds(book, config),
        book.state == BreakerState::HalfOpen,
        book.inflight > 0,
    ensures
        shed_for(aborted(book), config, later_ms) is None,
        aborted(book).state == BreakerState::HalfOpen,
        aborted(book).successes == book.successes,
        book.successes + 1 < config.half_open_required ==> shed_for(
            recorded(book, config, true, now_ms),
            config,
            later_ms,
        ) is None,
{
}

/// A breaker that opens at `now_ms` sheds every request until its cooldown is over, telling each
/// how long that is, and stays open all the while; the first request after that is a trial.
pub proof fn lemma_open_sheds_until_the_cooldown_is_over(
    book: Book,
    config: Config,
    now_ms: u64,
    later_ms: u64,
)
    requires
        1 <= config.half_open_trials,
        now_ms + millis_up(config.cooldown) <= u64::MAX,
    ensures
        ({
            let open = opened(book, config, now_ms);
            let until = now_ms + millis_up(config.cooldown);
            &&& later_ms < until ==> {
                &&& shed_for(open, config, later_ms) == Some(
                    span(((until - later_ms) * 1_000_000) as nat),
                )
                &&& admitted(open, config, later_ms) == open
            }
            &&& later_ms >= until ==> {
                &&& shed_for(open, config, later_ms) is None
                &&& admitted(open, config, later_ms).state == BreakerState::HalfOpen
                &&& admitted(open, config, later_ms).inflight == 1
            }
        }),
{
}

/// A half-open breaker closes on the success that completes those it requires, and on none before
/// it; once closed it has forgotten the failures that opened it.
pub proof fn lemma_successful_trials_close(book: Book, config: Config, times: Seq<u64>)
    requires
        in_bounds(book, config),
        book.state == BreakerState::HalfOpen,
        book.successes == 0,
        times.len() <= config.half_open_required,
    ensures
        ({
            let after = recorded_all(book, config, true, times);
            &&& times.len() < config.half_open_required ==> after.state == BreakerState::HalfOpen
                && after.successes == times.len()
            &&& times.len() == config.half_open_required ==> {
                &&& after.state == BreakerState::Closed
                &&& after.consecutive == 0
                &&& after.outcomes.len() == 0
                &&& after.observed == 0
                &&& after.failure_times.len() == 0
                &&& after.inflight == 0
                &&& after.successes == 0
            }
        }),
    decreases times.len(),
{
    if times.len() > 0 {
        lemma_successful_trials_close(book, config, times.drop_last());
    }
}

/// A request that is shed leaves everything as it was and takes no token. One that the limiter
/// refuses takes no token either, and keeps no place among the trials. One that is granted takes a
/// place if the breaker is not closed, and a token.
pub proof fn lemma_only_a_granted_request_takes_anything<L: Limiter, C>(
    pre: CircuitBreaker<L, C>,
    post: CircuitBreaker<L, C>,
    now_ms: u64,
    at: Reading,
    outcome: Granted,
)
    requires
        pre.valid(),
        pre.limiter().reads(at),
        pre.tried(&post, now_ms, at, outcome),
    ensures
        outcome matches Err(ThrottleError::CircuitOpen { .. }) ==> post.book() == pre.book()
            && post.limiter() == pre.limiter() && pre.book().state != BreakerState::Closed,
        !(outcome is Ok && outcome->Ok_0 is Some) ==> post.limiter().tokens(at)
            == pre.limiter().tokens(at),
        !(outcome is Ok && outcome->Ok_0 is Some) ==> post.book().inflight == (
        if pre.book().state == BreakerState::Open && !(outcome matches Err(
            ThrottleError::CircuitOpen { .. },
        )) {
            0
        } else {
            pre.book().inflight
        }),
        outcome is Ok && outcome->Ok_0 is Some ==> {
            &&& pre.limiter().tokens(at) >= 1
            &&& pre.limiter().exact(at) ==> post.limiter().tokens(at) == pre.limiter().tokens(at) - 1
            &&& post.book().inflight == (match pre.book().state {
                BreakerState::Closed => pre.book().inflight as int,
                BreakerState::Open => 1,
                BreakerState::HalfOpen => pre.book().inflight + 1,
            })
        },
        pre.book().state == BreakerState::Closed ==> post.book() == pre.book(),
        pre.limiter().tokens(at) >= 1 && pre.book().state == BreakerState::Closed ==> outcome is Ok
            && outcome->Ok_0 is Some,
{
    lemma_not_before_itself(at);
}

/// One failed trial opens a half-open breaker for another cooldown.
pub proof fn lemma_a_failed_trial_reopens(book: Book, config: Config, now_ms: u64)
    requires
        book.state == BreakerState::HalfOpen,
    ensures
        recorded(book, config, false, now_ms) == opened(book, config, now_ms),
{
}

/// Time is counted in whole milliseconds from when the breaker was made.
pub proof fn lemma_time_is_counted_from_the_start<L: Limiter, C: Clock>(
    breaker: CircuitBreaker<L, C>,
    now: Duration,
)
    requires
        breaker.started()@ <= now@,
        now@ - breaker.started()@ <= u64::MAX as nat * 1_000_000,
    ensures
        breaker.millis_at(now) * 1_000_000 <= now@ - breaker.started()@ < (breaker.millis_at(now) + 1)
            * 1_000_000,
{
}

/// Whatever opens a breaker at `now_ms`, a failure that trips it or a trial that fails, it sheds
/// requests until a cooldown later, telling each how long that is; then it starts its trials
/// afresh, with none under way and none that has succeeded.
pub proof fn lemma_opening_starts_a_cooldown(
    book: Book,
    config: Config,
    success: bool,
    now_ms: u64,
    later_ms: u64,
    cooldown_ms: int,
)
    requires
        in_bounds(book, config),
        book.state != BreakerState::Open,
        recorded(book, config, success, now_ms).state == BreakerState::Open,
        (cooldown_ms - 1) * 1_000_000 < config.cooldown@ <= cooldown_ms * 1_000_000,
        now_ms + cooldown_ms <= u64::MAX,
    ensures
        ({
            let open = recorded(book, config, success, now_ms);
            let due = now_ms + cooldown_ms;
            &&& !success
            &&& later_ms < due ==> {
                &&& shed_for(open, config, later_ms) matches Some(d) && d@ == (due - later_ms)
                    * 1_000_000
                &&& admitted(open, config, later_ms) == open
            }
            &&& later_ms >= due ==> {
                &&& shed_for(open, config, later_ms) is None
                &&& admitted(open, config, later_ms).state == BreakerState::HalfOpen
                &&& admitted(open, config, later_ms).inflight == 1
                &&& admitted(open, config, later_ms).successes == 0
            }
        }),
{
    assert(millis_up(config.cooldown) == cooldown_ms);
}

/// What ends while a breaker is open neither closes it nor changes how long it stays open.
pub proof fn lemma_nothing_that_ends_closes_an_open_breaker(
    book: Book,
    config: Config,
    calls: Seq<(bool, u64)>,
    later_ms: u64,
)
    requires
        book.state == BreakerState::Open,
    ensures
        recorded_each(book, config, calls).state == BreakerState::Open,
        shed_for(recorded_each(book, config, calls), config, later_ms) == shed_for(
            book,
            config,
            later_ms,
        ),
        aborted(book) == book,
    decreases calls.len(),
{
    if calls.len() > 0 {
        lemma_nothing_that_ends_closes_an_open_breaker(book, config, calls.drop_last(), later_ms);
    }
}

/// A closed breaker lets every request through, and a request that is given up changes nothing of
/// it.
pub proof fn lemma_a_closed_breaker_sheds_nothing(book: Book, config: Config, now_ms: u64)
    requires
        book.state == BreakerState::Closed,
    ensures
        shed_for(book, config, now_ms) is None,
        admitted(book, config, now_ms) == book,
        aborted(book) == book,
{
}

/// A half-open breaker opens on a trial that fails, however many have succeeded, and stays half
/// open or closes on one that succeeds.
pub proof fn lemma_trials_decide(book: Book, config: Config, now_ms: u64)
    requires
        in_bounds(book, config),
        book.state == BreakerState::HalfOpen,
    ensures
        recorded(book, config, false, now_ms).state == BreakerState::Open,
        recorded(book, config, true, now_ms).state == (if book.successes + 1
            >= config.half_open_required {
            BreakerState::Closed
        } else {
            BreakerState::HalfOpen
        }),
        recorded(book, config, true, now_ms).state == BreakerState::HalfOpen ==> {
            &&& recorded(book, config, true, now_ms).successes == book.successes + 1
            &&& book.inflight > 0 ==> recorded(book, config, true, now_ms).inflight == book.inflight
                - 1
            &&& book.inflight == 0 ==> recorded(book, config, true, now_ms).inflight == 0
        },
{
}

/// A request that has gone through and waits for a token gets one exactly if the limiter holds one,
/// waits for as long as the limiter says if not, and keeps its place among the trials unless it is
/// refused for good.
pub proof fn lemma_a_waiting_request_keeps_its_place<L: Limiter, C>(
    pre: CircuitBreaker<L, C>,
    post: CircuitBreaker<L, C>,
    at: Reading,
    step: Step,
)
    requires
        pre.valid(),
        pre.limiter().reads(at),
        pre.advanced(&post, at, step),
    ensures
        step is Granted <==> pre.limiter().tokens(at) >= 1,
        step is Granted && pre.limiter().exact(at) ==> post.limiter().tokens(at)
            == pre.limiter().tokens(at) - 1,
        step !is Granted ==> post.limiter().tokens(at) == pre.limiter().tokens(at),
        step !is Failed ==> post.book() == pre.book(),
        step matches Step::Sleep(after) ==> pre.limiter().answered(
            1,
            at,
            Decision::Retry { after },
        ),
        step matches Step::Failed(error) ==> {
            &&& error == (ThrottleError::CostExceedsCapacity {
                cost: 1,
                capacity: pre.limiter().limit(),
            })
            &&& post.book().state == pre.book().state
            &&& pre.book().state == BreakerState::HalfOpen && pre.book().inflight > 0
                ==> post.book().inflight == pre.book().inflight - 1
            &&& pre.book().state != BreakerState::HalfOpen ==> post.book() == pre.book()
        },
{
    lemma_not_before_itself(at);
}

/// How many of `calls` from number `from` on failed.
pub open spec fn failed_from(calls: Seq<(bool, u64)>, from: int) -> nat
    decreases calls.len(),
{
    if calls.len() == 0 {
        0
    } else {
        failed_from(calls.drop_last(), from) + if calls.last().0 && calls.len() - 1 >= from {
            1nat
        } else {
            0nat
        }
    }
}

/// The calls among which a share of failures counts are the latest `window` calls, or all where
/// there were fewer, the one that just ended included.
pub proof fn lemma_a_share_is_one_of_the_latest_calls(
    calls: Seq<(bool, u64)>,
    window: u32,
    ratio: Ratio,
    min_calls: u32,
)
    ensures
        ({
            let from = max_int(calls.len() - window, 0);
            completes_share(calls, window, ratio, min_calls) <==> {
                &&& calls.len() > 0
                &&& calls.last().0
                &&& calls.len() >= min_calls
                &&& window > 0
                &&& failed_from(calls, from) * ratio.den() >= ratio.num() * (calls.len() - from)
            }
        }),
{
    let from = max_int(calls.len() - window, 0);
    let all = outcomes_of(calls);
    let latest = last_of(all, window as nat);
    assert(latest =~= all.skip(from));
    lemma_failures_from(calls, from);
}

proof fn lemma_failures_from(calls: Seq<(bool, u64)>, from: int)
    requires
        0 <= from <= calls.len(),
    ensures
        failures_in(outcomes_of(calls).skip(from)) == failed_from(calls, from),
    decreases calls.len(),
{
    let all = outcomes_of(calls);
    if from == calls.len() {
        assert(all.skip(from).len() == 0);
        lemma_none_failed_from(calls, from);
    } else {
        let front = calls.drop_last();
        lemma_failures_from(front, from);
        assert(all.skip(from).drop_last() =~= outcomes_of(front).skip(from));
        assert(all.skip(from).last() == calls.last().0);
    }
}

proof fn lemma_none_failed_from(calls: Seq<(bool, u64)>, from: int)
    requires
        from >= calls.len(),
    ensures
        failed_from(calls, from) == 0,
    decreases calls.len(),
{
    if calls.len() > 0 {
        lemma_none_failed_from(calls.drop_last(), from);
    }
}

/// The time that the breaker goes by is a reading of its own clock, in whole milliseconds from when
/// the breaker was made.
pub proof fn lemma_the_breaker_goes_by_its_clock<L: Limiter, C: Clock>(
    breaker: CircuitBreaker<L, C>,
    now_ms: u64,
)
    requires
        breaker.shows(now_ms),
        now_ms < u64::MAX,
    ensures
        exists|now: Duration|
            {
                &&& #[trigger] reading_of(breaker.clock(), now)
                &&& now@ <= breaker.started()@ ==> now_ms == 0
                &&& now@ > breaker.started()@ ==> now_ms * 1_000_000 <= now@ - breaker.started()@ < (
                now_ms + 1) * 1_000_000
            },
{
    let now = choose|now: Duration| #[trigger]
        reading_of(breaker.clock(), now) && now_ms == breaker.millis_at(now);
    assert(reading_of(breaker.clock(), now));
}

/// A new breaker is closed and has seen nothing.
pub proof fn lemma_a_new_breaker_has_seen_nothing()
    ensures
        blank().state == BreakerState::Closed,
        blank().consecutive == 0,
        blank().outcomes.len() == 0,
        blank().observed == 0,
        blank().failure_times.len() == 0,
        blank().inflight == 0,
        blank().successes == 0,
{
}

/// A request that is not shed leaves a closed breaker closed and a half-open one half open, and
/// once the cooldown is over it turns an open one half open, whether the limiter grants it a token
/// or not.
pub proof fn lemma_a_request_that_is_not_shed_moves_the_breaker_on<L: Limiter, C>(
    pre: CircuitBreaker<L, C>,
    post: CircuitBreaker<L, C>,
    now_ms: u64,
    at: Reading,
    outcome: Granted,
)
    requires
        pre.valid(),
        pre.tried(&post, now_ms, at, outcome),
        !(outcome matches Err(ThrottleError::CircuitOpen { .. })),
    ensures
        pre.book().state == BreakerState::Closed ==> post.book().state == BreakerState::Closed,
        pre.book().state == BreakerState::HalfOpen ==> post.book().state == BreakerState::HalfOpen
            && post.book().successes == pre.book().successes,
        pre.book().state == BreakerState::Open ==> post.book().state == BreakerState::HalfOpen
            && post.book().successes == 0 && now_ms >= pre.book().open_until_ms,
        post.book().consecutive == pre.book().consecutive,
        post.book().outcomes == pre.book().outcomes,
        post.book().observed == pre.book().observed,
        post.book().failure_times == pre.book().failure_times,
{
}

/// A breaker in front of a limiter that can hold nothing refuses for good what it does not shed.
pub proof fn lemma_a_limiter_that_holds_nothing_is_reported<L: Limiter, C>(
    pre: CircuitBreaker<L, C>,
    post: CircuitBreaker<L, C>,
    now_ms: u64,
    at: Reading,
    outcome: Granted,
)
    requires
        pre.valid(),
        pre.tried(&post, now_ms, at, outcome),
        pre.limiter().limit() == 0,
        pre.book().state == BreakerState::Closed,
    ensures
        outcome == Err::<Option<Permit>, ThrottleError>(
            ThrottleError::CostExceedsCapacity { cost: 1, capacity: 0 },
        ),
{
}

} // verus!
