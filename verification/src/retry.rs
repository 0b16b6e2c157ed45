//! Trying an operation again when it fails.

use vstd::prelude::*;

use crate::backoff::{start_of, Backoff, BackoffIter, Policy, Progress};
use crate::time::{max_int, span, Duration};

verus! {

/// What to do about a failed attempt.
#[non_exhaustive]
#[derive(Debug, Clone, Copy, PartialEq, Eq, Structural)]
pub enum RetryAction {
    /// Try again after the policy's delay.
    Retry,
    /// Try again after this delay, which the server asked for.
    RetryAfter(Duration),
    /// Stop trying.
    GiveUp,
}

/// How often and with what delays an operation is tried.
#[derive(Debug, Clone, Copy)]
pub struct Retry {
    backoff: Backoff,
    max_attempts: u32,
    respect_retry_after: bool,
}

impl Retry {
    /// The policy for the delays.
    pub closed spec fn policy(&self) -> Policy {
        self.backoff.policy()
    }

    /// The most attempts.
    pub closed spec fn most(&self) -> u32 {
        self.max_attempts
    }

    /// Whether a delay that the server asks for goes before the policy's.
    pub closed spec fn heeds_server(&self) -> bool {
        self.respect_retry_after
    }

    /// Up to five attempts with the delays of `backoff`, or those that the server asks for.
    pub fn new(backoff: Backoff) -> (retry: Self)
        ensures
            retry.policy() == backoff.policy(),
            retry.most() == 5,
            retry.heeds_server(),
    {
        Retry { backoff, max_attempts: 5, respect_retry_after: true }
    }

    /// Sets the most attempts, at least one.
    pub fn max_attempts(self, attempts: u32) -> (retry: Self)
        ensures
            retry.policy() == self.policy(),
            retry.most() == max_int(attempts as int, 1),
            retry.heeds_server() == self.heeds_server(),
    {
        let max_attempts: u32 = if attempts == 0 {
            1
        } else {
            attempts
        };
        Retry { max_attempts, ..self }
    }

    /// Sets whether a delay that the server asks for goes before the policy's.
    pub fn respect_retry_after(self, yes: bool) -> (retry: Self)
        ensures
            retry.policy() == self.policy(),
            retry.most() == self.most(),
            retry.heeds_server() == yes,
    {
        Retry { respect_retry_after: yes, ..self }
    }

    /// The most attempts.
    pub fn attempts(&self) -> (n: u32)
        ensures
            n == self.most(),
    {
        self.max_attempts
    }

    /// The policy for the delays.
    pub fn backoff(&self) -> (backoff: &Backoff)
        ensures
            backoff.policy() == self.policy(),
    {
        &self.backoff
    }

    /// Starts the attempts, with delays spread as `seed` has it. The first is under way.
    pub fn start(&self, seed: u64) -> (run: Attempts)
        ensures
            run.rules() == *self,
            run.number() == 1,
            run.progress() == start_of(self.policy(), seed),
    {
        Attempts { retry: *self, delays: self.backoff.iter_seeded(seed), attempt: 1 }
    }
}

/// The attempts at one operation.
#[derive(Debug, Clone, Copy)]
pub struct Attempts {
    retry: Retry,
    delays: BackoffIter,
    attempt: u32,
}

impl Attempts {
    /// How often and with what delays the operation is tried.
    pub closed spec fn rules(&self) -> Retry {
        self.retry
    }

    /// The number of the attempt that is under way, counted from one.
    pub closed spec fn number(&self) -> u32 {
        self.attempt
    }

    /// How far the delays have come.
    pub closed spec fn progress(&self) -> Progress {
        self.delays.progress()
    }

    /// Whether the attempt under way is the last.
    pub fn is_last(&self) -> (yes: bool)
        ensures
            yes == (self.number() >= self.rules().most()),
    {
        self.attempt >= self.retry.max_attempts
    }

    /// Whether a failed attempt with `action` turns `self` into `post`, with `delay` before the
    /// next attempt, or none if there is no next.
    ///
    /// The policy's delays go on even where the server's goes before one of them.
    pub open spec fn goes_on(
        &self,
        post: &Self,
        action: RetryAction,
        delay: Option<Duration>,
    ) -> bool {
        &&& post.rules() == self.rules()
        &&& delay is None <==> self.number() >= self.rules().most() || action is GiveUp
        &&& delay is None ==> *post == *self
        &&& delay is Some ==> {
            &&& post.number() == self.number() + 1
            &&& post.progress() == self.progress().next()
            &&& delay == Some(
                match action {
                    RetryAction::RetryAfter(after) if self.rules().heeds_server() => after,
                    _ => span(self.progress().delay() as nat),
                },
            )
        }
    }

    /// The delay before the next attempt, after one that failed; nothing if it was the last.
    pub fn failed(&mut self, action: RetryAction) -> (delay: Option<Duration>)
        ensures
            old(self).goes_on(final(self), action, delay),
    {
        if self.is_last() {
            return None;
        }
        match action {
            RetryAction::GiveUp => {
                return None;
            },
            _ => {},
        }
        let computed = self.delays.next_delay();
        self.attempt = self.attempt + 1;
        match action {
            RetryAction::RetryAfter(after) => {
                if self.retry.respect_retry_after {
                    Some(after)
                } else {
                    Some(computed)
                }
            },
            _ => Some(computed),
        }
    }
}

/// What to do about an error that says whether it is worth another try.
pub fn retry_if_retryable(retryable: bool) -> (action: RetryAction)
    ensures
        action == if retryable {
            RetryAction::Retry
        } else {
            RetryAction::GiveUp
        },
{
    if retryable {
        RetryAction::Retry
    } else {
        RetryAction::GiveUp
    }
}

/// An operation that fails every time is tried exactly as often as the rules allow, unless it is
/// given up: as long as there was a next attempt after every failure before, there is one after
/// failure number `i`, counted from zero, exactly if that attempt was not the last and the failure
/// is not final.
pub proof fn lemma_attempts_are_bounded(
    runs: Seq<Attempts>,
    actions: Seq<RetryAction>,
    delays: Seq<Option<Duration>>,
    i: int,
)
    requires
        runs.len() == actions.len() + 1,
        delays.len() == actions.len(),
        runs[0].number() == 1,
        forall|j: int|
            0 <= j < actions.len() ==> (#[trigger] runs[j]).goes_on(
                &runs[j + 1],
                actions[j],
                delays[j],
            ),
        0 <= i < actions.len(),
        forall|j: int| 0 <= j < i ==> #[trigger] delays[j] is Some,
    ensures
        delays[i] is Some <==> i + 1 < runs[0].rules().most() && !(actions[i] is GiveUp),
{
    lemma_attempts_are_counted(runs, actions, delays, i);
    assert(runs[i].goes_on(&runs[i + 1], actions[i], delays[i]));
}

proof fn lemma_attempts_are_counted(
    runs: Seq<Attempts>,
    actions: Seq<RetryAction>,
    delays: Seq<Option<Duration>>,
    i: int,
)
    requires
        runs.len() == actions.len() + 1,
        delays.len() == actions.len(),
        runs[0].number() == 1,
        forall|j: int|
            0 <= j < actions.len() ==> (#[trigger] runs[j]).goes_on(
                &runs[j + 1],
                actions[j],
                delays[j],
            ),
        0 <= i < runs.len(),
        forall|j: int| 0 <= j < i ==> #[trigger] delays[j] is Some,
    ensures
        runs[i].number() == i + 1,
        runs[i].rules() == runs[0].rules(),
    decreases i,
{
    if i > 0 {
        lemma_attempts_are_counted(runs, actions, delays, i - 1);
        assert(runs[i - 1].goes_on(&runs[i], actions[i - 1], delays[i - 1]));
        assert(delays[i - 1] is Some);
    }
}

/// The delay after failure number `i`, counted from zero, is the one that the server asks for,
/// where the rules heed it, and otherwise delay number `i` of the policy: a delay that the server
/// replaces is used up all the same.
pub proof fn lemma_the_server_goes_before_the_policy(
    runs: Seq<Attempts>,
    actions: Seq<RetryAction>,
    delays: Seq<Option<Duration>>,
    i: int,
)
    requires
        runs.len() == actions.len() + 1,
        delays.len() == actions.len(),
        runs[0].number() == 1,
        forall|j: int|
            0 <= j < actions.len() ==> (#[trigger] runs[j]).goes_on(
                &runs[j + 1],
                actions[j],
                delays[j],
            ),
        0 <= i < actions.len(),
        forall|j: int| 0 <= j <= i ==> #[trigger] delays[j] is Some,
    ensures
        actions[i] matches RetryAction::RetryAfter(after) ==> runs[0].rules().heeds_server()
            ==> delays[i] == Some(after),
        actions[i] is Retry || !runs[0].rules().heeds_server() ==> delays[i]->0@
            == runs[0].progress().after(i as nat).delay(),
{
    lemma_attempts_are_counted(runs, actions, delays, i);
    lemma_delays_are_used_up(runs, actions, delays, i);
    assert(runs[i].goes_on(&runs[i + 1], actions[i], delays[i]));
    assert(delays[i] is Some);
}

proof fn lemma_delays_are_used_up(
    runs: Seq<Attempts>,
    actions: Seq<RetryAction>,
    delays: Seq<Option<Duration>>,
    i: int,
)
    requires
        runs.len() == actions.len() + 1,
        delays.len() == actions.len(),
        forall|j: int|
            0 <= j < actions.len() ==> (#[trigger] runs[j]).goes_on(
                &runs[j + 1],
                actions[j],
                delays[j],
            ),
        0 <= i < runs.len(),
        forall|j: int| 0 <= j < i ==> #[trigger] delays[j] is Some,
    ensures
        runs[i].progress() == runs[0].progress().after(i as nat),
    decreases i,
{
    if i > 0 {
        lemma_delays_are_used_up(runs, actions, delays, i - 1);
        assert(runs[i - 1].goes_on(&runs[i], actions[i - 1], delays[i - 1]));
        assert(delays[i - 1] is Some);
    }
}

/// A failure after which there is no next attempt changes nothing: the attempts stay at the one
/// that was the last, and no delay is used up.
pub proof fn lemma_the_last_failure_changes_nothing(pre: Attempts, post: Attempts, action: RetryAction)
    requires
        pre.goes_on(&post, action, None),
    ensures
        post.number() == pre.number(),
        post.progress() == pre.progress(),
        post.rules() == pre.rules(),
{
}

} // verus!
