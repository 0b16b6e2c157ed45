//! A global limit, a limit per key and a limit per endpoint, cleared together.

use std::hash::Hash;
use vstd::prelude::*;

use crate::clock::{reading_of, Clock, SystemClock};
use crate::decision::Decision;
use crate::error::ThrottleError;
use crate::key::Key;
use crate::limiter::{
    combine, combined, granted_in_all, lasts, least, lemma_grants_add_up, lemma_least, lemma_least_shifts,
    lemma_single_grants_stop_at_empty, pays_once, same_nature, Limiter, Reading,
};
use crate::perkey::{
    lemma_a_key_pays_for_what_it_gets, lemma_a_peek_counts_tokens, lemma_a_peek_keeps_its_promise,
    lemma_an_oversized_peek_fails, may_hash_to, PerKey,
};
use crate::step::{next_step, step_after, Step};
use crate::throttle::Throttle;
use crate::time::{min_int, span, Duration};

verus! {

/// The instants at which the scopes consult their clocks, and the hashes of the two keys.
pub struct ScopeReading {
    /// The readings of the global scope.
    pub global: Option<Reading>,
    /// The hash of the key and the reading of its scope.
    pub key: (u64, Duration),
    /// The hash of the endpoint and the reading of its scope.
    pub endpoint: (u64, Duration),
}

/// A limiter that a request clears only if it clears every scope that is set: the global one, that
/// of its key and that of its endpoint.
pub struct Layered<K, E = K, G = Throttle, C = SystemClock, D = SystemClock> {
    global: Option<G>,
    per_key: Option<PerKey<K, C>>,
    per_endpoint: Option<PerKey<E, D>>,
}

/// The answer of a scope of keys that is set, nothing where it is not.
pub open spec fn scope_peek<K: Key, C>(
    scope: Option<PerKey<K, C>>,
    key: K::V,
    at: (u64, Duration),
    cost: u32,
) -> Seq<Decision> {
    match scope {
        Some(limiter) => seq![limiter.peeked(key, at.0, cost, at.1)],
        None => Seq::<Decision>::empty(),
    }
}

/// Whether a request of `key` reached a scope of keys, which answered `answer`, and turned `pre`
/// into `post`. A scope that is not set, or not reached, stays as it is and answers yes.
pub open spec fn scope_step<K: Key, C>(
    pre: Option<PerKey<K, C>>,
    post: Option<PerKey<K, C>>,
    reached: bool,
    key: K::V,
    at: (u64, Duration),
    cost: u32,
    answer: Decision,
) -> bool {
    match pre {
        Some(limiter) if reached => {
            &&& post is Some
            &&& limiter.decided(&post->0, key, at.0, cost, at.1, answer)
        },
        _ => post == pre && answer is Acquired,
    }
}

/// Whether a scope of keys, if it is set, may hash `key` and read its clock as `at` says.
pub open spec fn scope_reads<K: Key + Hash, C: Clock>(
    scope: Option<PerKey<K, C>>,
    key: K,
    at: (u64, Duration),
) -> bool {
    scope matches Some(limiter) ==> may_hash_to(limiter.hasher(), key, at.0) && reading_of(
        limiter.clock(),
        at.1,
    )
}

impl<K: Key, E: Key, G: Limiter, C, D> Layered<K, E, G, C, D> {
    /// The global scope.
    pub closed spec fn global_scope(&self) -> Option<G> {
        self.global
    }

    /// The scope of keys.
    pub closed spec fn key_scope(&self) -> Option<PerKey<K, C>> {
        self.per_key
    }

    /// The scope of endpoints.
    pub closed spec fn endpoint_scope(&self) -> Option<PerKey<E, D>> {
        self.per_endpoint
    }

    /// The invariant: every scope that is set keeps its own.
    pub open spec fn valid(&self) -> bool {
        &&& self.global_scope() matches Some(limiter) ==> limiter.valid()
        &&& self.key_scope() matches Some(limiter) ==> limiter.valid()
        &&& self.endpoint_scope() matches Some(limiter) ==> limiter.valid()
    }

    /// Whether `at` has a reading for the global scope if that is set.
    pub open spec fn reads(&self, at: ScopeReading) -> bool {
        match self.global_scope() {
            Some(limiter) => at.global is Some && limiter.reads(at.global->0),
            None => true,
        }
    }

    /// What each scope that is set would answer.
    pub open spec fn answers(
        &self,
        key: K::V,
        endpoint: E::V,
        cost: u32,
        at: ScopeReading,
    ) -> Seq<Decision> {
        let global = match self.global_scope() {
            Some(limiter) => seq![limiter.peeked(cost, at.global->0)],
            None => Seq::<Decision>::empty(),
        };
        global + scope_peek(self.key_scope(), key, at.key, cost) + scope_peek(
            self.endpoint_scope(),
            endpoint,
            at.endpoint,
            cost,
        )
    }

    /// What a request for `cost` tokens would get at `at`.
    pub open spec fn peeked(
        &self,
        key: K::V,
        endpoint: E::V,
        cost: u32,
        at: ScopeReading,
    ) -> Decision {
        combined(self.answers(key, endpoint, cost, at))
    }

    /// Whether the global scope was charged `cost` tokens at `at`, if it is set.
    pub open spec fn paid_globally(&self, post: &Self, cost: u32, at: ScopeReading) -> bool {
        match self.global_scope() {
            Some(limiter) => {
                &&& post.global_scope() is Some
                &&& post.global_scope()->0.valid()
                &&& same_nature(limiter, post.global_scope()->0)
                &&& lasts(limiter, post.global_scope()->0, cost, at.global->0)
                &&& limiter.exact(at.global->0) ==> post.global_scope()->0.tokens(at.global->0)
                    == limiter.tokens(at.global->0) - cost
            },
            None => post.global_scope() is None,
        }
    }

    /// Whether a request for `cost` tokens at `at` got `answer` and turned `self` into `post`.
    ///
    /// If any scope would refuse, that is the answer and no scope is charged. Else the scopes are
    /// charged in turn; should one of the keyed scopes refuse after all, the request is told to
    /// ask again.
    pub open spec fn decided(
        &self,
        post: &Self,
        key: K::V,
        endpoint: E::V,
        cost: u32,
        at: ScopeReading,
        answer: Decision,
    ) -> bool {
        let first = self.peeked(key, endpoint, cost, at);
        if first !is Acquired {
            answer == first && *post == *self
        } else {
            &&& self.paid_globally(post, cost, at)
            &&& exists|k: Decision, e: Decision|
                {
                    &&& #[trigger] scope_step(
                        self.key_scope(),
                        post.key_scope(),
                        true,
                        key,
                        at.key,
                        cost,
                        k,
                    )
                    &&& #[trigger] scope_step(
                        self.endpoint_scope(),
                        post.endpoint_scope(),
                        k is Acquired,
                        endpoint,
                        at.endpoint,
                        cost,
                        e,
                    )
                    &&& answer == if k is Acquired && e is Acquired {
                        Decision::Acquired
                    } else if post.peeked(key, endpoint, cost, at) is Acquired {
                        Decision::Retry { after: span(0) }
                    } else {
                        post.peeked(key, endpoint, cost, at)
                    }
                }
        }
    }

    /// What each scope that is set would answer.
    fn peek_scopes(&self, key: &K, endpoint: &E, cost: u32, at: &ScopeReading) -> (answer: Decision)
        requires
            self.valid(),
            self.reads(*at),
        ensures
            answer == self.peeked(key@, endpoint@, cost, *at),
            answer is Acquired && self.global_scope() is Some ==> cost
                <= self.global_scope()->0.tokens(at.global->0),
    {
        let mut answers: Vec<Decision> = Vec::new();
        match (&self.global, &at.global) {
            (Some(limiter), Some(reading)) => {
                answers.push(limiter.peek_at(cost, reading));
            },
            _ => {},
        }
        let ghost first = answers@;
        if let Some(limiter) = &self.per_key {
            answers.push(limiter.peek_at(key, at.key.0, cost, at.key.1));
        }
        let ghost second = answers@;
        assert(second =~= first + scope_peek(self.key_scope(), key@, at.key, cost));
        if let Some(limiter) = &self.per_endpoint {
            answers.push(limiter.peek_at(endpoint, at.endpoint.0, cost, at.endpoint.1));
        }
        assert(answers@ =~= second + scope_peek(
            self.endpoint_scope(),
            endpoint@,
            at.endpoint,
            cost,
        ));
        assert(answers@ =~= self.answers(key@, endpoint@, cost, *at));
        assert(self.global_scope() is Some ==> answers@[0] == first[0]);
        combine(&answers)
    }

    /// What a request for `cost` tokens would get at `at`, taking nothing.
    pub fn peek_at(&self, key: &K, endpoint: &E, cost: u32, at: &ScopeReading) -> (answer: Decision)
        requires
            self.valid(),
            self.reads(*at),
        ensures
            answer == self.peeked(key@, endpoint@, cost, *at),
    {
        self.peek_scopes(key, endpoint, cost, at)
    }

    /// Charges the scopes in turn, stopping at one that refuses.
    fn commit_scopes(&mut self, key: &K, endpoint: &E, cost: u32, at: &ScopeReading) -> (ok: bool)
        requires
            old(self).valid(),
            old(self).reads(*at),
            old(self).global_scope() is Some ==> cost <= old(self).global_scope()->0.tokens(
                at.global->0,
            ),
        ensures
            final(self).valid(),
            final(self).reads(*at),
            old(self).paid_globally(final(self), cost, *at),
            exists|k: Decision, e: Decision|
                {
                    &&& #[trigger] scope_step(
                        old(self).key_scope(),
                        final(self).key_scope(),
                        true,
                        key@,
                        at.key,
                        cost,
                        k,
                    )
                    &&& #[trigger] scope_step(
                        old(self).endpoint_scope(),
                        final(self).endpoint_scope(),
                        k is Acquired,
                        endpoint@,
                        at.endpoint,
                        cost,
                        e,
                    )
                    &&& ok == (k is Acquired && e is Acquired)
                },
    {
        match (&mut self.global, &at.global) {
            (Some(limiter), Some(reading)) => {
                if !limiter.acquire_cost_at(cost, reading).is_acquired() {
                    return false;
                }
            },
            _ => {},
        }
        let ghost mut first = Decision::Acquired;
        if let Some(limiter) = &mut self.per_key {
            let answer = limiter.decide_at(key, at.key.0, cost, at.key.1);
            proof {
                first = answer;
            }
            if !answer.is_acquired() {
                assert(scope_step(
                    old(self).key_scope(),
                    self.key_scope(),
                    true,
                    key@,
                    at.key,
                    cost,
                    answer,
                ));
                assert(scope_step(
                    old(self).endpoint_scope(),
                    self.endpoint_scope(),
                    false,
                    endpoint@,
                    at.endpoint,
                    cost,
                    Decision::Acquired,
                ));
                return false;
            }
        }
        assert(scope_step(
            old(self).key_scope(),
            self.key_scope(),
            true,
            key@,
            at.key,
            cost,
            first,
        ));
        let ghost mut second = Decision::Acquired;
        let mut ok = true;
        if let Some(limiter) = &mut self.per_endpoint {
            let answer = limiter.decide_at(endpoint, at.endpoint.0, cost, at.endpoint.1);
            proof {
                second = answer;
            }
            ok = answer.is_acquired();
        }
        assert(scope_step(
            old(self).endpoint_scope(),
            self.endpoint_scope(),
            true,
            endpoint@,
            at.endpoint,
            cost,
            second,
        ));
        ok
    }

    /// Takes `cost` tokens at `at` from every scope.
    pub fn decide_at(&mut self, key: &K, endpoint: &E, cost: u32, at: &ScopeReading) -> (answer:
        Decision)
        requires
            old(self).valid(),
            old(self).reads(*at),
        ensures
            final(self).valid(),
            old(self).decided(final(self), key@, endpoint@, cost, *at, answer),
    {
        match self.peek_scopes(key, endpoint, cost, at) {
            Decision::Acquired => {},
            other => {
                return other;
            },
        }
        if self.commit_scopes(key, endpoint, cost, at) {
            return Decision::Acquired;
        }
        match self.peek_scopes(key, endpoint, cost, at) {
            Decision::Acquired => Decision::Retry { after: Duration::zero() },
            other => other,
        }
    }
}

/// The capacity of a scope of keys that is set, nothing where it is not.
pub open spec fn scope_limit<K: Key, C>(scope: Option<PerKey<K, C>>) -> Seq<u32> {
    match scope {
        Some(limiter) => seq![limiter.settings().amount],
        None => Seq::<u32>::empty(),
    }
}

impl<K: Key, E: Key, G: Limiter, C, D> Layered<K, E, G, C, D> {
    /// The capacities of the scopes that are set.
    pub open spec fn limits(&self) -> Seq<u32> {
        let global = match self.global_scope() {
            Some(limiter) => seq![limiter.limit()],
            None => Seq::<u32>::empty(),
        };
        global + scope_limit(self.key_scope()) + scope_limit(self.endpoint_scope())
    }

    /// The least capacity of the scopes that are set, `u32::MAX` if none is.
    pub fn capacity(&self) -> (n: u32)
        requires
            self.valid(),
        ensures
            n == least(self.limits()),
    {
        let mut n: u32 = u32::MAX;
        let ghost mut seen = Seq::<u32>::empty();
        assert(least(seen) == u32::MAX);
        if let Some(limiter) = &self.global {
            n = limiter.capacity();
            proof {
                seen = seen.push(n);
                assert(seen.drop_last() =~= Seq::<u32>::empty());
            }
        }
        assert(n == least(seen));
        if let Some(limiter) = &self.per_key {
            let capacity: u32 = limiter.capacity();
            proof {
                assert(seen.push(capacity).drop_last() =~= seen);
                seen = seen.push(capacity);
            }
            if capacity < n {
                n = capacity;
            }
        }
        assert(n == least(seen));
        if let Some(limiter) = &self.per_endpoint {
            let capacity: u32 = limiter.capacity();
            proof {
                assert(seen.push(capacity).drop_last() =~= seen);
                seen = seen.push(capacity);
            }
            if capacity < n {
                n = capacity;
            }
        }
        assert(n == least(seen));
        assert(seen =~= self.limits());
        n
    }
}

impl<K: Key, E: Key> Layered<K, E> {
    /// A limiter with no scopes yet.
    pub fn builder() -> (builder: LayeredBuilder<K, E>)
        ensures
            builder.made().global_scope() is None,
            builder.made().key_scope() is None,
            builder.made().endpoint_scope() is None,
    {
        LayeredBuilder { made: Layered { global: None, per_key: None, per_endpoint: None } }
    }
}

impl<K: Key + Hash, E: Key + Hash, G: Limiter, C: Clock, D: Clock> Layered<K, E, G, C, D> {
    /// Whether `at` is what reading the clocks of the scopes that are set, and hashing `key` and
    /// `endpoint`, may give.
    pub open spec fn may_read(&self, key: K, endpoint: E, at: ScopeReading) -> bool {
        &&& self.reads(at)
        &&& self.global_scope() matches Some(limiter) ==> limiter.may_read(at.global->0)
        &&& scope_reads(self.key_scope(), key, at.key)
        &&& scope_reads(self.endpoint_scope(), endpoint, at.endpoint)
    }

    /// Reads the clocks of the scopes that are set, and hashes the key and the endpoint.
    pub fn read(&self, key: &K, endpoint: &E) -> (at: ScopeReading)
        requires
            self.valid(),
        ensures
            self.may_read(*key, *endpoint, at),
    {
        let global = match &self.global {
            Some(limiter) => Some(limiter.read()),
            None => None,
        };
        let key_at: (u64, Duration) = match &self.per_key {
            Some(limiter) => (limiter.hash(key), limiter.read()),
            None => (0, Duration::zero()),
        };
        let endpoint_at: (u64, Duration) = match &self.per_endpoint {
            Some(limiter) => (limiter.hash(endpoint), limiter.read()),
            None => (0, Duration::zero()),
        };
        ScopeReading { global, key: key_at, endpoint: endpoint_at }
    }

    /// Takes one token now from every scope, or none.
    pub fn try_acquire(&mut self, key: &K, endpoint: &E) -> (ok: bool)
        requires
            old(self).valid(),
        ensures
            final(self).valid(),
            exists|at: ScopeReading, answer: Decision|
                {
                    &&& old(self).may_read(*key, *endpoint, at)
                    &&& #[trigger] old(self).decided(final(self), key@, endpoint@, 1, at, answer)
                    &&& ok == (answer is Acquired)
                },
    {
        self.try_acquire_with_cost(key, endpoint, 1)
    }

    /// Takes `cost` tokens now from every scope, or none.
    pub fn try_acquire_with_cost(&mut self, key: &K, endpoint: &E, cost: u32) -> (ok: bool)
        requires
            old(self).valid(),
        ensures
            final(self).valid(),
            exists|at: ScopeReading, answer: Decision|
                {
                    &&& old(self).may_read(*key, *endpoint, at)
                    &&& #[trigger] old(self).decided(final(self), key@, endpoint@, cost, at, answer)
                    &&& ok == (answer is Acquired)
                },
    {
        let at = self.read(key, endpoint);
        let answer = self.decide_at(key, endpoint, cost, &at);
        assert(old(self).decided(self, key@, endpoint@, cost, at, answer));
        answer.is_acquired()
    }

    /// One step of an acquisition that waits for `cost` tokens.
    pub fn acquire_step(&mut self, key: &K, endpoint: &E, cost: u32) -> (step: Step)
        requires
            old(self).valid(),
        ensures
            final(self).valid(),
            exists|at: ScopeReading, answer: Decision|
                {
                    &&& old(self).may_read(*key, *endpoint, at)
                    &&& #[trigger] old(self).decided(final(self), key@, endpoint@, cost, at, answer)
                    &&& step == step_after(answer, cost, least(old(self).limits()))
                },
            cost > least(old(self).limits()) ==> step == Step::Failed(
                ThrottleError::CostExceedsCapacity { cost, capacity: least(old(self).limits()) },
            ) && *final(self) == *old(self),
    {
        let at = self.read(key, endpoint);
        let capacity: u32 = self.capacity();
        let answer = self.decide_at(key, endpoint, cost, &at);
        assert(old(self).decided(self, key@, endpoint@, cost, at, answer));
        proof {
            if cost > least(old(self).limits()) {
                lemma_an_oversized_request_fails(
                    *old(self),
                    *self,
                    key@,
                    endpoint@,
                    cost,
                    at,
                    answer,
                );
            }
        }
        next_step(answer, cost, capacity)
    }

    /// What a request for `cost` tokens would get now, taking nothing.
    pub fn peek(&self, key: &K, endpoint: &E, cost: u32) -> (answer: Decision)
        requires
            self.valid(),
        ensures
            exists|at: ScopeReading|
                {
                    &&& self.may_read(*key, *endpoint, at)
                    &&& answer == #[trigger] self.peeked(key@, endpoint@, cost, at)
                },
    {
        let at = self.read(key, endpoint);
        let answer = self.peek_scopes(key, endpoint, cost, &at);
        assert(answer == self.peeked(key@, endpoint@, cost, at));
        answer
    }
}

/// Collects the scopes of a [`Layered`].
pub struct LayeredBuilder<K, E = K, G = Throttle, C = SystemClock, D = SystemClock> {
    made: Layered<K, E, G, C, D>,
}

impl<K: Key, E: Key, G: Limiter, C: Clock, D: Clock> LayeredBuilder<K, E, G, C, D> {
    /// The limiter made so far.
    pub closed spec fn made(&self) -> Layered<K, E, G, C, D> {
        self.made
    }

    /// Sets the global scope.
    pub fn global<H: Limiter>(self, limiter: H) -> (builder: LayeredBuilder<K, E, H, C, D>)
        ensures
            builder.made().global_scope() == Some(limiter),
            builder.made().key_scope() == self.made().key_scope(),
            builder.made().endpoint_scope() == self.made().endpoint_scope(),
    {
        LayeredBuilder {
            made: Layered {
                global: Some(limiter),
                per_key: self.made.per_key,
                per_endpoint: self.made.per_endpoint,
            },
        }
    }

    /// Sets the scope of keys.
    pub fn per_key<F: Clock>(self, limiter: PerKey<K, F>) -> (builder: LayeredBuilder<K, E, G, F, D>)
        ensures
            builder.made().global_scope() == self.made().global_scope(),
            builder.made().key_scope() == Some(limiter),
            builder.made().endpoint_scope() == self.made().endpoint_scope(),
    {
        LayeredBuilder {
            made: Layered {
                global: self.made.global,
                per_key: Some(limiter),
                per_endpoint: self.made.per_endpoint,
            },
        }
    }

    /// Sets the scope of endpoints.
    pub fn per_endpoint<F: Clock>(self, limiter: PerKey<E, F>) -> (builder: LayeredBuilder<
        K,
        E,
        G,
        C,
        F,
    >)
        ensures
            builder.made().global_scope() == self.made().global_scope(),
            builder.made().key_scope() == self.made().key_scope(),
            builder.made().endpoint_scope() == Some(limiter),
    {
        LayeredBuilder {
            made: Layered {
                global: self.made.global,
                per_key: self.made.per_key,
                per_endpoint: Some(limiter),
            },
        }
    }

    /// Finishes the limiter.
    pub fn build(self) -> (limiter: Layered<K, E, G, C, D>)
        ensures
            limiter == self.made(),
    {
        self.made
    }
}

/// All scopes are charged or none is: if every scope would grant, the request is granted, and if
/// any would refuse, no scope changes.
pub proof fn lemma_all_scopes_or_none<K: Key, E: Key, G: Limiter, C, D>(
    pre: Layered<K, E, G, C, D>,
    post: Layered<K, E, G, C, D>,
    key: K::V,
    endpoint: E::V,
    cost: u32,
    at: ScopeReading,
    answer: Decision,
)
    requires
        pre.valid(),
        pre.decided(&post, key, endpoint, cost, at, answer),
    ensures
        answer is Acquired <==> pre.peeked(key, endpoint, cost, at) is Acquired,
        answer !is Acquired ==> post == pre,
{
    let answers = pre.answers(key, endpoint, cost, at);
    if pre.peeked(key, endpoint, cost, at) is Acquired {
        assert forall|i: int| 0 <= i < answers.len() implies #[trigger] answers[i] is Acquired by {
            assert(!(answers[i] is Impossible));
            assert(!(answers[i] is Retry));
        }
        let (k, e) = choose|k: Decision, e: Decision|
            {
                &&& #[trigger] scope_step(
                    pre.key_scope(),
                    post.key_scope(),
                    true,
                    key,
                    at.key,
                    cost,
                    k,
                )
                &&& #[trigger] scope_step(
                    pre.endpoint_scope(),
                    post.endpoint_scope(),
                    k is Acquired,
                    endpoint,
                    at.endpoint,
                    cost,
                    e,
                )
                &&& answer == if k is Acquired && e is Acquired {
                    Decision::Acquired
                } else if post.peeked(key, endpoint, cost, at) is Acquired {
                    Decision::Retry { after: span(0) }
                } else {
                    post.peeked(key, endpoint, cost, at)
                }
            };
        let global = if pre.global_scope() is Some {
            1int
        } else {
            0int
        };
        if let Some(limiter) = pre.key_scope() {
            assert(answers[global] == limiter.peeked(key, at.key.0, cost, at.key.1));
            lemma_a_peek_keeps_its_promise(
                limiter,
                post.key_scope()->0,
                key,
                at.key.0,
                cost,
                at.key.1,
                k,
            );
        }
        if let Some(limiter) = pre.endpoint_scope() {
            let before = global + if pre.key_scope() is Some {
                1int
            } else {
                0int
            };
            assert(answers[before] == limiter.peeked(endpoint, at.endpoint.0, cost, at.endpoint.1));
            lemma_a_peek_keeps_its_promise(
                limiter,
                post.endpoint_scope()->0,
                endpoint,
                at.endpoint.0,
                cost,
                at.endpoint.1,
                e,
            );
        }
    }
}

/// A request for more than some scope can ever hold fails at once, and no scope is charged.
pub proof fn lemma_an_oversized_request_fails<K: Key, E: Key, G: Limiter, C, D>(
    pre: Layered<K, E, G, C, D>,
    post: Layered<K, E, G, C, D>,
    key: K::V,
    endpoint: E::V,
    cost: u32,
    at: ScopeReading,
    answer: Decision,
)
    requires
        pre.valid(),
        pre.reads(at),
        pre.decided(&post, key, endpoint, cost, at, answer),
        cost > least(pre.limits()),
    ensures
        answer is Impossible,
        post == pre,
{
    let answers = pre.answers(key, endpoint, cost, at);
    let limits = pre.limits();
    lemma_least(limits, cost);
    let i = choose|i: int| 0 <= i < limits.len() && cost > #[trigger] limits[i];
    let g = if pre.global_scope() is Some {
        1int
    } else {
        0int
    };
    let k = if pre.key_scope() is Some {
        1int
    } else {
        0int
    };
    if let Some(limiter) = pre.global_scope() {
        limiter.lemma_peek(cost, at.global->0);
        assert(answers[0] == limiter.peeked(cost, at.global->0));
        assert(limits[0] == limiter.limit());
    }
    if let Some(limiter) = pre.key_scope() {
        lemma_an_oversized_peek_fails(limiter, key, at.key.0, cost, at.key.1);
        assert(answers[g] == limiter.peeked(key, at.key.0, cost, at.key.1));
        assert(limits[g] == limiter.settings().amount);
    }
    if let Some(limiter) = pre.endpoint_scope() {
        lemma_an_oversized_peek_fails(limiter, endpoint, at.endpoint.0, cost, at.endpoint.1);
        assert(answers[g + k] == limiter.peeked(endpoint, at.endpoint.0, cost, at.endpoint.1));
        assert(limits[g + k] == limiter.settings().amount);
    }
    assert(answers[i] is Impossible);
}

/// What a scope of keys that is set holds for `key`, nothing where it is not set.
pub open spec fn scope_tokens<K: Key, C>(
    scope: Option<PerKey<K, C>>,
    key: K::V,
    at: (u64, Duration),
) -> Seq<u32> {
    match scope {
        Some(limiter) => seq![limiter.tokens(key, at.0, at.1)],
        None => Seq::<u32>::empty(),
    }
}

/// Whether a scope of keys counts single tokens.
pub open spec fn exact_scope<K: Key, C>(scope: Option<PerKey<K, C>>) -> bool {
    scope matches Some(limiter) ==> 10 * limiter.settings().limits().1 <= 43
        * limiter.settings().limits().2
}

impl<K: Key, E: Key, G: Limiter, C, D> Layered<K, E, G, C, D> {
    /// What each scope that is set holds for the key and the endpoint.
    pub open spec fn counts(&self, key: K::V, endpoint: E::V, at: ScopeReading) -> Seq<u32> {
        let global = match self.global_scope() {
            Some(limiter) => seq![limiter.tokens(at.global->0)],
            None => Seq::<u32>::empty(),
        };
        global + scope_tokens(self.key_scope(), key, at.key) + scope_tokens(
            self.endpoint_scope(),
            endpoint,
            at.endpoint,
        )
    }

    /// The least that any scope holds for the key and the endpoint.
    pub open spec fn tokens(&self, key: K::V, endpoint: E::V, at: ScopeReading) -> u32 {
        least(self.counts(key, endpoint, at))
    }

    /// Whether some scope is set and all that are count exactly at `at`.
    pub open spec fn exact(&self, at: ScopeReading) -> bool {
        &&& self.global_scope() is Some || self.key_scope() is Some || self.endpoint_scope() is Some
        &&& self.global_scope() matches Some(limiter) ==> limiter.exact(at.global->0)
        &&& exact_scope(self.key_scope())
        &&& exact_scope(self.endpoint_scope())
    }
}

/// A request is granted exactly when the scope that holds the least has its tokens, and then every
/// scope gives them up.
pub proof fn lemma_the_tightest_scope_decides<K: Key, E: Key, G: Limiter, C, D>(
    pre: Layered<K, E, G, C, D>,
    post: Layered<K, E, G, C, D>,
    key: K::V,
    endpoint: E::V,
    cost: u32,
    at: ScopeReading,
    answer: Decision,
)
    requires
        pre.valid(),
        pre.reads(at),
        pre.decided(&post, key, endpoint, cost, at, answer),
        pre.exact(at),
    ensures
        answer is Acquired <==> cost <= pre.tokens(key, endpoint, at),
        post.tokens(key, endpoint, at) == pre.tokens(key, endpoint, at) - if answer is Acquired {
            cost as int
        } else {
            0int
        },
        answer is Acquired ==> post.counts(key, endpoint, at).len() == pre.counts(
            key,
            endpoint,
            at,
        ).len() && forall|i: int|
            0 <= i < pre.counts(key, endpoint, at).len() ==> post.counts(key, endpoint, at)[i]
                == #[trigger] pre.counts(key, endpoint, at)[i] - cost,
        answer !is Acquired ==> post == pre,
        post.valid(),
        post.reads(at),
        post.exact(at),
{
    lemma_all_scopes_or_none(pre, post, key, endpoint, cost, at, answer);
    let answers = pre.answers(key, endpoint, cost, at);
    let counts = pre.counts(key, endpoint, at);
    let left = post.counts(key, endpoint, at);
    let g = if pre.global_scope() is Some {
        1int
    } else {
        0int
    };
    let k = if pre.key_scope() is Some {
        1int
    } else {
        0int
    };
    if let Some(limiter) = pre.key_scope() {
        lemma_a_peek_counts_tokens(limiter, key, at.key.0, cost, at.key.1);
        assert(answers[g] == limiter.peeked(key, at.key.0, cost, at.key.1));
        assert(counts[g] == limiter.tokens(key, at.key.0, at.key.1));
    }
    if let Some(limiter) = pre.endpoint_scope() {
        lemma_a_peek_counts_tokens(limiter, endpoint, at.endpoint.0, cost, at.endpoint.1);
        assert(answers[g + k] == limiter.peeked(endpoint, at.endpoint.0, cost, at.endpoint.1));
        assert(counts[g + k] == limiter.tokens(endpoint, at.endpoint.0, at.endpoint.1));
    }
    if let Some(limiter) = pre.global_scope() {
        limiter.lemma_peek(cost, at.global->0);
        assert(answers[0] == limiter.peeked(cost, at.global->0));
        assert(counts[0] == limiter.tokens(at.global->0));
    }
    assert(answers.len() == counts.len());
    assert forall|i: int| 0 <= i < counts.len() implies (cost <= #[trigger] counts[i]
        <==> answers[i] is Acquired) by {
        if i == 0 && g == 1 {
        } else if i == g && k == 1 {
        } else {
            assert(i == g + k);
        }
    }
    lemma_least(counts, cost);
    if cost <= least(counts) {
        assert forall|i: int| 0 <= i < answers.len() implies #[trigger] answers[i] is Acquired by {
            assert(cost <= counts[i]);
        }
    }
    if pre.peeked(key, endpoint, cost, at) is Acquired {
        assert forall|i: int| 0 <= i < counts.len() implies cost <= #[trigger] counts[i] by {
            assert(!(answers[i] is Impossible));
            assert(!(answers[i] is Retry));
        }
        let (a, b) = choose|a: Decision, b: Decision|
            {
                &&& #[trigger] scope_step(
                    pre.key_scope(),
                    post.key_scope(),
                    true,
                    key,
                    at.key,
                    cost,
                    a,
                )
                &&& #[trigger] scope_step(
                    pre.endpoint_scope(),
                    post.endpoint_scope(),
                    a is Acquired,
                    endpoint,
                    at.endpoint,
                    cost,
                    b,
                )
                &&& answer == if a is Acquired && b is Acquired {
                    Decision::Acquired
                } else if post.peeked(key, endpoint, cost, at) is Acquired {
                    Decision::Retry { after: span(0) }
                } else {
                    post.peeked(key, endpoint, cost, at)
                }
            };
        if let Some(limiter) = pre.key_scope() {
            lemma_a_peek_keeps_its_promise(
                limiter,
                post.key_scope()->0,
                key,
                at.key.0,
                cost,
                at.key.1,
                a,
            );
            lemma_a_key_pays_for_what_it_gets(
                limiter,
                post.key_scope()->0,
                key,
                at.key.0,
                cost,
                at.key.1,
                a,
            );
            assert(left[g] == counts[g] - cost);
        }
        if let Some(limiter) = pre.endpoint_scope() {
            lemma_a_peek_keeps_its_promise(
                limiter,
                post.endpoint_scope()->0,
                endpoint,
                at.endpoint.0,
                cost,
                at.endpoint.1,
                b,
            );
            lemma_a_key_pays_for_what_it_gets(
                limiter,
                post.endpoint_scope()->0,
                endpoint,
                at.endpoint.0,
                cost,
                at.endpoint.1,
                b,
            );
            assert(left[g + k] == counts[g + k] - cost);
        }
        assert forall|i: int| 0 <= i < counts.len() implies left[i] == #[trigger] counts[i] - cost by {
            if i == 0 && g == 1 {
                assert(left[0] == post.global_scope()->0.tokens(at.global->0));
            } else if i == g && k == 1 {
            } else {
                assert(i == g + k);
            }
        }
        lemma_least_shifts(counts, left, cost);
    }
}

/// The scopes together grant what the tightest of them holds and no more: while the clocks stand
/// still, what requests get in all and what is left make up what was on hand; and requests for
/// one token each are granted until that is gone.
pub proof fn lemma_scopes_grant_what_the_tightest_holds<K: Key, E: Key, G: Limiter, C, D>(
    states: Seq<Layered<K, E, G, C, D>>,
    key: K::V,
    endpoint: E::V,
    costs: Seq<u32>,
    answers: Seq<Decision>,
    at: ScopeReading,
)
    requires
        states.len() == costs.len() + 1,
        answers.len() == costs.len(),
        states[0].valid(),
        states[0].reads(at),
        states[0].exact(at),
        forall|i: int|
            0 <= i < costs.len() ==> (#[trigger] states[i]).decided(
                &states[i + 1],
                key,
                endpoint,
                costs[i],
                at,
                answers[i],
            ),
    ensures
        granted_in_all(costs, answers) + states.last().tokens(key, endpoint, at)
            == states[0].tokens(key, endpoint, at),
        (forall|i: int| 0 <= i < costs.len() ==> #[trigger] costs[i] == 1) ==> granted_in_all(
            costs,
            answers,
        ) == min_int(costs.len() as int, states[0].tokens(key, endpoint, at) as int),
{
    let tokens = Seq::new(states.len(), |i: int| states[i].tokens(key, endpoint, at) as int);
    lemma_scopes_stay_exact(states, key, endpoint, costs, answers, at);
    assert forall|i: int| 0 <= i < costs.len() implies #[trigger] pays_once(
        tokens,
        costs,
        answers,
        i,
    ) by {
        assert(states[i].valid() && states[i].reads(at) && states[i].exact(at));
        lemma_the_tightest_scope_decides(
            states[i],
            states[i + 1],
            key,
            endpoint,
            costs[i],
            at,
            answers[i],
        );
    }
    lemma_grants_add_up(tokens, costs, answers);
    if forall|i: int| 0 <= i < costs.len() ==> #[trigger] costs[i] == 1 {
        lemma_single_grants_stop_at_empty(tokens, costs, answers);
    }
}

proof fn lemma_scopes_stay_exact<K: Key, E: Key, G: Limiter, C, D>(
    states: Seq<Layered<K, E, G, C, D>>,
    key: K::V,
    endpoint: E::V,
    costs: Seq<u32>,
    answers: Seq<Decision>,
    at: ScopeReading,
)
    requires
        states.len() == costs.len() + 1,
        answers.len() == costs.len(),
        states[0].valid(),
        states[0].reads(at),
        states[0].exact(at),
        forall|i: int|
            0 <= i < costs.len() ==> (#[trigger] states[i]).decided(
                &states[i + 1],
                key,
                endpoint,
                costs[i],
                at,
                answers[i],
            ),
    ensures
        forall|i: int|
            0 <= i < states.len() ==> (#[trigger] states[i]).valid() && states[i].reads(at)
                && states[i].exact(at),
    decreases costs.len(),
{
    if costs.len() > 0 {
        let n = costs.len() - 1;
        let s = states.drop_last();
        let c = costs.drop_last();
        let a = answers.drop_last();
        assert forall|i: int| 0 <= i < c.len() implies (#[trigger] s[i]).decided(
            &s[i + 1],
            key,
            endpoint,
            c[i],
            at,
            a[i],
        ) by {
            assert(states[i].decided(&states[i + 1], key, endpoint, costs[i], at, answers[i]));
        }
        lemma_scopes_stay_exact(s, key, endpoint, c, a, at);
        assert(s[n] == states[n]);
        assert(states[n].decided(&states[n + 1], key, endpoint, costs[n], at, answers[n]));
        lemma_the_tightest_scope_decides(
            states[n],
            states[n + 1],
            key,
            endpoint,
            costs[n],
            at,
            answers[n],
        );
        assert forall|i: int| 0 <= i < states.len() implies (#[trigger] states[i]).valid()
            && states[i].reads(at) && states[i].exact(at) by {
            if i < s.len() {
                assert(s[i].valid() && s[i].reads(at) && s[i].exact(at));
            }
        }
    }
}

} // verus!
