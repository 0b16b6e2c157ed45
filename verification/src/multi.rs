//! Several named budgets that one request draws on together.

use vstd::prelude::*;
use vstd::string::StringExecFns;

use crate::decision::Decision;
use crate::error::ThrottleError;
use crate::limiter::{
    acquire_all, all_afford, all_charged, all_last, all_may_read, all_ready, combined, least,
    lemma_least, lemma_least_shifts, peek_all, peeks, same_kind, token_counts, Limiter, Reading,
};
use crate::step::Step;
use crate::text::same_text;
use crate::time::min_int;

verus! {

/// The cost that `costs` names for `name`, the first if there are several, zero if there is none.
pub open spec fn cost_of(name: Seq<char>, costs: Seq<(&str, u32)>) -> u32
    decreases costs.len(),
{
    if costs.len() == 0 {
        0
    } else if costs[0].0@ == name {
        costs[0].1
    } else {
        cost_of(name, costs.drop_first())
    }
}

/// The cost that `costs` names for each of `names`.
pub open spec fn costs_of(names: Seq<String>, costs: Seq<(&str, u32)>) -> Seq<u32> {
    Seq::new(names.len(), |i: int| cost_of(names[i]@, costs))
}

/// Where `name` first stands in `names`, their number if nowhere.
pub open spec fn index_of(names: Seq<String>, name: Seq<char>) -> int
    decreases names.len(),
{
    if names.len() == 0 || names[0]@ == name {
        0
    } else {
        1 + index_of(names.drop_first(), name)
    }
}

/// The cost that `costs` names for `name`, zero if there is none.
fn cost_for(name: &String, costs: &[(&str, u32)]) -> (cost: u32)
    ensures
        cost == cost_of(name@, costs@),
{
    let mut i: usize = 0;
    assert(costs@.skip(0) =~= costs@);
    while i < costs.len()
        invariant
            i <= costs@.len(),
            cost_of(name@, costs@) == cost_of(name@, costs@.skip(i as int)),
        decreases costs@.len() - i,
    {
        assert(costs@.skip(i as int).drop_first() =~= costs@.skip(i + 1));
        assert(costs@.skip(i as int)[0] == costs@[i as int]);
        if same_text(costs[i].0, name.as_str()) {
            return costs[i].1;
        }
        i += 1;
    }
    0
}

/// A limiter with several named dimensions, each with a budget of its own. A request is granted
/// only if every dimension affords its share.
pub struct MultiLimiter<L = Box<dyn Limiter>> {
    names: Vec<String>,
    limiters: Vec<L>,
}

/// The first error that holds for a dimension at or after `i`: it is asked for more than it can
/// ever hold.
pub open spec fn over_capacity<L: Limiter>(
    limiters: Seq<L>,
    costs: Seq<u32>,
    i: int,
) -> Option<ThrottleError>
    decreases limiters.len() - i,
{
    if i < 0 || i >= limiters.len() {
        None
    } else if costs[i] > limiters[i].limit() {
        Some(
            ThrottleError::CostExceedsCapacity { cost: costs[i], capacity: limiters[i].limit() },
        )
    } else {
        over_capacity(limiters, costs, i + 1)
    }
}

/// The first error that holds for a dimension at or after `i`: it will never grant its share.
pub open spec fn never_granting<L: Limiter>(
    limiters: Seq<L>,
    costs: Seq<u32>,
    at: Seq<Reading>,
    i: int,
) -> Option<ThrottleError>
    decreases limiters.len() - i,
{
    if i < 0 || i >= limiters.len() {
        None
    } else if limiters[i].peeked(costs[i], at[i]) is Impossible {
        Some(
            ThrottleError::CostExceedsCapacity { cost: costs[i], capacity: limiters[i].limit() },
        )
    } else {
        never_granting(limiters, costs, at, i + 1)
    }
}

/// A dimension that is asked for more than it can ever hold refuses for good, and so do all.
proof fn lemma_over_capacity<L: Limiter>(
    limiters: Seq<L>,
    costs: Seq<u32>,
    at: Seq<Reading>,
    i: int,
)
    requires
        all_ready(limiters, at),
        costs.len() == limiters.len(),
        0 <= i,
    ensures
        over_capacity(limiters, costs, i) is Some ==> combined(peeks(limiters, costs, at))
            is Impossible,
    decreases limiters.len() - i,
{
    if i < limiters.len() {
        if costs[i] > limiters[i].limit() {
            assert(limiters[i].valid() && limiters[i].reads(at[i]));
            limiters[i].lemma_peek(costs[i], at[i]);
            assert(peeks(limiters, costs, at)[i] is Impossible);
        } else {
            lemma_over_capacity(limiters, costs, at, i + 1);
        }
    }
}

/// Whether `n` is what `limiter` has on hand at a reading that its clocks may give.
pub open spec fn holds_now<L: Limiter>(limiter: L, n: u32) -> bool {
    exists|at: Reading|
        limiter.reads(at) && limiter.may_read(at) && n == #[trigger] limiter.tokens(at)
}

impl<L: Limiter> MultiLimiter<L> {
    /// The names of the dimensions.
    pub closed spec fn names(&self) -> Seq<String> {
        self.names@
    }

    /// The budgets of the dimensions.
    pub closed spec fn limiters(&self) -> Seq<L> {
        self.limiters@
    }

    /// The invariant: every dimension has a budget that keeps its own.
    pub open spec fn valid(&self) -> bool {
        &&& self.names().len() == self.limiters().len()
        &&& forall|i: int| 0 <= i < self.limiters().len() ==> #[trigger] self.limiters()[i].valid()
    }

    /// The share of each dimension in `costs`.
    pub open spec fn shares_of(&self, costs: Seq<(&str, u32)>) -> Seq<u32> {
        costs_of(self.names(), costs)
    }

    /// What a request with these costs would get at `at`.
    pub open spec fn peeked(&self, costs: Seq<(&str, u32)>, at: Seq<Reading>) -> Decision {
        combined(peeks(self.limiters(), self.shares_of(costs), at))
    }

    /// Whether every dimension affords its share at `at`.
    pub open spec fn affords(&self, costs: Seq<(&str, u32)>, at: Seq<Reading>) -> bool {
        all_afford(self.limiters(), self.shares_of(costs), at)
    }

    /// Whether a request with these costs at `at` turned `self` into `post`, granted or not as
    /// `ok` says. A grant charges every dimension its share, and a refusal charges none.
    pub open spec fn took(
        &self,
        post: &Self,
        costs: Seq<(&str, u32)>,
        at: Seq<Reading>,
        ok: bool,
    ) -> bool {
        &&& post.valid()
        &&& post.names() == self.names()
        &&& same_kind(self.limiters(), post.limiters())
        &&& ok == self.affords(costs, at)
        &&& ok ==> all_charged(self.limiters(), post.limiters(), self.shares_of(costs), at)
        &&& ok ==> all_last(self.limiters(), post.limiters(), self.shares_of(costs), at)
        &&& !ok ==> post.limiters() == self.limiters()
    }

    /// The error of a request with these costs that can never be granted.
    pub open spec fn error_of(&self, costs: Seq<(&str, u32)>, at: Seq<Reading>) -> ThrottleError {
        let shares = self.shares_of(costs);
        match over_capacity(self.limiters(), shares, 0) {
            Some(error) => error,
            None => match never_granting(self.limiters(), shares, at, 0) {
                Some(error) => error,
                None => ThrottleError::CostExceedsCapacity { cost: 0, capacity: 0 },
            },
        }
    }

    /// A limiter with no dimensions yet.
    pub fn builder() -> (builder: MultiLimiterBuilder<L>)
        ensures
            builder.names().len() == 0,
            builder.limiters().len() == 0,
    {
        MultiLimiterBuilder { names: Vec::new(), limiters: Vec::new() }
    }

    /// The share of each dimension in `costs`.
    fn shares(&self, costs: &[(&str, u32)]) -> (shares: Vec<u32>)
        ensures
            shares@ == self.shares_of(costs@),
    {
        let mut shares: Vec<u32> = Vec::new();
        let mut i: usize = 0;
        while i < self.names.len()
            invariant
                i <= self.names@.len(),
                shares@.len() == i,
                forall|j: int| 0 <= j < i ==> shares@[j] == cost_of(self.names@[j]@, costs@),
            decreases self.names@.len() - i,
        {
            shares.push(cost_for(&self.names[i], costs));
            i += 1;
        }
        assert(shares@ =~= self.shares_of(costs@));
        shares
    }

    /// Reads the clocks of all dimensions.
    pub fn read(&self) -> (at: Vec<Reading>)
        requires
            self.valid(),
        ensures
            all_ready(self.limiters(), at@),
            all_may_read(self.limiters(), at@),
    {
        let mut at: Vec<Reading> = Vec::new();
        let mut i: usize = 0;
        while i < self.limiters.len()
            invariant
                i <= self.limiters@.len(),
                self.valid(),
                at@.len() == i,
                forall|j: int| 0 <= j < i ==> #[trigger] self.limiters@[j].reads(at@[j]),
                forall|j: int| 0 <= j < i ==> #[trigger] self.limiters@[j].may_read(at@[j]),
            decreases self.limiters@.len() - i,
        {
            assert(self.limiters()[i as int].valid());
            at.push(self.limiters[i].read());
            i += 1;
        }
        at
    }

    /// What a request with these costs would get at `at`, taking nothing.
    pub fn peek_costs_at(&self, costs: &[(&str, u32)], at: &Vec<Reading>) -> (answer: Decision)
        requires
            self.valid(),
            all_ready(self.limiters(), at@),
        ensures
            answer == self.peeked(costs@, at@),
            answer is Acquired <==> self.affords(costs@, at@),
    {
        let shares = self.shares(costs);
        peek_all(&self.limiters, &shares, at)
    }

    /// Takes from every dimension its share of `costs` at `at`, or from none.
    pub fn acquire_costs_at(&mut self, costs: &[(&str, u32)], at: &Vec<Reading>) -> (answer:
        Decision)
        requires
            old(self).valid(),
            all_ready(old(self).limiters(), at@),
        ensures
            final(self).valid(),
            answer == old(self).peeked(costs@, at@),
            old(self).took(final(self), costs@, at@, answer is Acquired),
    {
        let shares = self.shares(costs);
        acquire_all(&mut self.limiters, &shares, at)
    }

    /// What a request with these costs would get now, taking nothing.
    pub fn peek_costs(&self, costs: &[(&str, u32)]) -> (answer: Decision)
        requires
            self.valid(),
        ensures
            exists|at: Seq<Reading>|
                {
                    &&& all_ready(self.limiters(), at)
                    &&& all_may_read(self.limiters(), at)
                    &&& answer == #[trigger] self.peeked(costs@, at)
                },
    {
        let at = self.read();
        let answer = self.peek_costs_at(costs, &at);
        assert(answer == self.peeked(costs@, at@));
        answer
    }

    /// Takes from every dimension its share of `costs` now, or from none.
    pub fn try_acquire_costs(&mut self, costs: &[(&str, u32)]) -> (ok: bool)
        requires
            old(self).valid(),
        ensures
            final(self).valid(),
            exists|at: Seq<Reading>|
                {
                    &&& all_ready(old(self).limiters(), at)
                    &&& all_may_read(old(self).limiters(), at)
                    &&& #[trigger] old(self).took(final(self), costs@, at, ok)
                },
    {
        let at = self.read();
        let ok = self.acquire_costs_at(costs, &at).is_acquired();
        assert(old(self).took(self, costs@, at@, ok));
        ok
    }

    /// The tokens on hand now in the first dimension called `dimension`, if there is one.
    pub fn available(&self, dimension: &str) -> (n: Option<u32>)
        requires
            self.valid(),
        ensures
            n is Some <==> index_of(self.names(), dimension@) < self.names().len(),
            n matches Some(n) ==> holds_now(
                self.limiters()[index_of(self.names(), dimension@)],
                n,
            ),
    {
        let mut i: usize = 0;
        assert(self.names@.skip(0) =~= self.names@);
        while i < self.names.len()
            invariant
                i <= self.names@.len(),
                self.valid(),
                index_of(self.names@, dimension@) == i + index_of(
                    self.names@.skip(i as int),
                    dimension@,
                ),
            decreases self.names@.len() - i,
        {
            assert(self.names@.skip(i as int).drop_first() =~= self.names@.skip(i + 1));
            assert(self.names@.skip(i as int)[0] == self.names@[i as int]);
            if same_text(self.names[i].as_str(), dimension) {
                assert(self.limiters()[i as int].valid());
                let at = self.limiters[i].read();
                let n: u32 = self.limiters[i].available_at(&at);
                assert(n == self.limiters()[i as int].tokens(at));
                assert(holds_now(self.limiters()[i as int], n));
                return Some(n);
            }
            i += 1;
        }
        None
    }

    /// The error of a request with these costs that can never be granted: it names the first
    /// dimension that is asked for more than it can ever hold, or else the first that will never
    /// grant its share.
    pub fn capacity_error(&self, costs: &[(&str, u32)], at: &Vec<Reading>) -> (error: ThrottleError)
        requires
            self.valid(),
            all_ready(self.limiters(), at@),
        ensures
            error == self.error_of(costs@, at@),
    {
        let shares = self.shares(costs);
        let mut i: usize = 0;
        while i < self.limiters.len()
            invariant
                i <= self.limiters@.len(),
                self.valid(),
                shares@ == self.shares_of(costs@),
                over_capacity(self.limiters@, shares@, 0) == over_capacity(
                    self.limiters@,
                    shares@,
                    i as int,
                ),
            decreases self.limiters@.len() - i,
        {
            assert(self.limiters()[i as int].valid());
            let capacity: u32 = self.limiters[i].capacity();
            if shares[i] > capacity {
                return ThrottleError::CostExceedsCapacity { cost: shares[i], capacity };
            }
            i += 1;
        }
        i = 0;
        while i < self.limiters.len()
            invariant
                i <= self.limiters@.len(),
                self.valid(),
                all_ready(self.limiters(), at@),
                shares@ == self.shares_of(costs@),
                over_capacity(self.limiters@, shares@, 0) is None,
                never_granting(self.limiters@, shares@, at@, 0) == never_granting(
                    self.limiters@,
                    shares@,
                    at@,
                    i as int,
                ),
            decreases self.limiters@.len() - i,
        {
            assert(self.limiters()[i as int].valid());
            assert(self.limiters()[i as int].reads(at@[i as int]));
            match self.limiters[i].peek_at(shares[i], &at[i]) {
                Decision::Impossible => {
                    let capacity: u32 = self.limiters[i].capacity();
                    return ThrottleError::CostExceedsCapacity { cost: shares[i], capacity };
                },
                _ => {},
            }
            i += 1;
        }
        ThrottleError::CostExceedsCapacity { cost: 0, capacity: 0 }
    }

    /// One step of an acquisition that waits for these costs.
    pub fn acquire_step(&mut self, costs: &[(&str, u32)]) -> (step: Step)
        requires
            old(self).valid(),
        ensures
            final(self).valid(),
            exists|at: Seq<Reading>|
                {
                    &&& all_ready(old(self).limiters(), at)
                    &&& all_may_read(old(self).limiters(), at)
                    &&& step == (match #[trigger] old(self).peeked(costs@, at) {
                        Decision::Acquired => Step::Granted,
                        Decision::Retry { after } => Step::Sleep(after),
                        Decision::Impossible => Step::Failed(old(self).error_of(costs@, at)),
                    })
                    &&& old(self).took(
                        final(self),
                        costs@,
                        at,
                        old(self).peeked(costs@, at) is Acquired,
                    )
                },
            over_capacity(old(self).limiters(), old(self).shares_of(costs@), 0) matches Some(error)
                ==> step == Step::Failed(error),
    {
        let at = self.read();
        proof {
            lemma_over_capacity(self.limiters(), self.shares_of(costs@), at@, 0);
        }
        let answer = self.acquire_costs_at(costs, &at);
        assert(answer == old(self).peeked(costs@, at@));
        match answer {
            Decision::Acquired => Step::Granted,
            Decision::Retry { after } => Step::Sleep(after),
            Decision::Impossible => Step::Failed(self.capacity_error(costs, &at)),
        }
    }
}

/// Collects the dimensions of a [`MultiLimiter`].
pub struct MultiLimiterBuilder<L = Box<dyn Limiter>> {
    names: Vec<String>,
    limiters: Vec<L>,
}

impl<L: Limiter> Default for MultiLimiterBuilder<L> {
    fn default() -> (builder: Self)
        ensures
            builder.names().len() == 0,
            builder.limiters().len() == 0,
    {
        MultiLimiterBuilder { names: Vec::new(), limiters: Vec::new() }
    }
}

impl<L: Limiter> MultiLimiterBuilder<L> {
    /// The names collected so far.
    pub closed spec fn names(&self) -> Seq<String> {
        self.names@
    }

    /// The budgets collected so far.
    pub closed spec fn limiters(&self) -> Seq<L> {
        self.limiters@
    }

    /// Adds a dimension called `name` with the budget `limiter`.
    pub fn dimension(self, name: &str, limiter: L) -> (builder: Self)
        ensures
            builder.names().len() == self.names().len() + 1,
            builder.names().drop_last() == self.names(),
            builder.names().last()@ == name@,
            builder.limiters() == self.limiters().push(limiter),
    {
        let mut names = self.names;
        let mut limiters = self.limiters;
        names.push(String::from_str(name));
        limiters.push(limiter);
        assert(names@.drop_last() =~= self.names@);
        MultiLimiterBuilder { names, limiters }
    }

    /// Adds a dimension called `name` whose budget is given by a handle that others may hold too.
    pub fn shared(self, name: &str, handle: L) -> (builder: Self)
        ensures
            builder.names().len() == self.names().len() + 1,
            builder.names().drop_last() == self.names(),
            builder.names().last()@ == name@,
            builder.limiters() == self.limiters().push(handle),
    {
        self.dimension(name, handle)
    }

    /// Finishes the limiter.
    pub fn build(self) -> (limiter: MultiLimiter<L>)
        ensures
            limiter.names() == self.names(),
            limiter.limiters() == self.limiters(),
    {
        MultiLimiter { names: self.names, limiters: self.limiters }
    }
}

/// How many of `oks` are true.
pub open spec fn times_granted(oks: Seq<bool>) -> nat
    decreases oks.len(),
{
    if oks.len() == 0 {
        0
    } else {
        times_granted(oks.drop_last()) + if oks.last() {
            1nat
        } else {
            0nat
        }
    }
}

/// Every dimension pays its share of every request that is granted, and of no other: while the
/// clocks stand still, the shares granted in all and what is left make up what was on hand.
pub proof fn lemma_every_dimension_pays_its_share<L: Limiter>(
    states: Seq<MultiLimiter<L>>,
    costs: Seq<(&str, u32)>,
    oks: Seq<bool>,
    at: Seq<Reading>,
    i: int,
)
    requires
        states.len() == oks.len() + 1,
        forall|j: int|
            0 <= j < oks.len() ==> (#[trigger] states[j]).took(&states[j + 1], costs, at, oks[j]),
        0 <= i < states[0].limiters().len(),
        states[0].valid(),
        states[0].limiters()[i].exact(at[i]),
    ensures
        states.last().names() == states[0].names(),
        states.last().valid(),
        states.last().limiters().len() == states[0].limiters().len(),
        states.last().limiters()[i].exact(at[i]),
        times_granted(oks) * states[0].shares_of(costs)[i] + states.last().limiters()[i].tokens(
            at[i],
        ) == states[0].limiters()[i].tokens(at[i]),
    decreases oks.len(),
{
    let share = states[0].shares_of(costs)[i] as int;
    if oks.len() == 0 {
        assert(times_granted(oks) * share == 0) by (nonlinear_arith)
            requires
                times_granted(oks) == 0,
        ;
    } else {
        let s = states.drop_last();
        let o = oks.drop_last();
        let n = oks.len() - 1;
        assert forall|j: int| 0 <= j < o.len() implies (#[trigger] s[j]).took(
            &s[j + 1],
            costs,
            at,
            o[j],
        ) by {
            assert(states[j].took(&states[j + 1], costs, at, oks[j]));
        }
        lemma_every_dimension_pays_its_share(s, costs, o, at, i);
        assert(s.last() == states[n]);
        assert(states[n].took(&states[n + 1], costs, at, oks[n]));
        let pre = states[n].limiters();
        let post = states[n + 1].limiters();
        assert(pre[i].exact(at[i]));
        assert(post[i].exact(at[i]) == pre[i].exact(at[i]));
        if oks[n] {
            assert((times_granted(o) + 1) * share == times_granted(o) * share + share)
                by (nonlinear_arith);
        }
    }
}

impl<L: Limiter> MultiLimiter<L> {
    /// The tokens on hand in each dimension at `at`.
    pub open spec fn counts(&self, at: Seq<Reading>) -> Seq<u32> {
        token_counts(self.limiters(), at)
    }

    /// Whether every dimension counts exactly at `at`.
    pub open spec fn exact(&self, at: Seq<Reading>) -> bool {
        forall|i: int| 0 <= i < self.limiters().len() ==> #[trigger] self.limiters()[i].exact(at[i])
    }
}

/// The tightest dimension binds: while the clocks stand still, requests that cost one token in
/// every dimension are granted until the dimension that holds the fewest is empty.
pub proof fn lemma_the_tightest_dimension_binds<L: Limiter>(
    states: Seq<MultiLimiter<L>>,
    costs: Seq<(&str, u32)>,
    oks: Seq<bool>,
    at: Seq<Reading>,
)
    requires
        states.len() == oks.len() + 1,
        forall|j: int|
            0 <= j < oks.len() ==> (#[trigger] states[j]).took(&states[j + 1], costs, at, oks[j]),
        states[0].valid(),
        states[0].limiters().len() > 0,
        states[0].exact(at),
        forall|i: int|
            0 <= i < states[0].names().len() ==> #[trigger] states[0].shares_of(costs)[i] == 1,
    ensures
        states.last().names() == states[0].names(),
        states.last().valid(),
        states.last().exact(at),
        times_granted(oks) + least(states.last().counts(at)) == least(states[0].counts(at)),
        times_granted(oks) == min_int(oks.len() as int, least(states[0].counts(at)) as int),
    decreases oks.len(),
{
    if oks.len() > 0 {
        let s = states.drop_last();
        let o = oks.drop_last();
        let n = oks.len() - 1;
        assert forall|j: int| 0 <= j < o.len() implies (#[trigger] s[j]).took(
            &s[j + 1],
            costs,
            at,
            o[j],
        ) by {
            assert(states[j].took(&states[j + 1], costs, at, oks[j]));
        }
        lemma_the_tightest_dimension_binds(s, costs, o, at);
        assert(s.last() == states[n]);
        lemma_one_from_each(states[n], states[n + 1], costs, at, oks[n]);
    }
}

/// A request for one token in every dimension is granted exactly when the tightest holds one, and
/// then takes one off what it holds.
proof fn lemma_one_from_each<L: Limiter>(
    pre: MultiLimiter<L>,
    post: MultiLimiter<L>,
    costs: Seq<(&str, u32)>,
    at: Seq<Reading>,
    ok: bool,
)
    requires
        pre.took(&post, costs, at, ok),
        pre.valid(),
        pre.limiters().len() > 0,
        pre.exact(at),
        forall|i: int|
            0 <= i < pre.names().len() ==> #[trigger] pre.shares_of(costs)[i] == 1,
    ensures
        post.exact(at),
        ok <==> least(pre.counts(at)) > 0,
        least(post.counts(at)) == least(pre.counts(at)) - if ok {
            1int
        } else {
            0int
        },
{
    let shares = pre.shares_of(costs);
    let counts = pre.counts(at);
    lemma_least(counts, 1);
    assert(pre.limiters()[0].exact(at[0]));
    assert forall|i: int| 0 <= i < post.limiters().len() implies #[trigger] post.limiters()[i].exact(
        at[i],
    ) by {
        assert(pre.limiters()[i].exact(at[i]));
    }
    if ok {
        assert forall|i: int| 0 <= i < counts.len() implies 1 <= #[trigger] counts[i] by {
            assert(shares[i] == 1);
            assert(shares[i] <= pre.limiters()[i].tokens(at[i]));
        }
        assert forall|i: int| 0 <= i < counts.len() implies post.counts(at)[i] == #[trigger] counts[i]
            - 1 by {
            assert(shares[i] == 1);
            assert(pre.limiters()[i].exact(at[i]));
        }
        lemma_least_shifts(counts, post.counts(at), 1);
    } else {
        assert(post.counts(at) =~= counts);
        if least(counts) > 0 {
            assert forall|i: int| 0 <= i < pre.limiters().len() implies shares[i]
                <= #[trigger] pre.limiters()[i].tokens(at[i]) by {
                assert(shares[i] == 1);
                assert(1 <= counts[i]);
            }
        }
    }
}

/// A dimension's share of a request is the first cost that is named for it, and nothing where none
/// is.
pub proof fn lemma_the_first_cost_counts(name: Seq<char>, costs: Seq<(&str, u32)>, i: int)
    requires
        0 <= i <= costs.len(),
        i < costs.len() ==> costs[i].0@ == name,
        forall|j: int| 0 <= j < i ==> (#[trigger] costs[j]).0@ != name,
    ensures
        cost_of(name, costs) == (if i < costs.len() {
            costs[i].1
        } else {
            0
        }),
    decreases costs.len(),
{
    if costs.len() > 0 && i > 0 {
        let rest = costs.drop_first();
        assert forall|j: int| 0 <= j < i - 1 implies (#[trigger] rest[j]).0@ != name by {
            assert(rest[j] == costs[j + 1]);
        }
        assert(costs[0].0@ != name);
        if i < costs.len() {
            assert(rest[i - 1] == costs[i]);
        }
        lemma_the_first_cost_counts(name, rest, i - 1);
    }
}

/// A name stands for the first dimension that bears it, and for none where none does.
pub proof fn lemma_the_first_dimension_counts(names: Seq<String>, name: Seq<char>, i: int)
    requires
        0 <= i <= names.len(),
        i < names.len() ==> names[i]@ == name,
        forall|j: int| 0 <= j < i ==> (#[trigger] names[j])@ != name,
    ensures
        index_of(names, name) == i,
    decreases names.len(),
{
    if names.len() > 0 && i > 0 {
        let rest = names.drop_first();
        assert forall|j: int| 0 <= j < i - 1 implies (#[trigger] rest[j])@ != name by {
            assert(rest[j] == names[j + 1]);
        }
        assert(names[0]@ != name);
        if i < names.len() {
            assert(rest[i - 1] == names[i]);
        }
        lemma_the_first_dimension_counts(rest, name, i - 1);
    }
}

/// The error of a request that asks a dimension for more than it can ever hold names the first
/// such, with what is asked of it and what it holds at most.
pub proof fn lemma_the_first_dimension_over_capacity_is_named<L: Limiter>(
    limiter: MultiLimiter<L>,
    costs: Seq<(&str, u32)>,
    at: Seq<Reading>,
    i: int,
)
    requires
        limiter.valid(),
        0 <= i < limiter.limiters().len(),
        cost_of(limiter.names()[i]@, costs) > limiter.limiters()[i].limit(),
        forall|j: int|
            0 <= j < i ==> cost_of((#[trigger] limiter.names()[j])@, costs)
                <= limiter.limiters()[j].limit(),
    ensures
        limiter.error_of(costs, at) == (ThrottleError::CostExceedsCapacity {
            cost: cost_of(limiter.names()[i]@, costs),
            capacity: limiter.limiters()[i].limit(),
        }),
{
    let shares = limiter.shares_of(costs);
    assert forall|j: int| 0 <= j < i implies #[trigger] shares[j] <= limiter.limiters()[j].limit() by {
        assert(cost_of(limiter.names()[j]@, costs) <= limiter.limiters()[j].limit());
    }
    assert(shares[i] == cost_of(limiter.names()[i]@, costs));
    lemma_first_over_capacity(limiter.limiters(), shares, 0, i);
}

proof fn lemma_first_over_capacity<L: Limiter>(limiters: Seq<L>, costs: Seq<u32>, from: int, i: int)
    requires
        0 <= from <= i < limiters.len(),
        costs[i] > limiters[i].limit(),
        forall|j: int| from <= j < i ==> #[trigger] costs[j] <= limiters[j].limit(),
    ensures
        over_capacity(limiters, costs, from) == Some(
            ThrottleError::CostExceedsCapacity { cost: costs[i], capacity: limiters[i].limit() },
        ),
    decreases i - from,
{
    if from < i {
        assert(costs[from] <= limiters[from].limit());
        lemma_first_over_capacity(limiters, costs, from + 1, i);
    }
}

/// A request is granted exactly if every dimension holds the first cost that is named for it, or
/// none is named; each then pays that, as far as it counts single tokens, and if one does not hold
/// it, none pays.
pub proof fn lemma_every_dimension_pays_or_none<L: Limiter>(
    pre: MultiLimiter<L>,
    post: MultiLimiter<L>,
    costs: Seq<(&str, u32)>,
    at: Seq<Reading>,
    ok: bool,
)
    requires
        pre.valid(),
        pre.took(&post, costs, at, ok),
    ensures
        ok <==> forall|i: int|
            0 <= i < pre.limiters().len() ==> cost_of(pre.names()[i]@, costs)
                <= #[trigger] pre.limiters()[i].tokens(at[i]),
        post.limiters().len() == pre.limiters().len(),
        ok ==> forall|i: int|
            0 <= i < pre.limiters().len() && #[trigger] pre.limiters()[i].exact(at[i])
                ==> post.limiters()[i].tokens(at[i]) == pre.limiters()[i].tokens(at[i]) - cost_of(
                pre.names()[i]@,
                costs,
            ),
        !ok ==> post.limiters() == pre.limiters(),
{
    let shares = pre.shares_of(costs);
    if ok {
        assert forall|i: int| 0 <= i < pre.limiters().len() implies cost_of(pre.names()[i]@, costs)
            <= #[trigger] pre.limiters()[i].tokens(at[i]) by {
            assert(shares[i] <= pre.limiters()[i].tokens(at[i]));
        }
        assert forall|i: int|
            0 <= i < pre.limiters().len() && #[trigger] pre.limiters()[i].exact(
                at[i],
            ) implies post.limiters()[i].tokens(at[i]) == pre.limiters()[i].tokens(at[i]) - cost_of(
            pre.names()[i]@,
            costs,
        ) by {
            assert(shares[i] == cost_of(pre.names()[i]@, costs));
        }
    }
    if forall|i: int|
        0 <= i < pre.limiters().len() ==> cost_of(pre.names()[i]@, costs)
            <= #[trigger] pre.limiters()[i].tokens(at[i]) {
        assert forall|i: int| 0 <= i < pre.limiters().len() implies shares[i]
            <= #[trigger] pre.limiters()[i].tokens(at[i]) by {
            assert(shares[i] == cost_of(pre.names()[i]@, costs));
        }
    }
}

/// Where no dimension is asked for more than it can ever hold, the error of a request that can
/// never be granted names the first dimension that will never grant its share.
pub proof fn lemma_the_first_dimension_that_never_grants_is_named<L: Limiter>(
    limiter: MultiLimiter<L>,
    costs: Seq<(&str, u32)>,
    at: Seq<Reading>,
    i: int,
)
    requires
        limiter.valid(),
        0 <= i < limiter.limiters().len(),
        forall|j: int|
            0 <= j < limiter.limiters().len() ==> cost_of((#[trigger] limiter.names()[j])@, costs)
                <= limiter.limiters()[j].limit(),
        limiter.limiters()[i].peeked(cost_of(limiter.names()[i]@, costs), at[i]) is Impossible,
        forall|j: int|
            0 <= j < i ==> !(limiter.limiters()[j].peeked(
                cost_of((#[trigger] limiter.names()[j])@, costs),
                at[j],
            ) is Impossible),
    ensures
        limiter.error_of(costs, at) == (ThrottleError::CostExceedsCapacity {
            cost: cost_of(limiter.names()[i]@, costs),
            capacity: limiter.limiters()[i].limit(),
        }),
{
    let limiters = limiter.limiters();
    let shares = limiter.shares_of(costs);
    assert forall|j: int| 0 <= j < limiters.len() implies #[trigger] shares[j]
        <= limiters[j].limit() by {
        assert(cost_of(limiter.names()[j]@, costs) <= limiters[j].limit());
    }
    lemma_none_over_capacity(limiters, shares, 0);
    assert forall|j: int| 0 <= j < i implies !(limiters[j].peeked(#[trigger] shares[j], at[j])
        is Impossible) by {
        assert(shares[j] == cost_of(limiter.names()[j]@, costs));
    }
    assert(shares[i] == cost_of(limiter.names()[i]@, costs));
    lemma_first_never_granting(limiters, shares, at, 0, i);
}

proof fn lemma_none_over_capacity<L: Limiter>(limiters: Seq<L>, costs: Seq<u32>, from: int)
    requires
        0 <= from,
        forall|j: int| from <= j < limiters.len() ==> #[trigger] costs[j] <= limiters[j].limit(),
    ensures
        over_capacity(limiters, costs, from) is None,
    decreases limiters.len() - from,
{
    if from < limiters.len() {
        assert(costs[from] <= limiters[from].limit());
        lemma_none_over_capacity(limiters, costs, from + 1);
    }
}

proof fn lemma_first_never_granting<L: Limiter>(
    limiters: Seq<L>,
    costs: Seq<u32>,
    at: Seq<Reading>,
    from: int,
    i: int,
)
    requires
        0 <= from <= i < limiters.len(),
        limiters[i].peeked(costs[i], at[i]) is Impossible,
        forall|j: int|
            from <= j < i ==> !(limiters[j].peeked(#[trigger] costs[j], at[j]) is Impossible),
    ensures
        never_granting(limiters, costs, at, from) == Some(
            ThrottleError::CostExceedsCapacity { cost: costs[i], capacity: limiters[i].limit() },
        ),
    decreases i - from,
{
    if from < i {
        assert(!(limiters[from].peeked(costs[from], at[from]) is Impossible));
        lemma_first_never_granting(limiters, costs, at, from + 1, i);
    }
}

} // verus!
