//! Several limiters that a request must clear together.

use vstd::prelude::*;

use crate::decision::Decision;
use crate::error::ThrottleError;
use crate::limiter::{
    acquire_all, all_afford, all_charged, all_last, all_may_read, combined, lasts, least, lemma_least,
    lemma_least_falls, lemma_least_falls_little, lemma_least_is_one, lemma_least_shifts, not_before,
    peek_all, peeks, same_kind, token_counts, Limiter, Reading,
};
use crate::step::{next_step, step_after, Step};
use crate::time::Duration;

verus! {

/// The capacities of `limiters`.
pub open spec fn limits<L: Limiter>(limiters: Seq<L>) -> Seq<u32> {
    Seq::new(limiters.len(), |i: int| limiters[i].limit())
}

/// `count` times `cost`.
pub open spec fn repeated(cost: u32, count: nat) -> Seq<u32> {
    Seq::new(count, |i: int| cost)
}

/// A limiter that grants a request only if all of its constituents do.
pub struct Hybrid<L = Box<dyn Limiter>> {
    constituents: Vec<L>,
}

impl<L: Limiter> Hybrid<L> {
    /// The limiters that a request must clear.
    pub closed spec fn parts(&self) -> Seq<L> {
        self.constituents@
    }
}

impl<L: Limiter> Limiter for Hybrid<L> {
    open spec fn valid(&self) -> bool {
        forall|i: int| 0 <= i < self.parts().len() ==> #[trigger] self.parts()[i].valid()
    }

    open spec fn reads(&self, at: Reading) -> bool {
        &&& at.parts@.len() == self.parts().len()
        &&& forall|i: int|
            0 <= i < self.parts().len() ==> #[trigger] self.parts()[i].reads(at.parts@[i])
    }

    open spec fn may_read(&self, at: Reading) -> bool {
        all_may_read(self.parts(), at.parts@)
    }

    open spec fn limit(&self) -> u32 {
        least(limits(self.parts()))
    }

    open spec fn tokens(&self, at: Reading) -> u32 {
        least(token_counts(self.parts(), at.parts@))
    }

    open spec fn peeked(&self, cost: u32, at: Reading) -> Decision {
        combined(peeks(self.parts(), repeated(cost, self.parts().len()), at.parts@))
    }

    open spec fn answered(&self, cost: u32, at: Reading, answer: Decision) -> bool {
        answer == self.peeked(cost, at)
    }

    open spec fn exact(&self, at: Reading) -> bool {
        &&& self.parts().len() > 0
        &&& forall|i: int|
            0 <= i < self.parts().len() ==> #[trigger] self.parts()[i].exact(at.parts@[i])
    }

    proof fn lemma_peek(&self, cost: u32, at: Reading) {
        let costs = repeated(cost, self.parts().len());
        let answers = peeks(self.parts(), costs, at.parts@);
        lemma_all_afford(self.parts(), cost, at.parts@);
        assert forall|i: int| 0 <= i < answers.len() implies (#[trigger] answers[i] is Acquired
            <==> cost <= self.parts()[i].tokens(at.parts@[i])) by {
            assert(self.parts()[i].valid() && self.parts()[i].reads(at.parts@[i]));
            self.parts()[i].lemma_peek(cost, at.parts@[i]);
        }
        if combined(answers) is Acquired {
            assert forall|i: int| 0 <= i < self.parts().len() implies costs[i]
                <= #[trigger] self.parts()[i].tokens(at.parts@[i]) by {
                assert(!(answers[i] is Impossible) && !(answers[i] is Retry));
            }
        }
        if all_afford(self.parts(), costs, at.parts@) {
            assert forall|i: int| 0 <= i < answers.len() implies #[trigger] answers[i] is Acquired by {
                assert(costs[i] <= self.parts()[i].tokens(at.parts@[i]));
            }
        }
        assert(self.peeked(cost, at) is Acquired <==> cost <= self.tokens(at));
        lemma_least(limits(self.parts()), cost);
        if cost > self.limit() {
            let i = choose|i: int|
                0 <= i < self.parts().len() && cost > #[trigger] limits(self.parts())[i];
            assert(self.parts()[i].valid() && self.parts()[i].reads(at.parts@[i]));
            self.parts()[i].lemma_peek(cost, at.parts@[i]);
            assert(answers[i] is Impossible);
        }
    }

    fn read(&self) -> (at: Reading) {
        let mut parts: Vec<Reading> = Vec::new();
        let mut i: usize = 0;
        while i < self.constituents.len()
            invariant
                i <= self.constituents@.len(),
                self.valid(),
                parts@.len() == i,
                forall|j: int| 0 <= j < i ==> #[trigger] self.parts()[j].reads(parts@[j]),
                forall|j: int| 0 <= j < i ==> #[trigger] self.parts()[j].may_read(parts@[j]),
            decreases self.constituents@.len() - i,
        {
            assert(self.parts()[i as int].valid());
            parts.push(self.constituents[i].read());
            i += 1;
        }
        Reading { at: Duration::zero(), parts }
    }

    fn peek_at(&self, cost: u32, at: &Reading) -> (answer: Decision) {
        let costs = self.shares(cost);
        let answer = peek_all(&self.constituents, &costs, &at.parts);
        proof {
            self.lemma_peek(cost, *at);
            lemma_all_afford(self.parts(), cost, at.parts@);
            assert(self.tokens(*at) == least(token_counts(self.parts(), at.parts@)));
        }
        answer
    }

    fn acquire_cost_at(&mut self, cost: u32, at: &Reading) -> (answer: Decision)
        ensures
            old(self).took(final(self), cost, *at, answer is Acquired),
    {
        let costs = self.shares(cost);
        let ghost pre = self.parts();
        proof {
            self.lemma_peek(cost, *at);
            lemma_all_afford(pre, cost, at.parts@);
        }
        let answer = acquire_all(&mut self.constituents, &costs, &at.parts);
        proof {
            assert(limits(self.parts()) =~= limits(pre));
            if answer is Acquired && old(self).exact(*at) {
                let counts = token_counts(pre, at.parts@);
                assert forall|i: int| 0 <= i < counts.len() implies token_counts(
                    self.parts(),
                    at.parts@,
                )[i] == #[trigger] counts[i] - cost by {
                    assert(pre[i].exact(at.parts@[i]));
                }
                lemma_least_shifts(counts, token_counts(self.parts(), at.parts@), cost);
            }
            assert forall|r: Reading| #[trigger] self.exact(r) == old(self).exact(r) by {
                assert forall|i: int| 0 <= i < pre.len() implies self.parts()[i].exact(r.parts@[i])
                    == #[trigger] pre[i].exact(r.parts@[i]) by {}
                if old(self).exact(r) {
                    assert forall|i: int| 0 <= i < pre.len() implies #[trigger] self.parts()[i].exact(
                        r.parts@[i],
                    ) by {
                        assert(pre[i].exact(r.parts@[i]));
                    }
                }
            }
            assert forall|r: Reading| #[trigger] self.reads(r) == old(self).reads(r) by {
                assert forall|i: int| 0 <= i < pre.len() implies self.parts()[i].reads(r.parts@[i])
                    == #[trigger] pre[i].reads(r.parts@[i]) by {}
            }
            assert forall|r: Reading| #[trigger] self.may_read(r) == old(self).may_read(r) by {
                assert forall|i: int| 0 <= i < pre.len() implies self.parts()[i].may_read(
                    r.parts@[i],
                ) == #[trigger] pre[i].may_read(r.parts@[i]) by {}
            }
            if answer is Acquired {
                assert forall|r: Reading| not_before(*at, r) && old(self).reads(r) implies (
                #[trigger] self.tokens(r)) <= old(self).tokens(r) && (old(self).exact(*at)
                    ==> old(self).tokens(r) <= self.tokens(r) + cost) by {
                    lemma_all_last(pre, self.parts(), cost, *at, r);
                }
            }
        }
        answer
    }

    fn available_at(&self, at: &Reading) -> (n: u32) {
        let ghost counts = token_counts(self.parts(), at.parts@);
        let mut n: u32 = u32::MAX;
        let mut i: usize = 0;
        while i < self.constituents.len()
            invariant
                i <= self.constituents@.len(),
                self.valid(),
                self.reads(*at),
                counts == token_counts(self.parts(), at.parts@),
                n == least(counts.take(i as int)),
            decreases self.constituents@.len() - i,
        {
            assert(self.parts()[i as int].valid() && self.parts()[i as int].reads(
                at.parts@[i as int],
            ));
            let available: u32 = self.constituents[i].available_at(&at.parts[i]);
            if available < n {
                n = available;
            }
            assert(counts.take(i + 1).drop_last() =~= counts.take(i as int));
            i += 1;
        }
        assert(counts.take(i as int) =~= counts);
        n
    }

    fn capacity(&self) -> (n: u32) {
        let ghost caps = limits(self.parts());
        let mut n: u32 = u32::MAX;
        let mut i: usize = 0;
        while i < self.constituents.len()
            invariant
                i <= self.constituents@.len(),
                self.valid(),
                caps == limits(self.parts()),
                n == least(caps.take(i as int)),
            decreases self.constituents@.len() - i,
        {
            assert(self.parts()[i as int].valid());
            let capacity: u32 = self.constituents[i].capacity();
            if capacity < n {
                n = capacity;
            }
            assert(caps.take(i + 1).drop_last() =~= caps.take(i as int));
            i += 1;
        }
        assert(caps.take(i as int) =~= caps);
        n
    }
}

/// Every limiter affords `cost` exactly when the one with the least on hand does.
proof fn lemma_all_afford<L: Limiter>(limiters: Seq<L>, cost: u32, at: Seq<Reading>)
    ensures
        all_afford(limiters, repeated(cost, limiters.len()), at) <==> cost <= least(
            token_counts(limiters, at),
        ),
{
    let counts = token_counts(limiters, at);
    lemma_least(counts, cost);
    if all_afford(limiters, repeated(cost, limiters.len()), at) {
        assert forall|i: int| 0 <= i < counts.len() implies cost <= #[trigger] counts[i] by {
            assert(limiters[i].tokens(at[i]) == counts[i]);
        }
    }
    if cost <= least(counts) {
        assert forall|i: int| 0 <= i < limiters.len() implies repeated(cost, limiters.len())[i]
            <= #[trigger] limiters[i].tokens(at[i]) by {
            assert(counts[i] == limiters[i].tokens(at[i]));
        }
    }
}

/// What a grant takes off each limiter it takes off the least that they hold, then and later.
proof fn lemma_all_last<L: Limiter>(pre: Seq<L>, post: Seq<L>, cost: u32, at: Reading, r: Reading)
    requires
        post.len() == pre.len(),
        at.parts@.len() == pre.len(),
        r.parts@.len() == pre.len(),
        all_last(pre, post, repeated(cost, pre.len()), at.parts@),
        not_before(at, r),
        forall|i: int| 0 <= i < pre.len() ==> #[trigger] pre[i].reads(r.parts@[i]),
    ensures
        least(token_counts(post, r.parts@)) <= least(token_counts(pre, r.parts@)),
        (forall|i: int| 0 <= i < pre.len() ==> #[trigger] pre[i].exact(at.parts@[i])) ==> least(
            token_counts(pre, r.parts@),
        ) <= least(token_counts(post, r.parts@)) + cost,
{
    let before = token_counts(pre, r.parts@);
    let after = token_counts(post, r.parts@);
    let exact = forall|i: int| 0 <= i < pre.len() ==> #[trigger] pre[i].exact(at.parts@[i]);
    assert forall|i: int| 0 <= i < before.len() implies #[trigger] after[i] <= before[i] && (exact
        ==> before[i] <= after[i] + cost) by {
        assert(not_before(at.parts@[i], r.parts@[i]));
        assert(pre[i].reads(r.parts@[i]));
        assert(lasts(pre[i], post[i], repeated(cost, pre.len())[i], at.parts@[i]));
        assert(post[i].tokens(r.parts@[i]) <= pre[i].tokens(r.parts@[i]));
        if exact {
            assert(pre[i].exact(at.parts@[i]));
        }
    }
    lemma_least_falls(before, after);
    if exact {
        lemma_least_falls_little(before, after, cost);
    }
}

impl<L: Limiter> Hybrid<L> {
    /// A hybrid with no constituents yet.
    pub fn builder() -> (builder: HybridBuilder<L>)
        ensures
            builder.parts().len() == 0,
    {
        HybridBuilder { constituents: Vec::new() }
    }

    /// Whether a request for `cost` tokens at `at` turned `self` into `post`, granted or not as
    /// `ok` says. A grant charges every constituent, and a refusal leaves every one as it was.
    pub open spec fn took(&self, post: &Self, cost: u32, at: Reading, ok: bool) -> bool {
        &&& post.valid()
        &&& same_kind(self.parts(), post.parts())
        &&& ok == (cost <= self.tokens(at))
        &&& ok ==> all_charged(
            self.parts(),
            post.parts(),
            repeated(cost, self.parts().len()),
            at.parts@,
        )
        &&& ok ==> all_last(
            self.parts(),
            post.parts(),
            repeated(cost, self.parts().len()),
            at.parts@,
        )
        &&& !ok ==> post.parts() == self.parts()
    }

    /// Takes one token now from every constituent, or none.
    pub fn try_acquire(&mut self) -> (ok: bool)
        requires
            old(self).valid(),
        ensures
            final(self).valid(),
            exists|at: Reading|
                {
                    &&& old(self).reads(at)
                    &&& old(self).may_read(at)
                    &&& #[trigger] old(self).took(final(self), 1, at, ok)
                },
    {
        self.try_acquire_with_cost(1)
    }

    /// Takes `cost` tokens now from every constituent, or none.
    pub fn try_acquire_with_cost(&mut self, cost: u32) -> (ok: bool)
        requires
            old(self).valid(),
        ensures
            final(self).valid(),
            exists|at: Reading|
                {
                    &&& old(self).reads(at)
                    &&& old(self).may_read(at)
                    &&& #[trigger] old(self).took(final(self), cost, at, ok)
                },
    {
        let at = self.read();
        let ok = self.acquire_cost_at(cost, &at).is_acquired();
        assert(old(self).took(self, cost, at, ok));
        ok
    }

    /// One step of an acquisition that waits for `cost` tokens.
    pub fn acquire_step(&mut self, cost: u32) -> (step: Step)
        requires
            old(self).valid(),
        ensures
            final(self).valid(),
            exists|at: Reading|
                {
                    &&& old(self).reads(at)
                    &&& old(self).may_read(at)
                    &&& step == step_after(
                        #[trigger] old(self).peeked(cost, at),
                        cost,
                        old(self).limit(),
                    )
                    &&& old(self).took(
                        final(self),
                        cost,
                        at,
                        old(self).peeked(cost, at) is Acquired,
                    )
                },
            cost > old(self).limit() ==> step == Step::Failed(
                ThrottleError::CostExceedsCapacity { cost, capacity: old(self).limit() },
            ),
    {
        let at = self.read();
        let capacity: u32 = self.capacity();
        let answer = self.acquire_cost_at(cost, &at);
        assert(answer == old(self).peeked(cost, at));
        assert(old(self).took(self, cost, at, answer is Acquired));
        next_step(answer, cost, capacity)
    }

    /// The cost that each constituent is asked for.
    fn shares(&self, cost: u32) -> (costs: Vec<u32>)
        ensures
            costs@ == repeated(cost, self.parts().len()),
    {
        let mut costs: Vec<u32> = Vec::new();
        while costs.len() < self.constituents.len()
            invariant
                costs@.len() <= self.constituents@.len(),
                costs@ == repeated(cost, costs@.len()),
            decreases self.constituents@.len() - costs@.len(),
        {
            costs.push(cost);
        }
        costs
    }
}

/// Collects the constituents of a [`Hybrid`].
pub struct HybridBuilder<L = Box<dyn Limiter>> {
    constituents: Vec<L>,
}

impl<L: Limiter> HybridBuilder<L> {
    /// The limiters collected so far.
    pub closed spec fn parts(&self) -> Seq<L> {
        self.constituents@
    }

    /// Adds a limiter that a request must clear.
    pub fn limiter(self, limiter: L) -> (builder: Self)
        ensures
            builder.parts() == self.parts().push(limiter),
    {
        let mut constituents = self.constituents;
        constituents.push(limiter);
        HybridBuilder { constituents }
    }

    /// Adds a limiter by a handle that others may hold too.
    pub fn shared(self, handle: L) -> (builder: Self)
        ensures
            builder.parts() == self.parts().push(handle),
    {
        self.limiter(handle)
    }

    /// Finishes the hybrid.
    pub fn build(self) -> (hybrid: Hybrid<L>)
        ensures
            hybrid.parts() == self.parts(),
    {
        Hybrid { constituents: self.constituents }
    }
}

impl<L: Limiter> Default for HybridBuilder<L> {
    fn default() -> (builder: Self)
        ensures
            builder.parts().len() == 0,
    {
        HybridBuilder { constituents: Vec::new() }
    }
}

/// A hybrid grants a request exactly if each of its constituents holds the tokens; each then pays
/// them in full, as far as it counts single tokens, and if one does not hold them, none pays.
pub proof fn lemma_every_constituent_pays<L: Limiter>(
    pre: Hybrid<L>,
    post: Hybrid<L>,
    cost: u32,
    at: Reading,
    ok: bool,
)
    requires
        pre.valid(),
        pre.reads(at),
        pre.took(&post, cost, at, ok),
    ensures
        ok <==> forall|i: int|
            0 <= i < pre.parts().len() ==> cost <= #[trigger] pre.parts()[i].tokens(at.parts@[i]),
        post.parts().len() == pre.parts().len(),
        ok ==> forall|i: int|
            0 <= i < pre.parts().len() && #[trigger] pre.parts()[i].exact(at.parts@[i])
                ==> post.parts()[i].tokens(at.parts@[i]) == pre.parts()[i].tokens(at.parts@[i]) - cost,
        !ok ==> post.parts() == pre.parts(),
{
    let costs = repeated(cost, pre.parts().len());
    lemma_all_afford(pre.parts(), cost, at.parts@);
    if ok {
        assert forall|i: int| 0 <= i < pre.parts().len() implies cost
            <= #[trigger] pre.parts()[i].tokens(at.parts@[i]) by {
            assert(costs[i] == cost);
        }
        assert forall|i: int|
            0 <= i < pre.parts().len() && #[trigger] pre.parts()[i].exact(
                at.parts@[i],
            ) implies post.parts()[i].tokens(at.parts@[i]) == pre.parts()[i].tokens(at.parts@[i])
            - cost by {
            assert(costs[i] == cost);
        }
    }
    if forall|i: int|
        0 <= i < pre.parts().len() ==> cost <= #[trigger] pre.parts()[i].tokens(at.parts@[i]) {
        assert forall|i: int| 0 <= i < pre.parts().len() implies costs[i]
            <= #[trigger] pre.parts()[i].tokens(at.parts@[i]) by {
            assert(costs[i] == cost);
        }
    }
}

/// A hybrid holds at most what the smallest of its constituents does, and has on hand what the
/// emptiest has.
pub proof fn lemma_the_tightest_constituent_binds<L: Limiter>(hybrid: Hybrid<L>, at: Reading, i: int)
    requires
        0 <= i < hybrid.parts().len(),
        hybrid.reads(at),
    ensures
        hybrid.limit() <= hybrid.parts()[i].limit(),
        hybrid.tokens(at) <= hybrid.parts()[i].tokens(at.parts@[i]),
        exists|j: int|
            0 <= j < hybrid.parts().len() && hybrid.limit() == #[trigger] hybrid.parts()[j].limit(),
        exists|j: int|
            0 <= j < hybrid.parts().len() && hybrid.tokens(at)
                == #[trigger] hybrid.parts()[j].tokens(at.parts@[j]),
{
    let caps = limits(hybrid.parts());
    let counts = token_counts(hybrid.parts(), at.parts@);
    lemma_least(caps, least(caps));
    lemma_least(counts, least(counts));
    assert(least(caps) <= caps[i]);
    assert(least(counts) <= counts[i]);
    let j = lemma_least_is_one(caps);
    assert(caps[j] == hybrid.parts()[j].limit());
    let k = lemma_least_is_one(counts);
    assert(counts[k] == hybrid.parts()[k].tokens(at.parts@[k]));
}

} // verus!
