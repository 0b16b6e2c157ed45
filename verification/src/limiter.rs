//! The contract every limiter meets, and how several limiters answer as one.

use vstd::prelude::*;

use crate::decision::Decision;
use crate::time::{min_int, span, Duration};

verus! {

/// The instants at which a limiter consults its clocks: one of its own, and one for each limiter
/// that it is made of.
pub struct Reading {
    /// The reading of the limiter's own clock.
    pub at: Duration,
    /// The readings of the limiters it is made of, in order.
    pub parts: Vec<Reading>,
}

impl Reading {
    /// The reading of a single clock.
    pub fn single(at: Duration) -> (reading: Self)
        ensures
            reading.at == at,
            reading.parts@.len() == 0,
    {
        Reading { at, parts: Vec::new() }
    }
}

/// Whether no clock reads less in `b` than in `a`.
pub open spec fn not_before(a: Reading, b: Reading) -> bool
    decreases a,
{
    &&& a.at@ <= b.at@
    &&& forall|i: int|
        0 <= i < a.parts@.len() && i < b.parts@.len() ==> not_before(
            #[trigger] a.parts@[i],
            b.parts@[i],
        )
}

/// A reading is not before itself.
pub proof fn lemma_not_before_itself(a: Reading)
    ensures
        not_before(a, a),
    decreases a,
{
    assert forall|i: int| 0 <= i < a.parts@.len() implies not_before(
        #[trigger] a.parts@[i],
        a.parts@[i],
    ) by {
        lemma_not_before_itself(a.parts@[i]);
    }
}

/// A limiter: a store of tokens that grants requests or says when to ask again.
pub trait Limiter: Send + Sync {
    /// The invariant of the limiter.
    spec fn valid(&self) -> bool;

    /// Whether `at` has a reading for each clock that the limiter consults.
    spec fn reads(&self, at: Reading) -> bool;

    /// Whether `at` is what reading the limiter's clocks may give.
    spec fn may_read(&self, at: Reading) -> bool;

    /// The most tokens the limiter can ever hold.
    spec fn limit(&self) -> u32;

    /// The tokens on hand at `at`.
    spec fn tokens(&self, at: Reading) -> u32;

    /// What a peek for `cost` tokens answers at `at`.
    spec fn peeked(&self, cost: u32, at: Reading) -> Decision;

    /// Whether `answer` is what a request for `cost` tokens gets at `at`.
    spec fn answered(&self, cost: u32, at: Reading, answer: Decision) -> bool;

    /// Whether a grant at `at` takes exactly the tokens asked for off those on hand.
    spec fn exact(&self, at: Reading) -> bool;

    /// A peek says yes exactly when the tokens on hand suffice, and says at once if the limiter can
    /// never hold as many.
    proof fn lemma_peek(&self, cost: u32, at: Reading)
        requires
            self.valid(),
            self.reads(at),
        ensures
            self.peeked(cost, at) is Acquired <==> cost <= self.tokens(at),
            cost > self.limit() ==> self.peeked(cost, at) is Impossible,
    ;

    /// Reads the limiter's clocks.
    fn read(&self) -> (at: Reading)
        requires
            self.valid(),
        ensures
            self.reads(at),
            self.may_read(at),
    ;

    /// What a request for `cost` tokens would get at `at`, taking nothing.
    fn peek_at(&self, cost: u32, at: &Reading) -> (answer: Decision)
        requires
            self.valid(),
            self.reads(*at),
        ensures
            answer == self.peeked(cost, *at),
            answer is Acquired <==> cost <= self.tokens(*at),
            cost > self.limit() ==> answer is Impossible,
    ;

    /// Takes `cost` tokens at `at`, all or none.
    fn acquire_cost_at(&mut self, cost: u32, at: &Reading) -> (answer: Decision)
        requires
            old(self).valid(),
            old(self).reads(*at),
        ensures
            final(self).valid(),
            final(self).limit() == old(self).limit(),
            forall|r: Reading| #[trigger] final(self).exact(r) == old(self).exact(r),
            forall|r: Reading| #[trigger] final(self).reads(r) == old(self).reads(r),
            forall|r: Reading| #[trigger] final(self).may_read(r) == old(self).may_read(r),
            old(self).answered(cost, *at, answer),
            answer is Acquired <==> cost <= old(self).tokens(*at),
            cost > old(self).limit() ==> answer is Impossible,
            answer is Acquired && old(self).exact(*at) ==> final(self).tokens(*at) == old(self).tokens(
                *at,
            ) - cost,
            forall|r: Reading|
                not_before(*at, r) && old(self).reads(r) ==> #[trigger] final(self).tokens(r)
                    <= old(self).tokens(r),
            answer is Acquired && old(self).exact(*at) ==> forall|r: Reading|
                not_before(*at, r) && old(self).reads(r) ==> old(self).tokens(r)
                    <= #[trigger] final(self).tokens(r) + cost,
            answer !is Acquired ==> forall|r: Reading|
                not_before(*at, r) && old(self).reads(r) ==> #[trigger] final(self).tokens(r) == old(self).tokens(r),
            answer !is Acquired ==> forall|c: u32, r: Reading|
                not_before(*at, r) && old(self).reads(r) ==> #[trigger] final(self).peeked(c, r)
                    == old(self).peeked(c, r),
    ;

    /// The tokens on hand at `at`.
    fn available_at(&self, at: &Reading) -> (n: u32)
        requires
            self.valid(),
            self.reads(*at),
        ensures
            n == self.tokens(*at),
    ;

    /// The most tokens the limiter can ever hold.
    fn capacity(&self) -> (n: u32)
        requires
            self.valid(),
        ensures
            n == self.limit(),
    ;

    /// What a request for `cost` tokens would get now, taking nothing.
    fn peek(&self, cost: u32) -> (answer: Decision)
        requires
            self.valid(),
        ensures
            exists|at: Reading|
                {
                    &&& self.reads(at)
                    &&& self.may_read(at)
                    &&& answer == #[trigger] self.peeked(cost, at)
                    &&& answer is Acquired <==> cost <= self.tokens(at)
                },
            cost > self.limit() ==> answer is Impossible,
    {
        let at = self.read();
        self.peek_at(cost, &at)
    }

    /// Takes `cost` tokens now, all or none.
    fn acquire_cost(&mut self, cost: u32) -> (answer: Decision)
        requires
            old(self).valid(),
        ensures
            final(self).valid(),
            final(self).limit() == old(self).limit(),
            forall|r: Reading| #[trigger] final(self).exact(r) == old(self).exact(r),
            forall|r: Reading| #[trigger] final(self).reads(r) == old(self).reads(r),
            forall|r: Reading| #[trigger] final(self).may_read(r) == old(self).may_read(r),
            cost > old(self).limit() ==> answer is Impossible,
            exists|at: Reading|
                {
                    &&& old(self).reads(at)
                    &&& old(self).may_read(at)
                    &&& #[trigger] old(self).answered(cost, at, answer)
                    &&& answer is Acquired <==> cost <= old(self).tokens(at)
                    &&& answer is Acquired && old(self).exact(at) ==> final(self).tokens(at)
                        == old(self).tokens(at) - cost
                    &&& forall|r: Reading|
                        not_before(at, r) && old(self).reads(r) ==> #[trigger] final(self).tokens(r)
                            <= old(self).tokens(r)
                    &&& answer is Acquired && old(self).exact(at) ==> forall|r: Reading|
                        not_before(at, r) && old(self).reads(r) ==> old(self).tokens(r)
                            <= #[trigger] final(self).tokens(r) + cost
                    &&& answer !is Acquired ==> forall|r: Reading|
                        not_before(at, r) && old(self).reads(r) ==> #[trigger] final(self).tokens(r)
                            == old(self).tokens(r)
                },
    {
        let at = self.read();
        self.acquire_cost_at(cost, &at)
    }

    /// The tokens on hand now.
    fn available(&self) -> (n: u32)
        requires
            self.valid(),
        ensures
            exists|at: Reading|
                self.reads(at) && self.may_read(at) && n == #[trigger] self.tokens(at),
    {
        let at = self.read();
        self.available_at(&at)
    }
}

impl<L: Limiter + ?Sized> Limiter for Box<L> {
    open spec fn valid(&self) -> bool {
        (**self).valid()
    }

    open spec fn reads(&self, at: Reading) -> bool {
        (**self).reads(at)
    }

    open spec fn may_read(&self, at: Reading) -> bool {
        (**self).may_read(at)
    }

    open spec fn limit(&self) -> u32 {
        (**self).limit()
    }

    open spec fn tokens(&self, at: Reading) -> u32 {
        (**self).tokens(at)
    }

    open spec fn peeked(&self, cost: u32, at: Reading) -> Decision {
        (**self).peeked(cost, at)
    }

    open spec fn answered(&self, cost: u32, at: Reading, answer: Decision) -> bool {
        (**self).answered(cost, at, answer)
    }

    open spec fn exact(&self, at: Reading) -> bool {
        (**self).exact(at)
    }

    proof fn lemma_peek(&self, cost: u32, at: Reading) {
        (**self).lemma_peek(cost, at);
    }

    fn read(&self) -> (at: Reading) {
        (**self).read()
    }

    fn peek_at(&self, cost: u32, at: &Reading) -> (answer: Decision) {
        let answer = (**self).peek_at(cost, at);
        assert(self.tokens(*at) == (**self).tokens(*at));
        assert(self.limit() == (**self).limit());
        answer
    }

    fn acquire_cost_at(&mut self, cost: u32, at: &Reading) -> (answer: Decision) {
        (**self).acquire_cost_at(cost, at)
    }

    fn available_at(&self, at: &Reading) -> (n: u32) {
        (**self).available_at(at)
    }

    fn capacity(&self) -> (n: u32) {
        (**self).capacity()
    }
}

/// The longest of the waits among `answers`, the empty span where there is none.
pub open spec fn longest_wait(answers: Seq<Decision>) -> Duration
    decreases answers.len(),
{
    if answers.len() == 0 {
        span(0)
    } else {
        let rest = longest_wait(answers.drop_last());
        match answers.last() {
            Decision::Retry { after } => if rest.nanos <= after.nanos {
                after
            } else {
                rest
            },
            _ => rest,
        }
    }
}

/// The one answer that several limiters give together: impossible if it is for any of them, else
/// the longest wait of those that refuse, else granted.
pub open spec fn combined(answers: Seq<Decision>) -> Decision {
    if exists|i: int| 0 <= i < answers.len() && #[trigger] answers[i] is Impossible {
        Decision::Impossible
    } else if exists|i: int| 0 <= i < answers.len() && #[trigger] answers[i] is Retry {
        Decision::Retry { after: longest_wait(answers) }
    } else {
        Decision::Acquired
    }
}

/// The one answer that several limiters give together.
pub fn combine(answers: &Vec<Decision>) -> (answer: Decision)
    ensures
        answer == combined(answers@),
        answer is Acquired <==> forall|i: int|
            0 <= i < answers@.len() ==> #[trigger] answers@[i] is Acquired,
{
    let mut wait: Option<Duration> = None;
    let mut i: usize = 0;
    while i < answers.len()
        invariant
            i <= answers@.len(),
            forall|j: int| 0 <= j < i ==> !(#[trigger] answers@[j] is Impossible),
            wait is None <==> forall|j: int| 0 <= j < i ==> #[trigger] answers@[j] is Acquired,
            wait matches Some(w) ==> w == longest_wait(answers@.take(i as int)),
            wait is None ==> longest_wait(answers@.take(i as int)) == span(0),
        decreases answers@.len() - i,
    {
        proof {
            assert(answers@.take(i + 1).drop_last() =~= answers@.take(i as int));
        }
        match answers[i] {
            Decision::Acquired => {},
            Decision::Retry { after } => {
                wait = match wait {
                    None => Some(after),
                    Some(w) => Some(after.longer(w)),
                };
            },
            Decision::Impossible => {
                return Decision::Impossible;
            },
        }
        i += 1;
    }
    assert(answers@.take(i as int) =~= answers@);
    match wait {
        Some(after) => Decision::Retry { after },
        None => Decision::Acquired,
    }
}

/// The least of `values`, `u32::MAX` where there is none.
pub open spec fn least(values: Seq<u32>) -> u32
    decreases values.len(),
{
    if values.len() == 0 {
        u32::MAX
    } else {
        let rest = least(values.drop_last());
        if values.last() < rest {
            values.last()
        } else {
            rest
        }
    }
}

/// A value is no less than the least of its sequence, and no more than it where it bounds all.
pub proof fn lemma_least(values: Seq<u32>, bound: u32)
    ensures
        bound <= least(values) <==> forall|i: int| 0 <= i < values.len() ==> bound <= #[trigger] values[i],
    decreases values.len(),
{
    if values.len() > 0 {
        let rest = values.drop_last();
        lemma_least(rest, bound);
        assert(forall|i: int| 0 <= i < rest.len() ==> rest[i] == values[i]);
        assert(values.last() == values[values.len() - 1]);
        if bound <= least(values) {
            assert forall|i: int| 0 <= i < values.len() implies bound <= #[trigger] values[i] by {
                if i < rest.len() {
                    assert(rest[i] == values[i]);
                }
            }
        }
        if forall|i: int| 0 <= i < values.len() ==> bound <= #[trigger] values[i] {
            assert forall|i: int| 0 <= i < rest.len() implies bound <= #[trigger] rest[i] by {
                assert(rest[i] == values[i]);
            }
        }
    }
}

/// Taking `cost` off every count takes `cost` off the least.
pub proof fn lemma_least_shifts(pre: Seq<u32>, post: Seq<u32>, cost: u32)
    requires
        pre.len() == post.len(),
        pre.len() > 0,
        forall|i: int| 0 <= i < pre.len() ==> post[i] == #[trigger] pre[i] - cost,
    ensures
        least(post) == least(pre) - cost,
    decreases pre.len(),
{
    assert(post.last() == pre[pre.len() - 1] - cost);
    if pre.len() > 1 {
        assert forall|i: int| 0 <= i < pre.len() - 1 implies post.drop_last()[i]
            == #[trigger] pre.drop_last()[i] - cost by {
            assert(post[i] == pre[i] - cost);
        }
        lemma_least_shifts(pre.drop_last(), post.drop_last(), cost);
    } else {
        assert(pre.drop_last().len() == 0 && post.drop_last().len() == 0);
        assert(least(pre.drop_last()) == u32::MAX && least(post.drop_last()) == u32::MAX);
    }
}

/// Counts that are no more than others have a least that is so too.
pub proof fn lemma_least_falls(pre: Seq<u32>, post: Seq<u32>)
    requires
        pre.len() == post.len(),
        forall|i: int| 0 <= i < pre.len() ==> #[trigger] post[i] <= pre[i],
    ensures
        least(post) <= least(pre),
    decreases pre.len(),
{
    if pre.len() > 0 {
        let n = pre.len() - 1;
        assert(post[n] <= pre[n]);
        assert forall|i: int| 0 <= i < n implies #[trigger] post.drop_last()[i]
            <= pre.drop_last()[i] by {
            assert(post[i] <= pre[i]);
        }
        lemma_least_falls(pre.drop_last(), post.drop_last());
    }
}

/// Counts that are no more than `cost` less than others have a least that is so too.
pub proof fn lemma_least_falls_little(pre: Seq<u32>, post: Seq<u32>, cost: u32)
    requires
        pre.len() == post.len(),
        forall|i: int| 0 <= i < pre.len() ==> pre[i] <= #[trigger] post[i] + cost,
    ensures
        least(pre) <= least(post) + cost,
    decreases pre.len(),
{
    if pre.len() > 0 {
        let n = pre.len() - 1;
        assert(pre[n] <= post[n] + cost);
        assert forall|i: int| 0 <= i < n implies pre.drop_last()[i]
            <= #[trigger] post.drop_last()[i] + cost by {
            assert(pre[i] <= post[i] + cost);
        }
        lemma_least_falls_little(pre.drop_last(), post.drop_last(), cost);
    }
}

/// Whether each of `limiters` keeps its invariant and has a reading in `at`.
pub open spec fn all_ready<L: Limiter>(limiters: Seq<L>, at: Seq<Reading>) -> bool {
    &&& at.len() == limiters.len()
    &&& forall|i: int| 0 <= i < limiters.len() ==> #[trigger] limiters[i].valid()
    &&& forall|i: int| 0 <= i < limiters.len() ==> #[trigger] limiters[i].reads(at[i])
}

/// Whether each of `limiters` may read its clocks as `at` says.
pub open spec fn all_may_read<L: Limiter>(limiters: Seq<L>, at: Seq<Reading>) -> bool {
    &&& at.len() == limiters.len()
    &&& forall|i: int| 0 <= i < limiters.len() ==> #[trigger] limiters[i].may_read(at[i])
}

/// The tokens each of `limiters` holds at its reading in `at`.
pub open spec fn token_counts<L: Limiter>(limiters: Seq<L>, at: Seq<Reading>) -> Seq<u32> {
    Seq::new(limiters.len(), |i: int| limiters[i].tokens(at[i]))
}

/// What each of `limiters` answers to a peek for its share of `costs`.
pub open spec fn peeks<L: Limiter>(
    limiters: Seq<L>,
    costs: Seq<u32>,
    at: Seq<Reading>,
) -> Seq<Decision> {
    Seq::new(limiters.len(), |i: int| limiters[i].peeked(costs[i], at[i]))
}

/// Whether each of `limiters` holds its share of `costs`.
pub open spec fn all_afford<L: Limiter>(
    limiters: Seq<L>,
    costs: Seq<u32>,
    at: Seq<Reading>,
) -> bool {
    forall|i: int|
        0 <= i < limiters.len() ==> costs[i] <= #[trigger] limiters[i].tokens(at[i])
}

/// The combined answer of `limiters`, each asked for its share of `costs` with nothing taken.
pub fn peek_all<L: Limiter>(limiters: &Vec<L>, costs: &Vec<u32>, at: &Vec<Reading>) -> (answer:
    Decision)
    requires
        all_ready(limiters@, at@),
        costs@.len() == limiters@.len(),
    ensures
        answer == combined(peeks(limiters@, costs@, at@)),
        answer is Acquired <==> all_afford(limiters@, costs@, at@),
{
    let mut answers: Vec<Decision> = Vec::new();
    let mut i: usize = 0;
    while i < limiters.len()
        invariant
            i <= limiters@.len(),
            all_ready(limiters@, at@),
            costs@.len() == limiters@.len(),
            answers@.len() == i,
            forall|j: int|
                0 <= j < i ==> #[trigger] answers@[j] == limiters@[j].peeked(costs@[j], at@[j]),
            forall|j: int|
                0 <= j < i ==> (#[trigger] answers@[j] is Acquired <==> costs@[j]
                    <= limiters@[j].tokens(at@[j])),
        decreases limiters@.len() - i,
    {
        answers.push(limiters[i].peek_at(costs[i], &at[i]));
        i += 1;
    }
    assert(answers@ =~= peeks(limiters@, costs@, at@));
    proof {
        if all_afford(limiters@, costs@, at@) {
            assert forall|j: int| 0 <= j < answers@.len() implies #[trigger] answers@[j] is Acquired by {
                assert(costs@[j] <= limiters@[j].tokens(at@[j]));
            }
        }
        if forall|j: int| 0 <= j < answers@.len() ==> #[trigger] answers@[j] is Acquired {
            assert forall|j: int| 0 <= j < limiters@.len() implies costs@[j]
                <= #[trigger] limiters@[j].tokens(at@[j]) by {
                assert(answers@[j] is Acquired);
            }
        }
    }
    combine(&answers)
}

/// Whether `post` are `pre` with what never changes unchanged.
pub open spec fn same_kind<L: Limiter>(pre: Seq<L>, post: Seq<L>) -> bool {
    &&& post.len() == pre.len()
    &&& forall|i: int| 0 <= i < pre.len() ==> #[trigger] post[i].limit() == pre[i].limit()
    &&& forall|i: int, r: Reading|
        0 <= i < pre.len() ==> #[trigger] post[i].exact(r) == pre[i].exact(r)
    &&& forall|i: int, r: Reading|
        0 <= i < pre.len() ==> #[trigger] post[i].reads(r) == pre[i].reads(r)
    &&& forall|i: int, r: Reading|
        0 <= i < pre.len() ==> #[trigger] post[i].may_read(r) == pre[i].may_read(r)
}

/// Whether each limiter that counts exactly has given up its share of `costs`.
pub open spec fn all_charged<L: Limiter>(
    pre: Seq<L>,
    post: Seq<L>,
    costs: Seq<u32>,
    at: Seq<Reading>,
) -> bool {
    forall|i: int|
        0 <= i < pre.len() && #[trigger] pre[i].exact(at[i]) ==> post[i].tokens(at[i]) == pre[i].tokens(
            at[i],
        ) - costs[i]
}

/// Whether a grant of `cost` tokens at `at` left `post` with no more than `pre` from then on, and
/// if it counts exactly, with no more than `cost` tokens less.
pub open spec fn lasts<L: Limiter>(pre: L, post: L, cost: u32, at: Reading) -> bool {
    &&& forall|r: Reading|
        not_before(at, r) && pre.reads(r) ==> #[trigger] post.tokens(r) <= pre.tokens(r)
    &&& pre.exact(at) ==> forall|r: Reading|
        not_before(at, r) && pre.reads(r) ==> pre.tokens(r) <= #[trigger] post.tokens(r) + cost
}

/// Whether what never changes of a limiter is the same in `pre` and `post`.
pub open spec fn same_nature<L: Limiter>(pre: L, post: L) -> bool {
    &&& post.limit() == pre.limit()
    &&& forall|r: Reading| #[trigger] post.exact(r) == pre.exact(r)
    &&& forall|r: Reading| #[trigger] post.reads(r) == pre.reads(r)
    &&& forall|r: Reading| #[trigger] post.may_read(r) == pre.may_read(r)
}

/// Whether `post` holds what `pre` does from `at` on.
pub open spec fn unmoved<L: Limiter>(pre: L, post: L, at: Reading) -> bool {
    forall|r: Reading|
        not_before(at, r) && pre.reads(r) ==> #[trigger] post.tokens(r) == pre.tokens(r)
}

/// Whether what each limiter gave up at `at` is what it is short of from then on.
pub open spec fn all_last<L: Limiter>(
    pre: Seq<L>,
    post: Seq<L>,
    costs: Seq<u32>,
    at: Seq<Reading>,
) -> bool {
    forall|i: int| 0 <= i < pre.len() ==> lasts(pre[i], #[trigger] post[i], costs[i], at[i])
}

/// Takes from each of `limiters` its share of `costs`, or from none of them.
pub fn acquire_all<L: Limiter>(
    limiters: &mut Vec<L>,
    costs: &Vec<u32>,
    at: &Vec<Reading>,
) -> (answer: Decision)
    requires
        all_ready(old(limiters)@, at@),
        costs@.len() == old(limiters)@.len(),
    ensures
        all_ready(final(limiters)@, at@),
        same_kind(old(limiters)@, final(limiters)@),
        answer == combined(peeks(old(limiters)@, costs@, at@)),
        answer is Acquired <==> all_afford(old(limiters)@, costs@, at@),
        answer is Acquired ==> all_charged(old(limiters)@, final(limiters)@, costs@, at@),
        answer is Acquired ==> all_last(old(limiters)@, final(limiters)@, costs@, at@),
        answer !is Acquired ==> final(limiters)@ == old(limiters)@,
{
    match peek_all(limiters, costs, at) {
        Decision::Acquired => {},
        other => {
            return other;
        },
    }
    let mut i: usize = 0;
    while i < limiters.len()
        invariant
            i <= limiters@.len(),
            all_ready(limiters@, at@),
            costs@.len() == limiters@.len(),
            same_kind(old(limiters)@, limiters@),
            all_afford(old(limiters)@, costs@, at@),
            forall|j: int|
                0 <= j < i && #[trigger] old(limiters)@[j].exact(at@[j]) ==> limiters@[j].tokens(at@[j])
                    == old(limiters)@[j].tokens(at@[j]) - costs@[j],
            forall|j: int|
                0 <= j < i ==> lasts(
                    old(limiters)@[j],
                    #[trigger] limiters@[j],
                    costs@[j],
                    at@[j],
                ),
            forall|j: int| i <= j < limiters@.len() ==> #[trigger] limiters@[j] == old(limiters)@[j],
            combined(peeks(old(limiters)@, costs@, at@)) is Acquired,
        decreases limiters@.len() - i,
    {
        assert(limiters@[i as int] == old(limiters)@[i as int]);
        assert(costs@[i as int] <= old(limiters)@[i as int].tokens(at@[i as int]));
        match limiters[i].acquire_cost_at(costs[i], &at[i]) {
            Decision::Acquired => {},
            other => {
                return other;
            },
        }
        i += 1;
    }
    Decision::Acquired
}

/// The tokens granted in all, of requests for `costs` that got `answers`.
pub open spec fn granted_in_all(costs: Seq<u32>, answers: Seq<Decision>) -> nat
    decreases costs.len(),
{
    if costs.len() == 0 || answers.len() != costs.len() {
        0
    } else {
        granted_in_all(costs.drop_last(), answers.drop_last()) + if answers.last() is Acquired {
            costs.last() as nat
        } else {
            0nat
        }
    }
}

/// Whether requests for `costs` that got `answers` were granted exactly when the tokens on hand
/// sufficed, and took `tokens` down by what they got: `tokens[i]` are on hand before request `i`.
pub open spec fn pays(tokens: Seq<int>, costs: Seq<u32>, answers: Seq<Decision>) -> bool {
    &&& tokens.len() == costs.len() + 1
    &&& answers.len() == costs.len()
    &&& forall|i: int| 0 <= i < costs.len() ==> #[trigger] pays_once(tokens, costs, answers, i)
}

/// Whether request number `i` was granted exactly when the tokens on hand sufficed, and took its
/// cost if so.
pub open spec fn pays_once(
    tokens: Seq<int>,
    costs: Seq<u32>,
    answers: Seq<Decision>,
    i: int,
) -> bool {
    &&& answers[i] is Acquired <==> costs[i] <= tokens[i]
    &&& tokens[i + 1] == tokens[i] - if answers[i] is Acquired {
        costs[i] as int
    } else {
        0int
    }
}

/// What is granted and what is left make up what was on hand.
pub proof fn lemma_grants_add_up(tokens: Seq<int>, costs: Seq<u32>, answers: Seq<Decision>)
    requires
        pays(tokens, costs, answers),
    ensures
        granted_in_all(costs, answers) + tokens.last() == tokens[0],
    decreases costs.len(),
{
    if costs.len() > 0 {
        let n = costs.len() - 1;
        let t = tokens.drop_last();
        let c = costs.drop_last();
        let a = answers.drop_last();
        assert(pays_once(tokens, costs, answers, n));
        assert forall|i: int| 0 <= i < c.len() implies #[trigger] pays_once(t, c, a, i) by {
            assert(pays_once(tokens, costs, answers, i));
        }
        lemma_grants_add_up(t, c, a);
    }
}

/// Requests for one token each are granted until the tokens on hand are gone, and then no more.
pub proof fn lemma_single_grants_stop_at_empty(
    tokens: Seq<int>,
    costs: Seq<u32>,
    answers: Seq<Decision>,
)
    requires
        pays(tokens, costs, answers),
        tokens[0] >= 0,
        forall|i: int| 0 <= i < costs.len() ==> #[trigger] costs[i] == 1,
    ensures
        granted_in_all(costs, answers) == min_int(costs.len() as int, tokens[0]),
        tokens.last() >= 0,
    decreases costs.len(),
{
    lemma_grants_add_up(tokens, costs, answers);
    if costs.len() > 0 {
        let n = costs.len() - 1;
        let t = tokens.drop_last();
        let c = costs.drop_last();
        let a = answers.drop_last();
        assert(pays_once(tokens, costs, answers, n));
        assert forall|i: int| 0 <= i < c.len() implies #[trigger] pays_once(t, c, a, i) by {
            assert(pays_once(tokens, costs, answers, i));
        }
        assert forall|i: int| 0 <= i < c.len() implies #[trigger] c[i] == 1 by {
            assert(costs[i] == 1);
        }
        lemma_single_grants_stop_at_empty(t, c, a);
        assert(costs[n] == 1);
    }
}

/// Whether a request for `cost` tokens at `at` that got `answer` turned the limiter `pre` into
/// `post`.
pub open spec fn is_request<L: Limiter>(
    pre: L,
    post: L,
    cost: u32,
    at: Reading,
    answer: Decision,
) -> bool {
    &&& post.exact(at) == pre.exact(at)
    &&& answer is Acquired <==> cost <= pre.tokens(at)
    &&& answer is Acquired && pre.exact(at) ==> post.tokens(at) == pre.tokens(at) - cost
    &&& answer !is Acquired ==> post.tokens(at) == pre.tokens(at)
}

/// A limiter never grants more than it holds: while its clocks stand still, what requests get in
/// all and what is left make up what was on hand; and requests for one token each are granted
/// until that is gone.
pub proof fn lemma_never_over_grants<L: Limiter>(
    states: Seq<L>,
    costs: Seq<u32>,
    answers: Seq<Decision>,
    at: Reading,
)
    requires
        states.len() == costs.len() + 1,
        answers.len() == costs.len(),
        states[0].exact(at),
        forall|i: int|
            0 <= i < costs.len() ==> is_request(
                #[trigger] states[i],
                states[i + 1],
                costs[i],
                at,
                answers[i],
            ),
    ensures
        granted_in_all(costs, answers) + states.last().tokens(at) == states[0].tokens(at),
        (forall|i: int| 0 <= i < costs.len() ==> #[trigger] costs[i] == 1) ==> granted_in_all(
            costs,
            answers,
        ) == min_int(costs.len() as int, states[0].tokens(at) as int),
{
    let tokens = Seq::new(states.len(), |i: int| states[i].tokens(at) as int);
    lemma_stays_exact(states, costs, answers, at);
    assert forall|i: int| 0 <= i < costs.len() implies #[trigger] pays_once(
        tokens,
        costs,
        answers,
        i,
    ) by {
        assert(is_request(states[i], states[i + 1], costs[i], at, answers[i]));
        assert(states[i].exact(at));
    }
    lemma_grants_add_up(tokens, costs, answers);
    if forall|i: int| 0 <= i < costs.len() ==> #[trigger] costs[i] == 1 {
        lemma_single_grants_stop_at_empty(tokens, costs, answers);
    }
}

proof fn lemma_stays_exact<L: Limiter>(
    states: Seq<L>,
    costs: Seq<u32>,
    answers: Seq<Decision>,
    at: Reading,
)
    requires
        states.len() == costs.len() + 1,
        answers.len() == costs.len(),
        states[0].exact(at),
        forall|i: int|
            0 <= i < costs.len() ==> is_request(
                #[trigger] states[i],
                states[i + 1],
                costs[i],
                at,
                answers[i],
            ),
    ensures
        forall|i: int| 0 <= i < states.len() ==> #[trigger] states[i].exact(at),
    decreases states.len(),
{
    if costs.len() > 0 {
        let s = states.drop_last();
        let c = costs.drop_last();
        let a = answers.drop_last();
        assert forall|i: int| 0 <= i < c.len() implies is_request(
            #[trigger] s[i],
            s[i + 1],
            c[i],
            at,
            a[i],
        ) by {
            assert(is_request(states[i], states[i + 1], costs[i], at, answers[i]));
        }
        lemma_stays_exact(s, c, a, at);
        let n = costs.len() - 1;
        assert(is_request(states[n], states[n + 1], costs[n], at, answers[n]));
        assert(s[n].exact(at));
        assert forall|i: int| 0 <= i < states.len() implies #[trigger] states[i].exact(at) by {
            if i < s.len() {
                assert(s[i].exact(at));
            }
        }
    }
}

/// Several limiters grant a request together exactly if each of them does, refuse it for good
/// exactly if one of them does, and otherwise ask for a wait that is enough for each and the
/// shortest such.
pub proof fn lemma_answers_are_combined(answers: Seq<Decision>)
    ensures
        combined(answers) is Acquired <==> forall|i: int|
            0 <= i < answers.len() ==> #[trigger] answers[i] is Acquired,
        combined(answers) is Impossible <==> exists|i: int|
            0 <= i < answers.len() && #[trigger] answers[i] is Impossible,
        combined(answers) matches Decision::Retry { after } ==> {
            &&& forall|i: int|
                0 <= i < answers.len() ==> (#[trigger] answers[i] matches Decision::Retry {
                    after: each,
                } ==> each@ <= after@)
            &&& exists|i: int| 0 <= i < answers.len() && #[trigger] answers[i] == combined(answers)
        },
{
    lemma_longest_wait(answers);
    if combined(answers) is Acquired {
        assert forall|i: int| 0 <= i < answers.len() implies #[trigger] answers[i] is Acquired by {
            assert(!(answers[i] is Impossible) && !(answers[i] is Retry));
        }
    }
}

proof fn lemma_longest_wait(answers: Seq<Decision>)
    ensures
        forall|i: int|
            0 <= i < answers.len() ==> (#[trigger] answers[i] matches Decision::Retry { after }
                ==> after@ <= longest_wait(answers)@),
        (exists|i: int| 0 <= i < answers.len() && #[trigger] answers[i] is Retry) ==> exists|i: int|
            0 <= i < answers.len() && #[trigger] answers[i] == (Decision::Retry {
                after: longest_wait(answers),
            }),
        (forall|i: int| 0 <= i < answers.len() ==> !(#[trigger] answers[i] is Retry))
            ==> longest_wait(answers)@ == 0,
    decreases answers.len(),
{
    if answers.len() > 0 {
        let rest = answers.drop_last();
        let last = answers.len() - 1;
        lemma_longest_wait(rest);
        assert forall|i: int| 0 <= i < answers.len() implies (#[trigger] answers[i] matches Decision::Retry {
            after,
        } ==> after@ <= longest_wait(answers)@) by {
            if i < last {
                assert(rest[i] == answers[i]);
            }
        }
        if exists|i: int| 0 <= i < answers.len() && #[trigger] answers[i] is Retry {
            if answers[last] == (Decision::Retry { after: longest_wait(answers) }) {
            } else {
                assert(longest_wait(answers) == longest_wait(rest));
                let i = choose|i: int| 0 <= i < answers.len() && #[trigger] answers[i] is Retry;
                if i < last {
                    assert(rest[i] is Retry);
                } else if forall|j: int| 0 <= j < rest.len() ==> !(#[trigger] rest[j] is Retry) {
                    assert(longest_wait(rest)@ == 0);
                    assert(false);
                }
                let j = choose|j: int|
                    0 <= j < rest.len() && #[trigger] rest[j] == (Decision::Retry {
                        after: longest_wait(rest),
                    });
                assert(answers[j] == rest[j]);
            }
        } else {
            assert forall|i: int| 0 <= i < rest.len() implies !(#[trigger] rest[i] is Retry) by {
                assert(rest[i] == answers[i]);
            }
            assert(!(answers[last] is Retry));
        }
    }
}

/// The least of some values is one of them.
pub proof fn lemma_least_is_one(values: Seq<u32>) -> (i: int)
    requires
        values.len() > 0,
    ensures
        0 <= i < values.len(),
        values[i] == least(values),
    decreases values.len(),
{
    let rest = values.drop_last();
    let last = values.len() - 1;
    if rest.len() == 0 {
        assert(least(rest) == u32::MAX);
        last
    } else {
        let i = lemma_least_is_one(rest);
        assert(rest[i] == values[i]);
        if values.last() < least(rest) {
            last
        } else {
            i
        }
    }
}

} // verus!
