//! A bounded queue of requests in front of a limiter.
//!
//! Waiters are served by priority, then by whose key was served least recently, then in the order
//! they came. A full queue turns requests away or evicts a waiter, as its policy says.

use vstd::prelude::*;

use crate::clock::{may_be_now, reading_of, Clock, SystemClock};
use crate::decision::Decision;
use crate::error::ThrottleError;
use crate::key::Key;
use crate::limiter::{
    lasts, lemma_not_before_itself, same_nature, unmoved, Limiter, Reading,
};
use crate::step::Step;
use crate::time::{max_int, millis_of, min_int, span, Duration};

verus! {

/// What a full queue does with a new request.
#[non_exhaustive]
#[derive(Debug, Clone, Copy, PartialEq, Eq, Default, Structural)]
pub enum Overflow {
    /// Turn the new request away.
    #[default]
    Reject,
    /// Evict the oldest waiter to make room.
    DropOldest,
    /// Evict the waiter of lowest priority to make room, unless the new request does not outrank
    /// it.
    DropLowestPriority,
}

/// A queued request.
pub struct Waiter<K> {
    /// The order in which it came, and its name.
    pub seq: u64,
    /// Higher is served first.
    pub priority: u32,
    /// When it gives up, in milliseconds, if ever.
    pub deadline_ms: Option<u64>,
    /// The key that turns are shared among.
    pub key: K,
}

/// When a key was last served.
pub struct Served<K> {
    /// The key.
    pub key: K,
    /// The turn in which it was served.
    pub stamp: u64,
}

/// The turn in which `key` was last served, zero if never.
pub open spec fn stamp_of<K: Key>(served: Seq<Served<K>>, key: K::V) -> u64
    decreases served.len(),
{
    if served.len() == 0 {
        0
    } else if served.last().key@ == key {
        served.last().stamp
    } else {
        stamp_of(served.drop_last(), key)
    }
}

/// Whether `waiter` has not given up at `now_ms`.
pub open spec fn patient<K>(waiter: Waiter<K>, now_ms: u64) -> bool {
    match waiter.deadline_ms {
        Some(deadline) => now_ms < deadline,
        None => true,
    }
}

/// Whether `a` is served before `b`: the higher priority, then the key served least recently, then
/// the one that came first.
pub open spec fn goes_before<K: Key>(
    a: Waiter<K>,
    b: Waiter<K>,
    served: Seq<Served<K>>,
) -> bool {
    let turn_a = stamp_of(served, a.key@);
    let turn_b = stamp_of(served, b.key@);
    ||| a.priority > b.priority
    ||| a.priority == b.priority && turn_a < turn_b
    ||| a.priority == b.priority && turn_a == turn_b && a.seq < b.seq
}

/// Whether the waiter at `i` is the one to be served at `now_ms`.
pub open spec fn is_next<K: Key>(
    waiters: Seq<Waiter<K>>,
    served: Seq<Served<K>>,
    now_ms: u64,
    i: int,
) -> bool {
    &&& 0 <= i < waiters.len()
    &&& patient(waiters[i], now_ms)
    &&& forall|j: int|
        0 <= j < waiters.len() && j != i && patient(#[trigger] waiters[j], now_ms) ==> goes_before(
            waiters[i],
            waiters[j],
            served,
        )
}

/// Whether the waiter at `i` has the lowest priority, the newest of those that do.
pub open spec fn is_weakest<K>(waiters: Seq<Waiter<K>>, i: int) -> bool {
    &&& 0 <= i < waiters.len()
    &&& forall|j: int|
        0 <= j < waiters.len() && j != i ==> waiters[i].priority < #[trigger] waiters[j].priority || (
        waiters[i].priority == waiters[j].priority && j < i)
}

/// The waiters that have not given up at `now_ms`.
pub open spec fn still_patient<K>(waiters: Seq<Waiter<K>>, now_ms: u64) -> Seq<Waiter<K>>
    decreases waiters.len(),
{
    if waiters.len() == 0 {
        waiters
    } else {
        let rest = still_patient(waiters.drop_last(), now_ms);
        if patient(waiters.last(), now_ms) {
            rest.push(waiters.last())
        } else {
            rest
        }
    }
}

/// Whether the waiters stand in the order they came.
pub open spec fn in_order<K>(waiters: Seq<Waiter<K>>) -> bool {
    forall|i: int, j: int|
        0 <= i < j < waiters.len() ==> (#[trigger] waiters[i]).seq < (#[trigger] waiters[j]).seq
}

proof fn lemma_still_patient<K>(waiters: Seq<Waiter<K>>, now_ms: u64)
    requires
        in_order(waiters),
    ensures
        in_order(still_patient(waiters, now_ms)),
        still_patient(waiters, now_ms).len() <= waiters.len(),
        forall|i: int|
            0 <= i < still_patient(waiters, now_ms).len() ==> waiters.contains(
                #[trigger] still_patient(waiters, now_ms)[i],
            ) && patient(still_patient(waiters, now_ms)[i], now_ms),
    decreases waiters.len(),
{
    if waiters.len() > 0 {
        let front = waiters.drop_last();
        lemma_still_patient(front, now_ms);
        let rest = still_patient(front, now_ms);
        let all = still_patient(waiters, now_ms);
        assert forall|i: int| 0 <= i < all.len() implies waiters.contains(#[trigger] all[i])
            && patient(all[i], now_ms) by {
            if i < rest.len() {
                assert(front.contains(rest[i]));
                let k = choose|k: int| 0 <= k < front.len() && front[k] == rest[i];
                assert(waiters[k] == all[i]);
            } else {
                assert(waiters[waiters.len() - 1] == all[i]);
            }
        }
        assert forall|i: int, j: int| 0 <= i < j < all.len() implies (#[trigger] all[i]).seq < (
        #[trigger] all[j]).seq by {
            if j == rest.len() {
                assert(front.contains(rest[i]));
                let k = choose|k: int| 0 <= k < front.len() && front[k] == rest[i];
                assert(waiters[k].seq < waiters[waiters.len() - 1].seq);
            } else {
                assert(rest[i].seq < rest[j].seq);
            }
        }
    }
}

/// The waiters of a queue and whose turn it is.
pub struct State<K> {
    waiters: Vec<Waiter<K>>,
    last_served: Vec<Served<K>>,
    service_seq: u64,
    next_seq: u64,
    evicted: Vec<u64>,
}

impl<K: Key> State<K> {
    /// The waiters, in the order they came.
    pub closed spec fn waiters(&self) -> Seq<Waiter<K>> {
        self.waiters@
    }

    /// When each key was last served.
    pub closed spec fn served(&self) -> Seq<Served<K>> {
        self.last_served@
    }

    /// How many turns have been served.
    pub closed spec fn turns(&self) -> u64 {
        self.service_seq
    }

    /// The name of the next waiter.
    pub closed spec fn next_name(&self) -> u64 {
        self.next_seq
    }

    /// The waiters that were evicted and have not heard of it.
    pub closed spec fn evicted(&self) -> Seq<u64> {
        self.evicted@
    }

    /// The invariant: waiters stand in the order they came, and no key was served in a turn to
    /// come.
    pub closed spec fn valid(&self) -> bool {
        &&& in_order(self.waiters@)
        &&& forall|i: int| 0 <= i < self.waiters@.len() ==> (#[trigger] self.waiters@[i]).seq < self.next_seq
        &&& forall|i: int|
            0 <= i < self.last_served@.len() ==> (#[trigger] self.last_served@[i]).stamp
                <= self.service_seq
        &&& forall|i: int, j: int|
            0 <= i < j < self.last_served@.len() ==> (#[trigger] self.last_served@[i]).key@ != (
            #[trigger] self.last_served@[j]).key@
    }

    /// A queue state with no waiters.
    pub fn new() -> (state: Self)
        ensures
            state.valid(),
            state.waiters().len() == 0,
            state.served().len() == 0,
            state.turns() == 0,
            state.next_name() == 0,
            state.evicted().len() == 0,
    {
        State {
            waiters: Vec::new(),
            last_served: Vec::new(),
            service_seq: 0,
            next_seq: 0,
            evicted: Vec::new(),
        }
    }

    /// The number of waiters.
    pub fn len(&self) -> (n: usize)
        ensures
            n == self.waiters().len(),
    {
        self.waiters.len()
    }

    /// Whether `waiter` has not given up at `now_ms`.
    fn is_patient(waiter: &Waiter<K>, now_ms: u64) -> (yes: bool)
        ensures
            yes == patient(*waiter, now_ms),
    {
        match waiter.deadline_ms {
            Some(deadline) => now_ms < deadline,
            None => true,
        }
    }

    /// Removes the waiters that have given up at `now_ms`.
    pub fn prune_expired(&mut self, now_ms: u64)
        requires
            old(self).valid(),
        ensures
            final(self).valid(),
            final(self).waiters() == still_patient(old(self).waiters(), now_ms),
            final(self).served() == old(self).served(),
            final(self).turns() == old(self).turns(),
            final(self).next_name() == old(self).next_name(),
            final(self).evicted() == old(self).evicted(),
    {
        let ghost all = self.waiters@;
        let mut seen: Ghost<int> = Ghost(0);
        let mut kept: usize = 0;
        assert(all.take(0) =~= Seq::<Waiter<K>>::empty());
        assert(all.skip(0) =~= all);
        while kept < self.waiters.len()
            invariant
                0 <= seen@ <= all.len(),
                kept == still_patient(all.take(seen@), now_ms).len(),
                self.waiters@ == still_patient(all.take(seen@), now_ms) + all.skip(seen@),
                self.last_served == old(self).last_served,
                self.service_seq == old(self).service_seq,
                self.next_seq == old(self).next_seq,
                self.evicted == old(self).evicted,
            decreases self.waiters@.len() - kept,
        {
            let ghost front = still_patient(all.take(seen@), now_ms);
            assert(all.take(seen@ + 1).drop_last() =~= all.take(seen@));
            assert(self.waiters@[kept as int] == all[seen@]);
            if Self::is_patient(&self.waiters[kept], now_ms) {
                kept += 1;
                assert(front.push(all[seen@]) + all.skip(seen@ + 1) =~= front + all.skip(seen@));
            } else {
                let _ = self.waiters.remove(kept);
                assert(self.waiters@ =~= front + all.skip(seen@ + 1));
            }
            seen = Ghost(seen@ + 1);
        }
        proof {
            assert(self.waiters@.len() == kept);
            assert(all.skip(seen@).len() == 0);
            assert(all.take(seen@) =~= all);
            assert(self.waiters@ =~= still_patient(all, now_ms));
            lemma_still_patient(all, now_ms);
            assert forall|i: int| 0 <= i < self.waiters@.len() implies (#[trigger] self.waiters@[i]).seq
                < self.next_seq by {
                assert(all.contains(self.waiters@[i]));
            }
        }
    }

    /// The turn in which `key` was last served, zero if never.
    fn recency(&self, key: &K) -> (stamp: u64)
        ensures
            stamp == stamp_of(self.served(), key@),
    {
        let mut n: usize = self.last_served.len();
        assert(self.last_served@.take(n as int) =~= self.last_served@);
        while n > 0
            invariant
                n <= self.last_served@.len(),
                stamp_of(self.last_served@, key@) == stamp_of(
                    self.last_served@.take(n as int),
                    key@,
                ),
            decreases n,
        {
            let ghost front = self.last_served@.take(n as int);
            assert(front.drop_last() =~= self.last_served@.take(n - 1));
            assert(front.last() == self.last_served@[n - 1]);
            if self.last_served[n - 1].key.same(key) {
                return self.last_served[n - 1].stamp;
            }
            n -= 1;
        }
        0
    }

    /// Whether the waiter at `a` is served before the one at `b`.
    fn precedes(&self, a: usize, b: usize) -> (yes: bool)
        requires
            a < self.waiters().len(),
            b < self.waiters().len(),
        ensures
            yes == goes_before(self.waiters()[a as int], self.waiters()[b as int], self.served()),
    {
        let first = &self.waiters[a];
        let second = &self.waiters[b];
        if first.priority != second.priority {
            return first.priority > second.priority;
        }
        let turn_a: u64 = self.recency(&first.key);
        let turn_b: u64 = self.recency(&second.key);
        if turn_a != turn_b {
            return turn_a < turn_b;
        }
        first.seq < second.seq
    }

    /// Where the waiter to be served at `now_ms` stands.
    fn next_index(&self, now_ms: u64) -> (found: Option<usize>)
        requires
            self.valid(),
        ensures
            match found {
                Some(i) => is_next(self.waiters(), self.served(), now_ms, i as int),
                None => forall|j: int|
                    0 <= j < self.waiters().len() ==> !patient(
                        #[trigger] self.waiters()[j],
                        now_ms,
                    ),
            },
    {
        let mut best: Option<usize> = None;
        let mut i: usize = 0;
        while i < self.waiters.len()
            invariant
                i <= self.waiters@.len(),
                self.valid(),
                match best {
                    Some(b) => b < i && patient(self.waiters@[b as int], now_ms) && forall|j: int|
                        0 <= j < i && j != b && patient(#[trigger] self.waiters@[j], now_ms)
                            ==> goes_before(
                            self.waiters@[b as int],
                            self.waiters@[j],
                            self.last_served@,
                        ),
                    None => forall|j: int|
                        0 <= j < i ==> !patient(#[trigger] self.waiters@[j], now_ms),
                },
            decreases self.waiters@.len() - i,
        {
            if Self::is_patient(&self.waiters[i], now_ms) {
                best = match best {
                    None => Some(i),
                    Some(b) => {
                        assert(self.waiters@[b as int].seq < self.waiters@[i as int].seq);
                        if self.precedes(i, b) {
                            Some(i)
                        } else {
                            Some(b)
                        }
                    },
                };
            }
            i += 1;
        }
        best
    }

    /// The name of the waiter to be served at `now_ms`: of those that have not given up, the one
    /// of highest priority, then whose key was served least recently, then that came first.
    pub fn winner(&self, now_ms: u64) -> (name: Option<u64>)
        requires
            self.valid(),
        ensures
            match name {
                Some(id) => exists|i: int| #[trigger]
                    is_next(self.waiters(), self.served(), now_ms, i) && self.waiters()[i].seq == id,
                None => forall|j: int|
                    0 <= j < self.waiters().len() ==> !patient(
                        #[trigger] self.waiters()[j],
                        now_ms,
                    ),
            },
    {
        match self.next_index(now_ms) {
            Some(i) => Some(self.waiters[i].seq),
            None => None,
        }
    }

    /// Where the waiter named `id` stands.
    fn find(&self, id: u64) -> (found: Option<usize>)
        ensures
            match found {
                Some(i) => i < self.waiters().len() && self.waiters()[i as int].seq == id,
                None => !named(self.waiters(), id),
            },
    {
        let mut i: usize = 0;
        while i < self.waiters.len()
            invariant
                i <= self.waiters@.len(),
                forall|j: int| 0 <= j < i ==> (#[trigger] self.waiters@[j]).seq != id,
            decreases self.waiters@.len() - i,
        {
            if self.waiters[i].seq == id {
                return Some(i);
            }
            i += 1;
        }
        None
    }

    /// Records that `key` is served in the present turn.
    fn note_served(&mut self, key: K)
        requires
            old(self).valid(),
        ensures
            final(self).valid(),
            final(self).waiters() == old(self).waiters(),
            final(self).turns() == old(self).turns(),
            final(self).next_name() == old(self).next_name(),
            final(self).evicted() == old(self).evicted(),
            forall|k: K::V| #[trigger]
                stamp_of(final(self).served(), k) == if k == key@ {
                    old(self).turns()
                } else {
                    stamp_of(old(self).served(), k)
                },
    {
        let ghost before = self.last_served@;
        let mut i: usize = 0;
        while i < self.last_served.len() && !self.last_served[i].key.same(&key)
            invariant
                i <= self.last_served@.len(),
                forall|j: int| 0 <= j < i ==> (#[trigger] self.last_served@[j]).key@ != key@,
            decreases self.last_served@.len() - i,
        {
            i += 1;
        }
        if i < self.last_served.len() {
            let _ = self.last_served.remove(i);
            proof {
                assert forall|k: K::V| k != key@ implies #[trigger] stamp_of(self.last_served@, k)
                    == stamp_of(before, k) by {
                    lemma_stamp_remove(before, i as int, k);
                }
                assert forall|j: int| 0 <= j < self.last_served@.len() implies (
                #[trigger] self.last_served@[j]).key@ != key@ by {
                    if j < i {
                        assert(self.last_served@[j] == before[j]);
                    } else {
                        assert(self.last_served@[j] == before[j + 1]);
                        assert(before[i as int].key@ != before[j + 1].key@);
                    }
                }
            }
        }
        let ghost rest = self.last_served@;
        let stamp: u64 = self.service_seq;
        self.last_served.push(Served { key, stamp });
        proof {
            assert(self.last_served@.drop_last() =~= rest);
            assert forall|k: K::V| #[trigger]
                stamp_of(self.served(), k) == if k == key@ {
                    stamp
                } else {
                    stamp_of(old(self).served(), k)
                } by {
                assert(self.last_served@.last().key@ == key@);
                assert(k != key@ ==> stamp_of(rest, k) == stamp_of(before, k));
            }
        }
    }

    /// Serves the waiter named `id`: it leaves, and its key becomes the one served last.
    pub fn serve(&mut self, id: u64)
        requires
            old(self).valid(),
            old(self).turns() < u64::MAX,
        ensures
            final(self).valid(),
            final(self).next_name() == old(self).next_name(),
            final(self).evicted() == old(self).evicted(),
            !named(old(self).waiters(), id) ==> *final(self) == *old(self),
            forall|i: int|
                0 <= i < old(self).waiters().len() && (#[trigger] old(self).waiters()[i]).seq == id
                    ==> old(self).gave_turn(final(self), i),
    {
        match self.find(id) {
            Some(i) => {
                let waiter = self.waiters.remove(i);
                self.service_seq = self.service_seq + 1;
                self.note_served(waiter.key);
            },
            None => {},
        }
    }

    /// Whether serving the waiter at `i` turns `self` into `post`.
    pub open spec fn gave_turn(&self, post: &Self, i: int) -> bool {
        &&& post.waiters() == self.waiters().remove(i)
        &&& post.turns() == self.turns() + 1
        &&& forall|k: K::V| #[trigger]
            stamp_of(post.served(), k) == if k == self.waiters()[i].key@ {
                post.turns()
            } else {
                stamp_of(self.served(), k)
            }
    }

    /// Adds a waiter, and gives its name.
    pub fn insert(&mut self, priority: u32, deadline_ms: Option<u64>, key: K) -> (id: u64)
        requires
            old(self).valid(),
            old(self).next_name() < u64::MAX,
        ensures
            final(self).valid(),
            id == old(self).next_name(),
            final(self).waiters() == old(self).waiters().push(
                Waiter { seq: id, priority, deadline_ms, key },
            ),
            final(self).next_name() == id + 1,
            final(self).served() == old(self).served(),
            final(self).turns() == old(self).turns(),
            final(self).evicted() == old(self).evicted(),
    {
        let id: u64 = self.next_seq;
        self.next_seq = id + 1;
        self.waiters.push(Waiter { seq: id, priority, deadline_ms, key });
        id
    }

    /// The name of the waiter that came first.
    pub fn oldest(&self) -> (id: Option<u64>)
        requires
            self.valid(),
        ensures
            match id {
                Some(id) => self.waiters().len() > 0 && id == self.waiters()[0].seq && forall|
                    j: int,
                |
                    0 <= j < self.waiters().len() ==> id <= (#[trigger] self.waiters()[j]).seq,
                None => self.waiters().len() == 0,
            },
    {
        if self.waiters.len() == 0 {
            None
        } else {
            Some(self.waiters[0].seq)
        }
    }

    /// Where the waiter of lowest priority stands, the newest of those.
    fn weakest_index(&self) -> (found: Option<usize>)
        ensures
            match found {
                Some(i) => is_weakest(self.waiters(), i as int),
                None => self.waiters().len() == 0,
            },
    {
        if self.waiters.len() == 0 {
            return None;
        }
        let mut weakest: usize = 0;
        let mut i: usize = 1;
        while i < self.waiters.len()
            invariant
                weakest < i <= self.waiters@.len(),
                forall|j: int|
                    0 <= j < i && j != weakest ==> self.waiters@[weakest as int].priority < (
                    #[trigger] self.waiters@[j]).priority || (self.waiters@[weakest as int].priority
                        == self.waiters@[j].priority && j < weakest),
            decreases self.waiters@.len() - i,
        {
            if self.waiters[i].priority <= self.waiters[weakest].priority {
                weakest = i;
            }
            i += 1;
        }
        Some(weakest)
    }

    /// The name and priority of the waiter of lowest priority, the newest of those.
    pub fn weakest(&self) -> (found: Option<(u64, u32)>)
        ensures
            match found {
                Some(w) => exists|i: int| #[trigger]
                    is_weakest(self.waiters(), i) && w == (
                        self.waiters()[i].seq,
                        self.waiters()[i].priority,
                    ),
                None => self.waiters().len() == 0,
            },
    {
        match self.weakest_index() {
            Some(i) => Some((self.waiters[i].seq, self.waiters[i].priority)),
            None => None,
        }
    }

    /// Removes the waiter at `i` to make room; it is yet to hear of it.
    fn evict(&mut self, i: usize)
        requires
            old(self).valid(),
            i < old(self).waiters().len(),
        ensures
            final(self).valid(),
            final(self).waiters() == old(self).waiters().remove(i as int),
            final(self).evicted() == old(self).evicted().push(old(self).waiters()[i as int].seq),
            final(self).served() == old(self).served(),
            final(self).turns() == old(self).turns(),
            final(self).next_name() == old(self).next_name(),
    {
        let waiter = self.waiters.remove(i);
        self.evicted.push(waiter.seq);
    }

    /// Whether `post` counts as many turns and names as `self`, with the same keys served.
    pub open spec fn same_counts(&self, post: &Self) -> bool {
        &&& post.served() == self.served()
        &&& post.turns() == self.turns()
        &&& post.next_name() == self.next_name()
    }

    /// Whether of those evicted all but the one named `id` are yet to hear of it.
    pub open spec fn heard(&self, post: &Self, id: u64) -> bool {
        &&& !post.evicted().contains(id)
        &&& forall|n: u64|
            n != id ==> #[trigger] post.evicted().contains(n) == self.evicted().contains(n)
    }

    /// Whether the waiter named `id` leaving turns `self` into `post`.
    pub open spec fn left(&self, post: &Self, id: u64) -> bool {
        &&& self.same_counts(post)
        &&& self.heard(post, id)
        &&& !named(self.waiters(), id) ==> post.waiters() == self.waiters()
        &&& forall|i: int|
            0 <= i < self.waiters().len() && (#[trigger] self.waiters()[i]).seq == id
                ==> post.waiters() == self.waiters().remove(i)
    }

    /// Removes the waiter named `id`, if it is still there, with all that is kept of it.
    pub fn leave(&mut self, id: u64)
        requires
            old(self).valid(),
        ensures
            final(self).valid(),
            old(self).left(final(self), id),
    {
        match self.find(id) {
            Some(i) => {
                let _ = self.waiters.remove(i);
            },
            None => {},
        }
        let _ = self.hear_eviction(id);
    }

    /// Whether the waiter named `id` was evicted; if so it has now heard of it.
    fn hear_eviction(&mut self, id: u64) -> (was: bool)
        requires
            old(self).valid(),
        ensures
            final(self).valid(),
            final(self).waiters() == old(self).waiters(),
            old(self).same_counts(final(self)),
            was == old(self).evicted().contains(id),
            old(self).heard(final(self), id),
            !was ==> *final(self) == *old(self),
    {
        let ghost before = self.evicted@;
        let mut was = false;
        let mut i: usize = 0;
        while i < self.evicted.len()
            invariant
                i <= self.evicted@.len(),
                self.waiters == old(self).waiters,
                self.last_served == old(self).last_served,
                self.service_seq == old(self).service_seq,
                self.next_seq == old(self).next_seq,
                forall|j: int| 0 <= j < i ==> self.evicted@[j] != id,
                was ==> before.contains(id),
                !was ==> self.evicted@ == before,
                !was ==> *self == *old(self),
                forall|n: u64|
                    n != id ==> #[trigger] self.evicted@.contains(n) == before.contains(n),
            decreases self.evicted@.len() - i,
        {
            if self.evicted[i] == id {
                let ghost list = self.evicted@;
                let _ = self.evicted.remove(i);
                proof {
                    assert(was || before[i as int] == id);
                    assert forall|n: u64| n != id implies #[trigger] self.evicted@.contains(n)
                        == before.contains(n) by {
                        lemma_contains_remove(list, i as int, n);
                    }
                }
                was = true;
            } else {
                i += 1;
            }
        }
        was
    }
}

/// Whether some waiter is named `id`.
pub open spec fn named<K>(waiters: Seq<Waiter<K>>, id: u64) -> bool {
    exists|i: int| 0 <= i < waiters.len() && (#[trigger] waiters[i]).seq == id
}

proof fn lemma_contains_remove(list: Seq<u64>, i: int, n: u64)
    requires
        0 <= i < list.len(),
        n != list[i],
    ensures
        list.remove(i).contains(n) == list.contains(n),
{
    let rest = list.remove(i);
    if list.contains(n) {
        let k = choose|k: int| 0 <= k < list.len() && list[k] == n;
        if k < i {
            assert(rest[k] == n);
        } else {
            assert(rest[k - 1] == n);
        }
    }
    if rest.contains(n) {
        let k = choose|k: int| 0 <= k < rest.len() && rest[k] == n;
        if k < i {
            assert(list[k] == n);
        } else {
            assert(list[k + 1] == n);
        }
    }
}

/// Removing the record of one key leaves what is known of the others.
proof fn lemma_stamp_remove<K: Key>(served: Seq<Served<K>>, i: int, key: K::V)
    requires
        0 <= i < served.len(),
        served[i].key@ != key,
    ensures
        stamp_of(served.remove(i), key) == stamp_of(served, key),
    decreases served.len(),
{
    let rest = served.remove(i);
    if i == served.len() - 1 {
        assert(rest =~= served.drop_last());
    } else {
        assert(rest.last() == served.last());
        assert(rest.drop_last() =~= served.drop_last().remove(i));
        lemma_stamp_remove(served.drop_last(), i, key);
    }
}

/// Whether `post` is `base` with one waiter more at its end.
pub open spec fn joined<K: Key>(
    base: Seq<Waiter<K>>,
    post: Seq<Waiter<K>>,
    id: u64,
    priority: u32,
    deadline_ms: Option<u64>,
    key: K::V,
) -> bool {
    &&& post.len() == base.len() + 1
    &&& post.drop_last() == base
    &&& post.last().seq == id
    &&& post.last().priority == priority
    &&& post.last().deadline_ms == deadline_ms
    &&& post.last().key@ == key
}

impl<K: Key> State<K> {
    /// Whether asking to join at `now_ms` turns `self` into `post` with `outcome`.
    ///
    /// Waiters that have given up are gone. With room to spare the request joins. Else it is
    /// turned away, or the waiter that the policy names is evicted and the request joins.
    pub open spec fn asked_to_join(
        &self,
        post: &Self,
        now_ms: u64,
        request: (u32, Option<u64>, K::V),
        capacity: usize,
        overflow: Overflow,
        outcome: Result<u64, ThrottleError>,
    ) -> bool {
        let kept = still_patient(self.waiters(), now_ms);
        let id = self.next_name();
        &&& post.served() == self.served()
        &&& post.turns() == self.turns()
        &&& post.next_name() == if outcome is Ok {
            id + 1
        } else {
            id as int
        }
        &&& if kept.len() < capacity {
            &&& outcome == Ok::<u64, ThrottleError>(id)
            &&& joined(kept, post.waiters(), id, request.0, request.1, request.2)
            &&& post.evicted() == self.evicted()
        } else {
            match overflow {
                Overflow::Reject => turned_away(kept, self, post, outcome),
                Overflow::DropOldest => made_room(kept, 0, self, post, request, outcome),
                Overflow::DropLowestPriority => exists|i: int|
                    {
                        &&& #[trigger] is_weakest(kept, i)
                        &&& if request.0 > kept[i].priority {
                            made_room(kept, i, self, post, request, outcome)
                        } else {
                            turned_away(kept, self, post, outcome)
                        }
                    },
            }
        }
    }

    /// Asks to join the queue at `now_ms`. Gives the name of the new waiter.
    pub fn register(
        &mut self,
        now_ms: u64,
        priority: u32,
        deadline_ms: Option<u64>,
        key: &K,
        capacity: usize,
        overflow: Overflow,
    ) -> (outcome: Result<u64, ThrottleError>)
        requires
            old(self).valid(),
            old(self).next_name() < u64::MAX,
            capacity > 0,
        ensures
            final(self).valid(),
            old(self).asked_to_join(
                final(self),
                now_ms,
                (priority, deadline_ms, key@),
                capacity,
                overflow,
                outcome,
            ),
    {
        self.prune_expired(now_ms);
        let ghost kept = self.waiters();
        if self.waiters.len() < capacity {
            let id: u64 = self.insert(priority, deadline_ms, key.copied());
            assert(self.waiters().drop_last() =~= kept);
            return Ok(id);
        }
        let victim: usize = match overflow {
            Overflow::Reject => {
                return Err(ThrottleError::QueueFull);
            },
            Overflow::DropOldest => 0,
            Overflow::DropLowestPriority => match self.weakest_index() {
                Some(i) => {
                    if priority <= self.waiters[i].priority {
                        return Err(ThrottleError::QueueFull);
                    }
                    i
                },
                None => {
                    return Err(ThrottleError::QueueFull);
                },
            },
        };
        self.evict(victim);
        let ghost rest = self.waiters();
        let id: u64 = self.insert(priority, deadline_ms, key.copied());
        assert(self.waiters().drop_last() =~= rest);
        Ok(id)
    }
}

/// Whether the request was turned away, with the waiters in `kept` left waiting.
pub open spec fn turned_away<K: Key>(
    kept: Seq<Waiter<K>>,
    pre: &State<K>,
    post: &State<K>,
    outcome: Result<u64, ThrottleError>,
) -> bool {
    &&& outcome == Err::<u64, ThrottleError>(ThrottleError::QueueFull)
    &&& post.waiters() == kept
    &&& post.evicted() == pre.evicted()
}

/// Whether the waiter at `i` in `kept` was evicted and the request joined.
pub open spec fn made_room<K: Key>(
    kept: Seq<Waiter<K>>,
    i: int,
    pre: &State<K>,
    post: &State<K>,
    request: (u32, Option<u64>, K::V),
    outcome: Result<u64, ThrottleError>,
) -> bool {
    &&& outcome == Ok::<u64, ThrottleError>(pre.next_name())
    &&& joined(kept.remove(i), post.waiters(), pre.next_name(), request.0, request.1, request.2)
    &&& post.evicted() == pre.evicted().push(kept[i].seq)
}

/// A waiter's claim: its name, and when it gives up.
#[derive(Debug, Clone, Copy, PartialEq, Eq, Structural)]
pub struct Ticket {
    /// The name of the waiter.
    pub id: u64,
    /// When it gives up, in milliseconds, if ever.
    pub deadline_ms: Option<u64>,
}

/// A bounded queue with priorities, deadlines and turns shared among keys, in front of a limiter.
pub struct Queue<L, K = (), C = SystemClock> {
    inner: L,
    state: State<K>,
    capacity: usize,
    overflow: Overflow,
    clock: C,
    epoch: Duration,
}

/// `wait`, but no longer than until `deadline_ms`.
pub open spec fn capped(wait: Duration, now_ms: u64, deadline_ms: Option<u64>) -> Duration {
    match deadline_ms {
        Some(deadline) => span(
            min_int(wait@ as int, max_int(deadline - now_ms, 0) * 1_000_000) as nat,
        ),
        None => wait,
    }
}

/// `wait`, but no longer than until `deadline_ms`.
pub fn cap_to_deadline(wait: Duration, now_ms: u64, deadline_ms: Option<u64>) -> (d: Duration)
    ensures
        d == capped(wait, now_ms, deadline_ms),
{
    match deadline_ms {
        Some(deadline) => wait.shorter(Duration::from_millis(deadline.saturating_sub(now_ms))),
        None => wait,
    }
}

/// The wait of a waiter whose turn it is not: an hour.
pub open spec fn long_wait() -> Duration {
    span(3_600_000_000_000)
}

impl<L: Limiter, K: Key, C> Queue<L, K, C> {
    /// The waiters and whose turn it is.
    pub closed spec fn state(&self) -> State<K> {
        self.state
    }

    /// The limiter behind the queue.
    pub closed spec fn limiter(&self) -> L {
        self.inner
    }

    /// The most waiters the queue holds.
    pub closed spec fn room(&self) -> usize {
        self.capacity
    }

    /// What the queue does when it is full.
    pub closed spec fn policy(&self) -> Overflow {
        self.overflow
    }

    /// The reading of the clock at which the queue was made.
    pub closed spec fn started(&self) -> Duration {
        self.epoch
    }

    /// The time source of the queue.
    pub closed spec fn clock(&self) -> C {
        self.clock
    }

    /// The invariant: there is room for a waiter, and never more waiters than room.
    pub open spec fn valid(&self) -> bool {
        &&& self.state().valid()
        &&& self.limiter().valid()
        &&& self.room() > 0
        &&& self.state().waiters().len() <= self.room()
    }

    /// Whether `post` has the limits of `self`.
    pub open spec fn same_limits(&self, post: &Self) -> bool {
        &&& post.room() == self.room()
        &&& post.policy() == self.policy()
        &&& post.started() == self.started()
        &&& post.clock() == self.clock()
    }

    /// Asks to join the queue at `now_ms`. Gives the name of the new waiter.
    pub fn register_at(
        &mut self,
        now_ms: u64,
        priority: u32,
        deadline_ms: Option<u64>,
        key: &K,
    ) -> (outcome: Result<u64, ThrottleError>)
        requires
            old(self).valid(),
            old(self).state().next_name() < u64::MAX,
        ensures
            final(self).valid(),
            old(self).same_limits(final(self)),
            final(self).limiter() == old(self).limiter(),
            old(self).state().asked_to_join(
                &final(self).state(),
                now_ms,
                (priority, deadline_ms, key@),
                old(self).room(),
                old(self).policy(),
                outcome,
            ),
    {
        proof {
            lemma_still_patient_len(self.state.waiters(), now_ms);
        }
        self.state.register(now_ms, priority, deadline_ms, key, self.capacity, self.overflow)
    }

    /// Whether one check of the waiter named `id` at `now_ms` turns `self` into `post` with `step`.
    pub open spec fn polled(
        &self,
        post: &Self,
        ticket: Ticket,
        now_ms: u64,
        at: Reading,
        step: Step,
    ) -> bool {
        let overdue = match ticket.deadline_ms {
            Some(deadline) => now_ms >= deadline,
            None => false,
        };
        let state = self.state();
        if state.evicted().contains(ticket.id) {
            &&& step == Step::Failed(ThrottleError::QueueFull)
            &&& post.limiter() == self.limiter()
            &&& post.state().waiters() == state.waiters()
            &&& state.same_counts(&post.state())
            &&& state.heard(&post.state(), ticket.id)
        } else if overdue {
            &&& step == Step::Failed(ThrottleError::DeadlineExceeded)
            &&& *post == *self
        } else if exists|i: int| #[trigger]
            is_next(state.waiters(), state.served(), now_ms, i) && state.waiters()[i].seq
                == ticket.id {
            self.took_turn(post, ticket, now_ms, at, step)
        } else {
            &&& step == Step::Sleep(capped(long_wait(), now_ms, ticket.deadline_ms))
            &&& *post == *self
        }
    }

    /// Whether the waiter whose turn it is asked the limiter for a token at `at`, and `self`
    /// became `post` with `step`.
    pub open spec fn took_turn(
        &self,
        post: &Self,
        ticket: Ticket,
        now_ms: u64,
        at: Reading,
        step: Step,
    ) -> bool {
        exists|answer: Decision|
            {
                &&& #[trigger] self.limiter().answered(1, at, answer)
                &&& answer is Acquired <==> 1 <= self.limiter().tokens(at)
                &&& 1 > self.limiter().limit() ==> answer is Impossible
                &&& match answer {
                    Decision::Acquired => {
                        &&& step == Step::Granted
                        &&& post.state().next_name() == self.state().next_name()
                        &&& post.state().evicted() == self.state().evicted()
                        &&& forall|i: int|
                            0 <= i < self.state().waiters().len() && (
                            #[trigger] self.state().waiters()[i]).seq == ticket.id
                                ==> self.state().gave_turn(&post.state(), i)
                    },
                    Decision::Impossible => {
                        &&& step == Step::Failed(
                            ThrottleError::CostExceedsCapacity {
                                cost: 1,
                                capacity: self.limiter().limit(),
                            },
                        )
                        &&& post.state() == self.state()
                    },
                    Decision::Retry { after } => {
                        &&& step == Step::Sleep(capped(after, now_ms, ticket.deadline_ms))
                        &&& post.state() == self.state()
                    },
                }
                &&& answer is Acquired && self.limiter().exact(at) ==> post.limiter().tokens(at)
                    == self.limiter().tokens(at) - 1
                &&& answer is Acquired ==> lasts(self.limiter(), post.limiter(), 1, at)
                &&& answer !is Acquired ==> unmoved(self.limiter(), post.limiter(), at)
                &&& same_nature(self.limiter(), post.limiter())
            }
    }

    /// Checks on a waiter at `now_ms`: whether it was evicted, gave up, is to be served, or has to
    /// wait.
    pub fn poll_at(&mut self, ticket: Ticket, now_ms: u64, at: &Reading) -> (step: Step)
        requires
            old(self).valid(),
            old(self).limiter().reads(*at),
            old(self).state().turns() < u64::MAX,
        ensures
            final(self).valid(),
            old(self).same_limits(final(self)),
            old(self).polled(final(self), ticket, now_ms, *at, step),
    {
        if self.state.hear_eviction(ticket.id) {
            return Step::Failed(ThrottleError::QueueFull);
        }
        match ticket.deadline_ms {
            Some(deadline) => {
                if now_ms >= deadline {
                    return Step::Failed(ThrottleError::DeadlineExceeded);
                }
            },
            None => {},
        }
        let turn = match self.state.winner(now_ms) {
            Some(id) => id == ticket.id,
            None => false,
        };
        if !turn {
            proof {
                lemma_next_is_unique(self.state.waiters(), self.state.served(), now_ms);
            }
            let hour = Duration::from_secs(3600);
            return Step::Sleep(cap_to_deadline(hour, now_ms, ticket.deadline_ms));
        }
        let capacity: u32 = self.inner.capacity();
        let answer = self.inner.acquire_cost_at(1, at);
        let step = match answer {
            Decision::Acquired => {
                self.state.serve(ticket.id);
                Step::Granted
            },
            Decision::Impossible => Step::Failed(
                ThrottleError::CostExceedsCapacity { cost: 1, capacity },
            ),
            Decision::Retry { after } => Step::Sleep(
                cap_to_deadline(after, now_ms, ticket.deadline_ms),
            ),
        };
        proof {
            assert(old(self).limiter().answered(1, *at, answer));
            assert(old(self).took_turn(self, ticket, now_ms, *at, step));
        }
        step
    }
}

proof fn lemma_still_patient_len<K>(waiters: Seq<Waiter<K>>, now_ms: u64)
    ensures
        still_patient(waiters, now_ms).len() <= waiters.len(),
    decreases waiters.len(),
{
    if waiters.len() > 0 {
        lemma_still_patient_len(waiters.drop_last(), now_ms);
    }
}

/// At most one waiter is to be served.
proof fn lemma_next_is_unique<K: Key>(waiters: Seq<Waiter<K>>, served: Seq<Served<K>>, now_ms: u64)
    ensures
        forall|i: int, j: int|
            #[trigger] is_next(waiters, served, now_ms, i) && #[trigger] is_next(
                waiters,
                served,
                now_ms,
                j,
            ) ==> i == j,
{
}

/// When a request made at `now_ms` with the patience `deadline` gives up, in milliseconds.
pub open spec fn gives_up_at(now_ms: u64, deadline: Option<Duration>) -> Option<u64> {
    match deadline {
        Some(patience) => Some(min_int(now_ms + millis_of(patience), u64::MAX as int) as u64),
        None => None,
    }
}

impl Queue<crate::throttle::Throttle, ()> {
    /// Starts building a queue.
    pub fn builder() -> (builder: QueueBuilder)
        ensures
            builder.room() == 1024,
            builder.policy() == Overflow::Reject,
    {
        QueueBuilder::new()
    }
}

impl<L: Limiter, K: Key, C: Clock> Queue<L, K, C> {
    /// Milliseconds since the queue was made, at the reading `now`.
    pub open spec fn millis_at(&self, now: Duration) -> u64 {
        millis_of(span(max_int(now@ - self.started()@, 0) as nat))
    }

    /// Whether the queue's clock may show that `now_ms` milliseconds have passed since the queue
    /// was made.
    pub open spec fn shows(&self, now_ms: u64) -> bool {
        exists|now: Duration| #[trigger]
            reading_of(self.clock(), now) && now_ms == self.millis_at(now)
    }

    /// Whether the queue is empty, in front of `limiter`, with these limits.
    pub open spec fn fresh(&self, limiter: L, capacity: usize, overflow: Overflow) -> bool {
        &&& self.limiter() == limiter
        &&& self.room() == max_int(capacity as int, 1)
        &&& self.policy() == overflow
        &&& self.state().valid()
        &&& self.state().waiters().len() == 0
        &&& self.state().served().len() == 0
        &&& self.state().evicted().len() == 0
        &&& self.state().turns() == 0
        &&& self.state().next_name() == 0
    }

    fn new(inner: L, capacity: usize, overflow: Overflow, clock: C) -> (queue: Self)
        ensures
            queue.fresh(inner, capacity, overflow),
            queue.clock() == clock,
            reading_of(clock, queue.started()),
    {
        let epoch = clock.elapsed();
        let capacity: usize = if capacity == 0 {
            1
        } else {
            capacity
        };
        Queue { inner, state: State::new(), capacity, overflow, clock, epoch }
    }

    /// The queue with `clock` as the time source of its deadlines, empty.
    pub fn with_clock<D: Clock>(self, clock: D) -> (queue: Queue<L, K, D>)
        ensures
            queue.fresh(self.limiter(), self.room(), self.policy()),
            self.limiter().valid() ==> queue.valid(),
            queue.clock() == clock,
            reading_of(clock, queue.started()),
    {
        Queue::new(self.inner, self.capacity, self.overflow, clock)
    }

    /// The number of waiters.
    pub fn len(&self) -> (n: usize)
        ensures
            n == self.state().waiters().len(),
    {
        self.state.len()
    }

    /// Whether there are no waiters.
    pub fn is_empty(&self) -> (yes: bool)
        ensures
            yes == (self.state().waiters().len() == 0),
    {
        self.state.len() == 0
    }

    /// The most waiters the queue holds.
    pub fn capacity(&self) -> (n: usize)
        ensures
            n == self.room(),
    {
        self.capacity
    }

    /// How many waiters were evicted and have not heard of it.
    pub fn unheard(&self) -> (n: usize)
        ensures
            n == self.state().evicted().len(),
    {
        self.state.evicted.len()
    }

    /// The limiter behind the queue.
    pub fn inner(&self) -> (limiter: &L)
        ensures
            *limiter == self.limiter(),
    {
        &self.inner
    }

    /// Whether the queue has handed out all the names and turns that it can count.
    pub fn is_worn_out(&self) -> (yes: bool)
        ensures
            yes == (self.state().next_name() == u64::MAX || self.state().turns() == u64::MAX),
    {
        self.state.next_seq == u64::MAX || self.state.service_seq == u64::MAX
    }

    /// Milliseconds since the queue was made.
    fn now_ms(&self) -> (ms: u64)
        ensures
            self.shows(ms),
    {
        let now = self.clock.elapsed();
        assert(reading_of(self.clock(), now));
        now.saturating_sub(self.epoch).millis_saturating()
    }

    /// Whether asking to join at `now_ms` turned `self` into `post` with `outcome`. A request is
    /// its priority, how long it is ready to wait, and its key.
    pub open spec fn registered(
        &self,
        post: &Self,
        now_ms: u64,
        request: (u32, Option<Duration>, K::V),
        outcome: Result<Ticket, ThrottleError>,
    ) -> bool {
        let deadline_ms = gives_up_at(now_ms, request.1);
        let named = match outcome {
            Ok(ticket) => Ok(ticket.id),
            Err(error) => Err(error),
        };
        &&& outcome matches Ok(ticket) ==> ticket.deadline_ms == deadline_ms
        &&& self.state().asked_to_join(
            &post.state(),
            now_ms,
            (request.0, deadline_ms, request.2),
            self.room(),
            self.policy(),
            named,
        )
    }

    /// Asks to join the queue now, giving up after `deadline` if there is one.
    pub fn register(&mut self, key: &K, priority: u32, deadline: Option<Duration>) -> (outcome:
        Result<Ticket, ThrottleError>)
        requires
            old(self).valid(),
            old(self).state().next_name() < u64::MAX,
        ensures
            final(self).valid(),
            old(self).same_limits(final(self)),
            final(self).limiter() == old(self).limiter(),
            exists|now_ms: u64|
                {
                    &&& old(self).shows(now_ms)
                    &&& #[trigger] old(self).registered(
                        final(self),
                        now_ms,
                        (priority, deadline, key@),
                        outcome,
                    )
                },
    {
        let now_ms: u64 = self.now_ms();
        let deadline_ms: Option<u64> = match deadline {
            Some(patience) => Some(now_ms.saturating_add(patience.millis_saturating())),
            None => None,
        };
        assert(deadline_ms == gives_up_at(now_ms, deadline));
        let outcome = match self.register_at(now_ms, priority, deadline_ms, key) {
            Ok(id) => Ok(Ticket { id, deadline_ms }),
            Err(error) => Err(error),
        };
        assert(old(self).registered(self, now_ms, (priority, deadline, key@), outcome));
        outcome
    }

    /// Checks on a waiter now: whether it was evicted, gave up, is to be served, or has to wait.
    pub fn poll(&mut self, ticket: Ticket) -> (step: Step)
        requires
            old(self).valid(),
            old(self).state().turns() < u64::MAX,
        ensures
            final(self).valid(),
            old(self).same_limits(final(self)),
            exists|now_ms: u64, at: Reading|
                {
                    &&& old(self).shows(now_ms)
                    &&& old(self).limiter().reads(at)
                    &&& old(self).limiter().may_read(at)
                    &&& #[trigger] old(self).polled(final(self), ticket, now_ms, at, step)
                },
    {
        let now_ms: u64 = self.now_ms();
        let at = self.inner.read();
        let step = self.poll_at(ticket, now_ms, &at);
        assert(old(self).polled(self, ticket, now_ms, at, step));
        step
    }

    /// Takes a waiter out of the queue, if it is still there.
    pub fn leave(&mut self, ticket: Ticket)
        requires
            old(self).valid(),
        ensures
            final(self).valid(),
            old(self).same_limits(final(self)),
            final(self).limiter() == old(self).limiter(),
            old(self).state().left(&final(self).state(), ticket.id),
    {
        self.state.leave(ticket.id);
    }
}

/// Collects the limits of a [`Queue`].
#[derive(Debug, Clone, Copy)]
pub struct QueueBuilder {
    capacity: usize,
    overflow: Overflow,
}

impl Default for QueueBuilder {
    fn default() -> (builder: Self)
        ensures
            builder.room() == 1024,
            builder.policy() == Overflow::Reject,
    {
        QueueBuilder::new()
    }
}

impl QueueBuilder {
    /// The most waiters that the queue will hold.
    pub closed spec fn room(&self) -> usize {
        self.capacity
    }

    /// What the queue will do when it is full.
    pub closed spec fn policy(&self) -> Overflow {
        self.overflow
    }

    /// Room for 1024 waiters, and requests turned away when full.
    pub fn new() -> (builder: Self)
        ensures
            builder.room() == 1024,
            builder.policy() == Overflow::Reject,
    {
        QueueBuilder { capacity: 1024, overflow: Overflow::Reject }
    }

    /// Sets the most waiters that the queue will hold, at least one.
    pub fn capacity(self, capacity: usize) -> (builder: Self)
        ensures
            builder.room() == max_int(capacity as int, 1),
            builder.policy() == self.policy(),
    {
        let capacity: usize = if capacity == 0 {
            1
        } else {
            capacity
        };
        QueueBuilder { capacity, overflow: self.overflow }
    }

    /// Sets what the queue will do when it is full.
    pub fn overflow(self, overflow: Overflow) -> (builder: Self)
        ensures
            builder.room() == self.room(),
            builder.policy() == overflow,
    {
        QueueBuilder { capacity: self.capacity, overflow }
    }

    /// An empty queue in front of `limiter`.
    pub fn build<L: Limiter, K: Key>(self, limiter: L) -> (queue: Queue<L, K, SystemClock>)
        ensures
            queue.fresh(limiter, self.room(), self.policy()),
            limiter.valid() ==> queue.valid(),
            may_be_now(queue.clock().origin()),
            reading_of(queue.clock(), queue.started()),
    {
        Queue::new(limiter, self.capacity, self.overflow, SystemClock::new())
    }
}

/// Turns rotate among keys: once a key has been served, every waiter of the same priority with
/// another key goes before those with that key.
pub proof fn lemma_turns_rotate<K: Key>(
    pre: State<K>,
    post: State<K>,
    i: int,
    a: Waiter<K>,
    b: Waiter<K>,
)
    requires
        pre.valid(),
        0 <= i < pre.waiters().len(),
        pre.gave_turn(&post, i),
        a.priority == b.priority,
        a.key@ != pre.waiters()[i].key@,
        b.key@ == pre.waiters()[i].key@,
    ensures
        goes_before(a, b, post.served()),
{
    lemma_stamp_bound(pre.last_served@, a.key@, pre.service_seq);
    assert(stamp_of(post.served(), a.key@) == stamp_of(pre.served(), a.key@));
    assert(stamp_of(post.served(), b.key@) == post.turns());
}

proof fn lemma_stamp_bound<K: Key>(served: Seq<Served<K>>, key: K::V, bound: u64)
    requires
        forall|i: int| 0 <= i < served.len() ==> (#[trigger] served[i]).stamp <= bound,
    ensures
        stamp_of(served, key) <= bound,
    decreases served.len(),
{
    if served.len() > 0 {
        lemma_stamp_bound(served.drop_last(), key, bound);
    }
}

/// Only the waiter to be served can take a token: a check on any other waiter leaves the limiter
/// as it was and grants nothing.
pub proof fn lemma_only_the_next_is_served<L: Limiter, K: Key, C>(
    pre: Queue<L, K, C>,
    post: Queue<L, K, C>,
    ticket: Ticket,
    now_ms: u64,
    at: Reading,
    step: Step,
    i: int,
)
    requires
        pre.polled(&post, ticket, now_ms, at, step),
        is_next(pre.state().waiters(), pre.state().served(), now_ms, i),
        pre.state().waiters()[i].seq != ticket.id,
    ensures
        step !is Granted,
        post.limiter() == pre.limiter(),
        post.state().waiters() == pre.state().waiters(),
{
    lemma_next_is_unique(pre.state().waiters(), pre.state().served(), now_ms);
}

/// A waiter that has given up is never served.
pub proof fn lemma_the_late_are_not_served<L: Limiter, K: Key, C>(
    pre: Queue<L, K, C>,
    post: Queue<L, K, C>,
    ticket: Ticket,
    now_ms: u64,
    at: Reading,
    step: Step,
)
    requires
        pre.polled(&post, ticket, now_ms, at, step),
        ticket.deadline_ms matches Some(deadline) && deadline <= now_ms,
    ensures
        step is Failed,
        post.limiter() == pre.limiter(),
{
}

/// A deadline is a wait budget, counted from the call: a request that joined at `now_ms` with the
/// patience `patience` is told that it is too late only once it has waited that long, in whole
/// milliseconds, and from then on it is told so, unless it was evicted. It is never told to sleep
/// longer than what is left.
pub proof fn lemma_a_deadline_is_a_wait_budget<L: Limiter, K: Key, C: Clock>(
    pre: Queue<L, K, C>,
    joined: Queue<L, K, C>,
    now_ms: u64,
    priority: u32,
    patience: Duration,
    key: K::V,
    ticket: Ticket,
    before: Queue<L, K, C>,
    after: Queue<L, K, C>,
    later_ms: u64,
    at: Reading,
    step: Step,
)
    requires
        pre.registered(&joined, now_ms, (priority, Some(patience), key), Ok(ticket)),
        before.polled(&after, ticket, later_ms, at, step),
        later_ms < u64::MAX,
    ensures
        step == Step::Failed(ThrottleError::DeadlineExceeded) ==> later_ms - now_ms >= patience@
            / 1_000_000,
        later_ms - now_ms >= patience@ / 1_000_000 && !before.state().evicted().contains(ticket.id)
            ==> step == Step::Failed(ThrottleError::DeadlineExceeded),
        step matches Step::Sleep(d) ==> later_ms * 1_000_000 + d@ <= (now_ms + patience@ / 1_000_000)
            * 1_000_000,
{
    if later_ms - now_ms < patience@ / 1_000_000 {
        assert(ticket.deadline_ms->0 > later_ms);
    }
}

/// A request without a deadline is never told that it is too late.
pub proof fn lemma_without_a_deadline_none_is_late<L: Limiter, K: Key, C: Clock>(
    pre: Queue<L, K, C>,
    joined: Queue<L, K, C>,
    now_ms: u64,
    priority: u32,
    key: K::V,
    ticket: Ticket,
    before: Queue<L, K, C>,
    after: Queue<L, K, C>,
    later_ms: u64,
    at: Reading,
    step: Step,
)
    requires
        pre.registered(&joined, now_ms, (priority, None, key), Ok(ticket)),
        before.polled(&after, ticket, later_ms, at, step),
    ensures
        step != Step::Failed(ThrottleError::DeadlineExceeded),
{
}

/// The waiter of a request that has joined stands last, under the name of the ticket, with the
/// priority and the key of the request; and it may be served exactly as long as it has not waited
/// for its patience, in whole milliseconds.
pub proof fn lemma_a_request_joins_as_it_asked<L: Limiter, K: Key, C: Clock>(
    pre: Queue<L, K, C>,
    joined: Queue<L, K, C>,
    now_ms: u64,
    priority: u32,
    patience: Option<Duration>,
    key: K::V,
    ticket: Ticket,
    later_ms: u64,
)
    requires
        pre.registered(&joined, now_ms, (priority, patience, key), Ok(ticket)),
        later_ms < u64::MAX,
    ensures
        ({
            let waiters = joined.state().waiters();
            &&& waiters.len() > 0
            &&& waiters.last().seq == ticket.id
            &&& ticket.id == pre.state().next_name()
            &&& joined.state().next_name() == ticket.id + 1
            &&& waiters.last().priority == priority
            &&& waiters.last().key@ == key
            &&& patience is None ==> patient(waiters.last(), later_ms)
            &&& patience matches Some(p) ==> (patient(waiters.last(), later_ms) <==> later_ms
                - now_ms < p@ / 1_000_000)
        }),
{
    if let Some(p) = patience {
        assert(gives_up_at(now_ms, patience) == Some(
            min_int(now_ms + millis_of(p), u64::MAX as int) as u64,
        ));
    }
}

/// When a request asks to join at `now_ms`, a waiter is gone afterwards exactly if its deadline has
/// passed or it was evicted to make room: and at most one is evicted.
pub proof fn lemma_joining_removes_only_the_late<K: Key>(
    pre: State<K>,
    post: State<K>,
    now_ms: u64,
    request: (u32, Option<u64>, K::V),
    capacity: usize,
    overflow: Overflow,
    outcome: Result<u64, ThrottleError>,
    i: int,
)
    requires
        pre.valid(),
        pre.asked_to_join(&post, now_ms, request, capacity, overflow, outcome),
        0 <= i < pre.waiters().len(),
        !pre.evicted().contains(pre.waiters()[i].seq),
        capacity > 0,
    ensures
        ({
            let waiter = pre.waiters()[i];
            let late = waiter.deadline_ms is Some && waiter.deadline_ms->0 <= now_ms;
            &&& late ==> !named(post.waiters(), waiter.seq) && !post.evicted().contains(waiter.seq)
            &&& !late ==> (named(post.waiters(), waiter.seq) <==> !post.evicted().contains(
                waiter.seq,
            ))
            &&& overflow == Overflow::Reject ==> !post.evicted().contains(waiter.seq)
        }),
        pre.evicted().len() <= post.evicted().len() <= pre.evicted().len() + 1,
{
    let waiter = pre.waiters()[i];
    let id = waiter.seq;
    let kept = still_patient(pre.waiters(), now_ms);
    lemma_still_patient(pre.waiters(), now_ms);
    if patient(waiter, now_ms) {
        lemma_patient_are_kept(pre.waiters(), now_ms, i);
    }
    assert(named(kept, id) <==> patient(waiter, now_ms)) by {
        if named(kept, id) {
            let k = choose|k: int| 0 <= k < kept.len() && (#[trigger] kept[k]).seq == id;
            assert(pre.waiters().contains(kept[k]));
            let m = choose|m: int| 0 <= m < pre.waiters().len() && pre.waiters()[m] == kept[k];
            if m < i {
                assert(pre.waiters()[m].seq < pre.waiters()[i].seq);
            } else if m > i {
                assert(pre.waiters()[i].seq < pre.waiters()[m].seq);
            }
        }
    }
    let name = pre.next_name();
    assert(id < name);
    let j = choose|j: int|
        {
            &&& #[trigger] is_weakest(kept, j)
            &&& if request.0 > kept[j].priority {
                made_room(kept, j, &pre, &post, request, outcome)
            } else {
                turned_away(kept, &pre, &post, outcome)
            }
        };
    if kept.len() < capacity {
        lemma_joined_names(kept, post.waiters(), name, request, id);
    } else {
        let victim = if overflow == Overflow::DropOldest {
            0
        } else {
            j
        };
        if overflow != Overflow::Reject && made_room(kept, victim, &pre, &post, request, outcome) {
            lemma_named_after_removal(kept, victim, id);
            lemma_joined_names(kept.remove(victim), post.waiters(), name, request, id);
            lemma_contains_push(pre.evicted(), kept[victim].seq, id);
            if id == kept[victim].seq {
                assert(named(kept, id));
            }
        }
    }
}

proof fn lemma_contains_push(list: Seq<u64>, x: u64, n: u64)
    ensures
        list.push(x).contains(n) <==> list.contains(n) || n == x,
{
    if list.contains(n) {
        let k = choose|k: int| 0 <= k < list.len() && list[k] == n;
        assert(list.push(x)[k] == n);
    }
    if n == x {
        assert(list.push(x)[list.len() as int] == n);
    }
    if list.push(x).contains(n) && n != x {
        let k = choose|k: int| 0 <= k < list.push(x).len() && list.push(x)[k] == n;
        assert(list[k] == n);
    }
}

proof fn lemma_patient_are_kept<K>(waiters: Seq<Waiter<K>>, now_ms: u64, i: int)
    requires
        0 <= i < waiters.len(),
        patient(waiters[i], now_ms),
    ensures
        named(still_patient(waiters, now_ms), waiters[i].seq),
    decreases waiters.len(),
{
    let front = waiters.drop_last();
    let rest = still_patient(front, now_ms);
    let all = still_patient(waiters, now_ms);
    if i == front.len() {
        assert(all[rest.len() as int].seq == waiters[i].seq);
    } else {
        lemma_patient_are_kept(front, now_ms, i);
        let k = choose|k: int| 0 <= k < rest.len() && (#[trigger] rest[k]).seq == front[i].seq;
        assert(all[k] == rest[k]);
    }
}

proof fn lemma_joined_names<K: Key>(
    base: Seq<Waiter<K>>,
    post: Seq<Waiter<K>>,
    id: u64,
    request: (u32, Option<u64>, K::V),
    other: u64,
)
    requires
        joined(base, post, id, request.0, request.1, request.2),
        other != id,
    ensures
        named(post, other) <==> named(base, other),
{
    lemma_named_after_joining(base, post, id, request, other);
    if named(base, other) {
        let k = choose|k: int| 0 <= k < base.len() && (#[trigger] base[k]).seq == other;
        assert(post.drop_last()[k] == base[k]);
        assert(post[k].seq == other);
    }
}

/// What a full queue does when a request asks to join at `now_ms`. One that turns requests away
/// evicts nobody. One that drops the oldest evicts the waiter that came first of those that have
/// not given up. One that drops the lowest priority evicts a waiter that no other ranks below, the
/// newest of such, and only for a request that ranks above it: else the request is turned away.
pub proof fn lemma_a_full_queue_follows_its_policy<K: Key>(
    pre: State<K>,
    post: State<K>,
    now_ms: u64,
    request: (u32, Option<u64>, K::V),
    capacity: usize,
    overflow: Overflow,
    outcome: Result<u64, ThrottleError>,
    evicted: u64,
    i: int,
)
    requires
        pre.valid(),
        capacity > 0,
        pre.asked_to_join(&post, now_ms, request, capacity, overflow, outcome),
        0 <= i < still_patient(pre.waiters(), now_ms).len(),
    ensures
        outcome is Ok ==> outcome == Ok::<u64, ThrottleError>(pre.next_name()),
        outcome is Err ==> {
            &&& outcome == Err::<u64, ThrottleError>(ThrottleError::QueueFull)
            &&& still_patient(pre.waiters(), now_ms).len() >= capacity
            &&& overflow != Overflow::DropOldest
            &&& overflow == Overflow::DropLowestPriority ==> request.0 <= still_patient(
                pre.waiters(),
                now_ms,
            )[i].priority
            &&& post.evicted() == pre.evicted()
            &&& post.waiters() == still_patient(pre.waiters(), now_ms)
        },
        post.evicted() == pre.evicted().push(evicted) ==> {
            let other = still_patient(pre.waiters(), now_ms)[i];
            &&& outcome is Ok
            &&& still_patient(pre.waiters(), now_ms).len() >= capacity
            &&& named(still_patient(pre.waiters(), now_ms), evicted)
            &&& !named(post.waiters(), evicted)
            &&& overflow != Overflow::Reject
            &&& overflow == Overflow::DropOldest ==> evicted <= other.seq
            &&& overflow == Overflow::DropLowestPriority ==> exists|v: int| #[trigger]
                gives_way(still_patient(pre.waiters(), now_ms), v, evicted, request.0, other)
        },
        still_patient(pre.waiters(), now_ms).len() < capacity ==> outcome is Ok && post.evicted()
            == pre.evicted(),
        still_patient(pre.waiters(), now_ms).len() <= capacity ==> post.waiters().len() <= capacity,
{
    let kept = still_patient(pre.waiters(), now_ms);
    lemma_still_patient(pre.waiters(), now_ms);
    let j = choose|j: int|
        {
            &&& #[trigger] is_weakest(kept, j)
            &&& if request.0 > kept[j].priority {
                made_room(kept, j, &pre, &post, request, outcome)
            } else {
                turned_away(kept, &pre, &post, outcome)
            }
        };
    let victim = if overflow == Overflow::DropOldest {
        0
    } else {
        j
    };
    if post.evicted() == pre.evicted().push(evicted) {
        assert(post.evicted().len() == pre.evicted().len() + 1);
        assert(made_room(kept, victim, &pre, &post, request, outcome));
        assert(post.evicted().last() == evicted && post.evicted().last() == kept[victim].seq);
        assert(named(kept, evicted));
        if i > 0 {
            assert(kept[0].seq < kept[i].seq);
        }
        if victim < i {
            assert(kept[victim].seq < kept[i].seq);
        } else if i < victim {
            assert(kept[i].seq < kept[victim].seq);
        }
        lemma_named_after_removal(kept, victim, evicted);
        assert(evicted < pre.next_name()) by {
            assert(pre.waiters().contains(kept[victim]));
        }
        lemma_named_after_joining(
            kept.remove(victim),
            post.waiters(),
            pre.next_name(),
            request,
            evicted,
        );
        assert(gives_way(kept, victim, evicted, request.0, kept[i]) || overflow
            != Overflow::DropLowestPriority);
    }
}

/// Whether the waiter at `v`, named `id`, ranks below `priority` and gives way before `other` does:
/// it ranks below that one too, or ranks with it and is no older.
pub open spec fn gives_way<K>(
    waiters: Seq<Waiter<K>>,
    v: int,
    id: u64,
    priority: u32,
    other: Waiter<K>,
) -> bool {
    &&& 0 <= v < waiters.len()
    &&& waiters[v].seq == id
    &&& waiters[v].priority < priority
    &&& waiters[v].priority < other.priority || (waiters[v].priority == other.priority && other.seq
        <= id)
}

/// The waiter that is granted a token at `now_ms` had not given up, and of those that had not, none
/// has a higher priority; nor, with the same priority, the same key and an earlier name.
pub proof fn lemma_the_highest_priority_is_served_first<L: Limiter, K: Key, C>(
    pre: Queue<L, K, C>,
    post: Queue<L, K, C>,
    ticket: Ticket,
    now_ms: u64,
    at: Reading,
    i: int,
    j: int,
)
    requires
        pre.polled(&post, ticket, now_ms, at, Step::Granted),
        pre.valid(),
        0 <= i < pre.state().waiters().len(),
        pre.state().waiters()[i].seq == ticket.id,
        0 <= j < pre.state().waiters().len(),
        pre.state().waiters()[j].deadline_ms matches Some(deadline) ==> now_ms < deadline,
    ensures
        pre.state().waiters()[i].deadline_ms matches Some(deadline) ==> now_ms < deadline,
        pre.state().waiters()[j].priority <= pre.state().waiters()[i].priority,
        pre.state().waiters()[j].priority == pre.state().waiters()[i].priority
            && pre.state().waiters()[j].key@ == pre.state().waiters()[i].key@ ==> ticket.id
            <= pre.state().waiters()[j].seq,
        1 <= pre.limiter().tokens(at),
{
    let waiters = pre.state().waiters();
    let served = pre.state().served();
    let k = choose|k: int| #[trigger]
        is_next(waiters, served, now_ms, k) && waiters[k].seq == ticket.id;
    if k < i {
        assert(waiters[k].seq < waiters[i].seq);
    } else if i < k {
        assert(waiters[i].seq < waiters[k].seq);
    }
    assert(patient(waiters[j], now_ms));
    if j != i {
        assert(goes_before(waiters[i], waiters[j], served));
    }
}

/// Where `key` last stands in `turns`, counted from one, and zero if it does not.
pub open spec fn last_turn<V>(turns: Seq<V>, key: V) -> nat
    decreases turns.len(),
{
    if turns.len() == 0 {
        0
    } else if turns.last() == key {
        turns.len()
    } else {
        last_turn(turns.drop_last(), key)
    }
}

/// Turns go round the keys: after any number of turns, of two waiters of the same priority the one
/// whose key had its last turn earlier goes first, a key that has had none before all others; and
/// with the same key, the one that came first. `turns` are the keys that were served, in order.
pub proof fn lemma_turns_go_round<K: Key>(
    states: Seq<State<K>>,
    served: Seq<int>,
    turns: Seq<K::V>,
    a: Waiter<K>,
    b: Waiter<K>,
)
    requires
        states.len() == turns.len() + 1,
        served.len() == turns.len(),
        states[0].served().len() == 0,
        states[0].turns() == 0,
        forall|n: int|
            0 <= n < turns.len() ==> {
                &&& 0 <= served[n] < states[n].waiters().len()
                &&& states[n].waiters()[served[n]].key@ == turns[n]
                &&& (#[trigger] states[n]).gave_turn(&states[n + 1], served[n])
            },
        a.priority == b.priority,
    ensures
        goes_before(a, b, states.last().served()) <==> last_turn(turns, a.key@) < last_turn(
            turns,
            b.key@,
        ) || (last_turn(turns, a.key@) == last_turn(turns, b.key@) && a.seq < b.seq),
        a.key@ != b.key@ && turns.contains(a.key@) ==> last_turn(turns, a.key@) != last_turn(
            turns,
            b.key@,
        ),
{
    lemma_stamps_are_turns(states, served, turns, a.key@);
    lemma_stamps_are_turns(states, served, turns, b.key@);
    lemma_last_turn(turns, a.key@);
    lemma_last_turn(turns, b.key@);
}

proof fn lemma_last_turn<V>(turns: Seq<V>, key: V)
    ensures
        last_turn(turns, key) <= turns.len(),
        last_turn(turns, key) > 0 ==> turns[last_turn(turns, key) - 1] == key,
        turns.contains(key) ==> last_turn(turns, key) > 0,
    decreases turns.len(),
{
    if turns.len() > 0 {
        lemma_last_turn(turns.drop_last(), key);
        if turns.contains(key) && turns.last() != key {
            let k = choose|k: int| 0 <= k < turns.len() && turns[k] == key;
            assert(turns.drop_last()[k] == key);
        }
    }
}

proof fn lemma_stamps_are_turns<K: Key>(
    states: Seq<State<K>>,
    served: Seq<int>,
    turns: Seq<K::V>,
    key: K::V,
)
    requires
        states.len() == turns.len() + 1,
        served.len() == turns.len(),
        states[0].served().len() == 0,
        states[0].turns() == 0,
        forall|n: int|
            0 <= n < turns.len() ==> {
                &&& 0 <= served[n] < states[n].waiters().len()
                &&& states[n].waiters()[served[n]].key@ == turns[n]
                &&& (#[trigger] states[n]).gave_turn(&states[n + 1], served[n])
            },
    ensures
        states.last().turns() == turns.len(),
        stamp_of(states.last().served(), key) == last_turn(turns, key),
    decreases turns.len(),
{
    if turns.len() > 0 {
        let s = states.drop_last();
        let n = turns.len() - 1;
        assert forall|m: int| 0 <= m < n implies {
            &&& 0 <= served.drop_last()[m] < s[m].waiters().len()
            &&& s[m].waiters()[served.drop_last()[m]].key@ == turns.drop_last()[m]
            &&& (#[trigger] s[m]).gave_turn(&s[m + 1], served.drop_last()[m])
        } by {
            assert(states[m].gave_turn(&states[m + 1], served[m]));
        }
        lemma_stamps_are_turns(s, served.drop_last(), turns.drop_last(), key);
        assert(s.last() == states[n]);
        assert(states[n].gave_turn(&states[n + 1], served[n]));
    }
}

/// What happens to a queue.
pub enum Event<V> {
    /// A request asked to join.
    Joined {
        /// When it asked, in milliseconds.
        now_ms: u64,
        /// Its priority, when it gives up, and its key.
        request: (u32, Option<u64>, V),
        /// The name that it got, or why it was turned away.
        outcome: Result<u64, ThrottleError>,
    },
    /// A waiter was checked on.
    Polled {
        /// The waiter.
        ticket: Ticket,
        /// When it was, in milliseconds.
        now_ms: u64,
        /// How the limiter's clocks read.
        at: Reading,
        /// What it was told.
        step: Step,
    },
    /// A request ended or was given up, and its waiter left.
    Left {
        /// The waiter.
        ticket: Ticket,
    },
}

impl<V> Event<V> {
    /// Whether the waiter named `id` was granted a token.
    pub open spec fn grants(self, id: u64) -> bool {
        self matches Event::Polled { ticket, step, .. } && ticket.id == id && step is Granted
    }

    /// Whether the waiter named `id` left.
    pub open spec fn ends(self, id: u64) -> bool {
        self matches Event::Left { ticket } && ticket.id == id
    }
}

/// Whether `event` turned `pre` into `post`.
pub open spec fn happens<L: Limiter, K: Key, C>(
    pre: Queue<L, K, C>,
    post: Queue<L, K, C>,
    event: Event<K::V>,
) -> bool {
    &&& post.valid()
    &&& pre.same_limits(&post)
    &&& match event {
        Event::Joined { now_ms, request, outcome } => {
            &&& post.limiter() == pre.limiter()
            &&& pre.state().asked_to_join(
                &post.state(),
                now_ms,
                request,
                pre.room(),
                pre.policy(),
                outcome,
            )
        },
        Event::Polled { ticket, now_ms, at, step } => {
            &&& pre.limiter().reads(at)
            &&& pre.polled(&post, ticket, now_ms, at, step)
        },
        Event::Left { ticket } => {
            &&& post.limiter() == pre.limiter()
            &&& pre.state().left(&post.state(), ticket.id)
        },
    }
}

/// Whether `events` led from one of `states` to the next.
pub open spec fn is_run<L: Limiter, K: Key, C>(
    states: Seq<Queue<L, K, C>>,
    events: Seq<Event<K::V>>,
) -> bool {
    &&& states.len() == events.len() + 1
    &&& states[0].valid()
    &&& forall|i: int|
        0 <= i < events.len() ==> happens(#[trigger] states[i], states[i + 1], events[i])
}

/// How often the waiter named `id` was granted a token.
pub open spec fn times_granted<V>(events: Seq<Event<V>>, id: u64) -> nat
    decreases events.len(),
{
    if events.len() == 0 {
        0
    } else {
        times_granted(events.drop_last(), id) + if events.last().grants(id) {
            1nat
        } else {
            0nat
        }
    }
}

/// How many tokens were granted in all.
pub open spec fn grants_in_all<V>(events: Seq<Event<V>>) -> nat
    decreases events.len(),
{
    if events.len() == 0 {
        0
    } else {
        grants_in_all(events.drop_last()) + if events.last() matches Event::Polled { step, .. }
            && step is Granted {
            1nat
        } else {
            0nat
        }
    }
}

proof fn lemma_named_after_removal<K>(waiters: Seq<Waiter<K>>, i: int, id: u64)
    requires
        0 <= i < waiters.len(),
        in_order(waiters),
    ensures
        named(waiters.remove(i), id) <==> named(waiters, id) && id != waiters[i].seq,
{
    let rest = waiters.remove(i);
    if named(rest, id) {
        let k = choose|k: int| 0 <= k < rest.len() && (#[trigger] rest[k]).seq == id;
        if k < i {
            assert(waiters[k].seq == id);
            assert(waiters[k].seq < waiters[i].seq);
        } else {
            assert(waiters[k + 1].seq == id);
            assert(waiters[i].seq < waiters[k + 1].seq);
        }
    }
    if named(waiters, id) && id != waiters[i].seq {
        let k = choose|k: int| 0 <= k < waiters.len() && (#[trigger] waiters[k]).seq == id;
        if k < i {
            assert(rest[k].seq == id);
        } else {
            assert(rest[k - 1].seq == id);
        }
    }
}

proof fn lemma_named_after_joining<K: Key>(
    base: Seq<Waiter<K>>,
    post: Seq<Waiter<K>>,
    id: u64,
    request: (u32, Option<u64>, K::V),
    other: u64,
)
    requires
        joined(base, post, id, request.0, request.1, request.2),
        other != id,
    ensures
        named(post, other) ==> named(base, other),
{
    if named(post, other) {
        let k = choose|k: int| 0 <= k < post.len() && (#[trigger] post[k]).seq == other;
        assert(k != post.len() - 1);
        assert(post.drop_last()[k] == post[k]);
        assert(base[k].seq == other);
    }
}

/// What one event does to a waiter that has its name.
proof fn lemma_one_event<L: Limiter, K: Key, C>(
    pre: Queue<L, K, C>,
    post: Queue<L, K, C>,
    event: Event<K::V>,
    id: u64,
)
    requires
        pre.valid(),
        happens(pre, post, event),
        id < pre.state().next_name(),
    ensures
        id < post.state().next_name(),
        named(post.state().waiters(), id) ==> named(pre.state().waiters(), id),
        event.grants(id) ==> named(pre.state().waiters(), id) && !named(
            post.state().waiters(),
            id,
        ),
        event.ends(id) ==> !named(post.state().waiters(), id) && !post.state().evicted().contains(
            id,
        ),
        post.state().evicted().contains(id) ==> pre.state().evicted().contains(id) || named(
            pre.state().waiters(),
            id,
        ),
{
    let before = pre.state();
    let after = post.state();
    let waiters = before.waiters();
    match event {
        Event::Joined { now_ms, request, outcome } => {
            let kept = still_patient(waiters, now_ms);
            let name = before.next_name();
            lemma_still_patient(waiters, now_ms);
            if named(kept, id) {
                let k = choose|k: int| 0 <= k < kept.len() && (#[trigger] kept[k]).seq == id;
                assert(waiters.contains(kept[k]));
                let m = choose|m: int| 0 <= m < waiters.len() && waiters[m] == kept[k];
                assert(waiters[m].seq == id);
            }
            if kept.len() < pre.room() {
                lemma_named_after_joining(kept, after.waiters(), name, request, id);
            } else {
                let i = match pre.policy() {
                    Overflow::DropLowestPriority => choose|i: int|
                        {
                            &&& #[trigger] is_weakest(kept, i)
                            &&& if request.0 > kept[i].priority {
                                made_room(kept, i, &before, &after, request, outcome)
                            } else {
                                turned_away(kept, &before, &after, outcome)
                            }
                        },
                    _ => 0,
                };
                if made_room(kept, i, &before, &after, request, outcome) {
                    lemma_named_after_removal(kept, i, id);
                    lemma_named_after_joining(kept.remove(i), after.waiters(), name, request, id);
                    if after.evicted().contains(id) {
                        let k = choose|k: int|
                            0 <= k < after.evicted().len() && after.evicted()[k] == id;
                        if k < before.evicted().len() {
                            assert(before.evicted()[k] == id);
                        } else {
                            assert(kept[i].seq == id);
                        }
                    }
                }
            }
        },
        Event::Polled { ticket, now_ms, at, step } => {
            if !before.evicted().contains(ticket.id) && (exists|i: int| #[trigger]
                is_next(waiters, before.served(), now_ms, i) && waiters[i].seq == ticket.id)
                && step is Granted {
                let i = choose|i: int| #[trigger]
                    is_next(waiters, before.served(), now_ms, i) && waiters[i].seq == ticket.id;
                assert(before.gave_turn(&after, i));
                lemma_named_after_removal(waiters, i, id);
                assert(named(waiters, ticket.id));
            }
        },
        Event::Left { ticket } => {
            if named(waiters, ticket.id) {
                let i = choose|i: int|
                    0 <= i < waiters.len() && (#[trigger] waiters[i]).seq == ticket.id;
                lemma_named_after_removal(waiters, i, id);
            }
        },
    }
}

/// A request that has joined is granted a token at most once. Once it is granted, or has ended or
/// been given up, it waits no more, whatever happens then; and once its waiter has left, nothing is
/// kept of it.
pub proof fn lemma_a_request_ends_for_good<L: Limiter, K: Key, C>(
    states: Seq<Queue<L, K, C>>,
    events: Seq<Event<K::V>>,
    id: u64,
)
    requires
        is_run(states, events),
        id < states[0].state().next_name(),
    ensures
        states.last().valid(),
        id < states.last().state().next_name(),
        times_granted(events, id) <= 1,
        named(states.last().state().waiters(), id) ==> times_granted(events, id) == 0,
        (exists|i: int|
            0 <= i < events.len() && ((#[trigger] events[i]).grants(id) || events[i].ends(id)))
            ==> !named(states.last().state().waiters(), id),
        (exists|i: int| 0 <= i < events.len() && (#[trigger] events[i]).ends(id))
            ==> !states.last().state().evicted().contains(id),
    decreases events.len(),
{
    if events.len() > 0 {
        let s = states.drop_last();
        let e = events.drop_last();
        let n = events.len() - 1;
        assert forall|i: int| 0 <= i < e.len() implies happens(#[trigger] s[i], s[i + 1], e[i]) by {
            assert(happens(states[i], states[i + 1], events[i]));
        }
        lemma_a_request_ends_for_good(s, e, id);
        assert(s.last() == states[n]);
        assert(happens(states[n], states[n + 1], events[n]));
        lemma_one_event(states[n], states[n + 1], events[n], id);
        if exists|i: int|
            0 <= i < events.len() && ((#[trigger] events[i]).grants(id) || events[i].ends(id)) {
            let i = choose|i: int|
                0 <= i < events.len() && ((#[trigger] events[i]).grants(id) || events[i].ends(id));
            if i < n {
                assert(e[i] == events[i]);
            }
        }
        if exists|i: int| 0 <= i < events.len() && (#[trigger] events[i]).ends(id) {
            let i = choose|i: int| 0 <= i < events.len() && (#[trigger] events[i]).ends(id);
            if i < n {
                assert(e[i] == events[i]);
            }
        }
    }
}

/// A token is taken exactly when a waiter is granted one: an event that grants nothing leaves the
/// limiter with what it had from then on, and one that grants takes one token.
pub proof fn lemma_a_token_is_taken_exactly_when_granted<L: Limiter, K: Key, C>(
    pre: Queue<L, K, C>,
    post: Queue<L, K, C>,
    event: Event<K::V>,
    at: Reading,
)
    requires
        happens(pre, post, event),
        pre.limiter().reads(at),
        event matches Event::Polled { at: polled_at, .. } ==> polled_at == at,
    ensures
        same_nature(pre.limiter(), post.limiter()),
        (event matches Event::Polled { step, .. } && step is Granted) ==> lasts(
            pre.limiter(),
            post.limiter(),
            1,
            at,
        ) && pre.limiter().tokens(at) >= 1 && (pre.limiter().exact(at) ==> post.limiter().tokens(at)
            == pre.limiter().tokens(at) - 1),
        !(event matches Event::Polled { step, .. } && step is Granted) ==> unmoved(
            pre.limiter(),
            post.limiter(),
            at,
        ) && post.limiter().tokens(at) == pre.limiter().tokens(at),
{
    lemma_not_before_itself(at);
}

/// As many tokens are taken as waiters are granted one: while the limiter's clocks stand still,
/// what was granted in all and what is left make up what was on hand.
pub proof fn lemma_every_grant_takes_a_token<L: Limiter, K: Key, C>(
    states: Seq<Queue<L, K, C>>,
    events: Seq<Event<K::V>>,
    at: Reading,
)
    requires
        is_run(states, events),
        states[0].limiter().reads(at),
        states[0].limiter().exact(at),
        forall|i: int|
            0 <= i < events.len() ==> (#[trigger] events[i] matches Event::Polled { at: polled_at, .. }
                ==> polled_at == at),
    ensures
        same_nature(states[0].limiter(), states.last().limiter()),
        grants_in_all(events) + states.last().limiter().tokens(at) == states[0].limiter().tokens(at),
    decreases events.len(),
{
    if events.len() > 0 {
        let s = states.drop_last();
        let e = events.drop_last();
        let n = events.len() - 1;
        assert forall|i: int| 0 <= i < e.len() implies happens(#[trigger] s[i], s[i + 1], e[i]) by {
            assert(happens(states[i], states[i + 1], events[i]));
        }
        assert forall|i: int| 0 <= i < e.len() implies (#[trigger] e[i] matches Event::Polled {
            at: polled_at,
            ..
        } ==> polled_at == at) by {
            assert(e[i] == events[i]);
        }
        lemma_every_grant_takes_a_token(s, e, at);
        assert(s.last() == states[n]);
        assert(happens(states[n], states[n + 1], events[n]));
        lemma_a_token_is_taken_exactly_when_granted(states[n], states[n + 1], events[n], at);
    }
}

/// A request that was evicted is told that the queue is full, and told so once; another that has
/// not given up and whose turn it is not takes nothing and sleeps for an hour, or until its
/// deadline if that comes first.
pub proof fn lemma_out_of_turn_a_request_waits<L: Limiter, K: Key, C>(
    pre: Queue<L, K, C>,
    post: Queue<L, K, C>,
    ticket: Ticket,
    now_ms: u64,
    at: Reading,
    step: Step,
)
    requires
        pre.polled(&post, ticket, now_ms, at, step),
        forall|i: int|
            #[trigger] is_next(pre.state().waiters(), pre.state().served(), now_ms, i)
                ==> pre.state().waiters()[i].seq != ticket.id,
    ensures
        post.limiter() == pre.limiter(),
        post.state().waiters() == pre.state().waiters(),
        pre.state().evicted().contains(ticket.id) ==> step == Step::Failed(ThrottleError::QueueFull)
            && !post.state().evicted().contains(ticket.id),
        !pre.state().evicted().contains(ticket.id) && ticket.deadline_ms is None ==> (step matches Step::Sleep(
            d,
        ) && d@ == 60 * 60 * 1_000_000_000),
        !pre.state().evicted().contains(ticket.id) ==> (ticket.deadline_ms matches Some(deadline)
            ==> now_ms < deadline ==> (step matches Step::Sleep(d) && if (deadline - now_ms)
            < 60 * 60 * 1000 {
            d@ == (deadline - now_ms) * 1_000_000
        } else {
            d@ == 60 * 60 * 1_000_000_000
        })),
{
}

/// In its turn a request gets a token exactly if the limiter holds one: it then leaves the queue,
/// and the others stay as they stood. If the limiter refuses, the request sleeps for as long as the
/// limiter says, or until its deadline if that comes first, and if the limiter refuses for good, so
/// does the queue.
pub proof fn lemma_in_turn_the_limiter_decides<L: Limiter, K: Key, C>(
    pre: Queue<L, K, C>,
    post: Queue<L, K, C>,
    ticket: Ticket,
    now_ms: u64,
    at: Reading,
    step: Step,
    i: int,
)
    requires
        pre.limiter().reads(at),
        pre.polled(&post, ticket, now_ms, at, step),
        is_next(pre.state().waiters(), pre.state().served(), now_ms, i),
        pre.state().waiters()[i].seq == ticket.id,
        !pre.state().evicted().contains(ticket.id),
        ticket.deadline_ms matches Some(deadline) ==> now_ms < deadline,
    ensures
        step is Granted <==> 1 <= pre.limiter().tokens(at),
        step is Granted ==> post.state().waiters() == pre.state().waiters().remove(i),
        step is Granted && pre.limiter().exact(at) ==> post.limiter().tokens(at)
            == pre.limiter().tokens(at) - 1,
        step !is Granted ==> post.state() == pre.state() && post.limiter().tokens(at)
            == pre.limiter().tokens(at),
        step matches Step::Failed(error) ==> {
            &&& pre.limiter().answered(1, at, Decision::Impossible)
            &&& error == (ThrottleError::CostExceedsCapacity {
                cost: 1,
                capacity: pre.limiter().limit(),
            })
        },
        pre.limiter().limit() == 0 ==> step is Failed,
        step matches Step::Sleep(d) ==> exists|after: Duration|
            {
                &&& #[trigger] pre.limiter().answered(1, at, Decision::Retry { after })
                &&& ticket.deadline_ms is None ==> d == after
                &&& ticket.deadline_ms matches Some(deadline) ==> d@ <= after@ && d@ <= (deadline
                    - now_ms) * 1_000_000 && (d@ == after@ || d@ == (deadline - now_ms) * 1_000_000)
            },
{
    let answer = choose|answer: Decision|
        {
            &&& #[trigger] pre.limiter().answered(1, at, answer)
            &&& answer is Acquired <==> 1 <= pre.limiter().tokens(at)
            &&& 1 > pre.limiter().limit() ==> answer is Impossible
            &&& match answer {
                Decision::Acquired => {
                    &&& step == Step::Granted
                    &&& post.state().next_name() == pre.state().next_name()
                    &&& post.state().evicted() == pre.state().evicted()
                    &&& forall|i: int|
                        0 <= i < pre.state().waiters().len() && (
                        #[trigger] pre.state().waiters()[i]).seq == ticket.id
                            ==> pre.state().gave_turn(&post.state(), i)
                },
                Decision::Impossible => {
                    &&& step == Step::Failed(
                        ThrottleError::CostExceedsCapacity {
                            cost: 1,
                            capacity: pre.limiter().limit(),
                        },
                    )
                    &&& post.state() == pre.state()
                },
                Decision::Retry { after } => {
                    &&& step == Step::Sleep(capped(after, now_ms, ticket.deadline_ms))
                    &&& post.state() == pre.state()
                },
            }
            &&& answer is Acquired && pre.limiter().exact(at) ==> post.limiter().tokens(at)
                == pre.limiter().tokens(at) - 1
            &&& answer is Acquired ==> lasts(pre.limiter(), post.limiter(), 1, at)
            &&& answer !is Acquired ==> unmoved(pre.limiter(), post.limiter(), at)
            &&& same_nature(pre.limiter(), post.limiter())
        };
    assert(pre.limiter().answered(1, at, answer));
    assert(pre.state().waiters()[i].seq == ticket.id);
    lemma_not_before_itself(at);
}

/// Time is counted in whole milliseconds from when the queue was made.
pub proof fn lemma_time_is_counted_from_the_start<L: Limiter, K: Key, C: Clock>(
    queue: Queue<L, K, C>,
    now: Duration,
)
    requires
        queue.started()@ <= now@,
        now@ - queue.started()@ <= u64::MAX as nat * 1_000_000,
    ensures
        queue.millis_at(now) * 1_000_000 <= now@ - queue.started()@ < (queue.millis_at(now) + 1)
            * 1_000_000,
{
}

/// Whether `turns` are the keys of the waiters that were granted a token in the course of `events`,
/// in order.
pub open spec fn are_turns<L: Limiter, K: Key, C>(
    states: Seq<Queue<L, K, C>>,
    events: Seq<Event<K::V>>,
    turns: Seq<K::V>,
) -> bool
    decreases events.len(),
{
    if events.len() == 0 {
        turns.len() == 0
    } else {
        let before = states[events.len() - 1].state();
        match events.last() {
            Event::Polled { ticket, step: Step::Granted, .. } => {
                &&& turns.len() > 0
                &&& exists|i: int|
                    {
                        &&& 0 <= i < before.waiters().len()
                        &&& (#[trigger] before.waiters()[i]).seq == ticket.id
                        &&& before.waiters()[i].key@ == turns.last()
                    }
                &&& are_turns(states.drop_last(), events.drop_last(), turns.drop_last())
            },
            _ => are_turns(states.drop_last(), events.drop_last(), turns),
        }
    }
}

/// Turns go round whatever happens to a queue: of two waiters of the same priority the one whose
/// key was granted a token longer ago goes first, a key that never was before all others, and with
/// the same key the one that came first. Requests that join, wait, give up, leave or are turned
/// away change nothing of that.
pub proof fn lemma_only_grants_are_turns<L: Limiter, K: Key, C>(
    states: Seq<Queue<L, K, C>>,
    events: Seq<Event<K::V>>,
    turns: Seq<K::V>,
    a: Waiter<K>,
    b: Waiter<K>,
)
    requires
        is_run(states, events),
        states[0].state().served().len() == 0,
        states[0].state().turns() == 0,
        are_turns(states, events, turns),
        a.priority == b.priority,
    ensures
        goes_before(a, b, states.last().state().served()) <==> last_turn(turns, a.key@) < last_turn(
            turns,
            b.key@,
        ) || (last_turn(turns, a.key@) == last_turn(turns, b.key@) && a.seq < b.seq),
{
    lemma_stamps_are_grants(states, events, turns, a.key@);
    lemma_stamps_are_grants(states, events, turns, b.key@);
}

proof fn lemma_stamps_are_grants<L: Limiter, K: Key, C>(
    states: Seq<Queue<L, K, C>>,
    events: Seq<Event<K::V>>,
    turns: Seq<K::V>,
    key: K::V,
)
    requires
        is_run(states, events),
        states[0].state().served().len() == 0,
        states[0].state().turns() == 0,
        are_turns(states, events, turns),
    ensures
        states.last().state().turns() == turns.len(),
        stamp_of(states.last().state().served(), key) == last_turn(turns, key),
    decreases events.len(),
{
    if events.len() > 0 {
        let s = states.drop_last();
        let e = events.drop_last();
        let n = events.len() - 1;
        assert forall|i: int| 0 <= i < e.len() implies happens(#[trigger] s[i], s[i + 1], e[i]) by {
            assert(happens(states[i], states[i + 1], events[i]));
        }
        assert(s.last() == states[n]);
        assert(happens(states[n], states[n + 1], events[n]));
        let pre = states[n].state();
        let post = states[n + 1].state();
        match events.last() {
            Event::Polled { ticket, now_ms, at, step: Step::Granted } => {
                lemma_stamps_are_grants(s, e, turns.drop_last(), key);
                let i = choose|i: int|
                    {
                        &&& 0 <= i < pre.waiters().len()
                        &&& (#[trigger] pre.waiters()[i]).seq == ticket.id
                        &&& pre.waiters()[i].key@ == turns.last()
                    };
                assert(states[n].took_turn(&states[n + 1], ticket, now_ms, at, Step::Granted));
                assert(pre.gave_turn(&post, i));
            },
            Event::Joined { now_ms, request, outcome } => {
                lemma_stamps_are_grants(s, e, turns, key);
            },
            _ => {
                lemma_stamps_are_grants(s, e, turns, key);
            },
        }
    }
}

/// The time that the queue goes by is a reading of its own clock, in whole milliseconds from when
/// the queue was made.
pub proof fn lemma_the_queue_goes_by_its_clock<L: Limiter, K: Key, C: Clock>(
    queue: Queue<L, K, C>,
    now_ms: u64,
)
    requires
        queue.shows(now_ms),
        now_ms < u64::MAX,
    ensures
        exists|now: Duration|
            {
                &&& #[trigger] reading_of(queue.clock(), now)
                &&& now@ <= queue.started()@ ==> now_ms == 0
                &&& now@ > queue.started()@ ==> now_ms * 1_000_000 <= now@ - queue.started()@ < (
                now_ms + 1) * 1_000_000
            },
{
    let now = choose|now: Duration| #[trigger]
        reading_of(queue.clock(), now) && now_ms == queue.millis_at(now);
    assert(reading_of(queue.clock(), now));
}

/// A new queue has no waiters and room for at least one, has served and evicted none, and follows
/// the policy that it was made with.
pub proof fn lemma_a_new_queue_is_empty<L: Limiter, K: Key, C: Clock>(
    queue: Queue<L, K, C>,
    limiter: L,
    capacity: usize,
    overflow: Overflow,
)
    requires
        queue.fresh(limiter, capacity, overflow),
    ensures
        queue.limiter() == limiter,
        queue.policy() == overflow,
        capacity > 0 ==> queue.room() == capacity,
        capacity == 0 ==> queue.room() == 1,
        queue.state().waiters().len() == 0,
        queue.state().served().len() == 0,
        queue.state().evicted().len() == 0,
        queue.state().turns() == 0,
{
}

/// As long as a waiter has not given up, it is some waiter's turn.
pub proof fn lemma_it_is_always_someones_turn<K: Key>(
    waiters: Seq<Waiter<K>>,
    served: Seq<Served<K>>,
    now_ms: u64,
    j: int,
)
    requires
        in_order(waiters),
        0 <= j < waiters.len(),
        waiters[j].deadline_ms matches Some(deadline) ==> now_ms < deadline,
    ensures
        exists|i: int| #[trigger] is_next(waiters, served, now_ms, i),
{
    assert(patient(waiters[j], now_ms));
    let i = lemma_first_among(waiters, served, now_ms, j, waiters.len() as int);
    assert(is_next(waiters, served, now_ms, i));
}

/// Of the first `n` waiters, one goes before all others that have not given up.
proof fn lemma_first_among<K: Key>(
    waiters: Seq<Waiter<K>>,
    served: Seq<Served<K>>,
    now_ms: u64,
    j: int,
    n: int,
) -> (i: int)
    requires
        in_order(waiters),
        0 <= j < waiters.len(),
        patient(waiters[j], now_ms),
        0 <= n <= waiters.len(),
    ensures
        0 <= i < waiters.len(),
        patient(waiters[i], now_ms),
        i < n || i == j,
        forall|k: int|
            0 <= k < n && k != i && patient(#[trigger] waiters[k], now_ms) ==> goes_before(
                waiters[i],
                waiters[k],
                served,
            ),
    decreases n,
{
    if n == 0 {
        j
    } else {
        let i = lemma_first_among(waiters, served, now_ms, j, n - 1);
        let k = n - 1;
        if k == i || !patient(waiters[k], now_ms) || goes_before(waiters[i], waiters[k], served) {
            i
        } else {
            if i < k {
                assert(waiters[i].seq < waiters[k].seq);
            } else {
                assert(waiters[k].seq < waiters[i].seq);
            }
            assert(goes_before(waiters[k], waiters[i], served));
            k
        }
    }
}

/// Where there are waiters, one of them is the weakest.
pub proof fn lemma_some_waiter_is_the_weakest<K>(waiters: Seq<Waiter<K>>) -> (i: int)
    requires
        waiters.len() > 0,
    ensures
        is_weakest(waiters, i),
    decreases waiters.len(),
{
    let last = waiters.len() - 1;
    if last == 0 {
        0
    } else {
        let front = waiters.drop_last();
        let i = lemma_some_waiter_is_the_weakest(front);
        assert forall|j: int| 0 <= j < last implies front[j] == waiters[j] by {}
        if waiters[last].priority <= waiters[i].priority {
            assert forall|j: int| 0 <= j < waiters.len() && j != last implies waiters[last].priority
                < #[trigger] waiters[j].priority || (waiters[last].priority == waiters[j].priority && j
                < last) by {
                assert(front[j] == waiters[j]);
                if j != i {
                    assert(front[i].priority < front[j].priority || (front[i].priority
                        == front[j].priority && j < i));
                }
            }
            last
        } else {
            assert forall|j: int| 0 <= j < waiters.len() && j != i implies waiters[i].priority
                < #[trigger] waiters[j].priority || (waiters[i].priority == waiters[j].priority && j
                < i) by {
                if j < last {
                    assert(front[j] == waiters[j]);
                }
            }
            i
        }
    }
}

} // verus!
