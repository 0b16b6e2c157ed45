//! A limiter with a bucket of its own for every key.
//!
//! Keys are spread over shards by their hash. A key's bucket is made, full, when it first asks for
//! tokens; to make room, keys that have been idle too long go, and then the least recently used.

use ahash::RandomState;
use std::hash::Hash;
use vstd::arithmetic::power2::pow2;
use vstd::prelude::*;

use crate::bucket::{
    lemma_the_sustained_rate_is_the_refill_rate, lemma_the_wait_is_enough, tier_one, TokenBucket,
};
use crate::clock::{may_be_now, reading_of, Clock, SystemClock};
use crate::decision::Decision;
use crate::error::ThrottleError;
use crate::eviction::{Eviction, DEFAULT_MAX_KEYS};
use crate::key::Key;
use crate::limiter::{
    granted_in_all, lemma_grants_add_up, lemma_single_grants_stop_at_empty, pays_once,
};
use crate::step::{next_step, step_after, Step};
use crate::time::{max_int, millis_of, millis_up, min_int, span, Duration, MAX_NANOS};

verus! {

/// The shards where nothing else is said.
const DEFAULT_SHARDS: usize = 16;

/// The seeds of a hash function, carried as an opaque value.
#[verifier::external_type_specification]
#[verifier::external_body]
pub struct ExRandomState(ahash::RandomState);

/// `ahash::RandomState::new`, a hash function with seeds of its own. Nothing is claimed of it.
#[verifier::external_body]
fn new_hasher() -> RandomState {
    RandomState::new()
}

/// `ahash::RandomState::hash_one`, the hash of a key. Nothing is claimed of it: which number a key
/// hashes to depends on the seeds.
#[verifier::external_body]
fn hash_of<K: Hash>(hasher: &RandomState, key: &K) -> u64 {
    hasher.hash_one(key)
}

/// Whether `hash` is a number that `hasher` may give for `key`.
pub closed spec fn may_hash_to<K: Hash>(hasher: RandomState, key: K, hash: u64) -> bool {
    call_ensures(hash_of::<K>, (&hasher, &key), hash)
}

/// A key, its bucket, and when it was last used.
pub struct Entry<K> {
    /// The key.
    pub key: K,
    /// Its bucket.
    pub bucket: TokenBucket,
    /// When it was last used: milliseconds, or a count of uses.
    pub last_seen: u64,
}

/// Where `key` stands in `entries`, the number of entries if nowhere.
pub open spec fn place_of<K: Key>(entries: Seq<Entry<K>>, key: K::V) -> int
    decreases entries.len(),
{
    if entries.len() == 0 {
        0
    } else if entries[0].key@ == key {
        0
    } else {
        1 + place_of(entries.drop_first(), key)
    }
}

/// Whether `entries` has an entry for `key`.
pub open spec fn knows<K: Key>(entries: Seq<Entry<K>>, key: K::V) -> bool {
    exists|i: int| 0 <= i < entries.len() && (#[trigger] entries[i]).key@ == key
}

/// Whether no key has two entries.
pub open spec fn keys_differ<K: Key>(entries: Seq<Entry<K>>) -> bool {
    forall|i: int, j: int|
        0 <= i < j < entries.len() ==> (#[trigger] entries[i]).key@ != (#[trigger] entries[j]).key@
}

/// Whether an entry last used at `last_seen` has not been idle for `ttl_ms` at `now_ms`.
pub open spec fn fresh_enough(last_seen: u64, now_ms: u64, ttl_ms: u64) -> bool {
    max_int(now_ms - last_seen, 0) < ttl_ms
}

/// The entries that have not been idle for `ttl_ms` at `now_ms`.
pub open spec fn not_idle<K>(entries: Seq<Entry<K>>, now_ms: u64, ttl_ms: u64) -> Seq<Entry<K>>
    decreases entries.len(),
{
    if entries.len() == 0 {
        entries
    } else {
        let rest = not_idle(entries.drop_last(), now_ms, ttl_ms);
        if fresh_enough(entries.last().last_seen, now_ms, ttl_ms) {
            rest.push(entries.last())
        } else {
            rest
        }
    }
}

/// Where the least recently used of `entries` stands, the first of those.
pub open spec fn stalest<K>(entries: Seq<Entry<K>>) -> int
    decreases entries.len(),
{
    if entries.len() <= 1 {
        0
    } else {
        let i = stalest(entries.drop_last());
        if entries.last().last_seen < entries[i].last_seen {
            entries.len() - 1
        } else {
            i
        }
    }
}

/// `entries` with the least recently used taken out one after the other, until fewer than `cap`
/// are left.
pub open spec fn below<K>(entries: Seq<Entry<K>>, cap: nat) -> Seq<Entry<K>>
    decreases entries.len(),
{
    if entries.len() == 0 || entries.len() < cap || !(0 <= stalest(entries) < entries.len()) {
        entries
    } else {
        below(entries.remove(stalest(entries)), cap)
    }
}

/// The most entries in each of `shards` shards that together keep `max_keys` keys.
pub open spec fn share_of(max_keys: usize, shards: nat) -> nat {
    max_int((max_keys + shards - 1) / shards as int, 1) as nat
}

/// What is left of `entries` once there is room for one more.
pub open spec fn with_room<K>(
    entries: Seq<Entry<K>>,
    eviction: Eviction,
    shards: nat,
    now_ms: u64,
) -> Seq<Entry<K>> {
    let awake = match eviction.idle_ttl {
        Some(ttl) => not_idle(entries, now_ms, millis_up(ttl)),
        None => entries,
    };
    match eviction.max_keys {
        Some(max) => below(awake, share_of(max, shards)),
        None => awake,
    }
}

proof fn lemma_stalest<K>(entries: Seq<Entry<K>>)
    requires
        entries.len() > 0,
    ensures
        0 <= stalest(entries) < entries.len(),
        forall|i: int|
            0 <= i < entries.len() ==> entries[stalest(entries)].last_seen <= (
            #[trigger] entries[i]).last_seen,
        forall|i: int|
            0 <= i < stalest(entries) ==> entries[stalest(entries)].last_seen < (
            #[trigger] entries[i]).last_seen,
    decreases entries.len(),
{
    if entries.len() > 1 {
        let front = entries.drop_last();
        lemma_stalest(front);
        let s = stalest(front);
        assert(front[s] == entries[s]);
        assert forall|i: int| 0 <= i < entries.len() implies entries[stalest(entries)].last_seen <= (
        #[trigger] entries[i]).last_seen by {
            if i < front.len() {
                assert(front[i] == entries[i]);
            }
        }
        assert forall|i: int| 0 <= i < stalest(entries) implies entries[stalest(entries)].last_seen
            < (#[trigger] entries[i]).last_seen by {
            assert(front[i] == entries[i]);
        }
    }
}

/// The entries of one shard.
pub struct Shard<K> {
    entries: Vec<Entry<K>>,
    seq: u64,
}

impl<K: Key> Shard<K> {
    /// The entries.
    pub closed spec fn entries(&self) -> Seq<Entry<K>> {
        self.entries@
    }

    /// How often the shard was used, wrapping around.
    pub closed spec fn uses(&self) -> u64 {
        self.seq
    }

    fn new() -> (shard: Self)
        ensures
            shard.entries().len() == 0,
            shard.uses() == 0,
    {
        Shard { entries: Vec::new(), seq: 0 }
    }

    /// Where `key` stands, the number of entries if nowhere.
    fn find(&self, key: &K) -> (i: usize)
        ensures
            i == place_of(self.entries(), key@),
            i <= self.entries().len(),
            i < self.entries().len() ==> self.entries()[i as int].key@ == key@,
            i == self.entries().len() <==> !knows(self.entries(), key@),
    {
        let mut i: usize = 0;
        assert(self.entries@.skip(0) =~= self.entries@);
        while i < self.entries.len() && !self.entries[i].key.same(key)
            invariant
                i <= self.entries@.len(),
                forall|j: int| 0 <= j < i ==> (#[trigger] self.entries@[j]).key@ != key@,
                place_of(self.entries@, key@) == i + place_of(self.entries@.skip(i as int), key@),
            decreases self.entries@.len() - i,
        {
            assert(self.entries@.skip(i as int).drop_first() =~= self.entries@.skip(i + 1));
            i += 1;
        }
        i
    }

    /// Takes out the entries that have been idle for `ttl_ms` at `now_ms`.
    fn drop_idle(&mut self, now_ms: u64, ttl_ms: u64)
        ensures
            final(self).entries() == not_idle(old(self).entries(), now_ms, ttl_ms),
            final(self).uses() == old(self).uses(),
    {
        let ghost all = self.entries@;
        let mut seen: Ghost<int> = Ghost(0);
        let mut kept: usize = 0;
        assert(all.take(0) =~= Seq::<Entry<K>>::empty());
        assert(all.skip(0) =~= all);
        while kept < self.entries.len()
            invariant
                0 <= seen@ <= all.len(),
                kept == not_idle(all.take(seen@), now_ms, ttl_ms).len(),
                self.entries@ == not_idle(all.take(seen@), now_ms, ttl_ms) + all.skip(seen@),
                self.seq == old(self).seq,
            decreases self.entries@.len() - kept,
        {
            let ghost front = not_idle(all.take(seen@), now_ms, ttl_ms);
            assert(all.take(seen@ + 1).drop_last() =~= all.take(seen@));
            assert(self.entries@[kept as int] == all[seen@]);
            if now_ms.saturating_sub(self.entries[kept].last_seen) < ttl_ms {
                kept += 1;
                assert(front.push(all[seen@]) + all.skip(seen@ + 1) =~= front + all.skip(seen@));
            } else {
                let _ = self.entries.remove(kept);
                assert(self.entries@ =~= front + all.skip(seen@ + 1));
            }
            seen = Ghost(seen@ + 1);
        }
        assert(all.skip(seen@).len() == 0);
        assert(all.take(seen@) =~= all);
        assert(self.entries@ =~= not_idle(all, now_ms, ttl_ms));
    }

    /// Where the least recently used entry stands, the first of those.
    fn find_stalest(&self) -> (i: usize)
        requires
            self.entries().len() > 0,
        ensures
            i == stalest(self.entries()),
            i < self.entries().len(),
    {
        let mut best: usize = 0;
        let mut i: usize = 1;
        while i < self.entries.len()
            invariant
                1 <= i <= self.entries@.len(),
                best < i,
                best == stalest(self.entries@.take(i as int)),
            decreases self.entries@.len() - i,
        {
            assert(self.entries@.take(i + 1).drop_last() =~= self.entries@.take(i as int));
            if self.entries[i].last_seen < self.entries[best].last_seen {
                best = i;
            }
            i += 1;
        }
        assert(self.entries@.take(i as int) =~= self.entries@);
        best
    }

    /// Takes out the least recently used entries until fewer than `cap` are left.
    fn drop_stalest(&mut self, cap: usize)
        requires
            cap > 0,
        ensures
            final(self).entries() == below(old(self).entries(), cap as nat),
            final(self).entries().len() < cap,
            final(self).uses() == old(self).uses(),
    {
        while self.entries.len() >= cap
            invariant
                cap > 0,
                below(self.entries@, cap as nat) == below(old(self).entries@, cap as nat),
                self.seq == old(self).seq,
            decreases self.entries@.len(),
        {
            let victim: usize = self.find_stalest();
            let _ = self.entries.remove(victim);
        }
    }

    /// Makes room for one more entry.
    fn evict_for_insert(&mut self, eviction: Eviction, shards: usize, now_ms: u64)
        requires
            shards > 0,
        ensures
            final(self).entries() == with_room(
                old(self).entries(),
                eviction,
                shards as nat,
                now_ms,
            ),
            eviction.max_keys matches Some(max) ==> final(self).entries().len() < share_of(
                max,
                shards as nat,
            ),
            final(self).uses() == old(self).uses(),
    {
        if let Some(ttl) = eviction.idle_ttl {
            self.drop_idle(now_ms, ttl.millis_rounded_up());
        }
        if let Some(max) = eviction.max_keys {
            proof {
                lemma_ceil(max as int, shards as int);
            }
            let mut cap: usize = max / shards;
            if max % shards != 0 {
                cap += 1;
            }
            if cap == 0 {
                cap = 1;
            }
            self.drop_stalest(cap);
        }
    }
}

/// Dividing and counting a remainder as one more is dividing rounded up.
proof fn lemma_ceil(a: int, b: int)
    requires
        a >= 0,
        b > 0,
    ensures
        (a + b - 1) / b == a / b + if a % b == 0 {
            0int
        } else {
            1int
        },
        a / b < a + 1,
        a % b != 0 ==> a / b < a,
{
    assert((a + b - 1) / b == a / b + if a % b == 0 {
        0int
    } else {
        1int
    }) by (nonlinear_arith)
        requires
            a >= 0,
            b > 0,
    ;
    assert(a / b <= a) by (nonlinear_arith)
        requires
            a >= 0,
            b > 0,
    ;
    assert(a % b != 0 ==> a / b < a) by (nonlinear_arith)
        requires
            a >= 0,
            b > 0,
    ;
}

proof fn lemma_not_idle<K: Key>(entries: Seq<Entry<K>>, now_ms: u64, ttl_ms: u64)
    requires
        keys_differ(entries),
    ensures
        keys_differ(not_idle(entries, now_ms, ttl_ms)),
        forall|i: int|
            0 <= i < not_idle(entries, now_ms, ttl_ms).len() ==> entries.contains(
                #[trigger] not_idle(entries, now_ms, ttl_ms)[i],
            ),
    decreases entries.len(),
{
    if entries.len() > 0 {
        let front = entries.drop_last();
        lemma_not_idle(front, now_ms, ttl_ms);
        let rest = not_idle(front, now_ms, ttl_ms);
        let all = not_idle(entries, now_ms, ttl_ms);
        assert forall|i: int| 0 <= i < all.len() implies entries.contains(#[trigger] all[i]) by {
            if i < rest.len() {
                assert(front.contains(rest[i]));
                let k = choose|k: int| 0 <= k < front.len() && front[k] == rest[i];
                assert(entries[k] == all[i]);
            } else {
                assert(entries[entries.len() - 1] == all[i]);
            }
        }
        assert forall|i: int, j: int| 0 <= i < j < all.len() implies (#[trigger] all[i]).key@ != (
        #[trigger] all[j]).key@ by {
            if j == rest.len() {
                assert(front.contains(rest[i]));
                let k = choose|k: int| 0 <= k < front.len() && front[k] == rest[i];
                assert(entries[k].key@ != entries[entries.len() - 1].key@);
            } else {
                assert(rest[i].key@ != rest[j].key@);
            }
        }
    }
}

proof fn lemma_below<K: Key>(entries: Seq<Entry<K>>, cap: nat)
    requires
        keys_differ(entries),
    ensures
        keys_differ(below(entries, cap)),
        forall|i: int|
            0 <= i < below(entries, cap).len() ==> entries.contains(
                #[trigger] below(entries, cap)[i],
            ),
    decreases entries.len(),
{
    if entries.len() == 0 || entries.len() < cap {
        assert forall|i: int| 0 <= i < entries.len() implies entries.contains(
            #[trigger] below(entries, cap)[i],
        ) by {
            assert(entries[i] == below(entries, cap)[i]);
        }
    } else {
        lemma_stalest(entries);
        let rest = entries.remove(stalest(entries));
        lemma_below(rest, cap);
        assert forall|i: int| 0 <= i < below(entries, cap).len() implies entries.contains(
            #[trigger] below(entries, cap)[i],
        ) by {
            assert(rest.contains(below(rest, cap)[i]));
            let k = choose|k: int| 0 <= k < rest.len() && rest[k] == below(rest, cap)[i];
            if k < stalest(entries) {
                assert(entries[k] == rest[k]);
            } else {
                assert(entries[k + 1] == rest[k]);
            }
        }
    }
}

/// Making room only takes entries out.
proof fn lemma_with_room<K: Key>(
    entries: Seq<Entry<K>>,
    eviction: Eviction,
    shards: nat,
    now_ms: u64,
)
    requires
        keys_differ(entries),
    ensures
        keys_differ(with_room(entries, eviction, shards, now_ms)),
        forall|i: int|
            0 <= i < with_room(entries, eviction, shards, now_ms).len() ==> entries.contains(
                #[trigger] with_room(entries, eviction, shards, now_ms)[i],
            ),
{
    let awake = match eviction.idle_ttl {
        Some(ttl) => not_idle(entries, now_ms, millis_up(ttl)),
        None => entries,
    };
    if let Some(ttl) = eviction.idle_ttl {
        lemma_not_idle(entries, now_ms, millis_up(ttl));
    }
    let left = with_room(entries, eviction, shards, now_ms);
    assert forall|i: int| 0 <= i < awake.len() implies entries.contains(#[trigger] awake[i]) by {
        if eviction.idle_ttl is None {
            assert(entries[i] == awake[i]);
        }
    }
    if let Some(max) = eviction.max_keys {
        lemma_below(awake, share_of(max, shards));
        assert forall|i: int| 0 <= i < left.len() implies entries.contains(#[trigger] left[i]) by {
            assert(awake.contains(left[i]));
        }
    }
}

/// Entries make room in the order of their last use: what goes was not used after anything that
/// stays.
pub proof fn lemma_the_least_recently_used_go<K: Key>(
    entries: Seq<Entry<K>>,
    cap: nat,
    gone: Entry<K>,
    kept: Entry<K>,
)
    requires
        keys_differ(entries),
        entries.contains(gone),
        !below(entries, cap).contains(gone),
        below(entries, cap).contains(kept),
    ensures
        gone.last_seen <= kept.last_seen,
    decreases entries.len(),
{
    if entries.len() >= cap && entries.len() > 0 {
        lemma_stalest(entries);
        let s = stalest(entries);
        let rest = entries.remove(s);
        lemma_below(entries, cap);
        let i = choose|i: int| 0 <= i < entries.len() && entries[i] == gone;
        if i == s {
            let k = choose|k: int|
                0 <= k < below(entries, cap).len() && below(entries, cap)[k] == kept;
            assert(entries.contains(below(entries, cap)[k]));
        } else {
            if i < s {
                assert(rest[i] == gone);
            } else {
                assert(rest[i - 1] == gone);
            }
            lemma_the_least_recently_used_go(rest, cap, gone, kept);
        }
    }
}

/// What the buckets of a keyed limiter hold and how long they are kept.
#[derive(Debug, Clone, Copy)]
pub struct Settings {
    /// The tokens that a bucket holds, and regains every period.
    pub amount: u32,
    /// The refill period.
    pub period: Duration,
    /// When keys are forgotten.
    pub eviction: Eviction,
}

impl Settings {
    /// The capacity, the tokens regained per period, and the period in nanoseconds of a bucket.
    pub open spec fn limits(self) -> (u32, u32, nat) {
        tier_one(self.amount, min_int(self.period@ as int, MAX_NANOS as int) as nat)
    }

    /// The tokens that a new bucket holds. Without a period it never holds any.
    fn full_bucket(&self) -> (n: u32)
        ensures
            n == self.limits().0,
    {
        if self.period.is_zero() {
            0
        } else {
            self.amount
        }
    }

    /// The stamp of a use at `now_ms` of a shard that was used `uses` times before.
    pub open spec fn stamp(self, uses: u64, now_ms: u64) -> u64 {
        if self.eviction.idle_ttl is Some {
            now_ms
        } else {
            uses
        }
    }

    /// The count of uses after one more.
    pub open spec fn next_use(self, uses: u64) -> u64 {
        if self.eviction.idle_ttl is Some {
            uses
        } else if uses == u64::MAX {
            0
        } else {
            (uses + 1) as u64
        }
    }
}

/// Whether `bucket` has these limits.
pub open spec fn has_limits(bucket: TokenBucket, limits: (u32, u32, nat)) -> bool {
    (bucket.limit(), bucket.refill(), bucket.period()) == limits
}

/// Whether a request for `cost` tokens at `now` got `answer` from `pre` and left it as `post`.
pub open spec fn served_by(
    pre: TokenBucket,
    post: TokenBucket,
    cost: u32,
    now: Duration,
    answer: Decision,
) -> bool {
    &&& pre.answered(cost, now, answer)
    &&& answer is Acquired <==> cost <= pre.tokens(now)
    &&& cost > pre.limit() ==> answer is Impossible
    &&& post.valid()
    &&& pre.same_limits(&post)
    &&& answer is Acquired ==> pre.charged(&post, cost, now)
    &&& answer !is Acquired ==> post == pre
}

/// Whether `bucket` is new at `now`, full, with these limits.
pub open spec fn new_bucket(bucket: TokenBucket, limits: (u32, u32, nat), now: Duration) -> bool {
    &&& bucket.valid()
    &&& has_limits(bucket, limits)
    &&& bucket.started() == now
    &&& forall|t: Duration| #[trigger] bucket.tokens(t) == bucket.limit()
}

impl<K: Key> Shard<K> {
    /// The invariant: no key has two entries, and every bucket has the limits of the settings.
    pub open spec fn valid(&self, limits: (u32, u32, nat)) -> bool {
        &&& keys_differ(self.entries())
        &&& forall|i: int|
            0 <= i < self.entries().len() ==> (#[trigger] self.entries()[i]).bucket.valid()
        &&& forall|i: int|
            0 <= i < self.entries().len() ==> has_limits(
                (#[trigger] self.entries()[i]).bucket,
                limits,
            )
    }

    /// Whether a request of `key` for `cost` tokens at `now` got `answer` and turned `self` into
    /// `post`.
    ///
    /// A key that is known is charged in its own entry and no other entry changes. A key that is
    /// not known first makes room, and then is charged in a new, full bucket.
    pub open spec fn decided(
        &self,
        post: &Self,
        settings: Settings,
        shards: nat,
        key: K::V,
        cost: u32,
        now: Duration,
        now_ms: u64,
        answer: Decision,
    ) -> bool {
        let i = place_of(self.entries(), key);
        let stamp = settings.stamp(self.uses(), now_ms);
        &&& post.uses() == settings.next_use(self.uses())
        &&& if i < self.entries().len() {
            let entry = self.entries()[i];
            &&& post.entries() == self.entries().update(i, post.entries()[i])
            &&& post.entries()[i].key == entry.key
            &&& post.entries()[i].last_seen == stamp
            &&& served_by(entry.bucket, post.entries()[i].bucket, cost, now, answer)
        } else {
            let kept = with_room(self.entries(), settings.eviction, shards, now_ms);
            &&& post.entries().len() == kept.len() + 1
            &&& post.entries().drop_last() == kept
            &&& post.entries().last().key@ == key
            &&& post.entries().last().last_seen == stamp
            &&& exists|bucket: TokenBucket|
                {
                    &&& new_bucket(bucket, settings.limits(), now)
                    &&& #[trigger] served_by(
                        bucket,
                        post.entries().last().bucket,
                        cost,
                        now,
                        answer,
                    )
                }
        }
    }

    /// The stamp of the present use, which is counted.
    fn take_stamp(&mut self, settings: &Settings, now_ms: u64) -> (stamp: u64)
        ensures
            stamp == settings.stamp(old(self).uses(), now_ms),
            final(self).uses() == settings.next_use(old(self).uses()),
            final(self).entries() == old(self).entries(),
    {
        if settings.eviction.idle_ttl.is_some() {
            now_ms
        } else {
            let stamp: u64 = self.seq;
            self.seq = if stamp == u64::MAX {
                0
            } else {
                stamp + 1
            };
            stamp
        }
    }

    /// Takes `cost` tokens from the bucket of `key` at `now`, all or none.
    fn decide(
        &mut self,
        settings: &Settings,
        shards: usize,
        key: &K,
        cost: u32,
        now: Duration,
        now_ms: u64,
    ) -> (answer: Decision)
        requires
            old(self).valid(settings.limits()),
            shards > 0,
        ensures
            final(self).valid(settings.limits()),
            old(self).decided(
                final(self),
                *settings,
                shards as nat,
                key@,
                cost,
                now,
                now_ms,
                answer,
            ),
    {
        let ghost before = self.entries();
        let i: usize = self.find(key);
        let stamp: u64 = self.take_stamp(settings, now_ms);
        if i < self.entries.len() {
            let ghost bucket = self.entries@[i as int].bucket;
            self.entries[i].last_seen = stamp;
            let answer = self.entries[i].bucket.decide_at(cost, now);
            proof {
                assert(self.entries@ =~= before.update(i as int, self.entries@[i as int]));
                assert(served_by(bucket, self.entries@[i as int].bucket, cost, now, answer));
                assert forall|a: int, b: int| 0 <= a < b < self.entries@.len() implies (
                #[trigger] self.entries@[a]).key@ != (#[trigger] self.entries@[b]).key@ by {
                    assert(before[a].key@ != before[b].key@);
                }
            }
            return answer;
        }
        self.evict_for_insert(settings.eviction, shards, now_ms);
        let ghost kept = self.entries();
        proof {
            lemma_with_room(before, settings.eviction, shards as nat, now_ms);
        }
        let mut bucket = TokenBucket::new(settings.amount, settings.period, now);
        let ghost full = bucket;
        let answer = bucket.decide_at(cost, now);
        assert(served_by(full, bucket, cost, now, answer));
        self.entries.push(Entry { key: key.copied(), bucket, last_seen: stamp });
        proof {
            assert(self.entries@.drop_last() =~= kept);
            assert(new_bucket(full, settings.limits(), now));
            assert(served_by(full, self.entries().last().bucket, cost, now, answer));
            assert forall|a: int| 0 <= a < self.entries@.len() implies (
            #[trigger] self.entries@[a]).bucket.valid() && has_limits(
                self.entries@[a].bucket,
                settings.limits(),
            ) by {
                if a < kept.len() {
                    assert(before.contains(kept[a]));
                }
            }
            assert forall|a: int, b: int| 0 <= a < b < self.entries@.len() implies (
            #[trigger] self.entries@[a]).key@ != (#[trigger] self.entries@[b]).key@ by {
                if b < kept.len() {
                    assert(kept[a].key@ != kept[b].key@);
                } else {
                    assert(before.contains(kept[a]));
                    let k = choose|k: int| 0 <= k < before.len() && before[k] == kept[a];
                    assert(before[k].key@ != key@);
                }
            }
        }
        answer
    }

    /// What a request of `key` for `cost` tokens would get at `now`.
    pub open spec fn peeked(
        &self,
        settings: Settings,
        key: K::V,
        cost: u32,
        now: Duration,
    ) -> Decision {
        let i = place_of(self.entries(), key);
        if i < self.entries().len() {
            self.entries()[i].bucket.peeked(cost, now)
        } else if cost > settings.limits().0 {
            Decision::Impossible
        } else {
            Decision::Acquired
        }
    }

    fn peek(&self, settings: &Settings, key: &K, cost: u32, now: Duration) -> (answer: Decision)
        requires
            self.valid(settings.limits()),
        ensures
            answer == self.peeked(*settings, key@, cost, now),
    {
        let i: usize = self.find(key);
        if i < self.entries.len() {
            self.entries[i].bucket.peek_at(cost, now)
        } else if cost > settings.full_bucket() {
            Decision::Impossible
        } else {
            Decision::Acquired
        }
    }

    /// The tokens on hand for `key` at `now`.
    pub open spec fn tokens(&self, settings: Settings, key: K::V, now: Duration) -> u32 {
        let i = place_of(self.entries(), key);
        if i < self.entries().len() {
            self.entries()[i].bucket.tokens(now)
        } else {
            settings.limits().0
        }
    }

    fn available(&self, settings: &Settings, key: &K, now: Duration) -> (n: u32)
        ensures
            n == self.tokens(*settings, key@, now),
    {
        let i: usize = self.find(key);
        if i < self.entries.len() {
            self.entries[i].bucket.available_at(now)
        } else {
            settings.full_bucket()
        }
    }
}

/// A limiter with a bucket of its own for every key.
pub struct PerKey<K, C = SystemClock> {
    shards: Vec<Shard<K>>,
    shard_mask: u64,
    hasher: RandomState,
    settings: Settings,
    clock: C,
    epoch: Duration,
}

/// Whether `n` is a power of two.
pub open spec fn is_power_of_two(n: nat) -> bool {
    exists|e: nat| n == #[trigger] pow2(e)
}

/// The least power of two that is not less than `shards`.
fn round_up(shards: usize) -> (n: usize)
    requires
        shards <= usize::MAX / 2 + 1,
    ensures
        n >= 1,
        n >= shards,
        n > 1 ==> n / 2 < shards,
        n <= usize::MAX / 2 + 1,
        is_power_of_two(n as nat),
{
    let mut n: usize = 1;
    proof {
        vstd::arithmetic::power2::lemma2_to64();
        assert(pow2(0) == 1);
    }
    while n < shards
        invariant
            1 <= n,
            shards <= usize::MAX / 2 + 1,
            n > 1 ==> n / 2 < shards,
            n <= usize::MAX / 2 + 1,
            is_power_of_two(n as nat),
        decreases usize::MAX - n,
    {
        proof {
            let e = choose|e: nat| n == #[trigger] pow2(e);
            vstd::arithmetic::power2::lemma_pow2_unfold(e + 1);
            assert(pow2(e + 1) == 2 * n);
            assert(usize::MAX == 0xffff_ffff || usize::MAX == 0xffff_ffff_ffff_ffff);
            vstd::arithmetic::power2::lemma2_to64();
            vstd::arithmetic::power2::lemma2_to64_rest();
            let top: nat = if usize::MAX == 0xffff_ffff {
                31
            } else {
                63
            };
            assert(pow2(31) == 0x8000_0000);
            assert(pow2(63) == 0x8000_0000_0000_0000);
            assert(pow2(top) == usize::MAX / 2 + 1);
            if e + 1 > top {
                if e > top {
                    vstd::arithmetic::power2::lemma_pow2_strictly_increases(top, e);
                }
            } else if e + 1 < top {
                vstd::arithmetic::power2::lemma_pow2_strictly_increases(e + 1, top);
            }
        }
        n = n * 2;
    }
    n
}

/// Masking with one less than a power of two takes the remainder.
proof fn lemma_mask(hash: u64, mask: u64, shards: nat)
    requires
        is_power_of_two(shards),
        mask == shards - 1,
    ensures
        hash & mask == hash as int % shards as int,
        hash & mask < shards,
{
    let e = choose|e: nat| shards == #[trigger] pow2(e);
    vstd::arithmetic::power2::lemma2_to64();
    vstd::arithmetic::power2::lemma2_to64_rest();
    if e >= 64 {
        if e > 64 {
            vstd::arithmetic::power2::lemma_pow2_strictly_increases(64, e);
        }
        assert(mask == u64::MAX);
        assert(hash & 0xffff_ffff_ffff_ffff == hash) by (bit_vector);
    } else {
        if e < 63 {
            vstd::arithmetic::power2::lemma_pow2_strictly_increases(e, 63);
        }
        vstd::bits::lemma_u64_low_bits_mask_is_mod(hash, e);
        assert(vstd::bits::low_bits_mask(e) == mask);
    }
}

/// The entries in all of `shards`.
pub open spec fn total_entries<K: Key>(shards: Seq<Shard<K>>) -> nat
    decreases shards.len(),
{
    if shards.len() == 0 {
        0
    } else {
        total_entries(shards.drop_last()) + shards.last().entries().len()
    }
}

impl<K: Key, C> PerKey<K, C> {
    /// The shards that keys are spread over.
    pub closed spec fn shards(&self) -> Seq<Shard<K>> {
        self.shards@
    }

    /// What the buckets hold and how long they are kept.
    pub closed spec fn settings(&self) -> Settings {
        self.settings
    }

    /// The reading of the clock at which the limiter was made.
    pub closed spec fn started(&self) -> Duration {
        self.epoch
    }

    /// The time source of the limiter.
    pub closed spec fn clock(&self) -> C {
        self.clock
    }

    /// The seeded hash function that spreads keys over the shards.
    pub closed spec fn hasher(&self) -> RandomState {
        self.hasher
    }

    /// The shard of a key with this hash.
    pub open spec fn shard_of(&self, hash: u64) -> int {
        hash as int % self.shards().len() as int
    }

    /// The invariant.
    pub closed spec fn valid(&self) -> bool {
        &&& self.shards@.len() > 0
        &&& self.shards@.len() <= usize::MAX / 2 + 1
        &&& is_power_of_two(self.shards@.len())
        &&& self.shard_mask == self.shards@.len() - 1
        &&& forall|i: int|
            0 <= i < self.shards@.len() ==> (#[trigger] self.shards@[i]).valid(
                self.settings.limits(),
            )
    }

    /// Milliseconds since the limiter was made, at the reading `now`.
    pub open spec fn millis_at(&self, now: Duration) -> u64 {
        millis_of(span(max_int(now@ - self.started()@, 0) as nat))
    }

    /// The tokens on hand at `now` for a key with this hash.
    pub open spec fn tokens(&self, key: K::V, hash: u64, now: Duration) -> u32 {
        self.shards()[self.shard_of(hash)].tokens(self.settings(), key, now)
    }

    /// What a request of a key with this hash for `cost` tokens would get at `now`.
    pub open spec fn peeked(&self, key: K::V, hash: u64, cost: u32, now: Duration) -> Decision {
        self.shards()[self.shard_of(hash)].peeked(self.settings(), key, cost, now)
    }

    /// Whether a request of a key with this hash for `cost` tokens at `now` got `answer` and
    /// turned `self` into `post`. Only the key's own shard changes.
    pub open spec fn decided(
        &self,
        post: &Self,
        key: K::V,
        hash: u64,
        cost: u32,
        now: Duration,
        answer: Decision,
    ) -> bool {
        let i = self.shard_of(hash);
        &&& post.valid()
        &&& post.settings() == self.settings()
        &&& post.started() == self.started()
        &&& post.clock() == self.clock()
        &&& post.hasher() == self.hasher()
        &&& post.shards().len() == self.shards().len()
        &&& post.shards() == self.shards().update(i, post.shards()[i])
        &&& self.shards()[i].decided(
            &post.shards()[i],
            self.settings(),
            self.shards().len(),
            key,
            cost,
            now,
            self.millis_at(now),
            answer,
        )
    }

    /// The shard of a key with this hash.
    fn index_of(&self, hash: u64) -> (i: usize)
        requires
            self.valid(),
        ensures
            i == self.shard_of(hash),
            i < self.shards().len(),
    {
        proof {
            lemma_mask(hash, self.shard_mask, self.shards@.len());
        }
        (hash & self.shard_mask) as usize
    }

    /// Milliseconds since the limiter was made, at the reading `now`.
    fn millis(&self, now: Duration) -> (ms: u64)
        ensures
            ms == self.millis_at(now),
    {
        now.saturating_sub(self.epoch).millis_saturating()
    }

    /// Takes `cost` tokens at `now` from the bucket of a key with this hash, all or none.
    pub fn decide_at(&mut self, key: &K, hash: u64, cost: u32, now: Duration) -> (answer: Decision)
        requires
            old(self).valid(),
        ensures
            final(self).valid(),
            old(self).decided(final(self), key@, hash, cost, now, answer),
    {
        let now_ms: u64 = self.millis(now);
        let i: usize = self.index_of(hash);
        let shards: usize = self.shards.len();
        let settings = self.settings;
        let ghost before = self.shards@;
        let answer = self.shards[i].decide(&settings, shards, key, cost, now, now_ms);
        assert(self.shards@ =~= before.update(i as int, self.shards@[i as int]));
        answer
    }

    /// What a request of a key with this hash for `cost` tokens would get at `now`, taking nothing.
    pub fn peek_at(&self, key: &K, hash: u64, cost: u32, now: Duration) -> (answer: Decision)
        requires
            self.valid(),
        ensures
            answer == self.peeked(key@, hash, cost, now),
    {
        let i: usize = self.index_of(hash);
        self.shards[i].peek(&self.settings, key, cost, now)
    }

    /// The tokens on hand at `now` for a key with this hash.
    pub fn available_at(&self, key: &K, hash: u64, now: Duration) -> (n: u32)
        requires
            self.valid(),
        ensures
            n == self.tokens(key@, hash, now),
    {
        let i: usize = self.index_of(hash);
        self.shards[i].available(&self.settings, key, now)
    }

    /// The tokens that a bucket holds when it is full.
    pub fn capacity(&self) -> (n: u32)
        ensures
            n == self.settings().amount,
    {
        self.settings.amount
    }

    /// How many shards there are.
    pub fn shard_count(&self) -> (n: usize)
        ensures
            n == self.shards().len(),
    {
        self.shards.len()
    }

    /// How many keys are kept, saturated to `usize`.
    pub fn len(&self) -> (n: usize)
        ensures
            n == min_int(total_entries(self.shards()) as int, usize::MAX as int),
    {
        let mut n: usize = 0;
        let mut i: usize = 0;
        while i < self.shards.len()
            invariant
                i <= self.shards@.len(),
                n == min_int(total_entries(self.shards@.take(i as int)) as int, usize::MAX as int),
            decreases self.shards@.len() - i,
        {
            assert(self.shards@.take(i + 1).drop_last() =~= self.shards@.take(i as int));
            n = n.saturating_add(self.shards[i].entries.len());
            i += 1;
        }
        assert(self.shards@.take(i as int) =~= self.shards@);
        n
    }

    /// Whether no keys are kept.
    pub fn is_empty(&self) -> (yes: bool)
        ensures
            yes == (total_entries(self.shards()) == 0),
    {
        self.len() == 0
    }
}

impl<K: Key> PerKey<K, SystemClock> {
    /// A bucket of `rate` tokens for every key, refilled every second.
    pub fn per_second(rate: u32) -> (limiter: Self)
        ensures
            limiter.valid(),
            limiter.unused(),
            limiter.unasked(),
            limiter.shards().len() == 16,
            limiter.settings() == (Settings {
                amount: rate,
                period: span(1_000_000_000),
                eviction: Eviction { max_keys: Some(DEFAULT_MAX_KEYS), idle_ttl: None },
            }),
            may_be_now(limiter.clock().origin()),
            reading_of(limiter.clock(), limiter.started()),
    {
        PerKey::per_duration(rate, Duration::from_secs(1))
    }

    /// A bucket of `amount` tokens for every key, refilled every `period`.
    pub fn per_duration(amount: u32, period: Duration) -> (limiter: Self)
        ensures
            limiter.valid(),
            limiter.unused(),
            limiter.unasked(),
            limiter.shards().len() == 16,
            limiter.settings() == (Settings {
                amount,
                period,
                eviction: Eviction { max_keys: Some(DEFAULT_MAX_KEYS), idle_ttl: None },
            }),
            may_be_now(limiter.clock().origin()),
            reading_of(limiter.clock(), limiter.started()),
    {
        proof {
            vstd::arithmetic::power2::lemma2_to64();
            assert(pow2(4) == 16);
        }
        let settings = Settings { amount, period, eviction: Eviction::default() };
        PerKey::build(settings, SystemClock::new(), DEFAULT_SHARDS)
    }
}

impl<K: Key, C: Clock> PerKey<K, C> {
    /// Whether no keys are kept.
    pub open spec fn unused(&self) -> bool {
        forall|i: int|
            0 <= i < self.shards().len() ==> (#[trigger] self.shards()[i]).entries().len() == 0
    }

    /// Whether no shard has counted a use.
    pub open spec fn unasked(&self) -> bool {
        forall|i: int| 0 <= i < self.shards().len() ==> (#[trigger] self.shards()[i]).uses() == 0
    }

    fn build(settings: Settings, clock: C, shards: usize) -> (limiter: Self)
        requires
            shards <= usize::MAX / 2 + 1,
        ensures
            limiter.valid(),
            limiter.unused(),
            limiter.unasked(),
            limiter.settings() == settings,
            limiter.clock() == clock,
            reading_of(clock, limiter.started()),
            limiter.shards().len() >= shards,
            limiter.shards().len() > 1 ==> limiter.shards().len() / 2 < shards,
            is_power_of_two(limiter.shards().len()),
            is_power_of_two(shards as nat) ==> limiter.shards().len() == shards,
    {
        let count: usize = round_up(shards);
        proof {
            if is_power_of_two(shards as nat) {
                lemma_round_up_is_exact(count as nat, shards as nat);
            }
        }
        let mut list: Vec<Shard<K>> = Vec::new();
        while list.len() < count
            invariant
                list@.len() <= count,
                forall|i: int|
                    0 <= i < list@.len() ==> (#[trigger] list@[i]).entries().len() == 0,
                forall|i: int| 0 <= i < list@.len() ==> (#[trigger] list@[i]).uses() == 0,
            decreases count - list@.len(),
        {
            list.push(Shard::new());
        }
        let epoch = clock.elapsed();
        PerKey {
            shards: list,
            shard_mask: count as u64 - 1,
            hasher: new_hasher(),
            settings,
            clock,
            epoch,
        }
    }

    /// The limiter with `clock` as its time source, with no keys kept.
    pub fn with_clock<D: Clock>(self, clock: D) -> (limiter: PerKey<K, D>)
        requires
            self.valid(),
        ensures
            limiter.valid(),
            limiter.unused(),
            limiter.unasked(),
            limiter.settings() == self.settings(),
            limiter.clock() == clock,
            reading_of(clock, limiter.started()),
            limiter.shards().len() == self.shards().len(),
    {
        PerKey::build(self.settings, clock, self.shards.len())
    }

    /// The limiter with another rule for forgetting keys.
    pub fn with_eviction(self, eviction: Eviction) -> (limiter: Self)
        requires
            self.valid(),
        ensures
            limiter.valid(),
            limiter.shards() == self.shards(),
            limiter.settings() == (Settings { eviction, ..self.settings() }),
            limiter.started() == self.started(),
            limiter.clock() == self.clock(),
            limiter.hasher() == self.hasher(),
    {
        PerKey {
            shards: self.shards,
            shard_mask: self.shard_mask,
            hasher: self.hasher,
            settings: Settings { eviction, ..self.settings },
            clock: self.clock,
            epoch: self.epoch,
        }
    }

    /// The limiter with at least `shards` shards, rounded up to a power of two, with no keys kept.
    pub fn with_shards(self, shards: usize) -> (limiter: Self)
        requires
            shards <= usize::MAX / 2 + 1,
        ensures
            limiter.valid(),
            limiter.unused(),
            limiter.unasked(),
            limiter.settings() == self.settings(),
            limiter.clock() == self.clock(),
            reading_of(self.clock(), limiter.started()),
            limiter.shards().len() >= shards,
            limiter.shards().len() > 1 ==> limiter.shards().len() / 2 < shards,
            is_power_of_two(limiter.shards().len()),
    {
        PerKey::build(self.settings, self.clock, shards)
    }

    /// Reads the clock.
    pub fn read(&self) -> (now: Duration)
        ensures
            reading_of(self.clock(), now),
    {
        self.clock.elapsed()
    }
}

/// Rounding a power of two up to one gives it back.
proof fn lemma_round_up_is_exact(n: nat, m: nat)
    requires
        is_power_of_two(n),
        is_power_of_two(m),
        m <= n,
        n > 1 ==> n / 2 < m,
    ensures
        n == m,
{
    let a = choose|e: nat| n == #[trigger] pow2(e);
    let b = choose|e: nat| m == #[trigger] pow2(e);
    if a < b {
        vstd::arithmetic::power2::lemma_pow2_strictly_increases(a, b);
    } else if a > b {
        vstd::arithmetic::power2::lemma_pow2_unfold(a);
        vstd::arithmetic::power2::lemma_pow2_pos((a - 1) as nat);
        if a - 1 > b {
            vstd::arithmetic::power2::lemma_pow2_strictly_increases(b, (a - 1) as nat);
        }
    }
}

impl<K: Key + Hash, C: Clock> PerKey<K, C> {
    /// The hash by which `key` finds its shard.
    pub fn hash(&self, key: &K) -> (hash: u64)
        ensures
            may_hash_to(self.hasher(), *key, hash),
    {
        hash_of(&self.hasher, key)
    }

    /// Takes one token now from the bucket of `key`, if there is one.
    pub fn try_acquire(&mut self, key: &K) -> (ok: bool)
        requires
            old(self).valid(),
        ensures
            final(self).valid(),
            exists|hash: u64, now: Duration, answer: Decision|
                {
                    &&& may_hash_to(old(self).hasher(), *key, hash)
                    &&& reading_of(old(self).clock(), now)
                    &&& #[trigger] old(self).decided(final(self), key@, hash, 1, now, answer)
                    &&& ok == (answer is Acquired)
                },
    {
        self.try_acquire_with_cost(key, 1)
    }

    /// Takes `cost` tokens now from the bucket of `key`, all or none.
    pub fn try_acquire_with_cost(&mut self, key: &K, cost: u32) -> (ok: bool)
        requires
            old(self).valid(),
        ensures
            final(self).valid(),
            exists|hash: u64, now: Duration, answer: Decision|
                {
                    &&& may_hash_to(old(self).hasher(), *key, hash)
                    &&& reading_of(old(self).clock(), now)
                    &&& #[trigger] old(self).decided(final(self), key@, hash, cost, now, answer)
                    &&& ok == (answer is Acquired)
                },
    {
        let now = self.clock.elapsed();
        let hash: u64 = self.hash(key);
        let answer = self.decide_at(key, hash, cost, now);
        assert(old(self).decided(self, key@, hash, cost, now, answer));
        answer.is_acquired()
    }

    /// One step of an acquisition that waits for `cost` tokens of `key`.
    pub fn acquire_step(&mut self, key: &K, cost: u32) -> (step: Step)
        requires
            old(self).valid(),
        ensures
            final(self).valid(),
            exists|hash: u64, now: Duration, answer: Decision|
                {
                    &&& may_hash_to(old(self).hasher(), *key, hash)
                    &&& reading_of(old(self).clock(), now)
                    &&& #[trigger] old(self).decided(final(self), key@, hash, cost, now, answer)
                    &&& step == step_after(answer, cost, old(self).settings().amount)
                },
            cost > old(self).settings().limits().0 ==> step == Step::Failed(
                ThrottleError::CostExceedsCapacity { cost, capacity: old(self).settings().amount },
            ),
    {
        let now = self.clock.elapsed();
        let hash: u64 = self.hash(key);
        let answer = self.decide_at(key, hash, cost, now);
        assert(old(self).decided(self, key@, hash, cost, now, answer));
        proof {
            if cost > old(self).settings().limits().0 {
                lemma_an_oversized_request_fails(*old(self), *self, key@, hash, cost, now, answer);
            }
        }
        next_step(answer, cost, self.settings.amount)
    }

    /// What a request of `key` for `cost` tokens would get now, taking nothing and keeping no new
    /// key.
    pub fn peek(&self, key: &K, cost: u32) -> (answer: Decision)
        requires
            self.valid(),
        ensures
            exists|hash: u64, now: Duration|
                {
                    &&& may_hash_to(self.hasher(), *key, hash)
                    &&& reading_of(self.clock(), now)
                    &&& answer == #[trigger] self.peeked(key@, hash, cost, now)
                },
    {
        let now = self.clock.elapsed();
        let hash: u64 = self.hash(key);
        self.peek_at(key, hash, cost, now)
    }

    /// The tokens on hand for `key` now.
    pub fn available(&self, key: &K) -> (n: u32)
        requires
            self.valid(),
        ensures
            exists|hash: u64, now: Duration|
                {
                    &&& may_hash_to(self.hasher(), *key, hash)
                    &&& reading_of(self.clock(), now)
                    &&& n == #[trigger] self.tokens(key@, hash, now)
                },
    {
        let now = self.clock.elapsed();
        let hash: u64 = self.hash(key);
        let n: u32 = self.available_at(key, hash, now);
        assert(n == self.tokens(key@, hash, now));
        n
    }
}

/// The first entry of a key is where it stands.
proof fn lemma_place<K: Key>(entries: Seq<Entry<K>>, key: K::V, i: int)
    requires
        0 <= i < entries.len(),
        entries[i].key@ == key,
        forall|j: int| 0 <= j < i ==> (#[trigger] entries[j]).key@ != key,
    ensures
        place_of(entries, key) == i,
    decreases entries.len(),
{
    if i > 0 {
        let rest = entries.drop_first();
        assert(entries[0].key@ != key);
        assert forall|j: int| 0 <= j < i - 1 implies (#[trigger] rest[j]).key@ != key by {
            assert(rest[j] == entries[j + 1]);
        }
        lemma_place(rest, key, i - 1);
    }
}

/// A key stands where its entry is, or nowhere.
proof fn lemma_place_bounds<K: Key>(entries: Seq<Entry<K>>, key: K::V)
    ensures
        0 <= place_of(entries, key) <= entries.len(),
        place_of(entries, key) < entries.len() ==> entries[place_of(entries, key)].key@ == key,
        place_of(entries, key) < entries.len() <==> knows(entries, key),
        forall|j: int| 0 <= j < place_of(entries, key) ==> (#[trigger] entries[j]).key@ != key,
    decreases entries.len(),
{
    if entries.len() > 0 {
        let rest = entries.drop_first();
        lemma_place_bounds(rest, key);
        if entries[0].key@ == key {
            assert(knows(entries, key));
        } else {
            if knows(rest, key) {
                let j = choose|j: int| 0 <= j < rest.len() && (#[trigger] rest[j]).key@ == key;
                assert(entries[j + 1].key@ == key);
            }
            if knows(entries, key) {
                let j = choose|j: int| 0 <= j < entries.len() && (#[trigger] entries[j]).key@ == key;
                assert(rest[j - 1].key@ == key);
            }
            assert forall|j: int| 0 <= j < place_of(entries, key) implies (
            #[trigger] entries[j]).key@ != key by {
                if j > 0 {
                    assert(rest[j - 1] == entries[j]);
                }
            }
        }
    }
}

/// A grant takes its cost off what the key has on hand, and a refusal takes nothing, as long as
/// single tokens are counted: so a key never gets more than its bucket held.
pub proof fn lemma_a_key_pays_for_what_it_gets<K: Key, C>(
    pre: PerKey<K, C>,
    post: PerKey<K, C>,
    key: K::V,
    hash: u64,
    cost: u32,
    now: Duration,
    answer: Decision,
)
    requires
        pre.valid(),
        pre.decided(&post, key, hash, cost, now, answer),
        10 * pre.settings().limits().1 <= 43 * pre.settings().limits().2,
    ensures
        answer is Acquired <==> cost <= pre.tokens(key, hash, now),
        post.tokens(key, hash, now) == if answer is Acquired {
            pre.tokens(key, hash, now) - cost
        } else {
            pre.tokens(key, hash, now) as int
        },
{
    let i = pre.shard_of(hash);
    let before = pre.shards()[i];
    let after = post.shards()[i];
    assert(before.valid(pre.settings().limits()));
    assert(after.valid(post.settings().limits()));
    lemma_place_bounds(before.entries(), key);
    let p = place_of(before.entries(), key);
    if p < before.entries().len() {
        assert(before.entries()[p].bucket.exact());
        assert forall|j: int| 0 <= j < p implies (#[trigger] after.entries()[j]).key@ != key by {
            assert(after.entries()[j] == before.entries()[j]);
        }
        lemma_place(after.entries(), key, p);
    } else {
        let last = after.entries().len() - 1;
        assert(after.entries().last() == after.entries()[last]);
        assert forall|j: int| 0 <= j < last implies (#[trigger] after.entries()[j]).key@ != key by {
            assert(after.entries()[j].key@ != after.entries()[last].key@);
        }
        lemma_place(after.entries(), key, last);
        let full = choose|bucket: TokenBucket|
            {
                &&& new_bucket(bucket, pre.settings().limits(), now)
                &&& #[trigger] served_by(bucket, after.entries().last().bucket, cost, now, answer)
            };
        assert(full.exact());
        assert(full.tokens(now) == full.limit());
    }
}

/// What a peek promises is granted.
pub proof fn lemma_a_peek_keeps_its_promise<K: Key, C>(
    pre: PerKey<K, C>,
    post: PerKey<K, C>,
    key: K::V,
    hash: u64,
    cost: u32,
    now: Duration,
    answer: Decision,
)
    requires
        pre.valid(),
        pre.decided(&post, key, hash, cost, now, answer),
    ensures
        pre.peeked(key, hash, cost, now) is Acquired <==> answer is Acquired,
{
    let before = pre.shards()[pre.shard_of(hash)];
    let after = post.shards()[pre.shard_of(hash)];
    lemma_place_bounds(before.entries(), key);
    if place_of(before.entries(), key) >= before.entries().len() {
        let full = choose|bucket: TokenBucket|
            {
                &&& new_bucket(bucket, pre.settings().limits(), now)
                &&& #[trigger] served_by(bucket, after.entries().last().bucket, cost, now, answer)
            };
        assert(full.tokens(now) == full.limit());
    } else {
        assert(before.valid(pre.settings().limits()));
        before.entries()[place_of(before.entries(), key)].bucket.lemma_bounded(now);
    }
}

/// A request for more than a bucket can hold fails at once, for a known key and a new one alike.
pub proof fn lemma_an_oversized_request_fails<K: Key, C>(
    pre: PerKey<K, C>,
    post: PerKey<K, C>,
    key: K::V,
    hash: u64,
    cost: u32,
    now: Duration,
    answer: Decision,
)
    requires
        pre.valid(),
        pre.decided(&post, key, hash, cost, now, answer),
        cost > pre.settings().limits().0,
    ensures
        answer is Impossible,
{
    let before = pre.shards()[pre.shard_of(hash)];
    assert(before.valid(pre.settings().limits()));
    lemma_place_bounds(before.entries(), key);
}

/// A peek says at once if a bucket can never hold as many tokens.
pub proof fn lemma_an_oversized_peek_fails<K: Key, C>(
    limiter: PerKey<K, C>,
    key: K::V,
    hash: u64,
    cost: u32,
    now: Duration,
)
    requires
        limiter.valid(),
    ensures
        cost > limiter.settings().limits().0 ==> limiter.peeked(key, hash, cost, now) is Impossible,
{
    let shard = limiter.shards()[limiter.shard_of(hash)];
    assert(shard.valid(limiter.settings().limits()));
    lemma_place_bounds(shard.entries(), key);
}

/// A peek says yes exactly when the tokens on hand suffice.
pub proof fn lemma_a_peek_counts_tokens<K: Key, C>(
    limiter: PerKey<K, C>,
    key: K::V,
    hash: u64,
    cost: u32,
    now: Duration,
)
    requires
        limiter.valid(),
    ensures
        limiter.peeked(key, hash, cost, now) is Acquired <==> cost <= limiter.tokens(
            key,
            hash,
            now,
        ),
{
    let shard = limiter.shards()[limiter.shard_of(hash)];
    assert(shard.valid(limiter.settings().limits()));
    lemma_place_bounds(shard.entries(), key);
    let p = place_of(shard.entries(), key);
    if p < shard.entries().len() {
        shard.entries()[p].bucket.lemma_bounded(now);
    }
}

/// A key gets what its bucket holds and no more: while the clock stands still, what its requests
/// get in all and what is left make up what was on hand; and requests for one token each are
/// granted until that is gone.
pub proof fn lemma_a_key_gets_what_its_bucket_holds<K: Key, C>(
    states: Seq<PerKey<K, C>>,
    costs: Seq<u32>,
    answers: Seq<Decision>,
    key: K::V,
    hash: u64,
    now: Duration,
)
    requires
        states.len() == costs.len() + 1,
        answers.len() == costs.len(),
        states[0].valid(),
        10 * states[0].settings().limits().1 <= 43 * states[0].settings().limits().2,
        forall|i: int|
            0 <= i < costs.len() ==> (#[trigger] states[i]).decided(
                &states[i + 1],
                key,
                hash,
                costs[i],
                now,
                answers[i],
            ),
    ensures
        granted_in_all(costs, answers) + states.last().tokens(key, hash, now) == states[0].tokens(
            key,
            hash,
            now,
        ),
        (forall|i: int| 0 <= i < costs.len() ==> #[trigger] costs[i] == 1) ==> granted_in_all(
            costs,
            answers,
        ) == min_int(costs.len() as int, states[0].tokens(key, hash, now) as int),
{
    let tokens = Seq::new(states.len(), |i: int| states[i].tokens(key, hash, now) as int);
    lemma_settings_stay(states, costs, answers, key, hash, now);
    assert forall|i: int| 0 <= i < costs.len() implies #[trigger] pays_once(
        tokens,
        costs,
        answers,
        i,
    ) by {
        assert(states[i].valid() && states[i].settings() == states[0].settings());
        lemma_a_key_pays_for_what_it_gets(
            states[i],
            states[i + 1],
            key,
            hash,
            costs[i],
            now,
            answers[i],
        );
    }
    lemma_grants_add_up(tokens, costs, answers);
    if forall|i: int| 0 <= i < costs.len() ==> #[trigger] costs[i] == 1 {
        lemma_single_grants_stop_at_empty(tokens, costs, answers);
    }
}

proof fn lemma_settings_stay<K: Key, C>(
    states: Seq<PerKey<K, C>>,
    costs: Seq<u32>,
    answers: Seq<Decision>,
    key: K::V,
    hash: u64,
    now: Duration,
)
    requires
        states.len() == costs.len() + 1,
        answers.len() == costs.len(),
        states[0].valid(),
        forall|i: int|
            0 <= i < costs.len() ==> (#[trigger] states[i]).decided(
                &states[i + 1],
                key,
                hash,
                costs[i],
                now,
                answers[i],
            ),
    ensures
        forall|i: int|
            0 <= i < states.len() ==> (#[trigger] states[i]).valid() && states[i].settings()
                == states[0].settings(),
    decreases costs.len(),
{
    if costs.len() > 0 {
        let s = states.drop_last();
        let c = costs.drop_last();
        let a = answers.drop_last();
        assert forall|i: int| 0 <= i < c.len() implies (#[trigger] s[i]).decided(
            &s[i + 1],
            key,
            hash,
            c[i],
            now,
            a[i],
        ) by {
            assert(states[i].decided(&states[i + 1], key, hash, costs[i], now, answers[i]));
        }
        lemma_settings_stay(s, c, a, key, hash, now);
        let n = costs.len() - 1;
        assert(states[n].decided(&states[n + 1], key, hash, costs[n], now, answers[n]));
        assert forall|i: int| 0 <= i < states.len() implies (#[trigger] states[i]).valid()
            && states[i].settings() == states[0].settings() by {
            assert(s[n].settings() == s[0].settings());
            if i < s.len() {
                assert(s[i].valid() && s[i].settings() == s[0].settings());
            }
        }
    }
}

/// Keys do not share tokens: serving one key leaves the bucket of every other key that is kept as
/// it was, and makes no bucket for any other key.
pub proof fn lemma_keys_are_independent<K: Key, C>(
    pre: PerKey<K, C>,
    post: PerKey<K, C>,
    key: K::V,
    hash: u64,
    cost: u32,
    now: Duration,
    answer: Decision,
    i: int,
    j: int,
)
    requires
        pre.valid(),
        pre.decided(&post, key, hash, cost, now, answer),
        0 <= i < post.shards().len(),
        0 <= j < post.shards()[i].entries().len(),
        post.shards()[i].entries()[j].key@ != key,
    ensures
        pre.shards()[i].entries().contains(post.shards()[i].entries()[j]),
{
    let s = pre.shard_of(hash);
    let before = pre.shards()[i].entries();
    let after = post.shards()[i].entries();
    if i == s {
        assert(pre.shards()[i].valid(pre.settings().limits()));
        lemma_place_bounds(before, key);
        if place_of(before, key) < before.len() {
            assert(after[j] == before[j]);
        } else {
            let kept = with_room(
                before,
                pre.settings().eviction,
                pre.shards().len(),
                pre.millis_at(now),
            );
            lemma_with_room(
                before,
                pre.settings().eviction,
                pre.shards().len(),
                pre.millis_at(now),
            );
            assert(j < kept.len());
            assert(kept[j] == after[j]);
        }
    } else {
        assert(after[j] == before[j]);
    }
}

/// Whether every shard keeps its share of the keys at most.
pub open spec fn bounded<K: Key, C>(limiter: PerKey<K, C>) -> bool {
    forall|i: int|
        0 <= i < limiter.shards().len() ==> (limiter.settings().eviction.max_keys matches Some(max)
            ==> (#[trigger] limiter.shards()[i]).entries().len() <= share_of(
            max,
            limiter.shards().len(),
        ))
}

/// However many keys ask, no shard ever keeps more than its share of them.
pub proof fn lemma_the_number_of_keys_stays_bounded<K: Key, C>(
    pre: PerKey<K, C>,
    post: PerKey<K, C>,
    key: K::V,
    hash: u64,
    cost: u32,
    now: Duration,
    answer: Decision,
)
    requires
        bounded(pre),
        pre.decided(&post, key, hash, cost, now, answer),
    ensures
        bounded(post),
{
    let s = pre.shard_of(hash);
    if let Some(max) = pre.settings().eviction.max_keys {
        let awake = match pre.settings().eviction.idle_ttl {
            Some(ttl) => not_idle(pre.shards()[s].entries(), pre.millis_at(now), millis_up(ttl)),
            None => pre.shards()[s].entries(),
        };
        lemma_below_len(awake, share_of(max, pre.shards().len()));
        assert forall|i: int| 0 <= i < post.shards().len() implies (
        #[trigger] post.shards()[i]).entries().len() <= share_of(max, post.shards().len()) by {
            if i != s {
                assert(post.shards()[i] == pre.shards()[i]);
            } else {
                let before = pre.shards()[s].entries();
                lemma_place_bounds(before, key);
                assert(before.len() <= share_of(max, pre.shards().len()));
                if place_of(before, key) >= before.len() {
                    let kept = with_room(
                        before,
                        pre.settings().eviction,
                        pre.shards().len(),
                        pre.millis_at(now),
                    );
                    assert(kept == below(awake, share_of(max, pre.shards().len())));
                    assert(post.shards()[s].entries().len() == kept.len() + 1);
                }
            }
        }
    }
}

/// As many entries go as it takes to make room, and no more.
proof fn lemma_below_len<K>(entries: Seq<Entry<K>>, cap: nat)
    requires
        cap >= 1,
    ensures
        below(entries, cap).len() == min_int(entries.len() as int, cap - 1),
    decreases entries.len(),
{
    if entries.len() > 0 && entries.len() >= cap {
        lemma_stalest(entries);
        lemma_below_len(entries.remove(stalest(entries)), cap);
    }
}

/// All shards together keep no more keys than their shares.
pub proof fn lemma_the_total_is_bounded<K: Key>(shards: Seq<Shard<K>>, share: nat)
    requires
        forall|i: int| 0 <= i < shards.len() ==> (#[trigger] shards[i]).entries().len() <= share,
    ensures
        total_entries(shards) <= share * shards.len(),
    decreases shards.len(),
{
    if shards.len() > 0 {
        let front = shards.drop_last();
        assert forall|i: int| 0 <= i < front.len() implies (#[trigger] front[i]).entries().len()
            <= share by {
            assert(front[i] == shards[i]);
        }
        lemma_the_total_is_bounded(front, share);
        assert(shards.last() == shards[shards.len() - 1]);
        assert(share * shards.len() == share * front.len() + share) by (nonlinear_arith)
            requires
                shards.len() == front.len() + 1,
        ;
    }
}

/// Whether the limiter forgets no key.
pub open spec fn keeps_all<K: Key, C>(limiter: PerKey<K, C>) -> bool {
    limiter.settings().eviction == (Eviction { max_keys: None, idle_ttl: None })
}

/// Whether the limiter keeps a bucket for a key with this hash.
pub open spec fn keeps<K: Key, C>(limiter: PerKey<K, C>, key: K::V, hash: u64) -> bool {
    knows(limiter.shards()[limiter.shard_of(hash)].entries(), key)
}

/// Where a key stands among entries does not depend on what else they hold of other keys.
proof fn lemma_place_kept<K: Key>(before: Seq<Entry<K>>, after: Seq<Entry<K>>, key: K::V)
    requires
        before.len() <= after.len(),
        forall|j: int| 0 <= j < before.len() ==> (#[trigger] after[j]).key@ == before[j].key@,
        forall|j: int| before.len() <= j < after.len() ==> (#[trigger] after[j]).key@ != key,
    ensures
        knows(after, key) == knows(before, key),
        knows(before, key) ==> place_of(after, key) == place_of(before, key),
{
    lemma_place_bounds(before, key);
    lemma_place_bounds(after, key);
    if knows(before, key) {
        let p = place_of(before, key);
        assert(after[p].key@ == key);
        assert forall|j: int| 0 <= j < p implies (#[trigger] after[j]).key@ != key by {
            assert(before[j].key@ != key);
        }
        lemma_place(after, key, p);
    } else if knows(after, key) {
        let p = place_of(after, key);
        assert(after[p].key@ == key);
        assert(before[p].key@ == key);
    }
}

/// A request of one key leaves what any other key has on hand as it was, if no key is forgotten.
pub proof fn lemma_other_keys_keep_their_tokens<K: Key, C>(
    pre: PerKey<K, C>,
    post: PerKey<K, C>,
    key: K::V,
    hash: u64,
    cost: u32,
    now: Duration,
    answer: Decision,
    other: K::V,
    other_hash: u64,
    at: Duration,
)
    requires
        pre.valid(),
        pre.decided(&post, key, hash, cost, now, answer),
        keeps_all(pre),
        other != key,
    ensures
        post.tokens(other, other_hash, at) == pre.tokens(other, other_hash, at),
        keeps(post, other, other_hash) == keeps(pre, other, other_hash),
{
    let s = pre.shard_of(hash);
    let o = pre.shard_of(other_hash);
    let before = pre.shards()[o].entries();
    let after = post.shards()[o].entries();
    if o == s {
        lemma_place_bounds(before, key);
        lemma_place_bounds(before, other);
        lemma_place_bounds(after, other);
        let p = place_of(before, key);
        if p < before.len() {
            assert forall|j: int| 0 <= j < before.len() implies (#[trigger] after[j]).key@
                == before[j].key@ by {
                if j != p {
                    assert(after[j] == before[j]);
                }
            }
        } else {
            assert(after.drop_last() =~= before);
            assert forall|j: int| 0 <= j < before.len() implies (#[trigger] after[j]).key@
                == before[j].key@ by {
                assert(after[j] == after.drop_last()[j]);
            }
            assert(after.last() == after[before.len() as int]);
        }
        lemma_place_kept(before, after, other);
        if knows(before, other) {
            let q = place_of(before, other);
            assert(q != p);
            if p >= before.len() {
                assert(after[q] == after.drop_last()[q]);
            }
        }
    } else {
        assert(post.shards()[o] == pre.shards()[o]);
    }
}

/// A request of a key that is kept adds no entry, and one of a key that is not adds one, if no key
/// is forgotten; either way the key is kept from then on.
pub proof fn lemma_a_first_request_adds_one_key<K: Key, C>(
    pre: PerKey<K, C>,
    post: PerKey<K, C>,
    key: K::V,
    hash: u64,
    cost: u32,
    now: Duration,
    answer: Decision,
)
    requires
        pre.valid(),
        pre.decided(&post, key, hash, cost, now, answer),
        keeps_all(pre),
    ensures
        keeps(post, key, hash),
        total_entries(post.shards()) == total_entries(pre.shards()) + if keeps(pre, key, hash) {
            0int
        } else {
            1int
        },
{
    let s = pre.shard_of(hash);
    let before = pre.shards()[s].entries();
    let after = post.shards()[s].entries();
    lemma_place_bounds(before, key);
    let p = place_of(before, key);
    if p < before.len() {
        assert(after[p].key@ == key);
    } else {
        assert(after.last() == after[before.len() as int]);
    }
    assert(knows(after, key));
    lemma_total_of_update(pre.shards(), s, post.shards()[s]);
}

proof fn lemma_total_of_update<K: Key>(shards: Seq<Shard<K>>, i: int, shard: Shard<K>)
    requires
        0 <= i < shards.len(),
    ensures
        total_entries(shards.update(i, shard)) == total_entries(shards) - shards[i].entries().len()
            + shard.entries().len(),
    decreases shards.len(),
{
    let front = shards.drop_last();
    if i == shards.len() - 1 {
        assert(shards.update(i, shard).drop_last() =~= front);
    } else {
        assert(shards.update(i, shard).drop_last() =~= front.update(i, shard));
        lemma_total_of_update(front, i, shard);
    }
}

/// Whether the requests of `keys` for `costs`, made one after the other at `now`, got `answers` and
/// led from one of `states` to the next. A key has the hash that `hash` gives it.
pub open spec fn is_run<K: Key, C>(
    states: Seq<PerKey<K, C>>,
    keys: Seq<K::V>,
    costs: Seq<u32>,
    answers: Seq<Decision>,
    hash: spec_fn(K::V) -> u64,
    now: Duration,
) -> bool {
    &&& states.len() == keys.len() + 1
    &&& costs.len() == keys.len()
    &&& answers.len() == keys.len()
    &&& forall|i: int|
        0 <= i < keys.len() ==> (#[trigger] states[i]).decided(
            &states[i + 1],
            keys[i],
            hash(keys[i]),
            costs[i],
            now,
            answers[i],
        )
}

/// The tokens that the first `n` requests got `key`.
pub open spec fn granted_to<V>(
    keys: Seq<V>,
    costs: Seq<u32>,
    answers: Seq<Decision>,
    key: V,
    n: nat,
) -> nat
    decreases n,
{
    if n == 0 {
        0
    } else {
        let i = n - 1;
        granted_to(keys, costs, answers, key, i as nat) + if keys[i] == key
            && answers[i] is Acquired {
            costs[i] as nat
        } else {
            0nat
        }
    }
}

/// How many of the first `n` requests `key` made.
pub open spec fn asked_by<V>(keys: Seq<V>, key: V, n: nat) -> nat
    decreases n,
{
    if n == 0 {
        0
    } else {
        let i = n - 1;
        asked_by(keys, key, i as nat) + if keys[i] == key {
            1nat
        } else {
            0nat
        }
    }
}

/// Whatever other keys ask for in between, a key gets what its bucket held and no more: while the
/// clock stands still and no key is forgotten, what it gets in all and what it has left make up
/// what it had; and of requests for one token each it is granted as many as it makes, up to what it
/// had.
pub proof fn lemma_each_key_gets_its_own<K: Key, C>(
    states: Seq<PerKey<K, C>>,
    keys: Seq<K::V>,
    costs: Seq<u32>,
    answers: Seq<Decision>,
    hash: spec_fn(K::V) -> u64,
    now: Duration,
    key: K::V,
    n: nat,
)
    requires
        is_run(states, keys, costs, answers, hash, now),
        n <= keys.len(),
        states[0].valid(),
        keeps_all(states[0]),
        10 * states[0].settings().limits().1 <= 43 * states[0].settings().limits().2,
    ensures
        states[n as int].valid(),
        states[n as int].settings() == states[0].settings(),
        granted_to(keys, costs, answers, key, n) + states[n as int].tokens(key, hash(key), now)
            == states[0].tokens(key, hash(key), now),
        (forall|i: int| 0 <= i < costs.len() ==> #[trigger] costs[i] == 1) ==> granted_to(
            keys,
            costs,
            answers,
            key,
            n,
        ) == min_int(
            asked_by(keys, key, n) as int,
            states[0].tokens(key, hash(key), now) as int,
        ),
    decreases n,
{
    if n > 0 {
        let i = n - 1;
        lemma_each_key_gets_its_own(states, keys, costs, answers, hash, now, key, i as nat);
        assert(states[i].decided(
            &states[i + 1],
            keys[i],
            hash(keys[i]),
            costs[i],
            now,
            answers[i],
        ));
        if keys[i] == key {
            lemma_a_key_pays_for_what_it_gets(
                states[i],
                states[i + 1],
                key,
                hash(key),
                costs[i],
                now,
                answers[i],
            );
            if forall|i: int| 0 <= i < costs.len() ==> #[trigger] costs[i] == 1 {
                assert(costs[i] == 1);
            }
        } else {
            lemma_other_keys_keep_their_tokens(
                states[i],
                states[i + 1],
                keys[i],
                hash(keys[i]),
                costs[i],
                now,
                answers[i],
                key,
                hash(key),
                now,
            );
        }
    }
}

/// A limiter that starts with no keys and forgets none gives each key, of requests for one token
/// each and whatever other keys ask for in between, as many as it makes, up to what a bucket holds.
pub proof fn lemma_each_key_gets_a_bucket_of_its_own<K: Key, C: Clock>(
    states: Seq<PerKey<K, C>>,
    keys: Seq<K::V>,
    costs: Seq<u32>,
    answers: Seq<Decision>,
    hash: spec_fn(K::V) -> u64,
    now: Duration,
    key: K::V,
)
    requires
        is_run(states, keys, costs, answers, hash, now),
        states[0].valid(),
        states[0].unused(),
        keeps_all(states[0]),
        10 * states[0].settings().limits().1 <= 43 * states[0].settings().limits().2,
        forall|i: int| 0 <= i < costs.len() ==> #[trigger] costs[i] == 1,
    ensures
        granted_to(keys, costs, answers, key, keys.len()) == min_int(
            asked_by(keys, key, keys.len()) as int,
            states[0].settings().limits().0 as int,
        ),
{
    let first = states[0];
    assert(first.shards()[first.shard_of(hash(key))].entries().len() == 0);
    lemma_each_key_gets_its_own(states, keys, costs, answers, hash, now, key, keys.len());
}

/// A limiter that starts with no keys and forgets none keeps exactly the keys that have asked, each
/// of them once.
pub proof fn lemma_distinct_keys_are_kept<K: Key, C: Clock>(
    states: Seq<PerKey<K, C>>,
    keys: Seq<K::V>,
    costs: Seq<u32>,
    answers: Seq<Decision>,
    hash: spec_fn(K::V) -> u64,
    now: Duration,
    n: nat,
)
    requires
        is_run(states, keys, costs, answers, hash, now),
        n <= keys.len(),
        states[0].valid(),
        states[0].unused(),
        keeps_all(states[0]),
    ensures
        states[n as int].valid(),
        states[n as int].settings() == states[0].settings(),
        states[n as int].shards().len() == states[0].shards().len(),
        forall|key: K::V| #[trigger]
            keeps(states[n as int], key, hash(key)) <==> keys.take(n as int).contains(key),
        keys.take(n as int).to_set().finite(),
        total_entries(states[n as int].shards()) == keys.take(n as int).to_set().len(),
    decreases n,
{
    let first = states[0];
    if n == 0 {
        lemma_nothing_kept(first.shards());
        assert(keys.take(0) =~= Seq::<K::V>::empty());
        assert(keys.take(0).to_set() =~= Set::<K::V>::empty());
        assert forall|key: K::V| !(#[trigger] keeps(first, key, hash(key))) by {
            assert(first.shards()[first.shard_of(hash(key))].entries().len() == 0);
        }
    } else {
        let i = n - 1;
        lemma_distinct_keys_are_kept(states, keys, costs, answers, hash, now, i as nat);
        let pre = states[i];
        let post = states[n as int];
        assert(pre.decided(&post, keys[i], hash(keys[i]), costs[i], now, answers[i]));
        lemma_a_first_request_adds_one_key(
            pre,
            post,
            keys[i],
            hash(keys[i]),
            costs[i],
            now,
            answers[i],
        );
        let before = keys.take(i);
        let after = keys.take(n as int);
        assert(after =~= before.push(keys[i]));
        assert(after.to_set() =~= before.to_set().insert(keys[i])) by {
            assert forall|key: K::V| #[trigger] after.contains(key) <==> before.contains(key) || key
                == keys[i] by {
                if before.contains(key) {
                    let j = choose|j: int| 0 <= j < before.len() && before[j] == key;
                    assert(after[j] == key);
                }
                if key == keys[i] {
                    assert(after[i] == key);
                }
            }
        }
        assert(before.contains(keys[i]) == before.to_set().contains(keys[i]));
        assert(keeps(pre, keys[i], hash(keys[i])) <==> before.contains(keys[i]));
        assert forall|key: K::V| #[trigger] keeps(post, key, hash(key)) <==> after.contains(key) by {
            if key == keys[i] {
                assert(after[i] == key);
            } else {
                lemma_other_keys_keep_their_tokens(
                    pre,
                    post,
                    keys[i],
                    hash(keys[i]),
                    costs[i],
                    now,
                    answers[i],
                    key,
                    hash(key),
                    now,
                );
                assert(keeps(pre, key, hash(key)) <==> before.contains(key));
                assert(after.to_set().contains(key) == before.to_set().contains(key));
                assert(after.to_set().contains(key) == after.contains(key));
                assert(before.to_set().contains(key) == before.contains(key));
            }
        }
    }
}

proof fn lemma_nothing_kept<K: Key>(shards: Seq<Shard<K>>)
    requires
        forall|i: int| 0 <= i < shards.len() ==> (#[trigger] shards[i]).entries().len() == 0,
    ensures
        total_entries(shards) == 0,
    decreases shards.len(),
{
    if shards.len() > 0 {
        let front = shards.drop_last();
        assert forall|i: int| 0 <= i < front.len() implies (#[trigger] front[i]).entries().len()
            == 0 by {
            assert(front[i] == shards[i]);
        }
        lemma_nothing_kept(front);
        assert(shards.last() == shards[shards.len() - 1]);
    }
}

/// The entry of a key that the limiter keeps.
pub open spec fn entry_for<K: Key, C>(limiter: PerKey<K, C>, key: K::V, hash: u64) -> Entry<K> {
    let entries = limiter.shards()[limiter.shard_of(hash)].entries();
    entries[place_of(entries, key)]
}

/// Whether the requests of `keys` for `costs`, made one after the other at `times`, got `answers`
/// and led from one of `states` to the next. A key has the hash that `hash` gives it.
pub open spec fn is_timed_run<K: Key, C>(
    states: Seq<PerKey<K, C>>,
    keys: Seq<K::V>,
    costs: Seq<u32>,
    times: Seq<Duration>,
    answers: Seq<Decision>,
    hash: spec_fn(K::V) -> u64,
) -> bool {
    &&& states.len() == keys.len() + 1
    &&& costs.len() == keys.len()
    &&& times.len() == keys.len()
    &&& answers.len() == keys.len()
    &&& states[0].valid()
    &&& forall|i: int, j: int|
        0 <= i <= j < times.len() ==> (#[trigger] times[i])@ <= (#[trigger] times[j])@
    &&& forall|i: int|
        0 <= i < keys.len() ==> #[trigger] is_step(states, keys, costs, times, answers, hash, i)
}

/// Whether request number `i` got its answer and led from one of `states` to the next.
pub open spec fn is_step<K: Key, C>(
    states: Seq<PerKey<K, C>>,
    keys: Seq<K::V>,
    costs: Seq<u32>,
    times: Seq<Duration>,
    answers: Seq<Decision>,
    hash: spec_fn(K::V) -> u64,
    i: int,
) -> bool {
    states[i].decided(&states[i + 1], keys[i], hash(keys[i]), costs[i], times[i], answers[i])
}

/// Whether request number `j` is the latest of `key` among the first `n`.
pub open spec fn is_latest<V>(keys: Seq<V>, key: V, j: int, n: int) -> bool {
    &&& 0 <= j < n <= keys.len()
    &&& keys[j] == key
    &&& forall|m: int| j < m < n ==> #[trigger] keys[m] != key
}

/// The whole milliseconds from `start` to `now`.
pub open spec fn whole_millis(start: Duration, now: Duration) -> int {
    if now@ <= start@ {
        0
    } else {
        (now@ - start@) / 1_000_000
    }
}

proof fn lemma_only_entry<K: Key>(entries: Seq<Entry<K>>, key: K::V, i: int)
    requires
        keys_differ(entries),
        0 <= i < entries.len(),
        entries[i].key@ == key,
    ensures
        place_of(entries, key) == i,
        knows(entries, key),
{
    assert forall|j: int| 0 <= j < i implies (#[trigger] entries[j]).key@ != key by {
        assert(entries[j].key@ != entries[i].key@);
    }
    lemma_place(entries, key, i);
}

proof fn lemma_fresh_are_not_idle<K: Key>(
    entries: Seq<Entry<K>>,
    now_ms: u64,
    ttl_ms: u64,
    i: int,
)
    requires
        0 <= i < entries.len(),
    ensures
        fresh_enough(entries[i].last_seen, now_ms, ttl_ms) ==> not_idle(
            entries,
            now_ms,
            ttl_ms,
        ).contains(entries[i]),
    decreases entries.len(),
{
    let front = entries.drop_last();
    let rest = not_idle(front, now_ms, ttl_ms);
    let all = not_idle(entries, now_ms, ttl_ms);
    if fresh_enough(entries[i].last_seen, now_ms, ttl_ms) {
        if i == front.len() {
            assert(all[rest.len() as int] == entries[i]);
        } else {
            lemma_fresh_are_not_idle(front, now_ms, ttl_ms, i);
            let k = choose|k: int| 0 <= k < rest.len() && rest[k] == front[i];
            assert(all[k] == entries[i]);
        }
    }
}

proof fn lemma_what_is_not_idle_is_fresh<K: Key>(
    entries: Seq<Entry<K>>,
    now_ms: u64,
    ttl_ms: u64,
    i: int,
)
    requires
        0 <= i < not_idle(entries, now_ms, ttl_ms).len(),
    ensures
        fresh_enough(not_idle(entries, now_ms, ttl_ms)[i].last_seen, now_ms, ttl_ms),
    decreases entries.len(),
{
    let front = entries.drop_last();
    let rest = not_idle(front, now_ms, ttl_ms);
    if i < rest.len() {
        lemma_what_is_not_idle_is_fresh(front, now_ms, ttl_ms, i);
    }
}

/// A request of a key leaves its entry with the stamp of that request.
proof fn lemma_a_request_is_stamped<K: Key, C>(
    pre: PerKey<K, C>,
    post: PerKey<K, C>,
    key: K::V,
    hash: u64,
    cost: u32,
    now: Duration,
    answer: Decision,
)
    requires
        pre.valid(),
        pre.decided(&post, key, hash, cost, now, answer),
    ensures
        keeps(post, key, hash),
        entry_for(post, key, hash).last_seen == pre.settings().stamp(
            pre.shards()[pre.shard_of(hash)].uses(),
            pre.millis_at(now),
        ),
{
    let s = pre.shard_of(hash);
    let before = pre.shards()[s].entries();
    let after = post.shards()[s].entries();
    lemma_place_bounds(before, key);
    let p = place_of(before, key);
    assert(post.shards()[s].valid(post.settings().limits()));
    if p < before.len() {
        lemma_only_entry(after, key, p);
    } else {
        let last = after.len() - 1;
        assert(after.last() == after[last]);
        lemma_only_entry(after, key, last);
    }
}

/// The entry of a key that is kept after a request of another was there before, and is the same.
proof fn lemma_a_kept_entry_was_there<K: Key, C>(
    pre: PerKey<K, C>,
    post: PerKey<K, C>,
    key: K::V,
    hash: u64,
    cost: u32,
    now: Duration,
    answer: Decision,
    other: K::V,
    other_hash: u64,
)
    requires
        pre.valid(),
        pre.decided(&post, key, hash, cost, now, answer),
        other != key,
        keeps(post, other, other_hash),
    ensures
        keeps(pre, other, other_hash),
        entry_for(pre, other, other_hash) == entry_for(post, other, other_hash),
{
    let o = pre.shard_of(other_hash);
    let before = pre.shards()[o].entries();
    let after = post.shards()[o].entries();
    lemma_place_bounds(after, other);
    let q = place_of(after, other);
    lemma_keys_are_independent(pre, post, key, hash, cost, now, answer, o, q);
    let i = choose|i: int| 0 <= i < before.len() && before[i] == after[q];
    assert(pre.shards()[o].valid(pre.settings().limits()));
    lemma_only_entry(before, other, i);
}

/// A request of one key leaves the entry of another where it was, if that has not been idle for too
/// long and there is no cap.
proof fn lemma_a_fresh_entry_stays<K: Key, C>(
    pre: PerKey<K, C>,
    post: PerKey<K, C>,
    key: K::V,
    hash: u64,
    cost: u32,
    now: Duration,
    answer: Decision,
    other: K::V,
    other_hash: u64,
)
    requires
        pre.valid(),
        pre.decided(&post, key, hash, cost, now, answer),
        other != key,
        keeps(pre, other, other_hash),
        pre.settings().eviction.max_keys is None,
        pre.settings().eviction.idle_ttl matches Some(ttl) ==> fresh_enough(
            entry_for(pre, other, other_hash).last_seen,
            pre.millis_at(now),
            millis_up(ttl),
        ),
    ensures
        keeps(post, other, other_hash),
        entry_for(post, other, other_hash) == entry_for(pre, other, other_hash),
{
    let s = pre.shard_of(hash);
    let o = pre.shard_of(other_hash);
    let before = pre.shards()[o].entries();
    let after = post.shards()[o].entries();
    lemma_place_bounds(before, other);
    let q = place_of(before, other);
    assert(post.shards()[o].valid(post.settings().limits()));
    if o == s {
        lemma_place_bounds(before, key);
        let p = place_of(before, key);
        if p < before.len() {
            assert(q != p);
            assert(after[q] == before[q]);
            lemma_only_entry(after, other, q);
        } else {
            let kept = with_room(
                before,
                pre.settings().eviction,
                pre.shards().len(),
                pre.millis_at(now),
            );
            assert(kept.contains(before[q])) by {
                if let Some(ttl) = pre.settings().eviction.idle_ttl {
                    lemma_fresh_are_not_idle(before, pre.millis_at(now), millis_up(ttl), q);
                } else {
                    assert(kept[q] == before[q]);
                }
            }
            let k = choose|k: int| 0 <= k < kept.len() && kept[k] == before[q];
            assert(after.drop_last()[k] == after[k]);
            lemma_only_entry(after, other, k);
        }
    } else {
        assert(post.shards()[o] == pre.shards()[o]);
    }
}

/// Every state of a run is valid and has the settings that the first has.
proof fn lemma_a_run_keeps_the_settings<K: Key, C>(
    states: Seq<PerKey<K, C>>,
    keys: Seq<K::V>,
    costs: Seq<u32>,
    times: Seq<Duration>,
    answers: Seq<Decision>,
    hash: spec_fn(K::V) -> u64,
    n: nat,
)
    requires
        is_timed_run(states, keys, costs, times, answers, hash),
        n <= keys.len(),
    ensures
        states[n as int].valid(),
        states[n as int].settings() == states[0].settings(),
        states[n as int].started() == states[0].started(),
        states[n as int].shards().len() == states[0].shards().len(),
    decreases n,
{
    if n > 0 {
        let i = n - 1;
        lemma_a_run_keeps_the_settings(states, keys, costs, times, answers, hash, i as nat);
        assert(is_step(states, keys, costs, times, answers, hash, i));
    }
}

/// The stamp of a key that is kept is that of its latest request.
proof fn lemma_stamps_are_latest<K: Key, C: Clock>(
    states: Seq<PerKey<K, C>>,
    keys: Seq<K::V>,
    costs: Seq<u32>,
    times: Seq<Duration>,
    answers: Seq<Decision>,
    hash: spec_fn(K::V) -> u64,
    key: K::V,
    n: nat,
)
    requires
        is_timed_run(states, keys, costs, times, answers, hash),
        states[0].unused(),
        n <= keys.len(),
        keeps(states[n as int], key, hash(key)),
    ensures
        exists|j: int|
            {
                &&& #[trigger] is_latest(keys, key, j, n as int)
                &&& entry_for(states[n as int], key, hash(key)).last_seen
                    == states[j].settings().stamp(
                    states[j].shards()[states[j].shard_of(hash(key))].uses(),
                    states[j].millis_at(times[j]),
                )
            },
    decreases n,
{
    if n == 0 {
        let first = states[0];
        assert(first.shards()[first.shard_of(hash(key))].entries().len() == 0);
    } else {
        let i = n - 1;
        lemma_a_run_keeps_the_settings(states, keys, costs, times, answers, hash, i as nat);
        assert(is_step(states, keys, costs, times, answers, hash, i));
        if keys[i] == key {
            lemma_a_request_is_stamped(
                states[i],
                states[i + 1],
                key,
                hash(key),
                costs[i],
                times[i],
                answers[i],
            );
            assert(is_latest(keys, key, i, n as int));
        } else {
            lemma_a_kept_entry_was_there(
                states[i],
                states[i + 1],
                keys[i],
                hash(keys[i]),
                costs[i],
                times[i],
                answers[i],
                key,
                hash(key),
            );
            lemma_stamps_are_latest(states, keys, costs, times, answers, hash, key, i as nat);
            let j = choose|j: int|
                {
                    &&& #[trigger] is_latest(keys, key, j, i)
                    &&& entry_for(states[i], key, hash(key)).last_seen
                        == states[j].settings().stamp(
                        states[j].shards()[states[j].shard_of(hash(key))].uses(),
                        states[j].millis_at(times[j]),
                    )
                };
            assert(is_latest(keys, key, j, n as int));
        }
    }
}

/// A key that asked, granted or refused, is kept as long as its latest request lies less than the
/// idle time back, in whole milliseconds, whatever other keys ask for meanwhile: it has the bucket
/// that its latest request left it. This is so where there is no cap on the number of keys.
pub proof fn lemma_a_busy_key_is_kept<K: Key, C: Clock>(
    states: Seq<PerKey<K, C>>,
    keys: Seq<K::V>,
    costs: Seq<u32>,
    times: Seq<Duration>,
    answers: Seq<Decision>,
    hash: spec_fn(K::V) -> u64,
    ttl: Duration,
    key: K::V,
    j: int,
    n: int,
    at: Duration,
)
    requires
        is_timed_run(states, keys, costs, times, answers, hash),
        states[0].settings().eviction == (Eviction { max_keys: None, idle_ttl: Some(ttl) }),
        is_latest(keys, key, j, n),
        whole_millis(states[0].started(), times[n - 1]) < u64::MAX,
        (whole_millis(states[0].started(), times[n - 1]) - whole_millis(
            states[0].started(),
            times[j],
        )) * 1_000_000 < ttl@ || n == j + 1,
    ensures
        keeps(states[n], key, hash(key)),
        states[n].tokens(key, hash(key), at) == states[j + 1].tokens(key, hash(key), at),
{
    lemma_entry_of_busy_key(states, keys, costs, times, answers, hash, ttl, key, j, n);
    let h = hash(key);
    lemma_a_run_keeps_the_settings(states, keys, costs, times, answers, hash, n as nat);
    lemma_a_run_keeps_the_settings(states, keys, costs, times, answers, hash, (j + 1) as nat);
    lemma_place_bounds(states[n].shards()[states[n].shard_of(h)].entries(), key);
    lemma_place_bounds(states[j + 1].shards()[states[j + 1].shard_of(h)].entries(), key);
}

proof fn lemma_entry_of_busy_key<K: Key, C: Clock>(
    states: Seq<PerKey<K, C>>,
    keys: Seq<K::V>,
    costs: Seq<u32>,
    times: Seq<Duration>,
    answers: Seq<Decision>,
    hash: spec_fn(K::V) -> u64,
    ttl: Duration,
    key: K::V,
    j: int,
    n: int,
)
    requires
        is_timed_run(states, keys, costs, times, answers, hash),
        states[0].settings().eviction == (Eviction { max_keys: None, idle_ttl: Some(ttl) }),
        is_latest(keys, key, j, n),
        whole_millis(states[0].started(), times[n - 1]) < u64::MAX,
        (whole_millis(states[0].started(), times[n - 1]) - whole_millis(
            states[0].started(),
            times[j],
        )) * 1_000_000 < ttl@ || n == j + 1,
    ensures
        keeps(states[j + 1], key, hash(key)),
        keeps(states[n], key, hash(key)),
        entry_for(states[n], key, hash(key)) == entry_for(states[j + 1], key, hash(key)),
        entry_for(states[n], key, hash(key)).last_seen == states[0].millis_at(times[j]),
    decreases n,
{
    let i = n - 1;
    lemma_a_run_keeps_the_settings(states, keys, costs, times, answers, hash, i as nat);
    assert(is_step(states, keys, costs, times, answers, hash, i));
    if i == j {
        lemma_a_request_is_stamped(
            states[i],
            states[i + 1],
            key,
            hash(key),
            costs[i],
            times[i],
            answers[i],
        );
    } else {
        assert(keys[i] != key);
        assert(is_latest(keys, key, j, i));
        assert(times[i - 1]@ <= times[i]@);
        assert(times[j]@ <= times[i]@);
        lemma_entry_of_busy_key(states, keys, costs, times, answers, hash, ttl, key, j, i);
        lemma_a_fresh_entry_stays(
            states[i],
            states[i + 1],
            keys[i],
            hash(keys[i]),
            costs[i],
            times[i],
            answers[i],
            key,
            hash(key),
        );
    }
}

/// A key whose latest request lies the idle time back or more, in whole milliseconds, is forgotten
/// when a key that is not kept asks for the first time in the same shard.
pub proof fn lemma_an_idle_key_is_forgotten<K: Key, C: Clock>(
    states: Seq<PerKey<K, C>>,
    keys: Seq<K::V>,
    costs: Seq<u32>,
    times: Seq<Duration>,
    answers: Seq<Decision>,
    hash: spec_fn(K::V) -> u64,
    ttl: Duration,
    key: K::V,
    j: int,
    n: int,
)
    requires
        is_timed_run(states, keys, costs, times, answers, hash),
        states[0].unused(),
        states[0].settings().eviction.idle_ttl == Some(ttl),
        n < keys.len(),
        is_latest(keys, key, j, n),
        keys[n] != key,
        !keeps(states[n], keys[n], hash(keys[n])),
        states[n].shard_of(hash(keys[n])) == states[n].shard_of(hash(key)),
        whole_millis(states[0].started(), times[n]) < u64::MAX,
        (whole_millis(states[0].started(), times[n]) - whole_millis(states[0].started(), times[j]))
            * 1_000_000 >= ttl@,
    ensures
        !keeps(states[n + 1], key, hash(key)),
{
    if keeps(states[n + 1], key, hash(key)) {
        lemma_a_run_keeps_the_settings(states, keys, costs, times, answers, hash, n as nat);
        lemma_a_run_keeps_the_settings(states, keys, costs, times, answers, hash, j as nat);
        let pre = states[n];
        let post = states[n + 1];
        let s = pre.shard_of(hash(key));
        assert(is_step(states, keys, costs, times, answers, hash, n));
        lemma_a_kept_entry_was_there(
            pre,
            post,
            keys[n],
            hash(keys[n]),
            costs[n],
            times[n],
            answers[n],
            key,
            hash(key),
        );
        lemma_stamps_are_latest(states, keys, costs, times, answers, hash, key, n as nat);
        let i = choose|i: int|
            {
                &&& #[trigger] is_latest(keys, key, i, n)
                &&& entry_for(states[n], key, hash(key)).last_seen == states[i].settings().stamp(
                    states[i].shards()[states[i].shard_of(hash(key))].uses(),
                    states[i].millis_at(times[i]),
                )
            };
        assert(i == j);
        let before = pre.shards()[s].entries();
        let after = post.shards()[s].entries();
        let now_ms = pre.millis_at(times[n]);
        let ttl_ms = millis_up(ttl);
        assert(times[j]@ <= times[n]@);
        lemma_place_bounds(before, keys[n]);
        lemma_place_bounds(after, key);
        let q = place_of(after, key);
        let kept = with_room(before, pre.settings().eviction, pre.shards().len(), now_ms);
        assert(after.last() == after[after.len() - 1]);
        assert(after.drop_last()[q] == after[q]);
        assert(kept[q] == after[q]);
        let awake = not_idle(before, now_ms, ttl_ms);
        assert(awake.contains(kept[q])) by {
            if let Some(max) = pre.settings().eviction.max_keys {
                assert(pre.shards()[s].valid(pre.settings().limits()));
                lemma_not_idle(before, now_ms, ttl_ms);
                lemma_below(awake, share_of(max, pre.shards().len()));
            } else {
                assert(awake[q] == kept[q]);
            }
        }
        let w = choose|w: int| 0 <= w < awake.len() && awake[w] == kept[q];
        lemma_what_is_not_idle_is_fresh(before, now_ms, ttl_ms, w);
        assert(false);
    }
}

/// How many of the first `n` requests went to the shard `s` of `shards`.
spec fn asks_of<V>(keys: Seq<V>, hash: spec_fn(V) -> u64, shards: int, s: int, n: nat) -> nat
    decreases n,
{
    if n == 0 {
        0
    } else {
        asks_of(keys, hash, shards, s, (n - 1) as nat) + if hash(keys[n - 1]) as int % shards == s {
            1nat
        } else {
            0nat
        }
    }
}

proof fn lemma_uses_are_asks<K: Key, C: Clock>(
    states: Seq<PerKey<K, C>>,
    keys: Seq<K::V>,
    costs: Seq<u32>,
    times: Seq<Duration>,
    answers: Seq<Decision>,
    hash: spec_fn(K::V) -> u64,
    s: int,
    n: nat,
)
    requires
        is_timed_run(states, keys, costs, times, answers, hash),
        states[0].settings().eviction.idle_ttl is None,
        0 <= s < states[0].shards().len(),
        states[0].shards()[s].uses() == 0,
        n <= keys.len() <= u64::MAX,
    ensures
        states[n as int].shards()[s].uses() == asks_of(
            keys,
            hash,
            states[0].shards().len() as int,
            s,
            n,
        ),
        asks_of(keys, hash, states[0].shards().len() as int, s, n) <= n,
    decreases n,
{
    if n > 0 {
        let i = n - 1;
        lemma_uses_are_asks(states, keys, costs, times, answers, hash, s, i as nat);
        lemma_a_run_keeps_the_settings(states, keys, costs, times, answers, hash, i as nat);
        assert(is_step(states, keys, costs, times, answers, hash, i));
    }
}

proof fn lemma_asks_grow<V>(
    keys: Seq<V>,
    hash: spec_fn(V) -> u64,
    shards: int,
    s: int,
    i: nat,
    j: nat,
)
    requires
        i < j,
        hash(keys[i as int]) as int % shards == s,
    ensures
        asks_of(keys, hash, shards, s, i) < asks_of(keys, hash, shards, s, j),
    decreases j,
{
    if i + 1 < j {
        lemma_asks_grow(keys, hash, shards, s, i, (j - 1) as nat);
    }
}

/// The least recently used go first: where keys are capped in number and do not expire, a key that
/// is forgotten when another asks for the first time had its latest request before that of any key
/// of the shard that stays; and one is forgotten only where the shard holds its share of the cap.
pub proof fn lemma_the_least_recently_asked_go<K: Key, C: Clock>(
    states: Seq<PerKey<K, C>>,
    keys: Seq<K::V>,
    costs: Seq<u32>,
    times: Seq<Duration>,
    answers: Seq<Decision>,
    hash: spec_fn(K::V) -> u64,
    max: usize,
    gone: K::V,
    i: int,
    kept: K::V,
    j: int,
    n: int,
)
    requires
        is_timed_run(states, keys, costs, times, answers, hash),
        states[0].unused(),
        states[0].settings().eviction == (Eviction { max_keys: Some(max), idle_ttl: None }),
        states[0].unasked(),
        0 <= n < keys.len() <= u64::MAX,
        is_latest(keys, gone, i, n),
        is_latest(keys, kept, j, n),
        keeps(states[n], gone, hash(gone)),
        !keeps(states[n + 1], gone, hash(gone)),
        keeps(states[n + 1], kept, hash(kept)),
        keys[n] != kept,
        states[0].shard_of(hash(gone)) == states[0].shard_of(hash(kept)),
    ensures
        i < j,
        states[n].shards()[states[n].shard_of(hash(gone))].entries().len() * states[n].shards().len()
            >= max,
{
    let pre = states[n];
    let post = states[n + 1];
    let s = states[0].shard_of(hash(gone));
    let shards = states[0].shards().len() as int;
    lemma_a_run_keeps_the_settings(states, keys, costs, times, answers, hash, n as nat);
    assert(is_step(states, keys, costs, times, answers, hash, n));
    let before = pre.shards()[s].entries();
    let after = post.shards()[s].entries();
    assert(pre.shards()[s].valid(pre.settings().limits()));
    assert(keys[n] != gone) by {
        if keys[n] == gone {
            lemma_a_request_is_stamped(
                pre,
                post,
                gone,
                hash(gone),
                costs[n],
                times[n],
                answers[n],
            );
        }
    }
    lemma_a_kept_entry_was_there(
        pre,
        post,
        keys[n],
        hash(keys[n]),
        costs[n],
        times[n],
        answers[n],
        kept,
        hash(kept),
    );
    lemma_place_bounds(before, gone);
    lemma_place_bounds(before, kept);
    lemma_place_bounds(before, keys[n]);
    lemma_place_bounds(after, kept);
    lemma_place_bounds(after, gone);
    let g = before[place_of(before, gone)];
    let k = before[place_of(before, kept)];
    assert(pre.shard_of(hash(keys[n])) == s) by {
        if pre.shard_of(hash(keys[n])) != s {
            assert(post.shards()[s] == pre.shards()[s]);
        }
    }
    let share = share_of(max, pre.shards().len());
    let left = below(before, share);
    if place_of(before, keys[n]) < before.len() {
        let p = place_of(before, keys[n]);
        assert(place_of(before, gone) != p);
        assert(after[place_of(before, gone)] == before[place_of(before, gone)]);
        assert(after[place_of(before, gone)].key@ == gone);
        assert(knows(after, gone));
        assert(false);
    }
    assert(after.drop_last() == left);
    assert(!left.contains(g)) by {
        if left.contains(g) {
            let w = choose|w: int| 0 <= w < left.len() && left[w] == g;
            assert(after.drop_last()[w] == after[w]);
            assert(after[w].key@ == gone);
            assert(knows(after, gone));
        }
    }
    assert(left.contains(k)) by {
        let q = place_of(after, kept);
        assert(after.last() == after[after.len() - 1]);
        assert(q < after.len() - 1);
        assert(after.drop_last()[q] == after[q]);
        assert(left[q] == k);
    }
    assert(before.contains(g));
    lemma_the_least_recently_used_go(before, share, g, k);
    if before.len() < share {
        assert(left == before);
        assert(false);
    }
    assert(before.len() * shards >= max) by {
        assert(share >= 1);
        let r = (max + shards - 1) / shards;
        assert(r * shards >= max) by (nonlinear_arith)
            requires
                r == (max + shards - 1) / shards,
                shards > 0,
        ;
        assert(before.len() * shards >= r * shards) by (nonlinear_arith)
            requires
                before.len() >= r,
                shards > 0,
        ;
    }
    lemma_stamps_are_latest(states, keys, costs, times, answers, hash, gone, n as nat);
    lemma_stamps_are_latest(states, keys, costs, times, answers, hash, kept, n as nat);
    let a = choose|a: int|
        {
            &&& #[trigger] is_latest(keys, gone, a, n)
            &&& entry_for(states[n], gone, hash(gone)).last_seen == states[a].settings().stamp(
                states[a].shards()[states[a].shard_of(hash(gone))].uses(),
                states[a].millis_at(times[a]),
            )
        };
    let b = choose|b: int|
        {
            &&& #[trigger] is_latest(keys, kept, b, n)
            &&& entry_for(states[n], kept, hash(kept)).last_seen == states[b].settings().stamp(
                states[b].shards()[states[b].shard_of(hash(kept))].uses(),
                states[b].millis_at(times[b]),
            )
        };
    assert(a == i && b == j);
    lemma_a_run_keeps_the_settings(states, keys, costs, times, answers, hash, i as nat);
    lemma_a_run_keeps_the_settings(states, keys, costs, times, answers, hash, j as nat);
    lemma_uses_are_asks(states, keys, costs, times, answers, hash, s, i as nat);
    lemma_uses_are_asks(states, keys, costs, times, answers, hash, s, j as nat);
    if i > j {
        lemma_asks_grow(keys, hash, shards, s, j as nat, i as nat);
    }
    assert(gone != kept);
}

/// Where keys are capped in number, all shards together keep no more than the cap, and one less
/// than there are shards, for the cap is shared out evenly.
pub proof fn lemma_no_more_keys_than_the_cap<K: Key, C>(limiter: PerKey<K, C>, max: usize)
    requires
        limiter.valid(),
        bounded(limiter),
        limiter.settings().eviction.max_keys == Some(max),
    ensures
        total_entries(limiter.shards()) <= max_int(max as int, 1) + limiter.shards().len() - 1,
{
    let shards = limiter.shards().len() as int;
    let share = share_of(max, limiter.shards().len());
    assert forall|i: int| 0 <= i < shards implies (#[trigger] limiter.shards()[i]).entries().len()
        <= share by {}
    lemma_the_total_is_bounded(limiter.shards(), share);
    let r = (max + shards - 1) / shards;
    assert(r * shards <= max + shards - 1) by (nonlinear_arith)
        requires
            r == (max + shards - 1) / shards,
            shards > 0,
    ;
    assert(share == max_int(r, 1));
    if r < 1 {
        assert(share * shards == shards) by (nonlinear_arith)
            requires
                share == 1,
        ;
    }
}

/// Time is counted in whole milliseconds from when the limiter was made.
pub proof fn lemma_time_is_counted_from_the_start<K: Key, C>(limiter: PerKey<K, C>, now: Duration)
    requires
        limiter.started()@ <= now@,
        now@ - limiter.started()@ <= u64::MAX as nat * 1_000_000,
    ensures
        limiter.millis_at(now) * 1_000_000 <= now@ - limiter.started()@ < (limiter.millis_at(now) + 1)
            * 1_000_000,
{
}

/// Where keys are capped in number and do not expire, a key that asks for the first time takes a
/// place that is free while its shard holds less than its share of the cap, and the place of one
/// other key once it holds its share.
pub proof fn lemma_one_key_makes_room_for_another<K: Key, C>(
    pre: PerKey<K, C>,
    post: PerKey<K, C>,
    key: K::V,
    hash: u64,
    cost: u32,
    now: Duration,
    answer: Decision,
    max: usize,
)
    requires
        pre.valid(),
        bounded(pre),
        pre.settings().eviction == (Eviction { max_keys: Some(max), idle_ttl: None }),
        pre.decided(&post, key, hash, cost, now, answer),
        !keeps(pre, key, hash),
    ensures
        ({
            let held = pre.shards()[pre.shard_of(hash)].entries().len();
            let holds = post.shards()[pre.shard_of(hash)].entries().len();
            &&& held == 0 || held * pre.shards().len() < max ==> holds == held + 1
            &&& held > 0 && held * pre.shards().len() >= max ==> holds == held
        }),
{
    let s = pre.shard_of(hash);
    let before = pre.shards()[s].entries();
    let shards = pre.shards().len() as int;
    let share = share_of(max, pre.shards().len());
    let held = before.len() as int;
    lemma_place_bounds(before, key);
    lemma_below_len(before, share);
    assert(pre.shards()[s].entries().len() <= share);
    let r = (max + shards - 1) / shards;
    assert(r * shards >= max && (r - 1) * shards < max) by (nonlinear_arith)
        requires
            r == (max + shards - 1) / shards,
            shards > 0,
    ;
    if held < r {
        assert(held * shards <= (r - 1) * shards) by (nonlinear_arith)
            requires
                held <= r - 1,
                shards > 0,
        ;
    } else {
        assert(held * shards >= r * shards) by (nonlinear_arith)
            requires
                held >= r,
                shards > 0,
        ;
    }
}

/// Where keys are capped in number and expire too, a key that is forgotten before its time, when
/// another asks for the first time, had its latest request no later than any key of the shard that
/// stays, in whole milliseconds.
pub proof fn lemma_the_longest_unasked_go<K: Key, C: Clock>(
    states: Seq<PerKey<K, C>>,
    keys: Seq<K::V>,
    costs: Seq<u32>,
    times: Seq<Duration>,
    answers: Seq<Decision>,
    hash: spec_fn(K::V) -> u64,
    max: usize,
    ttl: Duration,
    gone: K::V,
    i: int,
    kept: K::V,
    j: int,
    n: int,
)
    requires
        is_timed_run(states, keys, costs, times, answers, hash),
        states[0].unused(),
        states[0].settings().eviction == (Eviction { max_keys: Some(max), idle_ttl: Some(ttl) }),
        0 <= n < keys.len(),
        is_latest(keys, gone, i, n),
        is_latest(keys, kept, j, n),
        keeps(states[n], gone, hash(gone)),
        !keeps(states[n + 1], gone, hash(gone)),
        keeps(states[n + 1], kept, hash(kept)),
        keys[n] != kept,
        states[0].shard_of(hash(gone)) == states[0].shard_of(hash(kept)),
        whole_millis(states[0].started(), times[n]) < u64::MAX,
        (whole_millis(states[0].started(), times[n]) - whole_millis(states[0].started(), times[i]))
            * 1_000_000 < ttl@,
    ensures
        whole_millis(states[0].started(), times[i]) <= whole_millis(states[0].started(), times[j]),
{
    let pre = states[n];
    let post = states[n + 1];
    let s = states[0].shard_of(hash(gone));
    lemma_a_run_keeps_the_settings(states, keys, costs, times, answers, hash, n as nat);
    assert(is_step(states, keys, costs, times, answers, hash, n));
    assert(keys[n] != gone) by {
        if keys[n] == gone {
            lemma_a_request_is_stamped(
                pre,
                post,
                gone,
                hash(gone),
                costs[n],
                times[n],
                answers[n],
            );
        }
    }
    lemma_a_kept_entry_was_there(
        pre,
        post,
        keys[n],
        hash(keys[n]),
        costs[n],
        times[n],
        answers[n],
        kept,
        hash(kept),
    );
    lemma_stamps_are_latest(states, keys, costs, times, answers, hash, gone, n as nat);
    lemma_stamps_are_latest(states, keys, costs, times, answers, hash, kept, n as nat);
    let a = choose|a: int|
        {
            &&& #[trigger] is_latest(keys, gone, a, n)
            &&& entry_for(states[n], gone, hash(gone)).last_seen == states[a].settings().stamp(
                states[a].shards()[states[a].shard_of(hash(gone))].uses(),
                states[a].millis_at(times[a]),
            )
        };
    let b = choose|b: int|
        {
            &&& #[trigger] is_latest(keys, kept, b, n)
            &&& entry_for(states[n], kept, hash(kept)).last_seen == states[b].settings().stamp(
                states[b].shards()[states[b].shard_of(hash(kept))].uses(),
                states[b].millis_at(times[b]),
            )
        };
    assert(a == i && b == j);
    lemma_a_run_keeps_the_settings(states, keys, costs, times, answers, hash, i as nat);
    lemma_a_run_keeps_the_settings(states, keys, costs, times, answers, hash, j as nat);
    assert(times[i]@ <= times[n]@ && times[j]@ <= times[n]@);
    let before = pre.shards()[s].entries();
    lemma_place_bounds(before, gone);
    lemma_place_bounds(before, kept);
    lemma_cap_goes_by_stamps(
        pre,
        post,
        keys[n],
        hash(keys[n]),
        costs[n],
        times[n],
        answers[n],
        gone,
        kept,
        s,
    );
}

/// Of the entries that are not idle, those that make room have the lowest stamps.
proof fn lemma_cap_goes_by_stamps<K: Key, C>(
    pre: PerKey<K, C>,
    post: PerKey<K, C>,
    key: K::V,
    hash: u64,
    cost: u32,
    now: Duration,
    answer: Decision,
    gone: K::V,
    kept: K::V,
    s: int,
)
    requires
        pre.valid(),
        pre.decided(&post, key, hash, cost, now, answer),
        0 <= s < pre.shards().len(),
        key != gone,
        key != kept,
        knows(pre.shards()[s].entries(), gone),
        knows(pre.shards()[s].entries(), kept),
        !knows(post.shards()[s].entries(), gone),
        knows(post.shards()[s].entries(), kept),
        pre.settings().eviction.max_keys is Some,
        pre.settings().eviction.idle_ttl matches Some(ttl) && fresh_enough(
            pre.shards()[s].entries()[place_of(pre.shards()[s].entries(), gone)].last_seen,
            pre.millis_at(now),
            millis_up(ttl),
        ),
    ensures
        ({
            let before = pre.shards()[s].entries();
            before[place_of(before, gone)].last_seen <= before[place_of(before, kept)].last_seen
        }),
{
    let before = pre.shards()[s].entries();
    let after = post.shards()[s].entries();
    let now_ms = pre.millis_at(now);
    let ttl_ms = millis_up(pre.settings().eviction.idle_ttl->0);
    assert(pre.shards()[s].valid(pre.settings().limits()));
    lemma_place_bounds(before, gone);
    lemma_place_bounds(before, kept);
    lemma_place_bounds(before, key);
    lemma_place_bounds(after, kept);
    lemma_place_bounds(after, gone);
    let g = before[place_of(before, gone)];
    let k = before[place_of(before, kept)];
    assert(pre.shard_of(hash) == s) by {
        if pre.shard_of(hash) != s {
            assert(post.shards()[s] == pre.shards()[s]);
        }
    }
    if place_of(before, key) < before.len() {
        assert(after[place_of(before, gone)].key@ == gone);
        assert(knows(after, gone));
        assert(false);
    }
    let awake = not_idle(before, now_ms, ttl_ms);
    let share = share_of(pre.settings().eviction.max_keys->0, pre.shards().len());
    let left = below(awake, share);
    assert(after.drop_last() == left);
    lemma_not_idle(before, now_ms, ttl_ms);
    lemma_below(awake, share);
    lemma_fresh_are_not_idle(before, now_ms, ttl_ms, place_of(before, gone));
    assert(!left.contains(g)) by {
        if left.contains(g) {
            let w = choose|w: int| 0 <= w < left.len() && left[w] == g;
            assert(after.drop_last()[w] == after[w]);
            assert(after[w].key@ == gone);
            assert(knows(after, gone));
        }
    }
    assert(left.contains(k)) by {
        let q = place_of(after, kept);
        assert(after.last() == after[after.len() - 1]);
        assert(after.drop_last()[q] == after[q]);
        assert(awake.contains(left[q]));
        let w = choose|w: int| 0 <= w < awake.len() && awake[w] == left[q];
        assert(before.contains(awake[w]));
        let v = choose|v: int| 0 <= v < before.len() && before[v] == awake[w];
        lemma_only_entry(before, kept, v);
        assert(left[q] == k);
    }
    lemma_the_least_recently_used_go(awake, share, g, k);
}

/// What the requests of `key` among those of `keys` got; the others count as refused.
pub open spec fn answers_to<V>(keys: Seq<V>, answers: Seq<Decision>, key: V) -> Seq<Decision> {
    Seq::new(
        answers.len(),
        |i: int|
            if keys[i] == key {
                answers[i]
            } else {
                Decision::Impossible
            },
    )
}

/// Every key keeps to its own rate: over any run of requests through which it is kept, and whatever
/// other keys ask for in between, the tokens that a key is granted are at most a full bucket, two
/// more, and what the rate refills from the first reading to the last.
pub proof fn lemma_each_key_keeps_to_its_rate<K: Key, C>(
    states: Seq<PerKey<K, C>>,
    keys: Seq<K::V>,
    costs: Seq<u32>,
    times: Seq<Duration>,
    answers: Seq<Decision>,
    hash: spec_fn(K::V) -> u64,
    key: K::V,
)
    requires
        is_timed_run(states, keys, costs, times, answers, hash),
        keys.len() > 0,
        forall|i: int| 0 <= i < states.len() ==> keeps(#[trigger] states[i], key, hash(key)),
        states[0].settings().amount > 0,
        0 < states[0].settings().period@ <= u64::MAX,
        10 * states[0].settings().amount <= 43 * states[0].settings().period@,
    ensures
        granted_in_all(costs, answers_to(keys, answers, key)) * states[0].settings().period@ <= (
        states[0].settings().amount + 2) * states[0].settings().period@ + (times.last()@
            - times[0]@) * states[0].settings().amount,
{
    let got = answers_to(keys, answers, key);
    let buckets = Seq::new(states.len(), |i: int| entry_for(states[i], key, hash(key)).bucket);
    assert forall|i: int| 0 <= i < states.len() implies (#[trigger] buckets[i]).valid()
        && has_limits(buckets[i], states[0].settings().limits()) by {
        lemma_a_run_keeps_the_settings(states, keys, costs, times, answers, hash, i as nat);
        let entries = states[i].shards()[states[i].shard_of(hash(key))].entries();
        assert(keeps(states[i], key, hash(key)));
        lemma_place_bounds(entries, key);
        assert(states[i].shards()[states[i].shard_of(hash(key))].valid(states[i].settings().limits()));
    }
    assert forall|i: int| 0 <= i < costs.len() implies #[trigger] crate::bucket::is_step(
        buckets,
        costs,
        times,
        got,
        i,
    ) by {
        lemma_a_run_keeps_the_settings(states, keys, costs, times, answers, hash, i as nat);
        assert(is_step(states, keys, costs, times, answers, hash, i));
        assert(keeps(states[i], key, hash(key)) && keeps(states[i + 1], key, hash(key)));
        assert(buckets[i + 1].valid());
        if keys[i] == key {
            lemma_a_kept_key_is_charged(
                states[i],
                states[i + 1],
                key,
                hash(key),
                costs[i],
                times[i],
                answers[i],
            );
        } else {
            lemma_a_kept_entry_was_there(
                states[i],
                states[i + 1],
                keys[i],
                hash(keys[i]),
                costs[i],
                times[i],
                answers[i],
                key,
                hash(key),
            );
        }
    }
    assert(buckets[0].valid());
    lemma_the_sustained_rate_is_the_refill_rate(buckets, costs, times, got);
}

/// A request of a key that is kept is answered by the bucket that is kept for it.
proof fn lemma_a_kept_key_is_charged<K: Key, C>(
    pre: PerKey<K, C>,
    post: PerKey<K, C>,
    key: K::V,
    hash: u64,
    cost: u32,
    now: Duration,
    answer: Decision,
)
    requires
        pre.valid(),
        pre.decided(&post, key, hash, cost, now, answer),
        keeps(pre, key, hash),
    ensures
        served_by(
            entry_for(pre, key, hash).bucket,
            entry_for(post, key, hash).bucket,
            cost,
            now,
            answer,
        ),
{
    let s = pre.shard_of(hash);
    let before = pre.shards()[s].entries();
    let after = post.shards()[s].entries();
    lemma_place_bounds(before, key);
    assert(post.shards()[s].valid(post.settings().limits()));
    lemma_only_entry(after, key, place_of(before, key));
}

/// A request of a key that is kept forgets no other key, however long that has been idle and
/// however many there are.
pub proof fn lemma_a_known_key_forgets_nobody<K: Key, C>(
    pre: PerKey<K, C>,
    post: PerKey<K, C>,
    key: K::V,
    hash: u64,
    cost: u32,
    now: Duration,
    answer: Decision,
    other: K::V,
    other_hash: u64,
)
    requires
        pre.valid(),
        pre.decided(&post, key, hash, cost, now, answer),
        keeps(pre, key, hash),
        keeps(pre, other, other_hash),
    ensures
        keeps(post, other, other_hash),
        other != key ==> forall|t: Duration| #[trigger]
            post.tokens(other, other_hash, t) == pre.tokens(other, other_hash, t),
{
    let s = pre.shard_of(hash);
    let o = pre.shard_of(other_hash);
    let before = pre.shards()[o].entries();
    let after = post.shards()[o].entries();
    lemma_place_bounds(before, other);
    lemma_place_bounds(pre.shards()[s].entries(), key);
    assert(post.shards()[o].valid(post.settings().limits()));
    let q = place_of(before, other);
    if o == s {
        if other == key {
            lemma_only_entry(after, other, q);
        } else {
            assert(q != place_of(before, key));
            assert(after[q] == before[q]);
            lemma_only_entry(after, other, q);
        }
    } else {
        assert(post.shards()[o] == pre.shards()[o]);
    }
}

/// A key that is refused is told the truth: once the wait it was given is over, its tokens are
/// there, unless it took them meanwhile; and a millisecond before they were not. It is refused for
/// good only what its bucket will never hold.
pub proof fn lemma_the_wait_of_a_key_is_enough<K: Key, C>(
    pre: PerKey<K, C>,
    post: PerKey<K, C>,
    key: K::V,
    hash: u64,
    cost: u32,
    now: Duration,
    answer: Decision,
    later: Duration,
)
    requires
        pre.valid(),
        keeps(pre, key, hash),
        pre.decided(&post, key, hash, cost, now, answer),
        entry_for(pre, key, hash).bucket.started()@ <= now@,
        later@ <= MAX_NANOS,
    ensures
        answer matches Decision::Retry { after } ==> now@ + after@ <= later@ ==> cost <= post.tokens(
            key,
            hash,
            later,
        ),
        answer matches Decision::Retry { after } ==> later@ + 1_000_000 <= now@ + after@ ==> cost
            > post.tokens(key, hash, later),
        answer is Impossible ==> post.tokens(key, hash, later) < cost,
        answer !is Acquired ==> post.tokens(key, hash, later) == pre.tokens(key, hash, later),
{
    let s = pre.shard_of(hash);
    let before = pre.shards()[s].entries();
    let after = post.shards()[s].entries();
    lemma_place_bounds(before, key);
    assert(pre.shards()[s].valid(pre.settings().limits()));
    assert(post.shards()[s].valid(post.settings().limits()));
    let p = place_of(before, key);
    lemma_only_entry(after, key, p);
    assert(served_by(before[p].bucket, after[p].bucket, cost, now, answer));
    if let Decision::Retry { after: wait } = answer {
        lemma_the_wait_is_enough(before[p].bucket, cost, now, wait, later);
    }
}

} // verus!
