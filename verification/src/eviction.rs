//! How many keys a keyed limiter keeps, and for how long.

use vstd::prelude::*;

use crate::time::Duration;

verus! {

/// The most keys kept where nothing else is said.
pub const DEFAULT_MAX_KEYS: usize = 1 << 20;

/// When a keyed limiter forgets a key.
#[derive(Debug, Clone, Copy, PartialEq, Eq, Structural)]
pub struct Eviction {
    /// The most keys that are kept, if there is a bound.
    pub max_keys: Option<usize>,
    /// How long a key is kept that is not used, if there is a bound.
    pub idle_ttl: Option<Duration>,
}

impl Eviction {
    /// Keeps up to `max_keys` keys, the most recently used.
    pub fn capacity(max_keys: usize) -> (eviction: Self)
        ensures
            eviction == (Eviction { max_keys: Some(max_keys), idle_ttl: None }),
    {
        Eviction { max_keys: Some(max_keys), idle_ttl: None }
    }

    /// Keeps keys for `ttl` after their last use, and no more than [`DEFAULT_MAX_KEYS`].
    pub fn idle(ttl: Duration) -> (eviction: Self)
        ensures
            eviction == (Eviction { max_keys: Some(DEFAULT_MAX_KEYS), idle_ttl: Some(ttl) }),
    {
        Eviction { max_keys: Some(DEFAULT_MAX_KEYS), idle_ttl: Some(ttl) }
    }

    /// Keeps up to `max_keys` keys, for `ttl` after their last use.
    pub fn new(max_keys: usize, ttl: Duration) -> (eviction: Self)
        ensures
            eviction == (Eviction { max_keys: Some(max_keys), idle_ttl: Some(ttl) }),
    {
        Eviction { max_keys: Some(max_keys), idle_ttl: Some(ttl) }
    }

    /// Keeps every key for ever.
    pub fn unbounded() -> (eviction: Self)
        ensures
            eviction == (Eviction { max_keys: None, idle_ttl: None }),
    {
        Eviction { max_keys: None, idle_ttl: None }
    }

    /// Sets the most keys that are kept.
    pub fn with_capacity(self, max_keys: usize) -> (eviction: Self)
        ensures
            eviction == (Eviction { max_keys: Some(max_keys), idle_ttl: self.idle_ttl }),
    {
        Eviction { max_keys: Some(max_keys), idle_ttl: self.idle_ttl }
    }

    /// Sets how long a key is kept after its last use.
    pub fn with_idle(self, ttl: Duration) -> (eviction: Self)
        ensures
            eviction == (Eviction { max_keys: self.max_keys, idle_ttl: Some(ttl) }),
    {
        Eviction { max_keys: self.max_keys, idle_ttl: Some(ttl) }
    }

    /// Lifts the bound on the number of keys.
    pub fn without_capacity(self) -> (eviction: Self)
        ensures
            eviction == (Eviction { max_keys: None, idle_ttl: self.idle_ttl }),
    {
        Eviction { max_keys: None, idle_ttl: self.idle_ttl }
    }

    /// The most keys that are kept, if there is a bound.
    pub fn max_keys(&self) -> (n: Option<usize>)
        ensures
            n == self.max_keys,
    {
        self.max_keys
    }

    /// How long a key is kept after its last use, if there is a bound.
    pub fn idle_ttl(&self) -> (ttl: Option<Duration>)
        ensures
            ttl == self.idle_ttl,
    {
        self.idle_ttl
    }
}

impl Default for Eviction {
    fn default() -> (eviction: Self)
        ensures
            eviction == (Eviction { max_keys: Some(DEFAULT_MAX_KEYS), idle_ttl: None }),
    {
        Eviction::capacity(DEFAULT_MAX_KEYS)
    }
}

} // verus!
