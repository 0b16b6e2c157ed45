# throttle-net

Outbound throttling and resilience for programs that call other services, with its logic
verified by Verus.

- Limiters: a token bucket (`Throttle`), a sliding window (`SlidingWindowLog`), both at once
  (`Hybrid`), several costs at once (`MultiLimiter`), one bucket per key with eviction (`PerKey`),
  and nested scopes (`Layered`).
- Admission: a queue with priorities, deadlines and fair turns (`Queue`).
- Resilience: a circuit breaker (`CircuitBreaker`), a concurrency limit that adapts
  (`AdaptiveLimiter`), backoff with jitter (`Backoff`) and bounded retries (`Retry`).
- Service limits: `Retry-After`, the rate-limit headers of several services, and presets.

## Layout

| Directory | What it holds |
| --- | --- |
| `src/` | The library, verified, but for the calls into outside crates that it trusts. |
| `tests/` | Tests of the library from outside. |
| `app/` | Ordinary Rust around the library: locks, async waiting, metrics, errors with `Display`. |

## Reading the contracts

A limiter reads its clock itself. What it then decides is left to a function that takes the
reading as an argument, most often with `_at` in its name: its contract says exactly what comes of
the reading. An acquisition that waits is a step function in `src/` and a loop in `app/`.

Laws that span several calls are public proof functions whose names begin with `lemma_`, in the
module that they speak of. `bucket.rs`, `clock.rs` and `perkey.rs` call outside crates; what is
believed of those calls is written above each of them.
