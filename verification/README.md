# rater

Rate limiting with token buckets, verified with Verus.

- `RateLimiter` is a bucket that threads share without locks. It refills at a steady rate, and more
  slowly while requests keep being refused.
- `IpRateLimiterManager` keeps one limiter per client address, at most 10,000 of them, and removes
  those of clients that stay away. `ConcurrentIpManager` is one that threads share.
- `RateLimiterMetrics` and `ManagerStats` hold the figures; shares are exact fractions.

## Layout

- `src/`: the library.
  - `config`, `builder`, `clock`, `address`, `metrics`: settings, time, addresses, figures.
  - `bucket`, `eviction`: the arithmetic of a bucket, and which limiters go first.
  - `cells`, `history`, `runs`, `limiter`: the atomic cells, what an access is, what each operation
    does access by access, and the operations.
  - `model`: what follows for a limiter that no other thread disturbs.
  - `effects`, `execution`: what follows for any number of threads and every memory ordering: the
    bucket never exceeds its capacity, no token is granted twice, the rate is kept, every request
    is counted once.
  - `table`, `manager`, `clients`: the limiters by address, and that clients are isolated.
  - `lock`, `shared`: the manager that threads share, behind a lock.
- `app/`: socket addresses, cleanup threads, logs, reports with rounded percentages.
- `tests/`: the library at work.

## How a limiter is specified

The state of a limiter lies in atomic cells that any thread may change at any moment. So a method
does not say what the cells hold; it says which accesses it makes and how its result follows from
their answers. The methods that end in `_traced` append these accesses to a `Trace`, which exists
only for proofs. Each access is noted with the limiter whose cells it was made to. A shared manager
is specified in the same way: a `LockRecord` lists the states that a thread found and gave back.

## What is not proved

- The values in the standard atomics. Their specification makes no statement about values, so that
  each note in a trace says what the operation above it did is read, not proved. `cells.rs` and
  `lock.rs` hold all notes, each directly below its operation.
- That a method makes no access beside those that it noted. A contract says which accesses were noted
  in the trace that the method was given; a method that made others with a trace of its own would
  meet it too.
- How the moments that the clock shows follow each other. The laws on the rate hold for readings that
  overtake each other in any order.
- That the readings of two `TimeBase`s agree. `current_time_ms`, `current_time_us` and
  `current_time_ns` take a new one each; `RateLimiter::with_clock` and `ConcurrentIpManager::with_clock`
  take one that the program keeps.
