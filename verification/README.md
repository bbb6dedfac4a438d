# `connpool` - a verified, generic connection pool

`connpool` is a pool that keeps and reuses connections, or any other resource, with both a global
limit and local limits. It is written in Verus: what every function does is stated in its contract
and proved.

- **Global and local limits** - no more is ever lent out than the limits allow.
- **Fair waiting** - pulls that wait for a limit stand in line, and are served in their order.
- **Automatic eviction** - a pool that is full gives up one idle value for a new one, and none
  before it is full.
- **First in, first out** - the idle values of a key are handed out in the order of their return.
- **Unbounded mode** - a pool can be made without a global limit.

## Layout

- `src/pool.rs` - the pool, its items, and pulls that have to wait.
- `src/concurrent_limited_multimap.rs` - the multimap of idle values.
- `src/lane.rs` - the queue of one key.
- `src/limits.rs` - the global limit and the local limits, with the lines of pulls that wait.
- `src/model.rs` - what a multimap holds, in mathematical terms.
- `src/laws.rs` - what holds of multimaps and pools as a whole, from one call to the next.
- `src/history.rs` - what holds of them over any number of calls.
- `src/cache.rs`, `src/semaphore.rs` - what is taken on trust of `quick_cache`, `ahash` and `tokio`
  (`src/limits.rs` adds `slab`, `src/concurrent_limited_multimap.rs` adds `HashMap::with_hasher`).
- `app/` - the pool as it is shared between threads and tasks.

The library decides, one call at a time, what a pull gets, what it waits for, and when its turn
has come. Sharing a pool and sleeping until the line moves is the part of `app/`.

## Usage

```rust
use connpool::{Pool, Pull};

// Create a new pool with a global limit of 10 connections
let mut pool = Pool::new(10);

// Pull a connection for a specific key
if let Pull::Ready(mut item) = pool.pull("my_key") {
    if item.inner().is_none() {
        *item.inner_mut() = Some(1234usize);
    }

    // Return the connection to the pool
    item.release(&mut pool);
}
```

## What the contracts assume of keys

The contracts say which values a pull gets for every key type whose `==` and `Hash` agree with the
mathematical equality of the keys (`obeys_key_model`). For other key types they say what happens to
the limits and to the number of idle values, but not which values are handed out.
