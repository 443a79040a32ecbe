# lockfree_ringbuffer

Ring buffers that keep the newest items: a push into a full ring evicts the
oldest item, and a reader drains the ring oldest item first through an
iterator that removes each item as it yields it.

- `src/lib.rs` — `RingBuffer`, over `size + 1` slots, whose tail is kept as a
  signed code (`Tail`) that can carry a reader's lock flag in its sign; the
  ring stores only unlocked tails, and `RingIter`, which drains it, keeps the
  flag in its own `Tail`.
- `src/threadsafe.rs` — `LockFreeRingBuffer`, over a power-of-two number of
  slots addressed by masking counters that wrap around the machine word.
- `src/reference.rs` — `BoundedBuffer`, a plain vector with the same eviction
  rule, which refuses writes to a full buffer while a read is in progress.
- `src/modular.rs` — remainder and masking facts for the slot arithmetic.
- `app/` — producer/consumer handles that share a ring between threads
  behind a mutex.

Every operation in `src/` is verified with Verus against a model of the ring
as a sequence of items (`@`): pushes follow `push_evict`, reads take the
first item, peeks read by position. The rings in `src/` are driven through
exclusive references, so the lock that a reader holds is the borrow itself.

An iterator keeps its ring private; a verified caller that has finished with
it brings `RingIter::lemma_release` into scope (`broadcast use`) to learn that
the ring is left as the iterator last saw it.
