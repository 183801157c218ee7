# gil

**Get In Line**: bounded lock-free queues (single- and multi-producer,
single- and multi-consumer, sharded, and a parking variant), whose decision
logic is verified with Verus.

## Layout

- `src/` is the verified library.
  - `ring.rs`: the geometry of a ring (requested size, power-of-two
    capacity, mask) and the lemmas on positions and slots.
  - `spsc.rs`: the producer and consumer cursors of the single-producer
    single-consumer ring, and `Ring`, which runs every operation through them
    and states first-in first-out delivery, the capacity bound, and when a
    send or a receive fails.
  - `sequenced.rs`: the queue of sequenced cells used by the multi-producer
    and multi-consumer queues: epoch probes, producer and consumer cursors,
    the drop scans, and `CellRing` with its contended and exclusive
    operations.
  - `sharded.rs`: sharded channels built from one ring per shard: the shard
    registry, the consumer count, the round-robin scan, and the batch
    operations of the only consumer and of consumers that take turns.
  - `order.rs`: the effect of one send or receive on a queue's view, and
    first in, first out over any interleaved run of them.
  - `epochs.rs`: the epoch protocol of the sequenced cells as a transition
    system of atomic steps with any number of producers and consumers,
    claiming positions with a compare-and-swap (non-blocking operations) or
    a fetch-and-add (blocking ones, which may wait a lap or more ahead), with
    the proofs that a producer only writes a cell that serves its position
    and holds no item, that a consumer only takes the item published at its
    own position, that nothing published or taken ever changes, and that
    every claimed position is taken exactly once. Positions are counted
    without wrapping, and a queue has at least two cells.
  - `parking.rs`: the parking handshake as a transition system, with the
    proof that no wake-up is lost.
  - `backoff.rs`: the spinning and parking backoff strategies.
- `tests/` runs the library on concrete values.
- `app/` holds the concurrent channels: shared slots, atomic counters,
  futex parking, thread yields and async wakers around the library's
  cursors and decisions. The library's models are sequential: one value
  owns a queue, and every operation is a step on it.
