//! Sharded channels: several single-producer single-consumer rings, one per
//! producer, drained by consumers that scan the rings in turn.
//!
//! Producers take a shard each from a registry; a producer that finds every
//! shard taken is refused. A consumer starts each scan at the shard where the
//! previous one stopped, so that no shard is starved, and reports an empty
//! channel only after it has looked at every shard once.
use crate::order::send_step;
use crate::spsc::{min_usize, ReceiverCursor, Ring, SenderCursor};
use vstd::prelude::*;

verus! {

/// The registry of producers of a sharded channel: how many shards have
/// been handed out, and how many producers are alive.
pub struct ShardRegistry {
    max_shards: usize,
    next_shard: usize,
    alive: usize,
}

impl ShardRegistry {
    /// The number of shards.
    pub closed spec fn spec_max_shards(&self) -> usize {
        self.max_shards
    }

    /// The number of shards handed out so far.
    pub closed spec fn handed_out(&self) -> usize {
        self.next_shard
    }

    /// The number of producers alive.
    pub closed spec fn alive(&self) -> usize {
        self.alive
    }

    /// No more shards are handed out than exist, and no more producers are
    /// alive than shards were handed out.
    pub open spec fn wf(&self) -> bool {
        &&& self.handed_out() <= self.spec_max_shards()
        &&& self.alive() <= self.handed_out()
    }

    /// A registry of `max_shards` shards, none handed out.
    pub fn new(max_shards: usize) -> (r: Self)
        ensures
            r.wf(),
            r.spec_max_shards() == max_shards,
            r.handed_out() == 0,
            r.alive() == 0,
    {
        ShardRegistry { max_shards, next_shard: 0, alive: 0 }
    }

    /// Claims the next shard for a new producer: the counter of handed-out
    /// shards is advanced (a fetch-and-add); when every shard is taken it is
    /// clamped back to the number of shards and the producer is refused.
    pub fn try_register(&mut self) -> (r: Option<usize>)
        requires
            old(self).wf(),
        ensures
            final(self).wf(),
            final(self).spec_max_shards() == old(self).spec_max_shards(),
            r is Some <==> old(self).handed_out() < old(self).spec_max_shards(),
            r matches Some(shard) ==> shard == old(self).handed_out() && final(self).handed_out()
                == shard + 1 && final(self).alive() == old(self).alive() + 1,
            r is None ==> final(self).handed_out() == old(self).handed_out() && final(self).alive() == old(self).alive(),
    {
        let claimed = self.next_shard;
        self.next_shard = self.next_shard.wrapping_add(1);
        match claim_outcome(claimed, self.max_shards) {
            None => {
                self.next_shard = self.max_shards;
                None
            },
            Some(shard) => {
                self.alive = self.alive + 1;
                Some(shard)
            },
        }
    }

    /// Records that a producer was dropped. Returns whether it was the last
    /// one alive, which then frees the registry. Shards are never handed out
    /// again.
    pub fn release(&mut self) -> (last: bool)
        requires
            old(self).wf(),
            old(self).alive() > 0,
        ensures
            final(self).wf(),
            final(self).alive() == old(self).alive() - 1,
            final(self).handed_out() == old(self).handed_out(),
            final(self).spec_max_shards() == old(self).spec_max_shards(),
            last == (old(self).alive() == 1),
    {
        let previous = self.alive;
        self.alive = self.alive - 1;
        previous == 1
    }
}

/// The count of consumers of a sharded multi-consumer channel, bounded by
/// the number of shards.
pub struct ConsumerCount {
    max_shards: usize,
    alive: usize,
}

impl ConsumerCount {
    /// The number of shards, which bounds the number of consumers.
    pub closed spec fn spec_max_shards(&self) -> usize {
        self.max_shards
    }

    /// The number of consumers alive.
    pub closed spec fn alive(&self) -> usize {
        self.alive
    }

    /// No more consumers are alive than there are shards.
    pub open spec fn wf(&self) -> bool {
        self.alive() <= self.spec_max_shards()
    }

    /// The count for a channel's first consumer.
    pub fn new(max_shards: usize) -> (r: Self)
        requires
            1 <= max_shards,
        ensures
            r.wf(),
            r.spec_max_shards() == max_shards,
            r.alive() == 1,
    {
        ConsumerCount { max_shards, alive: 1 }
    }

    /// Admits one more consumer: the count is incremented (a fetch-and-add),
    /// and the increment is undone when the count already equalled the
    /// number of shards.
    pub fn try_join(&mut self) -> (joined: bool)
        requires
            old(self).wf(),
        ensures
            final(self).wf(),
            final(self).spec_max_shards() == old(self).spec_max_shards(),
            joined == (old(self).alive() < old(self).spec_max_shards()),
            final(self).alive() == (if joined {
                old(self).alive() + 1
            } else {
                old(self).alive() as int
            }),
    {
        let previous = self.alive;
        self.alive = self.alive.wrapping_add(1);
        if !join_admitted(previous, self.max_shards) {
            self.alive = self.alive.wrapping_sub(1);
            return false;
        }
        true
    }

    /// Records that a consumer was dropped; returns whether it was the last.
    pub fn leave(&mut self) -> (last: bool)
        requires
            old(self).wf(),
            old(self).alive() > 0,
        ensures
            final(self).wf(),
            final(self).alive() == old(self).alive() - 1,
            final(self).spec_max_shards() == old(self).spec_max_shards(),
            last == (old(self).alive() == 1),
    {
        let previous = self.alive;
        self.alive = self.alive - 1;
        previous == 1
    }
}

/// What a producer gets for the value `claimed` that its fetch-and-add of
/// the handed-out counter returned: that shard if it exists, else nothing
/// (and the counter is clamped back to the number of shards).
pub fn claim_outcome(claimed: usize, max_shards: usize) -> (r: Option<usize>)
    ensures
        r == (if claimed < max_shards {
            Some(claimed)
        } else {
            None::<usize>
        }),
{
    if claimed < max_shards {
        Some(claimed)
    } else {
        None
    }
}

/// Whether a consumer is admitted, given the count `previous` that its
/// fetch-and-add of the consumer count returned: unless the count already
/// equalled the number of shards (and the increment is then undone).
pub fn join_admitted(previous: usize, max_shards: usize) -> (r: bool)
    ensures
        r == (previous != max_shards),
{
    previous != max_shards
}

/// The shard `d` steps after `start`, going round `n` shards.
pub open spec fn shard_after(start: int, d: int, n: int) -> int {
    if start + d < n {
        start + d
    } else {
        start + d - n
    }
}

/// The shard after `idx` in a round of `n` shards, wrapping to shard 0.
pub fn next_shard(idx: usize, n: usize) -> (r: usize)
    requires
        idx < n,
    ensures
        r == shard_after(idx as int, 1, n as int),
        r < n,
{
    if idx + 1 == n {
        0
    } else {
        idx + 1
    }
}

/// Whether a scan that started at shard `start` has gone round every shard
/// once, now that it reaches shard `next`.
pub fn scan_done(next: usize, start: usize) -> (r: bool)
    ensures
        r == (next == start),
{
    next == start
}

/// The shards scanned before reaching shard `d` steps after `start` are all empty.
pub open spec fn skipped_empty<T>(views: Seq<Seq<T>>, start: int, d: int) -> bool {
    forall|e: int| 0 <= e < d ==> (#[trigger] views[shard_after(start, e, views.len() as int)]).len()
        == 0
}

/// A scan that starts at shard `start` stops at shard `s`: every shard
/// before `s` in scanning order is empty.
pub open spec fn scan_stops_at<T>(views: Seq<Seq<T>>, start: int, s: int) -> bool {
    exists|d: int|
        0 <= d < views.len() && s == shard_after(start, d, views.len() as int) && #[trigger] skipped_empty(
            views,
            start,
            d,
        )
}

/// Creates a sharded channel of `max_shards` rings of `capacity_per_shard`
/// items each, with the producer of shard 0 and the consumer.
pub fn channel<T>(max_shards: usize, capacity_per_shard: usize) -> (r: (
    Shards<T>,
    ShardedSender,
    ShardedReceiver,
))
    requires
        1 <= max_shards,
        1 <= capacity_per_shard <= usize::MAX / 2 + 1,
    ensures
        r.0.wf(),
        r.0.spec_num_shards() == max_shards,
        forall|i: int| 0 <= i < max_shards ==> (#[trigger] r.0@[i]) == Seq::<T>::empty(),
        forall|i: int|
            0 <= i < max_shards ==> {
                &&& (#[trigger] r.0.ring(i)).spec_size() == capacity_per_shard
                &&& crate::ring::is_next_power_of_two(
                    capacity_per_shard as nat,
                    r.0.ring(i).geometry().spec_capacity() as nat,
                )
                &&& r.0.ring(i).shared_head() == 0
                &&& r.0.ring(i).shared_tail() == 0
            },
        r.0.sender_agrees(r.1),
        r.1.spec_shard() == 0,
        r.0.registry().handed_out() == 1,
        r.0.registry().alive() == 1,
        r.0.consumer_count().alive() == 1,
        r.0.receiver_agrees(r.2),
        r.2.start_shard() == 0,
{
    let mut rings: Vec<Ring<T>> = Vec::new();
    let mut cursors: Vec<ReceiverCursor> = Vec::new();
    let mut i: usize = 0;
    while i < max_shards
        invariant
            i <= max_shards,
            1 <= capacity_per_shard <= usize::MAX / 2 + 1,
            rings@.len() == i,
            cursors@.len() == i,
            forall|k: int|
                0 <= k < i ==> {
                    &&& (#[trigger] rings@[k]).wf()
                    &&& rings@[k]@ == Seq::<T>::empty()
                    &&& rings@[k].spec_size() == capacity_per_shard
                    &&& rings@[k].shared_tail() == 0
                    &&& rings@[k].shared_head() == 0
                    &&& crate::ring::is_next_power_of_two(
                        capacity_per_shard as nat,
                        rings@[k].geometry().spec_capacity() as nat,
                    )
                    &&& rings@[k].receiver_agrees(cursors@[k])
                },
        decreases max_shards - i,
    {
        let (ring, _tx, rx) = Ring::with_size(capacity_per_shard);
        rings.push(ring);
        cursors.push(rx);
        i = i + 1;
    }
    let mut shards = Shards {
        rings,
        senders: ShardRegistry::new(max_shards),
        consumers: ConsumerCount::new(max_shards),
    };
    let receiver = ShardedReceiver { cursors, next_shard: 0 };
    let sender = shards.try_clone_sender();
    proof {
        assert(shards@ =~= Seq::new(max_shards as nat, |k: int| Seq::<T>::empty()));
    }
    (shards, sender.unwrap(), receiver)
}

/// The rings of a sharded channel, one per shard.
pub struct Shards<T> {
    rings: Vec<Ring<T>>,
    senders: ShardRegistry,
    consumers: ConsumerCount,
}

/// A producer of a sharded channel: the shard it owns and its cursor there.
pub struct ShardedSender {
    shard: usize,
    cursor: SenderCursor,
}

impl ShardedSender {
    /// The shard this producer writes to.
    pub closed spec fn spec_shard(&self) -> usize {
        self.shard
    }

    /// The producer's cursor on its shard.
    pub closed spec fn cursor(&self) -> SenderCursor {
        self.cursor
    }

    /// The shard this producer writes to.
    pub fn shard(&self) -> (r: usize)
        ensures
            r == self.spec_shard(),
    {
        self.shard
    }
}

impl<T> View for Shards<T> {
    type V = Seq<Seq<T>>;

    /// The items of each shard, oldest first.
    closed spec fn view(&self) -> Seq<Seq<T>> {
        Seq::new(self.rings@.len(), |i: int| self.rings@[i]@)
    }
}

/// A consumer of a sharded channel: its cursor on every shard and the shard
/// where its next scan starts.
pub struct ShardedReceiver {
    cursors: Vec<ReceiverCursor>,
    next_shard: usize,
}

impl ShardedReceiver {
    /// The consumer's cursor on shard `i`.
    pub closed spec fn cursor(&self, i: int) -> ReceiverCursor {
        self.cursors@[i]
    }

    /// The number of shards the consumer knows.
    pub closed spec fn num_cursors(&self) -> nat {
        self.cursors@.len()
    }

    /// The shard where the next scan starts.
    pub closed spec fn start_shard(&self) -> usize {
        self.next_shard
    }

    /// A copy of this consumer that starts scanning at shard 0; its cursors
    /// are copies that may fall behind the shards' heads.
    pub fn clone_lagging(&self) -> (c: Self)
        ensures
            c.num_cursors() == self.num_cursors(),
            forall|i: int| 0 <= i < self.num_cursors() ==> c.cursor(i) == self.cursor(i),
            c.start_shard() == 0,
    {
        ShardedReceiver { cursors: self.cursors.clone(), next_shard: 0 }
    }
}

impl<T> Shards<T> {
    /// The ring of shard `i`.
    pub closed spec fn ring(&self, i: int) -> Ring<T> {
        self.rings@[i]
    }

    /// The number of shards.
    pub open spec fn spec_num_shards(&self) -> nat {
        self@.len()
    }

    /// At least one shard, every ring well formed.
    pub closed spec fn wf(&self) -> bool {
        &&& 1 <= self.rings@.len()
        &&& forall|i: int| 0 <= i < self.rings@.len() ==> (#[trigger] self.rings@[i]).wf()
        &&& self.senders.wf()
        &&& self.senders.spec_max_shards() == self.rings@.len()
        &&& self.consumers.wf()
        &&& self.consumers.spec_max_shards() == self.rings@.len()
        &&& forall|i: int|
            self.senders.handed_out() <= i < self.rings@.len() ==> (#[trigger] self.rings@[i]).shared_tail() == 0
    }

    /// The registry of producers.
    pub closed spec fn registry(&self) -> ShardRegistry {
        self.senders
    }

    /// The count of consumers.
    pub closed spec fn consumer_count(&self) -> ConsumerCount {
        self.consumers
    }

    /// `tx` is the producer of its shard.
    pub open spec fn sender_agrees(&self, tx: ShardedSender) -> bool {
        &&& tx.spec_shard() < self.registry().handed_out()
        &&& self.ring(tx.spec_shard() as int).sender_agrees(tx.cursor())
    }

    /// `rx` is the only consumer: it agrees with every ring.
    pub open spec fn receiver_agrees(&self, rx: ShardedReceiver) -> bool {
        &&& rx.num_cursors() == self.spec_num_shards()
        &&& rx.start_shard() < self.spec_num_shards()
        &&& forall|i: int|
            0 <= i < self.spec_num_shards() ==> self.ring(i).receiver_agrees(
                #[trigger] rx.cursor(i),
            )
    }

    /// `rx` is one of several consumers that take turns on every ring: its
    /// cursors may lag behind the rings' heads.
    pub open spec fn receiver_lags(&self, rx: ShardedReceiver) -> bool {
        &&& rx.num_cursors() == self.spec_num_shards()
        &&& rx.start_shard() < self.spec_num_shards()
        &&& forall|i: int|
            0 <= i < self.spec_num_shards() ==> self.ring(i).receiver_lags(
                #[trigger] rx.cursor(i),
            )
    }

    /// What well-formed shards guarantee: at least one shard; no more shards
    /// handed to producers, and no more consumers alive, than there are
    /// shards; no more producers alive than shards handed out.
    pub proof fn lemma_wf(&self)
        requires
            self.wf(),
        ensures
            1 <= self.spec_num_shards(),
            self.registry().alive() <= self.registry().handed_out() <= self.spec_num_shards(),
            self.consumer_count().alive() <= self.spec_num_shards(),
            forall|i: int| 0 <= i < self.spec_num_shards() ==> (#[trigger] self.ring(i)).wf(),
    {
    }

    /// The view of shard `i` is the view of its ring.
    proof fn lemma_view(&self, i: int)
        requires
            0 <= i < self.spec_num_shards(),
        ensures
            self@[i] == self.ring(i)@,
            self@.len() == self.rings@.len(),
    {
    }

    /// The number of shards.
    pub fn num_shards(&self) -> (r: usize)
        ensures
            r == self.spec_num_shards(),
    {
        self.rings.len()
    }

    /// The producers' and consumers' counts are what every operation on the
    /// rings leaves alone.
    pub open spec fn same_handles(&self, other: &Self) -> bool {
        &&& self.registry() == other.registry()
        &&& self.consumer_count() == other.consumer_count()
    }

    /// Hands the next shard, if any is left, to a new producer: the clone of
    /// a sharded producer. A shard is handed out once only.
    pub fn try_clone_sender(&mut self) -> (r: Option<ShardedSender>)
        requires
            old(self).wf(),
        ensures
            final(self).wf(),
            final(self)@ == old(self)@,
            final(self).consumer_count() == old(self).consumer_count(),
            forall|i: int| 0 <= i < old(self).spec_num_shards() ==> final(self).ring(i) == old(self).ring(i),
            r is Some <==> old(self).registry().handed_out() < old(self).spec_num_shards(),
            r matches Some(tx) ==> {
                &&& tx.spec_shard() == old(self).registry().handed_out()
                &&& final(self).sender_agrees(tx)
                &&& final(self).registry().handed_out() == tx.spec_shard() + 1
                &&& final(self).registry().alive() == old(self).registry().alive() + 1
            },
            r is None ==> final(self).registry() == old(self).registry(),
    {
        match self.senders.try_register() {
            None => None,
            Some(shard) => {
                assert(self.rings@[shard as int].shared_tail() == 0);
                proof {
                    self.rings@[shard as int].lemma_wf();
                }
                let cursor = SenderCursor::new(self.rings[shard].geom());
                Some(ShardedSender { shard, cursor })
            },
        }
    }

    /// Records that a producer was dropped; returns whether it was the last
    /// one alive. Its shard is not handed out again.
    pub fn drop_sender(&mut self, tx: ShardedSender) -> (last: bool)
        requires
            old(self).wf(),
            old(self).registry().alive() > 0,
        ensures
            final(self).wf(),
            final(self)@ == old(self)@,
            final(self).consumer_count() == old(self).consumer_count(),
            forall|i: int| 0 <= i < old(self).spec_num_shards() ==> final(self).ring(i) == old(self).ring(i),
            final(self).registry().alive() == old(self).registry().alive() - 1,
            final(self).registry().handed_out() == old(self).registry().handed_out(),
            last == (old(self).registry().alive() == 1),
    {
        self.senders.release()
    }

    /// Admits a new consumer that takes turns with `rx` on the shards, unless
    /// there are already as many consumers as shards: the clone of a sharded
    /// multi-consumer receiver.
    pub fn try_clone_receiver(&mut self, rx: &ShardedReceiver) -> (r: Option<ShardedReceiver>)
        requires
            old(self).wf(),
            old(self).receiver_lags(*rx),
        ensures
            final(self).wf(),
            final(self)@ == old(self)@,
            final(self).registry() == old(self).registry(),
            forall|i: int| 0 <= i < old(self).spec_num_shards() ==> final(self).ring(i) == old(self).ring(i),
            r is Some <==> old(self).consumer_count().alive() < old(self).spec_num_shards(),
            r matches Some(c) ==> final(self).receiver_lags(c) && c.start_shard() == 0
                && final(self).consumer_count().alive() == old(self).consumer_count().alive() + 1,
            r is None ==> final(self).consumer_count() == old(self).consumer_count(),
    {
        if self.consumers.try_join() {
            Some(rx.clone_lagging())
        } else {
            None
        }
    }

    /// Records that a consumer was dropped; returns whether it was the last.
    pub fn drop_receiver(&mut self, rx: ShardedReceiver) -> (last: bool)
        requires
            old(self).wf(),
            old(self).consumer_count().alive() > 0,
        ensures
            final(self).wf(),
            final(self)@ == old(self)@,
            final(self).registry() == old(self).registry(),
            forall|i: int| 0 <= i < old(self).spec_num_shards() ==> final(self).ring(i) == old(self).ring(i),
            final(self).consumer_count().alive() == old(self).consumer_count().alive() - 1,
            last == (old(self).consumer_count().alive() == 1),
    {
        self.consumers.leave()
    }

    /// Attempts to send `value` into the producer's shard: fails, handing the
    /// value back, exactly when that shard is full.
    pub fn try_send(&mut self, tx: &mut ShardedSender, value: T) -> (r: Result<(), T>)
        requires
            old(self).wf(),
            old(self).sender_agrees(*old(tx)),
            old(self).ring(old(tx).spec_shard() as int).has_headroom(1),
        ensures
            final(self).wf(),
            final(self).same_handles(&*old(self)),
            final(self).spec_num_shards() == old(self).spec_num_shards(),
            final(self).sender_agrees(*final(tx)),
            final(tx).spec_shard() == old(tx).spec_shard(),
            ({
                let k = old(tx).spec_shard() as int;
                &&& r is Ok <==> old(self)@[k].len() < old(self).ring(k).spec_size()
                &&& final(self)@ == old(self)@.update(
                    k,
                    send_step(old(self)@[k], value, old(self).ring(k).spec_size() as nat),
                )
                &&& r is Ok ==> final(self)@ == old(self)@.update(k, old(self)@[k].push(value))
                &&& r matches Err(v) ==> v == value && final(self)@ == old(self)@
                &&& forall|i: int|
                    0 <= i < old(self).spec_num_shards() && i != k ==> final(self).ring(i) == old(self).ring(i)
                &&& final(self).ring(k).geometry() == old(self).ring(k).geometry()
                &&& final(self).ring(k).shared_head() == old(self).ring(k).shared_head()
                &&& final(self).ring(k).shared_tail() == old(self).ring(k).shared_tail() + (if r is Ok { 1int } else { 0int })
            }),
    {
        let shard = tx.shard;
        proof {
            self.lemma_view(shard as int);
            self.rings@[shard as int].lemma_wf();
        }
        let ghost before = self.rings@;
        let mut ring = self.rings.remove(shard);
        let r = ring.try_send(&mut tx.cursor, value);
        self.rings.insert(shard, ring);
        proof {
            assert(self.rings@ =~= before.update(shard as int, ring));
            assert(self@ =~= (if r is Ok {
                old(self)@.update(shard as int, old(self)@[shard as int].push(value))
            } else {
                old(self)@
            }));
        }
        r
    }

    /// Moves items from the front of `values` into the producer's shard, as
    /// the ring's batch send does (the zero-copy write and commit of a
    /// sharded producer).
    pub fn send_batch(&mut self, tx: &mut ShardedSender, values: &mut Vec<T>) -> (n: usize)
        requires
            old(self).wf(),
            old(self).sender_agrees(*old(tx)),
            old(self).ring(old(tx).spec_shard() as int).has_headroom(
                old(self).ring(old(tx).spec_shard() as int).spec_size() as nat,
            ),
        ensures
            final(self).wf(),
            final(self).same_handles(&*old(self)),
            final(self).spec_num_shards() == old(self).spec_num_shards(),
            final(self).sender_agrees(*final(tx)),
            final(tx).spec_shard() == old(tx).spec_shard(),
            n <= old(values).len(),
            final(values)@ == old(values)@.skip(n as int),
            ({
                let k = old(tx).spec_shard() as int;
                &&& final(self)@ == old(self)@.update(k, old(self)@[k] + old(values)@.take(n as int))
                &&& forall|i: int|
                    0 <= i < old(self).spec_num_shards() && i != k ==> final(self).ring(i) == old(self).ring(i)
                &&& final(self).ring(k).geometry() == old(self).ring(k).geometry()
                &&& final(self).ring(k).shared_head() == old(self).ring(k).shared_head()
                &&& final(self).ring(k).shared_tail() == old(self).ring(k).shared_tail() + n
                &&& (n > 0 || old(values).len() == 0 || old(self)@[k].len() == old(self).ring(k).spec_size())
                &&& final(tx).cursor().cached_head() == (if old(tx).cursor().spec_in_flight()
                    == old(self).ring(k).spec_size() {
                    old(self).ring(k).shared_head()
                } else {
                    old(tx).cursor().cached_head()
                })
                &&& n == min_usize(
                    old(values).len(),
                    min_usize(
                        (old(self).ring(k).spec_size() - (old(self).ring(k).shared_tail()
                            - final(tx).cursor().cached_head())) as usize,
                        (old(self).ring(k).geometry().spec_capacity() - old(self).ring(
                            k,
                        ).geometry().spec_slot(old(self).ring(k).shared_tail() as int)) as usize,
                    ),
                )
            }),
    {
        let shard = tx.shard;
        proof {
            self.lemma_view(shard as int);
            self.rings@[shard as int].lemma_wf();
        }
        let ghost before = self.rings@;
        let mut ring = self.rings.remove(shard);
        let n = ring.send_batch(&mut tx.cursor, values);
        self.rings.insert(shard, ring);
        proof {
            assert(self.rings@ =~= before.update(shard as int, ring));
            assert(self@ =~= old(self)@.update(
                shard as int,
                old(self)@[shard as int] + old(values)@.take(n as int),
            ));
        }
        n
    }

    /// `rx` may receive from these shards: as the only consumer it agrees
    /// with every ring; taking turns with other consumers, its cursors may lag.
    pub open spec fn receiver_fits(&self, rx: ShardedReceiver, shared: bool) -> bool {
        if shared {
            self.receiver_lags(rx)
        } else {
            self.receiver_agrees(rx)
        }
    }

    /// The length of a batch read of shard `s` of at most `limit` items,
    /// given the consumer's cached tail after the read: the run from the
    /// shard's head up to that tail, cut at the end of the slots.
    pub open spec fn batch_len(&self, s: int, cached_tail: usize, limit: usize) -> usize {
        min_usize(
            limit,
            min_usize(
                (cached_tail - self.ring(s).shared_head()) as usize,
                (self.ring(s).geometry().spec_capacity() - self.ring(s).geometry().spec_slot(
                    self.ring(s).shared_head() as int,
                )) as usize,
            ),
        )
    }

    /// The tail that the consumer's cursor `c` on shard `s` caches after a
    /// batch read: a consumer that takes turns (`shared`) first brings its
    /// cursor up to date, reloading the tail if its cached tail is behind
    /// the head; then the tail is reloaded only when the cached tail shows
    /// no item.
    pub open spec fn reloaded_tail(&self, c: ReceiverCursor, s: int, shared: bool) -> usize {
        let seen = if shared && c.cached_tail() < self.ring(s).shared_head() {
            self.ring(s).shared_tail()
        } else {
            c.cached_tail()
        };
        let from = if shared {
            self.ring(s).shared_head()
        } else {
            c.position()
        };
        if seen == from {
            self.ring(s).shared_tail()
        } else {
            seen
        }
    }

    /// The outcome of a scan that returned `r`: empty exactly when every
    /// shard was empty, and then nothing changed; otherwise `r` is the front
    /// of the first non-empty shard `s` in scanning order, of the length of a
    /// batch read of at most `limit` items, the cursor on `s` caches the tail
    /// given by [`Shards::reloaded_tail`], and the next scan starts at `s`.
    pub open spec fn scan_outcome(
        &self,
        after: &Self,
        rx: ShardedReceiver,
        rx_after: ShardedReceiver,
        limit: usize,
        shared: bool,
        r: Seq<T>,
    ) -> bool {
        &&& r.len() == 0 <==> forall|i: int|
            0 <= i < self.spec_num_shards() ==> (#[trigger] self@[i]).len() == 0
        &&& r.len() == 0 ==> after@ == self@ && rx_after.start_shard() == rx.start_shard()
        &&& r.len() > 0 ==> {
            let s = rx_after.start_shard() as int;
            &&& r.len() <= self@[s].len()
            &&& r == self@[s].take(r.len() as int)
            &&& after@ == self@.update(s, self@[s].skip(r.len() as int))
            &&& scan_stops_at(self@, rx.start_shard() as int, s)
            &&& r.len() == self.batch_len(s, rx_after.cursor(s).cached_tail(), limit)
            &&& rx_after.cursor(s).cached_tail() == self.reloaded_tail(rx.cursor(s), s, shared)
        }
        &&& forall|i: int|
            0 <= i < self.spec_num_shards() ==> {
                &&& (#[trigger] after.ring(i)).geometry() == self.ring(i).geometry()
                &&& after.ring(i).shared_tail() == self.ring(i).shared_tail()
                &&& after.ring(i).shared_head() == self.ring(i).shared_head() + (if i == rx_after.start_shard() { r.len() as int } else { 0int })
            }
    }

    /// Scans the shards from the consumer's start shard round all shards and
    /// takes a batch of at most `limit` items from the first non-empty one;
    /// the next scan starts at the shard that delivered. When `shared`, the
    /// consumer takes turns with others: a shard that looks empty through its
    /// own cursor is skipped, and the cursor of any other shard is brought
    /// up to date before the read.
    fn scan(&mut self, rx: &mut ShardedReceiver, limit: usize, shared: bool) -> (r: Vec<T>)
        requires
            old(self).wf(),
            old(self).receiver_fits(*old(rx), shared),
            1 <= limit,
        ensures
            final(self).wf(),
            final(self).same_handles(&*old(self)),
            final(self).receiver_fits(*final(rx), shared),
            final(self).spec_num_shards() == old(self).spec_num_shards(),
            r@.len() <= limit,
            old(self).scan_outcome(&*final(self), *old(rx), *final(rx), limit, shared, r@),
    {
        let n = self.rings.len();
        let start = rx.next_shard;
        let ghost mut d: int = 0;
        loop
            invariant
                self.wf(),
                1 <= limit,
                self@ == old(self)@,
                self.senders == old(self).senders,
                self.consumers == old(self).consumers,
                n == self.rings@.len(),
                n == old(self).rings@.len(),
                forall|i: int|
                    0 <= i < n ==> {
                        &&& (#[trigger] self.ring(i)).geometry() == old(self).ring(i).geometry()
                        &&& self.ring(i).shared_tail() == old(self).ring(i).shared_tail()
                        &&& self.ring(i).shared_head() == old(self).ring(i).shared_head()
                    },
                self.receiver_fits(*rx, shared),
                start == old(rx).next_shard,
                start < n,
                0 <= d < n,
                rx.next_shard == shard_after(start as int, d, n as int),
                skipped_empty(old(self)@, start as int, d),
                rx.num_cursors() == n,
                forall|e: int|
                    d <= e < n ==> rx.cursor(#[trigger] shard_after(start as int, e, n as int))
                        == old(rx).cursor(shard_after(start as int, e, n as int)),
            decreases n - d,
        {
            let idx = rx.next_shard;
            assert(rx.cursor(idx as int) == old(rx).cursor(idx as int));
            proof {
                self.lemma_view(idx as int);
            }
            let ghost before = self.rings@;
            let ghost pre_self = *self;
            let ghost pre_rx = *rx;
            assert(self.ring(idx as int).receiver_lags(rx.cursor(idx as int)));
            let mut ring = self.rings.remove(idx);
            let mut cursor = rx.cursors[idx];
            let skip = shared && ring.receiver_is_empty(&cursor);
            let got: Vec<T> = if skip {
                Vec::new()
            } else {
                if shared {
                    ring.refresh_receiver(&mut cursor);
                }
                ring.recv_batch(&mut cursor, limit)
            };
            proof {
                if got@.len() == 0 && !skip {
                    assert(pre_self.ring(idx as int)@.skip(0) =~= pre_self.ring(idx as int)@);
                }
                assert(got@.len() == 0 ==> ring@ == pre_self.ring(idx as int)@);
                ring.lemma_wf();
                pre_self.ring(idx as int).lemma_wf();
                assert(got@.len() <= pre_self.ring(idx as int)@.len());
            }
            self.rings.insert(idx, ring);
            rx.cursors.set(idx, cursor);
            proof {
                assert(self.rings@ =~= before.update(idx as int, ring));
                assert forall|i: int| 0 <= i < n implies if shared {
                    self.ring(i).receiver_lags(#[trigger] rx.cursor(i))
                } else {
                    self.ring(i).receiver_agrees(rx.cursor(i))
                } by {
                    if i != idx {
                        assert(self.ring(i) == before[i]);
                        assert(rx.cursor(i) == pre_rx.cursor(i));
                        assert(pre_self.ring(i).receiver_lags(pre_rx.cursor(i)));
                        if !shared {
                            assert(pre_self.ring(i).receiver_agrees(pre_rx.cursor(i)));
                        }
                    }
                }
                assert forall|i: int| 0 <= i < n implies {
                    &&& (#[trigger] self.ring(i)).geometry() == old(self).ring(i).geometry()
                    &&& self.ring(i).shared_tail() == old(self).ring(i).shared_tail()
                    &&& (got@.len() == 0 ==> self.ring(i).shared_head() == old(self).ring(i).shared_head())
                    &&& self.ring(i).shared_head() == old(self).ring(i).shared_head() + (if i == idx { got@.len() as int } else { 0int })
                } by {
                    assert(pre_self.ring(i).geometry() == old(self).ring(i).geometry());
                    if i != idx {
                        assert(self.ring(i) == before[i]);
                    }
                }
            }
            if got.len() > 0 {
                proof {
                    assert(self@ =~= old(self)@.update(
                        idx as int,
                        old(self)@[idx as int].skip(got@.len() as int),
                    ));
                    assert(0 <= d < n && idx == shard_after(start as int, d, n as int)
                        && skipped_empty(old(self)@, start as int, d));
                    assert(scan_stops_at(old(self)@, start as int, idx as int));
                    assert(rx.cursor(idx as int) == cursor);
                    assert(cursor.cached_tail() == old(self).reloaded_tail(
                        old(rx).cursor(idx as int),
                        idx as int,
                        shared,
                    ));
                }
                return got;
            }
            proof {
                assert(self@ =~= old(self)@);
            }
            let ghost mid = *rx;
            rx.next_shard = next_shard(rx.next_shard, n);
            proof {
                assert forall|i: int| 0 <= i < n implies if shared {
                    self.ring(i).receiver_lags(#[trigger] rx.cursor(i))
                } else {
                    self.ring(i).receiver_agrees(rx.cursor(i))
                } by {
                    assert(rx.cursor(i) == mid.cursor(i));
                }
                assert forall|e: int| d + 1 <= e < n implies rx.cursor(
                    #[trigger] shard_after(start as int, e, n as int),
                ) == old(rx).cursor(shard_after(start as int, e, n as int)) by {
                    assert(shard_after(start as int, e, n as int) != idx);
                    assert(mid.cursor(shard_after(start as int, e, n as int)) == pre_rx.cursor(
                        shard_after(start as int, e, n as int),
                    ));
                }
                d = d + 1;
            }
            if scan_done(rx.next_shard, start) {
                proof {
                    assert forall|i: int| 0 <= i < n implies (#[trigger] old(self)@[i]).len()
                        == 0 by {
                        let e = if i >= start {
                            i - start
                        } else {
                            i + n - start
                        };
                        assert(shard_after(start as int, e, n as int) == i);
                    }
                    assert(d == n);
                }
                return got;
            }
        }
    }

    /// Takes the one item of a scan of at most one item.
    fn first_of(v: Vec<T>) -> (r: Option<T>)
        requires
            v@.len() <= 1,
        ensures
            r is None <==> v@.len() == 0,
            r matches Some(x) ==> x == v@[0],
    {
        let mut v = v;
        if v.len() == 0 {
            None
        } else {
            Some(v.remove(0))
        }
    }

    /// Receives from the first non-empty shard, scanning from the consumer's
    /// start shard round all shards; the next scan starts at the shard that
    /// delivered. `None` exactly when every shard is empty, after visiting
    /// each shard once (the single-consumer sharded channel).
    pub fn try_recv(&mut self, rx: &mut ShardedReceiver) -> (r: Option<T>)
        requires
            old(self).wf(),
            old(self).receiver_agrees(*old(rx)),
        ensures
            final(self).wf(),
            final(self).same_handles(&*old(self)),
            final(self).receiver_agrees(*final(rx)),
            final(self).spec_num_shards() == old(self).spec_num_shards(),
            r is None <==> forall|i: int|
                0 <= i < old(self).spec_num_shards() ==> (#[trigger] old(self)@[i]).len() == 0,
            r is None ==> final(self)@ == old(self)@ && final(rx).start_shard() == old(
                rx,
            ).start_shard(),
            r matches Some(v) ==> {
                let s = final(rx).start_shard() as int;
                &&& old(self)@[s].len() > 0
                &&& v == old(self)@[s][0]
                &&& final(self)@ == old(self)@.update(s, old(self)@[s].drop_first())
                &&& scan_stops_at(old(self)@, old(rx).start_shard() as int, s)
            },
            forall|i: int|
                0 <= i < old(self).spec_num_shards() ==> {
                    &&& (#[trigger] final(self).ring(i)).geometry() == old(self).ring(i).geometry()
                    &&& final(self).ring(i).shared_tail() == old(self).ring(i).shared_tail()
                    &&& final(self).ring(i).shared_head() == old(self).ring(i).shared_head() + (if r is Some && i == final(rx).start_shard() { 1int } else { 0int })
                },
    {
        let v = self.scan(rx, 1, false);
        proof {
            if v@.len() > 0 {
                let s = rx.start_shard() as int;
                assert(old(self)@[s].skip(1) =~= old(self)@[s].drop_first());
            }
        }
        Self::first_of(v)
    }

    /// Moves up to `limit` items of the contiguous run at the head of the
    /// first non-empty shard out of it, scanning as [`Shards::try_recv`]
    /// does: the zero-copy read of the single-consumer sharded channel
    /// followed by an advance. Empty exactly when every shard is empty;
    /// otherwise as long as a batch read of the delivering shard is.
    pub fn recv_batch(&mut self, rx: &mut ShardedReceiver, limit: usize) -> (r: Vec<T>)
        requires
            old(self).wf(),
            old(self).receiver_agrees(*old(rx)),
            1 <= limit,
        ensures
            final(self).wf(),
            final(self).same_handles(&*old(self)),
            final(self).receiver_agrees(*final(rx)),
            final(self).spec_num_shards() == old(self).spec_num_shards(),
            r@.len() <= limit,
            old(self).scan_outcome(&*final(self), *old(rx), *final(rx), limit, false, r@),
    {
        self.scan(rx, limit, false)
    }

    /// Receives as one of several consumers that take turns on the shards:
    /// like [`Shards::try_recv`], but a shard that looks empty through the
    /// consumer's own cursor is skipped, and the cursor of any other shard is
    /// brought up to date before receiving from it (the multi-consumer
    /// sharded channel, whose consumers take a shard's lock around this).
    pub fn try_recv_shared(&mut self, rx: &mut ShardedReceiver) -> (r: Option<T>)
        requires
            old(self).wf(),
            old(self).receiver_lags(*old(rx)),
        ensures
            final(self).wf(),
            final(self).same_handles(&*old(self)),
            final(self).receiver_lags(*final(rx)),
            final(self).spec_num_shards() == old(self).spec_num_shards(),
            r is None <==> forall|i: int|
                0 <= i < old(self).spec_num_shards() ==> (#[trigger] old(self)@[i]).len() == 0,
            r is None ==> final(self)@ == old(self)@ && final(rx).start_shard() == old(
                rx,
            ).start_shard(),
            r matches Some(v) ==> {
                let s = final(rx).start_shard() as int;
                &&& old(self)@[s].len() > 0
                &&& v == old(self)@[s][0]
                &&& final(self)@ == old(self)@.update(s, old(self)@[s].drop_first())
                &&& scan_stops_at(old(self)@, old(rx).start_shard() as int, s)
            },
            forall|i: int|
                0 <= i < old(self).spec_num_shards() ==> {
                    &&& (#[trigger] final(self).ring(i)).geometry() == old(self).ring(i).geometry()
                    &&& final(self).ring(i).shared_tail() == old(self).ring(i).shared_tail()
                    &&& final(self).ring(i).shared_head() == old(self).ring(i).shared_head() + (if r is Some && i == final(rx).start_shard() { 1int } else { 0int })
                },
    {
        let v = self.scan(rx, 1, true);
        proof {
            if v@.len() > 0 {
                let s = rx.start_shard() as int;
                assert(old(self)@[s].skip(1) =~= old(self)@[s].drop_first());
            }
        }
        Self::first_of(v)
    }

    /// The batch read of a consumer that takes turns with others: scans as
    /// [`Shards::try_recv_shared`] does, and moves up to `limit` items of the
    /// contiguous run at the head of the first non-empty shard out of it (the
    /// read buffer and advance of the multi-consumer sharded channel, whose
    /// consumers hold the shard's lock between the two). Empty exactly when
    /// every shard is empty; otherwise as long as a batch read of the
    /// delivering shard is.
    pub fn recv_batch_shared(&mut self, rx: &mut ShardedReceiver, limit: usize) -> (r: Vec<T>)
        requires
            old(self).wf(),
            old(self).receiver_lags(*old(rx)),
            1 <= limit,
        ensures
            final(self).wf(),
            final(self).same_handles(&*old(self)),
            final(self).receiver_lags(*final(rx)),
            final(self).spec_num_shards() == old(self).spec_num_shards(),
            r@.len() <= limit,
            old(self).scan_outcome(&*final(self), *old(rx), *final(rx), limit, true, r@),
    {
        self.scan(rx, limit, true)
    }
}

} // verus!
