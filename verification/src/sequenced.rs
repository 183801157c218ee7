//! Bounded queue of sequenced cells (Vyukov's algorithm), as used by the
//! multi-producer and multi-consumer queues.
//!
//! Every cell carries an epoch next to its data. A cell that waits for the
//! item of position `p` has epoch `p`; once that item is written the epoch
//! becomes `p + 1`; once it is read the epoch becomes `p + capacity`, which
//! is the position the cell waits for on the next lap. Producers claim
//! positions by advancing the shared tail, consumers by advancing the shared
//! head, either with a fetch-and-add (blocking operations) or with a
//! compare-and-swap after probing the cell's epoch (non-blocking ones).
//!
//! The multi-producer single-consumer queue uses the contended producer and
//! the exclusive consumer operations; the single-producer multi-consumer
//! queue the exclusive producer and contended consumer ones; the
//! multi-producer multi-consumer queue the contended ones on both sides.
//! Unlike the single-producer single-consumer ring, all `capacity` cells
//! hold items.
use crate::order::{front, recv_step, send_step};
use crate::ring::{lemma_mod_distinct, Geometry};
use vstd::arithmetic::div_mod::{lemma_add_mod_noop_right, lemma_mod_pos_bound, lemma_small_mod};
use vstd::prelude::*;

verus! {

/// Where a cell's epoch stands relative to the epoch an operation expects.
#[derive(Clone, Copy, Debug, PartialEq, Eq, Structural)]
pub enum Probe {
    /// The epoch is below the expected one: for a producer the cell still
    /// holds the item of the previous lap (the queue is full); for a consumer
    /// the item has not been written yet (the queue is empty).
    Behind,
    /// The epoch is the expected one: the position may be claimed.
    Ready,
    /// The epoch is past the expected one: another producer or consumer has
    /// already taken the position, and the shared counter must be reloaded.
    Ahead,
}

/// Compares a cell's epoch with the epoch an operation expects.
pub fn probe(epoch: usize, expected: usize) -> (p: Probe)
    ensures
        p == Probe::Behind <==> epoch < expected,
        p == Probe::Ready <==> epoch == expected,
        p == Probe::Ahead <==> epoch > expected,
{
    if epoch < expected {
        Probe::Behind
    } else if epoch == expected {
        Probe::Ready
    } else {
        Probe::Ahead
    }
}

/// Whether the cell of position `pos` holds an item written there and not
/// yet read: its epoch is `pos + 1`. The scans that drop a queue's remaining
/// items, from the tail or from the head, take exactly such cells.
pub fn holds_written_item(epoch: usize, pos: usize) -> (r: bool)
    ensures
        r == (epoch == pos.wrapping_add(1)),
{
    epoch == pos.wrapping_add(1)
}

/// A producer's local state: the position it will write next.
#[derive(Clone, Copy)]
pub struct ProducerCursor {
    local_tail: usize,
}

impl ProducerCursor {
    /// The position this producer writes next.
    pub closed spec fn position(&self) -> usize {
        self.local_tail
    }

    /// A producer that starts at `position`.
    pub fn at(position: usize) -> (c: Self)
        ensures
            c.position() == position,
    {
        ProducerCursor { local_tail: position }
    }

    /// The position this producer writes next.
    pub fn current(&self) -> (r: usize)
        ensures
            r == self.position(),
    {
        self.local_tail
    }

    /// The epoch of a cell that is ready for this producer's position.
    pub fn expected_epoch(&self) -> (r: usize)
        ensures
            r == self.position(),
    {
        self.local_tail
    }

    /// Replaces the position with a freshly loaded shared tail.
    pub fn observe_tail(&mut self, tail: usize)
        ensures
            final(self).position() == tail,
    {
        self.local_tail = tail;
    }

    /// Records that the position was claimed and returns the epoch that
    /// publishes the written item, which is also the next position.
    pub fn claim(&mut self) -> (published_epoch: usize)
        ensures
            published_epoch == old(self).position().wrapping_add(1),
            final(self).position() == published_epoch,
    {
        self.local_tail = self.local_tail.wrapping_add(1);
        self.local_tail
    }
}

/// A consumer's local state: the position it will read next.
#[derive(Clone, Copy)]
pub struct ConsumerCursor {
    local_head: usize,
}

impl ConsumerCursor {
    /// The position this consumer reads next.
    pub closed spec fn position(&self) -> usize {
        self.local_head
    }

    /// A consumer that starts at `position`.
    pub fn at(position: usize) -> (c: Self)
        ensures
            c.position() == position,
    {
        ConsumerCursor { local_head: position }
    }

    /// The position this consumer reads next.
    pub fn current(&self) -> (r: usize)
        ensures
            r == self.position(),
    {
        self.local_head
    }

    /// The epoch of a cell whose item for this consumer's position is written.
    pub fn expected_epoch(&self) -> (r: usize)
        ensures
            r == self.position().wrapping_add(1),
    {
        self.local_head.wrapping_add(1)
    }

    /// Replaces the position with a freshly loaded shared head.
    pub fn observe_head(&mut self, head: usize)
        ensures
            final(self).position() == head,
    {
        self.local_head = head;
    }

    /// Records that the position was claimed and returns the epoch that
    /// releases the cell for the next lap: `position + capacity`.
    pub fn claim(&mut self, capacity: usize) -> (release_epoch: usize)
        ensures
            release_epoch == old(self).position().wrapping_add(capacity),
            final(self).position() == old(self).position().wrapping_add(1),
    {
        let release = self.local_head.wrapping_add(capacity);
        self.local_head = self.local_head.wrapping_add(1);
        release
    }
}

/// The epoch and data of the cell that the item `j` places after position
/// `head` occupies.
pub open spec fn cell_at<T>(epochs: Seq<usize>, slots: Seq<Option<T>>, head: int, j: int) -> (
    usize,
    Option<T>,
) {
    let s = (head + j) % (slots.len() as int);
    (epochs[s], slots[s])
}

/// The cells from the cell of `head` onward carry the epochs of `written`
/// written positions (position + 1) followed by waiting ones (position),
/// and the first `items.len()` of the written cells still hold `items`,
/// every other cell being empty.
pub open spec fn cells_match<T>(
    epochs: Seq<usize>,
    slots: Seq<Option<T>>,
    head: int,
    written: int,
    items: Seq<T>,
) -> bool {
    &&& 0 < slots.len()
    &&& epochs.len() == slots.len()
    &&& 0 <= head
    &&& items.len() <= written <= slots.len()
    &&& forall|j: int|
        0 <= j < slots.len() ==> #[trigger] cell_at(epochs, slots, head, j) == (
            if j < written {
                (head + j + 1) as usize
            } else {
                (head + j) as usize
            },
            if j < items.len() {
                Some(items[j])
            } else {
                None
            },
        )
}

/// The cells hold exactly `items` in order from the cell of `head`, each
/// with epoch position + 1; every other cell is empty and waits for its
/// position in the current lap.
pub open spec fn cells_hold<T>(
    epochs: Seq<usize>,
    slots: Seq<Option<T>>,
    head: int,
    items: Seq<T>,
) -> bool {
    cells_match(epochs, slots, head, items.len() as int, items)
}

/// Two positions in the same slot, the larger one ahead, are a full lap apart.
pub proof fn lemma_same_slot_lap(a: int, b: int, c: int)
    requires
        0 < c,
        0 <= b < a,
        a % c == b % c,
    ensures
        a >= b + c,
{
    if a < b + c {
        lemma_mod_distinct(b, a - b, c);
        assert(b + (a - b) == a);
    }
}

/// The cell of any position `p` waits for, or holds the item of, the
/// position `head + j` that shares its slot within the current lap.
pub proof fn lemma_cell_of_position<T>(
    epochs: Seq<usize>,
    slots: Seq<Option<T>>,
    head: int,
    written: int,
    items: Seq<T>,
    p: int,
) -> (j: int)
    requires
        cells_match(epochs, slots, head, written, items),
        0 <= p,
        head + slots.len() <= usize::MAX,
    ensures
        0 <= j < slots.len(),
        (head + j) % (slots.len() as int) == p % (slots.len() as int),
        0 <= p % (slots.len() as int) < slots.len(),
        epochs[p % (slots.len() as int)] == (if j < written {
            head + j + 1
        } else {
            head + j
        }),
        slots[p % (slots.len() as int)] == (if j < items.len() {
            Some(items[j])
        } else {
            None
        }),
        p >= head ==> (p - head < slots.len() ==> j == p - head),
        p - head == slots.len() ==> j == 0,
{
    let c = slots.len() as int;
    let j = (p - head) % c;
    vstd::arithmetic::div_mod::lemma_mod_bound(p - head, c);
    lemma_mod_pos_bound(p, c);
    vstd::arithmetic::div_mod::lemma_mod_self_0(c);
    lemma_add_mod_noop_right(head, p - head, c);
    assert(head + (p - head) == p);
    assert(cell_at(epochs, slots, head, j) == cell_at(epochs, slots, head, j));
    if p >= head && p - head < c {
        lemma_small_mod((p - head) as nat, c as nat);
    }
    j
}

/// Writing the cell just past the last item (whose epoch is its position)
/// appends the item.
pub proof fn lemma_cells_push<T>(
    epochs: Seq<usize>,
    slots: Seq<Option<T>>,
    head: int,
    items: Seq<T>,
    v: T,
)
    requires
        cells_hold(epochs, slots, head, items),
        items.len() < slots.len(),
        head + items.len() + 1 <= usize::MAX,
    ensures
        ({
            let s = (head + items.len()) % (slots.len() as int);
            &&& 0 <= s < slots.len()
            &&& epochs[s] == head + items.len()
            &&& slots[s] is None
            &&& cells_hold(
                epochs.update(s, (head + items.len() + 1) as usize),
                slots.update(s, Some(v)),
                head,
                items.push(v),
            )
        }),
{
    let c = slots.len() as int;
    let n = items.len() as int;
    let s = (head + n) % c;
    lemma_mod_pos_bound(head + n, c);
    assert(cell_at(epochs, slots, head, n) == ((head + n) as usize, None::<T>));
    let e2 = epochs.update(s, (head + n + 1) as usize);
    let s2 = slots.update(s, Some(v));
    let it2 = items.push(v);
    assert forall|j: int| 0 <= j < c implies #[trigger] cell_at(e2, s2, head, j) == (if j
        < it2.len() {
        ((head + j + 1) as usize, Some(it2[j]))
    } else {
        ((head + j) as usize, None)
    }) by {
        lemma_mod_pos_bound(head + j, c);
        if j != n {
            if j < n {
                lemma_mod_distinct(head + j, n - j, c);
            } else {
                lemma_mod_distinct(head + n, j - n, c);
            }
            assert(cell_at(epochs, slots, head, j) == cell_at(e2, s2, head, j));
        }
    }
}

/// Reading the cell of `head` (whose epoch is `head + 1`) and releasing it
/// for the next lap removes the first item.
pub proof fn lemma_cells_pop<T>(
    epochs: Seq<usize>,
    slots: Seq<Option<T>>,
    head: int,
    items: Seq<T>,
)
    requires
        cells_hold(epochs, slots, head, items),
        0 < items.len(),
        head + slots.len() <= usize::MAX,
    ensures
        ({
            let s = head % (slots.len() as int);
            &&& 0 <= s < slots.len()
            &&& epochs[s] == head + 1
            &&& slots[s] == Some(items[0])
            &&& cells_hold(
                epochs.update(s, (head + slots.len()) as usize),
                slots.update(s, None),
                head + 1,
                items.drop_first(),
            )
        }),
{
    let c = slots.len() as int;
    let s = head % c;
    lemma_mod_pos_bound(head, c);
    assert(cell_at(epochs, slots, head, 0) == ((head + 1) as usize, Some(items[0])));
    assert(head + 0 == head);
    let e2 = epochs.update(s, (head + c) as usize);
    let s2 = slots.update(s, None);
    let it2 = items.drop_first();
    assert forall|j: int| 0 <= j < c implies #[trigger] cell_at(e2, s2, head + 1, j) == (if j
        < it2.len() {
        ((head + 1 + j + 1) as usize, Some(it2[j]))
    } else {
        ((head + 1 + j) as usize, None)
    }) by {
        lemma_mod_pos_bound(head + 1 + j, c);
        assert(head + 1 + j == head + (j + 1));
        if j + 1 < c {
            lemma_mod_distinct(head, j + 1, c);
            assert(cell_at(epochs, slots, head, j + 1) == cell_at(e2, s2, head + 1, j));
        } else {
            vstd::arithmetic::div_mod::lemma_mod_add_multiples_vanish(head, c);
            assert(head + 1 + j == c + head);
        }
    }
}

/// Taking the item out of the cell of the last kept item leaves its epoch
/// as it is and empties the cell.
pub proof fn lemma_cells_take_last<T>(
    epochs: Seq<usize>,
    slots: Seq<Option<T>>,
    head: int,
    written: int,
    kept: Seq<T>,
)
    requires
        cells_match(epochs, slots, head, written, kept),
        0 < kept.len(),
    ensures
        ({
            let s = (head + kept.len() - 1) % (slots.len() as int);
            &&& 0 <= s < slots.len()
            &&& slots[s] == Some(kept[kept.len() - 1])
            &&& cells_match(epochs, slots.update(s, None), head, written, kept.drop_last())
        }),
{
    let c = slots.len() as int;
    let n = kept.len() - 1;
    let s = (head + n) % c;
    lemma_mod_pos_bound(head + n, c);
    assert(cell_at(epochs, slots, head, n).1 == Some(kept[n]));
    let s2 = slots.update(s, None);
    let k2 = kept.drop_last();
    assert forall|j: int| 0 <= j < c implies #[trigger] cell_at(epochs, s2, head, j) == (
        if j < written {
            (head + j + 1) as usize
        } else {
            (head + j) as usize
        },
        if j < k2.len() {
            Some(k2[j])
        } else {
            None
        },
    ) by {
        lemma_mod_pos_bound(head + j, c);
        if j != n {
            if j < n {
                lemma_mod_distinct(head + j, n - j, c);
            } else {
                lemma_mod_distinct(head + n, j - n, c);
            }
            assert(cell_at(epochs, slots, head, j) == cell_at(epochs, s2, head, j));
        }
    }
}

/// The shared part of a queue of sequenced cells: the head and tail
/// counters and the cells.
pub struct CellRing<T> {
    geom: Geometry,
    epochs: Vec<usize>,
    slots: Vec<Option<T>>,
    head: usize,
    tail: usize,
    items: Ghost<Seq<T>>,
}

impl<T> View for CellRing<T> {
    type V = Seq<T>;

    /// The items in the queue, oldest first.
    closed spec fn view(&self) -> Seq<T> {
        self.items@
    }
}

impl<T> CellRing<T> {
    /// The number of cells, which is also the number of items the queue holds.
    pub closed spec fn spec_capacity(&self) -> usize {
        self.geom.spec_capacity()
    }

    /// The shared head: the position of the oldest item.
    pub closed spec fn shared_head(&self) -> usize {
        self.head
    }

    /// The shared tail: the position the next item goes to.
    pub closed spec fn shared_tail(&self) -> usize {
        self.tail
    }

    /// The queue's internal invariant: the cells from the head's cell onward
    /// hold the items with epochs position + 1 and the others wait for their
    /// position; there are at least two cells; the counters have not wrapped.
    pub closed spec fn wf(&self) -> bool {
        &&& self.geom.wf()
        &&& 2 <= self.geom.spec_capacity()
        &&& self.slots@.len() == self.geom.spec_capacity()
        &&& self.head <= self.tail
        &&& self.tail - self.head == self.items@.len()
        &&& self.tail + self.geom.spec_capacity() <= usize::MAX
        &&& cells_hold(self.epochs@, self.slots@, self.head as int, self.items@)
    }

    /// The queue is full.
    pub open spec fn spec_is_full(&self) -> bool {
        self@.len() == self.spec_capacity()
    }

    /// A producer that shares the tail with others: its position is the
    /// tail or an earlier value of it.
    pub open spec fn producer_lags(&self, tx: ProducerCursor) -> bool {
        tx.position() <= self.shared_tail()
    }

    /// The only producer: its position is the tail.
    pub open spec fn producer_owns(&self, tx: ProducerCursor) -> bool {
        tx.position() == self.shared_tail()
    }

    /// A consumer that shares the head with others: its position is the head
    /// or an earlier value of it.
    pub open spec fn consumer_lags(&self, rx: ConsumerCursor) -> bool {
        rx.position() <= self.shared_head()
    }

    /// The only consumer: its position is the head.
    pub open spec fn consumer_owns(&self, rx: ConsumerCursor) -> bool {
        rx.position() == self.shared_head()
    }

    /// There is room for the tail to advance by `n` positions without wrapping.
    ///
    /// The sending operations require it: the epoch probes compare wrapped
    /// positions and epochs as plain numbers, which is wrong once the
    /// counters wrap round. They wrap after `usize::MAX` items: out of reach
    /// on a 64-bit machine, after about four billion items on a 32-bit one.
    pub open spec fn has_headroom(&self, n: nat) -> bool {
        self.shared_tail() + n + self.spec_capacity() <= usize::MAX
    }

    /// What every well-formed queue guarantees.
    pub proof fn lemma_wf(&self)
        requires
            self.wf(),
        ensures
            2 <= self.spec_capacity(),
            self@.len() <= self.spec_capacity(),
            self.shared_head() <= self.shared_tail(),
            self.shared_tail() - self.shared_head() == self@.len(),
    {
    }

    /// Creates an empty queue whose capacity is the next power of two of
    /// `size`, every cell waiting for the position of its own index.
    ///
    /// A size of 1 is left out: with a single cell, the written item of one
    /// lap and the free cell of the next carry the same epoch, so a second
    /// send overwrites the unread first item and a receive then never
    /// finds the epoch it waits for.
    pub fn with_size(size: usize) -> (q: Self)
        requires
            2 <= size <= usize::MAX / 2 + 1,
        ensures
            q.wf(),
            q@ == Seq::<T>::empty(),
            crate::ring::is_next_power_of_two(size as nat, q.spec_capacity() as nat),
            crate::ring::is_usize_power_of_two(size as nat) ==> q.spec_capacity() == size,
            q.shared_head() == 0,
            q.shared_tail() == 0,
    {
        let geom = Geometry::with_size(size);
        proof {
            geom.lemma_wf();
        }
        let capacity = geom.capacity();
        let mut epochs: Vec<usize> = Vec::new();
        let mut slots: Vec<Option<T>> = Vec::new();
        let mut i: usize = 0;
        while i < capacity
            invariant
                i <= capacity,
                epochs@.len() == i,
                slots@.len() == i,
                forall|k: int| 0 <= k < i ==> epochs@[k] == k && slots@[k] is None,
            decreases capacity - i,
        {
            epochs.push(i);
            slots.push(None);
            i = i + 1;
        }
        let q = CellRing { geom, epochs, slots, head: 0, tail: 0, items: Ghost(Seq::empty()) };
        proof {
            assert forall|j: int| 0 <= j < capacity implies #[trigger] cell_at(
                q.epochs@,
                q.slots@,
                0,
                j,
            ) == (if j < 0 {
                ((0 + j + 1) as usize, Some(Seq::<T>::empty()[j]))
            } else {
                ((0 + j) as usize, None)
            }) by {
                lemma_small_mod(j as nat, capacity as nat);
            }
        }
        q
    }

    /// The number of cells.
    pub fn capacity(&self) -> (r: usize)
        ensures
            r == self.spec_capacity(),
    {
        self.geom.capacity()
    }

    /// The current shared head.
    pub fn head(&self) -> (r: usize)
        ensures
            r == self.shared_head(),
    {
        self.head
    }

    /// The current shared tail.
    pub fn tail(&self) -> (r: usize)
        ensures
            r == self.shared_tail(),
    {
        self.tail
    }

    /// The epoch of the cell of position `pos`.
    fn epoch_of(&self, pos: usize) -> (e: usize)
        requires
            self.wf(),
        ensures
            e == self.epochs@[pos as int % (self.spec_capacity() as int)],
    {
        let s = self.geom.slot(pos);
        self.epochs[s]
    }

    /// Writes `value` into the cell of the tail, publishes it with epoch
    /// tail + 1 and advances the tail.
    fn write_at_tail(&mut self, value: T)
        requires
            old(self).wf(),
            !old(self).spec_is_full(),
            old(self).has_headroom(1),
        ensures
            final(self).wf(),
            final(self)@ == old(self)@.push(value),
            final(self).spec_capacity() == old(self).spec_capacity(),
            final(self).shared_head() == old(self).shared_head(),
            final(self).shared_tail() == old(self).shared_tail() + 1,
    {
        proof {
            lemma_cells_push(self.epochs@, self.slots@, self.head as int, self.items@, value);
            assert(self.head + self.items@.len() == self.tail);
        }
        let mut producer = ProducerCursor::at(self.tail);
        let s = self.geom.slot(self.tail);
        self.slots.set(s, Some(value));
        let published = producer.claim();
        self.epochs.set(s, published);
        self.tail = published;
        proof {
            self.items@ = self.items@.push(value);
        }
    }

    /// Reads the cell of the head, releases it with epoch head + capacity
    /// and advances the head.
    fn read_at_head(&mut self) -> (v: T)
        requires
            old(self).wf(),
            old(self)@.len() > 0,
        ensures
            final(self).wf(),
            v == old(self)@[0],
            final(self)@ == old(self)@.drop_first(),
            final(self).spec_capacity() == old(self).spec_capacity(),
            final(self).shared_head() == old(self).shared_head() + 1,
            final(self).shared_tail() == old(self).shared_tail(),
    {
        proof {
            lemma_cells_pop(self.epochs@, self.slots@, self.head as int, self.items@);
        }
        let mut consumer = ConsumerCursor::at(self.head);
        let s = self.geom.slot(self.head);
        let v = self.slots[s].take();
        let release = consumer.claim(self.geom.capacity());
        self.epochs.set(s, release);
        self.head = consumer.current();
        proof {
            self.items@ = self.items@.drop_first();
        }
        v.unwrap()
    }

    /// Sends `value` as one of several producers, claiming the tail with a
    /// fetch-and-add. The producer would wait until the claimed cell is
    /// released; here the queue must have room, so it never waits.
    pub fn send_contended(&mut self, tx: &mut ProducerCursor, value: T)
        requires
            old(self).wf(),
            !old(self).spec_is_full(),
            old(self).has_headroom(1),
        ensures
            final(self).wf(),
            final(self)@ == old(self)@.push(value),
            final(self).spec_capacity() == old(self).spec_capacity(),
            final(self).shared_head() == old(self).shared_head(),
            final(self).shared_tail() == old(self).shared_tail() + 1,
            final(tx).position() == final(self).shared_tail(),
    {
        let claimed = self.tail;
        tx.observe_tail(claimed);
        proof {
            let _ = lemma_cell_of_position(
                self.epochs@,
                self.slots@,
                self.head as int,
                self.items@.len() as int,
                self.items@,
                claimed as int,
            );
        }
        let ready = probe(self.epoch_of(claimed), tx.expected_epoch());
        assert(ready == Probe::Ready);
        self.write_at_tail(value);
        tx.claim();
    }

    /// Attempts to send `value` as one of several producers: probes the cell
    /// of the producer's position, reloads a stale position, and claims a
    /// ready one with a compare-and-swap of the tail. Fails, handing the
    /// value back, exactly when the queue is full.
    pub fn try_send_contended(&mut self, tx: &mut ProducerCursor, value: T) -> (r: Result<(), T>)
        requires
            old(self).wf(),
            old(self).producer_lags(*old(tx)),
            old(self).has_headroom(1),
        ensures
            final(self).wf(),
            final(self).producer_lags(*final(tx)),
            final(self).spec_capacity() == old(self).spec_capacity(),
            final(self).shared_head() == old(self).shared_head(),
            r is Ok <==> !old(self).spec_is_full(),
            final(self)@ == send_step(old(self)@, value, old(self).spec_capacity() as nat),
            r is Ok ==> final(self)@ == old(self)@.push(value) && final(self).shared_tail()
                == old(self).shared_tail() + 1 && final(tx).position() == final(self).shared_tail(),
            r matches Err(v) ==> v == value && final(self)@ == old(self)@
                && final(self).shared_tail() == old(self).shared_tail(),
    {
        loop
            invariant_except_break
                self.wf(),
                *self == *old(self),
                tx.position() <= self.tail,
            ensures
                self.wf(),
                *self == *old(self),
                tx.position() == self.tail,
                !self.spec_is_full(),
            decreases self.tail - tx.position(),
        {
            let pos = tx.current();
            let ghost j = lemma_cell_of_position(
                self.epochs@,
                self.slots@,
                self.head as int,
                self.items@.len() as int,
                self.items@,
                pos as int,
            );
            proof {
                if pos < self.head {
                    lemma_same_slot_lap(self.head + j, pos as int, self.spec_capacity() as int);
                }
            }
            match probe(self.epoch_of(pos), tx.expected_epoch()) {
                Probe::Behind => {
                    return Err(value);
                },
                Probe::Ready => {
                    if self.tail == pos {
                        break ;
                    } else {
                        tx.observe_tail(self.tail);
                    }
                },
                Probe::Ahead => {
                    tx.observe_tail(self.tail);
                },
            }
        }
        self.write_at_tail(value);
        tx.claim();
        Ok(())
    }

    /// Sends `value` as the only producer. The producer would wait until
    /// the cell of its position is released; here the queue must have room,
    /// so it never waits.
    pub fn send_exclusive(&mut self, tx: &mut ProducerCursor, value: T)
        requires
            old(self).wf(),
            old(self).producer_owns(*old(tx)),
            !old(self).spec_is_full(),
            old(self).has_headroom(1),
        ensures
            final(self).wf(),
            final(self).producer_owns(*final(tx)),
            final(self)@ == old(self)@.push(value),
            final(self).spec_capacity() == old(self).spec_capacity(),
            final(self).shared_head() == old(self).shared_head(),
            final(self).shared_tail() == old(self).shared_tail() + 1,
    {
        proof {
            let _ = lemma_cell_of_position(
                self.epochs@,
                self.slots@,
                self.head as int,
                self.items@.len() as int,
                self.items@,
                self.tail as int,
            );
        }
        let ready = probe(self.epoch_of(tx.current()), tx.expected_epoch());
        assert(ready == Probe::Ready);
        self.write_at_tail(value);
        tx.claim();
    }

    /// Attempts to send `value` as the only producer: fails, handing the
    /// value back, exactly when the cell of its position is not released,
    /// that is, exactly when the queue is full.
    pub fn try_send_exclusive(&mut self, tx: &mut ProducerCursor, value: T) -> (r: Result<(), T>)
        requires
            old(self).wf(),
            old(self).producer_owns(*old(tx)),
            old(self).has_headroom(1),
        ensures
            final(self).wf(),
            final(self).producer_owns(*final(tx)),
            final(self).spec_capacity() == old(self).spec_capacity(),
            final(self).shared_head() == old(self).shared_head(),
            r is Ok <==> !old(self).spec_is_full(),
            final(self)@ == send_step(old(self)@, value, old(self).spec_capacity() as nat),
            r is Ok ==> final(self)@ == old(self)@.push(value) && final(self).shared_tail()
                == old(self).shared_tail() + 1,
            r matches Err(v) ==> v == value && final(self)@ == old(self)@
                && final(self).shared_tail() == old(self).shared_tail(),
    {
        let pos = tx.current();
        proof {
            let _ = lemma_cell_of_position(
                self.epochs@,
                self.slots@,
                self.head as int,
                self.items@.len() as int,
                self.items@,
                pos as int,
            );
        }
        if self.epoch_of(pos) != tx.expected_epoch() {
            return Err(value);
        }
        self.write_at_tail(value);
        tx.claim();
        Ok(())
    }

    /// Receives the oldest item as the only consumer. The consumer would
    /// wait until the cell of its position is written; here the queue must
    /// not be empty, so it never waits.
    pub fn recv_exclusive(&mut self, rx: &mut ConsumerCursor) -> (v: T)
        requires
            old(self).wf(),
            old(self).consumer_owns(*old(rx)),
            old(self)@.len() > 0,
        ensures
            final(self).wf(),
            final(self).consumer_owns(*final(rx)),
            v == old(self)@[0],
            final(self)@ == old(self)@.drop_first(),
            final(self).spec_capacity() == old(self).spec_capacity(),
            final(self).shared_tail() == old(self).shared_tail(),
            final(self).shared_head() == old(self).shared_head() + 1,
    {
        proof {
            let _ = lemma_cell_of_position(
                self.epochs@,
                self.slots@,
                self.head as int,
                self.items@.len() as int,
                self.items@,
                self.head as int,
            );
        }
        let written = self.epoch_of(rx.current()) >= rx.expected_epoch();
        assert(written);
        let v = self.read_at_head();
        rx.claim(self.geom.capacity());
        v
    }

    /// Attempts to receive the oldest item as the only consumer: `None`
    /// exactly when the cell of its position is not yet written, that is,
    /// exactly when the queue is empty.
    pub fn try_recv_exclusive(&mut self, rx: &mut ConsumerCursor) -> (r: Option<T>)
        requires
            old(self).wf(),
            old(self).consumer_owns(*old(rx)),
        ensures
            final(self).wf(),
            final(self).consumer_owns(*final(rx)),
            final(self).spec_capacity() == old(self).spec_capacity(),
            final(self).shared_tail() == old(self).shared_tail(),
            r is None <==> old(self)@.len() == 0,
            r == front(old(self)@),
            final(self)@ == recv_step(old(self)@),
            r is None ==> final(self)@ == old(self)@ && final(self).shared_head()
                == old(self).shared_head(),
            r matches Some(v) ==> v == old(self)@[0] && final(self)@ == old(self)@.drop_first()
                && final(self).shared_head() == old(self).shared_head() + 1,
    {
        let pos = rx.current();
        proof {
            let _ = lemma_cell_of_position(
                self.epochs@,
                self.slots@,
                self.head as int,
                self.items@.len() as int,
                self.items@,
                pos as int,
            );
        }
        if self.epoch_of(pos) < rx.expected_epoch() {
            return None;
        }
        let v = self.read_at_head();
        rx.claim(self.geom.capacity());
        Some(v)
    }

    /// Receives the oldest item as one of several consumers, claiming the
    /// head with a fetch-and-add. The consumer would wait until the claimed
    /// cell is written; here the queue must not be empty, so it never waits.
    pub fn recv_contended(&mut self, rx: &mut ConsumerCursor) -> (v: T)
        requires
            old(self).wf(),
            old(self)@.len() > 0,
        ensures
            final(self).wf(),
            final(self).consumer_owns(*final(rx)),
            v == old(self)@[0],
            final(self)@ == old(self)@.drop_first(),
            final(self).spec_capacity() == old(self).spec_capacity(),
            final(self).shared_tail() == old(self).shared_tail(),
            final(self).shared_head() == old(self).shared_head() + 1,
    {
        let claimed = self.head;
        rx.observe_head(claimed);
        proof {
            let _ = lemma_cell_of_position(
                self.epochs@,
                self.slots@,
                self.head as int,
                self.items@.len() as int,
                self.items@,
                claimed as int,
            );
        }
        let ready = probe(self.epoch_of(claimed), rx.expected_epoch());
        assert(ready == Probe::Ready);
        let v = self.read_at_head();
        rx.claim(self.geom.capacity());
        v
    }

    /// Attempts to receive the oldest item as one of several consumers:
    /// probes the cell of the consumer's position, reloads a stale position,
    /// and claims a written one with a compare-and-swap of the head. `None`
    /// exactly when the queue is empty.
    pub fn try_recv_contended(&mut self, rx: &mut ConsumerCursor) -> (r: Option<T>)
        requires
            old(self).wf(),
            old(self).consumer_lags(*old(rx)),
        ensures
            final(self).wf(),
            final(self).consumer_lags(*final(rx)),
            final(self).spec_capacity() == old(self).spec_capacity(),
            final(self).shared_tail() == old(self).shared_tail(),
            r is None <==> old(self)@.len() == 0,
            r == front(old(self)@),
            final(self)@ == recv_step(old(self)@),
            r is None ==> final(self)@ == old(self)@ && final(self).shared_head()
                == old(self).shared_head(),
            r matches Some(v) ==> v == old(self)@[0] && final(self)@ == old(self)@.drop_first()
                && final(self).shared_head() == old(self).shared_head() + 1 && final(rx).position() == final(self).shared_head(),
    {
        loop
            invariant_except_break
                self.wf(),
                *self == *old(self),
                rx.position() <= self.head,
            ensures
                self.wf(),
                *self == *old(self),
                rx.position() == self.head,
                self@.len() > 0,
            decreases self.head - rx.position(),
        {
            let pos = rx.current();
            let ghost j = lemma_cell_of_position(
                self.epochs@,
                self.slots@,
                self.head as int,
                self.items@.len() as int,
                self.items@,
                pos as int,
            );
            proof {
                if pos < self.head {
                    lemma_same_slot_lap(self.head + j, pos as int, self.spec_capacity() as int);
                }
            }
            match probe(self.epoch_of(pos), rx.expected_epoch()) {
                Probe::Behind => {
                    return None;
                },
                Probe::Ready => {
                    if self.head == pos {
                        break ;
                    } else {
                        rx.observe_head(self.head);
                    }
                },
                Probe::Ahead => {
                    rx.observe_head(self.head);
                },
            }
        }
        let v = self.read_at_head();
        rx.claim(self.geom.capacity());
        Some(v)
    }
    /// Takes every item still in the queue, walking the `capacity`
    /// positions from the head onward and taking the cells whose epoch shows
    /// a written item (position + 1): the items that dropping the queue must
    /// drop, oldest first. This is the scan of a queue whose consumers share
    /// the head.
    pub fn into_remaining_from_head(self) -> (r: Vec<T>)
        requires
            self.wf(),
        ensures
            r@ == self@,
    {
        proof {
            self.geom.lemma_wf();
        }
        let mut q = self;
        let cap = q.geom.capacity();
        let head = q.head;
        let ghost items = self.items@;
        let ghost n = items.len() as int;
        let ghost orig = self.slots@;
        let ghost c = cap as int;
        let mut out: Vec<T> = Vec::new();
        let mut j: usize = 0;
        while j < cap
            invariant
                q.geom == self.geom,
                q.geom.wf(),
                cap == q.geom.spec_capacity(),
                c == cap,
                2 <= c,
                head == self.head,
                q.epochs@ == self.epochs@,
                q.slots@.len() == c,
                orig.len() == c,
                cells_hold(self.epochs@, orig, head as int, items),
                head + c <= usize::MAX,
                n == items.len(),
                items == self.items@,
                n <= c,
                j <= c,
                forall|k: int|
                    j <= k < c ==> #[trigger] q.slots@[(head + k) % c] == orig[(head + k) % c],
                out@ == items.take(if j < n {
                    j as int
                } else {
                    n
                }),
            decreases cap - j,
        {
            let pos = head + j;
            let s = q.geom.slot(pos);
            proof {
                assert(cells_match(self.epochs@, orig, head as int, n, items));
                assert(cell_at(self.epochs@, orig, head as int, j as int) == (
                    if j < n {
                        (head + j + 1) as usize
                    } else {
                        (head + j) as usize
                    },
                    if j < n {
                        Some(items[j as int])
                    } else {
                        None
                    },
                ));
                assert(q.slots@[(head + j) % c] == orig[(head + j) % c]);
            }
            let ghost before = q.slots@;
            if holds_written_item(q.epochs[s], pos) {
                let v = q.slots[s].take();
                proof {
                    assert(items.take(j + 1) == items.take(j as int).push(items[j as int]));
                }
                out.push(v.unwrap());
            }
            proof {
                assert forall|k: int| j + 1 <= k < c implies #[trigger] q.slots@[(head + k) % c]
                    == orig[(head + k) % c] by {
                    lemma_mod_distinct(head + j, k - j, c);
                    assert(head + j + (k - j) == head + k);
                    lemma_mod_pos_bound(head + k, c);
                    assert(q.slots@[(head + k) % c] == before[(head + k) % c]);
                }
            }
            j = j + 1;
        }
        proof {
            assert(items.take(n) == items);
        }
        out
    }

    /// Takes every item still in the queue, walking the `capacity`
    /// positions before the tail from the newest down and taking the cells
    /// whose epoch shows a written item (position + 1): the items that
    /// dropping the queue must drop, newest first.
    pub fn into_remaining(self) -> (r: Vec<T>)
        requires
            self.wf(),
        ensures
            r@ == self@.reverse(),
    {
        proof {
            self.geom.lemma_wf();
        }
        let mut q = self;
        let cap = q.geom.capacity();
        let ghost items = self.items@;
        let ghost n = items.len() as int;
        let ghost head = self.head as int;
        let ghost mut k: int = 0;
        let mut out: Vec<T> = Vec::new();
        let mut i: usize = 1;
        while i <= cap
            invariant
                q.geom == self.geom,
                q.geom.wf(),
                q.epochs@ == self.epochs@,
                q.head == self.head,
                q.tail == self.tail,
                head == q.head as int,
                cap == q.geom.spec_capacity(),
                q.slots@.len() == cap,
                2 <= cap <= usize::MAX / 2 + 1,
                1 <= i <= cap + 1,
                n == items.len(),
                q.tail - q.head == n,
                q.tail + cap <= usize::MAX,
                i - 1 <= n ==> k == i - 1,
                i - 1 > n ==> k == n,
                cells_match(q.epochs@, q.slots@, head, n, items.take(n - k)),
                out@ == items.subrange(n - k, n).reverse(),
            decreases cap + 1 - i,
        {
            let idx = q.tail.wrapping_sub(i);
            let ghost j = lemma_cell_of_position(
                q.epochs@,
                q.slots@,
                head,
                n,
                items.take(n - k),
                idx as int,
            );
            proof {
                let c = cap as int;
                if i <= n {
                    assert(idx == q.tail - i);
                    assert(j == idx - head);
                } else if i <= q.tail {
                    assert(idx == q.tail - i);
                    lemma_same_slot_lap(head + j, idx as int, c);
                } else if i == q.tail + 1 {
                    assert(idx == usize::MAX);
                    q.geom.lemma_wf();
                    crate::ring::lemma_max_slot(cap);
                    if head + j == 0 {
                        vstd::arithmetic::div_mod::lemma_small_mod(0, c as nat);
                    }
                } else {
                    assert(idx == usize::MAX + 1 + q.tail - i);
                }
            }
            let s = q.geom.slot(idx);
            if holds_written_item(q.epochs[s], idx) {
                proof {
                    let kept = items.take(n - k);
                    lemma_cells_take_last(q.epochs@, q.slots@, head, n, kept);
                    assert(head + kept.len() - 1 == idx);
                    assert(kept.drop_last() == items.take(n - k - 1));
                    assert(items.subrange(n - k - 1, n).reverse() == items.subrange(
                        n - k,
                        n,
                    ).reverse().push(items[n - k - 1]));
                }
                let v = q.slots[s].take();
                out.push(v.unwrap());
                proof {
                    k = k + 1;
                }
            }
            i = i + 1;
        }
        proof {
            assert(items.subrange(0, n) == items);
        }
        out
    }
}

} // verus!
