//! Single-producer single-consumer ring: the producer and consumer cursors,
//! and the ring that they operate on.
//!
//! The two ends share two counters, `head` (advanced by the consumer) and
//! `tail` (advanced by the producer); both count positions and map a position
//! to a slot with the geometry's mask. Each end keeps a local copy of its own
//! counter and a cached copy of the other end's counter, which it refreshes
//! only when the cached value makes the ring look full (producer) or empty
//! (consumer).
//!
//! The cursors are the complete decision logic of each end. [`Ring`] holds
//! the shared counters and the slots in one value and runs every operation of
//! the two ends through the cursors; its contracts state what the protocol
//! guarantees: first-in first-out delivery, at most `size` items in flight,
//! a send that fails exactly when the ring is full, a receive that fails
//! exactly when it is empty, and that a cursor never writes an occupied slot
//! nor reads an empty one.
use crate::order::{front, recv_step, send_step};
use crate::ring::{lemma_slots_pop, lemma_slots_push, lemma_mod_shift, slots_hold, Geometry};
use vstd::arithmetic::div_mod::lemma_mod_pos_bound;
use vstd::prelude::*;

verus! {

/// The smaller of two counts.
pub open spec fn min_usize(a: usize, b: usize) -> usize {
    if a <= b {
        a
    } else {
        b
    }
}

fn min_of(a: usize, b: usize) -> (r: usize)
    ensures
        r == min_usize(a, b),
{
    if a <= b {
        a
    } else {
        b
    }
}

/// The producer end's local state: its own tail and a cached copy of the head.
#[derive(Clone, Copy)]
pub struct SenderCursor {
    geom: Geometry,
    local_head: usize,
    local_tail: usize,
}

impl SenderCursor {
    /// The geometry of the ring this cursor writes to.
    pub closed spec fn geometry(&self) -> Geometry {
        self.geom
    }

    /// The cached copy of the consumer's head.
    pub closed spec fn cached_head(&self) -> usize {
        self.local_head
    }

    /// The next position this cursor writes (its tail).
    pub closed spec fn position(&self) -> usize {
        self.local_tail
    }

    /// The last tail that the cached head allows: `cached_head + size`, wrapping.
    pub open spec fn spec_max_tail(&self) -> usize {
        self.cached_head().wrapping_add(self.geometry().spec_size())
    }

    /// The cached head leaves room for one more item.
    pub open spec fn spec_has_room(&self) -> bool {
        !(self.position().wrapping_add(1) > self.spec_max_tail())
    }

    /// The number of positions between the cached head and the tail, wrapping.
    pub open spec fn spec_in_flight(&self) -> usize {
        self.position().wrapping_sub(self.cached_head())
    }

    /// A cursor at position 0 of a fresh ring.
    pub fn new(geom: Geometry) -> (c: Self)
        ensures
            c.geometry() == geom,
            c.cached_head() == 0,
            c.position() == 0,
    {
        SenderCursor { geom, local_head: 0, local_tail: 0 }
    }

    /// The last tail that the cached head allows.
    pub fn max_tail(&self) -> (r: usize)
        ensures
            r == self.spec_max_tail(),
    {
        self.local_head.wrapping_add(self.geom.size())
    }

    /// Whether one more item fits according to the cached head.
    pub fn has_room(&self) -> (r: bool)
        ensures
            r == self.spec_has_room(),
    {
        !(self.local_tail.wrapping_add(1) > self.max_tail())
    }

    /// Replaces the cached head with a freshly loaded one.
    pub fn observe_head(&mut self, head: usize)
        ensures
            final(self).cached_head() == head,
            final(self).position() == old(self).position(),
            final(self).geometry() == old(self).geometry(),
    {
        self.local_head = head;
    }

    /// The slot that the next item goes to.
    pub fn write_slot(&self) -> (s: usize)
        requires
            self.geometry().wf(),
        ensures
            s == self.geometry().spec_slot(self.position() as int),
            s < self.geometry().spec_capacity(),
    {
        self.geom.slot(self.local_tail)
    }

    /// The number of positions between the cached head and the tail, wrapping.
    pub fn in_flight(&self) -> (r: usize)
        ensures
            r == self.spec_in_flight(),
    {
        self.local_tail.wrapping_sub(self.local_head)
    }

    /// The number of free positions according to the cached head.
    pub fn free_slots(&self) -> (r: usize)
        requires
            self.spec_in_flight() <= self.geometry().spec_size(),
        ensures
            r == self.geometry().spec_size() - self.spec_in_flight(),
    {
        self.geom.size() - self.local_tail.wrapping_sub(self.local_head)
    }

    /// The contiguous free region starting at the tail's slot: its first slot
    /// and its length, which stops at the cached head and at the end of the slots.
    pub fn write_region(&self) -> (r: (usize, usize))
        requires
            self.geometry().wf(),
            self.spec_in_flight() <= self.geometry().spec_size(),
        ensures
            r.0 == self.geometry().spec_slot(self.position() as int),
            r.0 < self.geometry().spec_capacity(),
            r.1 == min_usize(
                (self.geometry().spec_size() - self.spec_in_flight()) as usize,
                (self.geometry().spec_capacity() - r.0) as usize,
            ),
    {
        let available = self.free_slots();
        let start = self.geom.slot(self.local_tail);
        let contiguous = self.geom.capacity() - start;
        (start, min_of(available, contiguous))
    }

    /// Makes `len` written items visible: advances the tail and returns the
    /// new tail, which the producer stores into the shared tail.
    pub fn publish(&mut self, len: usize) -> (new_tail: usize)
        ensures
            new_tail == old(self).position().wrapping_add(len),
            final(self).position() == new_tail,
            final(self).cached_head() == old(self).cached_head(),
            final(self).geometry() == old(self).geometry(),
    {
        self.local_tail = self.local_tail.wrapping_add(len);
        self.local_tail
    }
}

/// The consumer end's local state: its own head and a cached copy of the tail.
#[derive(Clone, Copy)]
pub struct ReceiverCursor {
    geom: Geometry,
    local_head: usize,
    local_tail: usize,
}

impl ReceiverCursor {
    /// The geometry of the ring this cursor reads from.
    pub closed spec fn geometry(&self) -> Geometry {
        self.geom
    }

    /// The next position this cursor reads (its head).
    pub closed spec fn position(&self) -> usize {
        self.local_head
    }

    /// The cached copy of the producer's tail.
    pub closed spec fn cached_tail(&self) -> usize {
        self.local_tail
    }

    /// The number of items between the head and the cached tail, wrapping.
    pub open spec fn spec_available(&self) -> usize {
        self.cached_tail().wrapping_sub(self.position())
    }

    /// A cursor at position 0 of a fresh ring.
    pub fn new(geom: Geometry) -> (c: Self)
        ensures
            c.geometry() == geom,
            c.position() == 0,
            c.cached_tail() == 0,
    {
        ReceiverCursor { geom, local_head: 0, local_tail: 0 }
    }

    /// Whether the cached tail shows no item to read.
    pub fn is_drained(&self) -> (r: bool)
        ensures
            r == (self.position() == self.cached_tail()),
    {
        self.local_head == self.local_tail
    }

    /// Whether the ring is empty given a (relaxed) load of the shared tail;
    /// the cached tail is consulted first, so no load is needed when it shows items.
    pub fn is_empty_given(&self, tail: usize) -> (r: bool)
        ensures
            r == (self.position() == self.cached_tail() && self.position() == tail),
    {
        self.local_head == self.local_tail && self.local_head == tail
    }

    /// Replaces the cached tail with a freshly loaded one.
    pub fn observe_tail(&mut self, tail: usize)
        ensures
            final(self).cached_tail() == tail,
            final(self).position() == old(self).position(),
            final(self).geometry() == old(self).geometry(),
    {
        self.local_tail = tail;
    }

    /// Replaces the head with a freshly loaded shared head, for a cursor that
    /// another consumer may have advanced in the meantime.
    pub fn observe_head(&mut self, head: usize)
        ensures
            final(self).position() == head,
            final(self).cached_tail() == old(self).cached_tail(),
            final(self).geometry() == old(self).geometry(),
    {
        self.local_head = head;
    }

    /// Whether the cached tail is behind the head, so that it must be reloaded.
    pub fn tail_is_stale(&self) -> (r: bool)
        ensures
            r == (self.cached_tail() < self.position()),
    {
        self.local_tail < self.local_head
    }

    /// The slot that the next item is read from.
    pub fn read_slot(&self) -> (s: usize)
        requires
            self.geometry().wf(),
        ensures
            s == self.geometry().spec_slot(self.position() as int),
            s < self.geometry().spec_capacity(),
    {
        self.geom.slot(self.local_head)
    }

    /// The number of items visible through the cached tail.
    pub fn available(&self) -> (r: usize)
        ensures
            r == self.spec_available(),
    {
        self.local_tail.wrapping_sub(self.local_head)
    }

    /// The contiguous filled region starting at the head's slot: its first
    /// slot and its length, which stops at the cached tail and at the end of the slots.
    pub fn read_region(&self) -> (r: (usize, usize))
        requires
            self.geometry().wf(),
        ensures
            r.0 == self.geometry().spec_slot(self.position() as int),
            r.0 < self.geometry().spec_capacity(),
            r.1 == min_usize(self.spec_available(), (self.geometry().spec_capacity() - r.0) as usize),
    {
        let available = self.available();
        let start = self.geom.slot(self.local_head);
        let contiguous = self.geom.capacity() - start;
        (start, min_of(available, contiguous))
    }

    /// Marks `len` items as consumed: advances the head and returns the new
    /// head, which the consumer stores into the shared head.
    pub fn consume(&mut self, len: usize) -> (new_head: usize)
        ensures
            new_head == old(self).position().wrapping_add(len),
            final(self).position() == new_head,
            final(self).cached_tail() == old(self).cached_tail(),
            final(self).geometry() == old(self).geometry(),
    {
        self.local_head = self.local_head.wrapping_add(len);
        self.local_head
    }
}

/// The shared part of a single-producer single-consumer ring: the head and
/// tail counters and the slots, each either holding an item or empty.
pub struct Ring<T> {
    geom: Geometry,
    slots: Vec<Option<T>>,
    head: usize,
    tail: usize,
    items: Ghost<Seq<T>>,
}

impl<T> View for Ring<T> {
    type V = Seq<T>;

    /// The items in the ring, oldest first.
    closed spec fn view(&self) -> Seq<T> {
        self.items@
    }
}

impl<T> Ring<T> {
    /// The geometry of the ring.
    pub closed spec fn geometry(&self) -> Geometry {
        self.geom
    }

    /// The shared head: the position of the oldest item.
    pub closed spec fn shared_head(&self) -> usize {
        self.head
    }

    /// The shared tail: the position the next item goes to.
    pub closed spec fn shared_tail(&self) -> usize {
        self.tail
    }

    /// The ring's internal invariant: the slots from the head's slot onward
    /// hold exactly the items, in order, and every other slot is empty; at
    /// most `size` items are held; the counters have not wrapped around.
    pub closed spec fn wf(&self) -> bool {
        &&& self.geom.wf()
        &&& self.slots@.len() == self.geom.spec_capacity()
        &&& self.head <= self.tail
        &&& self.tail - self.head == self.items@.len()
        &&& self.items@.len() <= self.geom.spec_size()
        &&& self.tail + self.geom.spec_size() <= usize::MAX
        &&& slots_hold(self.slots@, self.head as int, self.items@)
    }

    /// The number of items the ring may hold.
    pub open spec fn spec_size(&self) -> usize {
        self.geometry().spec_size()
    }

    /// The ring is full.
    pub open spec fn spec_is_full(&self) -> bool {
        self@.len() == self.spec_size()
    }

    /// `tx` is the producer of this ring: same geometry, its tail is the
    /// shared tail, and its cached head is some earlier value of the head.
    pub open spec fn sender_agrees(&self, tx: SenderCursor) -> bool {
        &&& tx.geometry() == self.geometry()
        &&& tx.position() == self.shared_tail()
        &&& tx.cached_head() <= self.shared_head()
        &&& self.shared_tail() <= tx.cached_head() + self.spec_size()
    }

    /// `rx` is the consumer of this ring: same geometry, its head is the
    /// shared head, and its cached tail is some earlier value of the tail.
    pub open spec fn receiver_agrees(&self, rx: ReceiverCursor) -> bool {
        &&& rx.geometry() == self.geometry()
        &&& rx.position() == self.shared_head()
        &&& self.shared_head() <= rx.cached_tail() <= self.shared_tail()
    }

    /// `rx` is a copy of the consumer that may be behind the shared head, as
    /// held by one of several consumers that take turns on this ring.
    pub open spec fn receiver_lags(&self, rx: ReceiverCursor) -> bool {
        &&& rx.geometry() == self.geometry()
        &&& rx.position() <= self.shared_head()
        &&& rx.cached_tail() <= self.shared_tail()
    }

    /// There is room for the counters to advance by `n` more positions
    /// without wrapping around.
    ///
    /// The sending operations require it: the producer's room test compares
    /// the wrapped tail with the wrapped limit `cached_head + size` as plain
    /// numbers, which is wrong once the tail wraps round (with size 4, head
    /// `usize::MAX - 4` and tail `usize::MAX`, a full ring would accept a
    /// fifth item). The counters wrap after `usize::MAX` items: out of reach
    /// on a 64-bit machine, after about four billion items on a 32-bit one.
    pub open spec fn has_headroom(&self, n: nat) -> bool {
        self.shared_tail() + n + self.spec_size() <= usize::MAX
    }

    /// What every well-formed ring guarantees.
    pub proof fn lemma_wf(&self)
        requires
            self.wf(),
        ensures
            self.geometry().wf(),
            self@.len() <= self.spec_size(),
            self.shared_tail() - self.shared_head() == self@.len(),
            self.shared_head() <= self.shared_tail(),
            self.shared_tail() + self.spec_size() <= usize::MAX,
            1 <= self.spec_size() <= self.geometry().spec_capacity(),
    {
        self.geom.lemma_wf();
    }

    /// Creates an empty ring for `size` items, with its producer and consumer.
    pub fn with_size(size: usize) -> (r: (Self, SenderCursor, ReceiverCursor))
        requires
            1 <= size <= usize::MAX / 2 + 1,
        ensures
            r.0.wf(),
            r.0@ == Seq::<T>::empty(),
            r.0.spec_size() == size,
            crate::ring::is_next_power_of_two(size as nat, r.0.geometry().spec_capacity() as nat),
            crate::ring::is_usize_power_of_two(size as nat) ==> r.0.geometry().spec_capacity() == size,
            r.0.shared_head() == 0,
            r.0.shared_tail() == 0,
            r.0.sender_agrees(r.1),
            r.0.receiver_agrees(r.2),
    {
        let geom = Geometry::with_size(size);
        proof {
            geom.lemma_wf();
        }
        let capacity = geom.capacity();
        let mut slots: Vec<Option<T>> = Vec::new();
        while slots.len() < capacity
            invariant
                slots.len() <= capacity,
                forall|i: int| 0 <= i < slots@.len() ==> slots@[i] is None,
            decreases capacity - slots.len(),
        {
            slots.push(None);
        }
        let ring = Ring { geom, slots, head: 0, tail: 0, items: Ghost(Seq::empty()) };
        proof {
            assert(slots_hold(ring.slots@, 0, Seq::<T>::empty())) by {
                assert forall|j: int| 0 <= j < ring.slots@.len() implies #[trigger]
                    crate::ring::slot_at(ring.slots@, 0, j) == (if j < 0 {
                    Some(Seq::<T>::empty()[j])
                } else {
                    None
                }) by {
                    vstd::arithmetic::div_mod::lemma_small_mod(j as nat, capacity as nat);
                }
            }
        }
        (ring, SenderCursor::new(geom), ReceiverCursor::new(geom))
    }

    /// The number of items the ring may hold.
    pub fn size(&self) -> (r: usize)
        ensures
            r == self.spec_size(),
    {
        self.geom.size()
    }

    /// The geometry of the ring.
    pub fn geom(&self) -> (g: Geometry)
        ensures
            g == self.geometry(),
    {
        self.geom
    }

    /// The current shared head.
    pub fn head(&self) -> (r: usize)
        ensures
            r == self.shared_head(),
    {
        self.head
    }

    /// The current shared tail.
    pub fn tail(&self) -> (r: usize)
        ensures
            r == self.shared_tail(),
    {
        self.tail
    }

    /// Stores `value` into the slot of the tail and advances the tail by one.
    fn push_item(&mut self, tx: &mut SenderCursor, value: T)
        requires
            old(self).wf(),
            old(self).sender_agrees(*old(tx)),
            old(self)@.len() < old(self).spec_size(),
            old(self).has_headroom(1),
        ensures
            final(self).wf(),
            final(self)@ == old(self)@.push(value),
            final(self).geometry() == old(self).geometry(),
            final(self).shared_head() == old(self).shared_head(),
            final(self).shared_tail() == old(self).shared_tail() + 1,
            final(tx).position() == final(self).shared_tail(),
            final(tx).cached_head() == old(tx).cached_head(),
            final(tx).geometry() == old(tx).geometry(),
    {
        proof {
            self.geom.lemma_wf();
            lemma_slots_push(self.slots@, self.head as int, self.items@, value);
            assert(self.head + self.items@.len() == self.tail);
        }
        let slot = tx.write_slot();
        self.slots.set(slot, Some(value));
        self.tail = tx.publish(1);
        proof {
            self.items@ = self.items@.push(value);
        }
    }

    /// Takes the item in the slot of the head and advances the head by one.
    fn pop_item(&mut self, rx: &mut ReceiverCursor) -> (v: T)
        requires
            old(self).wf(),
            old(self).receiver_agrees(*old(rx)),
            old(self)@.len() > 0,
        ensures
            final(self).wf(),
            v == old(self)@[0],
            final(self)@ == old(self)@.drop_first(),
            final(self).geometry() == old(self).geometry(),
            final(self).shared_head() == old(self).shared_head() + 1,
            final(self).shared_tail() == old(self).shared_tail(),
            final(rx).position() == final(self).shared_head(),
            final(rx).cached_tail() == old(rx).cached_tail(),
            final(rx).geometry() == old(rx).geometry(),
    {
        proof {
            self.geom.lemma_wf();
            lemma_slots_pop(self.slots@, self.head as int, self.items@);
        }
        let slot = rx.read_slot();
        let v = self.slots[slot].take();
        self.head = rx.consume(1);
        proof {
            self.items@ = self.items@.drop_first();
        }
        v.unwrap()
    }

    /// Attempts to send `value` without blocking: fails, handing the value
    /// back, exactly when the ring is full. The shared head is loaded only
    /// when the cached head makes the ring look full.
    pub fn try_send(&mut self, tx: &mut SenderCursor, value: T) -> (r: Result<(), T>)
        requires
            old(self).wf(),
            old(self).sender_agrees(*old(tx)),
            old(self).has_headroom(1),
        ensures
            final(self).wf(),
            final(self).sender_agrees(*final(tx)),
            final(self).geometry() == old(self).geometry(),
            final(self).shared_head() == old(self).shared_head(),
            r is Ok <==> !old(self).spec_is_full(),
            final(self)@ == send_step(old(self)@, value, old(self).spec_size() as nat),
            r is Ok ==> final(self)@ == old(self)@.push(value) && final(self).shared_tail()
                == old(self).shared_tail() + 1,
            r matches Err(v) ==> v == value && final(self)@ == old(self)@
                && final(self).shared_tail() == old(self).shared_tail(),
            final(tx).cached_head() == (if old(tx).spec_has_room() {
                old(tx).cached_head()
            } else {
                old(self).shared_head()
            }),
    {
        proof {
            self.geom.lemma_wf();
        }
        if !tx.has_room() {
            tx.observe_head(self.head);
            if !tx.has_room() {
                return Err(value);
            }
        }
        self.push_item(tx, value);
        Ok(())
    }

    /// Attempts to receive the oldest item without blocking: `None` exactly
    /// when the ring is empty. The shared tail is loaded only when the cached
    /// tail makes the ring look empty.
    pub fn try_recv(&mut self, rx: &mut ReceiverCursor) -> (r: Option<T>)
        requires
            old(self).wf(),
            old(self).receiver_agrees(*old(rx)),
        ensures
            final(self).wf(),
            final(self).receiver_agrees(*final(rx)),
            final(self).geometry() == old(self).geometry(),
            final(self).shared_tail() == old(self).shared_tail(),
            r is None <==> old(self)@.len() == 0,
            r == front(old(self)@),
            final(self)@ == recv_step(old(self)@),
            r is None ==> final(self)@ == old(self)@ && final(self).shared_head()
                == old(self).shared_head(),
            r matches Some(v) ==> v == old(self)@[0] && final(self)@ == old(self)@.drop_first()
                && final(self).shared_head() == old(self).shared_head() + 1,
            final(rx).cached_tail() == (if old(rx).position() == old(rx).cached_tail() {
                old(self).shared_tail()
            } else {
                old(rx).cached_tail()
            }),
    {
        if rx.is_drained() {
            rx.observe_tail(self.tail);
            if rx.is_drained() {
                return None;
            }
        }
        Some(self.pop_item(rx))
    }

    /// Whether the ring looks empty to `rx`, loading the shared tail only
    /// when the cached tail shows no item. A lagging copy of the consumer
    /// may see items that another consumer has taken, but never misses one.
    pub fn receiver_is_empty(&self, rx: &ReceiverCursor) -> (r: bool)
        requires
            self.wf(),
            self.receiver_lags(*rx),
        ensures
            r ==> self@.len() == 0,
            self.receiver_agrees(*rx) ==> (r <==> self@.len() == 0),
            r == (rx.position() == rx.cached_tail() && rx.position() == self.shared_tail()),
    {
        rx.is_empty_given(self.tail)
    }

    /// Brings a lagging copy of the consumer up to date: loads the shared
    /// head, and the shared tail when the cached tail is behind it.
    pub fn refresh_receiver(&self, rx: &mut ReceiverCursor)
        requires
            self.wf(),
            self.receiver_lags(*old(rx)),
        ensures
            self.receiver_agrees(*final(rx)),
            final(rx).cached_tail() == (if old(rx).cached_tail() < self.shared_head() {
                self.shared_tail()
            } else {
                old(rx).cached_tail()
            }),
    {
        rx.observe_head(self.head);
        if rx.tail_is_stale() {
            rx.observe_tail(self.tail);
        }
    }

    /// Moves items from the front of `values` into the contiguous free region
    /// at the tail, then publishes them with one update of the tail: the
    /// zero-copy write followed by a commit. The shared head is loaded only
    /// when the cached head shows no free position. Returns how many items
    /// were moved.
    pub fn send_batch(&mut self, tx: &mut SenderCursor, values: &mut Vec<T>) -> (n: usize)
        requires
            old(self).wf(),
            old(self).sender_agrees(*old(tx)),
            old(self).has_headroom(old(self).spec_size() as nat),
        ensures
            final(self).wf(),
            final(self).sender_agrees(*final(tx)),
            final(self).geometry() == old(self).geometry(),
            final(self).shared_head() == old(self).shared_head(),
            final(tx).cached_head() == (if old(tx).spec_in_flight() == old(self).spec_size() {
                old(self).shared_head()
            } else {
                old(tx).cached_head()
            }),
            n == min_usize(
                old(values).len(),
                min_usize(
                    (old(self).spec_size() - (old(self).shared_tail() - final(tx).cached_head()))
                        as usize,
                    (old(self).geometry().spec_capacity() - old(self).geometry().spec_slot(
                        old(self).shared_tail() as int,
                    )) as usize,
                ),
            ),
            final(self)@ == old(self)@ + old(values)@.take(n as int),
            final(values)@ == old(values)@.skip(n as int),
            final(self).shared_tail() == old(self).shared_tail() + n,
    {
        proof {
            self.geom.lemma_wf();
        }
        if tx.free_slots() == 0 {
            tx.observe_head(self.head);
        }
        let (start, len) = tx.write_region();
        let n = min_of(values.len(), len);
        let ghost old_values = values@;
        let ghost old_items = self.items@;
        let ghost cap = self.geom.spec_capacity() as int;
        let mut k: usize = 0;
        while k < n
            invariant
                self.geom.wf(),
                self.geom == old(self).geom,
                self.head == old(self).head,
                self.tail == old(self).tail,
                self.tail - self.head == old_items.len(),
                self.slots@.len() == cap,
                cap == self.geom.spec_capacity(),
                start == (self.tail as int) % cap,
                n <= len,
                len <= cap - start,
                n <= old_values.len(),
                old_items.len() + n <= self.geom.spec_size(),
                self.geom.spec_size() <= cap,
                k <= n,
                values@ == old_values.skip(k as int),
                slots_hold(self.slots@, self.head as int, old_items + old_values.take(k as int)),
            decreases n - k,
        {
            proof {
                let staged = old_items + old_values.take(k as int);
                lemma_slots_push(self.slots@, self.head as int, staged, values@[0]);
                lemma_mod_pos_bound(self.tail as int, cap);
                lemma_mod_shift(self.tail as int, k as int, cap);
                assert(self.head + staged.len() == self.tail + k);
                assert(old_values.take(k + 1) == old_values.take(k as int).push(values@[0]));
                assert(staged.push(values@[0]) == old_items + old_values.take(k + 1));
            }
            let v = values.remove(0);
            self.slots.set(start + k, Some(v));
            k = k + 1;
            proof {
                assert(values@ == old_values.skip(k as int));
            }
        }
        self.tail = tx.publish(n);
        proof {
            self.items@ = old_items + old_values.take(n as int);
        }
        n
    }

    /// Moves up to `limit` items of the contiguous run at the head out of
    /// the ring, then releases their slots with one update of the head: the
    /// zero-copy read followed by an advance over `limit` items or the whole
    /// run. The shared tail is loaded only when the cached tail shows no item.
    pub fn recv_batch(&mut self, rx: &mut ReceiverCursor, limit: usize) -> (r: Vec<T>)
        requires
            old(self).wf(),
            old(self).receiver_agrees(*old(rx)),
        ensures
            final(self).wf(),
            final(self).receiver_agrees(*final(rx)),
            final(self).geometry() == old(self).geometry(),
            final(self).shared_tail() == old(self).shared_tail(),
            final(rx).cached_tail() == (if old(rx).spec_available() == 0 {
                old(self).shared_tail()
            } else {
                old(rx).cached_tail()
            }),
            r@.len() == min_usize(
                limit,
                min_usize(
                    (final(rx).cached_tail() - old(self).shared_head()) as usize,
                    (old(self).geometry().spec_capacity() - old(self).geometry().spec_slot(
                        old(self).shared_head() as int,
                    )) as usize,
                ),
            ),
            r@ == old(self)@.take(r@.len() as int),
            final(self)@ == old(self)@.skip(r@.len() as int),
            final(self).shared_head() == old(self).shared_head() + r@.len(),
            r@.len() == 0 <==> (old(self)@.len() == 0 || limit == 0),
    {
        proof {
            self.geom.lemma_wf();
        }
        if rx.available() == 0 {
            rx.observe_tail(self.tail);
        }
        let (start, run) = rx.read_region();
        let len = min_of(run, limit);
        let ghost old_items = self.items@;
        let ghost cap = self.geom.spec_capacity() as int;
        let mut out: Vec<T> = Vec::new();
        let mut k: usize = 0;
        while k < len
            invariant
                self.geom.wf(),
                self.geom == old(self).geom,
                self.head == old(self).head,
                self.tail == old(self).tail,
                self.tail - self.head == old_items.len(),
                self.slots@.len() == cap,
                cap == self.geom.spec_capacity(),
                start == (self.head as int) % cap,
                len <= cap - start,
                len <= old_items.len(),
                k <= len,
                out@ == old_items.take(k as int),
                slots_hold(self.slots@, self.head + k, old_items.skip(k as int)),
            decreases len - k,
        {
            proof {
                let rest = old_items.skip(k as int);
                lemma_slots_pop(self.slots@, self.head + k, rest);
                lemma_mod_pos_bound(self.head as int, cap);
                lemma_mod_shift(self.head as int, k as int, cap);
                assert(rest.drop_first() == old_items.skip(k + 1));
                assert(old_items.take(k + 1) == old_items.take(k as int).push(rest[0]));
            }
            let v = self.slots[start + k].take();
            out.push(v.unwrap());
            k = k + 1;
        }
        self.head = rx.consume(len);
        proof {
            self.items@ = old_items.skip(len as int);
        }
        out
    }

    /// Takes every item still in the ring, oldest first, walking the
    /// positions from the head to the tail: the items that dropping the
    /// ring must drop.
    pub fn into_remaining(self) -> (r: Vec<T>)
        requires
            self.wf(),
        ensures
            r@ == self@,
    {
        proof {
            self.geom.lemma_wf();
        }
        let mut ring = self;
        let len = ring.tail.wrapping_sub(ring.head);
        let ghost items = ring.items@;
        let mut out: Vec<T> = Vec::new();
        let mut i: usize = 0;
        while i < len
            invariant
                ring.geom.wf(),
                ring.geom == self.geom,
                ring.head == self.head,
                len == items.len(),
                ring.slots@.len() == ring.geom.spec_capacity(),
                ring.head + len <= usize::MAX,
                i <= len,
                out@ == items.take(i as int),
                slots_hold(ring.slots@, ring.head + i, items.skip(i as int)),
            decreases len - i,
        {
            proof {
                let rest = items.skip(i as int);
                lemma_slots_pop(ring.slots@, ring.head + i, rest);
                assert(rest.drop_first() == items.skip(i + 1));
                assert(items.take(i + 1) == items.take(i as int).push(rest[0]));
            }
            let slot = ring.geom.slot(ring.head + i);
            let v = ring.slots[slot].take();
            out.push(v.unwrap());
            i = i + 1;
        }
        proof {
            assert(items.take(len as int) == items);
        }
        out
    }
}

} // verus!
