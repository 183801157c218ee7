//! The order in which the queues hand items out.
//!
//! Every queue of this crate is viewed as a sequence of items. The
//! non-blocking operations of `Ring` and `CellRing` state their effect on
//! that view with [`send_step`] and [`recv_step`] (see their contracts): an
//! accepted send pushes its item at the back, a receive from a non-empty
//! queue returns the item at the front and drops it. This module follows a
//! whole run of such operations, sends and receives interleaved in any
//! order, and states what it delivers.
use vstd::prelude::*;

verus! {

/// The view of a queue of `capacity` items holding `q` after an attempt to
/// send `v`: the item is pushed at the back unless the queue is full.
pub open spec fn send_step<T>(q: Seq<T>, v: T, capacity: nat) -> Seq<T> {
    if q.len() < capacity {
        q.push(v)
    } else {
        q
    }
}

/// The view of a queue holding `q` after an attempt to receive: the front
/// item is dropped unless the queue is empty.
pub open spec fn recv_step<T>(q: Seq<T>) -> Seq<T> {
    if q.len() > 0 {
        q.drop_first()
    } else {
        q
    }
}

/// What an attempt to receive from a queue holding `q` returns: its front
/// item, or nothing when it is empty.
pub open spec fn front<T>(q: Seq<T>) -> Option<T> {
    if q.len() > 0 {
        Some(q[0])
    } else {
        None
    }
}

/// A run of operations on a queue of `capacity` items that holds `held`:
/// `Some(v)` attempts to send `v`, `None` attempts to receive. The result is
/// the final view, the items whose sends were accepted, in order, and the
/// items the receives returned, in order.
pub open spec fn run<T>(held: Seq<T>, ops: Seq<Option<T>>, capacity: nat) -> (
    Seq<T>,
    Seq<T>,
    Seq<T>,
)
    decreases ops.len(),
{
    if ops.len() == 0 {
        (held, Seq::empty(), Seq::empty())
    } else {
        let (q, accepted, received) = run(held, ops.drop_last(), capacity);
        match ops.last() {
            Some(v) => (
                send_step(q, v, capacity),
                if q.len() < capacity {
                    accepted.push(v)
                } else {
                    accepted
                },
                received,
            ),
            None => (
                recv_step(q),
                accepted,
                match front(q) {
                    Some(x) => received.push(x),
                    None => received,
                },
            ),
        }
    }
}

/// First in, first out, over any run of sends and receives: the items
/// received, followed by those still held, are exactly the items held at
/// the start followed by the items whose sends were accepted, in the order
/// they entered. So the receives return a prefix of that sequence, in
/// order, with nothing lost and nothing returned twice.
pub proof fn lemma_fifo<T>(held: Seq<T>, ops: Seq<Option<T>>, capacity: nat)
    ensures
        ({
            let (q, accepted, received) = run(held, ops, capacity);
            &&& received + q == held + accepted
            &&& received.len() <= held.len() + accepted.len()
            &&& received == (held + accepted).take(received.len() as int)
        }),
    decreases ops.len(),
{
    if ops.len() > 0 {
        lemma_fifo(held, ops.drop_last(), capacity);
        let (q, accepted, received) = run(held, ops.drop_last(), capacity);
        match ops.last() {
            Some(v) => {
                if q.len() < capacity {
                    assert(received + q.push(v) == (received + q).push(v));
                    assert(held + accepted.push(v) == (held + accepted).push(v));
                }
            },
            None => {
                if q.len() > 0 {
                    assert(received.push(q[0]) + q.drop_first() == received + q);
                }
            },
        }
        let (q2, accepted2, received2) = run(held, ops, capacity);
        assert(received2 == (received2 + q2).take(received2.len() as int));
    }
}

} // verus!
