//! The parking handshake of the parking single-producer single-consumer
//! channel, as a transition system over its sequentially consistent atomic
//! steps.
//!
//! One side (the waiter) parks when it cannot progress: the consumer on an
//! empty ring, the producer on a full one. It waits for a counter that the
//! other side (the notifier) advances: the tail for the consumer, the head
//! for the producer. Before it sleeps, the waiter raises its parked flag and
//! then loads the counter once more; the notifier advances the counter and
//! then, if the flag is raised, lowers it and wakes the waiter. Both orders
//! use sequentially consistent operations, so the interleavings below are
//! the executions there are.
//!
//! The asynchronous ends of the single-producer single-consumer channel wait
//! by the same handshake: a task that cannot progress registers its waker
//! (raising the flag) and then loads the counter once more, returning
//! pending only if it has not moved (sleeping); the other side stores its
//! counter and then takes and wakes a registered waker (lowering the flag),
//! and a woken task is polled again. The model reads each of these steps as
//! sequentially consistent; in the asynchronous ends the reload after
//! registering is, and registering and taking the waker are
//! read-modify-write operations on the waker's state.
use vstd::prelude::*;

verus! {

/// The value of a side's parked flag while that side is parked or about to park.
pub const PARKED: u32 = 1;

/// The value of a side's parked flag while that side runs.
pub const NOT_PARKED: u32 = 0;

/// The notifier's check after it advanced its counter: whether it must
/// lower the waiter's flag and wake it, given the flag it loaded. This is
/// the decision of [`step_notify`]: a raised flag is lowered and its waiter
/// woken; a lowered flag is left alone.
pub fn notify_wakes(flag: u32) -> (wake: bool)
    ensures
        wake == (flag == PARKED),
{
    flag == PARKED
}

/// Where the waiter is.
#[derive(PartialEq, Eq, Structural)]
pub enum WaiterStep {
    /// Running: it may consume, or decide to park.
    Running,
    /// It has raised the flag and is about to load the counter again.
    Announced,
    /// It sleeps until the flag is lowered (or it wakes spuriously).
    Sleeping,
}

/// Where the notifier is.
#[derive(PartialEq, Eq, Structural)]
pub enum NotifierStep {
    /// Between advances.
    Idle,
    /// It has advanced the counter and is about to check the flag.
    Advanced,
}

/// A state of the handshake. `counter` is the notifier's counter; `seen` is
/// the value the waiter waits for it to leave (for the consumer, its own
/// head; the ring is empty while the tail equals it); `parked` is the flag.
pub struct ParkState {
    pub counter: nat,
    pub seen: nat,
    pub parked: bool,
    pub waiter: WaiterStep,
    pub notifier: NotifierStep,
}

/// The initial state: nobody parked, both sides running.
pub open spec fn park_init(s: ParkState) -> bool {
    &&& s.counter == s.seen
    &&& !s.parked
    &&& s.waiter == WaiterStep::Running
    &&& s.notifier == NotifierStep::Idle
}

/// The waiter raises its parked flag (a sequentially consistent store).
pub open spec fn step_announce(s: ParkState, t: ParkState) -> bool {
    &&& s.waiter == WaiterStep::Running
    &&& t == ParkState { parked: true, waiter: WaiterStep::Announced, ..s }
}

/// The waiter loads the counter again: if it moved, the waiter lowers its
/// flag and runs on; otherwise it goes to sleep.
pub open spec fn step_recheck(s: ParkState, t: ParkState) -> bool {
    &&& s.waiter == WaiterStep::Announced
    &&& if s.counter != s.seen {
        t == ParkState { parked: false, waiter: WaiterStep::Running, ..s }
    } else {
        t == ParkState { waiter: WaiterStep::Sleeping, ..s }
    }
}

/// The sleeping waiter returns from its wait: always allowed, since a futex
/// wait may return spuriously; after waking it loads the counter again.
pub open spec fn step_wake(s: ParkState, t: ParkState) -> bool {
    &&& s.waiter == WaiterStep::Sleeping
    &&& t == ParkState { waiter: WaiterStep::Running, ..s }
}

/// The running waiter consumes one position that the notifier made
/// available, which moves what it waits for.
pub open spec fn step_consume(s: ParkState, t: ParkState) -> bool {
    &&& s.waiter == WaiterStep::Running
    &&& s.seen < s.counter
    &&& t == ParkState { seen: s.seen + 1, ..s }
}

/// The notifier advances its counter (a sequentially consistent store).
pub open spec fn step_advance(s: ParkState, t: ParkState) -> bool {
    &&& s.notifier == NotifierStep::Idle
    &&& t == ParkState { counter: s.counter + 1, notifier: NotifierStep::Advanced, ..s }
}

/// The notifier loads the flag; if it is raised, it lowers it and wakes the waiter.
pub open spec fn step_notify(s: ParkState, t: ParkState) -> bool {
    &&& s.notifier == NotifierStep::Advanced
    &&& t == ParkState { parked: false, notifier: NotifierStep::Idle, ..s }
}

/// One atomic step of either side.
pub open spec fn park_step(s: ParkState, t: ParkState) -> bool {
    ||| step_announce(s, t)
    ||| step_recheck(s, t)
    ||| step_wake(s, t)
    ||| step_consume(s, t)
    ||| step_advance(s, t)
    ||| step_notify(s, t)
}

/// The waiter sleeps with its flag raised only while there is nothing to
/// consume, or while the notifier has advanced and is about to see the flag.
pub open spec fn park_inv(s: ParkState) -> bool {
    &&& s.seen <= s.counter
    &&& (s.waiter == WaiterStep::Sleeping && s.parked) ==> (s.counter == s.seen || s.notifier
        == NotifierStep::Advanced)
}

/// Every atomic step keeps the invariant.
pub proof fn lemma_park_step_keeps_inv(s: ParkState, t: ParkState)
    requires
        park_inv(s),
        park_step(s, t),
    ensures
        park_inv(t),
{
}

/// No lost wake-up: in every execution of the handshake, whenever the
/// waiter sleeps with its flag raised while the notifier is between
/// advances, there is nothing for the waiter to consume. (The notifier's
/// next advance is followed by its check of the flag, which lowers it: see
/// [`lemma_notify_lowers_flag`].)
pub proof fn lemma_no_lost_wakeup(run: Seq<ParkState>)
    requires
        run.len() > 0,
        park_init(run[0]),
        forall|i: int| 0 <= i < run.len() - 1 ==> #[trigger] park_step(run[i], run[i + 1]),
    ensures
        forall|i: int|
            0 <= i < run.len() && (#[trigger] run[i]).waiter == WaiterStep::Sleeping
                && run[i].parked && run[i].notifier == NotifierStep::Idle ==> run[i].counter
                == run[i].seen,
{
    lemma_run_keeps_inv(run);
    assert forall|i: int|
        0 <= i < run.len() && (#[trigger] run[i]).waiter == WaiterStep::Sleeping
            && run[i].parked && run[i].notifier == NotifierStep::Idle implies run[i].counter
        == run[i].seen by {
        assert(park_inv(run[i]));
    }
}

/// Every state of an execution that starts in the initial state satisfies the invariant.
proof fn lemma_run_keeps_inv(run: Seq<ParkState>)
    requires
        run.len() > 0,
        park_init(run[0]),
        forall|i: int| 0 <= i < run.len() - 1 ==> #[trigger] park_step(run[i], run[i + 1]),
    ensures
        forall|i: int| 0 <= i < run.len() ==> #[trigger] park_inv(run[i]),
    decreases run.len(),
{
    if run.len() > 1 {
        let prefix = run.drop_last();
        assert forall|i: int| 0 <= i < prefix.len() - 1 implies #[trigger] park_step(
            prefix[i],
            prefix[i + 1],
        ) by {
            assert(park_step(run[i], run[i + 1]));
        }
        lemma_run_keeps_inv(prefix);
        let n = run.len() - 1;
        assert(park_inv(prefix[n - 1]));
        assert(park_step(run[n - 1], run[(n - 1) + 1]));
        assert((n - 1) + 1 == n);
        lemma_park_step_keeps_inv(run[n - 1], run[n]);
        assert forall|i: int| 0 <= i < run.len() implies #[trigger] park_inv(run[i]) by {
            if i < n {
                assert(park_inv(prefix[i]));
            }
        }
    }
}

/// A notification always leaves the flag lowered, so a sleeping waiter's
/// wait returns after the notifier's next check.
pub proof fn lemma_notify_lowers_flag(s: ParkState, t: ParkState)
    requires
        step_notify(s, t),
    ensures
        !t.parked,
        t.counter == s.counter,
{
}

} // verus!
