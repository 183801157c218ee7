//! Spinning and parking backoff strategies.
//!
//! Each strategy is split into a decision (`next_action`), which is a pure
//! state transition with an exact contract, and the step itself (`backoff`),
//! which performs the decided action. This library has no thread support,
//! so it carries out a yield as a processor relaxation hint, as it does a
//! spin; the channels around it yield the thread.
use vstd::prelude::*;

verus! {

/// What one step of a [`Backoff`] does.
#[derive(Clone, Copy, Debug, PartialEq, Eq, Structural)]
pub enum BackoffAction {
    /// Busy-wait for one iteration.
    Spin,
    /// Give up the time slice; the spin counter has been reset.
    Yield,
}

/// What one step of a [`ParkingBackoff`] does.
#[derive(Clone, Copy, Debug, PartialEq, Eq, Structural)]
pub enum ParkingAction {
    /// Busy-wait for one iteration.
    Spin,
    /// Give up the time slice.
    Yield,
    /// Both phases are exhausted: the caller should park the thread.
    Park,
}

/// The next spin counter and the action of one [`Backoff`] step.
pub open spec fn backoff_step(spin_count: u32, current: u32) -> (u32, BackoffAction) {
    if current < spin_count {
        ((current + 1) as u32, BackoffAction::Spin)
    } else {
        (0u32, BackoffAction::Yield)
    }
}

/// The spin counter after `n` steps of a [`Backoff`] that starts at `current`.
pub open spec fn backoff_counter_after(spin_count: u32, current: u32, n: nat) -> u32
    decreases n,
{
    if n == 0 {
        current
    } else {
        backoff_step(spin_count, backoff_counter_after(spin_count, current, (n - 1) as nat)).0
    }
}

/// The action of step number `n` (counting from 0) of a [`Backoff`] that starts at `current`.
pub open spec fn backoff_action_at(spin_count: u32, current: u32, n: nat) -> BackoffAction {
    backoff_step(spin_count, backoff_counter_after(spin_count, current, n)).1
}

/// Running `a` steps and then `b` more is running `a + b` steps.
pub proof fn lemma_backoff_compose(spin_count: u32, current: u32, a: nat, b: nat)
    ensures
        backoff_counter_after(spin_count, backoff_counter_after(spin_count, current, a), b)
            == backoff_counter_after(spin_count, current, a + b),
    decreases b,
{
    if b > 0 {
        lemma_backoff_compose(spin_count, current, a, (b - 1) as nat);
        assert(a + b - 1 == a + (b - 1));
    }
}

/// From a reset counter, a `Backoff` spins on its first `spin_count` steps,
/// yields on the next one, and then starts over: its actions repeat with a
/// period of `spin_count + 1` steps.
pub proof fn lemma_backoff_cycle(spin_count: u32, n: nat)
    ensures
        n <= spin_count ==> backoff_counter_after(spin_count, 0, n) == n,
        n < spin_count ==> backoff_action_at(spin_count, 0, n) == BackoffAction::Spin,
        backoff_action_at(spin_count, 0, spin_count as nat) == BackoffAction::Yield,
        backoff_counter_after(spin_count, 0, (spin_count + 1) as nat) == 0,
        backoff_counter_after(spin_count, 0, (n + spin_count + 1) as nat) == backoff_counter_after(
            spin_count,
            0,
            n,
        ),
        backoff_action_at(spin_count, 0, (n + spin_count + 1) as nat) == backoff_action_at(
            spin_count,
            0,
            n,
        ),
{
    lemma_backoff_prefix(spin_count, spin_count as nat);
    lemma_backoff_prefix(spin_count, n);
    assert(backoff_counter_after(spin_count, 0, (spin_count + 1) as nat) == 0);
    lemma_backoff_compose(spin_count, 0, (spin_count + 1) as nat, n);
    assert(n + spin_count + 1 == (spin_count + 1) + n);
}

/// From a reset counter, the counter after `n <= spin_count` steps is `n`.
proof fn lemma_backoff_prefix(spin_count: u32, n: nat)
    ensures
        n <= spin_count ==> backoff_counter_after(spin_count, 0, n) == n,
    decreases n,
{
    if n > 0 {
        lemma_backoff_prefix(spin_count, (n - 1) as nat);
    }
}

/// The (spins, yields) counters after `n` steps of a [`ParkingBackoff`].
pub open spec fn parking_counters_after(
    spin_count: u32,
    yield_count: u32,
    spins: u32,
    yields: u32,
    n: nat,
) -> (u32, u32)
    decreases n,
{
    if n == 0 {
        (spins, yields)
    } else {
        let prev = parking_counters_after(spin_count, yield_count, spins, yields, (n - 1) as nat);
        let step = parking_step(spin_count, yield_count, prev.0, prev.1);
        (step.0, step.1)
    }
}

/// The action of step number `n` (counting from 0) of a [`ParkingBackoff`].
pub open spec fn parking_action_at(
    spin_count: u32,
    yield_count: u32,
    spins: u32,
    yields: u32,
    n: nat,
) -> ParkingAction {
    let c = parking_counters_after(spin_count, yield_count, spins, yields, n);
    parking_step(spin_count, yield_count, c.0, c.1).2
}

/// From reset counters, a `ParkingBackoff` spins on its first `spin_count`
/// steps, yields on the next `yield_count`, and from then on asks to park on
/// every step until it is reset.
pub proof fn lemma_parking_phases(spin_count: u32, yield_count: u32, n: nat)
    ensures
        n < spin_count ==> parking_action_at(spin_count, yield_count, 0, 0, n)
            == ParkingAction::Spin,
        spin_count <= n < spin_count + yield_count ==> parking_action_at(
            spin_count,
            yield_count,
            0,
            0,
            n,
        ) == ParkingAction::Yield,
        spin_count + yield_count <= n ==> parking_action_at(spin_count, yield_count, 0, 0, n)
            == ParkingAction::Park,
{
    lemma_parking_counters(spin_count, yield_count, n);
}

/// The counters of a `ParkingBackoff` after `n` steps from reset counters.
proof fn lemma_parking_counters(spin_count: u32, yield_count: u32, n: nat)
    ensures
        parking_counters_after(spin_count, yield_count, 0, 0, n) == (if n <= spin_count {
            (n as u32, 0u32)
        } else if n <= spin_count + yield_count {
            (spin_count, (n - spin_count) as u32)
        } else {
            (spin_count, yield_count)
        }),
    decreases n,
{
    if n > 0 {
        lemma_parking_counters(spin_count, yield_count, (n - 1) as nat);
    }
}

/// Calls `core::hint::spin_loop`. The hint only tells the processor that the
/// caller is busy-waiting; it has no effect that a contract could state.
#[verifier::external_body]
fn cpu_relax() {
    core::hint::spin_loop()
}

/// One step of a spinning backoff, for every spin limit and every counter:
/// it spins exactly when the counter is strictly below the limit, and then
/// counts the spin; otherwise it yields and leaves the counter at 0, also
/// when the limit was lowered below the spins already done. The counter
/// after a step never exceeds the limit.
pub proof fn lemma_backoff_step_law(spin_count: u32, current: u32)
    ensures
        (backoff_step(spin_count, current).1 == BackoffAction::Spin) == (current < spin_count),
        current < spin_count ==> backoff_step(spin_count, current).0 == current + 1,
        current >= spin_count ==> backoff_step(spin_count, current).1 == BackoffAction::Yield
            && backoff_step(spin_count, current).0 == 0,
        backoff_step(spin_count, current).0 <= spin_count,
{
}

/// One step of a parking backoff, for every limit and every counter: it
/// spins exactly when fewer spins than the spin limit are done, counting
/// the spin; otherwise it yields exactly when fewer yields than the yield
/// limit are done, counting the yield; otherwise it asks to park and
/// changes nothing.
pub proof fn lemma_parking_step_law(spin_count: u32, yield_count: u32, spins: u32, yields: u32)
    ensures
        ({
            let (s, y, a) = parking_step(spin_count, yield_count, spins, yields);
            &&& (a == ParkingAction::Spin) == (spins < spin_count)
            &&& (a == ParkingAction::Yield) == (spins >= spin_count && yields < yield_count)
            &&& (a == ParkingAction::Park) == (spins >= spin_count && yields >= yield_count)
            &&& s == spins + (if spins < spin_count {
                1int
            } else {
                0int
            })
            &&& y == yields + (if spins >= spin_count && yields < yield_count {
                1int
            } else {
                0int
            })
        }),
{
}

/// A spinning backoff strategy that spins for a configurable number of
/// iterations before yielding the thread.
///
/// For the first `spin_count` calls to [`backoff`](Backoff::backoff) the CPU
/// spins; the next call resets the counter and yields.
pub struct Backoff {
    spin_count: u32,
    current: u32,
}

impl Backoff {
    /// The number of spins performed before a yield.
    pub closed spec fn spin_limit(&self) -> u32 {
        self.spin_count
    }

    /// The number of spins performed since the last yield or reset.
    pub closed spec fn spins_done(&self) -> u32 {
        self.current
    }

    /// Creates a new `Backoff` with the given spin count.
    pub fn with_spin_count(spin_count: u32) -> (b: Self)
        ensures
            b.spin_limit() == spin_count,
            b.spins_done() == 0,
    {
        Backoff { spin_count, current: 0 }
    }

    /// Updates the spin count. This does not reset the current spin counter.
    pub fn set_spin_count(&mut self, spin_count: u32)
        ensures
            final(self).spin_limit() == spin_count,
            final(self).spins_done() == old(self).spins_done(),
    {
        self.spin_count = spin_count;
    }

    /// Decides the next step and advances the counter, without performing it.
    pub fn next_action(&mut self) -> (a: BackoffAction)
        ensures
            (final(self).spins_done(), a) == backoff_step(
                old(self).spin_limit(),
                old(self).spins_done(),
            ),
            final(self).spin_limit() == old(self).spin_limit(),
            a == BackoffAction::Spin <==> old(self).spins_done() < old(self).spin_limit(),
            a == BackoffAction::Spin ==> final(self).spins_done() == old(self).spins_done() + 1,
            a == BackoffAction::Yield ==> final(self).spins_done() == 0,
            final(self).spins_done() <= final(self).spin_limit(),
    {
        if self.current < self.spin_count {
            self.current = self.current + 1;
            BackoffAction::Spin
        } else {
            self.current = 0;
            BackoffAction::Yield
        }
    }

    /// Performs one backoff step: spins while fewer than `spin_count` spins
    /// have occurred since the last reset, otherwise resets the counter and
    /// yields.
    pub fn backoff(&mut self)
        ensures
            final(self).spins_done() == backoff_step(
                old(self).spin_limit(),
                old(self).spins_done(),
            ).0,
            final(self).spin_limit() == old(self).spin_limit(),
            old(self).spins_done() < old(self).spin_limit() ==> final(self).spins_done() == old(
                self,
            ).spins_done() + 1,
            old(self).spins_done() >= old(self).spin_limit() ==> final(self).spins_done() == 0,
    {
        let _action = self.next_action();
        cpu_relax();
    }

    /// Resets the spin counter to zero.
    pub fn reset(&mut self)
        ensures
            final(self).spins_done() == 0,
            final(self).spin_limit() == old(self).spin_limit(),
    {
        self.current = 0;
    }
}

/// The next (spins, yields) counters and the action of one [`ParkingBackoff`] step.
pub open spec fn parking_step(spin_count: u32, yield_count: u32, spins: u32, yields: u32) -> (
    u32,
    u32,
    ParkingAction,
) {
    if spins < spin_count {
        ((spins + 1) as u32, yields, ParkingAction::Spin)
    } else if yields < yield_count {
        (spins, (yields + 1) as u32, ParkingAction::Yield)
    } else {
        (spins, yields, ParkingAction::Park)
    }
}

/// A three-phase backoff strategy: spin, then yield, then signal readiness to park.
///
/// After waking from a park, call [`reset`](ParkingBackoff::reset) to restart
/// from the spinning phase.
pub struct ParkingBackoff {
    spin_count: u32,
    yield_count: u32,
    spins: u32,
    yields: u32,
}

impl ParkingBackoff {
    /// The number of spins of the first phase.
    pub closed spec fn spin_limit(&self) -> u32 {
        self.spin_count
    }

    /// The number of yields of the second phase.
    pub closed spec fn yield_limit(&self) -> u32 {
        self.yield_count
    }

    /// The spins performed since the last reset.
    pub closed spec fn spins_done(&self) -> u32 {
        self.spins
    }

    /// The yields performed since the last reset.
    pub closed spec fn yields_done(&self) -> u32 {
        self.yields
    }

    /// Creates a new `ParkingBackoff` with the given spin and yield counts.
    pub fn new(spin_count: u32, yield_count: u32) -> (b: Self)
        ensures
            b.spin_limit() == spin_count,
            b.yield_limit() == yield_count,
            b.spins_done() == 0,
            b.yields_done() == 0,
    {
        ParkingBackoff { spin_count, yield_count, spins: 0, yields: 0 }
    }

    /// Decides the next step and advances the counters, without performing it.
    pub fn next_action(&mut self) -> (a: ParkingAction)
        ensures
            (final(self).spins_done(), final(self).yields_done(), a) == parking_step(
                old(self).spin_limit(),
                old(self).yield_limit(),
                old(self).spins_done(),
                old(self).yields_done(),
            ),
            final(self).spin_limit() == old(self).spin_limit(),
            final(self).yield_limit() == old(self).yield_limit(),
            a == ParkingAction::Spin <==> old(self).spins_done() < old(self).spin_limit(),
            a == ParkingAction::Yield <==> old(self).spins_done() >= old(self).spin_limit() && old(
                self,
            ).yields_done() < old(self).yield_limit(),
            a == ParkingAction::Park <==> old(self).spins_done() >= old(self).spin_limit() && old(
                self,
            ).yields_done() >= old(self).yield_limit(),
            final(self).spins_done() == old(self).spins_done() + (if a == ParkingAction::Spin {
                1int
            } else {
                0int
            }),
            final(self).yields_done() == old(self).yields_done() + (if a == ParkingAction::Yield {
                1int
            } else {
                0int
            }),
    {
        if self.spins < self.spin_count {
            self.spins = self.spins + 1;
            ParkingAction::Spin
        } else if self.yields < self.yield_count {
            self.yields = self.yields + 1;
            ParkingAction::Yield
        } else {
            ParkingAction::Park
        }
    }

    /// Performs one backoff step. Returns `true` if a spin or yield was
    /// performed, and `false` when both phases are exhausted and the caller
    /// should park the thread.
    pub fn backoff(&mut self) -> (performed: bool)
        ensures
            ({
                let s = parking_step(
                    old(self).spin_limit(),
                    old(self).yield_limit(),
                    old(self).spins_done(),
                    old(self).yields_done(),
                );
                &&& final(self).spins_done() == s.0
                &&& final(self).yields_done() == s.1
                &&& performed == (s.2 != ParkingAction::Park)
            }),
            performed == (old(self).spins_done() < old(self).spin_limit() || old(
                self,
            ).yields_done() < old(self).yield_limit()),
            final(self).spin_limit() == old(self).spin_limit(),
            final(self).yield_limit() == old(self).yield_limit(),
    {
        let action = self.next_action();
        match action {
            ParkingAction::Park => false,
            _ => {
                cpu_relax();
                true
            },
        }
    }

    /// Resets both counters to zero.
    pub fn reset(&mut self)
        ensures
            final(self).spins_done() == 0,
            final(self).yields_done() == 0,
            final(self).spin_limit() == old(self).spin_limit(),
            final(self).yield_limit() == old(self).yield_limit(),
    {
        self.spins = 0;
        self.yields = 0;
    }
}

} // verus!
