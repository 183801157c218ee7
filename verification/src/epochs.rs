//! The epoch protocol of the queue of sequenced cells, as a transition
//! system over its atomic steps, with any number of producers and consumers
//! running at once, blocking and non-blocking.
//!
//! A producer claims the tail position `p`, either with a compare-and-swap
//! once it has seen the epoch `p` in the cell of `p` (the non-blocking
//! send), or with a fetch-and-add, without looking at the cell (the blocking
//! send), which may claim a position one lap or more ahead of the cell. Once
//! the cell's epoch is `p` it writes its item and publishes it by storing
//! the epoch `p + 1`. A consumer claims the head position `p` in the same two
//! ways (seeing the epoch `p + 1` first, or not), and once the cell's epoch
//! is `p + 1` it takes the item and releases the cell by storing the epoch
//! `p + capacity`. A compare-and-swap only succeeds on the current counter,
//! so a claim is one atomic step; writing and publishing, and taking and
//! releasing, are one step each, on a cell that only the side whose
//! position the epoch names touches. An attempt that sees another epoch, or
//! whose compare-and-swap fails, changes nothing and is no step; a blocked
//! side waits by taking no step. Positions are counted without wrapping
//! around.
//!
//! Besides the state of the queue, the model records the position each
//! cell serves (`lap`), the item published at each position (`written`)
//! and the item taken at each position (`taken`).
use vstd::arithmetic::div_mod::{
    lemma_mod_add_multiples_vanish, lemma_mod_decreases, lemma_mod_pos_bound, lemma_small_mod,
};
use vstd::prelude::*;

verus! {

/// A state of the protocol.
pub struct EpochState<T> {
    /// The number of cells.
    pub capacity: int,
    /// The shared head: the next position a consumer claims.
    pub head: int,
    /// The shared tail: the next position a producer claims.
    pub tail: int,
    /// The epoch of every cell.
    pub cells: Seq<int>,
    /// The data of every cell.
    pub data: Seq<Option<T>>,
    /// The position every cell serves: its own index on the first lap, a lap
    /// later after each release.
    pub lap: Seq<int>,
    /// The positions producers have claimed and not yet published.
    pub writing: Set<int>,
    /// The positions consumers have claimed and not yet released.
    pub reading: Set<int>,
    /// The item published at each position so far.
    pub written: Map<int, T>,
    /// The item taken at each position so far.
    pub taken: Map<int, T>,
}

/// The epoch of the cell of position `p`.
pub open spec fn epoch<T>(s: EpochState<T>, p: int) -> int {
    s.cells[p % s.capacity]
}

/// The initial state: every cell serves, and waits for, the position of its
/// own index; nothing is claimed, published or taken.
pub open spec fn epoch_init<T>(s: EpochState<T>) -> bool {
    &&& 2 <= s.capacity
    &&& s.cells.len() == s.capacity
    &&& s.data.len() == s.capacity
    &&& s.lap.len() == s.capacity
    &&& forall|i: int| 0 <= i < s.capacity ==> s.cells[i] == i && s.lap[i] == i && s.data[i] is None
    &&& s.head == 0
    &&& s.tail == 0
    &&& s.writing == Set::<int>::empty()
    &&& s.reading == Set::<int>::empty()
    &&& s.written == Map::<int, T>::empty()
    &&& s.taken == Map::<int, T>::empty()
}

/// A producer sees the epoch `tail` in the cell of the tail and claims the
/// tail with a compare-and-swap.
pub open spec fn step_claim_write<T>(s: EpochState<T>, t: EpochState<T>) -> bool {
    &&& epoch(s, s.tail) == s.tail
    &&& t == EpochState { tail: s.tail + 1, writing: s.writing.insert(s.tail), ..s }
}

/// A producer claims the tail with a fetch-and-add, whatever its cell holds.
pub open spec fn step_take_write<T>(s: EpochState<T>, t: EpochState<T>) -> bool {
    t == EpochState { tail: s.tail + 1, writing: s.writing.insert(s.tail), ..s }
}

/// The producer of position `p` sees the epoch `p` in the cell, writes its
/// item `v` there and publishes it.
pub open spec fn step_publish<T>(s: EpochState<T>, t: EpochState<T>, p: int, v: T) -> bool {
    &&& s.writing.contains(p)
    &&& epoch(s, p) == p
    &&& t == EpochState {
        cells: s.cells.update(p % s.capacity, p + 1),
        data: s.data.update(p % s.capacity, Some(v)),
        written: s.written.insert(p, v),
        writing: s.writing.remove(p),
        ..s
    }
}

/// A consumer sees the epoch `head + 1` in the cell of the head and claims
/// the head with a compare-and-swap.
pub open spec fn step_claim_read<T>(s: EpochState<T>, t: EpochState<T>) -> bool {
    &&& epoch(s, s.head) == s.head + 1
    &&& t == EpochState { head: s.head + 1, reading: s.reading.insert(s.head), ..s }
}

/// A consumer claims the head with a fetch-and-add, whatever its cell holds.
pub open spec fn step_take_read<T>(s: EpochState<T>, t: EpochState<T>) -> bool {
    t == EpochState { head: s.head + 1, reading: s.reading.insert(s.head), ..s }
}

/// The consumer of position `q` sees the epoch `q + 1` in the cell, takes
/// the item and releases the cell for the next lap.
pub open spec fn step_release<T>(s: EpochState<T>, t: EpochState<T>, q: int) -> bool {
    &&& s.reading.contains(q)
    &&& epoch(s, q) == q + 1
    &&& t == EpochState {
        cells: s.cells.update(q % s.capacity, q + s.capacity),
        data: s.data.update(q % s.capacity, None),
        lap: s.lap.update(q % s.capacity, q + s.capacity),
        taken: s.taken.insert(q, s.data[q % s.capacity]->0),
        reading: s.reading.remove(q),
        ..s
    }
}

/// One atomic step of some producer or consumer; `p` is the position that a
/// publishing producer or a releasing consumer finishes, `v` the item that
/// a publishing producer writes.
pub open spec fn epoch_step<T>(s: EpochState<T>, t: EpochState<T>, p: int, v: T) -> bool {
    ||| step_claim_write(s, t)
    ||| step_take_write(s, t)
    ||| step_publish(s, t, p, v)
    ||| step_claim_read(s, t)
    ||| step_take_read(s, t)
    ||| step_release(s, t, p)
}

/// The invariant of the protocol.
///
/// Every cell serves a position of its own residue; its epoch is that
/// position, plus one once the position's item is published, and its data
/// is that item or nothing. Exactly the positions of earlier laps of a cell
/// have been taken, and no position of a later lap has been published. A
/// taken item is the one published at its position. Every claimed position
/// is being worked on or done: each position below the tail is being
/// written or published, each position below the head is being read or
/// taken.
pub open spec fn epoch_inv<T>(s: EpochState<T>) -> bool {
    &&& 2 <= s.capacity
    &&& s.cells.len() == s.capacity
    &&& s.data.len() == s.capacity
    &&& s.lap.len() == s.capacity
    &&& 0 <= s.head
    &&& 0 <= s.tail
    &&& forall|r: int|
        0 <= r < s.capacity ==> {
            &&& 0 <= #[trigger] s.lap[r]
            &&& s.lap[r] % s.capacity == r
            &&& s.cells[r] == s.lap[r] + (if s.written.contains_key(s.lap[r]) {
                1int
            } else {
                0int
            })
            &&& s.data[r] == (if s.written.contains_key(s.lap[r]) {
                Some(s.written[s.lap[r]])
            } else {
                None
            })
        }
    &&& forall|p: int|
        0 <= p ==> (#[trigger] s.taken.contains_key(p) <==> p < s.lap[p % s.capacity])
    &&& forall|p: int|
        #![trigger s.written.contains_key(p)]
        0 <= p && s.written.contains_key(p) ==> p <= s.lap[p % s.capacity]
    &&& forall|p: int|
        #![trigger s.taken.contains_key(p)]
        s.taken.contains_key(p) ==> 0 <= p < s.head && !s.reading.contains(p)
            && s.written.contains_key(p) && s.taken[p] == s.written[p]
    &&& forall|p: int|
        #![trigger s.written.contains_key(p)]
        s.written.contains_key(p) ==> 0 <= p < s.tail && !s.writing.contains(p)
    &&& forall|p: int| #[trigger]
        s.writing.contains(p) ==> 0 <= p < s.tail && !s.written.contains_key(p)
    &&& forall|q: int| #[trigger]
        s.reading.contains(q) ==> 0 <= q < s.head && !s.taken.contains_key(q)
    &&& forall|p: int|
        0 <= p < s.tail ==> #[trigger] s.writing.contains(p) || s.written.contains_key(p)
    &&& forall|q: int|
        0 <= q < s.head ==> #[trigger] s.reading.contains(q) || s.taken.contains_key(q)
}

/// Of the positions of one residue, only one lies in a lap starting at a
/// position of that residue.
proof fn lemma_one_per_lap(a: int, x: int, c: int)
    requires
        0 < c,
        0 <= a,
        a <= x < a + c,
        x % c == a % c,
    ensures
        x == a,
{
    if x > a {
        vstd::arithmetic::div_mod::lemma_fundamental_div_mod(a, c);
        vstd::arithmetic::div_mod::lemma_fundamental_div_mod(x, c);
        lemma_mod_pos_bound(a, c);
        lemma_mod_pos_bound(x, c);
        assert(x - a == c * (x / c - a / c)) by (nonlinear_arith)
            requires
                a == c * (a / c) + a % c,
                x == c * (x / c) + x % c,
                x % c == a % c,
        ;
        assert(false) by (nonlinear_arith)
            requires
                0 < x - a < c,
                x - a == c * (x / c - a / c),
        ;
    }
}

/// A position and the next one sit in different cells.
proof fn lemma_next_position_other_cell(a: int, c: int)
    requires
        2 <= c,
        0 <= a,
    ensures
        (a + 1) % c != a % c,
{
    crate::ring::lemma_mod_distinct(a, 1, c);
}

/// The initial state satisfies the invariant.
pub proof fn lemma_epoch_init<T>(s: EpochState<T>)
    requires
        epoch_init(s),
    ensures
        epoch_inv(s),
{
    let c = s.capacity;
    assert forall|r: int| 0 <= r < c implies {
        &&& 0 <= #[trigger] s.lap[r]
        &&& s.lap[r] % c == r
        &&& s.cells[r] == s.lap[r] + (if s.written.contains_key(s.lap[r]) {
            1int
        } else {
            0int
        })
        &&& s.data[r] == (if s.written.contains_key(s.lap[r]) {
            Some(s.written[s.lap[r]])
        } else {
            None
        })
    } by {
        lemma_small_mod(r as nat, c as nat);
    }
    assert forall|p: int| 0 <= p implies (#[trigger] s.taken.contains_key(p) <==> p < s.lap[p
        % c]) by {
        lemma_mod_pos_bound(p, c);
        lemma_mod_decreases(p as nat, c as nat);
    }
}

/// What a publishing producer and a releasing consumer find: the producer
/// writes into the cell only when it serves the producer's position and
/// holds no item, so no published item is ever overwritten; the consumer
/// takes the item of its own position, which was published.
pub proof fn lemma_steps_are_safe<T>(s: EpochState<T>, t: EpochState<T>, p: int, v: T)
    requires
        epoch_inv(s),
    ensures
        step_publish(s, t, p, v) ==> s.lap[p % s.capacity] == p && !s.written.contains_key(p)
            && s.data[p % s.capacity] is None,
        step_release(s, t, p) ==> s.lap[p % s.capacity] == p && s.written.contains_key(p)
            && s.data[p % s.capacity] == Some(s.written[p]),
{
    let c = s.capacity;
    if step_publish(s, t, p, v) {
        let r = p % c;
        lemma_mod_pos_bound(p, c);
        let l = s.lap[r];
        if s.written.contains_key(l) {
            assert(l + 1 == p);
            lemma_next_position_other_cell(l, c);
        }
    }
    if step_release(s, t, p) {
        let r = p % c;
        lemma_mod_pos_bound(p, c);
        let l = s.lap[r];
        if !s.written.contains_key(l) {
            assert(l == p + 1);
            lemma_next_position_other_cell(p, c);
        }
    }
}

/// Every atomic step keeps the invariant, and never changes an item once it
/// is published or taken.
pub proof fn lemma_epoch_step_keeps_inv<T>(s: EpochState<T>, t: EpochState<T>, p: int, v: T)
    requires
        epoch_inv(s),
        epoch_step(s, t, p, v),
    ensures
        epoch_inv(t),
        forall|x: int| #[trigger]
            s.written.contains_key(x) ==> t.written.contains_key(x) && t.written[x] == s.written[x],
        forall|x: int| #[trigger]
            s.taken.contains_key(x) ==> t.taken.contains_key(x) && t.taken[x] == s.taken[x],
{
    let c = s.capacity;
    lemma_steps_are_safe(s, t, p, v);
    if step_claim_write(s, t) || step_take_write(s, t) {
        assert forall|x: int| 0 <= x < t.tail implies #[trigger] t.writing.contains(x)
            || t.written.contains_key(x) by {
            if x < s.tail {
                assert(s.writing.contains(x) || s.written.contains_key(x));
            }
        }
        assert forall|x: int| #[trigger] t.writing.contains(x) implies 0 <= x < t.tail
            && !t.written.contains_key(x) by {
            if x != s.tail {
                assert(s.writing.contains(x));
            }
        }
        assert forall|x: int| #![trigger t.written.contains_key(x)] t.written.contains_key(x) implies 0 <= x
            < t.tail && !t.writing.contains(x) by {
            assert(s.written.contains_key(x));
        }
    } else if step_claim_read(s, t) || step_take_read(s, t) {
        assert forall|x: int| 0 <= x < t.head implies #[trigger] t.reading.contains(x)
            || t.taken.contains_key(x) by {
            if x < s.head {
                assert(s.reading.contains(x) || s.taken.contains_key(x));
            }
        }
        assert forall|x: int| #[trigger] t.reading.contains(x) implies 0 <= x < t.head
            && !t.taken.contains_key(x) by {
            if x != s.head {
                assert(s.reading.contains(x));
            }
        }
        assert forall|x: int| #![trigger t.taken.contains_key(x)] t.taken.contains_key(x) implies 0 <= x
            < t.head && !t.reading.contains(x) && t.written.contains_key(x) && t.taken[x]
            == t.written[x] by {
            assert(s.taken.contains_key(x));
        }
    } else if step_publish(s, t, p, v) {
        let r = p % c;
        lemma_mod_pos_bound(p, c);
        assert forall|k: int| 0 <= k < c implies {
            &&& 0 <= #[trigger] t.lap[k]
            &&& t.lap[k] % c == k
            &&& t.cells[k] == t.lap[k] + (if t.written.contains_key(t.lap[k]) {
                1int
            } else {
                0int
            })
            &&& t.data[k] == (if t.written.contains_key(t.lap[k]) {
                Some(t.written[t.lap[k]])
            } else {
                None
            })
        } by {
            assert(0 <= s.lap[k]);
            if k != r {
                assert(s.lap[k] != p);
            }
        }
        assert forall|x: int| 0 <= x implies (#[trigger] t.taken.contains_key(x) <==> x < t.lap[x
            % c]) by {
            assert(s.taken.contains_key(x) <==> x < s.lap[x % c]);
        }
        assert forall|x: int| #![trigger t.written.contains_key(x)] 0 <= x && t.written.contains_key(x)
            implies x <= t.lap[x % c] by {
            if x != p {
                assert(s.written.contains_key(x));
            }
        }
        assert forall|x: int| #![trigger t.taken.contains_key(x)] t.taken.contains_key(x) implies 0 <= x
            < t.head && !t.reading.contains(x) && t.written.contains_key(x) && t.taken[x]
            == t.written[x] by {
            assert(s.taken.contains_key(x));
        }
        assert forall|x: int| #![trigger t.written.contains_key(x)] t.written.contains_key(x) implies 0 <= x
            < t.tail && !t.writing.contains(x) by {
            if x != p {
                assert(s.written.contains_key(x));
            }
        }
        assert forall|x: int| #[trigger] t.writing.contains(x) implies 0 <= x < t.tail
            && !t.written.contains_key(x) by {
            assert(s.writing.contains(x));
        }
        assert forall|x: int| 0 <= x < t.tail implies #[trigger] t.writing.contains(x)
            || t.written.contains_key(x) by {
            assert(s.writing.contains(x) || s.written.contains_key(x));
        }
        assert forall|x: int| #[trigger] s.written.contains_key(x) implies t.written.contains_key(x)
            && t.written[x] == s.written[x] by {
            assert(x != p);
        }
    } else {
        assert(step_release(s, t, p));
        let q = p;
        let r = q % c;
        lemma_mod_pos_bound(q, c);
        lemma_mod_add_multiples_vanish(q, c);
        assert(!s.written.contains_key(q + c)) by {
            if s.written.contains_key(q + c) {
                assert(q + c <= s.lap[(q + c) % c]);
            }
        }
        assert forall|k: int| 0 <= k < c implies {
            &&& 0 <= #[trigger] t.lap[k]
            &&& t.lap[k] % c == k
            &&& t.cells[k] == t.lap[k] + (if t.written.contains_key(t.lap[k]) {
                1int
            } else {
                0int
            })
            &&& t.data[k] == (if t.written.contains_key(t.lap[k]) {
                Some(t.written[t.lap[k]])
            } else {
                None
            })
        } by {
            assert(0 <= s.lap[k]);
        }
        assert forall|x: int| 0 <= x implies (#[trigger] t.taken.contains_key(x) <==> x < t.lap[x
            % c]) by {
            assert(s.taken.contains_key(x) <==> x < s.lap[x % c]);
            lemma_mod_pos_bound(x, c);
            if x % c == r && q <= x < q + c {
                lemma_one_per_lap(q, x, c);
            }
        }
        assert forall|x: int| #![trigger t.written.contains_key(x)] 0 <= x && t.written.contains_key(x)
            implies x <= t.lap[x % c] by {
            assert(s.written.contains_key(x));
            lemma_mod_pos_bound(x, c);
        }
        assert forall|x: int| #![trigger t.taken.contains_key(x)] t.taken.contains_key(x) implies 0 <= x
            < t.head && !t.reading.contains(x) && t.written.contains_key(x) && t.taken[x]
            == t.written[x] by {
            if x != q {
                assert(s.taken.contains_key(x));
            }
        }
        assert forall|x: int| #[trigger] t.reading.contains(x) implies 0 <= x < t.head
            && !t.taken.contains_key(x) by {
            assert(s.reading.contains(x));
        }
        assert forall|x: int| 0 <= x < t.head implies #[trigger] t.reading.contains(x)
            || t.taken.contains_key(x) by {
            assert(s.reading.contains(x) || s.taken.contains_key(x));
        }
        assert forall|x: int| #[trigger] s.taken.contains_key(x) implies t.taken.contains_key(x)
            && t.taken[x] == s.taken[x] by {
            assert(x != q);
        }
    }
}

/// Every state of an execution that starts in the initial state satisfies
/// the invariant; step `i` finishes position `finished[i]` and publishes
/// `values[i]` where it publishes.
pub proof fn lemma_epoch_run<T>(run: Seq<EpochState<T>>, finished: Seq<int>, values: Seq<T>)
    requires
        run.len() > 0,
        finished.len() + 1 == run.len(),
        values.len() + 1 == run.len(),
        epoch_init(run[0]),
        forall|i: int|
            0 <= i < run.len() - 1 ==> #[trigger] epoch_step(run[i], run[i + 1], finished[i], values[i]),
    ensures
        forall|i: int| 0 <= i < run.len() ==> #[trigger] epoch_inv(run[i]),
    decreases run.len(),
{
    if run.len() == 1 {
        lemma_epoch_init(run[0]);
    } else {
        let prefix = run.drop_last();
        let fp = finished.drop_last();
        let vp = values.drop_last();
        assert forall|i: int| 0 <= i < prefix.len() - 1 implies #[trigger] epoch_step(
            prefix[i],
            prefix[i + 1],
            fp[i],
            vp[i],
        ) by {
            assert(epoch_step(run[i], run[i + 1], finished[i], values[i]));
        }
        lemma_epoch_run(prefix, fp, vp);
        let n = run.len() - 1;
        assert(epoch_inv(prefix[n - 1]));
        assert(epoch_step(run[n - 1], run[(n - 1) + 1], finished[n - 1], values[n - 1]));
        assert((n - 1) + 1 == n);
        lemma_epoch_step_keeps_inv(run[n - 1], run[n], finished[n - 1], values[n - 1]);
        assert forall|i: int| 0 <= i < run.len() implies #[trigger] epoch_inv(run[i]) by {
            if i < n {
                assert(epoch_inv(prefix[i]));
            }
        }
    }
}

/// Exactly-once delivery, with any number of producers and consumers, each
/// claiming with a compare-and-swap or with a fetch-and-add: in every state
/// of an execution from the initial state, every position that a consumer
/// claimed has been taken or is being read; every taken item is the item
/// published at its position, and each position is taken once (a consumer
/// only releases a position not yet taken); every position that a producer
/// claimed has been published or is being written. Items are never
/// overwritten or changed once published or taken (see
/// [`lemma_epoch_step_keeps_inv`] and [`lemma_steps_are_safe`]). Once no
/// side is working, every claimed position is done, and the items taken are
/// exactly the items published at the same positions.
pub proof fn lemma_delivered_exactly_once<T>(
    run: Seq<EpochState<T>>,
    finished: Seq<int>,
    values: Seq<T>,
    k: int,
)
    requires
        run.len() > 0,
        finished.len() + 1 == run.len(),
        values.len() + 1 == run.len(),
        epoch_init(run[0]),
        forall|i: int|
            0 <= i < run.len() - 1 ==> #[trigger] epoch_step(run[i], run[i + 1], finished[i], values[i]),
        0 <= k < run.len(),
    ensures
        forall|q: int|
            0 <= q < run[k].head ==> #[trigger] run[k].reading.contains(q)
                || run[k].taken.contains_key(q),
        forall|q: int| #[trigger]
            run[k].taken.contains_key(q) ==> 0 <= q < run[k].head && run[k].written.contains_key(q)
                && run[k].taken[q] == run[k].written[q],
        forall|q: int| #[trigger]
            run[k].reading.contains(q) ==> !run[k].taken.contains_key(q),
        forall|p: int|
            0 <= p < run[k].tail ==> #[trigger] run[k].writing.contains(p)
                || run[k].written.contains_key(p),
        run[k].writing.is_empty() && run[k].reading.is_empty() ==> run[k].taken.dom() =~= Set::new(
            |q: int| 0 <= q < run[k].head,
        ) && run[k].written.dom() =~= Set::new(|p: int| 0 <= p < run[k].tail),
{
    lemma_epoch_run(run, finished, values);
    let s = run[k];
    assert(epoch_inv(s));
    assert forall|q: int| 0 <= q < s.head implies #[trigger] s.reading.contains(q)
        || s.taken.contains_key(q) by {}
    assert forall|q: int| #[trigger] s.taken.contains_key(q) implies 0 <= q < s.head
        && s.written.contains_key(q) && s.taken[q] == s.written[q] by {}
    assert forall|q: int| #[trigger] s.reading.contains(q) implies !s.taken.contains_key(q) by {}
    assert forall|p: int| 0 <= p < s.tail implies #[trigger] s.writing.contains(p)
        || s.written.contains_key(p) by {}
    if s.writing.is_empty() && s.reading.is_empty() {
        assert forall|q: int| #[trigger] s.taken.dom().contains(q) <==> 0 <= q < s.head by {
            if 0 <= q < s.head {
                assert(s.reading.contains(q) || s.taken.contains_key(q));
            }
        }
        assert forall|p: int| #[trigger] s.written.dom().contains(p) <==> 0 <= p < s.tail by {
            if 0 <= p < s.tail {
                assert(s.writing.contains(p) || s.written.contains_key(p));
            }
        }
    }
}

} // verus!
