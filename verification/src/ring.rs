//! Geometry of a ring buffer: the requested size, the power-of-two number of
//! slots that backs it, and the mask that maps a position to its slot.
use vstd::arithmetic::power2::{lemma2_to64, lemma_pow2_pos, lemma_pow2_strictly_increases, pow2};
use vstd::arithmetic::div_mod::{
    lemma_fundamental_div_mod, lemma_fundamental_div_mod_converse_mod, lemma_mod_pos_bound,
};
use vstd::bits::{lemma_usize_low_bits_mask_is_mod, low_bits_mask};
use vstd::prelude::*;

verus! {

/// `n` is a power of two whose exponent is below the width of `usize`.
pub open spec fn is_usize_power_of_two(n: nat) -> bool {
    exists|k: nat| k < usize::BITS && pow2(k) == n
}

/// `c` is the smallest power of two that is at least `size`.
pub open spec fn is_next_power_of_two(size: nat, c: nat) -> bool {
    &&& is_usize_power_of_two(c)
    &&& size <= c
    &&& (c == 1 || c < 2 * size)
}

/// Two powers of two that are both the next power of two of `size` are equal:
/// the capacity that a size asks for is determined by the size.
pub proof fn lemma_next_power_of_two_unique(size: nat, c1: nat, c2: nat)
    requires
        is_next_power_of_two(size, c1),
        is_next_power_of_two(size, c2),
    ensures
        c1 == c2,
{
    let k1 = choose|k: nat| k < usize::BITS && pow2(k) == c1;
    let k2 = choose|k: nat| k < usize::BITS && pow2(k) == c2;
    lemma_pow2_lt_doubles(k1, k2);
    lemma_pow2_lt_doubles(k2, k1);
    lemma_pow2_pos(k1);
    lemma_pow2_pos(k2);
}

/// A smaller exponent gives a power of two at most half as large.
proof fn lemma_pow2_lt_doubles(a: nat, b: nat)
    ensures
        a < b ==> 2 * pow2(a) <= pow2(b),
        a < b ==> pow2(b) != 1,
{
    if a < b {
        vstd::arithmetic::power2::lemma_pow2_unfold(a + 1);
        if a + 1 < b {
            lemma_pow2_strictly_increases(a + 1, b);
        }
        lemma_pow2_pos(a);
    }
}

/// A power of two is its own next power of two.
pub proof fn lemma_power_of_two_is_next(c: nat)
    requires
        is_usize_power_of_two(c),
    ensures
        is_next_power_of_two(c, c),
{
    let k = choose|k: nat| k < usize::BITS && pow2(k) == c;
    lemma_pow2_pos(k);
}

/// `2^usize::BITS` is one past `usize::MAX`.
pub proof fn lemma_pow2_usize_bits()
    ensures
        pow2(usize::BITS as nat) == usize::MAX + 1,
{
    lemma2_to64();
}

/// A power of two that fits in a `usize` has an exponent below `usize::BITS`.
pub proof fn lemma_pow2_fits_exponent(k: nat)
    requires
        pow2(k) <= usize::MAX,
    ensures
        k < usize::BITS,
{
    if k >= usize::BITS {
        lemma_pow2_usize_bits();
        if k > usize::BITS {
            lemma_pow2_strictly_increases(usize::BITS as nat, k);
        }
    }
}

/// For a power of two `c`, masking with `c - 1` is the remainder modulo `c`.
pub proof fn lemma_mask_is_mod(x: usize, c: usize)
    requires
        is_usize_power_of_two(c as nat),
    ensures
        x & ((c - 1) as usize) == x % c,
        x % c < c,
{
    let k = choose|k: nat| k < usize::BITS && pow2(k) == c as nat;
    lemma_pow2_pos(k);
    lemma_usize_low_bits_mask_is_mod(x, k);
    assert(low_bits_mask(k) == c - 1);
}

/// The last position of the `usize` range sits in the last slot.
pub proof fn lemma_max_slot(c: usize)
    requires
        is_usize_power_of_two(c as nat),
    ensures
        usize::MAX % c == c - 1,
{
    let k = choose|k: nat| k < usize::BITS && pow2(k) == c as nat;
    let q = pow2((usize::BITS - k) as nat);
    vstd::arithmetic::power2::lemma_pow2_adds(k, (usize::BITS - k) as nat);
    lemma_pow2_usize_bits();
    lemma_pow2_pos((usize::BITS - k) as nat);
    assert(usize::MAX == (q - 1) * c + (c - 1)) by (nonlinear_arith)
        requires
            usize::MAX + 1 == c * q,
            q >= 1,
    ;
    lemma_fundamental_div_mod_converse_mod(usize::MAX as int, c as int, q - 1, c - 1);
}

/// Computes the smallest power of two that is at least `size`.
pub fn next_power_of_two(size: usize) -> (c: usize)
    requires
        size <= usize::MAX / 2 + 1,
    ensures
        is_next_power_of_two(size as nat, c as nat),
{
    let mut c: usize = 1;
    let ghost mut k: nat = 0;
    assert(pow2(0) == 1) by {
        lemma2_to64();
    }
    while c < size
        invariant
            size <= usize::MAX / 2 + 1,
            pow2(k) == c,
            k < usize::BITS,
            1 <= c,
            c == 1 || c < 2 * size,
        decreases usize::MAX - c,
    {
        proof {
            vstd::arithmetic::power2::lemma_pow2_unfold(k + 1);
        }
        c = c * 2;
        proof {
            k = k + 1;
            lemma_pow2_fits_exponent(k);
        }
    }
    c
}

/// The layout of one ring: `size` usable positions backed by `capacity`
/// slots, `capacity` being the smallest power of two that is at least `size`.
#[derive(Clone, Copy)]
pub struct Geometry {
    size: usize,
    capacity: usize,
    mask: usize,
}

impl Geometry {
    /// The size is positive, the capacity is the next power of two, and the
    /// mask is one less than the capacity.
    pub closed spec fn wf(&self) -> bool {
        &&& 1 <= self.size
        &&& is_next_power_of_two(self.size as nat, self.capacity as nat)
        &&& self.mask == self.capacity - 1
    }

    /// The number of items the ring may hold.
    pub closed spec fn spec_size(&self) -> usize {
        self.size
    }

    /// The number of slots backing the ring.
    pub closed spec fn spec_capacity(&self) -> usize {
        self.capacity
    }

    /// The slot that a position occupies.
    pub open spec fn spec_slot(&self, pos: int) -> int {
        pos % (self.spec_capacity() as int)
    }

    /// What a well-formed geometry guarantees: the size is positive and the
    /// capacity is the next power of two.
    pub proof fn lemma_wf(&self)
        requires
            self.wf(),
        ensures
            1 <= self.spec_size(),
            is_next_power_of_two(self.spec_size() as nat, self.spec_capacity() as nat),
            self.spec_size() <= self.spec_capacity(),
            1 <= self.spec_capacity() <= usize::MAX / 2 + 1,
    {
        let k = choose|k: nat| k < usize::BITS && pow2(k) == self.capacity as nat;
        lemma_pow2_pos(k);
        lemma2_to64();
        vstd::arithmetic::power2::lemma2_to64_rest();
        assert(pow2((usize::BITS - 1) as nat) == usize::MAX / 2 + 1);
        if k < usize::BITS - 1 {
            lemma_pow2_strictly_increases(k, (usize::BITS - 1) as nat);
        }
    }

    /// Computes the geometry for `size` requested positions.
    pub fn with_size(size: usize) -> (g: Self)
        requires
            1 <= size <= usize::MAX / 2 + 1,
        ensures
            g.wf(),
            g.spec_size() == size,
            is_next_power_of_two(size as nat, g.spec_capacity() as nat),
            is_usize_power_of_two(size as nat) ==> g.spec_capacity() == size,
    {
        let capacity = next_power_of_two(size);
        proof {
            if is_usize_power_of_two(size as nat) {
                lemma_power_of_two_is_next(size as nat);
                lemma_next_power_of_two_unique(size as nat, size as nat, capacity as nat);
            }
        }
        Geometry { size, capacity, mask: capacity - 1 }
    }

    /// The number of items the ring may hold.
    #[verifier::when_used_as_spec(spec_size)]
    pub fn size(&self) -> (r: usize)
        ensures
            r == self.spec_size(),
    {
        self.size
    }

    /// The number of slots backing the ring.
    #[verifier::when_used_as_spec(spec_capacity)]
    pub fn capacity(&self) -> (r: usize)
        ensures
            r == self.spec_capacity(),
    {
        self.capacity
    }

    /// The mask that maps a position to its slot.
    pub fn mask(&self) -> (r: usize)
        requires
            self.wf(),
        ensures
            r == self.spec_capacity() - 1,
    {
        self.mask
    }

    /// The slot that position `pos` occupies: `pos & mask`.
    pub fn slot(&self, pos: usize) -> (s: usize)
        requires
            self.wf(),
        ensures
            s == self.spec_slot(pos as int),
            s < self.spec_capacity(),
    {
        proof {
            lemma_mask_is_mod(pos, self.capacity);
        }
        pos & self.mask
    }
}

/// Moving `k` positions forward without passing the end of the slots moves
/// the slot `k` forward.
pub proof fn lemma_mod_shift(a: int, k: int, c: int)
    requires
        0 < c,
        0 <= a,
        0 <= k,
        a % c + k < c,
    ensures
        (a + k) % c == a % c + k,
{
    lemma_fundamental_div_mod(a, c);
    lemma_mod_pos_bound(a, c);
    assert(a + k == (a / c) * c + (a % c + k)) by (nonlinear_arith)
        requires
            a == c * (a / c) + a % c,
    ;
    lemma_fundamental_div_mod_converse_mod(a + k, c, a / c, a % c + k);
}

/// Two positions less than `c` apart occupy different slots.
pub proof fn lemma_mod_distinct(a: int, d: int, c: int)
    requires
        0 < c,
        0 <= a,
        0 < d < c,
    ensures
        (a + d) % c != a % c,
{
    lemma_fundamental_div_mod(a, c);
    lemma_mod_pos_bound(a, c);
    if a % c + d < c {
        lemma_mod_shift(a, d, c);
    } else {
        assert(a + d == (a / c + 1) * c + (a % c + d - c)) by (nonlinear_arith)
            requires
                a == c * (a / c) + a % c,
        ;
        lemma_fundamental_div_mod_converse_mod(a + d, c, a / c + 1, a % c + d - c);
    }
}

/// The slot of the item `j` places after position `head`.
pub open spec fn slot_at<T>(slots: Seq<Option<T>>, head: int, j: int) -> Option<T> {
    slots[(head + j) % (slots.len() as int)]
}

/// The slots hold exactly `items`, in order, starting at the slot of
/// position `head`; every other slot is empty.
pub open spec fn slots_hold<T>(slots: Seq<Option<T>>, head: int, items: Seq<T>) -> bool {
    &&& 0 < slots.len()
    &&& 0 <= head
    &&& items.len() <= slots.len()
    &&& forall|j: int|
        0 <= j < slots.len() ==> #[trigger] slot_at(slots, head, j) == (if j < items.len() {
            Some(items[j])
        } else {
            None
        })
}

/// Writing the slot just past the last item appends that item; the slot was empty.
pub proof fn lemma_slots_push<T>(slots: Seq<Option<T>>, head: int, items: Seq<T>, v: T)
    requires
        slots_hold(slots, head, items),
        items.len() < slots.len(),
    ensures
        0 <= (head + items.len()) % (slots.len() as int) < slots.len(),
        slots[(head + items.len()) % (slots.len() as int)] is None,
        slots_hold(
            slots.update((head + items.len()) % (slots.len() as int), Some(v)),
            head,
            items.push(v),
        ),
{
    let c = slots.len() as int;
    let n = items.len() as int;
    let i = (head + n) % c;
    lemma_mod_pos_bound(head + n, c);
    assert(slot_at(slots, head, n) is None);
    let s2 = slots.update(i, Some(v));
    let it2 = items.push(v);
    assert forall|j: int| 0 <= j < c implies #[trigger] slot_at(s2, head, j) == (if j < it2.len() {
        Some(it2[j])
    } else {
        None
    }) by {
        lemma_mod_pos_bound(head + j, c);
        if j != n {
            if j < n {
                lemma_mod_distinct(head + j, n - j, c);
            } else {
                lemma_mod_distinct(head + n, j - n, c);
            }
            assert(slot_at(slots, head, j) == slot_at(s2, head, j));
        }
    }
}

/// Taking the slot of `head` removes the first item; the slot becomes empty.
pub proof fn lemma_slots_pop<T>(slots: Seq<Option<T>>, head: int, items: Seq<T>)
    requires
        slots_hold(slots, head, items),
        0 < items.len(),
    ensures
        0 <= head % (slots.len() as int) < slots.len(),
        slots[head % (slots.len() as int)] == Some(items[0]),
        slots_hold(slots.update(head % (slots.len() as int), None), head + 1, items.drop_first()),
{
    let c = slots.len() as int;
    let i = head % c;
    lemma_mod_pos_bound(head, c);
    assert(slot_at(slots, head, 0) == Some(items[0]));
    assert(head + 0 == head);
    let s2 = slots.update(i, None);
    let it2 = items.drop_first();
    assert forall|j: int| 0 <= j < c implies #[trigger] slot_at(s2, head + 1, j) == (if j
        < it2.len() {
        Some(it2[j])
    } else {
        None
    }) by {
        lemma_mod_pos_bound(head + 1 + j, c);
        assert(head + 1 + j == head + (j + 1));
        if j + 1 < c {
            lemma_mod_distinct(head, j + 1, c);
            assert(slot_at(slots, head, j + 1) == slot_at(s2, head + 1, j));
        } else {
            vstd::arithmetic::div_mod::lemma_mod_add_multiples_vanish(head, c);
            assert(head + 1 + j == c + head);
        }
    }
}

} // verus!
