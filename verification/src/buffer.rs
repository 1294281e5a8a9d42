//! Fixed-size ring of slots, addressed by counter.
//!
//! A [`Buffer`] is a head and a ring of slots. The slot of a counter is the
//! one at the counter's ordinal modulo the capacity. The head tells which
//! counters are occupied: those from the start of its range up to, and
//! excluding, its end. The buffer itself keeps no count.
use vstd::prelude::*;

use crate::counter::{
    cycle, lemma_plus_plus, lemma_round_trip, lemma_stretch, Counter, CounterRange,
    COUNTER_VALID_RANGE,
};
use vstd::arithmetic::div_mod::{
    lemma_add_mod_noop, lemma_fundamental_div_mod, lemma_mod_multiples_vanish, lemma_small_mod,
};

verus! {

/// Buffer capacity is limited to half of valid counter range.
/// Another half is reserved to safely handle overclaimed counters.
pub const MAX_BUF_CAPACITY: usize = COUNTER_VALID_RANGE / 2;

/// Whether `n` is a power of two.
pub open spec fn power_of_two(n: int) -> bool
    decreases n,
{
    n == 1 || (n >= 2 && n % 2 == 0 && power_of_two(n / 2))
}

/// Whether a buffer can have the capacity `n`: a power of two below
/// [`MAX_BUF_CAPACITY`].
pub open spec fn capacity_ok(n: int) -> bool {
    power_of_two(n) && n < MAX_BUF_CAPACITY
}

/// Tells whether a buffer can have the given capacity.
pub fn valid_capacity(capacity: usize) -> (ok: bool)
    ensures
        ok == capacity_ok(capacity as int),
{
    if capacity == 0 || capacity >= MAX_BUF_CAPACITY {
        return false;
    }
    let mut rest: usize = capacity;
    while rest % 2 == 0
        invariant
            rest >= 1,
            power_of_two(rest as int) == power_of_two(capacity as int),
        decreases rest,
    {
        rest = rest / 2;
    }
    rest == 1
}

/// Of two powers of two the smaller one divides the greater one.
pub proof fn lemma_powers_divide(a: int, b: int)
    requires
        power_of_two(a),
        power_of_two(b),
        a <= b,
    ensures
        b % a == 0,
    decreases b,
{
    if a == b {
        assert(b % a == 0) by (nonlinear_arith)
            requires
                a == b,
                a > 0,
        ;
    } else if a == 1 {
    } else {
        // Both are even, and their halves are powers of two again.
        lemma_powers_divide(a / 2, b / 2);
        let q = (b / 2) / (a / 2);
        lemma_fundamental_div_mod(b / 2, a / 2);
        assert(b == a * q) by (nonlinear_arith)
            requires
                b / 2 == (a / 2) * q,
                a == 2 * (a / 2),
                b == 2 * (b / 2),
        ;
        lemma_mod_multiples_vanish(q, 0, a);
        assert(a * q == q * a) by (nonlinear_arith);
        lemma_small_mod(0, a as nat);
    }
}

/// The number of ordinals is a power of two.
pub proof fn lemma_cycle_is_power()
    ensures
        power_of_two(cycle()),
{
    reveal_with_fuel(power_of_two, 64);
    assert(cycle() == 0x8000_0000 || cycle() == 0x8000_0000_0000_0000);
}

/// The ordinals wrap at a multiple of every capacity that a buffer can
/// have.
pub proof fn lemma_capacity_divides_cycle(capacity: int)
    requires
        capacity_ok(capacity),
    ensures
        cycle() % capacity == 0,
        0 < capacity < cycle(),
{
    lemma_cycle_is_power();
    lemma_powers_divide(capacity, cycle());
}

/// The place in a ring of `capacity` slots at which `count` stands.
pub open spec fn index_of(count: Counter, capacity: int) -> int {
    count.ordinal() % capacity
}

/// The place in a ring of `capacity` slots at which `count` stands.
pub fn index(count: Counter, capacity: usize) -> (i: usize)
    requires
        capacity > 0,
    ensures
        i == index_of(count, capacity as int),
        i < capacity,
{
    (count.0 / 2) % capacity
}

/// Stepping a counter forward moves its place forward around the ring,
/// also where the counter wraps.
pub proof fn lemma_index_of_plus(count: Counter, n: usize, capacity: int)
    requires
        capacity_ok(capacity),
        n < cycle(),
    ensures
        index_of(count.plus(n), capacity) == (index_of(count, capacity) + n) % capacity,
        0 <= index_of(count, capacity) < capacity,
{
    reveal(Counter::plus);
    lemma_capacity_divides_cycle(capacity);
    let o = count.ordinal();
    let p = count.plus(n).ordinal();
    assert(p == o + n || p == o + n - cycle());
    let q = cycle() / capacity;
    lemma_fundamental_div_mod(cycle(), capacity);
    assert(cycle() == capacity * q);
    if p == o + n - cycle() {
        // (o + n) - capacity * q has the same remainder as o + n.
        lemma_mod_multiples_vanish(-q, o + n, capacity);
        assert(capacity * (-q) == -(capacity * q)) by (nonlinear_arith);
    }
    assert(p % capacity == (o + n) % capacity);
    lemma_add_mod_noop(o, n as int, capacity);
    // n % capacity folds back into n.
    lemma_add_mod_noop(o % capacity, n as int, capacity);
    vstd::arithmetic::div_mod::lemma_mod_twice(o, capacity);
}

/// Within one lap of the ring, different steps from a counter lead to
/// different places.
pub proof fn lemma_index_apart(count: Counter, m: usize, n: usize, capacity: int)
    requires
        capacity_ok(capacity),
        m < capacity,
        n < capacity,
        m != n,
    ensures
        index_of(count.plus(m), capacity) != index_of(count.plus(n), capacity),
{
    lemma_capacity_divides_cycle(capacity);
    lemma_index_of_plus(count, m, capacity);
    lemma_index_of_plus(count, n, capacity);
    let i = index_of(count, capacity);
    // (i + m) and (i + n) lie within two laps, less than one lap apart.
    lemma_fundamental_div_mod(i + m, capacity);
    lemma_fundamental_div_mod(i + n, capacity);
    let qm = (i + m) / capacity;
    let qn = (i + n) / capacity;
    if (i + m) % capacity == (i + n) % capacity {
        assert(m - n == capacity * (qm - qn)) by (nonlinear_arith)
            requires
                i + m == capacity * qm + (i + m) % capacity,
                i + n == capacity * qn + (i + n) % capacity,
                (i + m) % capacity == (i + n) % capacity,
        ;
        assert(false) by (nonlinear_arith)
            requires
                m - n == capacity * (qm - qn),
                -capacity < m - n < capacity,
                m != n,
                capacity > 0,
        ;
    }
}

/// The slot, in the ring `slots`, of the counter `j` steps after `start`.
pub open spec fn slot_at<T>(slots: Seq<Option<T>>, start: Counter, j: int) -> Option<T> {
    slots[index_of(start.plus(j as usize), slots.len() as int)]
}

/// Of the ring `slots`, exactly the slots of the `len` counters from
/// `start` on are filled.
pub open spec fn filled_from<T>(slots: Seq<Option<T>>, start: Counter, len: int) -> bool {
    forall|j: int|
        0 <= j < slots.len() ==> ((#[trigger] slot_at(slots, start, j)) is Some <==> j < len)
}

/// The values in the slots of the `len` counters from `start` on, oldest
/// first.
pub open spec fn held<T>(slots: Seq<Option<T>>, start: Counter, len: int) -> Seq<T> {
    Seq::new(len as nat, |j: int| slot_at(slots, start, j)->Some_0)
}

/// A slot after the filled ones is empty.
pub proof fn lemma_free_slot<T>(slots: Seq<Option<T>>, start: Counter, len: int, j: int)
    requires
        capacity_ok(slots.len() as int),
        filled_from(slots, start, len),
        0 <= len <= j < slots.len(),
    ensures
        0 <= index_of(start.plus(j as usize), slots.len() as int) < slots.len(),
        slots[index_of(start.plus(j as usize), slots.len() as int)] is None,
{
    lemma_index_of_plus(start.plus(j as usize), 0, slots.len() as int);
    assert(slot_at(slots, start, j) is None);
}

/// Filling the slot after the filled ones appends its value to what the
/// ring holds.
pub proof fn lemma_filled_push<T>(slots: Seq<Option<T>>, start: Counter, len: int, value: T)
    requires
        capacity_ok(slots.len() as int),
        filled_from(slots, start, len),
        0 <= len < slots.len(),
    ensures
        ({
            let place = index_of(start.plus(len as usize), slots.len() as int);
            let filled = slots.update(place, Some(value));
            &&& filled_from(filled, start, len + 1)
            &&& held(filled, start, len + 1) == held(slots, start, len).push(value)
        }),
{
    let size = slots.len() as int;
    let place = index_of(start.plus(len as usize), size);
    let filled = slots.update(place, Some(value));
    lemma_free_slot(slots, start, len, len);
    assert forall|i: int| 0 <= i < filled.len() implies ((#[trigger] slot_at(filled, start, i))
        is Some <==> i < len + 1) by {
        lemma_index_of_plus(start.plus(i as usize), 0, size);
        if i != len {
            lemma_index_apart(start, i as usize, len as usize, size);
            assert(slot_at(filled, start, i) == slot_at(slots, start, i));
        }
    }
    assert forall|i: int| 0 <= i < len implies slot_at(filled, start, i) == slot_at(
        slots,
        start,
        i,
    ) by {
        lemma_index_of_plus(start.plus(i as usize), 0, size);
        lemma_index_apart(start, i as usize, len as usize, size);
    }
    assert(held(filled, start, len + 1) =~= held(slots, start, len).push(value));
}

/// Emptying the oldest filled slot takes the first value from what the
/// ring holds.
pub proof fn lemma_filled_pop<T>(slots: Seq<Option<T>>, start: Counter, len: int)
    requires
        capacity_ok(slots.len() as int),
        filled_from(slots, start, len),
        1 <= len <= slots.len(),
    ensures
        ({
            let place = index_of(start, slots.len() as int);
            let emptied = slots.update(place, None);
            &&& 0 <= place < slots.len()
            &&& slots[place] == Some(held(slots, start, len)[0])
            &&& filled_from(emptied, start.plus(1), len - 1)
            &&& held(emptied, start.plus(1), len - 1) == held(slots, start, len).drop_first()
        }),
{
    let size = slots.len() as int;
    let place = index_of(start, size);
    let emptied = slots.update(place, None);
    let next = start.plus(1);
    lemma_capacity_divides_cycle(size);
    lemma_round_trip(start, 0);
    lemma_index_of_plus(start, 0, size);
    assert(slot_at(slots, start, 0) is Some);
    assert forall|i: int| 0 <= i < size implies slot_at(emptied, next, i) == (if i + 1 < size {
        slot_at(slots, start, i + 1)
    } else {
        None
    }) by {
        lemma_plus_plus(start, 1, i as usize);
        if i + 1 < size {
            lemma_index_apart(start, (i + 1) as usize, 0, size);
        } else {
            lemma_index_of_plus(start, size as usize, size);
            vstd::arithmetic::div_mod::lemma_mod_add_multiples_vanish(place, size);
            lemma_small_mod(place as nat, size as nat);
        }
    }
    assert forall|i: int| 0 <= i < emptied.len() implies ((#[trigger] slot_at(emptied, next, i))
        is Some <==> i < len - 1) by {
        if i + 1 < size {
            assert(slot_at(slots, start, i + 1) is Some <==> i + 1 < len);
        }
    }
    assert(held(emptied, next, len - 1) =~= held(slots, start, len).drop_first());
}

/// A head that tells which counters of its buffer are occupied.
pub trait BufRange {
    /// The occupied counters: from `start` up to, and excluding, `end`.
    spec fn bounds(&self) -> CounterRange;

    /// What holds of a head between two steps on its buffer.
    spec fn in_order(&self) -> bool;

    /// The occupied counters.
    fn range(&self) -> (r: CounterRange)
        requires
            self.in_order(),
        ensures
            r == self.bounds(),
    ;

    /// The bounds of a head in order are open counters.
    proof fn lemma_bounds_open(&self)
        requires
            self.in_order(),
        ensures
            !self.bounds().start.is_marked(),
            !self.bounds().end.is_marked(),
    ;
}

/// A ring of slots, each empty or holding one value.
pub struct Slots<T> {
    storage: Vec<Option<T>>,
    capacity: usize,
}

impl<T> Slots<T> {
    /// The slots, by place in the ring.
    pub closed spec fn view(&self) -> Seq<Option<T>> {
        self.storage@
    }

    /// The number of slots.
    pub closed spec fn size(&self) -> int {
        self.capacity as int
    }

    /// The ring has as many slots as its capacity says, and a capacity
    /// that a buffer can have.
    pub open spec fn shaped(&self) -> bool {
        &&& self@.len() == self.size()
        &&& capacity_ok(self.size())
    }

    /// A ring of `capacity` empty slots.
    pub fn new(capacity: usize) -> (ring: Self)
        requires
            capacity_ok(capacity as int),
        ensures
            ring.shaped(),
            ring.size() == capacity,
            forall|i: int| 0 <= i < capacity ==> ring@[i] is None,
    {
        let mut storage: Vec<Option<T>> = Vec::with_capacity(capacity);
        let mut filled: usize = 0;
        while filled < capacity
            invariant
                filled <= capacity,
                storage@.len() == filled,
                forall|i: int| 0 <= i < filled ==> storage@[i] is None,
            decreases capacity - filled,
        {
            storage.push(None);
            filled = filled + 1;
        }
        Slots { storage, capacity }
    }

    /// The number of slots.
    pub fn capacity(&self) -> (n: usize)
        ensures
            n == self.size(),
    {
        self.capacity
    }

    /// The slot at which `count` stands.
    pub fn get(&mut self, count: Counter) -> (slot: &mut Option<T>)
        requires
            old(self).shaped(),
        ensures
            *slot == old(self)@[index_of(count, old(self).size())],
            final(self)@ == old(self)@.update(index_of(count, old(self).size()), *final(slot)),
            final(self).size() == old(self).size(),
    {
        proof {
            lemma_capacity_divides_cycle(self.size());
        }
        let i = index(count, self.capacity);
        &mut self.storage[i]
    }
}

/// A head and a ring of slots.
pub struct Buffer<H: BufRange, T> {
    /// What the endpoints of the buffer share besides the slots.
    pub head: H,
    /// The slots.
    pub body: Slots<T>,
}

impl<H: BufRange, T> Buffer<H, T> {
    /// The number of slots.
    pub open spec fn size(&self) -> int {
        self.body.size()
    }

    /// The number of occupied counters.
    pub open spec fn len(&self) -> int {
        self.head.bounds().start.ahead(self.head.bounds().end)
    }

    /// The slot at which `count` stands.
    pub open spec fn slot_of(&self, count: Counter) -> Option<T> {
        self.body@[index_of(count, self.size())]
    }

    /// The head is in order, it occupies no more counters than there are
    /// slots, and exactly the slots of the occupied counters are filled.
    pub open spec fn wf(&self) -> bool {
        &&& self.body.shaped()
        &&& self.head.in_order()
        &&& 0 <= self.len() <= self.size()
        &&& filled_from(self.body@, self.head.bounds().start, self.len())
    }

    /// What the buffer holds: the values of the occupied counters, oldest
    /// first.
    pub open spec fn contents(&self) -> Seq<T> {
        held(self.body@, self.head.bounds().start, self.len())
    }

    /// A buffer of `capacity` empty slots under `head`.
    pub fn new(head: H, capacity: usize) -> (buf: Self)
        requires
            capacity_ok(capacity as int),
        ensures
            buf.body.shaped(),
            buf.head == head,
            buf.size() == capacity,
            forall|i: int| 0 <= i < capacity ==> buf.body@[i] is None,
    {
        Buffer { head, body: Slots::new(capacity) }
    }

    /// The number of slots.
    pub fn capacity(&self) -> (n: usize)
        ensures
            n == self.size(),
    {
        self.body.capacity()
    }

    /// What the endpoints of the buffer share besides the slots.
    pub fn head(&self) -> (h: &H)
        ensures
            *h == self.head,
    {
        &self.head
    }

    /// The slot at which `count` stands.
    pub fn get(&mut self, count: Counter) -> (slot: &mut Option<T>)
        requires
            old(self).body.shaped(),
        ensures
            *slot == old(self).slot_of(count),
            final(self).body@ == old(self).body@.update(
                index_of(count, old(self).size()),
                *final(slot),
            ),
            final(self).head == old(self).head,
            final(self).size() == old(self).size(),
    {
        self.body.get(count)
    }

    /// Takes the buffer apart: walks the occupied counters from the
    /// oldest on, empties the slot of each, and gives the values in that
    /// order, each once. Nothing else is in the slots.
    pub fn drain(self) -> (out: Vec<T>)
        requires
            self.wf(),
        ensures
            out@ == self.contents(),
    {
        let mut this = self;
        let mut range = this.head.range();
        let mut out: Vec<T> = Vec::new();
        proof {
            this.head.lemma_bounds_open();
            lemma_capacity_divides_cycle(this.size());
        }
        loop
            invariant
                this.body.shaped(),
                this.size() == self.size(),
                range.end == self.head.bounds().end,
                !range.start.is_marked(),
                !range.end.is_marked(),
                0 <= range.start.ahead(range.end) <= this.size(),
                filled_from(this.body@, range.start, range.start.ahead(range.end)),
                out@ + held(this.body@, range.start, range.start.ahead(range.end))
                    == self.contents(),
            ensures
                out@ == self.contents(),
            decreases range.start.ahead(range.end),
        {
            let ghost slots = this.body@;
            let ghost start = range.start;
            let ghost len = start.ahead(range.end);
            let ghost sofar = out@;
            proof {
                lemma_stretch(start, range.end);
            }
            match range.next() {
                None => {
                    proof {
                        assert(sofar + held(slots, start, len) =~= sofar);
                    }
                    break ;
                },
                Some(count) => {
                    proof {
                        lemma_filled_pop(slots, start, len);
                    }
                    let slot = this.get(count);
                    match slot.take() {
                        Some(value) => {
                            out.push(value);
                        },
                        None => {},
                    }
                    proof {
                        assert(out@ + held(this.body@, range.start, len - 1) =~= sofar + held(
                            slots,
                            start,
                            len,
                        ));
                    }
                },
            }
        }
        out
    }
}

} // verus!
