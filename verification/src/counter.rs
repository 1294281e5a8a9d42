//! Overflow-safe ever-increasing pointer-sized counter.
//!
//! A [`Counter`] reserves three bits of its word. The least significant bit
//! marks a closed counter; the two most significant bits make the order
//! circular, so that a counter which has just wrapped past the end of the
//! word still compares greater than one which has not wrapped yet.
//!
//! Two counters can be compared, or subtracted from each other, only while
//! they lie within [`COUNTER_VALID_RANGE`] of each other. The type does not
//! check this; the laws at the end of this file state what holds of counters
//! that are close enough.
use vstd::prelude::*;

use std::cmp::Ordering;
use std::ops::{Add, AddAssign, BitAnd, BitOr, Sub, SubAssign};
use vstd::std_specs::cmp::PartialOrdSpecImpl;
use vstd::std_specs::ops::{AddSpecImpl, BitAndSpecImpl, BitOrSpecImpl, SubSpecImpl};

pub mod atomic;

pub use self::atomic::AtomicCounter;

verus! {

/// Number of ordinals in one quarter of the circle of counters.
pub const COUNTER_VALID_RANGE: usize = usize::MAX / 8 + 1;

/// The two most significant bits of a word.
pub const MSB: usize = usize::MAX - usize::MAX / 4;

/// Number of raw words: one more than the largest of them.
pub open spec fn word_span() -> int {
    usize::MAX as int + 1
}

/// Number of ordinals on the circle of counters: half the words, since the
/// least significant bit does not count.
pub open spec fn cycle() -> int {
    word_span() / 2
}

/// Overflow-safe ever-increasing counter; the field is its raw word.
#[derive(Debug, Default, Clone, Copy, PartialEq, Eq, Structural)]
pub struct Counter(pub usize);

/// A range of counters, walked from `start` up to but excluding `end`.
#[derive(Debug, Default, Clone, Copy, PartialEq, Eq, Structural)]
pub struct CounterRange {
    pub start: Counter,
    pub end: Counter,
}

/// Whether both of the two most significant bits of `value` are set.
pub fn msb_pp(value: Counter) -> (r: bool)
    ensures
        r == value.in_top(),
{
    value.0 >= MSB
}

/// Whether both of the two most significant bits of `value` are clear.
pub fn msb_nn(value: Counter) -> (r: bool)
    ensures
        r == value.in_bottom(),
{
    value.0 <= usize::MAX / 4
}

/// Twice a word, around the end of the word.
pub open spec fn doubled(n: usize) -> usize {
    if 2 * n > usize::MAX {
        (2 * n - word_span()) as usize
    } else {
        (2 * n) as usize
    }
}

/// Twice a word, around the end of the word.
fn double(n: usize) -> (r: usize)
    ensures
        r == doubled(n),
        r % 2 == 0,
{
    n.wrapping_add(n)
}

impl Counter {
    /// The ordinal that the counter stands for, without its closing bit.
    pub open spec fn ordinal(self) -> int {
        self.0 as int / 2
    }

    /// Whether the closing bit is set.
    pub open spec fn is_marked(self) -> bool {
        self.0 % 2 == 1
    }

    /// Whether the counter lies in the last quarter of the circle.
    pub open spec fn in_top(self) -> bool {
        self.0 >= MSB
    }

    /// Whether the counter lies in the first quarter of the circle.
    pub open spec fn in_bottom(self) -> bool {
        self.0 <= usize::MAX / 4
    }

    /// Whether one of the two counters lies in the first quarter and the
    /// other in the last one, so that exactly one of them has wrapped.
    pub open spec fn wraps_against(self, other: Counter) -> bool {
        (self.in_bottom() && other.in_top()) || (self.in_top() && other.in_bottom())
    }

    /// The circular order: `self` comes before `other`.
    pub open spec fn precedes(self, other: Counter) -> bool {
        if self.in_bottom() && other.in_top() {
            false
        } else if self.in_top() && other.in_bottom() {
            true
        } else {
            self.0 < other.0
        }
    }

    /// The signed number of steps from `other` to `self`.
    pub open spec fn distance(self, other: Counter) -> int {
        let d = self.ordinal() - other.ordinal();
        if self.wraps_against(other) {
            if d < 0 {
                d + cycle()
            } else {
                d - cycle()
            }
        } else {
            d
        }
    }

    /// The number of steps that lead forward from `self` to `later`, once
    /// around the circle at most.
    #[verifier::opaque]
    pub open spec fn ahead(self, later: Counter) -> int {
        if later.0 >= self.0 {
            (later.0 - self.0) / 2
        } else {
            (later.0 - self.0 + word_span()) / 2
        }
    }

    /// The counter `n` steps after `self`, around the circle.
    #[verifier::opaque]
    pub open spec fn plus(self, n: usize) -> Counter {
        let sum = self.0 + doubled(n);
        if sum > usize::MAX {
            Counter((sum - word_span()) as usize)
        } else {
            Counter(sum as usize)
        }
    }

    /// The counter `n` steps before `self`, around the circle.
    pub open spec fn minus(self, n: usize) -> Counter {
        let rest = self.0 - doubled(n);
        if rest < 0 {
            Counter((rest + word_span()) as usize)
        } else {
            Counter(rest as usize)
        }
    }

    /// Create new counter initialized with given value.
    pub fn new(init: usize) -> (c: Counter)
        ensures
            c == Counter(0).plus(init),
            !c.is_marked(),
            c.ordinal() == if init >= cycle() {
                init - cycle()
            } else {
                init as int
            },
    {
        proof {
            reveal(Counter::plus);
        }
        Counter(double(init))
    }

    /// Create a range of counters for iteration.
    pub fn range(start: Counter, end: Counter) -> (r: CounterRange)
        ensures
            r == (CounterRange { start, end }),
    {
        CounterRange { start, end }
    }
}

impl CounterRange {
    /// The next counter of the range, if any is left.
    pub fn next(&mut self) -> (r: Option<Counter>)
        ensures
            old(self).start == old(self).end ==> r is None && *final(self) == *old(self),
            old(self).start != old(self).end ==> r == Some(old(self).start) && final(self).start
                == old(self).start.plus(1) && final(self).end == old(self).end,
    {
        if self.start == self.end {
            None
        } else {
            let res = self.start;
            self.start = res + 1;
            Some(res)
        }
    }
}

impl PartialOrd for Counter {
    fn partial_cmp(&self, rhs: &Self) -> (r: Option<Ordering>) {
        if msb_nn(*self) && msb_pp(*rhs) {
            Some(Ordering::Greater)
        } else if msb_pp(*self) && msb_nn(*rhs) {
            Some(Ordering::Less)
        } else if self.0 < rhs.0 {
            Some(Ordering::Less)
        } else if self.0 == rhs.0 {
            Some(Ordering::Equal)
        } else {
            Some(Ordering::Greater)
        }
    }
}

impl PartialOrdSpecImpl for Counter {
    open spec fn obeys_partial_cmp_spec() -> bool {
        true
    }

    open spec fn partial_cmp_spec(&self, rhs: &Counter) -> Option<Ordering> {
        if self.precedes(*rhs) {
            Some(Ordering::Less)
        } else if *self == *rhs {
            Some(Ordering::Equal)
        } else {
            Some(Ordering::Greater)
        }
    }
}

impl Sub<Counter> for Counter {
    type Output = isize;

    fn sub(self, rhs: Counter) -> (d: isize) {
        let this = signed(self.0 / 2);
        let that = signed(rhs.0 / 2);
        if (msb_nn(self) && msb_pp(rhs)) || (msb_pp(self) && msb_nn(rhs)) {
            this.wrapping_sub(that).wrapping_add(isize::MIN)
        } else {
            this - that
        }
    }
}

impl SubSpecImpl<Counter> for Counter {
    open spec fn obeys_sub_spec() -> bool {
        true
    }

    open spec fn sub_req(self, rhs: Counter) -> bool {
        true
    }

    open spec fn sub_spec(self, rhs: Counter) -> isize {
        self.distance(rhs) as isize
    }
}

/// A word of at most half the largest one, as a signed word.
fn signed(v: usize) -> (r: isize)
    requires
        v <= usize::MAX / 2,
    ensures
        r == v,
{
    v as isize
}

impl Add<usize> for Counter {
    type Output = Counter;

    fn add(self, rhs: usize) -> (c: Counter) {
        proof {
            reveal(Counter::plus);
        }
        Counter(self.0.wrapping_add(double(rhs)))
    }
}

impl AddSpecImpl<usize> for Counter {
    open spec fn obeys_add_spec() -> bool {
        true
    }

    open spec fn add_req(self, rhs: usize) -> bool {
        true
    }

    open spec fn add_spec(self, rhs: usize) -> Counter {
        self.plus(rhs)
    }
}

impl Sub<usize> for Counter {
    type Output = Counter;

    fn sub(self, rhs: usize) -> (c: Counter) {
        Counter(self.0.wrapping_sub(double(rhs)))
    }
}

impl SubSpecImpl<usize> for Counter {
    open spec fn obeys_sub_spec() -> bool {
        true
    }

    open spec fn sub_req(self, rhs: usize) -> bool {
        true
    }

    open spec fn sub_spec(self, rhs: usize) -> Counter {
        self.minus(rhs)
    }
}

impl BitAnd<usize> for Counter {
    type Output = usize;

    fn bitand(self, rhs: usize) -> usize {
        (self.0 / 2) & rhs
    }
}

impl BitAndSpecImpl<usize> for Counter {
    open spec fn obeys_bitand_spec() -> bool {
        true
    }

    open spec fn bitand_req(self, rhs: usize) -> bool {
        true
    }

    open spec fn bitand_spec(self, rhs: usize) -> usize {
        (self.0 / 2) & rhs
    }
}

impl BitOr<usize> for Counter {
    type Output = usize;

    fn bitor(self, rhs: usize) -> usize {
        (self.0 / 2) | rhs
    }
}

impl BitOrSpecImpl<usize> for Counter {
    open spec fn obeys_bitor_spec() -> bool {
        true
    }

    open spec fn bitor_req(self, rhs: usize) -> bool {
        true
    }

    open spec fn bitor_spec(self, rhs: usize) -> usize {
        (self.0 / 2) | rhs
    }
}

impl AddAssign<usize> for Counter {
    fn add_assign(&mut self, rhs: usize)
        ensures
            *final(self) == old(self).plus(rhs),
    {
        *self = *self + rhs;
    }
}

impl SubAssign<usize> for Counter {
    fn sub_assign(&mut self, rhs: usize)
        ensures
            *final(self) == old(self).minus(rhs),
    {
        *self = *self - rhs;
    }
}

/// The counter reached from `c` by `k` single steps.
pub open spec fn stepped(c: Counter, k: nat) -> Counter
    decreases k,
{
    if k == 0 {
        c
    } else {
        stepped(c, (k - 1) as nat).plus(1)
    }
}

/// Stepping a counter forward and measuring back gives the number of
/// steps, and the counter that was stepped forward is the greater one,
/// wherever on the circle the start lies.
pub proof fn lemma_round_trip(c: Counter, n: usize)
    requires
        n < COUNTER_VALID_RANGE / 2,
    ensures
        c.plus(n).distance(c) == n,
        c.plus(n).minus(n) == c,
        n > 0 ==> c.precedes(c.plus(n)) && !c.plus(n).precedes(c),
        n == 0 ==> c.plus(n) == c,
{
    reveal(Counter::plus);
}

/// Of two open counters less than a quarter of the circle apart, the one
/// that lies ahead is the greater one, and their difference is the number
/// of steps between them.
pub proof fn lemma_order_of_near(a: Counter, b: Counter)
    requires
        !a.is_marked(),
        !b.is_marked(),
        a.ahead(b) < COUNTER_VALID_RANGE,
    ensures
        a.ahead(b) > 0 ==> a.precedes(b) && !b.precedes(a),
        a.ahead(b) == 0 ==> a == b,
        b.distance(a) == a.ahead(b),
        a.distance(b) == -a.ahead(b),
        a.ahead(b) < usize::MAX && a.plus(a.ahead(b) as usize) == b,
{
    reveal(Counter::plus);
    reveal(Counter::ahead);
}

/// Stepping forward by less than a lap leads that many steps ahead, and
/// leaves the closing bit as it was.
pub proof fn lemma_ahead_of_plus(c: Counter, n: usize)
    requires
        n < cycle(),
    ensures
        c.ahead(c.plus(n)) == n,
        c.plus(n).is_marked() == c.is_marked(),
{
    reveal(Counter::plus);
    reveal(Counter::ahead);
}

/// A counter is reached from another one, with the same closing bit, by
/// as many steps as it lies ahead.
pub proof fn lemma_plus_of_ahead(a: Counter, b: Counter)
    requires
        a.is_marked() == b.is_marked(),
    ensures
        0 <= a.ahead(b) < cycle(),
        a.plus(a.ahead(b) as usize) == b,
{
    reveal(Counter::plus);
    reveal(Counter::ahead);
}

/// No step leads from a counter to itself.
pub proof fn lemma_ahead_self(c: Counter)
    ensures
        c.ahead(c) == 0,
        c.plus(0) == c,
{
    reveal(Counter::plus);
    reveal(Counter::ahead);
}

/// Two strides in a row are one stride of their sum.
pub proof fn lemma_plus_plus(c: Counter, m: usize, n: usize)
    requires
        m + n <= usize::MAX,
    ensures
        c.plus(m).plus(n) == c.plus((m + n) as usize),
{
    reveal(Counter::plus);
}

/// The occupied stretch of a ring, from `start` up to `end`, and the free
/// stretch after it: what lies `size` steps after `start` lies as far
/// after `end` as there are free slots.
pub proof fn lemma_room(start: Counter, end: Counter, size: int)
    requires
        !start.is_marked(),
        !end.is_marked(),
        0 <= start.ahead(end) <= size < cycle() / 2,
    ensures
        end.ahead(start.plus(size as usize)) == size - start.ahead(end),
        start.ahead(start.plus(size as usize)) == size,
        !start.plus(size as usize).is_marked(),
{
    reveal(Counter::plus);
    reveal(Counter::ahead);
}

/// A counter in the free stretch of a ring, as many steps after `end` as
/// `end.ahead(k)` says, is reached from `start` by the occupied steps and
/// those together.
pub proof fn lemma_within(start: Counter, end: Counter, k: Counter, size: int)
    requires
        !start.is_marked(),
        !end.is_marked(),
        !k.is_marked(),
        0 <= start.ahead(end) <= size < cycle() / 2,
        end.ahead(k) < size - start.ahead(end),
    ensures
        0 <= end.ahead(k),
        k == start.plus((start.ahead(end) + end.ahead(k)) as usize),
{
    lemma_plus_of_ahead(start, end);
    lemma_plus_of_ahead(end, k);
    lemma_plus_plus(start, start.ahead(end) as usize, end.ahead(k) as usize);
}

/// Moving the end of a stretch one step on makes it one longer; moving
/// its start one step on makes it one shorter.
pub proof fn lemma_stretch(start: Counter, end: Counter)
    requires
        !start.is_marked(),
        !end.is_marked(),
        start.ahead(end) < cycle() / 2,
    ensures
        0 <= start.ahead(end),
        start.ahead(end.plus(1)) == start.ahead(end) + 1,
        start.ahead(end) >= 1 ==> start.plus(1).ahead(end) == start.ahead(end) - 1,
        start.ahead(end) == 0 ==> start.plus(1).ahead(end) == cycle() - 1,
        start.ahead(end) == 0 <==> start == end,
        !start.plus(1).is_marked(),
        !end.plus(1).is_marked(),
{
    reveal(Counter::plus);
    reveal(Counter::ahead);
}

/// Single steps add up: `k` of them lead where one stride of `k` leads.
pub proof fn lemma_steps_add_up(c: Counter, k: usize)
    ensures
        stepped(c, k as nat) == c.plus(k),
    decreases k,
{
    reveal(Counter::plus);
    if k > 0 {
        lemma_steps_add_up(c, (k - 1) as usize);
    }
}

/// A counter that is stepped across the end of the word stays in order:
/// after `k` steps it stands `k` after its start and compares greater.
pub proof fn lemma_wrap_safety(c: Counter, k: usize)
    requires
        0 < k < COUNTER_VALID_RANGE / 2,
    ensures
        stepped(c, k as nat).distance(c) == k,
        c.precedes(stepped(c, k as nat)),
        stepped(c, k as nat).is_marked() == c.is_marked(),
{
    reveal(Counter::plus);
    lemma_steps_add_up(c, k);
    lemma_round_trip(c, k);
}

} // verus!
