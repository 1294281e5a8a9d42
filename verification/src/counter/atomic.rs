//! A counter cell that can be closed.
//!
//! Every method is one indivisible step on the cell: whoever shares a cell
//! between several parties runs their steps one after another.
use vstd::prelude::*;

use super::Counter;

verus! {

/// The closing bit of a raw word.
pub const LSB: usize = 1;

/// The counter that a raw word holds, unless its closing bit is set.
pub open spec fn make_spec(value: usize) -> Option<Counter> {
    if value % 2 == 0 {
        Some(Counter(value))
    } else {
        None
    }
}

/// The counter that a raw word holds, unless its closing bit is set.
pub fn make(value: usize) -> (r: Option<Counter>)
    ensures
        r == make_spec(value),
{
    assert(value & 1 == value % 2) by (bit_vector);
    if value & LSB == 0 {
        Some(Counter(value))
    } else {
        None
    }
}

/// A cell that holds a counter until it is closed, and from then on the
/// last counter that it held.
#[derive(Debug)]
pub struct AtomicCounter {
    counter: usize,
    last: usize,
}

impl AtomicCounter {
    /// The raw word that the cell holds.
    pub closed spec fn word(&self) -> usize {
        self.counter
    }

    /// The raw word that was kept when the cell was closed.
    pub closed spec fn kept(&self) -> usize {
        self.last
    }

    /// Whether the cell has been closed.
    pub open spec fn is_closed(&self) -> bool {
        self.word() % 2 == 1
    }

    /// A closed cell has kept a counter whose closing bit is clear.
    pub open spec fn wf(&self) -> bool {
        self.is_closed() ==> self.kept() % 2 == 0
    }

    /// The counter of an open cell, or the last counter of a closed one.
    pub open spec fn latest(&self) -> Counter {
        if self.is_closed() {
            Counter(self.kept())
        } else {
            Counter(self.word())
        }
    }

    /// Create new `AtomicCounter` from given counter.
    pub fn new(value: Counter) -> (c: Self)
        ensures
            c.word() == value.0,
            c.kept() == LSB,
            c.wf() <==> !value.is_marked(),
    {
        AtomicCounter {
            counter: value.0,
            // Initially invalid counter
            last: LSB,
        }
    }

    /// Fetch internal counter. If closed, returns `Err(Counter)` with last counter observed.
    pub fn fetch(&self) -> (r: Result<Counter, Counter>)
        requires
            self.wf(),
        ensures
            r == if self.is_closed() {
                Err::<Counter, Counter>(self.latest())
            } else {
                Ok::<Counter, Counter>(self.latest())
            },
    {
        match make(self.counter) {
            Some(count) => Ok(count),
            None => Err(Counter(self.last)),
        }
    }

    /// Increase internal counter by 1. Returns previous counter or `None` if closed.
    pub fn incr(&mut self) -> (r: Option<Counter>)
        ensures
            r == make_spec(old(self).word()),
            Counter(final(self).word()) == Counter(old(self).word()).plus(1),
            final(self).kept() == old(self).kept(),
            final(self).is_closed() == old(self).is_closed(),
    {
        proof {
            reveal(Counter::plus);
        }
        let prev = self.counter;
        // It actually increase `0b10` as its LSB is reserved for close detection.
        self.counter = prev.wrapping_add(2);
        make(prev)
    }

    /// Conditionally change internal counter.
    ///
    /// If internal counter is equal to `cond`, change it to `value` and returns `Ok(())`.
    /// If not, doesn't touch it and returns previous counter or `None` if closed.
    pub fn comp_swap(&mut self, cond: Counter, value: Counter) -> (r: Result<(), Option<Counter>>)
        ensures
            final(self).kept() == old(self).kept(),
            old(self).word() == cond.0 ==> r == Ok::<(), Option<Counter>>(()) && final(self).word()
                == value.0,
            old(self).word() != cond.0 ==> r == Err::<(), Option<Counter>>(
                make_spec(old(self).word()),
            ) && final(self).word() == old(self).word(),
    {
        let res = self.counter;
        if res == cond.0 {
            self.counter = value.0;
            Ok(())
        } else {
            Err(make(res))
        }
    }

    /// Close internal counter.
    ///
    /// Once closed, every operations of this `AtomicCounter` should fail.
    pub fn close(&mut self)
        ensures
            final(self).is_closed(),
            final(self).latest() == old(self).latest(),
            old(self).is_closed() ==> *final(self) == *old(self),
            !old(self).is_closed() ==> final(self).word() == LSB && final(self).kept() == old(
                self,
            ).word(),
            old(self).wf() ==> final(self).wf(),
    {
        let value = self.counter;
        assert(value & 1 == value % 2) by (bit_vector);
        // already closed
        if value & LSB != 0 {
            return ;
        }
        self.counter = LSB;
        // store last observed value
        self.last = value;
    }
}

/// However the steps of several parties are ordered, a cell that is
/// increased `k` times holds the counter `k` steps after its first one, and
/// stays open or closed as it was.
pub proof fn lemma_increments_add_up(cells: Seq<AtomicCounter>)
    requires
        0 < cells.len() <= usize::MAX,
        forall|i: int|
            0 <= i < cells.len() - 1 ==> Counter(#[trigger] cells[i + 1].word()) == Counter(
                cells[i].word(),
            ).plus(1),
    ensures
        Counter(cells.last().word()) == Counter(cells[0].word()).plus((cells.len() - 1) as usize),
        cells.last().is_closed() == cells[0].is_closed(),
    decreases cells.len(),
{
    super::lemma_round_trip(Counter(cells[0].word()), 0);
    if cells.len() > 1 {
        let front = cells.drop_last();
        assert forall|i: int| 0 <= i < front.len() - 1 implies Counter(
            #[trigger] front[i + 1].word(),
        ) == Counter(front[i].word()).plus(1) by {
            assert(front[i + 1] == cells[i + 1]);
            assert(front[i] == cells[i]);
        }
        lemma_increments_add_up(front);
        let n = cells.len() - 1;
        assert(cells[n - 1 + 1] == cells.last());
        assert(front.last() == cells[n - 1]);
        super::lemma_plus_plus(Counter(cells[0].word()), (n - 1) as usize, 1);
        super::lemma_ahead_of_plus(Counter(cells[n - 1].word()), 1);
    }
}

} // verus!
