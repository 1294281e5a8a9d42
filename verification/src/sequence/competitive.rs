//! The sequence of a side whose endpoints compete for each claim.
use vstd::prelude::*;

use crate::counter::{AtomicCounter, Counter};
use crate::sequence::{
    lemma_claim_uses_slack, seen_of_use, slack_of, CacheError, CommitError, Limit, MultiCache,
    Sequence, CLAIM_WINDOW,
};

verus! {

/// A sequence with any number of endpoints. An endpoint claims by moving
/// the claim counter one step on, and only where the limit leaves a slot:
/// no claim is ever taken back.
#[derive(Debug)]
pub struct Competitive {
    claimed: AtomicCounter,
    count: AtomicCounter,
}

/// The limit that an endpoint last saw.
#[derive(Debug)]
pub struct Cache {
    limit: Counter,
}

impl Cache {
    /// The limit that the endpoint last saw.
    pub closed spec fn seen(&self) -> Counter {
        self.limit
    }
}

impl Competitive {
    /// The counter that the next claim will get.
    pub closed spec fn next_claim(&self) -> Counter {
        Counter(self.claimed.word())
    }

    /// What holds of the two cells whether or not a claim is under way.
    closed spec fn cells_in_order(&self) -> bool {
        &&& self.count.wf()
        &&& self.claimed.wf()
        &&& !self.claimed.is_closed()
        &&& !self.count.latest().is_marked()
    }
}

impl Competitive {
    /// A claim of one endpoint leaves in use every other cache that had a
    /// unit of slack, and uses up one unit of it.
    proof fn lemma_claim_spares(&self, after: &Self, limit: Counter)
        requires
            !self.next_claim().is_marked(),
            !limit.is_marked(),
            after.count == self.count,
            after.next_claim() == self.next_claim() || {
                &&& after.next_claim() == self.next_claim().plus(1)
                &&& self.count.latest().ahead(self.next_claim()) < self.count.latest().ahead(limit)
            },
        ensures
            forall|other: Cache| #[trigger]
                self.usable(&other, limit) && self.slack(&other, limit) >= 1 ==> after.usable(
                    &other,
                    limit,
                ) && after.slack(&other, limit) >= self.slack(&other, limit) - 1,
    {
        assert forall|other: Cache| #[trigger]
            self.usable(&other, limit) && self.slack(&other, limit) >= 1 implies after.usable(
            &other,
            limit,
        ) && after.slack(&other, limit) >= self.slack(&other, limit) - 1 by {
            if after.next_claim() != self.next_claim() {
                let latest = self.count.latest();
                assert(1 <= self.next_claim().ahead(limit) < CLAIM_WINDOW && latest.ahead(
                    after.next_claim(),
                ) <= latest.ahead(limit)) by {
                    reveal(Counter::plus);
                    reveal(Counter::ahead);
                }
                lemma_claim_uses_slack(self.next_claim(), other.limit, limit);
            }
        }
    }
}

impl MultiCache for Competitive {
    proof fn lemma_caches_left(&self) {
    }
}

impl Sequence for Competitive {
    type Cache = Cache;

    closed spec fn published(&self) -> AtomicCounter {
        self.count
    }

    closed spec fn inv(&self) -> bool {
        &&& self.cells_in_order()
        &&& !self.count.is_closed() ==> self.next_claim() == self.count.latest()
        &&& self.count.latest().ahead(self.next_claim()) <= CLAIM_WINDOW
    }

    closed spec fn cache_taken(&self) -> bool {
        false
    }

    closed spec fn usable(&self, cache: &Cache, limit: Counter) -> bool {
        &&& !cache.limit.is_marked()
        &&& !limit.is_marked()
        &&& self.count.latest().ahead(self.next_claim()) <= self.count.latest().ahead(limit)
            < CLAIM_WINDOW
        &&& seen_of_use(self.next_claim(), cache.limit, limit)
    }

    closed spec fn pending(&self, cache: &Cache, count: Counter, limit: Counter) -> bool {
        &&& self.cells_in_order()
        &&& self.next_claim() == count.plus(1)
        &&& !count.is_marked()
        &&& !self.count.is_closed() ==> count == self.count.latest()
        &&& !cache.limit.is_marked()
        &&& !limit.is_marked()
        &&& 1 <= count.ahead(cache.limit) <= count.ahead(limit)
        &&& self.count.latest().ahead(count) < self.count.latest().ahead(limit) < CLAIM_WINDOW
    }

    open spec fn leeway() -> int {
        CLAIM_WINDOW - 1
    }

    closed spec fn slack(&self, cache: &Cache, limit: Counter) -> int {
        slack_of(self.next_claim(), cache.limit, limit)
    }

    fn fresh() -> (s: Self) {
        proof {
            reveal(Counter::plus);
            reveal(Counter::ahead);
        }
        Competitive {
            claimed: AtomicCounter::new(Counter::new(0)),
            count: AtomicCounter::new(Counter::new(0)),
        }
    }

    fn cache<L: Limit>(&mut self, limit: &L) -> (r: Result<Cache, CacheError>) {
        proof {
            reveal(Counter::plus);
            reveal(Counter::ahead);
        }
        match self.count.fetch() {
            Ok(_) => Ok(Cache { limit: limit.count() }),
            Err(_) => Err(CacheError::SeqClosed),
        }
    }

    fn counter(&self) -> (c: &AtomicCounter) {
        &self.count
    }

    fn claim<L: Limit>(&mut self, cache: &mut Cache, limit: &L) -> (r: Option<Counter>)
        ensures
            r is None ==> final(self).next_claim() == old(self).next_claim(),
            r is Some ==> r == Some(old(self).next_claim()),
    {
        proof {
            reveal(Counter::plus);
            reveal(Counter::ahead);
        }
        let ghost before = *self;
        let claim = match self.claimed.fetch() {
            Ok(claim) => claim,
            Err(claim) => claim,
        };
        if claim >= cache.limit {
            cache.limit = limit.count();
        }
        if claim >= cache.limit {
            proof {
                before.lemma_claim_spares(self, limit.limit());
            }
            return None;
        }
        // No other endpoint claims between two steps, so the claim
        // counter still stands at `claim` and the swap goes through.
        let swapped = self.claimed.comp_swap(claim, claim + 1);
        proof {
            before.lemma_claim_spares(self, limit.limit());
        }
        match swapped {
            Ok(()) => Some(claim),
            Err(_) => None,
        }
    }

    fn commit(&mut self, cache: &mut Cache, count: Counter) -> (r: Result<(), CommitError>)
        ensures
            *final(cache) == *old(cache),
    {
        proof {
            reveal(Counter::plus);
            reveal(Counter::ahead);
        }
        // Claims are committed in the order in which they were made, so the
        // count stands at this claim unless the sequence is closed.
        match self.count.comp_swap(count, count + 1) {
            Ok(()) => Ok(()),
            Err(_) => Err(CommitError),
        }
    }

    fn close(&mut self) {
        proof {
            reveal(Counter::plus);
            reveal(Counter::ahead);
        }
        self.count.close();
    }

    fn fetch_last(&self) -> (c: Counter) {
        match self.count.fetch() {
            Ok(count) => count,
            Err(count) => count,
        }
    }

    proof fn lemma_inv(&self) {
    }

    proof fn lemma_slack_bound(&self, cache: &Cache, limit: Counter) {
        reveal(Counter::ahead);
    }

    proof fn lemma_limit_moves(&self, cache: &Cache, limit: Counter, later: Counter) {
        reveal(Counter::plus);
        reveal(Counter::ahead);
    }
}

} // verus!
