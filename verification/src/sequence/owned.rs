//! The sequence of a side that has a single endpoint.
use vstd::prelude::*;

use crate::counter::{AtomicCounter, Counter};
use crate::sequence::{CacheError, CommitError, Limit, Sequence, CLAIM_WINDOW};

verus! {

/// A sequence with one endpoint, which alone moves its count.
#[derive(Debug)]
pub struct Owned {
    count: AtomicCounter,
    has_cache: bool,
}

/// The endpoint's own count, and the limit it last saw.
#[derive(Debug)]
pub struct Cache {
    count: Counter,
    limit: Counter,
}

impl Cache {
    /// The next counter that the endpoint will claim.
    pub closed spec fn next(&self) -> Counter {
        self.count
    }

    /// The limit that the endpoint last saw.
    pub closed spec fn seen(&self) -> Counter {
        self.limit
    }
}

impl Sequence for Owned {
    type Cache = Cache;

    closed spec fn published(&self) -> AtomicCounter {
        self.count
    }

    closed spec fn inv(&self) -> bool {
        &&& self.count.wf()
        &&& !self.count.latest().is_marked()
    }

    closed spec fn cache_taken(&self) -> bool {
        self.has_cache
    }

    closed spec fn usable(&self, cache: &Cache, limit: Counter) -> bool {
        &&& cache.count == self.count.latest()
        &&& !cache.limit.is_marked()
        &&& !limit.is_marked()
        &&& cache.count.ahead(cache.limit) <= cache.count.ahead(limit) < CLAIM_WINDOW
    }

    closed spec fn pending(&self, cache: &Cache, count: Counter, limit: Counter) -> bool {
        &&& self.inv()
        &&& count == self.count.latest()
        &&& cache.count == count.plus(1)
        &&& !cache.limit.is_marked()
        &&& !limit.is_marked()
        &&& 1 <= count.ahead(cache.limit) <= count.ahead(limit) < CLAIM_WINDOW
    }

    open spec fn leeway() -> int {
        0
    }

    open spec fn slack(&self, cache: &Cache, limit: Counter) -> int {
        0
    }

    fn fresh() -> (s: Self) {
        proof {
            reveal(Counter::plus);
            reveal(Counter::ahead);
        }
        Owned { count: AtomicCounter::new(Counter::new(0)), has_cache: false }
    }

    fn cache<L: Limit>(&mut self, limit: &L) -> (r: Result<Cache, CacheError>) {
        proof {
            reveal(Counter::plus);
            reveal(Counter::ahead);
        }
        // Owned sequence can have up to single cache
        if self.has_cache {
            return Err(CacheError::NotAvailable);
        }
        self.has_cache = true;
        match self.count.fetch() {
            Ok(count) => Ok(Cache { count, limit: limit.count() }),
            Err(_) => Err(CacheError::SeqClosed),
        }
    }

    fn counter(&self) -> (c: &AtomicCounter) {
        &self.count
    }

    fn claim<L: Limit>(&mut self, cache: &mut Cache, limit: &L) -> (r: Option<Counter>)
        ensures
            r is None <==> old(self).published().latest() == limit.limit(),
            r is Some ==> r == Some(old(self).published().latest()),
            *final(self) == *old(self),
    {
        proof {
            reveal(Counter::plus);
            reveal(Counter::ahead);
        }
        if cache.count == cache.limit {
            cache.limit = limit.count();
        }
        if cache.count == cache.limit {
            None
        } else {
            let count = cache.count;
            cache.count = count + 1;
            Some(count)
        }
    }

    fn commit(&mut self, cache: &mut Cache, count: Counter) -> (r: Result<(), CommitError>)
        ensures
            *final(cache) == *old(cache),
    {
        proof {
            reveal(Counter::plus);
            reveal(Counter::ahead);
        }
        match self.count.incr() {
            None => Err(CommitError),
            Some(prev) => Ok(()),
        }
    }

    fn close(&mut self) {
        proof {
            reveal(Counter::plus);
            reveal(Counter::ahead);
        }
        self.count.close();
    }

    fn fetch_last(&self) -> (c: Counter) {
        match self.count.fetch() {
            Ok(count) => count,
            Err(count) => count,
        }
    }

    proof fn lemma_inv(&self) {
    }

    proof fn lemma_slack_bound(&self, cache: &Cache, limit: Counter) {
    }

    proof fn lemma_limit_moves(&self, cache: &Cache, limit: Counter, later: Counter) {
    }
}

} // verus!
