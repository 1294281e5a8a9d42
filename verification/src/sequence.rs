//! The claim and commit protocol of one side of a channel.
//!
//! A sequence publishes, in a counter cell, how many slots its side has
//! finished with. An endpoint first claims the next slot against a limit
//! that the other side sets, works on the slot, and then commits the claim,
//! which publishes it. Each endpoint keeps a cache of the limit it last saw,
//! and looks at the limit again only when the cache allows no claim. A
//! cached limit is compared with counters that move on, so it is of use
//! only within a window of the counters' range: the slack of a cache says
//! how many claims of other endpoints it can still sit out.
use vstd::prelude::*;

use crate::counter::{AtomicCounter, Counter, COUNTER_VALID_RANGE};

pub mod competitive;
pub mod owned;
pub mod shared;

pub use self::competitive::Competitive;
pub use self::owned::Owned;
pub use self::shared::Shared;

verus! {

/// How far a limit, or a cached limit, may lie from the counters that are
/// compared with it: half of the range in which counters compare.
pub const CLAIM_WINDOW: usize = COUNTER_VALID_RANGE / 2;

/// A limit that an endpoint saw is of use beside the next claim: it lies
/// between the next claim and the limit, or behind the next claim by less
/// than the window.
pub open spec fn seen_of_use(next: Counter, seen: Counter, limit: Counter) -> bool {
    ||| next.ahead(seen) <= next.ahead(limit)
    ||| 1 <= seen.ahead(next) < CLAIM_WINDOW
}

/// How many more claims may be made before a limit that was seen falls
/// out of use.
pub open spec fn slack_of(next: Counter, seen: Counter, limit: Counter) -> int {
    if next.ahead(seen) <= next.ahead(limit) {
        CLAIM_WINDOW - 1
    } else {
        CLAIM_WINDOW - 1 - seen.ahead(next)
    }
}

/// One claim uses up at most one unit of slack, and leaves of use what
/// had a unit to spare.
pub proof fn lemma_claim_uses_slack(next: Counter, seen: Counter, limit: Counter)
    requires
        !next.is_marked(),
        !seen.is_marked(),
        !limit.is_marked(),
        1 <= next.ahead(limit) < CLAIM_WINDOW,
        seen_of_use(next, seen, limit),
        slack_of(next, seen, limit) >= 1,
    ensures
        seen_of_use(next.plus(1), seen, limit),
        slack_of(next.plus(1), seen, limit) >= slack_of(next, seen, limit) - 1,
{
    reveal(Counter::plus);
    reveal(Counter::ahead);
}

/// The sequence `after` serves every cache that `before` serves, with no
/// less slack.
pub open spec fn keeps<Q: Sequence>(before: &Q, after: &Q) -> bool {
    forall|cache: Q::Cache, limit: Counter| #[trigger]
        before.usable(&cache, limit) ==> after.usable(&cache, limit) && after.slack(&cache, limit)
            >= before.slack(&cache, limit)
}

/// A step of one endpoint, which claims against `limit`, spares the other
/// caches: each that could claim and had a unit of slack can still claim,
/// with at most one unit less.
pub open spec fn spares<Q: Sequence>(before: &Q, after: &Q, limit: Counter) -> bool {
    forall|other: Q::Cache| #[trigger]
        before.usable(&other, limit) && before.slack(&other, limit) >= 1 ==> after.usable(
            &other,
            limit,
        ) && after.slack(&other, limit) >= before.slack(&other, limit) - 1
}

/// Why a sequence gave no cache.
#[derive(Debug, PartialEq, Eq, Structural)]
pub enum CacheError {
    SeqClosed,
    NotAvailable,
}

/// A claim could not be committed: the sequence is closed.
#[derive(Debug, PartialEq, Eq, Structural)]
pub struct CommitError;

/// The counter up to which, and excluding which, a side may claim.
pub trait Limit {
    /// The limit as it stands.
    spec fn limit(&self) -> Counter;

    /// Whether the limit can be read.
    spec fn valid(&self) -> bool;

    /// Reads the limit.
    fn count(&self) -> (c: Counter)
        requires
            self.valid(),
        ensures
            c == self.limit(),
    ;
}

/// One side's claim and commit protocol.
pub trait Sequence: Sized {
    /// What an endpoint keeps between its claims.
    type Cache;

    /// The cell in which the sequence publishes its count.
    spec fn published(&self) -> AtomicCounter;

    /// What holds of a sequence between two steps of its endpoints.
    spec fn inv(&self) -> bool;

    /// Whether the sequence has given out the only cache it can give.
    spec fn cache_taken(&self) -> bool;

    /// `cache` can claim against `limit`.
    spec fn usable(&self, cache: &Self::Cache, limit: Counter) -> bool;

    /// Through `cache`, `count` was claimed against `limit` and waits for
    /// its commit.
    spec fn pending(&self, cache: &Self::Cache, count: Counter, limit: Counter) -> bool;

    /// How many claims of other endpoints a cache of such a sequence can
    /// sit out once it has seen the limit: none where the sequence has a
    /// single endpoint.
    spec fn leeway() -> int;

    /// How many more claims of other endpoints `cache` can sit out and
    /// still claim against `limit`.
    spec fn slack(&self, cache: &Self::Cache, limit: Counter) -> int;

    /// A sequence that has published nothing and has given out no cache.
    fn fresh() -> (s: Self)
        ensures
            s.inv(),
            !s.cache_taken(),
            !s.published().is_closed(),
            s.published().latest() == Counter(0),
    ;

    /// A cache for a new endpoint, filled from `limit`.
    ///
    /// Fails with `NotAvailable` where the only cache is out already, and
    /// with `SeqClosed` where the sequence is closed.
    fn cache<L: Limit>(&mut self, limit: &L) -> (r: Result<Self::Cache, CacheError>)
        requires
            old(self).inv(),
            limit.valid(),
            !limit.limit().is_marked(),
            old(self).published().latest().ahead(limit.limit()) < CLAIM_WINDOW,
        ensures
            final(self).inv(),
            final(self).published() == old(self).published(),
            old(self).cache_taken() ==> final(self).cache_taken(),
            r matches Ok(c) ==> final(self).usable(&c, limit.limit()) && final(self).slack(
                &c,
                limit.limit(),
            ) >= Self::leeway(),
            r is Ok <==> !old(self).cache_taken() && !old(self).published().is_closed(),
            r == Err::<Self::Cache, CacheError>(CacheError::NotAvailable) <==> old(
                self,
            ).cache_taken(),
            forall|other: Self::Cache, l: Counter| #[trigger]
                old(self).usable(&other, l) ==> final(self).usable(&other, l) && final(self).slack(
                    &other,
                    l,
                ) >= old(self).slack(&other, l),
    ;

    /// The cell in which the sequence publishes its count.
    fn counter(&self) -> (c: &AtomicCounter)
        ensures
            *c == self.published(),
    ;

    /// Claims the next slot, if the limit leaves one.
    ///
    /// On an open sequence the claim is the published count, and it is
    /// refused exactly when that count has reached the limit. A claim uses
    /// up one unit of the slack of every other cache.
    fn claim<L: Limit>(&mut self, cache: &mut Self::Cache, limit: &L) -> (r: Option<Counter>)
        requires
            old(self).inv(),
            limit.valid(),
            old(self).usable(old(cache), limit.limit()),
        ensures
            final(self).published() == old(self).published(),
            final(self).cache_taken() == old(self).cache_taken(),
            r matches Some(k) ==> {
                &&& final(self).pending(final(cache), k, limit.limit())
                &&& !k.is_marked()
                &&& old(self).published().latest().ahead(k) < old(self).published().latest().ahead(
                    limit.limit(),
                )
                &&& !old(self).published().is_closed() ==> k == old(self).published().latest()
            },
            r is None ==> {
                &&& final(self).inv()
                &&& final(self).usable(final(cache), limit.limit())
                &&& final(self).slack(final(cache), limit.limit()) >= Self::leeway()
                &&& !old(self).published().is_closed() ==> old(self).published().latest()
                    == limit.limit()
            },
            forall|other: Self::Cache| #[trigger]
                old(self).usable(&other, limit.limit()) && old(self).slack(&other, limit.limit())
                    >= 1 ==> final(self).usable(&other, limit.limit()) && final(self).slack(
                    &other,
                    limit.limit(),
                ) >= old(self).slack(&other, limit.limit()) - 1,
    ;

    /// Publishes the claim `count`.
    ///
    /// Fails exactly when the sequence is closed, and then publishes
    /// nothing.
    fn commit(&mut self, cache: &mut Self::Cache, count: Counter) -> (r: Result<(), CommitError>)
        requires
            exists|limit: Counter| old(self).pending(old(cache), count, limit),
        ensures
            final(self).inv(),
            final(self).cache_taken() == old(self).cache_taken(),
            final(self).published().is_closed() == old(self).published().is_closed(),
            r is Err <==> old(self).published().is_closed(),
            r is Err ==> final(self).published().latest() == old(self).published().latest(),
            r is Ok ==> final(self).published().latest() == old(self).published().latest().plus(1)
                && count == old(self).published().latest(),
            forall|limit: Counter| #[trigger]
                old(self).pending(old(cache), count, limit) && r is Ok ==> final(self).usable(
                    final(cache),
                    limit,
                ) && final(self).slack(final(cache), limit) >= Self::leeway(),
            forall|other: Self::Cache, l: Counter| #[trigger]
                old(self).usable(&other, l) && Self::leeway() >= 1 ==> final(self).usable(
                    &other,
                    l,
                ) && final(self).slack(&other, l) >= old(self).slack(&other, l),
    ;

    /// Closes the sequence: from now on it publishes nothing, and keeps the
    /// count that it published last.
    fn close(&mut self)
        requires
            old(self).inv(),
        ensures
            final(self).inv(),
            final(self).published().is_closed(),
            final(self).published().latest() == old(self).published().latest(),
            final(self).cache_taken() == old(self).cache_taken(),
            forall|other: Self::Cache, l: Counter| #[trigger]
                old(self).usable(&other, l) ==> final(self).usable(&other, l) && final(self).slack(
                    &other,
                    l,
                ) >= old(self).slack(&other, l),
    ;

    /// The published count, or the last one if the sequence is closed.
    fn fetch_last(&self) -> (c: Counter)
        requires
            self.inv(),
        ensures
            c == self.published().latest(),
            !c.is_marked(),
    ;

    /// A sequence between two steps has a cell in order, with an open
    /// counter in it.
    proof fn lemma_inv(&self)
        requires
            self.inv(),
        ensures
            self.published().wf(),
            !self.published().latest().is_marked(),
    ;

    /// No cache has more slack than the leeway.
    proof fn lemma_slack_bound(&self, cache: &Self::Cache, limit: Counter)
        ensures
            self.slack(cache, limit) <= Self::leeway(),
    ;

    /// A cache that can claim against a limit can claim against every
    /// later limit within the window: steps of the other side take no
    /// cache out of use.
    proof fn lemma_limit_moves(&self, cache: &Self::Cache, limit: Counter, later: Counter)
        requires
            self.inv(),
            self.usable(cache, limit),
            !later.is_marked(),
            self.published().latest().ahead(limit) <= self.published().latest().ahead(later)
                < CLAIM_WINDOW,
        ensures
            self.usable(cache, later),
            self.slack(cache, later) >= self.slack(cache, limit),
    ;
}

/// Sequences that can have more than one caches at the same time.
pub trait MultiCache: Sequence {
    /// Such a sequence never runs out of caches.
    proof fn lemma_caches_left(&self)
        requires
            self.inv(),
        ensures
            !self.cache_taken(),
    ;
}

} // verus!
