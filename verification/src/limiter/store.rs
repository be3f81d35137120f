//! governor's keyed rate limiter and the record of what was asked of it.
//!
//! The record can be written here alone, so an outcome stands in it only if governor gave it.
use std::hash::Hash;
use std::num::NonZeroU32;

use governor::clock::{Clock, DefaultClock};
use governor::middleware::StateInformationMiddleware;
use governor::state::keyed::DefaultKeyedStateStore;
use vstd::prelude::*;

use super::{CheckOutcome, LimiterEvent, Reading};
use crate::duration::Duration;

verus! {

#[verifier::external_body]
#[verifier::reject_recursive_types(K)]
struct Store<K: Hash + Eq + Clone> {
    inner: governor::RateLimiter<
        K,
        DefaultKeyedStateStore<K>,
        DefaultClock,
        StateInformationMiddleware,
    >,
}

/// governor's keyed rate limiter, with the middleware that reports remaining capacity, and
/// the record of what was asked of it. The functions named after governor's are the only ones
/// that make or change one.
#[verifier::reject_recursive_types(K)]
pub struct KeyedRateLimiter<K: Hash + Eq + Clone> {
    store: Store<K>,
    burst: Ghost<u32>,
    cell: Ghost<u64>,
    log: Ghost<Seq<LimiterEvent<K>>>,
    readings: Ghost<Seq<Reading>>,
}

impl<K: Hash + Eq + Clone> KeyedRateLimiter<K> {
    /// The burst that governor counts.
    pub closed spec fn burst(&self) -> u32 {
        self.burst@
    }

    /// The nanoseconds in which governor replenishes one request.
    pub closed spec fn cell(&self) -> u64 {
        self.cell@
    }

    /// Everything that was asked of governor, with what it said.
    pub closed spec fn log(&self) -> Seq<LimiterEvent<K>> {
        self.log@
    }

    /// What governor's clock showed at each entry of the record.
    pub closed spec fn readings(&self) -> Seq<Reading> {
        self.readings@
    }
}

/// `governor::RateLimiter::keyed` with `with_middleware`: a limiter without keys for the
/// quota of the given burst and nanoseconds per request. governor adds the product of the two
/// to the time on its clock in 64 bits, so 2^60 nanoseconds, some 36 years, are left for that.
#[verifier::external_body]
pub(super) fn governor_keyed<K: Hash + Eq + Clone>(burst: u32, cell_nanos: u64) -> (l:
    KeyedRateLimiter<K>)
    requires
        burst > 0,
        cell_nanos > 0,
        burst * cell_nanos < 0xF000_0000_0000_0000,
    ensures
        l.burst() == burst,
        l.cell() == cell_nanos,
        l.log() == Seq::<LimiterEvent<K>>::empty(),
        l.readings() == Seq::<Reading>::empty(),
{
    let quota = governor::Quota::with_period(std::time::Duration::from_nanos(cell_nanos)).unwrap()
        .allow_burst(NonZeroU32::new(burst).unwrap());
    let inner = governor::RateLimiter::keyed(quota).with_middleware();
    KeyedRateLimiter {
        store: Store { inner },
        burst: Ghost(burst),
        cell: Ghost(cell_nanos),
        log: Ghost(Seq::empty()),
        readings: Ghost(Seq::empty()),
    }
}

/// `governor::RateLimiter::check_key`, with `remaining_burst_capacity` of an admission and
/// `wait_time_from` now of a refusal. Which of the two comes back depends on the time, and so
/// do the numbers in it. A state that did not exist before always admits, and what remains is
/// counted after the admission.
///
/// The reading is what governor's clock shows at the check, in nanoseconds since the limiter
/// was made, and what it shows when the wait is worked out. governor keeps for each key the
/// latest of the moments `reading + passes since then * cell`, over the requests that passed,
/// and admits while that is no more than the burst ahead of the clock: `timely` says so of
/// the new entry. The clock may go back, so nothing is said of what came before a sweep
/// unless the readings since then go forward.
#[verifier::external_body]
pub(super) fn governor_check_key<K: Hash + Eq + Clone>(
    limiter: &mut KeyedRateLimiter<K>,
    key: &K,
) -> (r: CheckOutcome)
    ensures
        super::answers(old(limiter).burst(), old(limiter).log(), *key, r),
        final(limiter).burst() == old(limiter).burst(),
        final(limiter).cell() == old(limiter).cell(),
        final(limiter).log() == old(limiter).log().push(LimiterEvent::Checked(*key, r)),
        final(limiter).readings().len() == old(limiter).readings().len() + 1,
        final(limiter).readings().drop_last() == old(limiter).readings(),
        crate::tracker::lawful_key::<K>() && old(limiter).log().len() == old(
            limiter,
        ).readings().len() ==> super::timely(
            final(limiter).burst() as nat,
            final(limiter).cell() as nat,
            final(limiter).log(),
            final(limiter).readings(),
            old(limiter).log().len() as int,
        ),
{
    match limiter.store.inner.check_key(key) {
        Ok(state) => CheckOutcome::Admit { remaining: state.remaining_burst_capacity() },
        Err(not_until) => {
            let wait = not_until.wait_time_from(DefaultClock::default().now());
            CheckOutcome::Reject { wait: Duration::new(wait.as_secs(), wait.subsec_nanos()) }
        },
    }
}

/// `governor::RateLimiter::retain_recent`: drops the keys whose state equals a fresh one.
/// Which those are depends on the time.
#[verifier::external_body]
pub(super) fn governor_retain_recent<K: Hash + Eq + Clone>(limiter: &mut KeyedRateLimiter<K>)
    ensures
        final(limiter).burst() == old(limiter).burst(),
        final(limiter).cell() == old(limiter).cell(),
        final(limiter).log() == old(limiter).log().push(LimiterEvent::Swept),
        final(limiter).readings().len() == old(limiter).readings().len() + 1,
        final(limiter).readings().drop_last() == old(limiter).readings(),
{
    limiter.store.inner.retain_recent();
}

/// `governor::RateLimiter::len`: the number of keys in the store. A check adds its key where
/// it is missing, a sweep may remove any, and nothing else changes the number. So it never
/// exceeds the number of keys that were checked.
#[verifier::external_body]
pub(super) fn governor_len<K: Hash + Eq + Clone>(limiter: &KeyedRateLimiter<K>) -> (n: usize)
    ensures
        super::stores(limiter.log(), n),
{
    limiter.store.inner.len()
}

}
