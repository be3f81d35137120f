//! Rate quotas.
use std::num::NonZeroU32;

use vstd::prelude::*;

use crate::duration::{Duration, NANOS_PER_SEC};

verus! {

/// A rate quota: a burst size and the interval in which one request is replenished.
#[derive(Clone, Copy, Debug, PartialEq, Eq, Hash, Structural)]
pub struct Quota {
    burst: u32,
    interval: Duration,
}

/// `governor::Quota::per_second`: the burst is `n` and one request comes back every
/// n-th part of a second, in whole nanoseconds. Given as burst and nanoseconds.
#[verifier::external_body]
fn governor_per_second(n: u32) -> (r: (u32, u64))
    requires
        n > 0,
    ensures
        r.0 == n,
        r.1 == NANOS_PER_SEC as nat / n as nat,
{
    let q = governor::Quota::per_second(NonZeroU32::new(n).unwrap());
    (q.burst_size().get(), q.replenish_interval().as_nanos() as u64)
}

/// `governor::Quota::per_minute`: as per second, over sixty seconds.
#[verifier::external_body]
fn governor_per_minute(n: u32) -> (r: (u32, u64))
    requires
        n > 0,
    ensures
        r.0 == n,
        r.1 == 60 * NANOS_PER_SEC as nat / n as nat,
{
    let q = governor::Quota::per_minute(NonZeroU32::new(n).unwrap());
    (q.burst_size().get(), q.replenish_interval().as_nanos() as u64)
}

/// `governor::Quota::per_hour`: as per second, over 3600 seconds.
#[verifier::external_body]
fn governor_per_hour(n: u32) -> (r: (u32, u64))
    requires
        n > 0,
    ensures
        r.0 == n,
        r.1 == 3600 * NANOS_PER_SEC as nat / n as nat,
{
    let q = governor::Quota::per_hour(NonZeroU32::new(n).unwrap());
    (q.burst_size().get(), q.replenish_interval().as_nanos() as u64)
}

/// `governor::Quota::with_period`: a quota of burst one that replenishes in the given
/// interval, here a whole number of seconds. There is none for an interval of zero.
#[verifier::external_body]
fn governor_with_period(secs: u64) -> (r: Option<(u32, u64)>)
    ensures
        r == (if secs == 0 {
            None
        } else {
            Some((1u32, secs))
        }),
{
    let q = governor::Quota::with_period(std::time::Duration::from_secs(secs))?;
    Some((q.burst_size().get(), q.replenish_interval().as_secs()))
}

impl Quota {
    /// Number of requests that one burst may hold.
    pub closed spec fn burst_limit(&self) -> u32 {
        self.burst
    }

    /// Interval in which one request is replenished.
    pub closed spec fn period(&self) -> Duration {
        self.interval
    }

    /// The burst holds at least one request and the interval is well-formed.
    pub open spec fn wf(&self) -> bool {
        self.burst_limit() > 0 && self.period().wf()
    }

    /// Nanoseconds that a limiter counts per request: the interval, and at least one.
    pub open spec fn cell(&self) -> nat {
        if self.period().total() == 0 {
            1
        } else {
            self.period().total()
        }
    }

    /// A limiter can count this quota: the time in which the whole burst is replenished and
    /// 36 years of time that passes fit into 64 bits of nanoseconds.
    pub open spec fn usable(&self) -> bool {
        self.wf() && self.burst_limit() * self.cell() < 0xF000_0000_0000_0000
    }

    /// The quota is determined by its burst and the length of its interval.
    pub proof fn lemma_determined(a: Quota, b: Quota)
        requires
            a.wf(),
            b.wf(),
            a.burst_limit() == b.burst_limit(),
            a.period().total() == b.period().total(),
        ensures
            a == b,
    {
        Duration::lemma_total_determines(a.interval, b.interval);
    }

    /// A quota of the given burst and interval.
    pub fn from_parts(burst: u32, interval: Duration) -> (q: Quota)
        requires
            burst > 0,
            interval.wf(),
        ensures
            q.wf(),
            q.burst_limit() == burst,
            q.period() == interval,
    {
        Quota { burst, interval }
    }

    /// Allow at most `n` requests per second, with burst equal to `n`.
    pub fn requests_per_second(n: u32) -> (q: Quota)
        requires
            n > 0,
        ensures
            q.usable(),
            q.burst_limit() == n,
            q.period().total() == NANOS_PER_SEC as nat / n as nat,
    {
        let (burst, nanos) = governor_per_second(n);
        proof {
            lemma_shares(NANOS_PER_SEC as nat, n as nat);
        }
        Quota { burst, interval: Duration::from_nanos(nanos) }
    }

    /// Allow at most `n` requests per minute, with burst equal to `n`.
    pub fn requests_per_minute(n: u32) -> (q: Quota)
        requires
            n > 0,
        ensures
            q.usable(),
            q.burst_limit() == n,
            q.period().total() == 60 * NANOS_PER_SEC as nat / n as nat,
    {
        let (burst, nanos) = governor_per_minute(n);
        proof {
            lemma_shares(60 * NANOS_PER_SEC as nat, n as nat);
        }
        Quota { burst, interval: Duration::from_nanos(nanos) }
    }

    /// Allow at most `n` requests per hour, with burst equal to `n`.
    pub fn requests_per_hour(n: u32) -> (q: Quota)
        requires
            n > 0,
        ensures
            q.usable(),
            q.burst_limit() == n,
            q.period().total() == 3600 * NANOS_PER_SEC as nat / n as nat,
    {
        let (burst, nanos) = governor_per_hour(n);
        proof {
            lemma_shares(3600 * NANOS_PER_SEC as nat, n as nat);
        }
        Quota { burst, interval: Duration::from_nanos(nanos) }
    }

    /// Allow one request per `n` seconds, with burst 1.
    pub fn seconds_per_request(n: u32) -> (q: Quota)
        requires
            n > 0,
        ensures
            q.usable(),
            q.burst_limit() == 1,
            q.period().total() == n as nat * NANOS_PER_SEC as nat,
    {
        let (burst, secs) = governor_with_period(n as u64).unwrap();
        Quota { burst, interval: Duration::from_secs(secs) }
    }

    /// Override the burst capacity to `n` while keeping the replenishment rate unchanged.
    pub fn burst(self, n: u32) -> (q: Quota)
        requires
            self.wf(),
            n > 0,
        ensures
            q.wf(),
            q.burst_limit() == n,
            q.period() == self.period(),
    {
        Quota { burst: n, interval: self.interval }
    }

    /// Number of requests that one burst may hold.
    pub fn burst_size(&self) -> (n: u32)
        ensures
            n == self.burst_limit(),
    {
        self.burst
    }

    /// Interval in which one request is replenished.
    pub fn replenish_interval(&self) -> (d: Duration)
        ensures
            d == self.period(),
    {
        self.interval
    }

    /// Nanoseconds that a limiter counts per request.
    pub(crate) fn cell_nanos(&self) -> (n: u64)
        requires
            self.usable(),
        ensures
            n == self.cell(),
            n > 0,
    {
        proof {
            lemma_cell_fits(self.burst as nat, self.cell());
        }
        let total: u128 = self.interval.as_nanos();
        if total == 0 {
            1
        } else {
            total as u64
        }
    }

    /// Whether a limiter can count this quota.
    pub fn is_usable(&self) -> (r: bool)
        ensures
            r == self.usable(),
    {
        if self.burst == 0 || self.interval.subsec_nanos() as u64 >= NANOS_PER_SEC {
            return false;
        }
        let total: u128 = self.interval.as_nanos();
        let cell: u128 = if total == 0 {
            1
        } else {
            total
        };
        proof {
            lemma_whole_fits(self.burst as nat, cell as nat);
        }
        self.burst as u128 * cell < 0xF000_0000_0000_0000
    }
}

proof fn lemma_shares(whole: nat, n: nat)
    requires
        0 < n <= u32::MAX,
        whole <= 3600 * NANOS_PER_SEC,
    ensures
        n * (whole / n) <= whole,
        n * (if whole / n == 0 { 1 } else { whole / n }) < 0xF000_0000_0000_0000,
{
    vstd::arithmetic::div_mod::lemma_fundamental_div_mod(whole as int, n as int);
}

proof fn lemma_cell_fits(burst: nat, cell: nat)
    requires
        burst > 0,
        burst * cell < 0xF000_0000_0000_0000,
    ensures
        cell < 0xF000_0000_0000_0000,
{
    assert(cell <= burst * cell) by (nonlinear_arith)
        requires
            burst > 0,
    ;
}

proof fn lemma_whole_fits(burst: nat, cell: nat)
    requires
        burst <= u32::MAX,
        cell <= u64::MAX * NANOS_PER_SEC + u32::MAX,
    ensures
        burst * cell <= u128::MAX,
{
    assert(burst * cell <= 0xffff_ffff * (0xffff_ffff_ffff_ffff * 1_000_000_000 + 0xffff_ffff))
        by (nonlinear_arith)
        requires
            burst <= 0xffff_ffff,
            cell <= 0xffff_ffff_ffff_ffff * 1_000_000_000 + 0xffff_ffff,
    ;
}

/// A limiter counts the whole interval of a quota for each request, and a nanosecond where
/// the interval is shorter.
pub proof fn a_request_costs_its_interval(q: Quota)
    ensures
        q.cell() >= 1,
        q.period().total() >= 1 ==> q.cell() == q.period().total(),
        q.period().total() == 0 ==> q.cell() == 1,
{
}

/// A quota whose burst is replenished in less than 2^63 nanoseconds can be counted, and one
/// that takes 2^64 or more cannot.
pub proof fn a_burst_of_292_years_can_be_counted(q: Quota)
    requires
        q.wf(),
    ensures
        q.period().total() > 0 && q.burst_limit() * q.period().total() < 0x8000_0000_0000_0000
            ==> q.usable(),
        q.period().total() == 0 ==> q.usable(),
        q.burst_limit() * q.period().total() >= 0x1_0000_0000_0000_0000 ==> !q.usable(),
{
    let (b, c, t) = (q.burst_limit() as int, q.cell() as int, q.period().total() as int);
    assert(c == 1 ==> b * c == b) by (nonlinear_arith);
    assert(t == 0 ==> b * t == 0) by (nonlinear_arith);
}

}
