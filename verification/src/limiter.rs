//! One keyed limiter: governor's rate limiter with its quota, and a record of what was
//! asked of it.
mod store;

use std::fmt::Debug;
use std::hash::Hash;
use std::num::NonZeroU32;

use governor::middleware::StateInformationMiddleware;
use vstd::prelude::*;

pub use self::store::KeyedRateLimiter;
use self::store::{governor_check_key, governor_keyed, governor_len, governor_retain_recent};
use crate::duration::Duration;
use crate::quota::Quota;

verus! {

/// What a limiter said of one request.
#[derive(Clone, Copy, Debug, PartialEq, Eq, Structural)]
pub enum CheckOutcome {
    /// The request passes; so many more would pass right now.
    Admit { remaining: u32 },
    /// The request is refused; another may pass after this time.
    Reject { wait: Duration },
}

impl CheckOutcome {
    /// A wait is a well-formed span of time.
    pub open spec fn wf(&self) -> bool {
        self matches CheckOutcome::Reject { wait } ==> wait.wf()
    }
}

/// Something that was asked of a limiter.
pub enum LimiterEvent<K> {
    /// A request was checked under the key, with this outcome.
    Checked(K, CheckOutcome),
    /// Stale keys were dropped.
    Swept,
}

/// The event is a request that was checked under `key`.
pub open spec fn is_check_of<K>(event: LimiterEvent<K>, key: K) -> bool {
    event matches LimiterEvent::Checked(k, _) && k == key
}

/// The keys under which requests were checked.
pub open spec fn keys_of<K>(log: Seq<LimiterEvent<K>>) -> Set<K>
    decreases log.len(),
{
    if log.len() == 0 {
        Set::empty()
    } else {
        match log.last() {
            LimiterEvent::Checked(key, _) => keys_of(log.drop_last()).insert(key),
            LimiterEvent::Swept => keys_of(log.drop_last()),
        }
    }
}

/// No request was checked under `key`. Where the key type is not lawful, that is known only
/// if none was checked at all.
pub open spec fn new_to<K: Clone>(log: Seq<LimiterEvent<K>>, key: K) -> bool {
    keys_of(log) == Set::<K>::empty() || (crate::tracker::lawful_key::<K>() && !keys_of(log).contains(key))
}

/// What a limiter of the given burst may answer under `key`. An admission counts itself, so
/// less than the burst remains, and a key that is new to the limiter has all of it.
pub open spec fn answers<K: Clone>(
    burst: u32,
    log: Seq<LimiterEvent<K>>,
    key: K,
    r: CheckOutcome,
) -> bool {
    &&& r.wf()
    &&& r matches CheckOutcome::Admit { remaining } ==> remaining < burst
    &&& new_to(log, key) ==> r == (CheckOutcome::Admit { remaining: (burst - 1) as u32 })
}

/// How many keys a store may hold: no more than were checked, and exactly those while
/// nothing was swept. Where the key type is not lawful, each check may have added one.
pub open spec fn stores<K: Clone>(log: Seq<LimiterEvent<K>>, n: usize) -> bool {
    &&& n <= log.len()
    &&& crate::tracker::lawful_key::<K>() ==> n <= keys_of(log).len()
    &&& crate::tracker::lawful_key::<K>() && (forall|i: int|
        0 <= i < log.len() ==> #[trigger] log[i] is Checked) ==> n == keys_of(log).len()
}

/// What the limiter's clock showed at one entry of its record, in nanoseconds since the limiter
/// was made: at the check, and when the wait of a refusal was worked out.
pub struct Reading {
    pub at: nat,
    pub told: int,
}

/// The entry at `i` is a request under `key` that passed.
pub open spec fn passed<K>(log: Seq<LimiterEvent<K>>, key: K, i: int) -> bool {
    &&& 0 <= i < log.len()
    &&& log[i] matches LimiterEvent::Checked(k, outcome) && k == key && outcome is Admit
}

/// How many requests under `key` passed, from the entry at `from` on.
pub open spec fn passes<K>(log: Seq<LimiterEvent<K>>, key: K, from: int) -> nat
    decreases log.len(),
{
    if log.len() == 0 || log.len() <= from {
        0
    } else {
        passes(log.drop_last(), key, from) + (if passed(log, key, log.len() - 1) {
            1nat
        } else {
            0nat
        })
    }
}

/// The clock does not go back from the entry at `i` on.
pub open spec fn forward(readings: Seq<Reading>, i: int) -> bool {
    forall|j: int, k: int|
        i <= j <= k < readings.len() && 0 <= j ==> (#[trigger] readings[j]).at <= (
        #[trigger] readings[k]).at
}

/// What passed at `i` has not been lost since: there was no sweep, or only such as drop what
/// no longer matters.
pub open spec fn remembered<K>(
    log: Seq<LimiterEvent<K>>,
    readings: Seq<Reading>,
    i: int,
) -> bool {
    ||| forall|j: int| i <= j < log.len() && 0 <= j ==> #[trigger] log[j] is Checked
    ||| forward(readings, i)
}

/// The moment from which the burst has room for one more request, as far as those that passed
/// from the entry at `i` on are concerned.
pub open spec fn room_from<K>(
    burst: nat,
    cell: nat,
    log: Seq<LimiterEvent<K>>,
    readings: Seq<Reading>,
    key: K,
    i: int,
) -> int {
    readings[i].at + (passes(log, key, i) + 1 - burst) * cell
}

/// The entry at `n` is what a limiter says that replenishes one request per `cell` nanoseconds:
/// an admission leaves as much as has room now and no more, and a refusal comes only where
/// there is no room, with the time until there is.
pub open spec fn timely<K>(
    burst: nat,
    cell: nat,
    log: Seq<LimiterEvent<K>>,
    readings: Seq<Reading>,
    n: int,
) -> bool {
    match log[n] {
        LimiterEvent::Swept => true,
        LimiterEvent::Checked(key, CheckOutcome::Admit { remaining }) => {
            let l = log.take(n + 1);
            let t = readings.take(n + 1);
            &&& forall|i: int| #[trigger]
                passed(l, key, i) && remembered(l, t, i) ==> room_from(burst, cell, l, t, key, i)
                    + (remaining - 1) * cell <= readings[n].at
            &&& exists|i: int| #[trigger]
                passed(l, key, i) && room_from(burst, cell, l, t, key, i) + remaining * cell
                    > readings[n].at
        },
        LimiterEvent::Checked(key, CheckOutcome::Reject { wait }) => {
            let l = log.take(n);
            let t = readings.take(n);
            exists|i: int|
                {
                    &&& #[trigger] passed(l, key, i)
                    &&& room_from(burst, cell, l, t, key, i) > readings[n].at
                    &&& wait.total() == (if room_from(burst, cell, l, t, key, i)
                        > readings[n].told {
                        room_from(burst, cell, l, t, key, i) - readings[n].told
                    } else {
                        0
                    })
                }
        },
    }
}

/// Every entry of a record is what a limiter of the given burst says that replenishes one
/// request per `cell` nanoseconds. Where the key type is not lawful, keys cannot be told apart.
pub open spec fn on_time<K: Clone>(
    burst: nat,
    cell: nat,
    log: Seq<LimiterEvent<K>>,
    readings: Seq<Reading>,
) -> bool {
    &&& readings.len() == log.len()
    &&& crate::tracker::lawful_key::<K>() ==> forall|n: int|
        0 <= n < log.len() ==> #[trigger] timely(burst, cell, log, readings, n)
}

/// A record stays on time when an entry that is joins it.
proof fn lemma_on_time_push<K: Clone>(
    burst: nat,
    cell: nat,
    log: Seq<LimiterEvent<K>>,
    readings: Seq<Reading>,
    more: Seq<LimiterEvent<K>>,
    later: Seq<Reading>,
)
    requires
        on_time(burst, cell, log, readings),
        more.len() == log.len() + 1,
        later.len() == more.len(),
        more.drop_last() == log,
        later.drop_last() == readings,
        crate::tracker::lawful_key::<K>() ==> timely(burst, cell, more, later, log.len() as int),
    ensures
        on_time(burst, cell, more, later),
{
    if crate::tracker::lawful_key::<K>() {
        assert forall|n: int| 0 <= n < more.len() implies #[trigger] timely(
            burst,
            cell,
            more,
            later,
            n,
        ) by {
            if n < log.len() {
                assert(timely(burst, cell, log, readings, n));
                assert(more[n] == log[n]);
                assert(later[n] == readings[n]);
                assert(more.take(n + 1) =~= log.take(n + 1));
                assert(later.take(n + 1) =~= readings.take(n + 1));
                assert(more.take(n) =~= log.take(n));
                assert(later.take(n) =~= readings.take(n));
            }
        }
    }
}

/// `governor::RateLimiter::direct`, checked once: a fresh limiter of the given burst and
/// nanoseconds per request admits its first request, and one fewer than the burst remain.
#[verifier::external_body]
fn governor_fresh_remaining(burst: u32, cell_nanos: u64) -> (remaining: u32)
    requires
        burst > 0,
        cell_nanos > 0,
        burst * cell_nanos < 0xF000_0000_0000_0000,
    ensures
        remaining == burst - 1,
{
    let quota = governor::Quota::with_period(std::time::Duration::from_nanos(cell_nanos)).unwrap()
        .allow_burst(NonZeroU32::new(burst).unwrap());
    governor::RateLimiter::direct(quota).with_middleware::<StateInformationMiddleware>().check()
        .unwrap().remaining_burst_capacity()
}

/// Requests that a fresh limiter of `quota` would still admit after its first.
pub fn fresh_remaining(quota: &Quota) -> (remaining: u32)
    requires
        quota.usable(),
    ensures
        remaining == quota.burst_limit() - 1,
{
    governor_fresh_remaining(quota.burst_size(), quota.cell_nanos())
}

/// A limiter with its quota.
#[verifier::reject_recursive_types(K)]
pub struct Limiter<K: Hash + Eq + Clone + Debug + Send + Sync + 'static> {
    inner: KeyedRateLimiter<K>,
    quota: Quota,
}

impl<K: Hash + Eq + Clone + Debug + Send + Sync + 'static> Limiter<K> {
    /// The quota of the limiter.
    pub closed spec fn limit(&self) -> Quota {
        self.quota
    }

    /// Everything that was asked of the limiter, in order.
    pub closed spec fn log(&self) -> Seq<LimiterEvent<K>> {
        self.inner.log()
    }

    /// What the clock showed at each entry of the record.
    pub closed spec fn readings(&self) -> Seq<Reading> {
        self.inner.readings()
    }

    /// The limiter counts its quota: governor has its burst and its time per request, and all
    /// that it ever said is what a limiter of this quota says.
    pub closed spec fn wf(&self) -> bool {
        &&& self.inner.burst() == self.quota.burst_limit()
        &&& self.inner.cell() == self.quota.cell()
        &&& self.counts_quota()
    }

    /// All that the limiter ever said is what a limiter of its quota says.
    pub open spec fn counts_quota(&self) -> bool {
        on_time(
            self.limit().burst_limit() as nat,
            self.limit().cell(),
            self.log(),
            self.readings(),
        )
    }

    /// A limiter in good order has always counted its quota.
    pub proof fn always_counts_its_quota(&self)
        requires
            self.wf(),
        ensures
            self.counts_quota(),
    {
    }

    /// A limiter for `quota` that has seen no request.
    pub fn new(quota: Quota) -> (l: Self)
        requires
            quota.usable(),
        ensures
            l.wf(),
            l.limit() == quota,
            l.log() == Seq::<LimiterEvent<K>>::empty(),
            l.readings() == Seq::<Reading>::empty(),
            l.counts_quota(),
    {
        Limiter { inner: governor_keyed::<K>(quota.burst_size(), quota.cell_nanos()), quota }
    }

    /// The quota of the limiter.
    pub fn quota(&self) -> (q: Quota)
        ensures
            q == self.limit(),
    {
        self.quota
    }

    /// Count one request under `key`.
    pub fn check(&mut self, key: &K) -> (r: CheckOutcome)
        requires
            old(self).wf(),
        ensures
            final(self).wf(),
            answers(old(self).limit().burst_limit(), old(self).log(), *key, r),
            final(self).limit() == old(self).limit(),
            final(self).log() == old(self).log().push(LimiterEvent::Checked(*key, r)),
            final(self).readings().drop_last() == old(self).readings(),
            final(self).counts_quota(),
    {
        let ghost start = *self;
        let r: CheckOutcome = governor_check_key(&mut self.inner, key);
        proof {
            assert(self.log().drop_last() =~= start.log());
            lemma_on_time_push(
                self.limit().burst_limit() as nat,
                self.limit().cell(),
                start.log(),
                start.readings(),
                self.log(),
                self.readings(),
            );
        }
        r
    }

    /// Drop the keys that are no different from new ones.
    pub fn retain_recent(&mut self)
        requires
            old(self).wf(),
        ensures
            final(self).wf(),
            final(self).limit() == old(self).limit(),
            final(self).log() == old(self).log().push(LimiterEvent::Swept),
            final(self).readings().drop_last() == old(self).readings(),
            final(self).counts_quota(),
    {
        let ghost start = *self;
        governor_retain_recent(&mut self.inner);
        proof {
            assert(self.log().drop_last() =~= start.log());
            lemma_on_time_push(
                self.limit().burst_limit() as nat,
                self.limit().cell(),
                start.log(),
                start.readings(),
                self.log(),
                self.readings(),
            );
        }
    }

    /// Number of keys in the store.
    pub fn len(&self) -> (n: usize)
        ensures
            stores(self.log(), n),
    {
        governor_len(&self.inner)
    }
}

/// Keys do not use up each other's budget: whatever else a limiter was asked, a key that is
/// new to it has the whole burst.
pub proof fn a_new_key_has_the_whole_burst<K: Clone>(
    burst: u32,
    log: Seq<LimiterEvent<K>>,
    key: K,
    r: CheckOutcome,
)
    requires
        crate::tracker::lawful_key::<K>(),
        forall|i: int| 0 <= i < log.len() ==> !is_check_of(#[trigger] log[i], key),
        answers(burst, log, key, r),
    ensures
        r == (CheckOutcome::Admit { remaining: (burst - 1) as u32 }),
{
    lemma_unchecked(log, key);
}

proof fn lemma_unchecked<K>(log: Seq<LimiterEvent<K>>, key: K)
    requires
        forall|i: int| 0 <= i < log.len() ==> !is_check_of(#[trigger] log[i], key),
    ensures
        !keys_of(log).contains(key),
    decreases log.len(),
{
    if log.len() > 0 {
        let rest = log.drop_last();
        assert forall|i: int| 0 <= i < rest.len() implies !is_check_of(#[trigger] rest[i], key) by {
            assert(rest[i] == log[i]);
        }
        lemma_unchecked(rest, key);
        assert(!is_check_of(log[log.len() - 1], key));
    }
}

/// The passes from an entry on are those after it and, where it is one, itself.
proof fn lemma_passes_from<K>(log: Seq<LimiterEvent<K>>, key: K, a: int)
    requires
        0 <= a < log.len(),
    ensures
        passes(log, key, a) == passes(log, key, a + 1) + (if passed(log, key, a) {
            1nat
        } else {
            0nat
        }),
    decreases log.len(),
{
    let rest = log.drop_last();
    if a < log.len() - 1 {
        lemma_passes_from(rest, key, a);
        assert(passed(rest, key, a) == passed(log, key, a));
    } else {
        assert(passes(rest, key, a) == 0);
    }
}

/// The first pass from `a` on.
proof fn lemma_first_pass<K>(log: Seq<LimiterEvent<K>>, key: K, a: int) -> (first: int)
    requires
        0 <= a,
        passes(log, key, a) > 0,
    ensures
        a <= first < log.len(),
        passed(log, key, first),
        passes(log, key, first) == passes(log, key, a),
    decreases log.len() - a,
{
    lemma_passes_from(log, key, a);
    if passed(log, key, a) {
        a
    } else {
        lemma_first_pass(log, key, a + 1)
    }
}

/// The last pass from `a` on.
proof fn lemma_last_pass<K>(log: Seq<LimiterEvent<K>>, key: K, a: int) -> (last: int)
    requires
        0 <= a,
        passes(log, key, a) > 0,
    ensures
        a <= last < log.len(),
        passed(log, key, last),
        passes(log.take(last + 1), key, a) == passes(log, key, a),
    decreases log.len(),
{
    if passed(log, key, log.len() - 1) {
        assert(log.take(log.len() as int) =~= log);
        log.len() - 1
    } else {
        let rest = log.drop_last();
        let last = lemma_last_pass(rest, key, a);
        assert(rest.take(last + 1) =~= log.take(last + 1));
        last
    }
}

/// No pass is counted after the last one.
proof fn lemma_passes_cut<K>(log: Seq<LimiterEvent<K>>, key: K, a: int, last: int, i: int)
    requires
        0 <= a <= i <= last < log.len(),
        passes(log.take(last + 1), key, a) == passes(log, key, a),
    ensures
        passes(log.take(last + 1), key, i) == passes(log, key, i),
    decreases i - a,
{
    if a < i {
        lemma_passes_from(log, key, a);
        lemma_passes_from(log.take(last + 1), key, a);
        assert(passed(log.take(last + 1), key, a) == passed(log, key, a));
        lemma_passes_cut(log, key, a + 1, last, i);
    }
}

/// More passes are counted from an earlier entry.
proof fn lemma_passes_more<K>(log: Seq<LimiterEvent<K>>, key: K, a: int, i: int)
    requires
        0 <= a <= i <= log.len(),
    ensures
        passes(log, key, i) <= passes(log, key, a),
    decreases i - a,
{
    if a < i {
        lemma_passes_from(log, key, a);
        lemma_passes_more(log, key, a + 1, i);
    }
}

/// A limiter limits: between two entries of its record, a key passes at most as often as the
/// burst and what is replenished in the time from the first of these passes to the last allow.
/// The clock may go back, unless there was a sweep in between.
pub proof fn no_key_exceeds_its_quota<K: Clone>(
    burst: nat,
    cell: nat,
    log: Seq<LimiterEvent<K>>,
    readings: Seq<Reading>,
    key: K,
    a: int,
    b: int,
    lo: nat,
    hi: nat,
)
    requires
        on_time(burst, cell, log, readings),
        crate::tracker::lawful_key::<K>(),
        cell > 0,
        0 <= a <= b <= log.len(),
        lo <= hi,
        forall|i: int|
            a <= i < b && #[trigger] passed(log, key, i) ==> lo <= readings[i].at <= hi,
        (forall|j: int| a <= j < b ==> #[trigger] log[j] is Checked) || forward(
            readings.take(b),
            a,
        ),
    ensures
        passes(log.take(b), key, a) <= burst + (hi - lo) as nat / cell,
{
    let l = log.take(b);
    let m = passes(l, key, a);
    if m > 0 {
        let first = lemma_first_pass(l, key, a);
        let last = lemma_last_pass(l, key, a);
        lemma_passes_from(l, key, first);
        lemma_none_before_the_first(l, key, a, first, last);
        lemma_passes_cut(l, key, a, last, first);
        let upto = log.take(last + 1);
        let shown = readings.take(last + 1);
        assert(l.take(last + 1) =~= upto);
        assert(passes(upto, key, first) == m);
        assert(passed(log, key, first) && passed(log, key, last));
        assert(passed(upto, key, first));
        assert(timely(burst, cell, log, readings, last));
        assert(remembered(upto, shown, first)) by {
            if forward(readings.take(b), a) {
                assert forall|j: int, k: int|
                    first <= j <= k < shown.len() && 0 <= j implies (#[trigger] shown[j]).at <= (
                #[trigger] shown[k]).at by {
                    assert(readings.take(b)[j].at <= readings.take(b)[k].at);
                }
            } else {
                assert forall|j: int| first <= j < upto.len() && 0 <= j implies #[trigger]
                    upto[j] is Checked by {
                    assert(log[j] is Checked);
                }
            }
        }
        let remaining = log[last]->Checked_1->remaining;
        assert(room_from(burst, cell, upto, shown, key, first) + (remaining - 1) * cell
            <= readings[last].at);
        let d = (hi - lo) as nat;
        let start = readings[first].at;
        assert(shown[first] == readings[first]);
        assert(start + (m + 1 - burst) * cell + (remaining - 1) * cell <= hi);
        assert((m - burst) * cell <= d) by (nonlinear_arith)
            requires
                start + (m + 1 - burst) * cell + (remaining - 1) * cell <= hi,
                lo <= start,
                d == hi - lo,
                remaining >= 0,
                cell > 0,
        ;
        if m > burst {
            assert((m - burst) as nat <= d / cell) by (nonlinear_arith)
                requires
                    (m - burst) * cell <= d,
                    cell > 0,
                    m > burst,
            ;
        }
    }
}

/// No pass is before the first.
proof fn lemma_none_before_the_first<K>(
    log: Seq<LimiterEvent<K>>,
    key: K,
    a: int,
    first: int,
    i: int,
)
    requires
        0 <= a <= first < log.len(),
        a <= i < log.len(),
        passed(log, key, i),
        passes(log, key, first) == passes(log, key, a),
    ensures
        first <= i,
{
    if i < first {
        lemma_passes_more(log, key, a, i);
        lemma_passes_from(log, key, i);
        lemma_passes_more(log, key, i + 1, first);
    }
}

/// A limiter refuses only what is over its quota: on a clock that goes forward, at least the
/// burst has passed under the key before a refusal, and so lately that less was replenished
/// since than would make room.
pub proof fn only_a_used_up_key_is_refused<K: Clone>(
    burst: nat,
    cell: nat,
    log: Seq<LimiterEvent<K>>,
    readings: Seq<Reading>,
    key: K,
    n: int,
) -> (since: int)
    requires
        on_time(burst, cell, log, readings),
        crate::tracker::lawful_key::<K>(),
        cell > 0,
        0 <= n < log.len(),
        log[n] matches LimiterEvent::Checked(k, outcome) && k == key && outcome is Reject,
        forward(readings.take(n + 1), 0),
    ensures
        0 <= since < n,
        passed(log, key, since),
        burst <= passes(log.take(n), key, since) <= passes(log.take(n), key, 0),
        readings[n].at < readings[since].at + (passes(log.take(n), key, since) + 1 - burst) * cell,
{
    assert(timely(burst, cell, log, readings, n));
    let l = log.take(n);
    let t = readings.take(n);
    let i = choose|i: int|
        #[trigger] passed(l, key, i) && room_from(burst, cell, l, t, key, i) > readings[n].at;
    assert(passed(log, key, i));
    lemma_passes_more(l, key, 0, i);
    let m = passes(l, key, i);
    let all = readings.take(n + 1);
    assert(all[i].at <= all[n].at);
    assert(t[i] == readings[i]);
    assert(m >= burst) by (nonlinear_arith)
        requires
            (m + 1 - burst) * cell > 0,
            cell > 0,
    ;
    i
}

/// The first requests of a key pass, as many as the burst, and what remains counts down by no
/// more than one for each.
pub proof fn a_key_has_its_burst<K: Clone>(
    burst: nat,
    cell: nat,
    log: Seq<LimiterEvent<K>>,
    readings: Seq<Reading>,
    key: K,
    n: int,
)
    requires
        on_time(burst, cell, log, readings),
        crate::tracker::lawful_key::<K>(),
        cell > 0,
        0 <= n < log.len(),
        log[n] matches LimiterEvent::Checked(k, _) && k == key,
        forward(readings.take(n + 1), 0),
        passes(log.take(n), key, 0) < burst,
    ensures
        log[n] matches LimiterEvent::Checked(_, CheckOutcome::Admit { remaining }) && remaining
            >= burst - 1 - passes(log.take(n), key, 0),
{
    if let LimiterEvent::Checked(_, outcome) = log[n] {
        if outcome is Reject {
            let since = only_a_used_up_key_is_refused(burst, cell, log, readings, key, n);
        } else {
            let remaining = outcome->remaining;
            assert(timely(burst, cell, log, readings, n));
            let l = log.take(n + 1);
            let t = readings.take(n + 1);
            let i = choose|i: int|
                #[trigger] passed(l, key, i) && room_from(burst, cell, l, t, key, i) + remaining
                    * cell > readings[n].at;
            lemma_passes_more(l, key, 0, i);
            assert(l.drop_last() =~= log.take(n));
            assert(t[i].at <= t[n].at);
            let m = passes(l, key, i);
            assert(m + 1 + remaining > burst) by (nonlinear_arith)
                requires
                    (m + 1 - burst) * cell + remaining * cell > 0,
                    cell > 0,
            ;
        }
    }
}

/// What remains after an admission is never more than has room: on a clock that goes forward,
/// so many more requests at the same moment and those that passed before stay within the
/// quota.
pub proof fn what_remains_has_room<K: Clone>(
    burst: nat,
    cell: nat,
    log: Seq<LimiterEvent<K>>,
    readings: Seq<Reading>,
    key: K,
    remaining: u32,
    i: int,
    n: int,
)
    requires
        on_time(burst, cell, log, readings),
        crate::tracker::lawful_key::<K>(),
        0 <= i <= n < log.len(),
        log[n] == LimiterEvent::Checked(key, CheckOutcome::Admit { remaining }),
        passed(log, key, i),
        forward(readings.take(n + 1), 0),
    ensures
        (passes(log.take(n + 1), key, i) + remaining) * cell <= burst * cell + (readings[n].at
            - readings[i].at),
{
    let l = log.take(n + 1);
    let t = readings.take(n + 1);
    assert(timely(burst, cell, log, readings, n));
    assert(passed(l, key, i));
    assert(remembered(l, t, i)) by {
        assert forall|j: int, k: int| i <= j <= k < t.len() && 0 <= j implies (
        #[trigger] t[j]).at <= (#[trigger] t[k]).at by {}
    }
    let m = passes(l, key, i);
    assert((m + 1 - burst) * cell + (remaining - 1) * cell == (m + remaining) * cell - burst * cell)
        by (nonlinear_arith);
}

/// The wait of a refusal is at most the time in which one request is replenished, on a clock
/// that goes forward.
pub proof fn a_wait_is_at_most_one_interval<K: Clone>(
    burst: nat,
    cell: nat,
    log: Seq<LimiterEvent<K>>,
    readings: Seq<Reading>,
    key: K,
    wait: Duration,
    n: int,
)
    requires
        on_time(burst, cell, log, readings),
        crate::tracker::lawful_key::<K>(),
        cell > 0,
        0 <= n < log.len(),
        log[n] == LimiterEvent::Checked(key, CheckOutcome::Reject { wait }),
        forward(readings.take(n + 1), 0),
        readings[n].at <= readings[n].told,
    ensures
        wait.total() <= cell,
{
    assert(timely(burst, cell, log, readings, n));
    let l = log.take(n);
    let t = readings.take(n);
    let i = choose|i: int|
        {
            &&& #[trigger] passed(l, key, i)
            &&& room_from(burst, cell, l, t, key, i) > readings[n].at
            &&& wait.total() == (if room_from(burst, cell, l, t, key, i) > readings[n].told {
                room_from(burst, cell, l, t, key, i) - readings[n].told
            } else {
                0
            })
        };
    lemma_passes_from(l, key, i);
    let last = lemma_last_pass(l, key, i);
    let upto = log.take(last + 1);
    let shown = readings.take(last + 1);
    assert(l.take(last + 1) =~= upto);
    assert(passed(log, key, last));
    assert(passed(upto, key, i));
    let all = readings.take(n + 1);
    assert(timely(burst, cell, log, readings, last));
    assert(remembered(upto, shown, i)) by {
        assert forall|j: int, k: int| i <= j <= k < shown.len() && 0 <= j implies (
        #[trigger] shown[j]).at <= (#[trigger] shown[k]).at by {
            assert(all[j].at <= all[k].at);
        }
    }
    let remaining = log[last]->Checked_1->remaining;
    assert(shown[i] == t[i]);
    assert(room_from(burst, cell, upto, shown, key, i) == room_from(burst, cell, l, t, key, i));
    assert(all[last].at <= all[n].at);
    assert((remaining - 1) * cell >= -(cell as int)) by (nonlinear_arith)
        requires
            remaining >= 0,
            cell > 0,
    ;
}

/// A check beyond the quota is refused: where as many requests of a key have passed as the
/// burst and the time replenish, the next in that time is rejected.
pub proof fn a_check_beyond_the_quota_is_refused<K: Clone>(
    burst: nat,
    cell: nat,
    log: Seq<LimiterEvent<K>>,
    readings: Seq<Reading>,
    key: K,
    a: int,
    b: int,
    lo: nat,
    hi: nat,
)
    requires
        on_time(burst, cell, log, readings),
        crate::tracker::lawful_key::<K>(),
        cell > 0,
        0 <= a <= b < log.len(),
        lo <= hi,
        forall|i: int|
            a <= i < b && #[trigger] passed(log, key, i) ==> lo <= readings[i].at <= hi,
        lo <= readings[b].at <= hi,
        forward(readings.take(b + 1), a),
        log[b] matches LimiterEvent::Checked(k, _) && k == key,
        passes(log.take(b), key, a) >= burst + (hi - lo) as nat / cell,
    ensures
        log[b] matches LimiterEvent::Checked(_, outcome) && outcome is Reject,
{
    if passed(log, key, b) {
        assert forall|i: int| a <= i < b + 1 && #[trigger] passed(log, key, i) implies lo
            <= readings[i].at <= hi by {}
        no_key_exceeds_its_quota(burst, cell, log, readings, key, a, b + 1, lo, hi);
        let l = log.take(b + 1);
        assert(l.drop_last() =~= log.take(b));
        assert(passed(l, key, l.len() - 1));
    }
}

/// The keys of a record are those under which a request was checked, and no others.
pub proof fn keys_are_those_checked<K>(log: Seq<LimiterEvent<K>>, key: K)
    ensures
        keys_of(log).contains(key) <==> exists|i: int|
            0 <= i < log.len() && is_check_of(#[trigger] log[i], key),
    decreases log.len(),
{
    if log.len() > 0 {
        let front = log.drop_last();
        keys_are_those_checked(front, key);
        let last = log.len() - 1;
        if is_check_of(log[last], key) {
            assert(keys_of(log).contains(key));
        }
        if exists|i: int| 0 <= i < front.len() && is_check_of(#[trigger] front[i], key) {
            let i = choose|i: int| 0 <= i < front.len() && is_check_of(#[trigger] front[i], key);
            assert(is_check_of(log[i], key));
        }
        if exists|i: int| 0 <= i < log.len() && is_check_of(#[trigger] log[i], key) {
            let i = choose|i: int| 0 <= i < log.len() && is_check_of(#[trigger] log[i], key);
            if i < last {
                assert(is_check_of(front[i], key));
            }
        }
    }
}

}
