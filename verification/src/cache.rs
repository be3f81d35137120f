//! Per-quota limiter cache for tier overrides.
//!
//! State is not shared across quotas: a key that changes tier mid-session starts a fresh
//! bucket with a full burst for the new quota.
use std::fmt::Debug;
use std::hash::Hash;

use dashmap::DashMap;
use vstd::prelude::*;

use crate::limiter::{Limiter, LimiterEvent};
use crate::quota::Quota;

verus! {

/// The concurrent map of the `dashmap` crate.
#[verifier::external_type_specification]
#[verifier::external_body]
#[verifier::reject_recursive_types(K)]
#[verifier::reject_recursive_types(V)]
#[verifier::reject_recursive_types(S)]
pub struct ExDashMap<K, V, S>(dashmap::DashMap<K, V, S>);

/// What a map from burst and nanoseconds to positions holds.
pub uninterp spec fn slot_contents(
    map: dashmap::DashMap<(u32, u64), usize, std::hash::RandomState>,
) -> Map<(u32, u64), usize>;

/// The contents of an empty map.
pub open spec fn no_slots() -> Map<(u32, u64), usize> {
    Map::empty()
}

/// `DashMap::new`: a map without entries.
#[verifier::external_body]
fn new_slots() -> (map: DashMap<(u32, u64), usize>)
    ensures
        slot_contents(map) == no_slots(),
{
    DashMap::new()
}

/// `DashMap::get`: the value under the key, if there is one.
#[verifier::external_body]
fn get_slot(map: &DashMap<(u32, u64), usize>, key: (u32, u64)) -> (slot: Option<usize>)
    ensures
        slot == (if slot_contents(*map).contains_key(key) {
            Some(slot_contents(*map)[key])
        } else {
            None
        }),
{
    map.get(&key).map(|entry| *entry.value())
}

/// `DashMap::insert`: the key has the value from now on.
#[verifier::external_body]
fn insert_slot(map: &mut DashMap<(u32, u64), usize>, key: (u32, u64), slot: usize)
    ensures
        slot_contents(*final(map)) == slot_contents(*old(map)).insert(key, slot),
{
    map.insert(key, slot);
}

/// What tells quotas apart: the burst and the interval in nanoseconds.
pub open spec fn slot_key(quota: Quota) -> (u32, u64) {
    (quota.burst_limit(), quota.period().total() as u64)
}

/// One limiter per quota, built when the quota is first asked for.
#[verifier::reject_recursive_types(K)]
pub struct LimiterCache<K: Hash + Eq + Clone + Debug + Send + Sync + 'static> {
    slots: DashMap<(u32, u64), usize>,
    limiters: Vec<Limiter<K>>,
}

impl<K: Hash + Eq + Clone + Debug + Send + Sync + 'static> LimiterCache<K> {
    /// The limiters, in the order in which their quotas were first asked for.
    pub closed spec fn view(&self) -> Seq<Limiter<K>> {
        self.limiters@
    }

    /// Every limiter is found under its own quota, and nothing else is.
    pub closed spec fn wf(&self) -> bool {
        &&& forall|i: int|
            0 <= i < self@.len() ==> {
                &&& (#[trigger] self@[i]).wf()
                &&& self@[i].limit().usable()
                &&& slot_contents(self.slots).contains_key(slot_key(self@[i].limit()))
                &&& slot_contents(self.slots)[slot_key(self@[i].limit())] == i
            }
        &&& forall|k: (u32, u64)| #[trigger]
            slot_contents(self.slots).contains_key(k) ==> {
                &&& slot_contents(self.slots)[k] < self@.len()
                &&& slot_key(self@[slot_contents(self.slots)[k] as int].limit()) == k
            }
    }

    /// The quota has a limiter.
    pub open spec fn caches(&self, quota: Quota) -> bool {
        exists|i: int| 0 <= i < self@.len() && (#[trigger] self@[i]).limit() == quota
    }

    /// The limiter of every override counts its quota.
    pub proof fn every_override_is_counted(&self, i: int)
        requires
            self.wf(),
            0 <= i < self@.len(),
        ensures
            self@[i].counts_quota(),
            self@[i].limit().usable(),
    {
        assert(self@[i].wf());
        self@[i].always_counts_its_quota();
    }

    /// A cache without limiters.
    pub fn new() -> (c: Self)
        ensures
            c.wf(),
            c@.len() == 0,
    {
        LimiterCache { slots: new_slots(), limiters: Vec::new() }
    }

    /// Position of the limiter for `quota`, which is built if there is none yet.
    pub fn get_or_insert(&mut self, quota: Quota) -> (i: usize)
        requires
            old(self).wf(),
            quota.usable(),
        ensures
            final(self).wf(),
            i < final(self)@.len(),
            final(self)@[i as int].limit() == quota,
            old(self).caches(quota) ==> *final(self) == *old(self),
            !old(self).caches(quota) ==> {
                &&& final(self)@.drop_last() == old(self)@
                &&& i == old(self)@.len()
                &&& final(self)@[i as int].log() == Seq::<LimiterEvent<K>>::empty()
            },
    {
        proof {
            lemma_usable_fits(quota);
        }
        let key: (u32, u64) = (
            quota.burst_size(),
            quota.replenish_interval().as_nanos() as u64,
        );
        match get_slot(&self.slots, key) {
            Some(i) => {
                proof {
                    lemma_key_determines(self@[i as int].limit(), quota);
                }
                i
            },
            None => {
                let ghost start = *self;
                let i: usize = self.limiters.len();
                self.limiters.push(Limiter::new(quota));
                insert_slot(&mut self.slots, key, i);
                proof {
                    if start.caches(quota) {
                        let j = choose|j: int|
                            0 <= j < start@.len() && (#[trigger] start@[j]).limit() == quota;
                        assert(slot_contents(start.slots).contains_key(slot_key(start@[j].limit())));
                    }
                    assert(self@.drop_last() =~= start@);
                    assert forall|j: int| 0 <= j < self@.len() implies {
                        &&& (#[trigger] self@[j]).wf()
                        &&& self@[j].limit().usable()
                        &&& slot_contents(self.slots).contains_key(slot_key(self@[j].limit()))
                        &&& slot_contents(self.slots)[slot_key(self@[j].limit())] == j
                    } by {
                        if j < start@.len() {
                            assert(self@[j] == start@[j]);
                        }
                    }
                    assert forall|k: (u32, u64)| #[trigger]
                        slot_contents(self.slots).contains_key(k) implies {
                        &&& slot_contents(self.slots)[k] < self@.len()
                        &&& slot_key(self@[slot_contents(self.slots)[k] as int].limit()) == k
                    } by {
                        if k != key {
                            assert(slot_contents(start.slots).contains_key(k));
                            let p = slot_contents(start.slots)[k] as int;
                            assert(self@[p] == start@[p]);
                        }
                    }
                }
                i
            },
        }
    }

    /// Count one request under `key` with the limiter at `i`.
    pub fn check_at(&mut self, i: usize, key: &K) -> (r: crate::limiter::CheckOutcome)
        requires
            old(self).wf(),
            i < old(self)@.len(),
        ensures
            final(self).wf(),
            crate::limiter::answers(
                old(self)@[i as int].limit().burst_limit(),
                old(self)@[i as int].log(),
                *key,
                r,
            ),
            final(self)@.len() == old(self)@.len(),
            final(self)@[i as int].limit() == old(self)@[i as int].limit(),
            final(self)@[i as int].log() == old(self)@[i as int].log().push(
                LimiterEvent::Checked(*key, r),
            ),
            forall|j: int|
                0 <= j < final(self)@.len() && j != i ==> #[trigger] final(self)@[j] == old(self)@[j],
    {
        let ghost start = *self;
        assert(start@[i as int].wf());
        let r = self.limiters[i].check(key);
        proof {
            assert forall|j: int| 0 <= j < self@.len() implies (#[trigger] self@[j]).wf()
                && self@[j].limit() == start@[j].limit() by {
                assert(start@[j].wf());
            }
            self.lemma_same_limits(start);
        }
        r
    }

    /// Drop stale keys from the limiter at `i`.
    pub fn retain_at(&mut self, i: usize)
        requires
            old(self).wf(),
            i < old(self)@.len(),
        ensures
            final(self).wf(),
            final(self)@.len() == old(self)@.len(),
            final(self)@[i as int].limit() == old(self)@[i as int].limit(),
            final(self)@[i as int].log() == old(self)@[i as int].log().push(LimiterEvent::Swept),
            forall|j: int|
                0 <= j < final(self)@.len() && j != i ==> #[trigger] final(self)@[j] == old(self)@[j],
    {
        let ghost start = *self;
        assert(start@[i as int].wf());
        self.limiters[i].retain_recent();
        proof {
            assert forall|j: int| 0 <= j < self@.len() implies (#[trigger] self@[j]).wf()
                && self@[j].limit() == start@[j].limit() by {
                assert(start@[j].wf());
            }
            self.lemma_same_limits(start);
        }
    }

    proof fn lemma_same_limits(&self, start: Self)
        requires
            start.wf(),
            self.slots == start.slots,
            self@.len() == start@.len(),
            forall|j: int|
                0 <= j < self@.len() ==> (#[trigger] self@[j]).wf() && self@[j].limit()
                    == start@[j].limit(),
        ensures
            self.wf(),
    {
        assert forall|i: int| 0 <= i < self@.len() implies {
            &&& (#[trigger] self@[i]).wf()
            &&& self@[i].limit().usable()
            &&& slot_contents(self.slots).contains_key(slot_key(self@[i].limit()))
            &&& slot_contents(self.slots)[slot_key(self@[i].limit())] == i
        } by {
            assert(start@[i].limit().usable());
        }
    }

    /// Drop stale keys from every limiter.
    pub fn retain_all(&mut self)
        requires
            old(self).wf(),
        ensures
            final(self).wf(),
            final(self)@.len() == old(self)@.len(),
            forall|i: int|
                0 <= i < final(self)@.len() ==> {
                    &&& (#[trigger] final(self)@[i]).limit() == old(self)@[i].limit()
                    &&& final(self)@[i].log() == old(self)@[i].log().push(LimiterEvent::Swept)
                },
    {
        let ghost start = *self;
        let mut i: usize = 0;
        while i < self.limiters.len()
            invariant
                i <= self@.len(),
                self.slots == start.slots,
                start.wf(),
                self@.len() == start@.len(),
                forall|j: int|
                    0 <= j < i ==> {
                        &&& (#[trigger] self@[j]).wf()
                        &&& self@[j].limit() == start@[j].limit()
                        &&& self@[j].log() == start@[j].log().push(LimiterEvent::Swept)
                    },
                forall|j: int| i <= j < self@.len() ==> #[trigger] self@[j] == start@[j],
            decreases self@.len() - i,
        {
            assert(start@[i as int].wf());
            self.limiters[i].retain_recent();
            i = i + 1;
        }
        proof {
            self.lemma_same_limits(start);
        }
    }

    /// Number of keys in each limiter's store.
    pub fn lens(&self) -> (lens: Vec<usize>)
        ensures
            lens@.len() == self@.len(),
            forall|i: int|
                0 <= i < lens@.len() ==> crate::limiter::stores(
                    self@[i].log(),
                    #[trigger] lens@[i],
                ),
    {
        let mut lens: Vec<usize> = Vec::new();
        let mut i: usize = 0;
        while i < self.limiters.len()
            invariant
                i <= self@.len(),
                lens@.len() == i,
                forall|j: int|
                    0 <= j < lens@.len() ==> crate::limiter::stores(
                        self@[j].log(),
                        #[trigger] lens@[j],
                    ),
            decreases self@.len() - i,
        {
            lens.push(self.limiters[i].len());
            i = i + 1;
        }
        lens
    }
}

proof fn lemma_usable_fits(quota: Quota)
    requires
        quota.usable(),
    ensures
        quota.period().total() <= u64::MAX,
{
    let burst = quota.burst_limit() as nat;
    let cell = quota.cell();
    assert(cell <= burst * cell) by (nonlinear_arith)
        requires
            burst > 0,
    ;
}

/// Two usable quotas with one key are one quota.
proof fn lemma_key_determines(a: Quota, b: Quota)
    requires
        a.usable(),
        b.usable(),
        slot_key(a) == slot_key(b),
    ensures
        a == b,
{
    lemma_usable_fits(a);
    lemma_usable_fits(b);
    Quota::lemma_determined(a, b);
}

/// Distinct usable quotas have distinct keys, so they never share a limiter.
pub proof fn distinct_quotas_have_distinct_slots(a: Quota, b: Quota)
    requires
        a.usable(),
        b.usable(),
        a != b,
    ensures
        slot_key(a) != slot_key(b),
{
    if slot_key(a) == slot_key(b) {
        lemma_key_determines(a, b);
    }
}

/// No quota has two limiters.
pub proof fn one_limiter_per_quota<K: Hash + Eq + Clone + Debug + Send + Sync + 'static>(
    cache: LimiterCache<K>,
    i: int,
    j: int,
)
    requires
        cache.wf(),
        0 <= i < cache@.len(),
        0 <= j < cache@.len(),
        cache@[i].limit() == cache@[j].limit(),
    ensures
        i == j,
{
    assert(slot_contents(cache.slots)[slot_key(cache@[i].limit())] == i);
    assert(slot_contents(cache.slots)[slot_key(cache@[j].limit())] == j);
}

}
