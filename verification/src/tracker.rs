//! Sidecar table of observed keys: hit counts for `top_n`, and a stamp per key for
//! least-recently-touched eviction.
//!
//! governor's keyed store offers neither iteration nor removal of one key, so the keys
//! that a limiter has seen are recorded here as well. With `max_keys` the table is bounded
//! by it; without, by a fixed budget, so that monitoring cannot grow without bound.
use std::collections::{BTreeMap, HashMap};
use std::fmt::Debug;
use std::hash::Hash;

use vstd::prelude::*;
use vstd::std_specs::hash::obeys_key_model;

use crate::util::debug_text;

verus! {

broadcast use {
    vstd::std_specs::hash::group_hash_axioms,
    vstd::std_specs::btree::group_btree_axioms,
    vstd::seq_lib::group_seq_properties,
};

/// Number of keys kept when no `max_keys` is configured.
pub const DEFAULT_TRACKER_CAP: usize = 65_536;

/// Number of touches after which the 64-bit stamps start over.
pub open spec fn stamp_count() -> nat {
    0x1_0000_0000_0000_0000
}

/// What the tables need of a key type: it obeys the hash-table model of the standard
/// library, and a clone equals what it was cloned from.
pub open spec fn lawful_key<K: Clone>() -> bool {
    &&& obeys_key_model::<K>()
    &&& forall|a: K, b: K| #[trigger] cloned::<K>(a, b) ==> a == b
}

/// Stamp of the last touch and number of touches of one key.
pub struct KeyState {
    pub seq: u64,
    pub hits: u64,
}

/// Why a touch dropped a key.
#[derive(Clone, Copy, Debug, PartialEq, Eq, Structural)]
pub enum EvictionReason {
    MaxKeys,
    TrackerBudget,
}

/// Outcome of a single touch: the key that it dropped, and why.
pub struct TouchOutcome<K> {
    pub evicted: Option<K>,
    pub reason: Option<EvictionReason>,
}

/// Whether `key` has an entry in `t`.
pub open spec fn tracks<K>(t: Seq<(K, u64)>, key: K) -> bool {
    exists|i: int| 0 <= i < t.len() && (#[trigger] t[i]).0 == key
}

/// Position of the entry of `key` in `t`.
pub open spec fn place_of<K>(t: Seq<(K, u64)>, key: K) -> int {
    choose|i: int| 0 <= i < t.len() && (#[trigger] t[i]).0 == key
}

/// One hit more, stopping at the largest count.
pub open spec fn one_more(hits: u64) -> u64 {
    if hits == u64::MAX {
        u64::MAX
    } else {
        (hits + 1) as u64
    }
}

/// `t` with `key` moved to the back and one hit added to it.
pub open spec fn promoted<K>(t: Seq<(K, u64)>, key: K) -> Seq<(K, u64)> {
    if tracks(t, key) {
        t.remove(place_of(t, key)).push((key, one_more(t[place_of(t, key)].1)))
    } else {
        t.push((key, 1u64))
    }
}

/// `t` after a touch of `key` in a table of at most `cap` keys.
pub open spec fn touched<K>(t: Seq<(K, u64)>, key: K, cap: nat) -> Seq<(K, u64)> {
    if promoted(t, key).len() > cap {
        promoted(t, key).drop_first()
    } else {
        promoted(t, key)
    }
}

/// `t` without the entry of `key`.
pub open spec fn forgotten<K>(t: Seq<(K, u64)>, key: K) -> Seq<(K, u64)> {
    if tracks(t, key) {
        t.remove(place_of(t, key))
    } else {
        t
    }
}

/// No key has two entries in `t`.
pub open spec fn distinct_keys<K>(t: Seq<(K, u64)>) -> bool {
    forall|i: int, j: int| 0 <= i < j < t.len() ==> (#[trigger] t[i]).0 != (#[trigger] t[j]).0
}

/// Hit counts do not rise along `s`.
pub open spec fn falling<T>(s: Seq<(T, u64)>) -> bool {
    forall|i: int, j: int| 0 <= i < j < s.len() ==> (#[trigger] s[i]).1 >= (#[trigger] s[j]).1
}

/// The smaller of two numbers.
pub open spec fn least(a: nat, b: nat) -> nat {
    if a < b {
        a
    } else {
        b
    }
}

/// `top` is the front of `all` sorted by falling hit count, cut to `n` entries. Entries
/// with equal counts may come in any order.
pub open spec fn ranked<T>(all: Seq<(T, u64)>, n: nat, top: Seq<(T, u64)>) -> bool {
    exists|sorted: Seq<(T, u64)>|
        {
            &&& #[trigger] sorted.to_multiset() == all.to_multiset()
            &&& falling(sorted)
            &&& top == sorted.take(least(n, all.len()) as int)
        }
}

/// The key type is lawful and so few touches do not make the stamps start over.
pub open spec fn orderly<K: Clone>(touches: nat) -> bool {
    lawful_key::<K>() && touches < stamp_count()
}

/// `top` is what a table shows of its `n` hottest keys after so many touches: their hit counts
/// in falling order, each beside the `Debug` form of the key.
pub open spec fn table_shows<K: Clone + Debug>(
    table: Seq<(K, u64)>,
    touches: nat,
    n: nat,
    top: Seq<(String, u64)>,
) -> bool {
    &&& top.len() <= n
    &&& touches == 0 ==> top.len() == 0
    &&& orderly::<K>(touches) ==> exists|keys: Seq<(K, u64)>|
        {
            &&& #[trigger] ranked(table, n, keys)
            &&& top.len() == keys.len()
            &&& forall|i: int|
                0 <= i < top.len() ==> (#[trigger] top[i]).1 == keys[i].1 && crate::util::reads(
                    keys[i].0,
                    top[i].0,
                )
        }
}

/// Largest number of keys in a table with the given bound.
pub open spec fn room(max_keys: Option<usize>) -> nat {
    match max_keys {
        Some(n) => n as nat,
        None => DEFAULT_TRACKER_CAP as nat,
    }
}

/// Sort `entries` by falling hit count: `slice::sort_unstable_by_key` with the count as
/// its key, reversed. The sort permutes the entries and leaves their counts in falling
/// order; where counts are equal it promises no order.
#[verifier::external_body]
pub(crate) fn sort_by_hits<T>(entries: &mut Vec<(T, u64)>)
    ensures
        final(entries)@.to_multiset() == old(entries)@.to_multiset(),
        falling(final(entries)@),
{
    entries.sort_unstable_by_key(|e| std::cmp::Reverse(e.1));
}

/// Two strictly rising sequences with the same elements are equal.
proof fn lemma_rising_unique(a: Seq<u64>, b: Seq<u64>)
    requires
        forall|i: int, j: int| 0 <= i < j < a.len() ==> a[i] < a[j],
        forall|i: int, j: int| 0 <= i < j < b.len() ==> b[i] < b[j],
        forall|s: u64| a.contains(s) <==> b.contains(s),
    ensures
        a == b,
    decreases a.len(),
{
    if a.len() == 0 {
        if b.len() > 0 {
            assert(b.contains(b[0]));
        }
        assert(a =~= b);
    } else {
        assert(a.contains(a[0]));
        let i = choose|i: int| 0 <= i < b.len() && b[i] == a[0];
        assert(b.contains(b[0]));
        let j = choose|j: int| 0 <= j < a.len() && a[j] == b[0];
        assert(a[0] == b[0]);
        let at = a.drop_first();
        let bt = b.drop_first();
        assert forall|s: u64| at.contains(s) <==> bt.contains(s) by {
            if at.contains(s) {
                let k = choose|k: int| 0 <= k < at.len() && at[k] == s;
                assert(a[k + 1] == s);
                assert(a.contains(s));
                let m = choose|m: int| 0 <= m < b.len() && b[m] == s;
                assert(bt[m - 1] == s);
            }
            if bt.contains(s) {
                let k = choose|k: int| 0 <= k < bt.len() && bt[k] == s;
                assert(b[k + 1] == s);
                assert(b.contains(s));
                let m = choose|m: int| 0 <= m < a.len() && a[m] == s;
                assert(at[m - 1] == s);
            }
        }
        lemma_rising_unique(at, bt);
        assert(a =~= seq![a[0]] + at);
        assert(b =~= seq![b[0]] + bt);
    }
}

/// Table of the keys that one limiter has seen.
///
/// Its view lists the keys with their hit counts, the least recently touched first.
#[verifier::reject_recursive_types(K)]
pub struct KeyTracker<K: Hash + Eq + Clone + Debug + Send + Sync + 'static> {
    by_key: HashMap<K, KeyState>,
    by_seq: BTreeMap<u64, K>,
    next_seq: u64,
    max_keys: Option<usize>,
    tracker_cap: usize,
    order: Ghost<Seq<u64>>,
    touches: Ghost<nat>,
}

impl<K: Hash + Eq + Clone + Debug + Send + Sync + 'static> KeyTracker<K> {
    /// Keys and hit counts, the least recently touched key first.
    pub closed spec fn view(&self) -> Seq<(K, u64)> {
        Seq::new(
            self.order@.len(),
            |i: int| (self.by_seq@[self.order@[i]], self.by_key@[self.by_seq@[self.order@[i]]].hits),
        )
    }

    /// Largest number of keys in the table.
    pub closed spec fn cap(&self) -> nat {
        self.tracker_cap as nat
    }

    /// The configured bound, where there is one.
    pub closed spec fn limit(&self) -> Option<usize> {
        self.max_keys
    }

    /// Number of touches so far.
    pub closed spec fn touch_count(&self) -> nat {
        self.touches@
    }

    /// `top` is what the table shows of its `n` hottest keys: their hit counts in falling
    /// order, each beside the `Debug` form of the key.
    pub open spec fn shows(&self, n: nat, top: Seq<(String, u64)>) -> bool {
        table_shows(self@, self.touch_count(), n, top)
    }

    /// The key type is lawful and the stamps have not started over.
    pub open spec fn in_order(&self) -> bool {
        orderly::<K>(self.touch_count())
    }

    spec fn tables_agree(&self) -> bool {
        &&& forall|i: int, j: int| 0 <= i < j < self.order@.len() ==> self.order@[i] < self.order@[j]
        &&& forall|i: int|
            0 <= i < self.order@.len() ==> #[trigger] self.order@[i] < self.touches@
                && self.by_seq@.contains_key(self.order@[i])
        &&& forall|s: u64| #[trigger] self.by_seq@.contains_key(s) ==> self.order@.contains(s)
        &&& forall|s: u64| #[trigger]
            self.by_seq@.contains_key(s) ==> self.by_key@.contains_key(self.by_seq@[s])
                && self.by_key@[self.by_seq@[s]].seq == s
        &&& forall|k: K| #[trigger]
            self.by_key@.contains_key(k) ==> self.by_seq@.contains_key(self.by_key@[k].seq)
                && self.by_seq@[self.by_key@[k].seq] == k
        &&& self.by_key@.len() == self.order@.len()
        &&& self.by_key@.dom().finite()
    }

    /// The two tables hold the same keys, at most `cap` of them.
    pub closed spec fn wf(&self) -> bool {
        &&& self.tracker_cap == (match self.max_keys {
            Some(n) => n,
            None => DEFAULT_TRACKER_CAP,
        })
        &&& self.touches@ == 0 ==> self.by_seq@.dom() == Set::<u64>::empty()
        &&& self.in_order() ==> {
            &&& self.tables_agree()
            &&& self.order@.len() <= self.tracker_cap
            &&& self.next_seq == self.touches@
        }
    }

    /// An empty table, bounded by `max_keys` or by the default budget.
    pub fn new(max_keys: Option<usize>) -> (t: Self)
        ensures
            t.wf(),
            t@ == Seq::<(K, u64)>::empty(),
            t.limit() == max_keys,
            t.touch_count() == 0,
    {
        let tracker_cap: usize = match max_keys {
            Some(n) => n,
            None => DEFAULT_TRACKER_CAP,
        };
        let t = KeyTracker {
            by_key: HashMap::new(),
            by_seq: BTreeMap::new(),
            next_seq: 0,
            max_keys,
            tracker_cap,
            order: Ghost(Seq::empty()),
            touches: Ghost(0nat),
        };
        assert(t@ =~= Seq::<(K, u64)>::empty());
        t
    }

    /// The bound follows from the configuration, and the table keeps to it.
    pub proof fn keeps_to_its_bound(&self)
        requires
            self.wf(),
        ensures
            self.cap() == room(self.limit()),
            self.in_order() ==> self@.len() <= self.cap() && distinct_keys(self@),
    {
        if self.in_order() {
            assert forall|i: int, j: int| 0 <= i < j < self@.len() implies (#[trigger] self@[i]).0
                != (#[trigger] self@[j]).0 by {
                assert(self.order@[i] < self.order@[j]);
                assert(self.by_seq@.contains_key(self.order@[i]));
                assert(self.by_seq@.contains_key(self.order@[j]));
            }
        }
    }

    /// Position of `key` in the view is the position of its stamp.
    proof fn lemma_place(&self, key: K)
        requires
            self.tables_agree(),
        ensures
            self.by_key@.contains_key(key) <==> tracks(self@, key),
            self.by_key@.contains_key(key) ==> {
                &&& 0 <= place_of(self@, key) < self.order@.len()
                &&& self.order@[place_of(self@, key)] == self.by_key@[key].seq
                &&& self@[place_of(self@, key)] == (key, self.by_key@[key].hits)
            },
    {
        if self.by_key@.contains_key(key) {
            let s = self.by_key@[key].seq;
            assert(self.by_seq@.contains_key(s));
            assert(self.order@.contains(s));
            let i = choose|i: int| 0 <= i < self.order@.len() && self.order@[i] == s;
            assert(self@[i].0 == key);
            let p = place_of(self@, key);
            assert(self.by_seq@.contains_key(self.order@[p]));
            assert(self.by_key@[self.by_seq@[self.order@[p]]].seq == self.order@[p]);
        }
        if tracks(self@, key) {
            let p = place_of(self@, key);
            assert(self.by_seq@.contains_key(self.order@[p]));
        }
    }

    /// Record an access for `key`; the least recently touched key leaves when the table
    /// grows past its bound.
    ///
    /// Hands back the key that left. A bound from `max_keys` and the default budget give
    /// different reasons, so that a caller knows when to sweep the limiter.
    pub fn touch(&mut self, key: &K) -> (out: TouchOutcome<K>)
        requires
            old(self).wf(),
        ensures
            final(self).wf(),
            final(self).limit() == old(self).limit(),
            final(self).touch_count() == old(self).touch_count() + 1,
            old(self).in_order() ==> final(self)@ == touched(old(self)@, *key, old(self).cap()),
            old(self).in_order() ==> out.reason == (if promoted(old(self)@, *key).len()
                > old(self).cap() {
                Some(
                    if old(self).limit() is Some {
                        EvictionReason::MaxKeys
                    } else {
                        EvictionReason::TrackerBudget
                    },
                )
            } else {
                None::<EvictionReason>
            }),
            old(self).in_order() ==> out.evicted == (if promoted(old(self)@, *key).len() > old(
                self,
            ).cap() {
                Some(promoted(old(self)@, *key)[0].0)
            } else {
                None::<K>
            }),
            out.reason is None ==> out.evicted is None,
            old(self).limit() is None ==> out.reason != Some(EvictionReason::MaxKeys),
            old(self).limit() is Some ==> out.reason != Some(EvictionReason::TrackerBudget),
    {
        let ghost start = *self;
        let seq: u64 = self.next_seq;
        self.next_seq = self.next_seq.wrapping_add(1);
        let (stored, hits): (K, u64) = match self.by_key.remove(key) {
            Some(state) => {
                let hits: u64 = if state.hits < u64::MAX {
                    state.hits + 1
                } else {
                    u64::MAX
                };
                // The key that came first stays, whatever a later equal one looks like.
                match self.by_seq.remove(&state.seq) {
                    Some(first) => (first, hits),
                    None => (key.clone(), hits),
                }
            },
            None => (key.clone(), 1),
        };
        let stamped = stored.clone();
        self.by_key.insert(stored, KeyState { seq, hits });
        self.by_seq.insert(seq, stamped);
        proof {
            assert(cloned::<K>(stored, stamped));
            if start.in_order() {
                if start.by_key@.contains_key(*key) {
                    assert(start.by_seq@.contains_key(start.by_key@[*key].seq));
                    assert(stored == key);
                } else {
                    assert(cloned::<K>(*key, stored));
                }
            }
            self.touches = Ghost(start.touches@ + 1);
            if start.in_order() {
                start.lemma_place(*key);
                let p = place_of(start@, *key);
                if start.by_key@.contains_key(*key) {
                    self.order = Ghost(start.order@.remove(p).push(seq));
                } else {
                    self.order = Ghost(start.order@.push(seq));
                }
                self.lemma_promoted(start, *key);
            }
        }
        if self.by_key.len() > self.tracker_cap {
            let reason = match self.max_keys {
                Some(_) => EvictionReason::MaxKeys,
                None => EvictionReason::TrackerBudget,
            };
            let evicted: Option<K> = self.pop_oldest();
            TouchOutcome { evicted, reason: Some(reason) }
        } else {
            TouchOutcome { evicted: None, reason: None }
        }
    }

    /// The tables after the two inserts of a touch.
    proof fn lemma_promoted(&self, start: Self, key: K)
        requires
            start.wf(),
            start.in_order(),
            self.touches@ == start.touches@ + 1,
            ({
                let hits = if start.by_key@.contains_key(key) {
                    one_more(start.by_key@[key].hits)
                } else {
                    1u64
                };
                self.by_key@ == start.by_key@.remove(key).insert(
                    key,
                    KeyState { seq: start.next_seq, hits },
                )
            }),
            start.by_key@.contains_key(key) ==> self.by_seq@ == start.by_seq@.remove(
                start.by_key@[key].seq,
            ).insert(start.next_seq, key),
            !start.by_key@.contains_key(key) ==> self.by_seq@ == start.by_seq@.insert(
                start.next_seq,
                key,
            ),
            self.order@ == (if start.by_key@.contains_key(key) {
                start.order@.remove(place_of(start@, key)).push(start.next_seq)
            } else {
                start.order@.push(start.next_seq)
            }),
        ensures
            self.tables_agree(),
            self@ == promoted(start@, key),
    {
        start.lemma_place(key);
        let p = place_of(start@, key);
        let seq = start.next_seq;
        assert(!start.by_seq@.contains_key(seq)) by {
            if start.by_seq@.contains_key(seq) {
                let i = choose|i: int| 0 <= i < start.order@.len() && start.order@[i] == seq;
                assert(start.order@[i] < start.touches@);
            }
        }
        assert forall|s: u64| #[trigger] self.by_seq@.contains_key(s) implies self.order@.contains(s) by {
            if s == seq {
                assert(self.order@[self.order@.len() - 1] == seq);
            } else {
                let i = choose|i: int| 0 <= i < start.order@.len() && start.order@[i] == s;
                if start.by_key@.contains_key(key) {
                    if i < p {
                        assert(self.order@[i] == s);
                    } else {
                        assert(self.order@[i - 1] == s);
                    }
                } else {
                    assert(self.order@[i] == s);
                }
            }
        }
        assert(self.tables_agree());
        assert(self@ =~= promoted(start@, key));
    }

    /// The stamps in use, in rising order, are the stamps in order of touch.
    proof fn lemma_all_stamps(&self, stamps: Seq<&u64>)
        requires
            self.tables_agree(),
            stamps.unref().to_set() == self.by_seq@.dom(),
            vstd::std_specs::btree::increasing_seq(stamps),
        ensures
            stamps.unref() == self.order@,
    {
        broadcast use vstd::laws_eq::group_laws_eq;

        reveal(vstd::laws_eq::obeys_eq_spec_properties);
        reveal(vstd::laws_cmp::obeys_partial_cmp_spec_properties);
        reveal(vstd::laws_cmp::obeys_cmp_partial_ord);
        reveal(vstd::laws_cmp::obeys_cmp_ord);
        assert(vstd::laws_cmp::obeys_cmp::<&u64>());
        let rising = stamps.unref();
        assert forall|i: int, j: int| 0 <= i < j < rising.len() implies rising[i] < rising[j] by {
            assert(vstd::std_specs::cmp::OrdSpec::cmp_spec(&stamps[i], &stamps[j]) is Less);
        }
        assert forall|s: u64| rising.contains(s) <==> self.order@.contains(s) by {
            assert(rising.contains(s) <==> rising.to_set().contains(s));
            assert(rising.to_set().contains(s) <==> self.by_seq@.contains_key(s));
        }
        lemma_rising_unique(rising, self.order@);
    }

    /// There is one stamp per key.
    proof fn lemma_stamp_count(&self)
        requires
            self.tables_agree(),
        ensures
            self.by_seq@.dom().len() == self.order@.len(),
    {
        self.order@.unique_seq_to_set();
        assert(self.by_seq@.dom() =~= self.order@.to_set());
    }

    /// The tables after the oldest key has left both.
    proof fn lemma_popped(&self, start: Self)
        requires
            start.tables_agree(),
            start.order@.len() > 0,
            self.touches == start.touches,
            self.by_seq@ == start.by_seq@.remove(start.order@[0]),
            self.by_key@ == start.by_key@.remove(start.by_seq@[start.order@[0]]),
            self.order@ == start.order@.drop_first(),
        ensures
            self.tables_agree(),
            self@ == start@.drop_first(),
    {
        let low = start.order@[0];
        assert(start.by_seq@.contains_key(low));
        assert forall|s: u64| #[trigger] self.by_seq@.contains_key(s) implies self.order@.contains(s) by {
            let i = choose|i: int| 0 <= i < start.order@.len() && start.order@[i] == s;
            assert(self.order@[i - 1] == s);
        }
        assert(self@ =~= start@.drop_first());
    }

    /// Drop the least recently touched key and hand it back.
    fn pop_oldest(&mut self) -> (oldest_key: Option<K>)
        ensures
            final(self).max_keys == old(self).max_keys,
            final(self).tracker_cap == old(self).tracker_cap,
            final(self).next_seq == old(self).next_seq,
            final(self).touches == old(self).touches,
            lawful_key::<K>() && old(self).tables_agree() && old(self).order@.len() > 0 ==> {
                &&& final(self).tables_agree()
                &&& oldest_key == Some(old(self)@[0].0)
                &&& final(self)@ == old(self)@.drop_first()
                &&& final(self).order@ == old(self).order@.drop_first()
            },
    {
        let ghost start = *self;
        let mut oldest: Option<u64> = None;
        for s in stamps: self.by_seq.keys()
            invariant_except_break
                stamps.index() == 0,
                stamps.seq().unref().to_set() == self.by_seq@.dom(),
                vstd::std_specs::btree::increasing_seq(stamps.seq()),
                oldest is None,
            invariant
                *self == start,
            ensures
                start.tables_agree() && start.order@.len() > 0 ==> oldest == Some(start.order@[0]),
        {
            oldest = Some(*s);
            proof {
                if start.tables_agree() && start.order@.len() > 0 {
                    start.lemma_all_stamps(stamps.seq());
                    assert(stamps.seq().unref()[0] == *s);
                }
            }
            break;
        }
        let oldest_key: Option<K> = match oldest {
            Some(oldest_seq) => self.by_seq.remove(&oldest_seq),
            None => None,
        };
        if let Some(k) = &oldest_key {
            self.by_key.remove(k);
        }
        proof {
            if lawful_key::<K>() && start.tables_agree() && start.order@.len() > 0 {
                self.order = Ghost(start.order@.drop_first());
                assert(start.by_seq@.contains_key(start.order@[0]));
                self.lemma_popped(start);
            }
        }
        oldest_key
    }

    /// Number of keys in the table.
    pub fn key_count(&self) -> (n: usize)
        requires
            self.wf(),
        ensures
            self.in_order() ==> n == self@.len(),
    {
        self.by_key.len()
    }

    /// Remove `key` from the table.
    pub fn forget(&mut self, key: &K)
        requires
            old(self).wf(),
        ensures
            final(self).wf(),
            final(self).limit() == old(self).limit(),
            final(self).touch_count() == old(self).touch_count(),
            old(self).in_order() ==> final(self)@ == forgotten(old(self)@, *key),
    {
        let ghost start = *self;
        if let Some(state) = self.by_key.remove(key) {
            self.by_seq.remove(&state.seq);
        }
        proof {
            if start.touches@ == 0 {
                assert(self.by_seq@.dom() =~= Set::<u64>::empty());
            }
            if start.in_order() {
                start.lemma_place(*key);
                let p = place_of(start@, *key);
                if start.by_key@.contains_key(*key) {
                    self.order = Ghost(start.order@.remove(p));
                    assert forall|s: u64| #[trigger] self.by_seq@.contains_key(s) implies self.order@.contains(s) by {
                        let i = choose|i: int| 0 <= i < start.order@.len() && start.order@[i] == s;
                        if i < p {
                            assert(self.order@[i] == s);
                        } else {
                            assert(self.order@[i - 1] == s);
                        }
                    }
                    assert(self.tables_agree());
                    assert(self@ =~= start@.remove(p));
                }
            }
        }
    }

    /// The `n` keys with the most hits, in falling order of hits.
    pub fn hottest(&self, n: usize) -> (top: Vec<(K, u64)>)
        requires
            self.wf(),
        ensures
            top@.len() <= n,
            self.touch_count() == 0 ==> top@.len() == 0,
            self.in_order() ==> ranked(self@, n as nat, top@),
    {
        let mut all: Vec<(K, u64)> = Vec::new();
        proof {
            if self.in_order() {
                self.lemma_stamp_count();
            }
        }
        for stamp in stamps: self.by_seq.keys()
            invariant
                stamps.seq().unref().to_set() == self.by_seq@.dom(),
                vstd::std_specs::btree::increasing_seq(stamps.seq()),
                self.in_order() ==> all@ == self@.take(stamps.index()) && stamps.seq().len()
                    == self.order@.len(),
                self.touch_count() == 0 ==> all@.len() == 0,
                self.wf(),
        {
            proof {
                assert(stamps.seq().unref()[stamps.index()] == *stamp);
                assert(stamps.seq().unref().to_set().contains(*stamp));
            }
            if let Some(key) = self.by_seq.get(stamp) {
                if let Some(state) = self.by_key.get(key) {
                    let copy = key.clone();
                    proof {
                        assert(cloned::<K>(*key, copy));
                    }
                    all.push((copy, state.hits));
                }
            }
            proof {
                if self.in_order() {
                    let i = stamps.index();
                    self.lemma_all_stamps(stamps.seq());
                    assert(stamps.seq().unref()[i] == *stamp);
                    assert(self.by_seq@.contains_key(self.order@[i]));
                    assert(all@ =~= self@.take(i + 1));
                }
            }
        }
        let ghost listed = all@;
        sort_by_hits(&mut all);
        let ghost sorted = all@;
        all.truncate(n);
        proof {
            sorted.to_multiset_ensures();
            listed.to_multiset_ensures();
            if self.in_order() {
                assert(listed =~= self@);
                assert(all@ =~= sorted.take(least(n as nat, self@.len()) as int));
            }
        }
        all
    }

    /// The `n` hottest keys in falling order of hits, each in its `Debug` form.
    pub fn top_n(&self, n: usize) -> (top: Vec<(String, u64)>)
        requires
            self.wf(),
        ensures
            self.shows(n as nat, top@),
    {
        let keys: Vec<(K, u64)> = self.hottest(n);
        let mut top: Vec<(String, u64)> = Vec::new();
        let mut i: usize = 0;
        while i < keys.len()
            invariant
                i <= keys@.len(),
                top@.len() == i,
                forall|j: int|
                    0 <= j < i ==> (#[trigger] top@[j]).1 == keys@[j].1 && crate::util::reads(
                        keys@[j].0,
                        top@[j].0,
                    ),
            decreases keys@.len() - i,
        {
            let text: String = debug_text(&keys[i].0);
            assert(crate::util::reads(keys@[i as int].0, text));
            top.push((text, keys[i].1));
            i = i + 1;
        }
        top
    }
}

/// A touch leaves the touched key in a table that has room for any key at all, as the last
/// one to be dropped.
pub proof fn touched_key_is_dropped_last<K>(t: Seq<(K, u64)>, key: K, cap: nat)
    requires
        cap > 0,
    ensures
        touched(t, key, cap).len() > 0,
        touched(t, key, cap).last().0 == key,
        tracks(touched(t, key, cap), key),
{
    let p = promoted(t, key);
    assert(p.last().0 == key);
    if p.len() > cap {
        assert(p.drop_first().last() == p.last());
    }
    assert(touched(t, key, cap)[touched(t, key, cap).len() - 1].0 == key);
}

/// A touch drops at most one key, and that is the least recently touched of the others.
pub proof fn eviction_takes_the_oldest<K>(t: Seq<(K, u64)>, key: K, cap: nat)
    requires
        distinct_keys(t),
        t.len() > 0,
        t[0].0 != key,
        promoted(t, key).len() > cap,
    ensures
        promoted(t, key)[0] == t[0],
        touched(t, key, cap) == promoted(t, key).drop_first(),
        !tracks(touched(t, key, cap), t[0].0),
{
    lemma_promoted_distinct(t, key);
    let p = promoted(t, key);
    if tracks(t, key) {
        assert(place_of(t, key) != 0);
    }
    assert(p[0] == t[0]);
    if tracks(p.drop_first(), t[0].0) {
        let i = choose|i: int|
            0 <= i < p.drop_first().len() && (#[trigger] p.drop_first()[i]).0 == t[0].0;
        assert(p[i + 1].0 == p[0].0);
    }
}

proof fn lemma_promoted_distinct<K>(t: Seq<(K, u64)>, key: K)
    requires
        distinct_keys(t),
    ensures
        distinct_keys(promoted(t, key)),
{
    let p = promoted(t, key);
    if tracks(t, key) {
        let at = place_of(t, key);
        assert forall|i: int, j: int| 0 <= i < j < p.len() implies (#[trigger] p[i]).0 != (
        #[trigger] p[j]).0 by {
            let a = if i < at {
                i
            } else {
                i + 1
            };
            assert(p[i] == t[a]);
            if j < p.len() - 1 {
                let b = if j < at {
                    j
                } else {
                    j + 1
                };
                assert(p[j] == t[b]);
            } else {
                assert(a != at);
                assert(t[at].0 == key);
            }
        }
    } else {
        assert forall|i: int, j: int| 0 <= i < j < p.len() implies (#[trigger] p[i]).0 != (
        #[trigger] p[j]).0 by {
            assert(p[i] == t[i]);
            if j < t.len() {
                assert(p[j] == t[j]);
            }
        }
    }
}

/// A bound that holds goes on holding, and no key gets two entries.
pub proof fn touching_keeps_the_bound<K>(t: Seq<(K, u64)>, key: K, cap: nat)
    requires
        distinct_keys(t),
        t.len() <= cap,
    ensures
        touched(t, key, cap).len() <= cap,
        distinct_keys(touched(t, key, cap)),
{
    lemma_promoted_distinct(t, key);
    let p = promoted(t, key);
    if p.len() > cap {
        assert forall|i: int, j: int| 0 <= i < j < p.drop_first().len() implies (
        #[trigger] p.drop_first()[i]).0 != (#[trigger] p.drop_first()[j]).0 by {
            assert(p[i + 1].0 != p[j + 1].0);
        }
    }
}

/// Touching a tracked key again drops nothing and adds one hit to it.
pub proof fn touching_again_counts_one_hit<K>(t: Seq<(K, u64)>, key: K, cap: nat)
    requires
        distinct_keys(t),
        t.len() <= cap,
        tracks(t, key),
    ensures
        touched(t, key, cap).len() == t.len(),
        touched(t, key, cap).last() == (key, one_more(t[place_of(t, key)].1)),
{
}

/// A forgotten key is gone, and no other key is.
pub proof fn forgotten_key_is_gone<K>(t: Seq<(K, u64)>, key: K, other: K)
    requires
        distinct_keys(t),
    ensures
        !tracks(forgotten(t, key), key),
        other != key ==> (tracks(forgotten(t, key), other) <==> tracks(t, other)),
{
    if tracks(t, key) {
        let at = place_of(t, key);
        let f = t.remove(at);
        if tracks(f, key) {
            let i = choose|i: int| 0 <= i < f.len() && (#[trigger] f[i]).0 == key;
            let a = if i < at {
                i
            } else {
                i + 1
            };
            assert(f[i] == t[a]);
            assert(t[a].0 == t[at].0);
        }
        if other != key {
            if tracks(t, other) {
                let i = choose|i: int| 0 <= i < t.len() && (#[trigger] t[i]).0 == other;
                let a = if i < at {
                    i
                } else {
                    i - 1
                };
                assert(f[a] == t[i]);
            }
            if tracks(f, other) {
                let i = choose|i: int| 0 <= i < f.len() && (#[trigger] f[i]).0 == other;
                let a = if i < at {
                    i
                } else {
                    i + 1
                };
                assert(t[a] == f[i]);
            }
        }
    }
}

/// A ranking is as long as it can be, falls, and leaves nothing out that is hotter than what
/// it holds.
pub proof fn ranking_holds_the_hottest<T>(all: Seq<(T, u64)>, n: nat, top: Seq<(T, u64)>)
    requires
        ranked(all, n, top),
    ensures
        top.len() == least(n, all.len()),
        falling(top),
        forall|i: int| 0 <= i < top.len() ==> all.contains(#[trigger] top[i]),
        forall|x: (T, u64), i: int|
            #[trigger] all.contains(x) && !top.contains(x) && 0 <= i < top.len() ==> x.1 <= (
            #[trigger] top[i]).1,
{
    let sorted = choose|sorted: Seq<(T, u64)>|
        {
            &&& #[trigger] sorted.to_multiset() == all.to_multiset()
            &&& falling(sorted)
            &&& top == sorted.take(least(n, all.len()) as int)
        };
    sorted.to_multiset_ensures();
    all.to_multiset_ensures();
    assert forall|i: int| 0 <= i < top.len() implies all.contains(#[trigger] top[i]) by {
        assert(sorted.contains(sorted[i]));
        assert(sorted.to_multiset().contains(sorted[i]));
        assert(all.to_multiset().contains(sorted[i]));
    }
    assert forall|x: (T, u64), i: int|
        #[trigger] all.contains(x) && !top.contains(x) && 0 <= i < top.len() implies x.1 <= (
    #[trigger] top[i]).1 by {
        assert(all.to_multiset().contains(x));
        assert(sorted.to_multiset().contains(x));
        assert(sorted.contains(x));
        let j = choose|j: int| 0 <= j < sorted.len() && sorted[j] == x;
        if j < top.len() {
            assert(top[j] == x);
        }
        assert(sorted[i].1 >= sorted[j].1);
    }
}

/// A touch moves the touched key to the back, with one hit more than it had, and keeps the
/// other entries as they are and in their order.
pub proof fn a_touch_moves_one_key<K>(t: Seq<(K, u64)>, key: K, cap: nat, i: int)
    requires
        distinct_keys(t),
        t.len() <= cap,
        0 <= i < t.len(),
        t[i].0 == key,
    ensures
        touched(t, key, cap) == (t.take(i) + t.skip(i + 1)).push(
            (
                key,
                if t[i].1 == u64::MAX {
                    u64::MAX
                } else {
                    (t[i].1 + 1) as u64
                },
            ),
        ),
{
    assert(tracks(t, key));
    let at = place_of(t, key);
    if at < i {
        assert(t[at].0 != t[i].0);
    } else if i < at {
        assert(t[i].0 != t[at].0);
    }
    assert(t.remove(i) =~= t.take(i) + t.skip(i + 1));
}

/// A key that is not tracked joins at the back with one hit; only where the table is full does
/// the entry at the front go.
pub proof fn a_new_key_joins_at_the_back<K>(t: Seq<(K, u64)>, key: K, cap: nat)
    requires
        t.len() <= cap,
        forall|i: int| 0 <= i < t.len() ==> (#[trigger] t[i]).0 != key,
    ensures
        t.len() < cap ==> touched(t, key, cap) == t.push((key, 1u64)),
        t.len() == cap && cap > 0 ==> touched(t, key, cap) == t.drop_first().push((key, 1u64)),
        cap == 0 ==> touched(t, key, cap).len() == 0,
{
    assert(!tracks(t, key));
    if t.len() == cap && cap > 0 {
        assert(t.push((key, 1u64)).drop_first() =~= t.drop_first().push((key, 1u64)));
    }
}

/// A table is bounded by what was configured, and by 65536 keys where nothing was.
pub proof fn a_table_has_a_bound(n: usize)
    ensures
        room(Some(n)) == n,
        room(None) == 65_536,
{
}

/// A ranking is as long as asked for, as far as there are entries.
pub proof fn a_ranking_is_as_long_as_asked<T>(all: Seq<(T, u64)>, n: nat, top: Seq<(T, u64)>)
    requires
        ranked(all, n, top),
    ensures
        n <= all.len() ==> top.len() == n,
        n > all.len() ==> top.len() == all.len(),
        top.len() == all.len() ==> top.to_multiset() == all.to_multiset(),
{
    ranking_holds_the_hottest(all, n, top);
    let sorted = choose|sorted: Seq<(T, u64)>|
        {
            &&& #[trigger] sorted.to_multiset() == all.to_multiset()
            &&& falling(sorted)
            &&& top == sorted.take(least(n, all.len()) as int)
        };
    sorted.to_multiset_ensures();
    all.to_multiset_ensures();
    assert(sorted.take(sorted.len() as int) =~= sorted);
}

/// Forgetting a key takes its entry out and leaves the others as they are and in their order.
pub proof fn forgetting_takes_one_entry_out<K>(t: Seq<(K, u64)>, key: K, i: int)
    requires
        distinct_keys(t),
    ensures
        0 <= i < t.len() && t[i].0 == key ==> forgotten(t, key) == t.take(i) + t.skip(i + 1),
        (forall|j: int| 0 <= j < t.len() ==> (#[trigger] t[j]).0 != key) ==> forgotten(t, key) == t,
{
    if 0 <= i < t.len() && t[i].0 == key {
        assert(tracks(t, key));
        let at = place_of(t, key);
        if at < i {
            assert(t[at].0 != t[i].0);
        } else if i < at {
            assert(t[i].0 != t[at].0);
        }
        assert(t.remove(i) =~= t.take(i) + t.skip(i + 1));
    }
}

/// Lawful keys are kept in order until the stamps of a table start over after 2^64 touches.
pub proof fn tables_are_in_order_while_stamps_last<K: Clone>(touches: nat)
    ensures
        orderly::<K>(touches) <==> lawful_key::<K>() && touches < 0x1_0000_0000_0000_0000,
{
}

/// What a table in order shows is as much as was asked for, as far as there are keys, with
/// falling hit counts, each that of a key whose text stands beside it.
pub proof fn a_table_shows_its_hottest_keys<K: Clone + Debug>(
    table: Seq<(K, u64)>,
    touches: nat,
    n: nat,
    top: Seq<(String, u64)>,
    i: int,
    j: int,
)
    requires
        table_shows(table, touches, n, top),
        orderly::<K>(touches),
    ensures
        n <= table.len() ==> top.len() == n,
        n > table.len() ==> top.len() == table.len(),
        0 <= i < j < top.len() ==> top[i].1 >= top[j].1,
        0 <= i < top.len() ==> exists|k: int|
            0 <= k < table.len() && (#[trigger] table[k]).1 == top[i].1 && crate::util::reads(
                table[k].0,
                top[i].0,
            ),
{
    let keys = choose|keys: Seq<(K, u64)>|
        {
            &&& #[trigger] ranked(table, n, keys)
            &&& top.len() == keys.len()
            &&& forall|i: int|
                0 <= i < top.len() ==> (#[trigger] top[i]).1 == keys[i].1 && crate::util::reads(
                    keys[i].0,
                    top[i].0,
                )
        };
    a_ranking_is_as_long_as_asked(table, n, keys);
    ranking_holds_the_hottest(table, n, keys);
    if 0 <= i < j < top.len() {
        assert(top[i].1 == keys[i].1 && top[j].1 == keys[j].1);
    }
    if 0 <= i < top.len() {
        assert(top[i].1 == keys[i].1);
        assert(table.contains(keys[i]));
        let k = choose|k: int| 0 <= k < table.len() && table[k] == keys[i];
        assert(table[k].1 == top[i].1);
    }
}

}
