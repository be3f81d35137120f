//! Live introspection for the layer's limiter state.
use std::fmt::Debug;
use std::hash::Hash;

use vstd::hash_map::StringHashMap;
use vstd::prelude::*;

use crate::layer::LimiterShared;
use crate::tracker::sort_by_hits;

verus! {

broadcast use vstd::seq_lib::group_seq_properties;

/// Handle for read-only inspection of the running limiter set.
#[verifier::reject_recursive_types(K)]
pub struct LimiterHandle<'a, K: Hash + Eq + Clone + Debug + Send + Sync + 'static> {
    pub shared: &'a LimiterShared<K>,
}

/// Snapshot of the limiter's runtime state. Intended for monitoring; values are
/// point-in-time.
///
/// `top_n` is sourced from the trackers, not from governor's keyed store, which cannot be
/// iterated. As a consequence:
///   * Keys appear in `top_n` only after they have been touched at least once.
///   * Hit counts are tracked per key and saturate at `u64::MAX`.
///   * When `max_keys` is set, a tracker bounds itself to that value. When unset, it uses an
///     internal budget and evicts the least recently touched entries after the budget is
///     reached. This keeps `top_n` approximate instead of letting monitoring state grow
///     without bound.
#[derive(Clone, Debug)]
pub struct LimiterSnapshot {
    pub key_count: usize,
    /// Best-effort estimate; computed as key_count * per_entry + constant_overhead.
    pub approx_bytes: usize,
    /// Top-N most-active keys (default N = 10), descending by hit count, formatted via
    /// `Debug` so the snapshot type stays free of `K`.
    pub top_n: Vec<(String, u64)>,
}

/// The sum of `lens`.
pub open spec fn sum(lens: Seq<usize>) -> nat
    decreases lens.len(),
{
    if lens.len() == 0 {
        0
    } else {
        sum(lens.drop_last()) + lens.last() as nat
    }
}

/// `n`, or the largest number where `n` is larger.
pub open spec fn capped(n: nat) -> usize {
    if n > usize::MAX {
        usize::MAX
    } else {
        n as usize
    }
}

/// Estimated bytes for a number of keys: each is a key of the given size, 24 bytes of
/// limiter state and 16 of table, and there are 64 beside them.
pub open spec fn estimate(key_count: usize, key_size: nat) -> usize {
    capped(key_count as nat * capped(key_size + 40) as nat + 64)
}

/// The sum of `lens`, stopping at the largest number.
pub fn total(lens: &Vec<usize>) -> (n: usize)
    ensures
        n == capped(sum(lens@)),
{
    let mut n: usize = 0;
    let mut i: usize = 0;
    assert(lens@.take(0).len() == 0);
    while i < lens.len()
        invariant
            i <= lens@.len(),
            n == capped(sum(lens@.take(i as int))),
        decreases lens@.len() - i,
    {
        assert(lens@.take(i + 1).drop_last() =~= lens@.take(i as int));
        n = if lens[i] > usize::MAX - n {
            usize::MAX
        } else {
            n + lens[i]
        };
        i = i + 1;
    }
    assert(lens@.take(lens@.len() as int) =~= lens@);
    n
}

/// Estimated bytes for a number of keys of the given size.
pub fn approx_bytes(key_count: usize, key_size: usize) -> (bytes: usize)
    ensures
        bytes == estimate(key_count, key_size as nat),
{
    let per_entry: usize = if key_size > usize::MAX - 40 {
        usize::MAX
    } else {
        key_size + 40
    };
    proof {
        assert(key_count as nat * per_entry as nat <= 0xffff_ffff_ffff_ffff
            * 0xffff_ffff_ffff_ffff) by (nonlinear_arith)
            requires
                key_count <= 0xffff_ffff_ffff_ffff,
                per_entry <= 0xffff_ffff_ffff_ffff,
        ;
    }
    let bytes: u128 = key_count as u128 * per_entry as u128 + 64;
    if bytes > usize::MAX as u128 {
        usize::MAX
    } else {
        bytes as usize
    }
}

/// `m` has each key text of `entries` once, with the largest hit count that it has there.
pub open spec fn is_merge(entries: Seq<(String, u64)>, m: Seq<(String, u64)>) -> bool {
    &&& forall|i: int, j: int|
        0 <= i < j < m.len() ==> (#[trigger] m[i]).0@ != (#[trigger] m[j]).0@
    &&& forall|i: int| 0 <= i < entries.len() ==> covered(m, #[trigger] entries[i])
    &&& forall|j: int| 0 <= j < m.len() ==> stems_from(entries, #[trigger] m[j])
}

/// `m` has the key text of `entry` with at least its hits.
pub open spec fn covered(m: Seq<(String, u64)>, entry: (String, u64)) -> bool {
    exists|j: int| 0 <= j < m.len() && (#[trigger] m[j]).0@ == entry.0@ && m[j].1 >= entry.1
}

/// `entries` has the key text of `entry` with exactly its hits.
pub open spec fn stems_from(entries: Seq<(String, u64)>, entry: (String, u64)) -> bool {
    exists|i: int|
        0 <= i < entries.len() && (#[trigger] entries[i]).0@ == entry.0@ && entries[i].1 == entry.1
}

/// `places` tells where in `m` each key text stands.
spec fn indexes(places: Map<Seq<char>, usize>, m: Seq<(String, u64)>) -> bool {
    &&& forall|text: Seq<char>| #[trigger]
        places.contains_key(text) ==> places[text] < m.len() && m[places[text] as int].0@ == text
    &&& forall|j: int|
        0 <= j < m.len() ==> places.contains_key((#[trigger] m[j]).0@) && places[m[j].0@] == j
}

/// Merge `entries` by key text, keeping the largest hit count.
fn merge_by_text(entries: &Vec<(String, u64)>) -> (m: Vec<(String, u64)>)
    ensures
        is_merge(entries@, m@),
{
    let mut m: Vec<(String, u64)> = Vec::new();
    let mut places: StringHashMap<usize> = StringHashMap::new();
    let mut i: usize = 0;
    while i < entries.len()
        invariant
            i <= entries@.len(),
            is_merge(entries@.take(i as int), m@),
            indexes(places@, m@),
        decreases entries@.len() - i,
    {
        let ghost before = m@;
        let ghost done = entries@.take(i as int);
        let ghost more = entries@.take(i + 1);
        assert(more =~= done.push(entries@[i as int]));
        let hits: u64 = entries[i].1;
        let place: Option<usize> = match places.get(entries[i].0.as_str()) {
            Some(p) => Some(*p),
            None => None,
        };
        match place {
            Some(p) => if hits > m[p].1 {
                m[p].1 = hits;
            },
            None => {
                places.insert(entries[i].0.clone(), m.len());
                m.push((entries[i].0.clone(), hits));
            },
        }
        proof {
            assert forall|k: int| 0 <= k < more.len() implies covered(m@, #[trigger] more[k]) by {
                if k < i {
                    assert(covered(before, done[k]));
                    let j = choose|j: int|
                        0 <= j < before.len() && (#[trigger] before[j]).0@ == done[k].0@
                            && before[j].1 >= done[k].1;
                    assert(m@[j].0@ == before[j].0@ && m@[j].1 >= before[j].1);
                } else {
                    match place {
                        Some(p) => {
                            assert(m@[p as int].0@ == more[k].0@);
                        },
                        None => {
                            assert(m@[m@.len() - 1].0@ == more[k].0@);
                        },
                    }
                }
            }
            assert forall|j: int| 0 <= j < m@.len() implies stems_from(more, #[trigger] m@[j]) by {
                assert(more[i as int] == entries@[i as int]);
                if j < before.len() && m@[j].1 == before[j].1 {
                    assert(stems_from(done, before[j]));
                    let k = choose|k: int|
                        0 <= k < done.len() && (#[trigger] done[k]).0@ == before[j].0@
                            && done[k].1 == before[j].1;
                    assert(more[k] == done[k]);
                }
            }
        }
        i = i + 1;
    }
    assert(entries@.take(entries@.len() as int) =~= entries@);
    m
}

/// The `n` most active key texts of `entries`, in falling order of hits; a text that occurs
/// more than once counts once, with its largest count.
pub fn merge_top(entries: &Vec<(String, u64)>, n: usize) -> (top: Vec<(String, u64)>)
    ensures
        exists|m: Seq<(String, u64)>| #[trigger]
            is_merge(entries@, m) && crate::tracker::ranked(m, n as nat, top@),
{
    let mut m: Vec<(String, u64)> = merge_by_text(entries);
    let ghost merged = m@;
    sort_by_hits(&mut m);
    let ghost sorted = m@;
    m.truncate(n);
    proof {
        sorted.to_multiset_ensures();
        merged.to_multiset_ensures();
        assert(m@ =~= sorted.take(crate::tracker::least(n as nat, merged.len()) as int));
        assert(is_merge(entries@, merged));
    }
    m
}

/// What the trackers show of their `n` most active keys: the default one's, those of the
/// methods and those of the stack.
pub open spec fn shown<K: Hash + Eq + Clone + Debug + Send + Sync + 'static>(
    shared: LimiterShared<K>,
    n: nat,
    first: Seq<(String, u64)>,
    methods: Seq<Seq<(String, u64)>>,
    stack: Seq<Seq<(String, u64)>>,
) -> bool {
    &&& match shared.default_tracker {
        Some(t) => t.shows(n, first),
        None => first.len() == 0,
    }
    &&& methods.len() == shared.method_trackers@.len()
    &&& forall|i: int|
        0 <= i < methods.len() ==> shared.method_trackers@[i].1.shows(n, #[trigger] methods[i])
    &&& stack.len() == shared.stack@.len()
    &&& forall|i: int|
        0 <= i < stack.len() ==> {
            &&& shared.stack@[i].shows_top(n, #[trigger] stack[i])
            &&& shared.stack@[i].may_show(shared.stack@[i].history(), n, stack[i])
        }
}

/// `top` is the merge of what the trackers show, cut to `n` entries.
pub open spec fn gathered<K: Hash + Eq + Clone + Debug + Send + Sync + 'static>(
    shared: LimiterShared<K>,
    n: nat,
    top: Seq<(String, u64)>,
) -> bool {
    exists|
        first: Seq<(String, u64)>,
        methods: Seq<Seq<(String, u64)>>,
        stack: Seq<Seq<(String, u64)>>,
        m: Seq<(String, u64)>,
    |
        {
            &&& #[trigger] shown(shared, n, first, methods, stack)
            &&& #[trigger] is_merge(first + methods.flatten() + stack.flatten(), m)
            &&& crate::tracker::ranked(m, n, top)
        }
}

/// How many keys the stores may hold: those of the override limiters, the default one's,
/// those of the methods and those of the stack.
pub open spec fn store_sizes<K: Hash + Eq + Clone + Debug + Send + Sync + 'static>(
    shared: LimiterShared<K>,
    tiers: Seq<usize>,
    first: Seq<usize>,
    methods: Seq<usize>,
    stack: Seq<usize>,
) -> bool {
    &&& tiers.len() == shared.tier_cache@.len()
    &&& forall|i: int|
        0 <= i < tiers.len() ==> crate::limiter::stores(
            shared.tier_cache@[i].log(),
            #[trigger] tiers[i],
        )
    &&& match shared.default_limiter {
        Some(l) => first.len() == 1 && crate::limiter::stores(l.log(), first[0]),
        None => first.len() == 0,
    }
    &&& methods.len() == shared.method_limiters@.len()
    &&& forall|i: int|
        0 <= i < methods.len() ==> crate::limiter::stores(
            shared.method_limiters@[i].1.log(),
            #[trigger] methods[i],
        )
    &&& stack.len() == shared.stack@.len()
    &&& forall|i: int|
        0 <= i < stack.len() ==> {
            &&& shared.stack@[i].may_hold(#[trigger] stack[i])
            &&& shared.stack@[i].may_store(shared.stack@[i].history(), stack[i])
            &&& stack[i] <= shared.stack@[i].checks().len() + shared.stack@[i].sweeps()
        }
}

/// `n` is a number of keys that the stores may hold together.
pub open spec fn held<K: Hash + Eq + Clone + Debug + Send + Sync + 'static>(
    shared: LimiterShared<K>,
    n: usize,
) -> bool {
    exists|tiers: Seq<usize>, first: Seq<usize>, methods: Seq<usize>, stack: Seq<usize>|
        {
            &&& #[trigger] store_sizes(shared, tiers, first, methods, stack)
            &&& n == capped(sum(tiers + first + methods + stack))
        }
}

impl<'a, K: Hash + Eq + Clone + Debug + Send + Sync + 'static> LimiterHandle<'a, K> {
    /// State of the limiters with the ten most active keys.
    pub fn snapshot(&self) -> (s: LimiterSnapshot)
        requires
            self.shared.wf(),
        ensures
            held(*self.shared, s.key_count),
            s.approx_bytes == estimate(s.key_count, vstd::layout::size_of::<K>()),
            gathered(*self.shared, 10, s.top_n@),
    {
        self.snapshot_top_n(10)
    }

    /// Same as `snapshot()` but lets the caller choose the size of `top_n`. Useful from
    /// dashboards that want a longer or shorter list than the default 10.
    pub fn snapshot_top_n(&self, n: usize) -> (s: LimiterSnapshot)
        requires
            self.shared.wf(),
        ensures
            held(*self.shared, s.key_count),
            s.approx_bytes == estimate(s.key_count, vstd::layout::size_of::<K>()),
            gathered(*self.shared, n as nat, s.top_n@),
    {
        let key_count: usize = total(&self.lens());
        let bytes: usize = approx_bytes(key_count, std::mem::size_of::<K>());
        LimiterSnapshot { key_count, approx_bytes: bytes, top_n: self.gather_top_n(n) }
    }

    /// Number of keys in the store of each limiter.
    fn lens(&self) -> (lens: Vec<usize>)
        requires
            self.shared.wf(),
        ensures
            held(*self.shared, capped(sum(lens@))),
    {
        let mut lens: Vec<usize> = self.shared.tier_cache.lens();
        let ghost tiers = lens@;
        let ghost mut first: Seq<usize> = Seq::empty();
        if let Some(l) = &self.shared.default_limiter {
            let n: usize = l.len();
            lens.push(n);
            proof {
                first = seq![n];
            }
        }
        let ghost mut methods: Seq<usize> = Seq::empty();
        let mut i: usize = 0;
        assert(lens@ =~= tiers + first + methods);
        while i < self.shared.method_limiters.len()
            invariant
                i <= self.shared.method_limiters@.len(),
                methods.len() == i,
                lens@ == tiers + first + methods,
                forall|k: int|
                    0 <= k < methods.len() ==> crate::limiter::stores(
                        self.shared.method_limiters@[k].1.log(),
                        #[trigger] methods[k],
                    ),
            decreases self.shared.method_limiters@.len() - i,
        {
            let n: usize = self.shared.method_limiters[i].1.len();
            lens.push(n);
            proof {
                methods = methods.push(n);
                assert(lens@ =~= tiers + first + methods);
            }
            i = i + 1;
        }
        let ghost mut stack: Seq<usize> = Seq::empty();
        let mut j: usize = 0;
        assert(lens@ =~= tiers + first + methods + stack);
        while j < self.shared.stack.len()
            invariant
                j <= self.shared.stack@.len(),
                self.shared.wf(),
                stack.len() == j,
                lens@ == tiers + first + methods + stack,
                forall|k: int|
                    0 <= k < stack.len() ==> {
                        &&& self.shared.stack@[k].may_hold(#[trigger] stack[k])
                        &&& self.shared.stack@[k].may_store(
                            self.shared.stack@[k].history(),
                            stack[k],
                        )
                        &&& stack[k] <= self.shared.stack@[k].checks().len()
                            + self.shared.stack@[k].sweeps()
                    },
            decreases self.shared.stack@.len() - j,
        {
            assert(crate::layer::stacked_ok(self.shared.stack@[j as int]));
            let n: usize = self.shared.stack[j].runner.key_count();
            lens.push(n);
            proof {
                stack = stack.push(n);
                assert(lens@ =~= tiers + first + methods + stack);
            }
            j = j + 1;
        }
        assert(store_sizes(*self.shared, tiers, first, methods, stack));
        lens
    }

    /// The `n` most active keys over all trackers.
    fn gather_top_n(&self, n: usize) -> (top: Vec<(String, u64)>)
        requires
            self.shared.wf(),
        ensures
            gathered(*self.shared, n as nat, top@),
    {
        let mut entries: Vec<(String, u64)> = Vec::new();
        if let Some(t) = &self.shared.default_tracker {
            let mut part: Vec<(String, u64)> = t.top_n(n);
            entries.append(&mut part);
        }
        let ghost first = entries@;
        let ghost mut methods: Seq<Seq<(String, u64)>> = Seq::empty();
        let mut i: usize = 0;
        assert(methods.flatten() =~= Seq::empty());
        assert(entries@ =~= first + methods.flatten());
        while i < self.shared.method_trackers.len()
            invariant
                i <= self.shared.method_trackers@.len(),
                self.shared.wf(),
                methods.len() == i,
                entries@ == first + methods.flatten(),
                forall|k: int|
                    0 <= k < methods.len() ==> self.shared.method_trackers@[k].1.shows(
                        n as nat,
                        #[trigger] methods[k],
                    ),
            decreases self.shared.method_trackers@.len() - i,
        {
            assert(crate::layer::tracker_ok(
                self.shared.method_trackers@[i as int].1,
                self.shared.settings,
            ));
            let mut part: Vec<(String, u64)> = self.shared.method_trackers[i].1.top_n(n);
            let ghost before = methods;
            proof {
                methods = methods.push(part@);
                before.lemma_flatten_push(part@);
            }
            entries.append(&mut part);
            assert(entries@ =~= first + methods.flatten());
            i = i + 1;
        }
        let ghost mut stack: Seq<Seq<(String, u64)>> = Seq::empty();
        let mut j: usize = 0;
        assert(stack.flatten() =~= Seq::empty());
        assert(entries@ =~= first + methods.flatten() + stack.flatten());
        while j < self.shared.stack.len()
            invariant
                j <= self.shared.stack@.len(),
                self.shared.wf(),
                stack.len() == j,
                entries@ == first + methods.flatten() + stack.flatten(),
                forall|k: int|
                    0 <= k < stack.len() ==> {
                        &&& self.shared.stack@[k].shows_top(n as nat, #[trigger] stack[k])
                        &&& self.shared.stack@[k].may_show(
                            self.shared.stack@[k].history(),
                            n as nat,
                            stack[k],
                        )
                    },
            decreases self.shared.stack@.len() - j,
        {
            assert(crate::layer::stacked_ok(self.shared.stack@[j as int]));
            let mut part: Vec<(String, u64)> = self.shared.stack[j].runner.top_n(n);
            let ghost before = stack;
            proof {
                stack = stack.push(part@);
                before.lemma_flatten_push(part@);
            }
            entries.append(&mut part);
            assert(entries@ =~= first + methods.flatten() + stack.flatten());
            j = j + 1;
        }
        assert(shown(*self.shared, n as nat, first, methods, stack));
        merge_top(&entries, n)
    }
}

/// A layer that no request has reached holds no keys.
pub proof fn a_fresh_layer_holds_no_keys<K: Hash + Eq + Clone + Debug + Send + Sync + 'static>(
    shared: LimiterShared<K>,
    n: usize,
)
    requires
        shared.fresh(),
        held(shared, n),
    ensures
        n == 0,
{
    let (tiers, first, methods, stack) = choose|
        tiers: Seq<usize>,
        first: Seq<usize>,
        methods: Seq<usize>,
        stack: Seq<usize>,
    |
        {
            &&& #[trigger] store_sizes(shared, tiers, first, methods, stack)
            &&& n == capped(sum(tiers + first + methods + stack))
        };
    let all = tiers + first + methods + stack;
    assert forall|i: int| 0 <= i < all.len() implies #[trigger] all[i] == 0 by {
        let a = tiers.len() + first.len();
        if i < tiers.len() {
            assert(all[i] == tiers[i]);
        } else if i < a {
            assert(all[i] == first[i - tiers.len()]);
        } else if i < a + methods.len() {
            assert(all[i] == methods[i - a]);
        } else {
            assert(all[i] == stack[i - a - methods.len()]);
        }
    }
    lemma_sum_of_nothing(all);
}

proof fn lemma_sum_of_nothing(lens: Seq<usize>)
    requires
        forall|i: int| 0 <= i < lens.len() ==> #[trigger] lens[i] == 0,
    ensures
        sum(lens) == 0,
    decreases lens.len(),
{
    if lens.len() > 0 {
        let rest = lens.drop_last();
        assert forall|i: int| 0 <= i < rest.len() implies #[trigger] rest[i] == 0 by {
            assert(rest[i] == lens[i]);
        }
        lemma_sum_of_nothing(rest);
    }
}

/// The sum of two lists, one behind the other, is that of the one and that of the other, and
/// the sum of one number is the number.
pub proof fn sums_add_up(a: Seq<usize>, b: Seq<usize>, one: usize)
    ensures
        sum(a + b) == sum(a) + sum(b),
        sum(seq![one]) == one,
        sum(Seq::empty()) == 0,
    decreases b.len(),
{
    assert(seq![one].drop_last() =~= Seq::empty());
    assert(sum(seq![one].drop_last()) == 0);
    if b.len() == 0 {
        assert(a + b =~= a);
    } else {
        sums_add_up(a, b.drop_last(), one);
        assert((a + b).drop_last() =~= a + b.drop_last());
        assert((a + b).last() == b.last());
    }
}

/// A capped number is the number where it fits, and the largest that fits where it does not.
pub proof fn capping_keeps_what_fits(n: nat)
    ensures
        capped(n) <= n,
        n <= usize::MAX ==> capped(n) == n,
        n > usize::MAX ==> capped(n) == usize::MAX,
{
}

/// As far as it fits, the estimate grows by the size of a key and 40 bytes with each key, and
/// starts from 64 bytes.
pub proof fn the_estimate_is_linear(key_count: usize, key_size: nat)
    requires
        key_count * (key_size + 40) + 64 <= usize::MAX,
        key_size + 40 <= usize::MAX,
    ensures
        estimate(key_count, key_size) == key_count * (key_size + 40) + 64,
        estimate(0, key_size) == 64,
        key_count > 0 ==> estimate(key_count, key_size) - estimate((key_count - 1) as usize, key_size)
            == key_size + 40,
{
    assert(key_count as nat * (key_size + 40) >= 0) by (nonlinear_arith);
    if key_count > 0 {
        assert((key_count - 1) * (key_size + 40) == key_count * (key_size + 40) - (key_size + 40))
            by (nonlinear_arith);
        assert((key_count - 1) * (key_size + 40) >= 0) by (nonlinear_arith)
            requires
                key_count > 0,
        ;
    }
}

/// The keys of a snapshot are shown in falling order of hits, each once, and no more of them
/// than were asked for.
pub proof fn a_snapshot_shows_each_key_once<K: Hash + Eq + Clone + Debug + Send + Sync + 'static>(
    shared: LimiterShared<K>,
    n: nat,
    top: Seq<(String, u64)>,
    i: int,
    j: int,
)
    requires
        gathered(shared, n, top),
        0 <= i < j < top.len(),
    ensures
        top.len() <= n,
        top[i].1 >= top[j].1,
        top[i].0@ != top[j].0@,
{
    let (first, methods, stack, m) = choose|
        first: Seq<(String, u64)>,
        methods: Seq<Seq<(String, u64)>>,
        stack: Seq<Seq<(String, u64)>>,
        m: Seq<(String, u64)>,
    |
        {
            &&& #[trigger] shown(shared, n, first, methods, stack)
            &&& #[trigger] is_merge(first + methods.flatten() + stack.flatten(), m)
            &&& crate::tracker::ranked(m, n, top)
        };
    let sorted = choose|sorted: Seq<(String, u64)>|
        {
            &&& #[trigger] sorted.to_multiset() == m.to_multiset()
            &&& crate::tracker::falling(sorted)
            &&& top == sorted.take(crate::tracker::least(n, m.len()) as int)
        };
    sorted.to_multiset_ensures();
    m.to_multiset_ensures();
    assert(top[i] == sorted[i] && top[j] == sorted[j]);
    if top[i].0@ == top[j].0@ {
        lemma_one_each(m, sorted, i, j);
    }
}

/// A permutation of a list with distinct texts has distinct texts.
proof fn lemma_one_each(m: Seq<(String, u64)>, sorted: Seq<(String, u64)>, i: int, j: int)
    requires
        sorted.to_multiset() == m.to_multiset(),
        forall|a: int, b: int|
            0 <= a < b < m.len() ==> (#[trigger] m[a]).0@ != (#[trigger] m[b]).0@,
        0 <= i < j < sorted.len(),
    ensures
        sorted[i].0@ != sorted[j].0@,
{
    let (x, y) = (sorted[i], sorted[j]);
    m.to_multiset_ensures();
    sorted.to_multiset_ensures();
    assert(sorted.contains(x) && sorted.contains(y));
    assert(m.to_multiset().contains(x) && m.to_multiset().contains(y));
    let a = choose|a: int| 0 <= a < m.len() && m[a] == x;
    let b = choose|b: int| 0 <= b < m.len() && m[b] == y;
    if x.0@ == y.0@ {
        assert(a == b) by {
            if a < b {
                assert(m[a].0@ != m[b].0@);
            } else if b < a {
                assert(m[b].0@ != m[a].0@);
            }
        }
        assert(x == y);
        assert(m.no_duplicates()) by {
            assert forall|p: int, q: int| 0 <= p < m.len() && 0 <= q < m.len() && p
                != q implies m[p] != m[q] by {
                if p < q {
                    assert(m[p].0@ != m[q].0@);
                } else {
                    assert(m[q].0@ != m[p].0@);
                }
            }
        }
        m.lemma_multiset_has_no_duplicates();
        assert(m.to_multiset().count(x) == 1);
        lemma_twice(sorted, i, j);
    }
}

/// An entry that stands at two places counts twice.
proof fn lemma_twice(s: Seq<(String, u64)>, i: int, j: int)
    requires
        0 <= i < j < s.len(),
        s[i] == s[j],
    ensures
        s.to_multiset().count(s[i]) >= 2,
{
    s.to_multiset_ensures();
    let less = s.remove(j);
    assert(less.to_multiset() == s.to_multiset().remove(s[j]));
    assert(less[i] == s[i]);
    less.to_multiset_ensures();
    assert(less.contains(s[i]));
    assert(less.to_multiset().contains(s[i]));
}

/// A merge shows a key text with the largest hit count that any entry has for it.
pub proof fn a_merge_keeps_the_largest_count(
    entries: Seq<(String, u64)>,
    m: Seq<(String, u64)>,
    i: int,
    j: int,
)
    requires
        is_merge(entries, m),
        0 <= i < entries.len(),
        0 <= j < m.len(),
    ensures
        m[j].0@ == entries[i].0@ ==> m[j].1 >= entries[i].1,
        exists|k: int|
            0 <= k < entries.len() && (#[trigger] entries[k]).0@ == m[j].0@ && entries[k].1
                == m[j].1,
        exists|k: int| 0 <= k < m.len() && (#[trigger] m[k]).0@ == entries[i].0@,
{
    assert(covered(m, entries[i]));
    assert(stems_from(entries, m[j]));
    let k = choose|k: int|
        0 <= k < m.len() && (#[trigger] m[k]).0@ == entries[i].0@ && m[k].1 >= entries[i].1;
    if m[j].0@ == entries[i].0@ {
        if j < k {
            assert(m[j].0@ != m[k].0@);
        } else if k < j {
            assert(m[k].0@ != m[j].0@);
        }
    }
}

proof fn lemma_sum_of_part(lens: Seq<usize>, i: int)
    requires
        0 <= i < lens.len(),
    ensures
        sum(lens) >= lens[i],
    decreases lens.len(),
{
    if i < lens.len() - 1 {
        lemma_sum_of_part(lens.drop_last(), i);
    }
}

/// A snapshot counts the keys of every limiter: no fewer than the default one holds, or that
/// of a method or of an override, as long as nothing was swept from it.
pub proof fn a_snapshot_counts_every_limiter<K: Hash + Eq + Clone + Debug + Send + Sync + 'static>(
    shared: LimiterShared<K>,
    n: usize,
    i: int,
)
    requires
        held(shared, n),
        crate::tracker::lawful_key::<K>(),
    ensures
        shared.default_limiter matches Some(l) ==> (unswept(l.log()) ==> n == usize::MAX || n
            >= crate::limiter::keys_of(l.log()).len()),
        0 <= i < shared.method_limiters@.len() && unswept(shared.method_limiters@[i].1.log()) ==> n
            == usize::MAX || n >= crate::limiter::keys_of(
            shared.method_limiters@[i].1.log(),
        ).len(),
        0 <= i < shared.tier_cache@.len() && unswept(shared.tier_cache@[i].log()) ==> n
            == usize::MAX || n >= crate::limiter::keys_of(shared.tier_cache@[i].log()).len(),
{
    let (tiers, first, methods, stack) = choose|
        tiers: Seq<usize>,
        first: Seq<usize>,
        methods: Seq<usize>,
        stack: Seq<usize>,
    |
        {
            &&& #[trigger] store_sizes(shared, tiers, first, methods, stack)
            &&& n == capped(sum(tiers + first + methods + stack))
        };
    let all = tiers + first + methods + stack;
    if 0 <= i < tiers.len() {
        lemma_sum_of_part(all, i);
        assert(all[i] == tiers[i]);
        assert(crate::limiter::stores(shared.tier_cache@[i].log(), tiers[i]));
    }
    if first.len() == 1 {
        let k = tiers.len() as int;
        lemma_sum_of_part(all, k);
        assert(all[k] == first[0]);
    }
    if 0 <= i < methods.len() {
        let k = tiers.len() + first.len() + i;
        lemma_sum_of_part(all, k);
        assert(all[k] == methods[i]);
        assert(crate::limiter::stores(shared.method_limiters@[i].1.log(), methods[i]));
    }
}

/// Nothing was swept from the limiter with this record.
pub open spec fn unswept<K>(log: Seq<crate::limiter::LimiterEvent<K>>) -> bool {
    forall|i: int| 0 <= i < log.len() ==> #[trigger] log[i] is Checked
}

/// The entry is shown, with no fewer hits, or as many others are that have no fewer.
pub open spec fn not_left_out(top: Seq<(String, u64)>, n: nat, entry: (String, u64)) -> bool {
    ||| exists|j: int|
        0 <= j < top.len() && (#[trigger] top[j]).0@ == entry.0@ && top[j].1 >= entry.1
    ||| top.len() == n && forall|j: int| 0 <= j < top.len() ==> (#[trigger] top[j]).1 >= entry.1
}

/// No tracker is left out of a snapshot: what the default one, that of a method or that of an
/// entry of the stack shows is shown, unless as many keys have no fewer hits.
pub proof fn no_tracker_is_left_out<K: Hash + Eq + Clone + Debug + Send + Sync + 'static>(
    shared: LimiterShared<K>,
    n: nat,
    top: Seq<(String, u64)>,
) -> (r: (Seq<(String, u64)>, Seq<Seq<(String, u64)>>, Seq<Seq<(String, u64)>>))
    requires
        gathered(shared, n, top),
    ensures
        shared.default_tracker matches Some(t) ==> t.shows(n, r.0),
        r.1.len() == shared.method_trackers@.len(),
        forall|i: int|
            0 <= i < r.1.len() ==> shared.method_trackers@[i].1.shows(n, #[trigger] r.1[i]),
        r.2.len() == shared.stack@.len(),
        forall|i: int| 0 <= i < r.2.len() ==> shared.stack@[i].shows_top(n, #[trigger] r.2[i]),
        forall|k: int| 0 <= k < r.0.len() ==> not_left_out(top, n, #[trigger] r.0[k]),
        forall|i: int, k: int|
            0 <= i < r.1.len() && 0 <= k < r.1[i].len() ==> not_left_out(
                top,
                n,
                #[trigger] r.1[i][k],
            ),
        forall|i: int, k: int|
            0 <= i < r.2.len() && 0 <= k < r.2[i].len() ==> not_left_out(
                top,
                n,
                #[trigger] r.2[i][k],
            ),
{
    let (first, methods, stack, m) = choose|
        first: Seq<(String, u64)>,
        methods: Seq<Seq<(String, u64)>>,
        stack: Seq<Seq<(String, u64)>>,
        m: Seq<(String, u64)>,
    |
        {
            &&& #[trigger] shown(shared, n, first, methods, stack)
            &&& #[trigger] is_merge(first + methods.flatten() + stack.flatten(), m)
            &&& crate::tracker::ranked(m, n, top)
        };
    let (x, y) = (methods.flatten(), stack.flatten());
    let entries = first + x + y;
    assert forall|k: int| 0 <= k < first.len() implies not_left_out(
        top,
        n,
        #[trigger] first[k],
    ) by {
        assert(entries[k] == first[k]);
        lemma_not_left_out(entries, m, n, top, k);
    }
    assert forall|i: int, k: int| 0 <= i < methods.len() && 0 <= k < methods[i].len() implies
        not_left_out(top, n, #[trigger] methods[i][k]) by {
        let at = lemma_in_flat(methods, i, k);
        assert(entries[first.len() + at] == methods[i][k]);
        lemma_not_left_out(entries, m, n, top, first.len() + at);
    }
    assert forall|i: int, k: int| 0 <= i < stack.len() && 0 <= k < stack[i].len() implies
        not_left_out(top, n, #[trigger] stack[i][k]) by {
        let at = lemma_in_flat(stack, i, k);
        assert(entries[first.len() + x.len() + at] == stack[i][k]);
        lemma_not_left_out(entries, m, n, top, first.len() + x.len() + at);
    }
    (first, methods, stack)
}

/// Where an entry of a part stands in the parts one behind the other.
proof fn lemma_in_flat(parts: Seq<Seq<(String, u64)>>, i: int, k: int) -> (at: int)
    requires
        0 <= i < parts.len(),
        0 <= k < parts[i].len(),
    ensures
        0 <= at < parts.flatten().len(),
        parts.flatten()[at] == parts[i][k],
    decreases parts.len(),
{
    let front = parts.drop_last();
    front.lemma_flatten_push(parts.last());
    assert(front.push(parts.last()) =~= parts);
    assert(parts.flatten() =~= front.flatten() + parts.last());
    if i < parts.len() - 1 {
        assert(front[i] == parts[i]);
        lemma_in_flat(front, i, k)
    } else {
        front.flatten().len() + k
    }
}

proof fn lemma_not_left_out(
    entries: Seq<(String, u64)>,
    m: Seq<(String, u64)>,
    n: nat,
    top: Seq<(String, u64)>,
    k: int,
)
    requires
        is_merge(entries, m),
        crate::tracker::ranked(m, n, top),
        0 <= k < entries.len(),
    ensures
        not_left_out(top, n, entries[k]),
{
    assert(covered(m, entries[k]));
    let j = choose|j: int|
        0 <= j < m.len() && (#[trigger] m[j]).0@ == entries[k].0@ && m[j].1 >= entries[k].1;
    crate::tracker::ranking_holds_the_hottest(m, n, top);
    crate::tracker::a_ranking_is_as_long_as_asked(m, n, top);
    assert(m.contains(m[j]));
    if top.contains(m[j]) {
        let p = choose|p: int| 0 <= p < top.len() && top[p] == m[j];
        assert(top[p].0@ == entries[k].0@);
    } else {
        if top.len() == m.len() {
            m.to_multiset_ensures();
            top.to_multiset_ensures();
            assert(m.to_multiset().contains(m[j]));
            assert(top.to_multiset().contains(m[j]));
        }
        assert forall|p: int| 0 <= p < top.len() implies (#[trigger] top[p]).1 >= entries[k].1 by {
            assert(m[j].1 <= top[p].1);
        }
    }
}

}
