//! Which limiters a request meets and what they said: the precedence rules, in one place.
use std::fmt::Debug;
use std::hash::Hash;

use http::HeaderMap;
use vstd::prelude::*;

use super::respond::{build_admit_headers, build_reject_headers, epoch_if};
use crate::builder::Settings;
use crate::duration::Duration;
use crate::error::{ExtractionError, RejectionReason, StateSnapshot};
use crate::extractor::ip::{any_contains, IpAddr};
use crate::extractor::KeyOutcome;
use crate::glob::path_matches;
use crate::header_map::new_header_map;
use crate::layer::{LimiterShared, PolicyEntry};
use crate::limiter::{fresh_remaining, CheckOutcome, Limiter, LimiterEvent};
use crate::limiters::{Stacked, StackedCheck, StackedEvent, StackedResult};
use crate::quota::Quota;
use crate::request::{Method, Parts};
use crate::trace::{eviction, extraction_failed, reject, Event, EventView};
use crate::tracker::{EvictionReason, KeyTracker, TouchOutcome};
use crate::util::format_key;

verus! {

/// The request uses one of the spared methods.
pub open spec fn spared_method(settings: Settings, parts: Parts) -> bool {
    exists|i: int|
        0 <= i < settings.whitelist_methods@.len() && (#[trigger] settings.whitelist_methods@[i])@
            == parts.method@
}

/// The path of the request matches one of the spared patterns.
pub open spec fn spared_path(settings: Settings, parts: Parts) -> bool {
    exists|i: int|
        0 <= i < settings.whitelist_paths@.len() && crate::glob::glob_match(
            (#[trigger] settings.whitelist_paths@[i])@,
            parts.path@,
        )
}

/// The peer's address is in one of the spared networks.
pub open spec fn spared_peer(settings: Settings, parts: Parts) -> bool {
    parts.peer matches Some(ip) && crate::extractor::ip::any_holds(settings.whitelist_ips@, ip)
}

/// The request bypasses the limiter.
pub open spec fn whitelisted(settings: Settings, parts: Parts) -> bool {
    spared_method(settings, parts) || spared_path(settings, parts) || spared_peer(settings, parts)
}

/// Whether the request bypasses the limiter.
pub fn is_whitelisted(settings: &Settings, parts: &Parts) -> (r: bool)
    ensures
        r == whitelisted(*settings, *parts),
{
    let mut i: usize = 0;
    while i < settings.whitelist_methods.len()
        invariant
            i <= settings.whitelist_methods@.len(),
            forall|j: int|
                0 <= j < i ==> (#[trigger] settings.whitelist_methods@[j])@ != parts.method@,
        decreases settings.whitelist_methods@.len() - i,
    {
        if settings.whitelist_methods[i].same(&parts.method) {
            return true;
        }
        i = i + 1;
    }
    let mut k: usize = 0;
    while k < settings.whitelist_paths.len()
        invariant
            k <= settings.whitelist_paths@.len(),
            forall|j: int|
                0 <= j < k ==> !crate::glob::glob_match(
                    (#[trigger] settings.whitelist_paths@[j])@,
                    parts.path@,
                ),
        decreases settings.whitelist_paths@.len() - k,
    {
        if path_matches(settings.whitelist_paths[k].as_str(), parts.path.as_str()) {
            return true;
        }
        k = k + 1;
    }
    match parts.peer {
        Some(ip) => any_contains(&settings.whitelist_ips, &ip),
        None => false,
    }
}

/// The entry `i` is the first for the method `name`.
pub open spec fn first_method(methods: Seq<(Method, Quota)>, name: Seq<char>, i: int) -> bool {
    &&& 0 <= i < methods.len()
    &&& methods[i].0@ == name
    &&& forall|j: int| 0 <= j < i ==> (#[trigger] methods[j]).0@ != name
}

/// Position of the first entry for the method `name`, if there is one.
pub open spec fn method_slot(methods: Seq<(Method, Quota)>, name: Seq<char>) -> Option<int> {
    if exists|i: int| first_method(methods, name, i) {
        Some(choose|i: int| first_method(methods, name, i))
    } else {
        None
    }
}

/// The quota that the primary limiter applies: that of the method before the override of
/// the request before the default.
pub open spec fn primary_quota(
    settings: Settings,
    method: Seq<char>,
    quota_override: Option<Quota>,
) -> Option<Quota> {
    match method_slot(settings.quota_methods@, method) {
        Some(i) => Some(settings.quota_methods@[i].1),
        None => match quota_override {
            Some(q) => Some(q),
            None => settings.quota_default,
        },
    }
}

/// The quota that the primary limiter applies, where there is one, can be counted. An override
/// has no say in it where the method has a quota of its own.
pub open spec fn countable(
    settings: Settings,
    method: Seq<char>,
    quota_override: Option<Quota>,
) -> bool {
    primary_quota(settings, method, quota_override) matches Some(q) ==> q.usable()
}

fn find_method(methods: &Vec<(Method, Quota)>, method: &Method) -> (r: Option<usize>)
    ensures
        match r {
            Some(i) => i < methods@.len() && method_slot(methods@, method@) == Some(i as int),
            None => method_slot(methods@, method@) is None,
        },
{
    let mut i: usize = 0;
    while i < methods.len()
        invariant
            i <= methods@.len(),
            forall|j: int| 0 <= j < i ==> (#[trigger] methods@[j]).0@ != method@,
        decreases methods@.len() - i,
    {
        if methods[i].0.same(method) {
            proof {
                assert(first_method(methods@, method@, i as int));
                let k = choose|k: int| first_method(methods@, method@, k);
                assert(first_method(methods@, method@, k));
                assert(k == i) by {
                    if k < i {
                        assert(methods@[k].0@ != method@);
                    } else if i < k {
                        assert(methods@[i as int].0@ != method@);
                    }
                }
            }
            return Some(i);
        }
        i = i + 1;
    }
    proof {
        if exists|k: int| first_method(methods@, method@, k) {
            let k = choose|k: int| first_method(methods@, method@, k);
            assert(methods@[k].0@ != method@);
        }
    }
    None
}

/// Whether the method has a quota of its own.
pub fn has_own_quota(settings: &Settings, method: &Method) -> (r: bool)
    ensures
        r == (method_slot(settings.quota_methods@, method@) is Some),
{
    find_method(&settings.quota_methods, method).is_some()
}

/// Which limiter takes the request first.
pub enum LimiterRef {
    /// That of the method at this position.
    Method(usize),
    /// That of the override, at this position of the cache.
    Tier(usize),
    /// The default one.
    Default,
}

/// The limiter that the precedence rules chose, with its quota.
pub struct Dispatch {
    pub limiter: LimiterRef,
    pub quota: Quota,
}

/// The chosen limiter is there and counts the quota.
pub open spec fn dispatch_ok<K: Hash + Eq + Clone + Debug + Send + Sync + 'static>(
    shared: LimiterShared<K>,
    d: Dispatch,
) -> bool {
    match d.limiter {
        LimiterRef::Method(i) => i < shared.method_limiters@.len()
            && shared.method_limiters@[i as int].1.limit() == d.quota,
        LimiterRef::Tier(i) => i < shared.tier_cache@.len() && shared.tier_cache@[i as int].limit()
            == d.quota,
        LimiterRef::Default => shared.default_limiter matches Some(l) && l.limit() == d.quota,
    }
}

/// Everything but the cache of tier limiters is as it was.
pub open spec fn same_but_cache<K: Hash + Eq + Clone + Debug + Send + Sync + 'static>(
    a: LimiterShared<K>,
    b: LimiterShared<K>,
) -> bool {
    b == (LimiterShared { tier_cache: b.tier_cache, ..a })
}

/// Choose the limiter: that of the method, else that of the override, else the default one.
pub fn pick_primary<K: Hash + Eq + Clone + Debug + Send + Sync + 'static>(
    shared: &mut LimiterShared<K>,
    method: &Method,
    quota_override: Option<Quota>,
) -> (d: Option<Dispatch>)
    requires
        old(shared).wf(),
        countable(old(shared).settings, method@, quota_override),
    ensures
        final(shared).wf(),
        same_but_cache(*old(shared), *final(shared)),
        match d {
            Some(d) => {
                &&& primary_quota(old(shared).settings, method@, quota_override) == Some(d.quota)
                &&& dispatch_ok(*final(shared), d)
                &&& match method_slot(old(shared).settings.quota_methods@, method@) {
                    Some(i) => d.limiter == LimiterRef::Method(i as usize) && i <= usize::MAX,
                    None => if quota_override is Some {
                        d.limiter is Tier
                    } else {
                        d.limiter is Default
                    },
                }
            },
            None => primary_quota(old(shared).settings, method@, quota_override) is None,
        },
        d matches Some(Dispatch { limiter: LimiterRef::Tier(i), quota }) ==> {
            &&& i < final(shared).tier_cache@.len()
            &&& old(shared).tier_cache.caches(quota) ==> final(shared).tier_cache == old(
                shared,
            ).tier_cache
            &&& !old(shared).tier_cache.caches(quota) ==> {
                &&& final(shared).tier_cache@.drop_last() == old(shared).tier_cache@
                &&& i == old(shared).tier_cache@.len()
                &&& final(shared).tier_cache@[i as int].log().len() == 0
            }
        },
        !(d matches Some(Dispatch { limiter: LimiterRef::Tier(_), .. })) ==> *final(shared) == *old(
            shared,
        ),
{
    if let Some(i) = find_method(&shared.settings.quota_methods, method) {
        let quota: Quota = shared.settings.quota_methods[i].1;
        return Some(Dispatch { limiter: LimiterRef::Method(i), quota });
    }
    if let Some(quota) = quota_override {
        let i: usize = shared.tier_cache.get_or_insert(quota);
        return Some(Dispatch { limiter: LimiterRef::Tier(i), quota });
    }
    match shared.settings.quota_default {
        Some(quota) => Some(Dispatch { limiter: LimiterRef::Default, quota }),
        None => None,
    }
}

/// What the primary limiter said, and whether its tracker pushed a key out.
#[derive(Clone, Copy, Debug)]
pub struct Primary {
    pub quota: Quota,
    pub outcome: CheckOutcome,
    pub evicted: bool,
}

/// A limiter's record after it has checked `key`, and was swept if a key was pushed out.
pub open spec fn asked<K>(before: Seq<LimiterEvent<K>>, key: K, p: Primary) -> Seq<
    LimiterEvent<K>,
> {
    if p.evicted {
        before.push(LimiterEvent::Checked(key, p.outcome)).push(LimiterEvent::Swept)
    } else {
        before.push(LimiterEvent::Checked(key, p.outcome))
    }
}

/// A limiter after it has checked `key`, and gave an answer that its record allows.
pub open spec fn limiter_asked<K: Hash + Eq + Clone + Debug + Send + Sync + 'static>(
    before: Limiter<K>,
    after: Limiter<K>,
    key: K,
    p: Primary,
) -> bool {
    &&& crate::limiter::answers(before.limit().burst_limit(), before.log(), key, p.outcome)
    &&& after.limit() == before.limit()
    &&& after.log() == asked(before.log(), key, p)
}

/// A tracker after it has noted `key`; a key was pushed out exactly when a configured bound
/// was passed.
pub open spec fn tracker_noted<K: Hash + Eq + Clone + Debug + Send + Sync + 'static>(
    before: KeyTracker<K>,
    after: KeyTracker<K>,
    key: K,
    p: Primary,
) -> bool {
    &&& after.touch_count() == before.touch_count() + 1
    &&& after.limit() == before.limit()
    &&& before.limit() is None ==> !p.evicted
    &&& before.in_order() ==> {
        &&& after@ == crate::tracker::touched(before@, key, before.cap())
        &&& p.evicted <==> before.limit() is Some && crate::tracker::promoted(before@, key).len()
            > before.cap()
    }
}

/// The default tracker, where there is one, has noted `key`; without one nothing is pushed
/// out.
pub open spec fn default_noted<K: Hash + Eq + Clone + Debug + Send + Sync + 'static>(
    before: Option<KeyTracker<K>>,
    after: Option<KeyTracker<K>>,
    key: K,
    p: Primary,
) -> bool {
    match (before, after) {
        (Some(b), Some(a)) => tracker_noted(b, a, key, p),
        (None, None) => !p.evicted,
        _ => false,
    }
}

/// The limiter and the tracker of the method at `i` have taken the request, and nothing else
/// has changed.
pub open spec fn method_ran<K: Hash + Eq + Clone + Debug + Send + Sync + 'static>(
    before: LimiterShared<K>,
    after: LimiterShared<K>,
    i: int,
    key: K,
    p: Primary,
) -> bool {
    &&& after == (LimiterShared {
        method_limiters: after.method_limiters,
        method_trackers: after.method_trackers,
        ..before
    })
    &&& after.method_limiters@.len() == before.method_limiters@.len()
    &&& after.method_trackers@.len() == before.method_trackers@.len()
    &&& limiter_asked(before.method_limiters@[i].1, after.method_limiters@[i].1, key, p)
    &&& tracker_noted(before.method_trackers@[i].1, after.method_trackers@[i].1, key, p)
    &&& forall|j: int|
        0 <= j < after.method_limiters@.len() && j != i ==> #[trigger] after.method_limiters@[j]
            == before.method_limiters@[j]
    &&& forall|j: int|
        0 <= j < after.method_trackers@.len() && j != i ==> #[trigger] after.method_trackers@[j]
            == before.method_trackers@[j]
}

/// The limiter at `i` of the cache and the default tracker have taken the request, and
/// nothing else has changed.
pub open spec fn tier_ran<K: Hash + Eq + Clone + Debug + Send + Sync + 'static>(
    before: LimiterShared<K>,
    after: LimiterShared<K>,
    i: int,
    key: K,
    p: Primary,
) -> bool {
    &&& after == (LimiterShared {
        tier_cache: after.tier_cache,
        default_tracker: after.default_tracker,
        ..before
    })
    &&& 0 <= i < after.tier_cache@.len()
    &&& after.tier_cache@.len() == before.tier_cache@.len()
    &&& limiter_asked(before.tier_cache@[i], after.tier_cache@[i], key, p)
    &&& forall|j: int|
        0 <= j < after.tier_cache@.len() && j != i ==> #[trigger] after.tier_cache@[j]
            == before.tier_cache@[j]
    &&& default_noted(before.default_tracker, after.default_tracker, key, p)
}

/// The default limiter and tracker have taken the request, and nothing else has changed.
pub open spec fn default_ran<K: Hash + Eq + Clone + Debug + Send + Sync + 'static>(
    before: LimiterShared<K>,
    after: LimiterShared<K>,
    key: K,
    p: Primary,
) -> bool {
    &&& after == (LimiterShared {
        default_limiter: after.default_limiter,
        default_tracker: after.default_tracker,
        ..before
    })
    &&& match (before.default_limiter, after.default_limiter) {
        (Some(b), Some(a)) => limiter_asked(b, a, key, p),
        _ => false,
    }
    &&& default_noted(before.default_tracker, after.default_tracker, key, p)
}

fn over_max_keys<K>(touch: &TouchOutcome<K>) -> (r: bool)
    ensures
        r == (touch.reason == Some(EvictionReason::MaxKeys)),
{
    match touch.reason {
        Some(EvictionReason::MaxKeys) => true,
        _ => false,
    }
}

fn note_default<K: Hash + Eq + Clone + Debug + Send + Sync + 'static>(
    tracker: &mut Option<KeyTracker<K>>,
    key: &K,
) -> (evicted: bool)
    requires
        *old(tracker) matches Some(t) ==> t.wf(),
    ensures
        match (*old(tracker), *final(tracker)) {
            (Some(b), Some(a)) => a.wf() && a.limit() == b.limit(),
            (None, None) => true,
            _ => false,
        },
        forall|p: Primary|
            p.evicted == evicted ==> #[trigger] default_noted(
                *old(tracker),
                *final(tracker),
                *key,
                p,
            ),
{
    match tracker {
        Some(t) => {
            let touch: TouchOutcome<K> = t.touch(key);
            over_max_keys(&touch)
        },
        None => false,
    }
}

impl Dispatch {
    /// Count the request under `key` with the chosen limiter and note the key; when that
    /// pushes a key out of the tracker, sweep the limiter.
    pub fn run<K: Hash + Eq + Clone + Debug + Send + Sync + 'static>(
        &self,
        shared: &mut LimiterShared<K>,
        key: &K,
    ) -> (p: Primary)
        requires
            old(shared).wf(),
            dispatch_ok(*old(shared), *self),
        ensures
            final(shared).wf(),
            p.quota == self.quota,
            p.outcome.wf(),
            match self.limiter {
                LimiterRef::Method(i) => method_ran(*old(shared), *final(shared), i as int, *key, p),
                LimiterRef::Tier(i) => tier_ran(*old(shared), *final(shared), i as int, *key, p),
                LimiterRef::Default => default_ran(*old(shared), *final(shared), *key, p),
            },
    {
        let ghost start = *shared;
        match self.limiter {
            LimiterRef::Method(i) => {
                let outcome: CheckOutcome = shared.method_limiters[i].1.check(key);
                let touch: TouchOutcome<K> = shared.method_trackers[i].1.touch(key);
                let evicted: bool = over_max_keys(&touch);
                if evicted {
                    shared.method_limiters[i].1.retain_recent();
                }
                proof {
                    assert(shared.methods_ok()) by {
                        assert(crate::layer::tracker_ok(
                            start.method_trackers@[i as int].1,
                            start.settings,
                        ));
                    }
                }
                Primary { quota: self.quota, outcome, evicted }
            },
            LimiterRef::Tier(i) => {
                let outcome: CheckOutcome = shared.tier_cache.check_at(i, key);
                let evicted: bool = note_default(&mut shared.default_tracker, key);
                if evicted {
                    shared.tier_cache.retain_at(i);
                }
                Primary { quota: self.quota, outcome, evicted }
            },
            LimiterRef::Default => {
                let outcome: CheckOutcome = match &mut shared.default_limiter {
                    Some(l) => l.check(key),
                    None => CheckOutcome::Admit { remaining: 0 },
                };
                let evicted: bool = note_default(&mut shared.default_tracker, key);
                if evicted {
                    if let Some(l) = &mut shared.default_limiter {
                        l.retain_recent();
                    }
                }
                Primary { quota: self.quota, outcome, evicted }
            },
        }
    }
}

/// The primary limiter has taken the request as the precedence rules say; without a primary
/// quota nothing has changed.
pub open spec fn primary_ran<K: Hash + Eq + Clone + Debug + Send + Sync + 'static>(
    before: LimiterShared<K>,
    after: LimiterShared<K>,
    method: Seq<char>,
    o: KeyOutcome<K>,
    primary: Option<Primary>,
) -> bool {
    match primary {
        None => {
            &&& primary_quota(before.settings, method, o.quota_override) is None
            &&& after == before
        },
        Some(p) => {
            &&& primary_quota(before.settings, method, o.quota_override) == Some(p.quota)
            &&& p.outcome.wf()
            &&& match method_slot(before.settings.quota_methods@, method) {
                Some(i) => method_ran(before, after, i, o.key, p),
                None => if o.quota_override is Some {
                    exists|cache: LimiterShared<K>, i: int|
                        {
                            &&& cached_tier(before, cache, p.quota, i)
                            &&& #[trigger] tier_ran(cache, after, i, o.key, p)
                        }
                } else {
                    default_ran(before, after, o.key, p)
                },
            }
        },
    }
}

/// `after` is `before` with a limiter for `quota` at `i` of the cache: the one that was
/// there, or a new one behind the others.
pub open spec fn cached_tier<K: Hash + Eq + Clone + Debug + Send + Sync + 'static>(
    before: LimiterShared<K>,
    after: LimiterShared<K>,
    quota: Quota,
    i: int,
) -> bool {
    &&& same_but_cache(before, after)
    &&& 0 <= i < after.tier_cache@.len()
    &&& after.tier_cache@[i].limit() == quota
    &&& before.tier_cache.caches(quota) ==> after.tier_cache == before.tier_cache
    &&& !before.tier_cache.caches(quota) ==> {
        &&& after.tier_cache@.drop_last() == before.tier_cache@
        &&& i == before.tier_cache@.len()
        &&& after.tier_cache@[i].log().len() == 0
    }
}

/// An entry of the stack has counted the request with this result, which its record allows.
pub open spec fn stepped(
    before: Stacked,
    after: Stacked,
    parts: &Parts,
    redact: bool,
    step: StackedCheck,
) -> bool {
    &&& after.label() == before.label()
    &&& after.limit() == before.limit()
    &&& crate::limiters::same_source(after, before)
    &&& after.history() == before.history().push(
        StackedEvent::Checked { parts: *parts, redact, check: step },
    )
    &&& before.may_have(after.history())
    &&& before.key_bound() is None ==> !step.evicted
    &&& after.checks() == before.checks().push(step.result)
    &&& after.sweeps() == before.sweeps() + (if step.evicted {
        1nat
    } else {
        0nat
    })
    &&& before.gives(parts, redact, step.result)
    &&& step.result is ExtractionFailed ==> !step.evicted && crate::limiters::same_top(after, before)
        && crate::limiters::same_store(after, before)
    &&& crate::limiters::entry_answers(
        before.limit().burst_limit(),
        before.checks(),
        step.result,
    )
}

/// The entries of the stack were checked in order, `steps` being the results: each checked
/// entry has counted the request, and the walk ends with the first that did not admit it,
/// leaving the rest as they were.
pub open spec fn walked(
    before: Seq<Stacked>,
    after: Seq<Stacked>,
    parts: &Parts,
    redact: bool,
    steps: Seq<StackedCheck>,
) -> bool {
    &&& after.len() == before.len()
    &&& steps.len() <= before.len()
    &&& forall|i: int|
        0 <= i < steps.len() ==> stepped(before[i], #[trigger] after[i], parts, redact, steps[i])
    &&& forall|i: int| steps.len() <= i < before.len() ==> #[trigger] after[i] == before[i]
    &&& forall|i: int| 0 <= i < steps.len() - 1 ==> (#[trigger] steps[i]).result is Admit
    &&& steps.len() < before.len() ==> stopped(steps)
}

/// The walk ended with an entry that did not admit the request.
pub open spec fn stopped(steps: Seq<StackedCheck>) -> bool {
    steps.len() > 0 && steps.last().result !is Admit
}

/// The least that any limiter has left, `start` being the primary one's share.
pub open spec fn lowest(start: u32, steps: Seq<StackedCheck>) -> u32
    decreases steps.len(),
{
    if steps.len() == 0 {
        start
    } else {
        let before = lowest(start, steps.drop_last());
        match steps.last().result {
            StackedResult::Admit { remaining } => if remaining < before {
                remaining
            } else {
                before
            },
            _ => before,
        }
    }
}

/// The evictions that the walk caused.
pub open spec fn walk_events(stack: Seq<Stacked>, steps: Seq<StackedCheck>) -> Seq<EventView>
    decreases steps.len(),
{
    if steps.len() == 0 {
        Seq::empty()
    } else {
        let before = walk_events(stack, steps.drop_last());
        if steps.last().evicted {
            before.push(EventView::Evicted { policy: stack[steps.len() - 1].label() })
        } else {
            before
        }
    }
}

/// How a walk over the stack ended.
enum Walk {
    /// Every entry admitted the request; the least that any limiter has left.
    Admitted(u32),
    /// The entry at this position rejected it.
    Rejected(usize, Duration, String),
    /// An entry could not extract its key.
    Failed(ExtractionError),
}

/// Check the request with the entries of the stack, in order, up to the first that does not
/// admit it.
fn walk_stack(
    stack: &mut Vec<Stacked>,
    parts: &Parts,
    redact: bool,
    start: u32,
    events: &mut Vec<Event>,
) -> (r: (Walk, Ghost<Seq<StackedCheck>>))
    requires
        crate::layer::stack_ok(old(stack)@),
    ensures
        crate::layer::stack_ok(final(stack)@),
        crate::layer::stack_policies(final(stack)@) == crate::layer::stack_policies(old(stack)@),
        walked(old(stack)@, final(stack)@, parts, redact, r.1@),
        crate::trace::event_views(final(events)@) == crate::trace::event_views(old(events)@)
            + walk_events(old(stack)@, r.1@),
        crate::trace::all_hidden(old(events)@) ==> crate::trace::all_hidden(final(events)@),
        match r.0 {
            Walk::Admitted(low) => !stopped(r.1@) && r.1@.len() == old(stack)@.len() && low
                == lowest(start, r.1@),
            Walk::Rejected(i, wait, key_repr) => {
                &&& stopped(r.1@)
                &&& i == r.1@.len() - 1
                &&& r.1@.last().result == (StackedResult::Reject { wait, key_repr })
                &&& wait.wf()
                &&& redact ==> exists|hash: u64|
                    key_repr@ == #[trigger] crate::util::redacted(hash)
            },
            Walk::Failed(e) => stopped(r.1@) && r.1@.last().result
                == StackedResult::ExtractionFailed(e),
        },
{
    let ghost first = stack@;
    let ghost logged = events@;
    let ghost mut steps: Seq<StackedCheck> = Seq::empty();
    let mut low: u32 = start;
    let mut i: usize = 0;
    assert(crate::trace::event_views(events@) =~= crate::trace::event_views(logged) + walk_events(
        first,
        steps,
    ));
    while i < stack.len()
        invariant
            i <= stack@.len(),
            first == old(stack)@,
            logged == old(events)@,
            crate::layer::stack_ok(stack@),
            steps.len() == i,
            crate::layer::stack_policies(stack@) == crate::layer::stack_policies(first),
            walked_so_far(first, stack@, parts, redact, steps),
            low == lowest(start, steps),
            forall|j: int| 0 <= j < i ==> (#[trigger] steps[j]).result is Admit,
            crate::trace::event_views(events@) == crate::trace::event_views(logged) + walk_events(
                first,
                steps,
            ),
            crate::trace::all_hidden(logged) ==> crate::trace::all_hidden(events@),
        decreases stack@.len() - i,
    {
        let ghost before = stack@;
        let ghost shown = events@;
        proof {
            assert(crate::layer::stacked_ok(before[i as int]));
            assert(before[i as int] == first[i as int]);
        }
        let check: StackedCheck = stack[i].runner.check(parts, redact);
        let ghost so_far = steps;
        proof {
            steps = steps.push(check);
            assert(steps.drop_last() =~= so_far);
            assert forall|j: int| 0 <= j < stack@.len() implies crate::layer::stacked_ok(
                #[trigger] stack@[j],
            ) by {
                assert(crate::layer::stacked_ok(before[j]));
            }
            assert(crate::layer::stack_policies(stack@) =~= crate::layer::stack_policies(before));
            assert(stepped(first[i as int], stack@[i as int], parts, redact, check));
            assert(walked_so_far(first, stack@, parts, redact, steps));
        }
        if check.evicted {
            events.push(eviction(stack[i].name()));
            proof {
                assert(crate::trace::event_views(events@) =~= crate::trace::event_views(shown).push(
                    EventView::Evicted { policy: first[i as int].label() },
                ));
            }
        }
        proof {
            assert(crate::trace::event_views(events@) =~= crate::trace::event_views(logged)
                + walk_events(first, steps));
        }
        match check.result {
            StackedResult::Admit { remaining } => {
                if remaining < low {
                    low = remaining;
                }
            },
            StackedResult::Reject { wait, key_repr } => {
                return (Walk::Rejected(i, wait, key_repr), Ghost(steps));
            },
            StackedResult::ExtractionFailed(e) => {
                return (Walk::Failed(e), Ghost(steps));
            },
        }
        i = i + 1;
    }
    (Walk::Admitted(low), Ghost(steps))
}

/// The part of `walked` that holds while the walk goes on.
spec fn walked_so_far(
    before: Seq<Stacked>,
    after: Seq<Stacked>,
    parts: &Parts,
    redact: bool,
    steps: Seq<StackedCheck>,
) -> bool {
    &&& after.len() == before.len()
    &&& steps.len() <= before.len()
    &&& forall|i: int|
        0 <= i < steps.len() ==> stepped(before[i], #[trigger] after[i], parts, redact, steps[i])
    &&& forall|i: int| steps.len() <= i < before.len() ==> #[trigger] after[i] == before[i]
}

/// What is to be done with a request.
pub enum Decision<K> {
    /// Answer it with a rejection.
    Reject(Rejection<K>),
    /// Let it through; the headers are to be copied onto the response, and there are none
    /// when no policy applies.
    Admit(HeaderMap),
}

/// A rejection: why, and the rate-limit headers of the answer.
pub struct Rejection<K> {
    pub reason: RejectionReason<K>,
    pub headers: HeaderMap,
}

/// A decision with what there is to log.
pub struct Verdict<K> {
    pub decision: Decision<K>,
    pub events: Vec<Event>,
}

/// The reason says that `policy` rejected the request, and `key` who it was.
pub open spec fn over_quota<K>(
    reason: RejectionReason<K>,
    policy: (Seq<char>, Quota),
    wait: Duration,
    key: Option<K>,
) -> bool {
    match reason {
        RejectionReason::QuotaExceeded { wait: w, snapshot, key: k, policy_name } => {
            &&& w == wait
            &&& snapshot.quota == policy.1
            &&& snapshot.remaining == policy.1.burst_limit() - 1
            &&& k == key
            &&& policy_name@ == policy.0
        },
        RejectionReason::KeyExtractionFailed(_) => false,
    }
}

/// The request is rejected by `policy`, with all rate-limit headers.
pub open spec fn rejects<K>(
    d: Decision<K>,
    epoch: Option<u64>,
    policy: (Seq<char>, Quota),
    wait: Duration,
    key: Option<K>,
    policies: Seq<(Seq<char>, Quota)>,
) -> bool {
    match d {
        Decision::Reject(r) => {
            &&& over_quota(r.reason, policy, wait, key)
            &&& crate::header_map::header_contents(r.headers) == super::respond::reject_contents(
                epoch,
                policy,
                wait,
                policies,
            )
        },
        Decision::Admit(_) => false,
    }
}

/// The request is rejected for want of a key, without rate-limit headers.
pub open spec fn fails<K>(d: Decision<K>, e: ExtractionError) -> bool {
    match d {
        Decision::Reject(r) => {
            &&& r.reason == RejectionReason::<K>::KeyExtractionFailed(e)
            &&& crate::header_map::header_contents(r.headers) == crate::header_map::no_headers()
        },
        Decision::Admit(_) => false,
    }
}

/// What `RateLimit` shows for the least that any limiter has left.
pub open spec fn shown_remaining(low: u32) -> u32 {
    if low == u32::MAX {
        0
    } else {
        low
    }
}

/// The request is admitted. The headers name the first policy that applies; without
/// policies there are none.
pub open spec fn admits<K>(
    d: Decision<K>,
    epoch: Option<u64>,
    low: u32,
    policies: Seq<(Seq<char>, Quota)>,
) -> bool {
    match d {
        Decision::Reject(_) => false,
        Decision::Admit(h) => crate::header_map::header_contents(h) == (if policies.len() == 0 {
            crate::header_map::no_headers()
        } else {
            super::respond::admit_contents(epoch, policies[0], shown_remaining(low), policies)
        }),
    }
}

/// The event of a rejection by `policy`.
pub open spec fn reject_event(
    policy: (Seq<char>, Quota),
    wait: Duration,
    key: Seq<char>,
) -> EventView {
    EventView::Rejected {
        key,
        quota_burst: policy.1.burst_limit(),
        wait_ms: wait.secs() as nat * 1000 + wait.subsec() as nat / 1_000_000,
        policy: policy.0,
    }
}

/// The primary limiter rejected the request.
pub open spec fn primary_rejects(primary: Option<Primary>) -> bool {
    primary matches Some(p) && p.outcome is Reject
}

/// What the primary limiter has left.
pub open spec fn primary_share(primary: Option<Primary>) -> u32 {
    match primary {
        Some(p) => match p.outcome {
            CheckOutcome::Admit { remaining } => remaining,
            CheckOutcome::Reject { .. } => 0,
        },
        None => u32::MAX,
    }
}

/// The eviction that the primary limiter's tracker caused.
pub open spec fn primary_events(primary: Option<Primary>) -> Seq<EventView> {
    if primary matches Some(p) && p.evicted {
        seq![EventView::Evicted { policy: "default"@ }]
    } else {
        Seq::empty()
    }
}

/// What follows from the results of the limiters: the primary one's comes first, then the
/// stack's in order, and the first that is no admission decides.
pub open spec fn concluded<K: Hash + Debug>(
    stack: Seq<Stacked>,
    primary_limit: Option<Quota>,
    key: K,
    redact: bool,
    primary: Option<Primary>,
    steps: Seq<StackedCheck>,
    epoch: Option<u64>,
    d: Decision<K>,
    events: Seq<EventView>,
) -> bool {
    let policies = crate::layer::advertised(primary_limit, stack);
    let noted = primary_events(primary) + walk_events(stack, steps);
    if primary_rejects(primary) {
        let p = primary->0;
        let wait = p.outcome->wait;
        &&& rejects(d, epoch, ("default"@, p.quota), wait, Some(key), policies)
        &&& exists|text: String|
            {
                &&& #[trigger] crate::util::shown(key, redact, text)
                &&& events == noted.push(reject_event(("default"@, p.quota), wait, text@))
            }
    } else if stopped(steps) {
        let s = stack[steps.len() - 1];
        match steps.last().result {
            StackedResult::Reject { wait, key_repr } => {
                &&& rejects(d, epoch, (s.label(), s.limit()), wait, None, policies)
                &&& events == noted.push(reject_event((s.label(), s.limit()), wait, key_repr@))
            },
            StackedResult::ExtractionFailed(e) => {
                &&& fails(d, e)
                &&& events == noted.push(EventView::ExtractionFailed { error: e.message() })
            },
            StackedResult::Admit { .. } => false,
        }
    } else {
        &&& admits(d, epoch, lowest(primary_share(primary), steps), policies)
        &&& events == noted
    }
}

/// A request with the key of `o` was taken to the limiters, with these results, and the
/// verdict follows from them.
pub open spec fn decided<K: Hash + Eq + Clone + Debug + Send + Sync + 'static>(
    before: LimiterShared<K>,
    after: LimiterShared<K>,
    parts: &Parts,
    o: KeyOutcome<K>,
    primary: Option<Primary>,
    steps: Seq<StackedCheck>,
    epoch: Option<u64>,
    v: Verdict<K>,
) -> bool {
    &&& super::respond::clock_read(before.settings.legacy_reset_epoch, epoch)
    &&& primary_ran(
        before,
        LimiterShared { stack: before.stack, ..after },
        parts.method@,
        o,
        primary,
    )
    &&& if primary_rejects(primary) {
        steps.len() == 0 && after.stack == before.stack
    } else {
        walked(before.stack@, after.stack@, parts, before.settings.redact_keys, steps)
    }
    &&& concluded(
        before.stack@,
        primary_quota(before.settings, parts.method@, o.quota_override),
        o.key,
        before.settings.redact_keys,
        primary,
        steps,
        epoch,
        v.decision,
        crate::trace::event_views(v.events@),
    )
}

/// The answer to a request: a failed extraction is rejected before any limiter is asked, and
/// a key is taken to the limiters.
pub open spec fn answered<K: Hash + Eq + Clone + Debug + Send + Sync + 'static>(
    before: LimiterShared<K>,
    after: LimiterShared<K>,
    parts: &Parts,
    outcome: Result<KeyOutcome<K>, ExtractionError>,
    v: Verdict<K>,
) -> bool {
    match outcome {
        Err(e) => {
            &&& after == before
            &&& fails(v.decision, e)
            &&& crate::trace::event_views(v.events@) == seq![
                EventView::ExtractionFailed { error: e.message() },
            ]
        },
        Ok(o) => exists|primary: Option<Primary>, steps: Seq<StackedCheck>, epoch: Option<u64>|
            #[trigger] decided(before, after, parts, o, primary, steps, epoch, v),
    }
}

/// The prepared policy header for a request: that of the method before the default one. A
/// tier override changes the primary policy, so no prepared header is right for it.
pub fn pick_policy_entry<'a, K: Hash + Eq + Clone + Debug + Send + Sync + 'static>(
    shared: &'a LimiterShared<K>,
    method: &Method,
    has_tier_override: bool,
) -> (entry: Option<&'a PolicyEntry>)
    requires
        shared.wf(),
    ensures
        match method_slot(shared.settings.quota_methods@, method@) {
            Some(i) => entry == Some(&shared.policy_per_method@[i].1),
            None => if has_tier_override {
                entry is None
            } else {
                match shared.policy_default {
                    Some(e) => entry == Some(&e),
                    None => entry is None,
                }
            },
        },
{
    if let Some(i) = find_method(&shared.settings.quota_methods, method) {
        return Some(&shared.policy_per_method[i].1);
    }
    if has_tier_override {
        return None;
    }
    match &shared.policy_default {
        Some(e) => Some(e),
        None => None,
    }
}

/// The prepared or rendered header lists every policy that applies.
proof fn lemma_listed<K: Hash + Eq + Clone + Debug + Send + Sync + 'static>(
    shared: LimiterShared<K>,
    method: Seq<char>,
    quota_override: Option<Quota>,
    entry: Option<&PolicyEntry>,
    fallback: (Seq<char>, Quota),
)
    requires
        shared.wf(),
        match method_slot(shared.settings.quota_methods@, method) {
            Some(i) => entry == Some(&shared.policy_per_method@[i].1),
            None => if quota_override is Some {
                entry is None
            } else {
                match shared.policy_default {
                    Some(e) => entry == Some(&e),
                    None => entry is None,
                }
            },
        },
    ensures
        entry matches Some(e) ==> e.lists(crate::layer::owned(e.descriptors@)),
        crate::layer::advertised(
            primary_quota(shared.settings, method, quota_override),
            shared.stack@,
        ).len() > 0 ==> super::respond::listed(entry, shared.stack@, quota_override, fallback)
            == crate::layer::advertised(
            primary_quota(shared.settings, method, quota_override),
            shared.stack@,
        ),
{
    match method_slot(shared.settings.quota_methods@, method) {
        Some(i) => {
            assert(first_method(shared.settings.quota_methods@, method, i));
            assert(shared.policy_per_method@[i].1.lists(
                crate::layer::advertised(
                    Some(shared.settings.quota_methods@[i].1),
                    shared.stack@,
                ),
            ));
        },
        None => {},
    }
}

/// The reason for a rejection by `policy_name`.
fn quota_exceeded<K>(wait: Duration, quota: Quota, key: Option<K>, policy_name: &str) -> (r:
    RejectionReason<K>)
    requires
        quota.usable(),
    ensures
        over_quota(r, (policy_name@, quota), wait, key),
{
    let snapshot = StateSnapshot { quota, remaining: fresh_remaining(&quota) };
    RejectionReason::QuotaExceeded { wait, snapshot, key, policy_name: policy_name.to_owned() }
}

/// The quota that the primary limiter applies.
pub fn primary_limit(
    settings: &Settings,
    method: &Method,
    quota_override: Option<Quota>,
) -> (limit: Option<Quota>)
    ensures
        limit == primary_quota(*settings, method@, quota_override),
{
    match find_method(&settings.quota_methods, method) {
        Some(i) => Some(settings.quota_methods[i].1),
        None => match quota_override {
            Some(q) => Some(q),
            None => settings.quota_default,
        },
    }
}

/// Every policy that applies to a request.
pub open spec fn policies_for<K: Hash + Eq + Clone + Debug + Send + Sync + 'static>(
    shared: LimiterShared<K>,
    method: Seq<char>,
    quota_override: Option<Quota>,
) -> Seq<(Seq<char>, Quota)> {
    crate::layer::advertised(
        primary_quota(shared.settings, method, quota_override),
        shared.stack@,
    )
}

/// Reject a request that the policy `name` makes wait.
pub fn rejection<K: Hash + Eq + Clone + Debug + Send + Sync + 'static>(
    shared: &LimiterShared<K>,
    method: &Method,
    quota_override: Option<Quota>,
    epoch: Option<u64>,
    name: &str,
    quota: Quota,
    wait: Duration,
    key: Option<K>,
) -> (d: Decision<K>)
    requires
        shared.wf(),
        quota.usable(),
        crate::header_map::text_ok(name@),
        policies_for(*shared, method@, quota_override).len() > 0,
    ensures
        rejects(
            d,
            epoch,
            (name@, quota),
            wait,
            key,
            policies_for(*shared, method@, quota_override),
        ),
{
    let entry: Option<&PolicyEntry> = pick_policy_entry(shared, method, quota_override.is_some());
    proof {
        lemma_listed(*shared, method@, quota_override, entry, (name@, quota));
    }
    let headers: HeaderMap = build_reject_headers(
        epoch,
        quota,
        wait,
        name,
        entry,
        &shared.stack,
        quota_override,
    );
    Decision::Reject(Rejection { reason: quota_exceeded(wait, quota, key, name), headers })
}

/// Admit a request, `low` being the least that any limiter has left.
pub fn admission<K: Hash + Eq + Clone + Debug + Send + Sync + 'static>(
    shared: &LimiterShared<K>,
    method: &Method,
    quota_override: Option<Quota>,
    epoch: Option<u64>,
    low: u32,
) -> (d: Decision<K>)
    requires
        shared.wf(),
    ensures
        admits(d, epoch, low, policies_for(*shared, method@, quota_override)),
{
    let remaining: u32 = if low == u32::MAX {
        0
    } else {
        low
    };
    let ghost policies = policies_for(*shared, method@, quota_override);
    let entry: Option<&PolicyEntry> = pick_policy_entry(shared, method, quota_override.is_some());
    match primary_limit(&shared.settings, method, quota_override) {
        Some(quota) => {
            proof {
                lemma_listed(*shared, method@, quota_override, entry, ("default"@, quota));
                reveal_strlit("default");
            }
            Decision::Admit(
                build_admit_headers(
                    epoch,
                    quota,
                    shared.default_label.as_str(),
                    remaining,
                    entry,
                    &shared.stack,
                    quota_override,
                ),
            )
        },
        None => if shared.stack.len() == 0 {
            Decision::Admit(new_header_map())
        } else {
            proof {
                assert(crate::layer::stacked_ok(shared.stack@[0]));
                assert(policies[0] == (shared.stack@[0].label(), shared.stack@[0].limit()));
                lemma_listed(*shared, method@, quota_override, entry, policies[0]);
            }
            Decision::Admit(
                build_admit_headers(
                    epoch,
                    shared.stack[0].quota(),
                    shared.stack[0].name(),
                    remaining,
                    entry,
                    &shared.stack,
                    quota_override,
                ),
            )
        },
    }
}

/// Reject a request for want of a key.
pub fn failure<K>(err: ExtractionError) -> (d: Decision<K>)
    ensures
        fails(d, err),
{
    Decision::Reject(
        Rejection {
            reason: RejectionReason::KeyExtractionFailed(err),
            headers: new_header_map(),
        },
    )
}

/// Count the request with the primary limiter, if there is one for it.
fn check_primary<K: Hash + Eq + Clone + Debug + Send + Sync + 'static>(
    shared: &mut LimiterShared<K>,
    method: &Method,
    o: &KeyOutcome<K>,
) -> (primary: Option<Primary>)
    requires
        old(shared).wf(),
        countable(old(shared).settings, method@, o.quota_override),
    ensures
        final(shared).wf(),
        primary_ran(*old(shared), *final(shared), method@, *o, primary),
        final(shared).stack == old(shared).stack,
        final(shared).settings == old(shared).settings,
        final(shared).same_setup(old(shared)),
{
    let ghost start = *shared;
    match pick_primary(shared, method, o.quota_override) {
        Some(d) => {
            let ghost picked = *shared;
            let p: Primary = d.run(shared, &o.key);
            proof {
                if let LimiterRef::Tier(i) = d.limiter {
                    assert(cached_tier(start, picked, p.quota, i as int));
                    assert(tier_ran(picked, *shared, i as int, o.key, p));
                }
            }
            Some(p)
        },
        None => None,
    }
}

/// Log what the primary limiter's tracker pushed out.
fn note_primary(primary: &Option<Primary>, events: &mut Vec<Event>)
    requires
        old(events)@.len() == 0,
    ensures
        crate::trace::event_views(final(events)@) == primary_events(*primary),
        crate::trace::all_hidden(final(events)@),
{
    if let Some(p) = primary {
        if p.evicted {
            events.push(eviction("default"));
        }
    }
    assert(crate::trace::event_views(events@) =~= primary_events(*primary));
}

/// Add one event to the log.
fn note(events: &mut Vec<Event>, event: Event)
    ensures
        crate::trace::event_views(final(events)@) == crate::trace::event_views(old(events)@).push(
            event@,
        ),
        crate::trace::all_hidden(old(events)@) && event.hides_key() ==> crate::trace::all_hidden(
            final(events)@,
        ),
{
    events.push(event);
    assert(crate::trace::event_views(events@) =~= crate::trace::event_views(old(events)@).push(
        event@,
    ));
}

/// Take a request whose key is known to the limiters and decide what is to be done with it.
pub fn decide<K: Hash + Eq + Clone + Debug + Send + Sync + 'static>(
    shared: &mut LimiterShared<K>,
    parts: &Parts,
    outcome: Result<KeyOutcome<K>, ExtractionError>,
) -> (v: Verdict<K>)
    requires
        old(shared).wf(),
        outcome matches Ok(o) ==> countable(
            old(shared).settings,
            parts.method@,
            o.quota_override,
        ),
    ensures
        final(shared).wf(),
        final(shared).same_setup(old(shared)),
        answered(*old(shared), *final(shared), parts, outcome, v),
        old(shared).settings.redact_keys ==> crate::trace::all_hidden(v.events@),
{
    let ghost start = *shared;
    let mut events: Vec<Event> = Vec::new();
    let o: KeyOutcome<K> = match outcome {
        Ok(o) => o,
        Err(err) => {
            note(&mut events, extraction_failed(&err));
            assert(crate::trace::event_views(events@) =~= seq![
                EventView::ExtractionFailed { error: err.message() },
            ]);
            return Verdict { decision: failure(err), events };
        },
    };
    let redact: bool = shared.settings.redact_keys;
    let quota_override: Option<Quota> = o.quota_override;
    let primary: Option<Primary> = check_primary(shared, &parts.method, &o);
    let ghost mid = *shared;
    let epoch: Option<u64> = epoch_if(shared.settings.legacy_reset_epoch);
    note_primary(&primary, &mut events);
    let mut share: u32 = u32::MAX;
    if let Some(p) = primary {
        match p.outcome {
            CheckOutcome::Reject { wait } => {
                let ghost steps = Seq::<StackedCheck>::empty();
                let ghost shown = events@;
                let key_repr: String = format_key(&o.key, redact);
                assert(crate::util::shown(o.key, redact, key_repr));
                note(
                    &mut events,
                    reject(key_repr, p.quota.burst_size(), wait.as_millis(), "default"),
                );
                proof {
                    reveal_strlit("default");
                    assert(primary_events(primary) + walk_events(start.stack@, steps)
                        =~= crate::trace::event_views(shown));
                }
                let v = Verdict {
                    decision: rejection(
                        shared,
                        &parts.method,
                        quota_override,
                        epoch,
                        "default",
                        p.quota,
                        wait,
                        Some(o.key),
                    ),
                    events,
                };
                proof {
                    assert(decided(start, *shared, parts, o, primary, steps, epoch, v));
                }
                return v;
            },
            CheckOutcome::Admit { remaining } => {
                share = remaining;
            },
        }
    }
    let (walk, Ghost(steps)) = walk_stack(&mut shared.stack, parts, redact, share, &mut events);
    proof {
        assert(shared.wf());
        assert(LimiterShared { stack: start.stack, ..*shared } == mid);
    }
    let decision: Decision<K> = match walk {
        Walk::Failed(err) => {
            note(&mut events, extraction_failed(&err));
            failure(err)
        },
        Walk::Rejected(i, wait, key_repr) => {
            assert(crate::layer::stacked_ok(shared.stack@[i as int]));
            let quota: Quota = shared.stack[i].quota();
            let name: &str = shared.stack[i].name();
            note(&mut events, reject(key_repr, quota.burst_size(), wait.as_millis(), name));
            rejection(shared, &parts.method, quota_override, epoch, name, quota, wait, None)
        },
        Walk::Admitted(low) => admission(shared, &parts.method, quota_override, epoch, low),
    };
    let v = Verdict { decision, events };
    proof {
        assert(decided(start, *shared, parts, o, primary, steps, epoch, v));
    }
    v
}

/// The first entry of the stack that does not admit a request ends the walk: the entries
/// before it have admitted the request, and those after it have not seen it.
pub proof fn first_refusal_ends_the_walk(
    before: Seq<Stacked>,
    after: Seq<Stacked>,
    parts: &Parts,
    redact: bool,
    steps: Seq<StackedCheck>,
    i: int,
)
    requires
        walked(before, after, parts, redact, steps),
        0 <= i < steps.len(),
        steps[i].result !is Admit,
    ensures
        i == steps.len() - 1,
        forall|j: int| 0 <= j < i ==> (#[trigger] steps[j]).result is Admit,
        forall|j: int| i < j < before.len() ==> #[trigger] after[j] == before[j],
{
    if i < steps.len() - 1 {
        assert(steps[i].result is Admit);
    }
}

/// A request passes only if every limiter that it meets admits it.
pub proof fn admitted_means_all_admit<K: Hash + Debug>(
    stack: Seq<Stacked>,
    after: Seq<Stacked>,
    parts: &Parts,
    limit: Option<Quota>,
    key: K,
    redact: bool,
    primary: Option<Primary>,
    steps: Seq<StackedCheck>,
    epoch: Option<u64>,
    d: Decision<K>,
    events: Seq<EventView>,
)
    requires
        concluded(stack, limit, key, redact, primary, steps, epoch, d, events),
        primary_rejects(primary) || walked(stack, after, parts, redact, steps),
        d is Admit,
    ensures
        !primary_rejects(primary),
        steps.len() == stack.len(),
        forall|i: int| 0 <= i < steps.len() ==> (#[trigger] steps[i]).result is Admit,
{
}

/// A rejection by the stack names the entry that rejected, and a rejection by the primary
/// limiter names `default`.
pub proof fn rejection_names_its_policy<K: Hash + Debug>(
    stack: Seq<Stacked>,
    limit: Option<Quota>,
    key: K,
    redact: bool,
    primary: Option<Primary>,
    steps: Seq<StackedCheck>,
    epoch: Option<u64>,
    d: Decision<K>,
    events: Seq<EventView>,
)
    requires
        concluded(stack, limit, key, redact, primary, steps, epoch, d, events),
    ensures
        (d matches Decision::Reject(r) && r.reason is QuotaExceeded) ==> {
            let name = d->Reject_0.reason->policy_name@;
            if primary_rejects(primary) {
                name == "default"@
            } else {
                steps.len() > 0 && name == stack[steps.len() - 1].label()
            }
        },
{
}

/// A failed extraction is answered without a rate-limit header and without a limiter being
/// asked.
pub proof fn failed_extraction_counts_nothing<
    K: Hash + Eq + Clone + Debug + Send + Sync + 'static,
>(
    before: LimiterShared<K>,
    after: LimiterShared<K>,
    parts: &Parts,
    e: ExtractionError,
    v: Verdict<K>,
)
    requires
        answered(before, after, parts, Err(e), v),
    ensures
        after == before,
        v.decision matches Decision::Reject(r) && crate::header_map::header_contents(r.headers)
            == crate::header_map::no_headers() && crate::response::status_of(r.reason) != 429,
{
}

/// The quota of a method beats an override, and an override beats the default.
pub proof fn method_beats_override_beats_default(
    settings: Settings,
    method: Seq<char>,
    i: int,
    q: Quota,
)
    ensures
        first_method(settings.quota_methods@, method, i) ==> primary_quota(settings, method, Some(q))
            == Some(settings.quota_methods@[i].1) && primary_quota(settings, method, None) == Some(
            settings.quota_methods@[i].1,
        ),
        (forall|j: int|
            0 <= j < settings.quota_methods@.len() ==> (
            #[trigger] settings.quota_methods@[j]).0@ != method) ==> primary_quota(
            settings,
            method,
            Some(q),
        ) == Some(q) && primary_quota(settings, method, None) == settings.quota_default,
{
    let methods = settings.quota_methods@;
    if first_method(methods, method, i) {
        let k = choose|k: int| first_method(methods, method, k);
        assert(first_method(methods, method, k));
        if k < i {
            assert(methods[k].0@ != method);
        } else if i < k {
            assert(methods[i].0@ != method);
        }
    }
}

/// Requests with one method use up nothing of another's budget, nor of the default one.
pub proof fn methods_have_their_own_budgets<
    K: Hash + Eq + Clone + Debug + Send + Sync + 'static,
>(before: LimiterShared<K>, after: LimiterShared<K>, i: int, j: int, key: K, p: Primary)
    requires
        method_ran(before, after, i, key, p),
        0 <= j < before.method_limiters@.len(),
        j != i,
    ensures
        after.method_limiters@[j] == before.method_limiters@[j],
        after.default_limiter == before.default_limiter,
        after.tier_cache == before.tier_cache,
        after.stack == before.stack,
{
}

/// Requests under one override use up nothing of another override's budget, nor of any
/// method's or the default one.
pub proof fn tiers_have_their_own_budgets<
    K: Hash + Eq + Clone + Debug + Send + Sync + 'static,
>(before: LimiterShared<K>, after: LimiterShared<K>, i: int, j: int, key: K, p: Primary)
    requires
        tier_ran(before, after, i, key, p),
        0 <= j < before.tier_cache@.len(),
        j != i,
    ensures
        after.tier_cache@[j] == before.tier_cache@[j],
        after.default_limiter == before.default_limiter,
        after.method_limiters == before.method_limiters,
        after.stack == before.stack,
{
}

/// Without `max_keys` the primary limiter is never swept on account of its tracker: what the
/// internal budget pushes out changes nothing but the tracker.
pub proof fn the_internal_budget_sweeps_nothing<
    K: Hash + Eq + Clone + Debug + Send + Sync + 'static,
>(
    before: LimiterShared<K>,
    after: LimiterShared<K>,
    method: Seq<char>,
    o: KeyOutcome<K>,
    p: Primary,
)
    requires
        before.wf(),
        before.settings.max_keys is None,
        primary_ran(before, after, method, o, Some(p)),
    ensures
        !p.evicted,
        primary_events(Some(p)) == Seq::<EventView>::empty(),
{
    match method_slot(before.settings.quota_methods@, method) {
        Some(i) => {
            assert(first_method(before.settings.quota_methods@, method, i));
            assert(crate::layer::tracker_ok(before.method_trackers@[i].1, before.settings));
        },
        None => {},
    }
}

/// What an admitted request is shown is no more than any limiter has left.
pub proof fn lowest_is_the_least(start: u32, steps: Seq<StackedCheck>, i: int)
    requires
        0 <= i < steps.len(),
    ensures
        lowest(start, steps) <= start,
        steps[i].result matches StackedResult::Admit { remaining } ==> lowest(start, steps)
            <= remaining,
    decreases steps.len(),
{
    lemma_lowest_bounded(start, steps.drop_last());
    if i < steps.len() - 1 {
        lowest_is_the_least(start, steps.drop_last(), i);
    }
}

proof fn lemma_lowest_bounded(start: u32, steps: Seq<StackedCheck>)
    ensures
        lowest(start, steps) <= start,
    decreases steps.len(),
{
    if steps.len() > 0 {
        lemma_lowest_bounded(start, steps.drop_last());
    }
}

/// A whitelisted peer is spared by its address alone: the headers and extensions of the
/// request have no say in it.
pub proof fn whitelist_ignores_headers(settings: Settings, a: Parts, b: Parts)
    requires
        a.method@ == b.method@,
        a.path@ == b.path@,
        a.peer == b.peer,
    ensures
        whitelisted(settings, a) == whitelisted(settings, b),
{
}

/// A request that meets only limiters which have counted nothing yet is admitted, unless an
/// entry of the stack finds no key in it.
pub proof fn the_first_request_passes<K: Hash + Eq + Clone + Debug + Send + Sync + 'static>(
    before: LimiterShared<K>,
    after: LimiterShared<K>,
    parts: &Parts,
    o: KeyOutcome<K>,
    primary: Option<Primary>,
    steps: Seq<StackedCheck>,
    epoch: Option<u64>,
    v: Verdict<K>,
)
    requires
        before.wf(),
        before.fresh(),
        decided(before, after, parts, o, primary, steps, epoch, v),
        forall|i: int|
            0 <= i < steps.len() ==> (#[trigger] steps[i]).result !is ExtractionFailed,
    ensures
        v.decision is Admit,
{
    lemma_primary_of_the_first(
        before,
        LimiterShared { stack: before.stack, ..after },
        parts.method@,
        o,
        primary,
    );
    if stopped(steps) {
        let i = steps.len() - 1;
        assert(steps[i].result is Reject);
        assert(before.stack@[i].checks().len() == 0);
        assert(stepped(
            before.stack@[i],
            after.stack@[i],
            parts,
            before.settings.redact_keys,
            steps[i],
        ));
    }
}

proof fn lemma_primary_of_the_first<K: Hash + Eq + Clone + Debug + Send + Sync + 'static>(
    before: LimiterShared<K>,
    after: LimiterShared<K>,
    method: Seq<char>,
    o: KeyOutcome<K>,
    primary: Option<Primary>,
)
    requires
        before.wf(),
        before.fresh(),
        primary_ran(before, after, method, o, primary),
    ensures
        !primary_rejects(primary),
{
    if let Some(p) = primary {
        match method_slot(before.settings.quota_methods@, method) {
            Some(i) => {
                assert(first_method(before.settings.quota_methods@, method, i));
                assert(before.method_limiters@[i].1.log().len() == 0);
            },
            None => if o.quota_override is Some {
                let (cache, i) = choose|cache: LimiterShared<K>, i: int|
                    {
                        &&& cached_tier(before, cache, p.quota, i)
                        &&& #[trigger] tier_ran(cache, after, i, o.key, p)
                    };
                assert(!before.tier_cache.caches(p.quota));
                assert(cache.tier_cache@[i].log().len() == 0);
            },
        }
    }
}

/// What an admitted request is told remains is less than the burst that it is told of.
pub proof fn what_remains_is_below_the_burst<
    K: Hash + Eq + Clone + Debug + Send + Sync + 'static,
>(
    before: LimiterShared<K>,
    after: LimiterShared<K>,
    parts: &Parts,
    o: KeyOutcome<K>,
    primary: Option<Primary>,
    steps: Seq<StackedCheck>,
    epoch: Option<u64>,
    v: Verdict<K>,
)
    requires
        before.wf(),
        decided(before, after, parts, o, primary, steps, epoch, v),
        v.decision is Admit,
        policies_for(before, parts.method@, o.quota_override).len() > 0,
    ensures
        shown_remaining(lowest(primary_share(primary), steps)) < policies_for(
            before,
            parts.method@,
            o.quota_override,
        )[0].1.burst_limit(),
{
    let share = primary_share(primary);
    lemma_lowest_bounded(share, steps);
    match primary {
        Some(p) => {
            lemma_primary_remaining(
                before,
                LimiterShared { stack: before.stack, ..after },
                parts.method@,
                o,
                p,
            );
        },
        None => {
            assert(steps.len() == before.stack@.len());
            assert(stepped(
                before.stack@[0],
                after.stack@[0],
                parts,
                before.settings.redact_keys,
                steps[0],
            ));
            if steps.len() > 1 {
                assert(steps[0].result is Admit);
            }
            lowest_is_the_least(share, steps, 0);
        },
    }
}

proof fn lemma_primary_remaining<K: Hash + Eq + Clone + Debug + Send + Sync + 'static>(
    before: LimiterShared<K>,
    after: LimiterShared<K>,
    method: Seq<char>,
    o: KeyOutcome<K>,
    p: Primary,
)
    requires
        before.wf(),
        primary_ran(before, after, method, o, Some(p)),
    ensures
        p.outcome matches CheckOutcome::Admit { remaining } ==> remaining < p.quota.burst_limit(),
{
    match method_slot(before.settings.quota_methods@, method) {
        Some(i) => {
            assert(first_method(before.settings.quota_methods@, method, i));
            assert(before.method_limiters@[i].1.limit() == before.settings.quota_methods@[i].1);
        },
        None => if o.quota_override is Some {
            let (cache, i) = choose|cache: LimiterShared<K>, i: int|
                {
                    &&& cached_tier(before, cache, p.quota, i)
                    &&& #[trigger] tier_ran(cache, after, i, o.key, p)
                };
            assert(cache.tier_cache@[i].limit() == p.quota);
        },
    }
}

/// `b` is `a` but for the limiter and the tracker of the method at `i`, and the stack.
pub open spec fn same_but_method<K: Hash + Eq + Clone + Debug + Send + Sync + 'static>(
    a: LimiterShared<K>,
    b: LimiterShared<K>,
    i: int,
) -> bool {
    &&& b == (LimiterShared {
        method_limiters: b.method_limiters,
        method_trackers: b.method_trackers,
        stack: b.stack,
        ..a
    })
    &&& b.method_limiters@.len() == a.method_limiters@.len()
    &&& b.method_trackers@.len() == a.method_trackers@.len()
    &&& forall|j: int|
        0 <= j < b.method_limiters@.len() && j != i ==> #[trigger] b.method_limiters@[j]
            == a.method_limiters@[j]
    &&& forall|j: int|
        0 <= j < b.method_trackers@.len() && j != i ==> #[trigger] b.method_trackers@[j]
            == a.method_trackers@[j]
}

/// A request with the given method was answered between `before` and `after`.
pub open spec fn served<K: Hash + Eq + Clone + Debug + Send + Sync + 'static>(
    before: LimiterShared<K>,
    after: LimiterShared<K>,
    method: Seq<char>,
) -> bool {
    exists|parts: Parts, outcome: Result<KeyOutcome<K>, ExtractionError>, v: Verdict<K>|
        #[trigger] answered(before, after, &parts, outcome, v) && parts.method@ == method
}

/// However many requests with one method come in, whatever they carry, they use up nothing of
/// another method's budget, nor of the default one or of any override's.
pub proof fn a_flood_of_one_method_spares_the_others<
    K: Hash + Eq + Clone + Debug + Send + Sync + 'static,
>(states: Seq<LimiterShared<K>>, method: Seq<char>, i: int)
    requires
        states.len() > 0,
        method_slot(states[0].settings.quota_methods@, method) == Some(i),
        forall|k: int|
            0 <= k < states.len() - 1 ==> served(#[trigger] states[k], states[k + 1], method),
    ensures
        same_but_method(states[0], states.last(), i),
    decreases states.len(),
{
    if states.len() > 1 {
        let less = states.drop_last();
        assert forall|k: int| 0 <= k < less.len() - 1 implies served(
            #[trigger] less[k],
            less[k + 1],
            method,
        ) by {
            assert(served(states[k], states[k + 1], method));
        }
        a_flood_of_one_method_spares_the_others(less, method, i);
        let before = states[states.len() - 2];
        let after = states.last();
        assert(served(before, after, method));
        let (parts, outcome, v) = choose|
            parts: Parts,
            outcome: Result<KeyOutcome<K>, ExtractionError>,
            v: Verdict<K>,
        |
            #[trigger] answered(before, after, &parts, outcome, v) && parts.method@ == method;
        if let Ok(o) = outcome {
            let (primary, steps, epoch) = choose|
                primary: Option<Primary>,
                steps: Seq<StackedCheck>,
                epoch: Option<u64>,
            |
                #[trigger] decided(before, after, &parts, o, primary, steps, epoch, v);
            let through = LimiterShared { stack: before.stack, ..after };
            assert(primary_ran(before, through, method, o, primary));
            assert(same_but_method(before, through, i));
        }
        assert(same_but_method(before, after, i));
    }
}

/// The record of the primary limiter that a request meets.
pub open spec fn met_log<K: Hash + Eq + Clone + Debug + Send + Sync + 'static>(
    shared: LimiterShared<K>,
    method: Seq<char>,
    quota_override: Option<Quota>,
) -> Seq<LimiterEvent<K>> {
    match method_slot(shared.settings.quota_methods@, method) {
        Some(i) => shared.method_limiters@[i].1.log(),
        None => match quota_override {
            Some(q) => if shared.tier_cache.caches(q) {
                let i = choose|i: int|
                    0 <= i < shared.tier_cache@.len() && (#[trigger] shared.tier_cache@[i]).limit()
                        == q;
                shared.tier_cache@[i].log()
            } else {
                Seq::empty()
            },
            None => match shared.default_limiter {
                Some(l) => l.log(),
                None => Seq::empty(),
            },
        },
    }
}

/// What the primary limiter may say of a request.
pub open spec fn may_say<K: Hash + Eq + Clone + Debug + Send + Sync + 'static>(
    shared: LimiterShared<K>,
    method: Seq<char>,
    o: KeyOutcome<K>,
    primary: Option<Primary>,
) -> bool {
    match primary {
        None => primary_quota(shared.settings, method, o.quota_override) is None,
        Some(p) => {
            &&& primary_quota(shared.settings, method, o.quota_override) == Some(p.quota)
            &&& crate::limiter::answers(
                p.quota.burst_limit(),
                met_log(shared, method, o.quota_override),
                o.key,
                p.outcome,
            )
        },
    }
}

/// The answer of the primary limiter is one that its record allows.
proof fn lemma_may_say<K: Hash + Eq + Clone + Debug + Send + Sync + 'static>(
    before: LimiterShared<K>,
    after: LimiterShared<K>,
    method: Seq<char>,
    o: KeyOutcome<K>,
    primary: Option<Primary>,
)
    requires
        before.wf(),
        primary_ran(before, after, method, o, primary),
    ensures
        may_say(before, method, o, primary),
{
    if let Some(p) = primary {
        match method_slot(before.settings.quota_methods@, method) {
            Some(i) => {
                assert(first_method(before.settings.quota_methods@, method, i));
                assert(before.method_limiters@[i].1.limit() == before.settings.quota_methods@[i].1);
            },
            None => if let Some(q) = o.quota_override {
                let (cache, i) = choose|cache: LimiterShared<K>, i: int|
                    {
                        &&& cached_tier(before, cache, p.quota, i)
                        &&& #[trigger] tier_ran(cache, after, i, o.key, p)
                    };
                assert(cache.tier_cache@[i].limit() == p.quota);
                if before.tier_cache.caches(q) {
                    let k = choose|k: int|
                        0 <= k < before.tier_cache@.len() && (
                        #[trigger] before.tier_cache@[k]).limit() == q;
                    crate::cache::one_limiter_per_quota(before.tier_cache, i, k);
                } else {
                    assert(cache.tier_cache@[i].log() =~= Seq::<LimiterEvent<K>>::empty());
                }
            },
        }
    }
}

/// A request that does not meet the method at `i` is answered as if none of that method's
/// requests had been decided: the primary limiter may say the same, and the verdict follows
/// from it in the same way.
pub proof fn other_methods_are_answered_as_before<
    K: Hash + Eq + Clone + Debug + Send + Sync + 'static,
>(
    calm: LimiterShared<K>,
    flooded: LimiterShared<K>,
    after: LimiterShared<K>,
    i: int,
    parts: &Parts,
    o: KeyOutcome<K>,
    primary: Option<Primary>,
    steps: Seq<StackedCheck>,
    epoch: Option<u64>,
    v: Verdict<K>,
)
    requires
        flooded.wf(),
        same_but_method(calm, flooded, i),
        calm.stack@.len() == 0,
        flooded.stack@.len() == 0,
        method_slot(calm.settings.quota_methods@, parts.method@) != Some(i),
        decided(flooded, after, parts, o, primary, steps, epoch, v),
    ensures
        met_log(calm, parts.method@, o.quota_override) == met_log(
            flooded,
            parts.method@,
            o.quota_override,
        ),
        may_say(calm, parts.method@, o, primary),
        concluded(
            calm.stack@,
            primary_quota(calm.settings, parts.method@, o.quota_override),
            o.key,
            calm.settings.redact_keys,
            primary,
            steps,
            epoch,
            v.decision,
            crate::trace::event_views(v.events@),
        ),
{
    if let Some(j) = method_slot(calm.settings.quota_methods@, parts.method@) {
        assert(first_method(calm.settings.quota_methods@, parts.method@, j));
        assert(flooded.method_limiters@[j] == calm.method_limiters@[j]);
    }
    assert(calm.stack@ =~= flooded.stack@);
    lemma_may_say(
        flooded,
        LimiterShared { stack: flooded.stack, ..after },
        parts.method@,
        o,
        primary,
    );
}

/// An entry of the stack that finds no key counts nothing, and no entry behind it does. Where
/// it is the first limiter that the request meets, nothing at all is counted. The answer has
/// no rate-limit headers.
pub proof fn failed_stack_extraction_counts_nothing_more<
    K: Hash + Eq + Clone + Debug + Send + Sync + 'static,
>(
    before: LimiterShared<K>,
    after: LimiterShared<K>,
    parts: &Parts,
    o: KeyOutcome<K>,
    primary: Option<Primary>,
    steps: Seq<StackedCheck>,
    epoch: Option<u64>,
    v: Verdict<K>,
)
    requires
        decided(before, after, parts, o, primary, steps, epoch, v),
        steps.len() > 0,
        steps.last().result is ExtractionFailed,
    ensures
        v.decision matches Decision::Reject(r) && crate::header_map::header_contents(r.headers)
            == crate::header_map::no_headers() && crate::response::status_of(r.reason) != 429,
        ({
            let i = steps.len() - 1;
            &&& crate::limiters::same_top(after.stack@[i], before.stack@[i])
            &&& crate::limiters::same_store(after.stack@[i], before.stack@[i])
            &&& after.stack@[i].sweeps() == before.stack@[i].sweeps()
        }),
        forall|j: int|
            steps.len() <= j < before.stack@.len() ==> #[trigger] after.stack@[j]
                == before.stack@[j],
        primary is None && steps.len() == 1 ==> {
            &&& after.default_limiter == before.default_limiter
            &&& after.default_tracker == before.default_tracker
            &&& after.method_limiters == before.method_limiters
            &&& after.method_trackers == before.method_trackers
            &&& after.tier_cache == before.tier_cache
        },
{
    let i = steps.len() - 1;
    assert(stepped(
        before.stack@[i],
        after.stack@[i],
        parts,
        before.settings.redact_keys,
        steps[i],
    ));
}

/// Some limiter that admitted the request has `n` left: the primary one, or an entry of the
/// stack.
pub open spec fn left_by_some(primary: Option<Primary>, steps: Seq<StackedCheck>, n: u32) -> bool {
    ||| (primary matches Some(p) && p.outcome == CheckOutcome::Admit { remaining: n })
    ||| exists|i: int| 0 <= i < steps.len() && leaves(#[trigger] steps[i], n)
}

/// The entry of the stack admitted the request and has `n` left.
pub open spec fn leaves(step: StackedCheck, n: u32) -> bool {
    step.result == StackedResult::Admit { remaining: n }
}

/// No limiter that admitted the request has less than `n` left.
pub open spec fn none_leaves_less(
    primary: Option<Primary>,
    steps: Seq<StackedCheck>,
    n: u32,
) -> bool {
    forall|m: u32| left_by_some(primary, steps, m) ==> n <= m
}

/// The least is attained: it is the primary limiter's share or what some entry of the stack
/// has left.
pub proof fn the_least_is_attained(start: u32, steps: Seq<StackedCheck>)
    ensures
        lowest(start, steps) == start || exists|i: int|
            0 <= i < steps.len() && leaves(#[trigger] steps[i], lowest(start, steps)),
    decreases steps.len(),
{
    if steps.len() > 0 {
        let front = steps.drop_last();
        the_least_is_attained(start, front);
        let low = lowest(start, steps);
        if low == lowest(start, front) {
            if low != start {
                let i = choose|i: int| 0 <= i < front.len() && leaves(#[trigger] front[i], low);
                assert(leaves(steps[i], low));
            }
        } else {
            assert(leaves(steps[steps.len() - 1], low));
        }
    }
}

/// An admitted request that any policy applies to is shown one number in both families of
/// headers: what the tightest of the limiters that it met has left, attained by one of them
/// and no more than any of them has. The seconds beside it belong to that number.
pub proof fn an_admitted_request_sees_the_tightest_limiter<
    K: Hash + Eq + Clone + Debug + Send + Sync + 'static,
>(
    before: LimiterShared<K>,
    after: LimiterShared<K>,
    parts: &Parts,
    o: KeyOutcome<K>,
    primary: Option<Primary>,
    steps: Seq<StackedCheck>,
    epoch: Option<u64>,
    v: Verdict<K>,
) -> (n: u32)
    requires
        before.wf(),
        decided(before, after, parts, o, primary, steps, epoch, v),
        v.decision is Admit,
        policies_for(before, parts.method@, o.quota_override).len() > 0,
    ensures
        left_by_some(primary, steps, n),
        none_leaves_less(primary, steps, n),
        ({
            let headers = crate::header_map::header_contents(v.decision->Admit_0);
            let first = policies_for(before, parts.method@, o.quota_override)[0];
            let t = super::respond::replenish_seconds(first.1, n);
            &&& headers["x-ratelimit-remaining"@] == seq![
                vstd::utf8::encode_utf8(crate::text::decimal(n as nat)),
            ]
            &&& headers["ratelimit"@] == seq![
                vstd::utf8::encode_utf8(crate::headers::counter(first.0, n, t)),
            ]
            &&& headers["x-ratelimit-limit"@] == seq![
                vstd::utf8::encode_utf8(crate::text::decimal(first.1.burst_limit() as nat)),
            ]
            &&& !before.settings.legacy_reset_epoch ==> headers["x-ratelimit-reset"@] == seq![
                vstd::utf8::encode_utf8(crate::text::decimal(t as nat)),
            ]
            &&& !headers.contains_key("retry-after"@)
        }),
{
    let share = primary_share(primary);
    let low = lowest(share, steps);
    let n = shown_remaining(low);
    let policies = policies_for(before, parts.method@, o.quota_override);
    what_remains_is_below_the_burst(before, after, parts, o, primary, steps, epoch, v);
    admitted_means_all_admit(
        before.stack@,
        after.stack@,
        parts,
        primary_quota(before.settings, parts.method@, o.quota_override),
        o.key,
        before.settings.redact_keys,
        primary,
        steps,
        epoch,
        v.decision,
        crate::trace::event_views(v.events@),
    );
    the_least_is_attained(share, steps);
    if primary is None {
        // Without a primary limiter the first policy is that of the first entry.
        assert(steps.len() > 0);
        assert(steps[0].result is Admit);
        assert(stepped(
            before.stack@[0],
            after.stack@[0],
            parts,
            before.settings.redact_keys,
            steps[0],
        ));
        lowest_is_the_least(share, steps, 0);
    } else {
        lemma_primary_remaining(
            before,
            LimiterShared { stack: before.stack, ..after },
            parts.method@,
            o,
            primary->0,
        );
        lemma_lowest_bounded(share, steps);
    }
    assert(n == low);
    assert forall|m: u32| left_by_some(primary, steps, m) implies n <= m by {
        lemma_lowest_bounded(share, steps);
        if !(primary matches Some(p) && p.outcome == CheckOutcome::Admit { remaining: m }) {
            let i = choose|i: int| 0 <= i < steps.len() && leaves(#[trigger] steps[i], m);
            lowest_is_the_least(share, steps, i);
        }
    }
    super::respond::admission_numbers_agree(epoch, policies[0], n, policies);
    super::respond::an_admission_tells_when_it_is_full(epoch, policies[0], n, policies);
    n
}

/// A request is refused only for a cause: the primary limiter rejected it, or the last entry
/// of the stack that it met did, or found no key in it. What the refusal tells of the wait and
/// the policy is what that limiter said.
pub proof fn a_refusal_has_its_cause<K: Hash + Eq + Clone + Debug + Send + Sync + 'static>(
    before: LimiterShared<K>,
    after: LimiterShared<K>,
    parts: &Parts,
    o: KeyOutcome<K>,
    primary: Option<Primary>,
    steps: Seq<StackedCheck>,
    epoch: Option<u64>,
    v: Verdict<K>,
)
    requires
        decided(before, after, parts, o, primary, steps, epoch, v),
        v.decision is Reject,
    ensures
        match v.decision->Reject_0.reason {
            RejectionReason::QuotaExceeded { wait, snapshot, key, policy_name } => {
                ||| {
                    &&& primary matches Some(p)
                    &&& p.outcome == CheckOutcome::Reject { wait }
                    &&& snapshot.quota == p.quota
                    &&& snapshot.remaining == p.quota.burst_limit() - 1
                    &&& primary_quota(before.settings, parts.method@, o.quota_override) == Some(
                        p.quota,
                    )
                    &&& key == Some(o.key)
                    &&& policy_name@ == "default"@
                    &&& after.stack == before.stack
                }
                ||| {
                    &&& !primary_rejects(primary)
                    &&& 0 < steps.len() <= before.stack@.len()
                    &&& steps.last().result matches StackedResult::Reject { wait: w, .. }
                    &&& w == wait
                    &&& snapshot.quota == before.stack@[steps.len() - 1].limit()
                    &&& snapshot.remaining == snapshot.quota.burst_limit() - 1
                    &&& key is None
                    &&& policy_name@ == before.stack@[steps.len() - 1].label()
                }
            },
            RejectionReason::KeyExtractionFailed(e) => {
                &&& !primary_rejects(primary)
                &&& steps.len() > 0
                &&& steps.last().result == StackedResult::ExtractionFailed(e)
            },
        },
{
}

/// A request that every limiter admits is let through.
pub proof fn a_request_all_admit_passes<K: Hash + Eq + Clone + Debug + Send + Sync + 'static>(
    before: LimiterShared<K>,
    after: LimiterShared<K>,
    parts: &Parts,
    o: KeyOutcome<K>,
    primary: Option<Primary>,
    steps: Seq<StackedCheck>,
    epoch: Option<u64>,
    v: Verdict<K>,
)
    requires
        decided(before, after, parts, o, primary, steps, epoch, v),
        primary matches Some(p) ==> p.outcome is Admit,
        forall|i: int| 0 <= i < steps.len() ==> (#[trigger] steps[i]).result is Admit,
    ensures
        v.decision is Admit,
        steps.len() == before.stack@.len(),
{
    if stopped(steps) {
        assert(steps[steps.len() - 1].result is Admit);
    }
}

/// Requests that no policy applies to pass without a rate-limit header.
pub proof fn without_policies_no_header_is_set<
    K: Hash + Eq + Clone + Debug + Send + Sync + 'static,
>(
    before: LimiterShared<K>,
    after: LimiterShared<K>,
    parts: &Parts,
    o: KeyOutcome<K>,
    primary: Option<Primary>,
    steps: Seq<StackedCheck>,
    epoch: Option<u64>,
    v: Verdict<K>,
)
    requires
        decided(before, after, parts, o, primary, steps, epoch, v),
        before.stack@.len() == 0,
        primary_quota(before.settings, parts.method@, o.quota_override) is None,
    ensures
        v.decision matches Decision::Admit(h) && crate::header_map::header_contents(h)
            == Map::<Seq<char>, Seq<Seq<u8>>>::empty(),
{
    if stopped(steps) {
        assert(steps.len() <= before.stack@.len());
    }
}

/// A request is spared exactly when one entry of one of the three lists spares it: its method
/// is listed, a listed pattern matches its path, or a listed network holds its peer.
pub proof fn one_listed_entry_spares(settings: Settings, parts: Parts, i: int, ip: IpAddr)
    ensures
        0 <= i < settings.whitelist_methods@.len() && settings.whitelist_methods@[i]@
            == parts.method@ ==> whitelisted(settings, parts),
        0 <= i < settings.whitelist_paths@.len() && crate::glob::glob_match(
            settings.whitelist_paths@[i]@,
            parts.path@,
        ) ==> whitelisted(settings, parts),
        0 <= i < settings.whitelist_ips@.len() && parts.peer == Some(ip)
            && settings.whitelist_ips@[i].holds(ip) ==> whitelisted(settings, parts),
        ({
            &&& forall|j: int|
                0 <= j < settings.whitelist_methods@.len() ==> (
                #[trigger] settings.whitelist_methods@[j])@ != parts.method@
            &&& forall|j: int|
                0 <= j < settings.whitelist_paths@.len() ==> !crate::glob::glob_match(
                    (#[trigger] settings.whitelist_paths@[j])@,
                    parts.path@,
                )
            &&& parts.peer is None || forall|j: int|
                0 <= j < settings.whitelist_ips@.len() ==> !(
                #[trigger] settings.whitelist_ips@[j]).holds(parts.peer->0)
        }) ==> !whitelisted(settings, parts),
{
}

/// More entries in the lists spare no less.
pub proof fn a_longer_whitelist_spares_no_less(shorter: Settings, longer: Settings, parts: Parts)
    requires
        forall|i: int|
            0 <= i < shorter.whitelist_methods@.len() ==> longer.whitelist_methods@.contains(
                #[trigger] shorter.whitelist_methods@[i],
            ),
        forall|i: int|
            0 <= i < shorter.whitelist_paths@.len() ==> longer.whitelist_paths@.contains(
                #[trigger] shorter.whitelist_paths@[i],
            ),
        forall|i: int|
            0 <= i < shorter.whitelist_ips@.len() ==> longer.whitelist_ips@.contains(
                #[trigger] shorter.whitelist_ips@[i],
            ),
    ensures
        whitelisted(shorter, parts) ==> whitelisted(longer, parts),
{
    if spared_method(shorter, parts) {
        let i = choose|i: int|
            0 <= i < shorter.whitelist_methods@.len() && (
            #[trigger] shorter.whitelist_methods@[i])@ == parts.method@;
        let j = longer.whitelist_methods@.index_of(shorter.whitelist_methods@[i]);
        assert(longer.whitelist_methods@[j]@ == parts.method@);
    }
    if spared_path(shorter, parts) {
        let i = choose|i: int|
            0 <= i < shorter.whitelist_paths@.len() && crate::glob::glob_match(
                (#[trigger] shorter.whitelist_paths@[i])@,
                parts.path@,
            );
        let j = longer.whitelist_paths@.index_of(shorter.whitelist_paths@[i]);
        assert(crate::glob::glob_match(longer.whitelist_paths@[j]@, parts.path@));
    }
    if spared_peer(shorter, parts) {
        let ip = parts.peer->0;
        let i = choose|i: int|
            0 <= i < shorter.whitelist_ips@.len() && (#[trigger] shorter.whitelist_ips@[i]).holds(
                ip,
            );
        let j = longer.whitelist_ips@.index_of(shorter.whitelist_ips@[i]);
        assert(longer.whitelist_ips@[j].holds(ip));
    }
}

/// The event of a rejection tells the burst, the policy and the whole milliseconds of the wait.
pub proof fn a_logged_rejection_tells_the_wait(
    policy: (Seq<char>, Quota),
    wait: Duration,
    key: Seq<char>,
)
    requires
        wait.wf(),
    ensures
        reject_event(policy, wait, key) matches EventView::Rejected {
            key: k,
            quota_burst,
            wait_ms,
            policy: name,
        } && k == key && quota_burst == policy.1.burst_limit() && name == policy.0 && wait_ms
            * 1_000_000 <= wait.total() < (wait_ms + 1) * 1_000_000,
{
}

/// Every eviction that a walk caused is logged under the entry's name, and nothing else is.
pub proof fn every_eviction_is_logged(stack: Seq<Stacked>, steps: Seq<StackedCheck>)
    ensures
        forall|i: int|
            0 <= i < steps.len() && (#[trigger] steps[i]).evicted ==> walk_events(
                stack,
                steps,
            ).contains(EventView::Evicted { policy: stack[i].label() }),
        forall|k: int|
            0 <= k < walk_events(stack, steps).len() ==> stems_from_step(
                stack,
                steps,
                #[trigger] walk_events(stack, steps)[k],
            ),
        walk_events(stack, steps).len() <= steps.len(),
    decreases steps.len(),
{
    if steps.len() > 0 {
        let front = steps.drop_last();
        let last = steps.len() - 1;
        every_eviction_is_logged(stack, front);
        let before = walk_events(stack, front);
        let all = walk_events(stack, steps);
        assert forall|i: int| 0 <= i < steps.len() && (#[trigger] steps[i]).evicted implies
            all.contains(EventView::Evicted { policy: stack[i].label() }) by {
            let event = EventView::Evicted { policy: stack[i].label() };
            if i < last {
                assert(front[i].evicted);
                let k = choose|k: int| 0 <= k < before.len() && before[k] == event;
                assert(all[k] == event);
            } else {
                assert(all[all.len() - 1] == event);
            }
        }
        assert forall|k: int| 0 <= k < all.len() implies stems_from_step(
            stack,
            steps,
            #[trigger] all[k],
        ) by {
            if k < before.len() {
                assert(stems_from_step(stack, front, before[k]));
                let i = choose|i: int|
                    0 <= i < front.len() && (#[trigger] front[i]).evicted && before[k]
                        == (EventView::Evicted { policy: stack[i].label() });
                assert(steps[i].evicted);
            } else {
                assert(steps[last].evicted);
            }
        }
    }
}

/// The event tells that an entry of the stack pushed a key out in one of the steps.
pub open spec fn stems_from_step(
    stack: Seq<Stacked>,
    steps: Seq<StackedCheck>,
    event: EventView,
) -> bool {
    exists|i: int|
        0 <= i < steps.len() && (#[trigger] steps[i]).evicted && event == (EventView::Evicted {
            policy: stack[i].label(),
        })
}

/// What is logged of a request ends with its refusal, where it is refused, and holds nothing
/// but evictions beside it.
pub proof fn a_refusal_is_logged_last<K: Hash + Eq + Clone + Debug + Send + Sync + 'static>(
    before: LimiterShared<K>,
    after: LimiterShared<K>,
    parts: &Parts,
    o: KeyOutcome<K>,
    primary: Option<Primary>,
    steps: Seq<StackedCheck>,
    epoch: Option<u64>,
    v: Verdict<K>,
)
    requires
        decided(before, after, parts, o, primary, steps, epoch, v),
    ensures
        ({
            let events = crate::trace::event_views(v.events@);
            match v.decision {
                Decision::Admit(_) => forall|i: int|
                    0 <= i < events.len() ==> #[trigger] events[i] is Evicted,
                Decision::Reject(r) => {
                    &&& events.len() > 0
                    &&& forall|i: int|
                        0 <= i < events.len() - 1 ==> #[trigger] events[i] is Evicted
                    &&& match r.reason {
                        RejectionReason::KeyExtractionFailed(e) => events.last() == (
                        EventView::ExtractionFailed { error: e.message() }),
                        RejectionReason::QuotaExceeded { wait, snapshot, policy_name, .. } =>
                            exists|key: Seq<char>|
                            events.last() == #[trigger] reject_event(
                                (policy_name@, snapshot.quota),
                                wait,
                                key,
                            ),
                    }
                },
            }
        }),
{
    let stack = before.stack@;
    let noted = primary_events(primary) + walk_events(stack, steps);
    every_eviction_is_logged(stack, steps);
    assert forall|i: int| 0 <= i < noted.len() implies #[trigger] noted[i] is Evicted by {
        let first = primary_events(primary);
        if i >= first.len() {
            let k = i - first.len();
            assert(noted[i] == walk_events(stack, steps)[k]);
            assert(stems_from_step(stack, steps, walk_events(stack, steps)[k]));
        }
    }
    let events = crate::trace::event_views(v.events@);
    match v.decision {
        Decision::Admit(_) => {
            assert(events == noted);
        },
        Decision::Reject(r) => {
            assert(events.drop_last() =~= noted);
            assert forall|i: int| 0 <= i < events.len() - 1 implies #[trigger]
                events[i] is Evicted by {
                assert(events.drop_last()[i] == events[i]);
            }
        },
    }
}

/// The clock is read for the reset exactly where it is shown as an epoch.
pub proof fn the_clock_is_read_for_an_epoch_only<
    K: Hash + Eq + Clone + Debug + Send + Sync + 'static,
>(
    before: LimiterShared<K>,
    after: LimiterShared<K>,
    parts: &Parts,
    o: KeyOutcome<K>,
    primary: Option<Primary>,
    steps: Seq<StackedCheck>,
    epoch: Option<u64>,
    v: Verdict<K>,
)
    requires
        decided(before, after, parts, o, primary, steps, epoch, v),
    ensures
        epoch is Some <==> before.settings.legacy_reset_epoch,
{
}

/// The record of the limiter that took the request holds the check under its key, with the
/// outcome that decides, and a sweep behind it exactly where the tracker pushed a key out.
pub open spec fn recorded<K>(
    before: Seq<LimiterEvent<K>>,
    after: Seq<LimiterEvent<K>>,
    key: K,
    p: Primary,
) -> bool {
    &&& after.len() == before.len() + (if p.evicted {
        2int
    } else {
        1int
    })
    &&& after[before.len() as int] == LimiterEvent::Checked(key, p.outcome)
    &&& after.last() is Swept <==> p.evicted
    &&& after.take(before.len() as int) == before
}

/// The primary limiter that takes a request records it: that of the method, else that of the
/// override, else the default one.
pub proof fn the_primary_limiter_records_the_request<
    K: Hash + Eq + Clone + Debug + Send + Sync + 'static,
>(
    before: LimiterShared<K>,
    after: LimiterShared<K>,
    method: Seq<char>,
    o: KeyOutcome<K>,
    p: Primary,
    i: int,
)
    requires
        primary_ran(before, after, method, o, Some(p)),
    ensures
        first_method(before.settings.quota_methods@, method, i) ==> recorded(
            before.method_limiters@[i].1.log(),
            after.method_limiters@[i].1.log(),
            o.key,
            p,
        ),
        ({
            &&& forall|j: int|
                0 <= j < before.settings.quota_methods@.len() ==> (
                #[trigger] before.settings.quota_methods@[j]).0@ != method
            &&& o.quota_override is None
        }) ==> before.default_limiter is Some && after.default_limiter is Some && recorded(
            before.default_limiter->0.log(),
            after.default_limiter->0.log(),
            o.key,
            p,
        ),
        ({
            &&& forall|j: int|
                0 <= j < before.settings.quota_methods@.len() ==> (
                #[trigger] before.settings.quota_methods@[j]).0@ != method
            &&& o.quota_override is Some
        }) ==> exists|k: int|
            {
                &&& 0 <= k < after.tier_cache@.len()
                &&& (#[trigger] after.tier_cache@[k]).limit() == o.quota_override->0
                &&& k < before.tier_cache@.len() ==> recorded(
                    before.tier_cache@[k].log(),
                    after.tier_cache@[k].log(),
                    o.key,
                    p,
                )
                &&& k >= before.tier_cache@.len() ==> recorded(
                    Seq::empty(),
                    after.tier_cache@[k].log(),
                    o.key,
                    p,
                )
            },
{
    let methods = before.settings.quota_methods@;
    if first_method(methods, method, i) {
        let k = choose|k: int| first_method(methods, method, k);
        assert(first_method(methods, method, k));
        if k < i {
            assert(methods[k].0@ != method);
        } else if i < k {
            assert(methods[i].0@ != method);
        }
        lemma_recorded(before.method_limiters@[i].1.log(), o.key, p);
    }
    if forall|j: int| 0 <= j < methods.len() ==> (#[trigger] methods[j]).0@ != method {
        if let Some(k) = method_slot(methods, method) {
            assert(first_method(methods, method, k));
        }
        if o.quota_override is None {
            lemma_recorded(before.default_limiter->0.log(), o.key, p);
        } else {
            let (cache, k) = choose|cache: LimiterShared<K>, k: int|
                {
                    &&& cached_tier(before, cache, p.quota, k)
                    &&& #[trigger] tier_ran(cache, after, k, o.key, p)
                };
            lemma_recorded(cache.tier_cache@[k].log(), o.key, p);
            if before.tier_cache.caches(p.quota) {
                assert(cache.tier_cache@[k] == before.tier_cache@[k]);
            } else {
                assert(cache.tier_cache@[k].log() =~= Seq::empty());
            }
            assert(after.tier_cache@[k].limit() == o.quota_override->0);
        }
    }
}

proof fn lemma_recorded<K>(log: Seq<LimiterEvent<K>>, key: K, p: Primary)
    ensures
        recorded(log, asked(log, key, p), key, p),
{
    assert(asked(log, key, p).take(log.len() as int) =~= log);
}

/// The tracker of the primary limiter pushes a key out, and the limiter is swept, exactly when
/// a configured bound is reached and the key is new to it.
pub proof fn a_full_tracker_sweeps_for_a_new_key<
    K: Hash + Eq + Clone + Debug + Send + Sync + 'static,
>(before: KeyTracker<K>, after: KeyTracker<K>, key: K, p: Primary, i: int)
    requires
        before.wf(),
        before.in_order(),
        tracker_noted(before, after, key, p),
    ensures
        0 <= i < before@.len() && before@[i].0 == key ==> !p.evicted,
        before.limit() is None ==> !p.evicted,
        (before.limit() is Some && before@.len() == before.limit()->0 && forall|j: int|
            0 <= j < before@.len() ==> (#[trigger] before@[j]).0 != key) ==> p.evicted,
        before.limit() is Some && before@.len() < before.limit()->0 ==> !p.evicted,
        before.limit() != Some(0usize) ==> after@.len() > 0 && after@.last().0 == key,
{
    before.keeps_to_its_bound();
    crate::tracker::a_table_has_a_bound(0);
    if before.cap() > 0 {
        crate::tracker::touched_key_is_dropped_last(before@, key, before.cap());
    }
    if 0 <= i < before@.len() && before@[i].0 == key {
        assert(crate::tracker::tracks(before@, key));
    }
}

/// Every entry of the stack that a request meets has counted it, once, with the result that
/// decides, and those that it does not meet have not.
pub proof fn every_entry_met_counts_the_request(
    before: Seq<Stacked>,
    after: Seq<Stacked>,
    parts: &Parts,
    redact: bool,
    steps: Seq<StackedCheck>,
    i: int,
)
    requires
        walked(before, after, parts, redact, steps),
        0 <= i < before.len(),
    ensures
        i < steps.len() ==> {
            &&& after[i].history().len() == before[i].history().len() + 1
            &&& after[i].history().last() == (StackedEvent::Checked {
                parts: *parts,
                redact,
                check: steps[i],
            })
            &&& after[i].checks().last() == steps[i].result
            &&& after[i].checks().len() == before[i].checks().len() + 1
        },
        i >= steps.len() ==> after[i] == before[i],
        i >= steps.len() ==> 0 < steps.len() && steps.last().result !is Admit,
{
    if i < steps.len() {
        assert(stepped(before[i], after[i], parts, redact, steps[i]));
    }
}

/// A refusal over quota carries the wait, the policy that refused with nothing left, and the
/// list of all policies that apply; one for want of a key carries no header.
pub proof fn a_refusal_carries_its_headers<K: Hash + Eq + Clone + Debug + Send + Sync + 'static>(
    before: LimiterShared<K>,
    after: LimiterShared<K>,
    parts: &Parts,
    o: KeyOutcome<K>,
    primary: Option<Primary>,
    steps: Seq<StackedCheck>,
    epoch: Option<u64>,
    v: Verdict<K>,
)
    requires
        decided(before, after, parts, o, primary, steps, epoch, v),
        v.decision is Reject,
    ensures
        ({
            let headers = crate::header_map::header_contents(v.decision->Reject_0.headers);
            match v.decision->Reject_0.reason {
                RejectionReason::KeyExtractionFailed(_) => headers == Map::<
                    Seq<char>,
                    Seq<Seq<u8>>,
                >::empty(),
                RejectionReason::QuotaExceeded { wait, snapshot, policy_name, .. } => {
                    let retry = if wait.secs() >= 1 {
                        wait.secs() as nat
                    } else {
                        1
                    };
                    &&& headers["retry-after"@] == seq![
                        vstd::utf8::encode_utf8(crate::text::decimal(retry)),
                    ]
                    &&& headers["ratelimit"@] == seq![
                        vstd::utf8::encode_utf8(
                            crate::headers::counter(policy_name@, 0, wait.secs()),
                        ),
                    ]
                    &&& headers["ratelimit-policy"@] == seq![
                        vstd::utf8::encode_utf8(
                            crate::headers::policy_list(
                                policies_for(before, parts.method@, o.quota_override),
                            ),
                        ),
                    ]
                    &&& headers["x-ratelimit-limit"@] == seq![
                        vstd::utf8::encode_utf8(
                            crate::text::decimal(snapshot.quota.burst_limit() as nat),
                        ),
                    ]
                    &&& headers["x-ratelimit-remaining"@] == seq![
                        vstd::utf8::encode_utf8(crate::text::decimal(0)),
                    ]
                    &&& !before.settings.legacy_reset_epoch ==> headers["x-ratelimit-reset"@]
                        == seq![
                        vstd::utf8::encode_utf8(crate::text::decimal(wait.secs() as nat)),
                    ]
                },
            }
        }),
{
    if let RejectionReason::QuotaExceeded { wait, snapshot, policy_name, .. } =
        v.decision->Reject_0.reason {
        let policy = (policy_name@, snapshot.quota);
        let policies = policies_for(before, parts.method@, o.quota_override);
        assert(crate::header_map::header_contents(v.decision->Reject_0.headers)
            == super::respond::reject_contents(epoch, policy, wait, policies));
        super::respond::a_rejection_tells_how_long_to_wait(epoch, policy, wait, policies);
        super::respond::every_answer_lists_all_policies(epoch, policy, 0, wait, policies);
    }
}

}
