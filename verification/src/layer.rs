//! The limiters of a layer, built from a configuration.
use std::fmt::Debug;
use std::hash::Hash;

use vstd::prelude::*;

use crate::builder::{ExtractorSlot, GovernorConfig, Settings};
use crate::cache::LimiterCache;
use crate::headers::{render_policy_value, PolicyDescriptor};
use crate::limiter::{Limiter, LimiterEvent};
use crate::limiters::{StackFactory, Stacked, StackedEvent};
use crate::quota::Quota;
use crate::request::Method;
use crate::snapshot::LimiterHandle;
use crate::tracker::KeyTracker;

verus! {

/// A policy that is kept: its name and its quota.
#[derive(Clone, Debug)]
pub struct PolicyDescriptorOwned {
    pub name: String,
    pub quota: Quota,
}

/// The text of a `RateLimit-Policy` header with the policies that it lists.
#[derive(Debug)]
pub struct PolicyEntry {
    pub header: String,
    pub descriptors: Vec<PolicyDescriptorOwned>,
}

/// Kept policies by name and quota.
pub open spec fn owned(policies: Seq<PolicyDescriptorOwned>) -> Seq<(Seq<char>, Quota)> {
    policies.map_values(|p: PolicyDescriptorOwned| (p.name@, p.quota))
}

/// The names of the policies can stand in a header.
pub open spec fn names_ok(policies: Seq<(Seq<char>, Quota)>) -> bool {
    forall|i: int|
        0 <= i < policies.len() ==> crate::header_map::text_ok((#[trigger] policies[i]).0)
}

impl PolicyEntry {
    /// The entry lists exactly `policies`, and there is at least one.
    pub open spec fn lists(&self, policies: Seq<(Seq<char>, Quota)>) -> bool {
        &&& policies.len() > 0
        &&& owned(self.descriptors@) == policies
        &&& self.header@ == crate::headers::policy_list(policies)
        &&& crate::header_map::text_ok(self.header@)
    }
}

/// The policies of a stack, in order.
pub open spec fn stack_policies(stack: Seq<Stacked>) -> Seq<(Seq<char>, Quota)> {
    stack.map_values(|s: Stacked| (s.label(), s.limit()))
}

/// The policy of the primary limiter, called `default`, if there is one.
pub open spec fn primary_policy(primary: Option<Quota>) -> Seq<(Seq<char>, Quota)> {
    match primary {
        Some(q) => seq![("default"@, q)],
        None => Seq::empty(),
    }
}

/// Every policy that applies: that of the primary limiter and those of the stack.
pub open spec fn advertised(primary: Option<Quota>, stack: Seq<Stacked>) -> Seq<
    (Seq<char>, Quota),
> {
    primary_policy(primary) + stack_policies(stack)
}

/// An optional entry lists exactly `policies`; there is none when there is nothing to list.
pub open spec fn entry_lists(entry: Option<PolicyEntry>, policies: Seq<(Seq<char>, Quota)>) -> bool {
    match entry {
        Some(e) => e.lists(policies),
        None => policies.len() == 0,
    }
}

/// The limiters of a layer and what requests need beside them.
#[verifier::reject_recursive_types(K)]
pub struct LimiterShared<K: Hash + Eq + Clone + Debug + Send + Sync + 'static> {
    pub extractor: ExtractorSlot<K>,
    pub settings: Settings,
    pub default_limiter: Option<Limiter<K>>,
    pub default_tracker: Option<KeyTracker<K>>,
    /// One limiter per entry of `settings.quota_methods`, in the same order.
    pub method_limiters: Vec<(Method, Limiter<K>)>,
    pub method_trackers: Vec<(Method, KeyTracker<K>)>,
    /// The stack, in the order in which requests are checked.
    pub stack: Vec<Stacked>,
    /// Limiters for quota overrides.
    pub tier_cache: LimiterCache<K>,
    /// Name of the primary policy.
    pub default_label: String,
    /// `RateLimit-Policy` where no method has a quota of its own.
    pub policy_default: Option<PolicyEntry>,
    /// `RateLimit-Policy` for each method with a quota of its own.
    pub policy_per_method: Vec<(Method, PolicyEntry)>,
}

/// A tracker under the configured bound.
pub open spec fn tracker_ok<K: Hash + Eq + Clone + Debug + Send + Sync + 'static>(
    t: KeyTracker<K>,
    settings: Settings,
) -> bool {
    t.wf() && t.limit() == settings.max_keys
}

/// A stack entry is in good order and can be advertised.
pub open spec fn stacked_ok(s: Stacked) -> bool {
    s.wf() && s.limit().usable() && crate::header_map::text_ok(s.label())
}

/// Nothing has been asked of a stack entry yet, and it shows no keys.
pub open spec fn unused(s: Stacked) -> bool {
    &&& s.checks().len() == 0
    &&& s.sweeps() == 0
    &&& s.history().len() == 0
    &&& forall|n: nat, top: Seq<(String, u64)>| #[trigger] s.shows_top(n, top) ==> top.len() == 0
    &&& forall|n: usize| #[trigger] s.may_hold(n) ==> n == 0
}

/// Every entry of a stack keeps track of at most the configured number of keys.
pub open spec fn stack_bounded(stack: Seq<Stacked>, settings: Settings) -> bool {
    forall|i: int|
        0 <= i < stack.len() ==> (#[trigger] stack[i]).key_bound() == settings.max_keys
}

/// Every entry of a stack is in good order.
pub open spec fn stack_ok(stack: Seq<Stacked>) -> bool {
    forall|i: int| 0 <= i < stack.len() ==> stacked_ok(#[trigger] stack[i])
}

/// The entries of two stacks have their keys from the same extractors.
pub open spec fn same_sources(a: Seq<Stacked>, b: Seq<Stacked>) -> bool {
    &&& a.len() == b.len()
    &&& forall|i: int| 0 <= i < a.len() ==> crate::limiters::same_source(#[trigger] a[i], b[i])
}

impl<K: Hash + Eq + Clone + Debug + Send + Sync + 'static> LimiterShared<K> {
    /// The primary limiter is there exactly when there is a default quota, and counts it.
    pub open spec fn default_ok(&self) -> bool {
        &&& match (self.default_limiter, self.settings.quota_default) {
            (Some(l), Some(q)) => l.wf() && l.limit() == q,
            (None, None) => true,
            _ => false,
        }
        &&& match self.default_tracker {
            Some(t) => self.default_limiter is Some && tracker_ok(t, self.settings),
            None => self.default_limiter is None,
        }
    }

    /// Each method with a quota of its own has a limiter and a tracker.
    pub open spec fn methods_ok(&self) -> bool {
        &&& self.method_limiters@.len() == self.settings.quota_methods@.len()
        &&& self.method_trackers@.len() == self.settings.quota_methods@.len()
        &&& forall|i: int|
            0 <= i < self.method_limiters@.len() ==> {
                &&& (#[trigger] self.method_limiters@[i]).0@ == self.settings.quota_methods@[i].0@
                &&& self.method_limiters@[i].1.wf()
                &&& self.method_limiters@[i].1.limit() == self.settings.quota_methods@[i].1
            }
        &&& forall|i: int|
            0 <= i < self.method_trackers@.len() ==> {
                &&& (#[trigger] self.method_trackers@[i]).0@ == self.settings.quota_methods@[i].0@
                &&& tracker_ok(self.method_trackers@[i].1, self.settings)
            }
    }

    /// The prepared policy headers list what applies.
    pub open spec fn policies_ok(&self) -> bool {
        &&& self.default_label@ == "default"@
        &&& entry_lists(
            self.policy_default,
            advertised(self.settings.quota_default, self.stack@),
        )
        &&& self.policy_per_method@.len() == self.settings.quota_methods@.len()
        &&& forall|i: int|
            0 <= i < self.policy_per_method@.len() ==> {
                &&& (#[trigger] self.policy_per_method@[i]).0@ == self.settings.quota_methods@[i].0@
                &&& self.policy_per_method@[i].1.lists(
                    advertised(Some(self.settings.quota_methods@[i].1), self.stack@),
                )
            }
    }

    /// Limiters, trackers and prepared headers fit the settings.
    pub open spec fn wf(&self) -> bool {
        &&& self.settings.usable()
        &&& self.default_ok()
        &&& self.methods_ok()
        &&& stack_ok(self.stack@)
        &&& stack_bounded(self.stack@, self.settings)
        &&& self.tier_cache.wf()
        &&& self.policies_ok()
    }

    /// Nothing has been asked of any limiter yet.
    pub open spec fn fresh(&self) -> bool {
        &&& self.default_limiter matches Some(l) ==> l.log().len() == 0
        &&& self.default_tracker matches Some(t) ==> t@.len() == 0 && t.touch_count() == 0
        &&& forall|i: int|
            0 <= i < self.method_limiters@.len() ==> (
            #[trigger] self.method_limiters@[i]).1.log().len() == 0
        &&& forall|i: int|
            0 <= i < self.method_trackers@.len() ==> (#[trigger] self.method_trackers@[i]).1@.len()
                == 0 && self.method_trackers@[i].1.touch_count() == 0
        &&& forall|i: int|
            0 <= i < self.stack@.len() ==> unused(#[trigger] self.stack@[i])
        &&& self.tier_cache@.len() == 0
    }

    /// Everything but the limiters and trackers is as it was, and the stack has the same
    /// policies and extractors.
    pub open spec fn same_setup(&self, other: &Self) -> bool {
        &&& self.extractor == other.extractor
        &&& self.settings == other.settings
        &&& self.default_label == other.default_label
        &&& self.policy_default == other.policy_default
        &&& self.policy_per_method == other.policy_per_method
        &&& stack_policies(self.stack@) == stack_policies(other.stack@)
        &&& same_sources(self.stack@, other.stack@)
    }

    /// Drop stale keys from every limiter.
    pub fn retain_all(&mut self)
        requires
            old(self).wf(),
        ensures
            final(self).wf(),
            final(self).same_setup(old(self)),
            final(self).default_tracker == old(self).default_tracker,
            final(self).method_trackers == old(self).method_trackers,
            old(self).default_limiter matches Some(l) ==> final(self).default_limiter->0.log()
                == l.log().push(LimiterEvent::Swept),
            forall|i: int|
                0 <= i < final(self).method_limiters@.len() ==> (
                #[trigger] final(self).method_limiters@[i]).1.log() == old(
                    self,
                ).method_limiters@[i].1.log().push(LimiterEvent::Swept),
            final(self).stack@.len() == old(self).stack@.len(),
            forall|i: int|
                0 <= i < final(self).stack@.len() ==> {
                    &&& (#[trigger] final(self).stack@[i]).sweeps() == old(self).stack@[i].sweeps()
                        + 1
                    &&& final(self).stack@[i].checks() == old(self).stack@[i].checks()
                    &&& final(self).stack@[i].history() == old(self).stack@[i].history().push(
                        StackedEvent::Swept,
                    )
                    &&& old(self).stack@[i].may_have(final(self).stack@[i].history())
                    &&& crate::limiters::same_top(final(self).stack@[i], old(self).stack@[i])
                },
            final(self).tier_cache@.len() == old(self).tier_cache@.len(),
            forall|i: int|
                0 <= i < final(self).tier_cache@.len() ==> (
                #[trigger] final(self).tier_cache@[i]).log() == old(self).tier_cache@[i].log().push(
                    LimiterEvent::Swept,
                ),
    {
        let ghost start = *self;
        if let Some(l) = &mut self.default_limiter {
            l.retain_recent();
        }
        sweep_methods(&mut self.method_limiters);
        sweep_stack(&mut self.stack);
        self.tier_cache.retain_all();
        assert(stack_policies(self.stack@) =~= stack_policies(start.stack@));
    }
}

fn sweep_methods<K: Hash + Eq + Clone + Debug + Send + Sync + 'static>(
    limiters: &mut Vec<(Method, Limiter<K>)>,
)
    requires
        forall|i: int| 0 <= i < old(limiters)@.len() ==> (#[trigger] old(limiters)@[i]).1.wf(),
    ensures
        final(limiters)@.len() == old(limiters)@.len(),
        forall|i: int|
            0 <= i < final(limiters)@.len() ==> {
                &&& (#[trigger] final(limiters)@[i]).0 == old(limiters)@[i].0
                &&& final(limiters)@[i].1.wf()
                &&& final(limiters)@[i].1.limit() == old(limiters)@[i].1.limit()
                &&& final(limiters)@[i].1.log() == old(limiters)@[i].1.log().push(
                    LimiterEvent::Swept,
                )
            },
{
    let ghost start = limiters@;
    let mut i: usize = 0;
    while i < limiters.len()
        invariant
            i <= limiters@.len(),
            limiters@.len() == start.len(),
            forall|j: int|
                0 <= j < i ==> {
                    &&& (#[trigger] limiters@[j]).0 == start[j].0
                    &&& limiters@[j].1.wf()
                    &&& limiters@[j].1.limit() == start[j].1.limit()
                    &&& limiters@[j].1.log() == start[j].1.log().push(LimiterEvent::Swept)
                },
            forall|j: int| i <= j < limiters@.len() ==> #[trigger] limiters@[j] == start[j],
            forall|j: int| 0 <= j < start.len() ==> (#[trigger] start[j]).1.wf(),
        decreases limiters@.len() - i,
    {
        assert(start[i as int].1.wf());
        limiters[i].1.retain_recent();
        i = i + 1;
    }
}

fn sweep_stack(stack: &mut Vec<Stacked>)
    requires
        stack_ok(old(stack)@),
    ensures
        stack_ok(final(stack)@),
        final(stack)@.len() == old(stack)@.len(),
        forall|i: int|
            0 <= i < final(stack)@.len() ==> {
                &&& (#[trigger] final(stack)@[i]).label() == old(stack)@[i].label()
                &&& final(stack)@[i].limit() == old(stack)@[i].limit()
                &&& final(stack)@[i].checks() == old(stack)@[i].checks()
                &&& final(stack)@[i].history() == old(stack)@[i].history().push(
                    StackedEvent::Swept,
                )
                &&& old(stack)@[i].may_have(final(stack)@[i].history())
                &&& final(stack)@[i].sweeps() == old(stack)@[i].sweeps() + 1
                &&& crate::limiters::same_source(final(stack)@[i], old(stack)@[i])
                &&& crate::limiters::same_top(final(stack)@[i], old(stack)@[i])
            },
{
    let ghost start = stack@;
    let mut i: usize = 0;
    while i < stack.len()
        invariant
            i <= stack@.len(),
            stack_ok(stack@),
            stack@.len() == start.len(),
            forall|j: int|
                0 <= j < i ==> {
                    &&& (#[trigger] stack@[j]).label() == start[j].label()
                    &&& stack@[j].limit() == start[j].limit()
                    &&& stack@[j].checks() == start[j].checks()
                    &&& stack@[j].history() == start[j].history().push(StackedEvent::Swept)
                    &&& start[j].may_have(stack@[j].history())
                    &&& stack@[j].sweeps() == start[j].sweeps() + 1
                    &&& crate::limiters::same_source(stack@[j], start[j])
                    &&& crate::limiters::same_top(stack@[j], start[j])
                },
            forall|j: int| i <= j < stack@.len() ==> #[trigger] stack@[j] == start[j],
        decreases stack@.len() - i,
    {
        assert(stacked_ok(stack@[i as int]));
        stack[i].runner.retain_recent();
        i = i + 1;
    }
}

/// Every policy of the stack, kept.
fn keep_stack_policies(stack: &Vec<Stacked>) -> (kept: Vec<PolicyDescriptorOwned>)
    ensures
        owned(kept@) == stack_policies(stack@),
{
    let mut kept: Vec<PolicyDescriptorOwned> = Vec::new();
    let mut i: usize = 0;
    assert(owned(kept@) =~= stack_policies(stack@.take(0)));
    while i < stack.len()
        invariant
            i <= stack@.len(),
            owned(kept@) == stack_policies(stack@.take(i as int)),
        decreases stack@.len() - i,
    {
        let ghost before = kept@;
        kept.push(
            PolicyDescriptorOwned { name: stack[i].name().to_owned(), quota: stack[i].quota() },
        );
        proof {
            assert(stack@.take(i + 1) =~= stack@.take(i as int).push(stack@[i as int]));
            assert(owned(kept@) =~= owned(before).push((kept@.last().name@, kept@.last().quota)));
            assert(stack_policies(stack@.take(i + 1)) =~= stack_policies(stack@.take(i as int)).push(
                (stack@[i as int].label(), stack@[i as int].limit()),
            ));
        }
        i = i + 1;
    }
    assert(stack@.take(stack@.len() as int) =~= stack@);
    kept
}

/// The policy that comes before those of the stack, if there is one.
pub open spec fn first_policy(primary: Option<PolicyDescriptorOwned>) -> Seq<(Seq<char>, Quota)> {
    match primary {
        Some(p) => seq![(p.name@, p.quota)],
        None => Seq::empty(),
    }
}

/// The policy header for a primary quota and a stack; none when there is nothing to list.
pub fn build_policy_entry(
    primary: Option<PolicyDescriptorOwned>,
    stack: &Vec<PolicyDescriptorOwned>,
) -> (entry: Option<PolicyEntry>)
    requires
        primary matches Some(p) ==> crate::header_map::text_ok(p.name@),
        names_ok(owned(stack@)),
    ensures
        entry_lists(entry, first_policy(primary) + owned(stack@)),
{
    let mut kept: Vec<PolicyDescriptorOwned> = Vec::new();
    let ghost first = first_policy(primary);
    if let Some(p) = primary {
        kept.push(p);
    }
    assert(owned(kept@) =~= first);
    assert(owned(stack@.take(0)) =~= Seq::<(Seq<char>, Quota)>::empty());
    assert(owned(kept@) =~= first + owned(stack@.take(0)));
    let mut i: usize = 0;
    while i < stack.len()
        invariant
            i <= stack@.len(),
            owned(kept@) == first + owned(stack@.take(i as int)),
        decreases stack@.len() - i,
    {
        let ghost before = kept@;
        kept.push(PolicyDescriptorOwned { name: stack[i].name.clone(), quota: stack[i].quota });
        proof {
            assert(owned(stack@.take(i + 1)) =~= owned(stack@.take(i as int)).push(
                (stack@[i as int].name@, stack@[i as int].quota),
            ));
            assert(owned(kept@) =~= owned(before).push(
                (stack@[i as int].name@, stack@[i as int].quota),
            ));
            assert(owned(kept@) =~= first + owned(stack@.take(i + 1)));
        }
        i = i + 1;
    }
    assert(stack@.take(stack@.len() as int) =~= stack@);
    if kept.len() == 0 {
        assert(owned(kept@).len() == 0);
        return None;
    }
    let mut view: Vec<PolicyDescriptor<'_>> = Vec::new();
    let mut j: usize = 0;
    assert(crate::headers::descriptors(view@) =~= owned(kept@.take(0)));
    while j < kept.len()
        invariant
            j <= kept@.len(),
            crate::headers::descriptors(view@) == owned(kept@.take(j as int)),
        decreases kept@.len() - j,
    {
        let ghost before = view@;
        view.push(PolicyDescriptor { name: kept[j].name.as_str(), quota: kept[j].quota });
        proof {
            assert(owned(kept@.take(j + 1)) =~= owned(kept@.take(j as int)).push(
                (kept@[j as int].name@, kept@[j as int].quota),
            ));
            assert(crate::headers::descriptors(view@) =~= crate::headers::descriptors(before).push(
                (kept@[j as int].name@, kept@[j as int].quota),
            ));
        }
        j = j + 1;
    }
    proof {
        assert(kept@.take(kept@.len() as int) =~= kept@);
        let all = crate::headers::descriptors(view@);
        assert forall|k: int| 0 <= k < view@.len() implies crate::header_map::text_ok(
            (#[trigger] view@[k]).name@,
        ) by {
            assert(all[k].0 == view@[k].name@);
            if k < first.len() {
                assert(all[k] == first[k]);
            } else {
                assert(all[k] == owned(stack@)[k - first.len()]);
            }
        }
        assert(owned(kept@).len() == kept@.len());
    }
    match render_policy_value(view.as_slice()) {
        Some(header) => Some(PolicyEntry { header, descriptors: kept }),
        None => None,
    }
}

/// Build the entries of the stack.
fn build_stack(factories: &Vec<StackFactory>, max_keys: Option<usize>) -> (stack: Vec<Stacked>)
    requires
        forall|i: int|
            0 <= i < factories@.len() ==> crate::builder::factory_ready(#[trigger] factories@[i]),
    ensures
        stack_ok(stack@),
        stack@.len() == factories@.len(),
        forall|i: int|
            0 <= i < stack@.len() ==> {
                &&& crate::limiters::built_by(#[trigger] stack@[i], factories@[i], max_keys)
                &&& unused(stack@[i])
            },
{
    let mut stack: Vec<Stacked> = Vec::new();
    let mut i: usize = 0;
    while i < factories.len()
        invariant
            i <= factories@.len(),
            stack@.len() == i,
            stack_ok(stack@),
            forall|j: int|
                0 <= j < factories@.len() ==> crate::builder::factory_ready(
                    #[trigger] factories@[j],
                ),
            forall|j: int|
                0 <= j < stack@.len() ==> {
                    &&& crate::limiters::built_by(#[trigger] stack@[j], factories@[j], max_keys)
                    &&& unused(stack@[j])
                },
        decreases factories@.len() - i,
    {
        assert(crate::builder::factory_ready(factories@[i as int]));
        stack.push(factories[i].factory.build(max_keys));
        i = i + 1;
    }
    stack
}

/// Build a limiter for each method with a quota of its own.
fn build_method_limiters<K: Hash + Eq + Clone + Debug + Send + Sync + 'static>(
    quotas: &Vec<(Method, Quota)>,
) -> (limiters: Vec<(Method, Limiter<K>)>)
    requires
        forall|i: int| 0 <= i < quotas@.len() ==> (#[trigger] quotas@[i]).1.usable(),
    ensures
        limiters@.len() == quotas@.len(),
        forall|i: int|
            0 <= i < limiters@.len() ==> {
                &&& (#[trigger] limiters@[i]).0@ == quotas@[i].0@
                &&& limiters@[i].1.wf()
                &&& limiters@[i].1.limit() == quotas@[i].1
                &&& limiters@[i].1.log().len() == 0
            },
{
    let mut limiters: Vec<(Method, Limiter<K>)> = Vec::new();
    let mut i: usize = 0;
    while i < quotas.len()
        invariant
            i <= quotas@.len(),
            limiters@.len() == i,
            forall|j: int| 0 <= j < quotas@.len() ==> (#[trigger] quotas@[j]).1.usable(),
            forall|j: int|
                0 <= j < limiters@.len() ==> {
                    &&& (#[trigger] limiters@[j]).0@ == quotas@[j].0@
                    &&& limiters@[j].1.wf()
                    &&& limiters@[j].1.limit() == quotas@[j].1
                    &&& limiters@[j].1.log().len() == 0
                },
        decreases quotas@.len() - i,
    {
        assert(quotas@[i as int].1.usable());
        limiters.push((quotas[i].0.clone(), Limiter::new(quotas[i].1)));
        i = i + 1;
    }
    limiters
}

/// Build a tracker for each method with a quota of its own.
fn build_method_trackers<K: Hash + Eq + Clone + Debug + Send + Sync + 'static>(
    quotas: &Vec<(Method, Quota)>,
    max_keys: Option<usize>,
) -> (trackers: Vec<(Method, KeyTracker<K>)>)
    ensures
        trackers@.len() == quotas@.len(),
        forall|i: int|
            0 <= i < trackers@.len() ==> {
                &&& (#[trigger] trackers@[i]).0@ == quotas@[i].0@
                &&& trackers@[i].1.wf()
                &&& trackers@[i].1.limit() == max_keys
                &&& trackers@[i].1@.len() == 0
                &&& trackers@[i].1.touch_count() == 0
            },
{
    let mut trackers: Vec<(Method, KeyTracker<K>)> = Vec::new();
    let mut i: usize = 0;
    while i < quotas.len()
        invariant
            i <= quotas@.len(),
            trackers@.len() == i,
            forall|j: int|
                0 <= j < trackers@.len() ==> {
                    &&& (#[trigger] trackers@[j]).0@ == quotas@[j].0@
                    &&& trackers@[j].1.wf()
                    &&& trackers@[j].1.limit() == max_keys
                    &&& trackers@[j].1@.len() == 0
                    &&& trackers@[j].1.touch_count() == 0
                },
        decreases quotas@.len() - i,
    {
        trackers.push((quotas[i].0.clone(), KeyTracker::new(max_keys)));
        i = i + 1;
    }
    trackers
}

/// Prepare the policy header of each method with a quota of its own.
fn build_method_policies(
    quotas: &Vec<(Method, Quota)>,
    stack: &Vec<PolicyDescriptorOwned>,
) -> (policies: Vec<(Method, PolicyEntry)>)
    requires
        names_ok(owned(stack@)),
    ensures
        policies@.len() == quotas@.len(),
        forall|i: int|
            0 <= i < policies@.len() ==> {
                &&& (#[trigger] policies@[i]).0@ == quotas@[i].0@
                &&& policies@[i].1.lists(primary_policy(Some(quotas@[i].1)) + owned(stack@))
            },
{
    let mut policies: Vec<(Method, PolicyEntry)> = Vec::new();
    let mut i: usize = 0;
    while i < quotas.len()
        invariant
            i <= quotas@.len(),
            policies@.len() == i,
            names_ok(owned(stack@)),
            forall|j: int|
                0 <= j < policies@.len() ==> {
                    &&& (#[trigger] policies@[j]).0@ == quotas@[j].0@
                    &&& policies@[j].1.lists(primary_policy(Some(quotas@[j].1)) + owned(stack@))
                },
        decreases quotas@.len() - i,
    {
        proof {
            lemma_default_text();
        }
        let primary = PolicyDescriptorOwned { name: "default".to_owned(), quota: quotas[i].1 };
        let entry: Option<PolicyEntry> = build_policy_entry(Some(primary), stack);
        match entry {
            Some(e) => {
                policies.push((quotas[i].0.clone(), e));
            },
            None => {
                assert(false);
            },
        }
        i = i + 1;
    }
    policies
}

proof fn lemma_default_text()
    ensures
        crate::header_map::text_ok("default"@),
{
    reveal_strlit("default");
}

/// A set of limiters built from one configuration.
#[verifier::reject_recursive_types(K)]
pub struct GovernorLayer<K: Hash + Eq + Clone + Debug + Send + Sync + 'static> {
    pub shared: LimiterShared<K>,
}

impl<K: Hash + Eq + Clone + Debug + Send + Sync + 'static> GovernorLayer<K> {
    /// Return a handle for live introspection of the running limiter state.
    pub fn limiter(&self) -> (h: LimiterHandle<'_, K>)
        ensures
            *h.shared == self.shared,
    {
        LimiterHandle { shared: &self.shared }
    }

    /// Build the limiters described by `config`.
    ///
    /// Every request is to meet the same set of limiters, so construct the layer once per
    /// process; a layer per request is a limiter per request, which limits nothing.
    pub fn new(config: GovernorConfig<K>) -> (layer: Self)
        requires
            config.ready(),
        ensures
            layer.shared.wf(),
            layer.shared.fresh(),
            layer.shared.extractor == config.extractor,
            layer.shared.settings == config.settings,
            layer.shared.stack@.len() == config.stack@.len(),
            forall|i: int|
                0 <= i < config.stack@.len() ==> crate::limiters::built_by(
                    #[trigger] layer.shared.stack@[i],
                    config.stack@[i],
                    config.settings.max_keys,
                ),
    {
        let settings: Settings = config.settings;
        let max_keys: Option<usize> = settings.max_keys;
        let default_limiter: Option<Limiter<K>> = match settings.quota_default {
            Some(q) => Some(Limiter::new(q)),
            None => None,
        };
        let default_tracker: Option<KeyTracker<K>> = match settings.quota_default {
            Some(_) => Some(KeyTracker::new(max_keys)),
            None => None,
        };
        let method_limiters: Vec<(Method, Limiter<K>)> = build_method_limiters(
            &settings.quota_methods,
        );
        let method_trackers: Vec<(Method, KeyTracker<K>)> = build_method_trackers(
            &settings.quota_methods,
            max_keys,
        );
        // Each stack entry has its own state store, so each gets its own tracker under the
        // same bound.
        let stack: Vec<Stacked> = build_stack(&config.stack, max_keys);
        // The policies do not change from request to request, so their headers are rendered
        // once.
        let stack_kept: Vec<PolicyDescriptorOwned> = keep_stack_policies(&stack);
        proof {
            lemma_default_text();
            assert forall|i: int| 0 <= i < stack@.len() implies crate::header_map::text_ok(
                (#[trigger] stack_policies(stack@)[i]).0,
            ) by {
                assert(stacked_ok(stack@[i]));
            }
        }
        let primary: Option<PolicyDescriptorOwned> = match settings.quota_default {
            Some(quota) => Some(PolicyDescriptorOwned { name: "default".to_owned(), quota }),
            None => None,
        };
        let policy_default: Option<PolicyEntry> = build_policy_entry(primary, &stack_kept);
        let policy_per_method: Vec<(Method, PolicyEntry)> = build_method_policies(
            &settings.quota_methods,
            &stack_kept,
        );
        let shared = LimiterShared {
            extractor: config.extractor,
            settings,
            default_limiter,
            default_tracker,
            method_limiters,
            method_trackers,
            stack,
            tier_cache: LimiterCache::new(),
            default_label: "default".to_owned(),
            policy_default,
            policy_per_method,
        };
        GovernorLayer { shared }
    }
}

/// The policies that are advertised come in the order in which they are checked: the primary
/// one, called `default`, before those of the stack, each with its own name and quota.
pub proof fn policies_are_advertised_in_order(q: Quota, stack: Seq<Stacked>, i: int)
    ensures
        advertised(Some(q), stack).len() == stack.len() + 1,
        advertised(None, stack).len() == stack.len(),
        advertised(Some(q), stack)[0] == ("default"@, q),
        0 <= i < stack.len() ==> {
            &&& advertised(Some(q), stack)[i + 1] == (stack[i].label(), stack[i].limit())
            &&& advertised(None, stack)[i] == (stack[i].label(), stack[i].limit())
        },
{
}

/// In good order every limiter of a layer counts its quota, and the quota is the configured
/// one: that of the default, of its method, or of the override it was made for.
pub proof fn every_limiter_counts_its_quota<K: Hash + Eq + Clone + Debug + Send + Sync + 'static>(
    shared: LimiterShared<K>,
    i: int,
)
    requires
        shared.wf(),
    ensures
        match (shared.default_limiter, shared.settings.quota_default) {
            (Some(l), Some(q)) => l.limit() == q && l.counts_quota(),
            (None, None) => true,
            _ => false,
        },
        0 <= i < shared.settings.quota_methods@.len() ==> {
            &&& i < shared.method_limiters@.len()
            &&& shared.method_limiters@[i].1.limit() == shared.settings.quota_methods@[i].1
            &&& shared.method_limiters@[i].1.counts_quota()
        },
        0 <= i < shared.tier_cache@.len() ==> shared.tier_cache@[i].counts_quota(),
{
    if let Some(l) = shared.default_limiter {
        l.always_counts_its_quota();
    }
    if 0 <= i < shared.method_limiters@.len() {
        assert(shared.method_limiters@[i].1.wf());
        shared.method_limiters@[i].1.always_counts_its_quota();
    }
    if 0 <= i < shared.tier_cache@.len() {
        shared.tier_cache.every_override_is_counted(i);
    }
}

}
