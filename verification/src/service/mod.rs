//! The per-request flow: which limiters a request meets, what they said, and the headers and
//! bodies that come of it.
pub mod decide;
pub mod respond;

use std::fmt::Debug;
use std::hash::Hash;

use vstd::prelude::*;

use self::decide::{decide, has_own_quota, is_whitelisted, Verdict};
use crate::builder::{ExtractorSlot, Settings};
use crate::error::ExtractionError;
use crate::extractor::KeyOutcome;
use crate::layer::LimiterShared;
use crate::quota::Quota;
use crate::request::Parts;

verus! {

/// What whoever drives a request has to do next.
pub enum Action<K> {
    /// Pass the request on and leave the response alone.
    Forward,
    /// Await the key of the request and go on with `settle`.
    AwaitKey,
    /// Carry out the decision.
    Settled(Verdict<K>),
    /// The extractor asked for a quota that no limiter can count.
    UnusableOverride(Quota),
}

/// The override that applies to a request and that no limiter can count, if there is one. An
/// override does not apply where the method has a quota of its own.
pub open spec fn unusable_override<K>(
    settings: Settings,
    parts: &Parts,
    outcome: Result<KeyOutcome<K>, ExtractionError>,
) -> Option<Quota> {
    match outcome {
        Ok(o) => match o.quota_override {
            Some(q) => if q.usable() || self::decide::method_slot(
                settings.quota_methods@,
                parts.method@,
            ) is Some {
                None
            } else {
                Some(q)
            },
            None => None,
        },
        Err(_) => None,
    }
}

/// What follows from the outcome of an extraction.
pub open spec fn settled<K: Hash + Eq + Clone + Debug + Send + Sync + 'static>(
    before: LimiterShared<K>,
    after: LimiterShared<K>,
    parts: &Parts,
    outcome: Result<KeyOutcome<K>, ExtractionError>,
    a: Action<K>,
) -> bool {
    match unusable_override(before.settings, parts, outcome) {
        Some(q) => a == Action::<K>::UnusableOverride(q) && after == before,
        None => a matches Action::Settled(v) && self::decide::answered(
            before,
            after,
            parts,
            outcome,
            v,
        ),
    }
}

/// Go on with a request whose key extraction has ended.
pub fn settle<K: Hash + Eq + Clone + Debug + Send + Sync + 'static>(
    shared: &mut LimiterShared<K>,
    parts: &Parts,
    outcome: Result<KeyOutcome<K>, ExtractionError>,
) -> (a: Action<K>)
    requires
        old(shared).wf(),
    ensures
        final(shared).wf(),
        final(shared).same_setup(old(shared)),
        settled(*old(shared), *final(shared), parts, outcome, a),
        old(shared).settings.redact_keys ==> (a matches Action::Settled(v)
            ==> crate::trace::all_hidden(v.events@)),
{
    if let Ok(o) = &outcome {
        if let Some(q) = o.quota_override {
            if !q.is_usable() && !has_own_quota(&shared.settings, &parts.method) {
                return Action::UnusableOverride(q);
            }
        }
        proof {
            if let Some(i) = self::decide::method_slot(
                shared.settings.quota_methods@,
                parts.method@,
            ) {
                assert(self::decide::first_method(
                    shared.settings.quota_methods@,
                    parts.method@,
                    i,
                ));
                assert(shared.settings.quota_methods@[i].1.usable());
            }
        }
    }
    Action::Settled(decide(shared, parts, outcome))
}

/// Take up a request: a whitelisted one passes, and any other needs its key.
pub fn route<K: Hash + Eq + Clone + Debug + Send + Sync + 'static>(
    shared: &mut LimiterShared<K>,
    parts: &Parts,
) -> (a: Action<K>)
    requires
        old(shared).wf(),
        old(shared).extractor !is Unset,
    ensures
        final(shared).wf(),
        final(shared).same_setup(old(shared)),
        self::decide::whitelisted(old(shared).settings, *parts) ==> a is Forward && *final(shared)
            == *old(shared),
        !self::decide::whitelisted(old(shared).settings, *parts) ==> match old(shared).extractor {
            ExtractorSlot::Sync(e) => exists|outcome: Result<KeyOutcome<K>, ExtractionError>|
                #[trigger] e.yields(parts, outcome) && settled(
                    *old(shared),
                    *final(shared),
                    parts,
                    outcome,
                    a,
                ),
            _ => a is AwaitKey && *final(shared) == *old(shared),
        },
        old(shared).settings.redact_keys ==> (a matches Action::Settled(v)
            ==> crate::trace::all_hidden(v.events@)),
{
    if is_whitelisted(&shared.settings, parts) {
        return Action::Forward;
    }
    let outcome: Result<KeyOutcome<K>, ExtractionError> = match &shared.extractor {
        ExtractorSlot::Sync(e) => e.extract(parts),
        _ => {
            return Action::AwaitKey;
        },
    };
    settle(shared, parts, outcome)
}

/// An override that no limiter can count and that would apply is refused and counts nothing;
/// where it does not apply, or can be counted, the request is settled.
pub proof fn an_unusable_override_counts_nothing<
    K: Hash + Eq + Clone + Debug + Send + Sync + 'static,
>(
    before: LimiterShared<K>,
    after: LimiterShared<K>,
    parts: &Parts,
    o: KeyOutcome<K>,
    a: Action<K>,
    i: int,
)
    requires
        settled(before, after, parts, Ok(o), a),
    ensures
        (o.quota_override matches Some(q) && !q.usable() && forall|j: int|
            0 <= j < before.settings.quota_methods@.len() ==> (
            #[trigger] before.settings.quota_methods@[j]).0@ != parts.method@) ==> a
            == Action::<K>::UnusableOverride(o.quota_override->0) && after == before,
        o.quota_override is None || o.quota_override->0.usable() ==> a is Settled,
        0 <= i < before.settings.quota_methods@.len() && before.settings.quota_methods@[i].0@
            == parts.method@ ==> a is Settled,
{
    let methods = before.settings.quota_methods@;
    let name = parts.method@;
    if let Some(k) = self::decide::method_slot(methods, name) {
        assert(self::decide::first_method(methods, name, k));
    }
    if 0 <= i < methods.len() && methods[i].0@ == name {
        lemma_some_method_is_first(methods, name, i);
    }
}

proof fn lemma_some_method_is_first(
    methods: Seq<(crate::request::Method, Quota)>,
    name: Seq<char>,
    i: int,
)
    requires
        0 <= i < methods.len(),
        methods[i].0@ == name,
    ensures
        exists|k: int| self::decide::first_method(methods, name, k),
    decreases i,
{
    if exists|j: int| 0 <= j < i && (#[trigger] methods[j]).0@ == name {
        let j = choose|j: int| 0 <= j < i && (#[trigger] methods[j]).0@ == name;
        lemma_some_method_is_first(methods, name, j);
    } else {
        assert(self::decide::first_method(methods, name, i));
    }
}

}
