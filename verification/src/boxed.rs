//! Type-erased `BoxedGovernorLayer` that hides the key type.
use std::fmt::Debug;
use std::hash::Hash;

use vstd::prelude::*;

use crate::builder::{ExtractorSlot, GovernorConfig};
use crate::error::ExtractionError;
use crate::extractor::{AnyExtractor, KeyOutcome, SlotExtractor};
use crate::layer::GovernorLayer;
use crate::limiter::{CheckOutcome, LimiterEvent};
use crate::request::Parts;
use crate::snapshot::LimiterHandle;
use crate::util::debug_text;

verus! {

/// `erased` is `outcome` with the `Debug` form of the key in place of the key.
pub open spec fn erases<K: Debug>(
    outcome: Result<KeyOutcome<K>, ExtractionError>,
    erased: Result<KeyOutcome<String>, ExtractionError>,
) -> bool {
    match (outcome, erased) {
        (Ok(o), Ok(e)) => e.quota_override == o.quota_override && crate::util::reads(
            o.key,
            e.key,
        ),
        (Err(a), Err(b)) => a == b,
        _ => false,
    }
}

/// Put the `Debug` form of the key in place of the key.
pub fn erase_outcome<K: Debug>(outcome: Result<KeyOutcome<K>, ExtractionError>) -> (r: Result<
    KeyOutcome<String>,
    ExtractionError,
>)
    ensures
        erases(outcome, r),
{
    match outcome {
        Ok(o) => Ok(
            KeyOutcome { key: debug_text(&o.key), quota_override: o.quota_override },
        ),
        Err(e) => Err(e),
    }
}

/// An extractor whose keys are given as text.
#[verifier::reject_recursive_types(K)]
pub struct StringKeyAdapter<K> {
    pub inner: AnyExtractor<K>,
}

impl<K: Hash + Eq + Clone + Debug + Send + Sync + 'static> SlotExtractor<String>
    for StringKeyAdapter<K> {
    open spec fn slot_yields(
        &self,
        parts: &Parts,
        r: Result<KeyOutcome<String>, ExtractionError>,
    ) -> bool {
        exists|o: Result<KeyOutcome<K>, ExtractionError>| #[trigger]
            self.inner.yields(parts, o) && erases(o, r)
    }

    fn extract_key(&self, parts: &Parts) -> (r: Result<KeyOutcome<String>, ExtractionError>) {
        let o = self.inner.extract(parts);
        assert(self.inner.yields(parts, o));
        erase_outcome(o)
    }
}

/// The extractor of `b` gives the keys of `a` as text.
pub open spec fn slot_erased<K: Debug>(a: ExtractorSlot<K>, b: ExtractorSlot<String>) -> bool {
    match (a, b) {
        (ExtractorSlot::Unset, ExtractorSlot::Unset) => true,
        (ExtractorSlot::Async, ExtractorSlot::Async) => true,
        (ExtractorSlot::Sync(x), ExtractorSlot::Sync(y)) => forall|
            parts: &Parts,
            r: Result<KeyOutcome<String>, ExtractionError>,
        | #[trigger]
            y.yields(parts, r) <==> exists|o: Result<KeyOutcome<K>, ExtractionError>|
                #[trigger] x.yields(parts, o) && erases(o, r),
        _ => false,
    }
}

/// The same extractor with keys as text.
fn erase_slot<K: Hash + Eq + Clone + Debug + Send + Sync + 'static>(slot: ExtractorSlot<K>) -> (e:
    ExtractorSlot<String>)
    ensures
        slot_erased(slot, e),
{
    match slot {
        ExtractorSlot::Unset => ExtractorSlot::Unset,
        ExtractorSlot::Async => ExtractorSlot::Async,
        ExtractorSlot::Sync(inner) => {
            let adapter = StringKeyAdapter { inner };
            let ghost text = adapter;
            let e = AnyExtractor { slot: Box::new(adapter) };
            proof {
                assert forall|
                    parts: &Parts,
                    r: Result<KeyOutcome<String>, ExtractionError>,
                | #[trigger] e.yields(parts, r) <==> exists|
                    o: Result<KeyOutcome<K>, ExtractionError>,
                | #[trigger] inner.yields(parts, o) && erases(o, r) by {
                    assert(e.yields(parts, r) == text.slot_yields(parts, r));
                    if exists|o: Result<KeyOutcome<K>, ExtractionError>|
                        #[trigger] inner.yields(parts, o) && erases(o, r) {
                        let o = choose|o: Result<KeyOutcome<K>, ExtractionError>|
                            #[trigger] inner.yields(parts, o) && erases(o, r);
                        assert(text.inner.yields(parts, o) && erases(o, r));
                    }
                }
            }
            ExtractorSlot::Sync(e)
        },
    }
}

/// The same configuration with keys as text.
pub fn erase_config<K: Hash + Eq + Clone + Debug + Send + Sync + 'static>(
    config: GovernorConfig<K>,
) -> (c: GovernorConfig<String>)
    ensures
        slot_erased(config.extractor, c.extractor),
        c.stack == config.stack,
        c.settings == config.settings,
{
    let extractor: ExtractorSlot<String> = erase_slot(config.extractor);
    GovernorConfig { extractor, stack: config.stack, settings: config.settings }
}

/// A wrapper around `GovernorLayer<String>`.
///
/// Erases the key type `K` by mapping every key to its `Debug` representation before
/// hashing. Cost: one `String` allocation and one extra hash per request. In exchange the
/// concrete type carries no generic parameter, making it straightforward to store in shared
/// app state.
pub struct BoxedGovernorLayer {
    pub inner: GovernorLayer<String>,
}

impl BoxedGovernorLayer {
    /// Erase the key type of `config` and build a `BoxedGovernorLayer`.
    pub fn from_config<K: Hash + Eq + Clone + Debug + Send + Sync + 'static>(
        config: GovernorConfig<K>,
    ) -> (b: Self)
        requires
            config.ready(),
        ensures
            b.inner.shared.wf(),
            b.inner.shared.fresh(),
            slot_erased(config.extractor, b.inner.shared.extractor),
            b.inner.shared.settings == config.settings,
            b.inner.shared.stack@.len() == config.stack@.len(),
            forall|i: int|
                0 <= i < config.stack@.len() ==> crate::limiters::built_by(
                    #[trigger] b.inner.shared.stack@[i],
                    config.stack@[i],
                    config.settings.max_keys,
                ),
    {
        BoxedGovernorLayer { inner: GovernorLayer::new(erase_config(config)) }
    }

    /// Return a handle for live introspection of the running limiter state.
    pub fn limiter(&self) -> (h: LimiterHandle<'_, String>)
        ensures
            *h.shared == self.inner.shared,
    {
        self.inner.limiter()
    }
}

/// Two requests share a bucket of an erased layer exactly when the `Debug` forms of their keys
/// agree: it is under these that they are checked.
pub proof fn equal_texts_share_a_bucket<K: Debug>(
    a: KeyOutcome<K>,
    b: KeyOutcome<K>,
    erased_a: KeyOutcome<String>,
    erased_b: KeyOutcome<String>,
    outcome: CheckOutcome,
)
    requires
        erases(Ok(a), Ok(erased_a)),
        erases(Ok(b), Ok(erased_b)),
    ensures
        crate::util::reads(a.key, erased_a.key),
        crate::util::reads(b.key, erased_b.key),
        crate::limiter::is_check_of(LimiterEvent::Checked(erased_a.key, outcome), erased_b.key)
            <==> erased_a.key == erased_b.key,
{
}

/// Erasing the key type keeps errors and overrides, and turns no failure into a key.
pub proof fn erasing_changes_the_key_only<K: Debug>(
    outcome: Result<KeyOutcome<K>, ExtractionError>,
    erased: Result<KeyOutcome<String>, ExtractionError>,
)
    requires
        erases(outcome, erased),
    ensures
        outcome is Ok <==> erased is Ok,
        outcome is Ok ==> erased->Ok_0.quota_override == outcome->Ok_0.quota_override,
        outcome is Err ==> erased->Err_0 == outcome->Err_0,
{
}

}
