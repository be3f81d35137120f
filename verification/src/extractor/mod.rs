//! Key extraction traits and built-in extractor implementations.
pub mod compound;
pub mod cookie;
pub mod extension;
pub mod global;
pub mod header;
pub mod ip;
pub mod peer_ip;
pub mod smart_ip;

use std::fmt::Debug;
use std::hash::Hash;

use vstd::prelude::*;

use crate::error::ExtractionError;
use crate::quota::Quota;
use crate::request::Parts;

pub use compound::{Compound, Pair};
pub use cookie::Cookie;
pub use extension::Extension;
pub use global::{Everyone, Global};
pub use header::Header;
pub use peer_ip::PeerIp;
pub use smart_ip::SmartIp;

verus! {

/// Carrier returned by a successful extraction: the rate-limit key plus an optional
/// per-request quota override for tiered-plan support.
#[derive(Clone, Debug)]
pub struct KeyOutcome<K> {
    pub key: K,
    pub quota_override: Option<Quota>,
}

impl<K> KeyOutcome<K> {
    /// A key that is limited by whatever quota the layer has for it.
    pub fn new(key: K) -> (o: Self)
        ensures
            o.key == key,
            o.quota_override is None,
    {
        KeyOutcome { key, quota_override: None }
    }

    /// The same key, limited by `quota` for this request.
    pub fn with_quota_override(self, quota: Quota) -> (o: Self)
        ensures
            o.key == self.key,
            o.quota_override == Some(quota),
    {
        KeyOutcome { key: self.key, quota_override: Some(quota) }
    }
}

/// Synchronous key extractor.
pub trait KeyExtractor: Send + Sync + 'static {
    type Key: Hash + Eq + Clone + Debug + Send + Sync + 'static;

    /// `r` is a result that the extractor may give for `parts`. One that does not say so may
    /// give any.
    open spec fn yields(
        &self,
        parts: &Parts,
        r: Result<KeyOutcome<Self::Key>, ExtractionError>,
    ) -> bool {
        true
    }

    /// Read the key of a request.
    fn extract(&self, parts: &Parts) -> (r: Result<KeyOutcome<Self::Key>, ExtractionError>)
        ensures
            self.yields(parts, r),
    ;

    /// Whether the extractor asks for the peer's address. One that does not override this
    /// asks for none.
    fn requires_connect_info(&self) -> (r: bool)
        default_ensures
            !r,
    {
        false
    }
}

/// What the layer asks of its primary extractor, whatever its type: the same as
/// `KeyExtractor`, with the key type as a parameter.
pub trait SlotExtractor<K>: Send + Sync {
    /// `r` is a result that the extractor may give for `parts`.
    spec fn slot_yields(&self, parts: &Parts, r: Result<KeyOutcome<K>, ExtractionError>) -> bool;

    /// Read the key of a request.
    fn extract_key(&self, parts: &Parts) -> (r: Result<KeyOutcome<K>, ExtractionError>)
        ensures
            self.slot_yields(parts, r),
    ;
}

/// A `SlotExtractor` of any type.
#[verifier::reject_recursive_types(K)]
pub struct AnyExtractor<K> {
    pub slot: Box<dyn SlotExtractor<K>>,
}

impl<K> AnyExtractor<K> {
    /// `r` is a result that the extractor may give for `parts`.
    pub open spec fn yields(
        &self,
        parts: &Parts,
        r: Result<KeyOutcome<K>, ExtractionError>,
    ) -> bool {
        self.slot.slot_yields(parts, r)
    }

    /// Read the key of a request.
    pub fn extract(&self, parts: &Parts) -> (r: Result<KeyOutcome<K>, ExtractionError>)
        ensures
            self.yields(parts, r),
    {
        self.slot.extract_key(parts)
    }
}

/// A `KeyExtractor` as a `SlotExtractor`.
pub struct Carrier<E>(pub E);

impl<E: KeyExtractor> SlotExtractor<E::Key> for Carrier<E> {
    open spec fn slot_yields(
        &self,
        parts: &Parts,
        r: Result<KeyOutcome<E::Key>, ExtractionError>,
    ) -> bool {
        self.0.yields(parts, r)
    }

    fn extract_key(&self, parts: &Parts) -> (r: Result<KeyOutcome<E::Key>, ExtractionError>) {
        self.0.extract(parts)
    }
}

}
