//! Single-bucket extractor that puts all traffic into one rate-limit pool.
use vstd::prelude::*;

use super::{KeyExtractor, KeyOutcome};
use crate::error::ExtractionError;
use crate::request::Parts;

verus! {

/// The one key that every request has in common.
#[derive(Clone, Copy, Debug, PartialEq, Eq, Hash, Structural)]
pub struct Everyone;

/// Extracts the same key always: every request shares the same rate-limit bucket.
#[derive(Clone, Copy, Debug, Default)]
pub struct Global;

impl KeyExtractor for Global {
    type Key = Everyone;

    open spec fn yields(
        &self,
        parts: &Parts,
        r: Result<KeyOutcome<Everyone>, ExtractionError>,
    ) -> bool {
        r matches Ok(o) && o.quota_override is None
    }

    fn extract(&self, parts: &Parts) -> (r: Result<KeyOutcome<Everyone>, ExtractionError>) {
        Ok(KeyOutcome { key: Everyone, quota_override: None })
    }

    fn requires_connect_info(&self) -> (r: bool)
        ensures
            !r,
    {
        false
    }
}

}
