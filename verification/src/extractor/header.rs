//! Header-value key extractor.
use vstd::prelude::*;

use super::{KeyExtractor, KeyOutcome};
use crate::error::ExtractionError;
use crate::header_map::{first_value, to_str};
use crate::request::Parts;

verus! {

/// Extracts a named header value as the rate-limit key.
///
/// Missing headers return `MissingHeader`; values that are not visible ASCII return
/// `MalformedHeader`.
#[derive(Clone, Copy, Debug)]
pub struct Header(pub &'static str);

impl KeyExtractor for Header {
    type Key = String;

    open spec fn yields(
        &self,
        parts: &Parts,
        r: Result<KeyOutcome<String>, ExtractionError>,
    ) -> bool {
        let values = crate::header_map::values_of(
            crate::header_map::header_contents(parts.headers),
            self.0@,
        );
        if values.len() == 0 {
            r == Err::<KeyOutcome<String>, ExtractionError>(ExtractionError::MissingHeader(self.0))
        } else {
            match crate::header_map::value_text(values[0]) {
                Some(text) => r matches Ok(o) && o.key@ == text && o.quota_override is None,
                None => r == Err::<KeyOutcome<String>, ExtractionError>(
                    ExtractionError::MalformedHeader(self.0),
                ),
            }
        }
    }

    fn extract(&self, parts: &Parts) -> (r: Result<KeyOutcome<String>, ExtractionError>) {
        match first_value(&parts.headers, self.0) {
            None => Err(ExtractionError::MissingHeader(self.0)),
            Some(value) => match to_str(value.as_slice()) {
                None => Err(ExtractionError::MalformedHeader(self.0)),
                Some(key) => Ok(KeyOutcome { key, quota_override: None }),
            },
        }
    }

    fn requires_connect_info(&self) -> (r: bool)
        ensures
            !r,
    {
        false
    }
}

/// The key is the text of the header's first value, whatever values follow. A header that is
/// not there is missing, and one whose first value is not text is malformed.
pub proof fn the_first_value_is_the_key(
    h: Header,
    parts: Parts,
    r: Result<KeyOutcome<String>, ExtractionError>,
)
    requires
        h.yields(&parts, r),
        forall|i: int| 0 <= i < h.0@.len() ==> !('A' <= #[trigger] h.0@[i] <= 'Z'),
    ensures
        ({
            let contents = crate::header_map::header_contents(parts.headers);
            if contents.contains_key(h.0@) && contents[h.0@].len() > 0 {
                match r {
                    Ok(o) => crate::header_map::value_text(contents[h.0@][0]) == Some(o.key@)
                        && o.quota_override is None,
                    Err(e) => crate::header_map::value_text(contents[h.0@][0]) is None && e
                        == ExtractionError::MalformedHeader(h.0),
                }
            } else {
                r == Err::<KeyOutcome<String>, ExtractionError>(ExtractionError::MissingHeader(h.0))
            }
        }),
{
    crate::header_map::a_lower_case_name_is_its_own(
        crate::header_map::header_contents(parts.headers),
        h.0@,
    );
}

}
