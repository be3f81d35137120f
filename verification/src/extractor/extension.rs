//! Request-extension key extractor.
use std::fmt::Debug;
use std::hash::Hash;
use std::marker::PhantomData;

use vstd::prelude::*;

use super::{KeyExtractor, KeyOutcome};
use crate::error::{quoted, ExtractionError};
use crate::request::Parts;

verus! {

/// Extracts a typed value from request extensions as the rate-limit key.
///
/// The conventional shape for "upstream auth has inserted a `UserId`; rate-limit by that".
/// The label says in the error which value was missing.
#[derive(Debug)]
pub struct Extension<T> {
    marker: PhantomData<T>,
    label: &'static str,
}

impl<T> Extension<T> {
    /// How errors name the value.
    pub closed spec fn label(&self) -> Seq<char> {
        self.label@
    }

    /// Create a new `Extension` extractor, labelled `T`.
    pub fn new() -> (e: Self)
        ensures
            e.label() == "T"@,
    {
        Extension { marker: PhantomData, label: "T" }
    }

    /// Create an `Extension` extractor whose errors name the value `label`.
    pub fn labelled(label: &'static str) -> (e: Self)
        ensures
            e.label() == label@,
    {
        Extension { marker: PhantomData, label }
    }
}

impl<T> Default for Extension<T> {
    fn default() -> (e: Self)
        ensures
            e.label() == "T"@,
    {
        Extension::new()
    }
}

impl<T> Clone for Extension<T> {
    fn clone(&self) -> (e: Self)
        ensures
            e.label() == self.label(),
    {
        Extension { marker: PhantomData, label: self.label }
    }
}

impl<T> Copy for Extension<T> {

}

/// `http::Extensions::get` of the type `T`, cloned. What a request carries is known to the
/// `http` crate alone, and a clone is the affair of `T`, so nothing is claimed but that it is
/// what this call gave.
#[verifier::external_body]
pub fn extension_value<T: Clone + Send + Sync + 'static>(extensions: &http::Extensions) -> (v: Option<
    T,
>) {
    extensions.get::<T>().cloned()
}

/// The message for an extension that is not there.
pub open spec fn missing_extension(label: Seq<char>) -> Seq<char> {
    "extension '"@ + label + "' not found in request"@
}

/// `found` is what the extensions hold of the type `T`.
pub open spec fn carries<T: Clone + Send + Sync + 'static>(
    extensions: http::Extensions,
    found: Option<T>,
) -> bool {
    call_ensures(extension_value::<T>, (&extensions,), found)
}

/// `r` is the outcome for an extension that was looked up: the value as the key, or an error
/// that names it.
pub open spec fn outcome_of<T>(
    found: Option<T>,
    label: Seq<char>,
    r: Result<KeyOutcome<T>, ExtractionError>,
) -> bool {
    match found {
        Some(key) => r matches Ok(o) && o.key == key && o.quota_override is None,
        None => r matches Err(ExtractionError::Other(text)) && text@ == missing_extension(label),
    }
}

/// The outcome for an extension that was looked up.
pub fn extension_outcome<T>(found: Option<T>, label: &str) -> (r: Result<
    KeyOutcome<T>,
    ExtractionError,
>)
    ensures
        outcome_of(found, label@, r),
{
    match found {
        Some(key) => Ok(KeyOutcome { key, quota_override: None }),
        None => Err(
            ExtractionError::Other(quoted("extension '", label, "' not found in request")),
        ),
    }
}

impl<T: Clone + Hash + Eq + Debug + Send + Sync + 'static> KeyExtractor for Extension<T> {
    type Key = T;

    open spec fn yields(&self, parts: &Parts, r: Result<KeyOutcome<T>, ExtractionError>) -> bool {
        exists|found: Option<T>| #[trigger]
            carries(parts.extensions, found) && outcome_of(found, self.label(), r)
    }

    fn extract(&self, parts: &Parts) -> (r: Result<KeyOutcome<T>, ExtractionError>) {
        let found: Option<T> = extension_value::<T>(&parts.extensions);
        assert(carries(parts.extensions, found));
        extension_outcome(found, self.label)
    }

    fn requires_connect_info(&self) -> (r: bool)
        ensures
            !r,
    {
        false
    }
}

/// An extension that is there is the key, and the message for one that is not names it, whole
/// and in quotation marks.
pub proof fn an_extension_is_the_key<T>(
    found: Option<T>,
    label: Seq<char>,
    r: Result<KeyOutcome<T>, ExtractionError>,
) -> (around: (Seq<char>, Seq<char>))
    requires
        outcome_of(found, label, r),
    ensures
        found matches Some(key) ==> (r matches Ok(o) && o.key == key && o.quota_override is None),
        found is None ==> (r matches Err(ExtractionError::Other(text)) && text@ == around.0.push(
            '\'',
        ) + label + around.1.insert(0, '\'')),
{
    reveal_strlit("extension '");
    reveal_strlit("' not found in request");
    let a = "extension '"@.drop_last();
    let b = "' not found in request"@.drop_first();
    assert(a.push('\'') =~= "extension '"@);
    assert(b.insert(0, '\'') =~= "' not found in request"@);
    (a, b)
}

}
