//! Compound combinator that chains two extractors into a tuple key.
use vstd::prelude::*;

use super::{KeyExtractor, KeyOutcome};
use crate::error::ExtractionError;
use crate::quota::Quota;
use crate::request::Parts;

verus! {

/// Combines two extractors into a single `Pair<A::Key, B::Key>` key.
///
/// If either extractor fails, extraction short-circuits with its error. `A`'s
/// `quota_override` takes precedence over `B`'s.
#[derive(Clone, Copy, Debug)]
pub struct Compound<A, B>(pub A, pub B);

/// The keys of two extractors as one key.
#[derive(Debug, PartialEq, Eq, Hash)]
pub struct Pair<A, B>(pub A, pub B);

impl<A: Clone, B: Clone> Clone for Pair<A, B> {
    fn clone(&self) -> (r: Self)
        ensures
            cloned::<A>(self.0, r.0),
            cloned::<B>(self.1, r.1),
    {
        Pair(self.0.clone(), self.1.clone())
    }
}

/// The outcome for two outcomes: both keys, and the first override that there is.
pub open spec fn compounded<K, L>(a: KeyOutcome<K>, b: KeyOutcome<L>) -> KeyOutcome<Pair<K, L>> {
    KeyOutcome {
        key: Pair(a.key, b.key),
        quota_override: match a.quota_override {
            Some(q) => Some(q),
            None => b.quota_override,
        },
    }
}

/// Join two outcomes.
pub fn compound_outcome<K, L>(a: KeyOutcome<K>, b: KeyOutcome<L>) -> (r: KeyOutcome<Pair<K, L>>)
    ensures
        r == compounded(a, b),
{
    let quota_override: Option<Quota> = match a.quota_override {
        Some(q) => Some(q),
        None => b.quota_override,
    };
    KeyOutcome { key: Pair(a.key, b.key), quota_override }
}

/// `r` is a result for a request whose two keys come from `a` and `b`: the first failure, or
/// both keys.
pub open spec fn both_yield<A: KeyExtractor, B: KeyExtractor>(
    a: A,
    b: B,
    parts: &Parts,
    r: Result<KeyOutcome<Pair<A::Key, B::Key>>, ExtractionError>,
) -> bool {
    ||| r matches Err(e) && a.yields(parts, Err(e))
    ||| r matches Err(e) && b.yields(parts, Err(e)) && exists|x: KeyOutcome<A::Key>|
        a.yields(parts, Ok(x))
    ||| exists|x: KeyOutcome<A::Key>, y: KeyOutcome<B::Key>|
        {
            &&& #[trigger] a.yields(parts, Ok(x))
            &&& #[trigger] b.yields(parts, Ok(y))
            &&& r == Ok::<KeyOutcome<Pair<A::Key, B::Key>>, ExtractionError>(compounded(x, y))
        }
}

/// Read both keys of a request; the second is not looked for where the first is missing.
pub fn extract_both<A: KeyExtractor, B: KeyExtractor>(a: &A, b: &B, parts: &Parts) -> (r: Result<
    KeyOutcome<Pair<A::Key, B::Key>>,
    ExtractionError,
>)
    ensures
        both_yield(*a, *b, parts, r),
{
    match a.extract(parts) {
        Err(e) => Err(e),
        Ok(x) => match b.extract(parts) {
            Err(e) => Err(e),
            Ok(y) => Ok(compound_outcome(x, y)),
        },
    }
}

impl<A: KeyExtractor, B: KeyExtractor> KeyExtractor for Compound<A, B> {
    type Key = Pair<A::Key, B::Key>;

    open spec fn yields(
        &self,
        parts: &Parts,
        r: Result<KeyOutcome<Pair<A::Key, B::Key>>, ExtractionError>,
    ) -> bool {
        both_yield(self.0, self.1, parts, r)
    }

    fn extract(&self, parts: &Parts) -> (r: Result<
        KeyOutcome<Pair<A::Key, B::Key>>,
        ExtractionError,
    >) {
        extract_both(&self.0, &self.1, parts)
    }

    fn requires_connect_info(&self) -> (r: bool)
        ensures
            !r,
    {
        false
    }
}

/// The key of a compound is the pair of the two keys, in their order, and its override the
/// first one's, or the second one's where the first has none. A failure is that of one of
/// them, and that of the first wherever the first finds no key.
pub proof fn both_keys_and_the_first_override<A: KeyExtractor, B: KeyExtractor>(
    c: Compound<A, B>,
    parts: Parts,
    r: Result<KeyOutcome<Pair<A::Key, B::Key>>, ExtractionError>,
)
    requires
        c.yields(&parts, r),
    ensures
        r matches Ok(o) ==> exists|x: KeyOutcome<A::Key>, y: KeyOutcome<B::Key>|
            {
                &&& #[trigger] c.0.yields(&parts, Ok(x))
                &&& #[trigger] c.1.yields(&parts, Ok(y))
                &&& o.key.0 == x.key
                &&& o.key.1 == y.key
                &&& x.quota_override is Some ==> o.quota_override == x.quota_override
                &&& x.quota_override is None ==> o.quota_override == y.quota_override
            },
        r matches Err(e) ==> c.0.yields(&parts, Err(e)) || c.1.yields(&parts, Err(e)),
        (forall|x: KeyOutcome<A::Key>| !#[trigger] c.0.yields(&parts, Ok(x))) ==> (r matches Err(e)
            && c.0.yields(&parts, Err(e))),
        (forall|y: KeyOutcome<B::Key>| !#[trigger] c.1.yields(&parts, Ok(y))) ==> r is Err,
{
    if let Ok(o) = r {
        let (x, y) = choose|x: KeyOutcome<A::Key>, y: KeyOutcome<B::Key>|
            {
                &&& #[trigger] c.0.yields(&parts, Ok(x))
                &&& #[trigger] c.1.yields(&parts, Ok(y))
                &&& r == Ok::<KeyOutcome<Pair<A::Key, B::Key>>, ExtractionError>(compounded(x, y))
            };
        assert(o == compounded(x, y));
        assert(c.0.yields(&parts, Ok(x)) && c.1.yields(&parts, Ok(y)));
    }
}

}
