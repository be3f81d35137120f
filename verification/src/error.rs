//! Error and reason types shared across the middleware.
use vstd::prelude::*;
use vstd::string::*;

use crate::duration::Duration;
use crate::quota::Quota;

verus! {

/// Failure modes when extracting a rate-limit key from a request.
#[derive(Debug)]
pub enum ExtractionError {
    MissingConnectInfo,
    MissingHeader(&'static str),
    MalformedHeader(&'static str),
    UntrustedProxy,
    /// Any other failure, with its message.
    Other(String),
}

impl ExtractionError {
    /// The message of the error.
    pub open spec fn message(&self) -> Seq<char> {
        match self {
            ExtractionError::MissingConnectInfo => "connect info extension is absent"@,
            ExtractionError::MissingHeader(name) => "required header '"@ + name@ + "' is missing"@,
            ExtractionError::MalformedHeader(name) => "header '"@ + name@
                + "' contains invalid data"@,
            ExtractionError::UntrustedProxy => "request originated from an untrusted proxy"@,
            ExtractionError::Other(text) => text@,
        }
    }

    /// The message of the error.
    pub fn describe(&self) -> (text: String)
        ensures
            text@ == self.message(),
    {
        match self {
            ExtractionError::MissingConnectInfo => "connect info extension is absent".to_owned(),
            ExtractionError::MissingHeader(name) => quoted("required header '", name, "' is missing"),
            ExtractionError::MalformedHeader(name) => quoted(
                "header '",
                name,
                "' contains invalid data",
            ),
            ExtractionError::UntrustedProxy => "request originated from an untrusted proxy".to_owned(),
            ExtractionError::Other(text) => text.clone(),
        }
    }
}

/// `name` between two pieces of text.
pub(crate) fn quoted(before: &str, name: &str, after: &str) -> (text: String)
    ensures
        text@ == before@ + name@ + after@,
{
    let mut text: String = before.to_owned();
    text.append(name);
    text.append(after);
    text
}

/// Failure modes surfaced by `GovernorConfigBuilder::finish`.
#[derive(Clone, Copy, Debug, PartialEq, Eq, Structural)]
pub enum ConfigError {
    ZeroBurst,
    EmptyChain,
    ContradictoryWhitelist,
    NoExtractor,
    MissingConnectInfoAcknowledgement,
}

impl ConfigError {
    /// The message of the error.
    pub open spec fn message(&self) -> Seq<char> {
        match self {
            ConfigError::ZeroBurst => "burst capacity must be non-zero"@,
            ConfigError::EmptyChain => "stacked limiter chain has no entries"@,
            ConfigError::ContradictoryWhitelist => "whitelist contradicts the configured extractor"@,
            ConfigError::NoExtractor => "no key extractor was configured"@,
            ConfigError::MissingConnectInfoAcknowledgement =>
                "PeerIp or SmartIp requires expect_connect_info() before finish()"@,
        }
    }

    /// The message of the error.
    pub fn describe(&self) -> (text: String)
        ensures
            text@ == self.message(),
    {
        match self {
            ConfigError::ZeroBurst => "burst capacity must be non-zero".to_owned(),
            ConfigError::EmptyChain => "stacked limiter chain has no entries".to_owned(),
            ConfigError::ContradictoryWhitelist =>
                "whitelist contradicts the configured extractor".to_owned(),
            ConfigError::NoExtractor => "no key extractor was configured".to_owned(),
            ConfigError::MissingConnectInfoAcknowledgement =>
                "PeerIp or SmartIp requires expect_connect_info() before finish()".to_owned(),
        }
    }
}

/// State of a limiter that has admitted one request under a quota.
#[derive(Clone, Copy, Debug)]
pub struct StateSnapshot {
    pub quota: Quota,
    pub remaining: u32,
}

/// The reason the middleware rejected or could not process a request.
///
/// It tells quota failure from extraction failure without a look at the status code. The
/// key is there when the primary limiter rejected; an entry of the stack keeps its key to
/// itself.
#[derive(Debug)]
pub enum RejectionReason<K = ()> {
    QuotaExceeded { wait: Duration, snapshot: StateSnapshot, key: Option<K>, policy_name: String },
    KeyExtractionFailed(ExtractionError),
}

/// A message about a header names it, whole and in quotation marks.
pub proof fn a_message_names_the_header(name: &'static str) -> (around: (
    Seq<char>,
    Seq<char>,
    Seq<char>,
    Seq<char>,
))
    ensures
        ExtractionError::MissingHeader(name).message() == around.0.push('\'') + name@
            + around.1.insert(0, '\''),
        ExtractionError::MalformedHeader(name).message() == around.2.push('\'') + name@
            + around.3.insert(0, '\''),
{
    reveal_strlit("required header '");
    reveal_strlit("' is missing");
    reveal_strlit("header '");
    reveal_strlit("' contains invalid data");
    let a = "required header '"@.drop_last();
    let b = "' is missing"@.drop_first();
    let c = "header '"@.drop_last();
    let d = "' contains invalid data"@.drop_first();
    assert(a.push('\'') =~= "required header '"@);
    assert(b.insert(0, '\'') =~= "' is missing"@);
    assert(c.push('\'') =~= "header '"@);
    assert(d.insert(0, '\'') =~= "' contains invalid data"@);
    (a, b, c, d)
}

}
