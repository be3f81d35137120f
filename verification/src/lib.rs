//! Rate limiting for HTTP services, backed by [`governor`].
//!
//! A [`GovernorConfigBuilder`] assembles a configuration, a [`GovernorLayer`] builds the
//! limiters for it, and [`service::route`] takes a request to them: a whitelisted request
//! passes, and any other is decided by the limiters that its key meets.
//!
//! - **Key extraction**: built-in `PeerIp`, `Global`, `Header`, `Extension`, `SmartIp`,
//!   `Cookie`, `Compound`. See [`extractor`].
//! - **Per-method quotas**: different limits for GET and POST via
//!   [`GovernorConfigBuilder::quota_for`].
//! - **Stacked limits**: an ordered chain of named policies, the first refusal of which
//!   wins, and a `RateLimit-Policy` header that lists all of them.
//! - **Per-tier override**: extractors return [`extractor::KeyOutcome`] with a
//!   `quota_override` for per-request quota selection.
//! - **Type erasure**: [`BoxedGovernorLayer`] collapses the key type.
//!
//! [`governor`]: https://docs.rs/governor
pub mod boxed;
pub mod builder;
pub mod cache;
pub mod duration;
pub mod error;
pub mod extractor;
pub mod glob;
pub mod header_map;
pub mod headers;
pub mod layer;
pub mod limiter;
pub mod limiters;
pub mod quota;
pub mod request;
pub mod response;
pub mod service;
pub mod snapshot;
pub mod text;
pub mod trace;
pub mod tracker;
pub mod util;

pub use crate::boxed::BoxedGovernorLayer;
pub use crate::builder::{GovernorConfig, GovernorConfigBuilder};
pub use crate::error::{ConfigError, ExtractionError, RejectionReason};
pub use crate::extractor::{
    Compound, Cookie, Extension, Global, Header, KeyExtractor, KeyOutcome, PeerIp, SmartIp,
};
pub use crate::layer::GovernorLayer;
pub use crate::quota::Quota;
pub use crate::response::BodyPreset;
pub use crate::snapshot::{LimiterHandle, LimiterSnapshot};
