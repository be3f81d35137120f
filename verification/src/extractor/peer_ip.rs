//! Peer IP extractor with configurable IPv6 prefix masking.
use vstd::prelude::*;

use super::ip::{apply_prefix, IpAddr};
use super::{KeyExtractor, KeyOutcome};
use crate::error::ExtractionError;
use crate::request::Parts;

verus! {

/// Extracts the peer's IP address.
///
/// IPv6 addresses are masked to a configurable prefix (default /56) so that addresses
/// within a rotation budget share a bucket.
#[derive(Clone, Copy, Debug)]
pub struct PeerIp {
    ipv6_prefix: u8,
}

impl Default for PeerIp {
    fn default() -> (p: Self)
        ensures
            p.prefix() == 56,
    {
        PeerIp { ipv6_prefix: 56 }
    }
}

impl PeerIp {
    /// Number of leading bits of an IPv6 address that count.
    pub closed spec fn prefix(&self) -> u8 {
        self.ipv6_prefix
    }

    /// Create a `PeerIp` that masks IPv6 addresses to the given prefix; clamped to 128.
    pub fn ipv6_prefix(prefix: u8) -> (p: Self)
        ensures
            p.prefix() == super::ip::clamped_prefix(prefix),
    {
        let ipv6_prefix: u8 = if prefix > 128 {
            128
        } else {
            prefix
        };
        PeerIp { ipv6_prefix }
    }
}

impl KeyExtractor for PeerIp {
    type Key = IpAddr;

    open spec fn yields(
        &self,
        parts: &Parts,
        r: Result<KeyOutcome<IpAddr>, ExtractionError>,
    ) -> bool {
        match parts.peer {
            Some(peer) => r == Ok::<KeyOutcome<IpAddr>, ExtractionError>(
                KeyOutcome { key: super::ip::masked(peer, self.prefix()), quota_override: None },
            ),
            None => r == Err::<KeyOutcome<IpAddr>, ExtractionError>(
                ExtractionError::MissingConnectInfo,
            ),
        }
    }

    fn extract(&self, parts: &Parts) -> (r: Result<KeyOutcome<IpAddr>, ExtractionError>) {
        match parts.peer {
            Some(peer) => Ok(
                KeyOutcome { key: apply_prefix(peer, self.ipv6_prefix), quota_override: None },
            ),
            None => Err(ExtractionError::MissingConnectInfo),
        }
    }

    fn requires_connect_info(&self) -> (r: bool)
        ensures
            r,
    {
        true
    }
}

/// The key of a request is its peer: an IPv4 address as it is, an IPv6 address by the first
/// one of its block. Without a peer there is none.
pub proof fn the_key_stands_for_the_peer(
    p: PeerIp,
    parts: Parts,
    r: Result<KeyOutcome<IpAddr>, ExtractionError>,
)
    requires
        p.yields(&parts, r),
        p.prefix() <= 128,
    ensures
        match parts.peer {
            None => r == Err::<KeyOutcome<IpAddr>, ExtractionError>(
                ExtractionError::MissingConnectInfo,
            ),
            Some(IpAddr::V4(a)) => r matches Ok(o) && o.key == IpAddr::V4(a)
                && o.quota_override is None,
            Some(IpAddr::V6(a)) => {
                let size = vstd::arithmetic::power2::pow2((128 - p.prefix()) as nat);
                &&& r matches Ok(o)
                &&& o.quota_override is None
                &&& o.key matches IpAddr::V6(m) && m as nat % size == 0 && m <= a < m + size
            },
        },
{
    if let Some(IpAddr::V6(a)) = parts.peer {
        super::ip::masking_clears_the_bits_that_do_not_count(a, p.prefix());
    }
}

}
