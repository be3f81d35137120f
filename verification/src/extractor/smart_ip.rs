//! SmartIp extractor: header-walk with trusted-proxy gating.
use forwarded_header_value::ForwardedHeaderValue;
use http::HeaderMap;
use vstd::prelude::*;

use super::cookie::byte_views;
use super::ip::{any_contains, apply_prefix, IpAddr, IpNet};
use super::{KeyExtractor, KeyOutcome};
use crate::error::ExtractionError;
use crate::header_map::{all_values, first_value, has_header, lower_text, to_str};
use crate::request::Parts;
use crate::text::{same_text, split, split_once, trim};

verus! {

/// Extracts the originating IP by walking `X-Forwarded-For`, `X-Real-IP`, `Forwarded` and
/// the peer, gated by a trusted-proxy CIDR allowlist.
///
/// With an empty trust list the peer IP is always used and headers are ignored.
#[derive(Clone, Debug)]
pub struct SmartIp {
    trusted: Vec<IpNet>,
    ipv6_prefix: u8,
}

/// The address that a text spells, as the standard library parses it.
pub uninterp spec fn ip_of_text(text: Seq<char>) -> Option<IpAddr>;

/// `str::parse` of an IP address: the address that the text spells, if it spells one.
#[verifier::external_body]
fn parse_ip(text: &str) -> (ip: Option<IpAddr>)
    ensures
        ip == ip_of_text(text@),
{
    match ipnet::IpNet::new(text.parse().ok()?, 0).ok()? {
        ipnet::IpNet::V4(net) => Some(IpAddr::V4(net.addr().into())),
        ipnet::IpNet::V6(net) => Some(IpAddr::V6(net.addr().into())),
    }
}

/// The `for` address of each stanza of a `Forwarded` value, where it has one; `None` when
/// the value does not parse.
pub uninterp spec fn forwarded_for(text: Seq<char>) -> Option<Seq<Option<IpAddr>>>;

/// A `Forwarded` parameter whose host is a lone quotation mark.
pub open spec fn lone_quote_host(part: Seq<char>) -> bool {
    match crate::text::cut(crate::text::trimmed(part), '=') {
        Some((key, value)) => crate::header_map::lower(key) == "host"@ && value == "\""@,
        None => false,
    }
}

/// Some parameter of some stanza of `text` is a lone quotation mark as a host.
pub open spec fn has_lone_quote_host(text: Seq<char>) -> bool {
    exists|i: int, j: int|
        {
            &&& 0 <= i < crate::text::pieces(text, ',').len()
            &&& 0 <= j < stanza_parts(text, i).len()
            &&& lone_quote_host(#[trigger] stanza_parts(text, i)[j])
        }
}

/// The parameters of the stanza `i` of `text`.
pub open spec fn stanza_parts(text: Seq<char>, i: int) -> Seq<Seq<char>> {
    crate::text::pieces(crate::text::trimmed(crate::text::pieces(text, ',')[i]), ';')
}

/// `text` is visible ASCII, spaces and tabs.
pub open spec fn visible_text(text: Seq<char>) -> bool {
    forall|i: int| 0 <= i < text.len() ==> (#[trigger] text[i] == '\t' || ' ' <= text[i] <= '~')
}

/// The `for` addresses in an option list, by view.
pub open spec fn hops_view(hops: Option<Vec<Option<IpAddr>>>) -> Option<Seq<Option<IpAddr>>> {
    match hops {
        Some(v) => Some(v@),
        None => None,
    }
}

/// `ForwardedHeaderValue::from_forwarded`, with `forwarded_for_ip` of each stanza. The
/// parser cuts the quotation marks off a quoted host and does not return when the host is
/// one quotation mark, so such a text is left out.
#[verifier::external_body]
fn parse_forwarded(text: &str) -> (hops: Option<Vec<Option<IpAddr>>>)
    requires
        visible_text(text@),
        !has_lone_quote_host(text@),
    ensures
        hops_view(hops) == forwarded_for(text@),
{
    let parsed = ForwardedHeaderValue::from_forwarded(text).ok()?;
    Some(parsed.iter().map(|s| match ipnet::IpNet::new(s.forwarded_for_ip()?, 0).ok()? {
        ipnet::IpNet::V4(net) => Some(IpAddr::V4(net.addr().into())),
        ipnet::IpNet::V6(net) => Some(IpAddr::V6(net.addr().into())),
    }).collect())
}

/// `ip`, unless a network of `trusted` holds it.
pub open spec fn outside(ip: Option<IpAddr>, trusted: Seq<IpNet>) -> Option<IpAddr> {
    match ip {
        Some(ip) => if super::ip::any_holds(trusted, ip) {
            None
        } else {
            Some(ip)
        },
        None => None,
    }
}

/// The last of `ips` that is an address outside `trusted`.
pub open spec fn last_outside(ips: Seq<Option<IpAddr>>, trusted: Seq<IpNet>) -> Option<IpAddr>
    decreases ips.len(),
{
    if ips.len() == 0 {
        None
    } else {
        match outside(ips.last(), trusted) {
            Some(ip) => Some(ip),
            None => last_outside(ips.drop_last(), trusted),
        }
    }
}

/// The first of `ips` that is an address outside `trusted`.
pub open spec fn first_outside(ips: Seq<Option<IpAddr>>, trusted: Seq<IpNet>) -> Option<IpAddr>
    decreases ips.len(),
{
    if ips.len() == 0 {
        None
    } else {
        match outside(ips[0], trusted) {
            Some(ip) => Some(ip),
            None => first_outside(ips.drop_first(), trusted),
        }
    }
}

/// The address that a text spells, blanks at its ends aside.
pub open spec fn spelled(text: Seq<char>) -> Option<IpAddr> {
    ip_of_text(crate::text::trimmed(text))
}

/// The entries of one `X-Forwarded-For` value; one that is not text has none.
pub open spec fn xff_entries(value: Seq<u8>) -> Seq<Option<IpAddr>> {
    match crate::header_map::value_text(value) {
        Some(text) => crate::text::pieces(text, ',').map_values(|t: Seq<char>| spelled(t)),
        None => Seq::empty(),
    }
}

/// The last address outside `trusted` in all `X-Forwarded-For` values.
pub open spec fn xff_ip(values: Seq<Seq<u8>>, trusted: Seq<IpNet>) -> Option<IpAddr>
    decreases values.len(),
{
    if values.len() == 0 {
        None
    } else {
        match last_outside(xff_entries(values.last()), trusted) {
            Some(ip) => Some(ip),
            None => xff_ip(values.drop_last(), trusted),
        }
    }
}

/// The address in the first `X-Real-IP` value, if it is outside `trusted`.
pub open spec fn real_ip(values: Seq<Seq<u8>>, trusted: Seq<IpNet>) -> Option<IpAddr> {
    if values.len() == 0 {
        None
    } else {
        match crate::header_map::value_text(values[0]) {
            Some(text) => outside(spelled(text), trusted),
            None => None,
        }
    }
}

/// The hops of one `Forwarded` value; none when it is not text or cannot be parsed.
pub open spec fn hops_in_value(value: Seq<u8>) -> Seq<Option<IpAddr>> {
    match crate::header_map::value_text(value) {
        Some(text) => if has_lone_quote_host(text) {
            Seq::empty()
        } else {
            match forwarded_for(text) {
                Some(hops) => hops,
                None => Seq::empty(),
            }
        },
        None => Seq::empty(),
    }
}

/// The first hop outside `trusted` in all `Forwarded` values.
pub open spec fn forwarded_ip(values: Seq<Seq<u8>>, trusted: Seq<IpNet>) -> Option<IpAddr>
    decreases values.len(),
{
    if values.len() == 0 {
        None
    } else {
        match first_outside(hops_in_value(values[0]), trusted) {
            Some(ip) => Some(ip),
            None => forwarded_ip(values.drop_first(), trusted),
        }
    }
}

/// The client's address that the forwarding headers name: `X-Forwarded-For` before
/// `X-Real-IP` before `Forwarded`.
pub open spec fn header_ip(
    contents: Map<Seq<char>, Seq<Seq<u8>>>,
    trusted: Seq<IpNet>,
) -> Option<IpAddr> {
    match xff_ip(crate::header_map::values_of(contents, "x-forwarded-for"@), trusted) {
        Some(ip) => Some(ip),
        None => match real_ip(crate::header_map::values_of(contents, "x-real-ip"@), trusted) {
            Some(ip) => Some(ip),
            None => forwarded_ip(crate::header_map::values_of(contents, "forwarded"@), trusted),
        },
    }
}

/// The request carries a forwarding header.
pub open spec fn has_forwarding(contents: Map<Seq<char>, Seq<Seq<u8>>>) -> bool {
    ||| contents.contains_key(crate::header_map::lower("x-forwarded-for"@))
    ||| contents.contains_key(crate::header_map::lower("x-real-ip"@))
    ||| contents.contains_key(crate::header_map::lower("forwarded"@))
}

/// The address that identifies the client of a request, before masking. `forwarding` says
/// whether the request carries a forwarding header, and `named` is the address that those
/// headers name.
pub open spec fn client_by(
    peer: Option<IpAddr>,
    trusted: Seq<IpNet>,
    forwarding: bool,
    named: Option<IpAddr>,
) -> Result<IpAddr, ExtractionError> {
    match peer {
        None => Err(ExtractionError::MissingConnectInfo),
        Some(peer) => if trusted.len() == 0 {
            Ok(peer)
        } else if super::ip::any_holds(trusted, peer) {
            match named {
                Some(ip) => Ok(ip),
                None => Ok(peer),
            }
        } else if forwarding {
            Err(ExtractionError::UntrustedProxy)
        } else {
            Ok(peer)
        },
    }
}

/// The address that identifies the client of a request with these headers, before masking.
pub open spec fn client_ip(
    peer: Option<IpAddr>,
    contents: Map<Seq<char>, Seq<Seq<u8>>>,
    trusted: Seq<IpNet>,
) -> Result<IpAddr, ExtractionError> {
    client_by(peer, trusted, has_forwarding(contents), header_ip(contents, trusted))
}

/// The entries of one `X-Forwarded-For` text.
fn parse_entries(text: &str) -> (ips: Vec<Option<IpAddr>>)
    ensures
        ips@ == crate::text::pieces(text@, ',').map_values(|t: Seq<char>| spelled(t)),
{
    let entries: Vec<String> = split(text, ',');
    let ghost all = crate::text::pieces(text@, ',');
    let mut ips: Vec<Option<IpAddr>> = Vec::new();
    let mut i: usize = 0;
    while i < entries.len()
        invariant
            i <= entries@.len(),
            crate::text::views(entries@) == all,
            ips@ == all.take(i as int).map_values(|t: Seq<char>| spelled(t)),
        decreases entries@.len() - i,
    {
        assert(all[i as int] == entries@[i as int]@);
        let entry = trim(entries[i].as_str());
        ips.push(parse_ip(entry.as_str()));
        i = i + 1;
        assert(ips@ =~= all.take(i as int).map_values(|t: Seq<char>| spelled(t)));
    }
    assert(all.take(all.len() as int) =~= all);
    ips
}

/// The last of `ips` that is an address outside `trusted`.
pub fn last_untrusted(ips: &Vec<Option<IpAddr>>, trusted: &Vec<IpNet>) -> (ip: Option<IpAddr>)
    ensures
        ip == last_outside(ips@, trusted@),
{
    let mut last: Option<IpAddr> = None;
    let mut i: usize = 0;
    while i < ips.len()
        invariant
            i <= ips@.len(),
            last == last_outside(ips@.take(i as int), trusted@),
        decreases ips@.len() - i,
    {
        proof {
            assert(ips@.take(i + 1).drop_last() =~= ips@.take(i as int));
            assert(ips@.take(i + 1).last() == ips@[i as int]);
        }
        if let Some(ip) = ips[i] {
            if !any_contains(trusted, &ip) {
                last = Some(ip);
            }
        }
        i = i + 1;
    }
    assert(ips@.take(ips@.len() as int) =~= ips@);
    last
}

/// The first of `ips` that is an address outside `trusted`.
pub fn first_untrusted(ips: &Vec<Option<IpAddr>>, trusted: &Vec<IpNet>) -> (ip: Option<IpAddr>)
    ensures
        ip == first_outside(ips@, trusted@),
{
    let mut i: usize = 0;
    assert(ips@.skip(0) =~= ips@);
    while i < ips.len()
        invariant
            i <= ips@.len(),
            first_outside(ips@, trusted@) == first_outside(ips@.skip(i as int), trusted@),
        decreases ips@.len() - i,
    {
        proof {
            assert(ips@.skip(i as int)[0] == ips@[i as int]);
            assert(ips@.skip(i as int).drop_first() =~= ips@.skip(i + 1));
        }
        if let Some(ip) = ips[i] {
            if !any_contains(trusted, &ip) {
                return Some(ip);
            }
        }
        i = i + 1;
    }
    None
}

/// The address that identifies the client of a request, before masking.
pub fn choose_client(
    peer: Option<IpAddr>,
    trusted: &Vec<IpNet>,
    forwarding: bool,
    named: Option<IpAddr>,
) -> (client: Result<IpAddr, ExtractionError>)
    ensures
        client == client_by(peer, trusted@, forwarding, named),
{
    let peer: IpAddr = match peer {
        Some(peer) => peer,
        None => {
            return Err(ExtractionError::MissingConnectInfo);
        },
    };
    if trusted.len() == 0 {
        return Ok(peer);
    }
    if any_contains(trusted, &peer) {
        return match named {
            Some(ip) => Ok(ip),
            None => Ok(peer),
        };
    }
    if forwarding {
        Err(ExtractionError::UntrustedProxy)
    } else {
        Ok(peer)
    }
}

fn is_lone_quote_host(part: &str) -> (r: bool)
    ensures
        r == lone_quote_host(part@),
{
    let part = trim(part);
    match split_once(part.as_str(), '=') {
        Some((key, value)) => {
            let key = lower_text(key.as_str());
            same_text(key.as_str(), "host") && same_text(value.as_str(), "\"")
        },
        None => false,
    }
}

fn find_lone_quote_host(text: &str) -> (r: bool)
    ensures
        r == has_lone_quote_host(text@),
{
    let stanzas: Vec<String> = split(text, ',');
    let ghost cut = crate::text::pieces(text@, ',');
    let mut i: usize = 0;
    while i < stanzas.len()
        invariant
            i <= stanzas@.len(),
            cut == crate::text::pieces(text@, ','),
            crate::text::views(stanzas@) == cut,
            forall|a: int, b: int|
                0 <= a < i && 0 <= b < stanza_parts(text@, a).len() ==> !lone_quote_host(
                    #[trigger] stanza_parts(text@, a)[b],
                ),
        decreases stanzas@.len() - i,
    {
        assert(cut[i as int] == stanzas@[i as int]@);
        let stanza = trim(stanzas[i].as_str());
        let parts: Vec<String> = split(stanza.as_str(), ';');
        let ghost here = stanza_parts(text@, i as int);
        let mut j: usize = 0;
        while j < parts.len()
            invariant
                j <= parts@.len(),
                i < cut.len(),
                cut == crate::text::pieces(text@, ','),
                here == stanza_parts(text@, i as int),
                crate::text::views(parts@) == here,
                forall|b: int| 0 <= b < j ==> !lone_quote_host(#[trigger] here[b]),
            decreases parts@.len() - j,
        {
            assert(here[j as int] == parts@[j as int]@);
            if is_lone_quote_host(parts[j].as_str()) {
                assert(lone_quote_host(stanza_parts(text@, i as int)[j as int]));
                return true;
            }
            j = j + 1;
        }
        i = i + 1;
    }
    false
}

proof fn lemma_value_text_visible(value: Seq<u8>)
    ensures
        crate::header_map::value_text(value) matches Some(t) ==> visible_text(t),
{
    if let Some(t) = crate::header_map::value_text(value) {
        assert forall|i: int| 0 <= i < t.len() implies (#[trigger] t[i] == '\t' || ' ' <= t[i] <= '~') by {
            assert(crate::header_map::visible(value[i]));
        }
    }
}

impl Default for SmartIp {
    fn default() -> (s: Self)
        ensures
            s.nets() == Seq::<IpNet>::empty(),
            s.prefix() == 56,
    {
        SmartIp::new()
    }
}

impl SmartIp {
    /// The networks of the trusted proxies.
    pub closed spec fn nets(&self) -> Seq<IpNet> {
        self.trusted@
    }

    /// Number of leading bits of an IPv6 address that count.
    pub closed spec fn prefix(&self) -> u8 {
        self.ipv6_prefix
    }

    /// Create a `SmartIp` with no trusted proxies and the default /56 IPv6 prefix.
    pub fn new() -> (s: Self)
        ensures
            s.nets() == Seq::<IpNet>::empty(),
            s.prefix() == 56,
    {
        SmartIp { trusted: Vec::new(), ipv6_prefix: 56 }
    }

    /// Append trusted-proxy CIDRs; chainable.
    pub fn with_trusted_proxies(self, nets: Vec<IpNet>) -> (s: Self)
        ensures
            s.nets() == self.nets() + nets@,
            s.prefix() == self.prefix(),
    {
        let ipv6_prefix: u8 = self.ipv6_prefix;
        let mut trusted = self.trusted;
        let mut nets = nets;
        trusted.append(&mut nets);
        SmartIp { trusted, ipv6_prefix }
    }

    /// Override the IPv6 masking prefix; clamped to 128.
    pub fn ipv6_prefix(self, prefix: u8) -> (s: Self)
        ensures
            s.nets() == self.nets(),
            s.prefix() == super::ip::clamped_prefix(prefix),
    {
        let ipv6_prefix: u8 = if prefix > 128 {
            128
        } else {
            prefix
        };
        SmartIp { trusted: self.trusted, ipv6_prefix }
    }

    fn try_xff(&self, headers: &HeaderMap) -> (ip: Option<IpAddr>)
        ensures
            ip == xff_ip(
                crate::header_map::values_of(
                    crate::header_map::header_contents(*headers),
                    "x-forwarded-for"@,
                ),
                self.nets(),
            ),
    {
        let values: Vec<Vec<u8>> = all_values(headers, "x-forwarded-for");
        let ghost all = byte_views(values@);
        assert(all =~= crate::header_map::values_of(
            crate::header_map::header_contents(*headers),
            "x-forwarded-for"@,
        ));
        let mut last: Option<IpAddr> = None;
        let mut i: usize = 0;
        while i < values.len()
            invariant
                i <= values@.len(),
                all == byte_views(values@),
                last == xff_ip(all.take(i as int), self.nets()),
            decreases values@.len() - i,
        {
            proof {
                assert(all.take(i + 1).drop_last() =~= all.take(i as int));
                assert(all.take(i + 1).last() == values@[i as int]@);
            }
            if let Some(text) = to_str(values[i].as_slice()) {
                let entries: Vec<Option<IpAddr>> = parse_entries(text.as_str());
                let found: Option<IpAddr> = last_untrusted(&entries, &self.trusted);
                if found.is_some() {
                    last = found;
                }
            }
            i = i + 1;
        }
        assert(all.take(all.len() as int) =~= all);
        last
    }

    fn try_real_ip(&self, headers: &HeaderMap) -> (ip: Option<IpAddr>)
        ensures
            ip == real_ip(
                crate::header_map::values_of(
                    crate::header_map::header_contents(*headers),
                    "x-real-ip"@,
                ),
                self.nets(),
            ),
    {
        match first_value(headers, "x-real-ip") {
            Some(value) => match to_str(value.as_slice()) {
                Some(text) => {
                    let text = trim(text.as_str());
                    match parse_ip(text.as_str()) {
                        Some(ip) => if any_contains(&self.trusted, &ip) {
                            None
                        } else {
                            Some(ip)
                        },
                        None => None,
                    }
                },
                None => None,
            },
            None => None,
        }
    }

    fn try_forwarded(&self, headers: &HeaderMap) -> (ip: Option<IpAddr>)
        ensures
            ip == forwarded_ip(
                crate::header_map::values_of(
                    crate::header_map::header_contents(*headers),
                    "forwarded"@,
                ),
                self.nets(),
            ),
    {
        let values: Vec<Vec<u8>> = all_values(headers, "forwarded");
        let ghost all = byte_views(values@);
        assert(all =~= crate::header_map::values_of(
            crate::header_map::header_contents(*headers),
            "forwarded"@,
        ));
        let mut i: usize = 0;
        assert(all.skip(0) =~= all);
        while i < values.len()
            invariant
                i <= values@.len(),
                all == byte_views(values@),
                all == crate::header_map::values_of(
                    crate::header_map::header_contents(*headers),
                    "forwarded"@,
                ),
                forwarded_ip(all, self.nets()) == forwarded_ip(all.skip(i as int), self.nets()),
            decreases values@.len() - i,
        {
            proof {
                assert(all.skip(i as int)[0] == values@[i as int]@);
                assert(all.skip(i as int).drop_first() =~= all.skip(i + 1));
                lemma_value_text_visible(values@[i as int]@);
            }
            if let Some(text) = to_str(values[i].as_slice()) {
                if !find_lone_quote_host(text.as_str()) {
                    if let Some(hops) = parse_forwarded(text.as_str()) {
                        if let Some(ip) = first_untrusted(&hops, &self.trusted) {
                            return Some(ip);
                        }
                    }
                }
            }
            i = i + 1;
        }
        None
    }

    fn try_headers(&self, headers: &HeaderMap) -> (ip: Option<IpAddr>)
        ensures
            ip == header_ip(crate::header_map::header_contents(*headers), self.nets()),
    {
        match self.try_xff(headers) {
            Some(ip) => Some(ip),
            None => match self.try_real_ip(headers) {
                Some(ip) => Some(ip),
                None => self.try_forwarded(headers),
            },
        }
    }
}

impl KeyExtractor for SmartIp {
    type Key = IpAddr;

    open spec fn yields(
        &self,
        parts: &Parts,
        r: Result<KeyOutcome<IpAddr>, ExtractionError>,
    ) -> bool {
        match client_ip(
            parts.peer,
            crate::header_map::header_contents(parts.headers),
            self.nets(),
        ) {
            Ok(ip) => r == Ok::<KeyOutcome<IpAddr>, ExtractionError>(
                KeyOutcome { key: super::ip::masked(ip, self.prefix()), quota_override: None },
            ),
            Err(e) => r == Err::<KeyOutcome<IpAddr>, ExtractionError>(e),
        }
    }

    fn extract(&self, parts: &Parts) -> (r: Result<KeyOutcome<IpAddr>, ExtractionError>) {
        let forwarding: bool = has_header(&parts.headers, "x-forwarded-for") || has_header(
            &parts.headers,
            "x-real-ip",
        ) || has_header(&parts.headers, "forwarded");
        // Headers count for nothing unless a trusted proxy passed them on.
        let proxied: bool = match parts.peer {
            Some(peer) => any_contains(&self.trusted, &peer),
            None => false,
        };
        let named: Option<IpAddr> = if proxied {
            self.try_headers(&parts.headers)
        } else {
            None
        };
        match choose_client(parts.peer, &self.trusted, forwarding, named) {
            Ok(ip) => Ok(
                KeyOutcome { key: apply_prefix(ip, self.ipv6_prefix), quota_override: None },
            ),
            Err(e) => Err(e),
        }
    }

    fn requires_connect_info(&self) -> (r: bool)
        ensures
            r,
    {
        true
    }
}

/// Without trusted proxies no header is consulted: the key is the peer's, whatever the
/// request claims.
pub proof fn empty_trust_list_ignores_headers(
    peer: IpAddr,
    contents: Map<Seq<char>, Seq<Seq<u8>>>,
)
    ensures
        client_ip(Some(peer), contents, Seq::empty()) == Ok::<IpAddr, ExtractionError>(peer),
{
}

/// A peer that is no trusted proxy cannot choose its own key: with a forwarding header it is
/// refused, and without one it is itself.
pub proof fn untrusted_peer_never_speaks_for_others(
    peer: IpAddr,
    contents: Map<Seq<char>, Seq<Seq<u8>>>,
    trusted: Seq<IpNet>,
)
    requires
        trusted.len() > 0,
        !super::ip::any_holds(trusted, peer),
    ensures
        client_ip(Some(peer), contents, trusted) == (if has_forwarding(contents) {
            Err::<IpAddr, ExtractionError>(ExtractionError::UntrustedProxy)
        } else {
            Ok(peer)
        }),
{
}

/// The address taken from forwarding headers is never that of a trusted proxy.
pub proof fn header_ip_is_untrusted(
    contents: Map<Seq<char>, Seq<Seq<u8>>>,
    trusted: Seq<IpNet>,
)
    ensures
        header_ip(contents, trusted) matches Some(ip) ==> !super::ip::any_holds(trusted, ip),
{
    lemma_xff_untrusted(
        crate::header_map::values_of(contents, "x-forwarded-for"@),
        trusted,
    );
    lemma_forwarded_untrusted(crate::header_map::values_of(contents, "forwarded"@), trusted);
}

proof fn lemma_last_outside(ips: Seq<Option<IpAddr>>, trusted: Seq<IpNet>)
    ensures
        last_outside(ips, trusted) matches Some(ip) ==> !super::ip::any_holds(trusted, ip),
    decreases ips.len(),
{
    if ips.len() > 0 {
        lemma_last_outside(ips.drop_last(), trusted);
    }
}

proof fn lemma_xff_untrusted(values: Seq<Seq<u8>>, trusted: Seq<IpNet>)
    ensures
        xff_ip(values, trusted) matches Some(ip) ==> !super::ip::any_holds(trusted, ip),
    decreases values.len(),
{
    if values.len() > 0 {
        lemma_xff_untrusted(values.drop_last(), trusted);
        lemma_last_outside(xff_entries(values.last()), trusted);
    }
}

proof fn lemma_first_outside(ips: Seq<Option<IpAddr>>, trusted: Seq<IpNet>)
    ensures
        first_outside(ips, trusted) matches Some(ip) ==> !super::ip::any_holds(trusted, ip),
    decreases ips.len(),
{
    if ips.len() > 0 {
        lemma_first_outside(ips.drop_first(), trusted);
    }
}

proof fn lemma_forwarded_untrusted(values: Seq<Seq<u8>>, trusted: Seq<IpNet>)
    ensures
        forwarded_ip(values, trusted) matches Some(ip) ==> !super::ip::any_holds(trusted, ip),
    decreases values.len(),
{
    if values.len() > 0 {
        lemma_forwarded_untrusted(values.drop_first(), trusted);
        lemma_first_outside(hops_in_value(values[0]), trusted);
    }
}

/// An entry spells an address outside `trusted`, blanks at its ends aside.
pub open spec fn names_outsider(entry: Seq<char>, trusted: Seq<IpNet>) -> bool {
    exists|core: Seq<char>|
        #[trigger] crate::text::padded(entry, core) && spells_outsider(core, trusted)
}

/// A text spells an address that no network of `trusted` holds.
pub open spec fn spells_outsider(core: Seq<char>, trusted: Seq<IpNet>) -> bool {
    ip_of_text(core) matches Some(ip) && !super::ip::any_holds(trusted, ip)
}

/// No entry of a comma-separated text names an address outside `trusted`.
pub open spec fn lists_no_outsider(text: Seq<char>, trusted: Seq<IpNet>) -> bool {
    forall|e: Seq<char>| #[trigger]
        crate::text::is_entry(text, ',', e) ==> !names_outsider(e, trusted)
}

/// No entry of a value names an address outside `trusted`; one that is not text has none.
pub open spec fn value_lists_no_outsider(value: Seq<u8>, trusted: Seq<IpNet>) -> bool {
    crate::header_map::value_text(value) matches Some(text) ==> lists_no_outsider(text, trusted)
}

/// The text that `X-Real-IP` holds first names no address outside `trusted`.
pub open spec fn value_is_no_outsider(value: Seq<u8>, trusted: Seq<IpNet>) -> bool {
    crate::header_map::value_text(value) matches Some(text) ==> !names_outsider(text, trusted)
}

/// No hop of a `Forwarded` value is an address outside `trusted`; a value that is not text or
/// does not parse has none.
pub open spec fn no_hop_outside(value: Seq<u8>, trusted: Seq<IpNet>) -> bool {
    forall|k: int|
        0 <= k < hops_in_value(value).len() ==> !is_outsider(
            #[trigger] hops_in_value(value)[k],
            trusted,
        )
}

/// The hop is an address that no network of `trusted` holds.
pub open spec fn is_outsider(hop: Option<IpAddr>, trusted: Seq<IpNet>) -> bool {
    hop matches Some(ip) && !super::ip::any_holds(trusted, ip)
}

/// No `X-Forwarded-For` value names an address outside `trusted`.
pub open spec fn xff_names_nobody(
    contents: Map<Seq<char>, Seq<Seq<u8>>>,
    trusted: Seq<IpNet>,
) -> bool {
    contents.contains_key("x-forwarded-for"@) ==> forall|j: int|
        0 <= j < contents["x-forwarded-for"@].len() ==> value_lists_no_outsider(
            #[trigger] contents["x-forwarded-for"@][j],
            trusted,
        )
}

/// The first `X-Real-IP` value names no address outside `trusted`.
pub open spec fn real_ip_names_nobody(
    contents: Map<Seq<char>, Seq<Seq<u8>>>,
    trusted: Seq<IpNet>,
) -> bool {
    contents.contains_key("x-real-ip"@) && contents["x-real-ip"@].len() > 0
        ==> value_is_no_outsider(contents["x-real-ip"@][0], trusted)
}

proof fn lemma_spelled(entry: Seq<char>, trusted: Seq<IpNet>)
    ensures
        names_outsider(entry, trusted) <==> outside(spelled(entry), trusted) is Some,
{
    crate::text::trimming_takes_the_blanks_off(entry);
    if names_outsider(entry, trusted) {
        let core = choose|core: Seq<char>|
            #[trigger] crate::text::padded(entry, core) && spells_outsider(core, trusted);
        crate::text::trimming_finds_the_core(entry, core);
    }
    if outside(spelled(entry), trusted) is Some {
        assert(crate::text::padded(entry, crate::text::trimmed(entry)) && spells_outsider(
            crate::text::trimmed(entry),
            trusted,
        ));
    }
}

proof fn lemma_last_of_two(a: Seq<Option<IpAddr>>, b: Seq<Option<IpAddr>>, trusted: Seq<IpNet>)
    ensures
        last_outside(a + b, trusted) == (match last_outside(b, trusted) {
            Some(ip) => Some(ip),
            None => last_outside(a, trusted),
        }),
    decreases b.len(),
{
    if b.len() == 0 {
        assert(a + b =~= a);
    } else {
        lemma_last_of_two(a, b.drop_last(), trusted);
        assert((a + b).drop_last() =~= a + b.drop_last());
        assert((a + b).last() == b.last());
    }
}

proof fn lemma_none_last(ips: Seq<Option<IpAddr>>, trusted: Seq<IpNet>)
    requires
        forall|i: int| 0 <= i < ips.len() ==> outside(#[trigger] ips[i], trusted) is None,
    ensures
        last_outside(ips, trusted) is None,
    decreases ips.len(),
{
    if ips.len() > 0 {
        assert forall|i: int| 0 <= i < ips.drop_last().len() implies outside(
            #[trigger] ips.drop_last()[i],
            trusted,
        ) is None by {
            assert(ips.drop_last()[i] == ips[i]);
        }
        lemma_none_last(ips.drop_last(), trusted);
        assert(ips.last() == ips[ips.len() - 1]);
    }
}

proof fn lemma_text_lists_none(text: Seq<char>, trusted: Seq<IpNet>)
    requires
        lists_no_outsider(text, trusted),
    ensures
        last_outside(
            crate::text::pieces(text, ',').map_values(|t: Seq<char>| spelled(t)),
            trusted,
        ) is None,
{
    let all = crate::text::pieces(text, ',');
    let ips = all.map_values(|t: Seq<char>| spelled(t));
    assert forall|i: int| 0 <= i < ips.len() implies outside(#[trigger] ips[i], trusted) is None by {
        crate::text::lemma_piece_is_entry(text, ',', i);
        assert(crate::text::is_entry(text, ',', all[i]));
        lemma_spelled(all[i], trusted);
    }
    lemma_none_last(ips, trusted);
}

proof fn lemma_value_lists_none(value: Seq<u8>, trusted: Seq<IpNet>)
    requires
        value_lists_no_outsider(value, trusted),
    ensures
        last_outside(xff_entries(value), trusted) is None,
{
    match crate::header_map::value_text(value) {
        Some(text) => lemma_text_lists_none(text, trusted),
        None => {},
    }
}

proof fn lemma_xff_at(values: Seq<Seq<u8>>, trusted: Seq<IpNet>, n: int)
    requires
        0 <= n < values.len(),
        last_outside(xff_entries(values[n]), trusted) is Some,
        forall|j: int|
            n < j < values.len() ==> value_lists_no_outsider(#[trigger] values[j], trusted),
    ensures
        xff_ip(values, trusted) == last_outside(xff_entries(values[n]), trusted),
    decreases values.len(),
{
    if n < values.len() - 1 {
        assert(values.last() == values[values.len() - 1]);
        lemma_value_lists_none(values.last(), trusted);
        let front = values.drop_last();
        assert forall|j: int| n < j < front.len() implies value_lists_no_outsider(
            #[trigger] front[j],
            trusted,
        ) by {
            assert(front[j] == values[j]);
        }
        lemma_xff_at(front, trusted, n);
    }
}

proof fn lemma_xff_none(values: Seq<Seq<u8>>, trusted: Seq<IpNet>)
    requires
        forall|j: int|
            0 <= j < values.len() ==> value_lists_no_outsider(#[trigger] values[j], trusted),
    ensures
        xff_ip(values, trusted) is None,
    decreases values.len(),
{
    if values.len() > 0 {
        assert(values.last() == values[values.len() - 1]);
        lemma_value_lists_none(values.last(), trusted);
        let front = values.drop_last();
        assert forall|j: int| 0 <= j < front.len() implies value_lists_no_outsider(
            #[trigger] front[j],
            trusted,
        ) by {
            assert(front[j] == values[j]);
        }
        lemma_xff_none(front, trusted);
    }
}

proof fn lemma_own_names(contents: Map<Seq<char>, Seq<Seq<u8>>>)
    ensures
        crate::header_map::lower("x-forwarded-for"@) == "x-forwarded-for"@,
        crate::header_map::lower("x-real-ip"@) == "x-real-ip"@,
        crate::header_map::lower("forwarded"@) == "forwarded"@,
{
    reveal_strlit("x-forwarded-for");
    reveal_strlit("x-real-ip");
    reveal_strlit("forwarded");
    crate::header_map::a_lower_case_name_is_its_own(contents, "x-forwarded-for"@);
    crate::header_map::a_lower_case_name_is_its_own(contents, "x-real-ip"@);
    crate::header_map::a_lower_case_name_is_its_own(contents, "forwarded"@);
}

/// The last entry of all `X-Forwarded-For` values that spells an address outside the trusted
/// networks names the client: whatever comes before it, in its value or an earlier one, has no
/// say, and every entry behind it is trusted or spells no address.
pub proof fn the_last_untrusted_entry_names_the_client(
    contents: Map<Seq<char>, Seq<Seq<u8>>>,
    trusted: Seq<IpNet>,
    n: int,
    a: Seq<char>,
    e: Seq<char>,
    b: Seq<char>,
    core: Seq<char>,
    ip: IpAddr,
)
    requires
        contents.contains_key("x-forwarded-for"@),
        0 <= n < contents["x-forwarded-for"@].len(),
        crate::header_map::value_text(contents["x-forwarded-for"@][n]) == Some(a + e + b),
        crate::text::entry_between(a + e + b, ',', a, e, b),
        crate::text::padded(e, core),
        ip_of_text(core) == Some(ip),
        !super::ip::any_holds(trusted, ip),
        b.len() > 0 ==> lists_no_outsider(b.drop_first(), trusted),
        forall|j: int|
            n < j < contents["x-forwarded-for"@].len() ==> value_lists_no_outsider(
                #[trigger] contents["x-forwarded-for"@][j],
                trusted,
            ),
    ensures
        header_ip(contents, trusted) == Some(ip),
{
    lemma_own_names(contents);
    let values = contents["x-forwarded-for"@];
    let text = a + e + b;
    let before = if a.len() == 0 {
        Seq::empty()
    } else {
        crate::text::pieces(a.drop_last(), ',')
    };
    let behind = if b.len() == 0 {
        Seq::empty()
    } else {
        crate::text::pieces(b.drop_first(), ',')
    };
    crate::text::lemma_entry_pieces(text, ',', a, e, b);
    let spell = |t: Seq<char>| spelled(t);
    let x = before.map_values(spell);
    let y = seq![e].map_values(spell);
    let z = behind.map_values(spell);
    assert(xff_entries(values[n]) =~= x + y + z);
    if b.len() > 0 {
        lemma_text_lists_none(b.drop_first(), trusted);
    } else {
        assert(z =~= Seq::empty());
    }
    assert(last_outside(z, trusted) is None);
    crate::text::trimming_finds_the_core(e, core);
    assert(y.last() == Some(ip));
    assert(last_outside(y, trusted) == Some(ip));
    lemma_last_of_two(x, y, trusted);
    lemma_last_of_two(x + y, z, trusted);
    lemma_xff_at(values, trusted, n);
}

proof fn lemma_xff_nobody(contents: Map<Seq<char>, Seq<Seq<u8>>>, trusted: Seq<IpNet>)
    requires
        xff_names_nobody(contents, trusted),
    ensures
        xff_ip(crate::header_map::values_of(contents, "x-forwarded-for"@), trusted) is None,
{
    lemma_own_names(contents);
    if contents.contains_key("x-forwarded-for"@) {
        lemma_xff_none(contents["x-forwarded-for"@], trusted);
    }
}

/// Where `X-Forwarded-For` names nobody, the address that `X-Real-IP` spells first names the
/// client, if it is outside the trusted networks.
pub proof fn the_real_ip_names_the_client_next(
    contents: Map<Seq<char>, Seq<Seq<u8>>>,
    trusted: Seq<IpNet>,
    text: Seq<char>,
    core: Seq<char>,
    ip: IpAddr,
)
    requires
        xff_names_nobody(contents, trusted),
        contents.contains_key("x-real-ip"@),
        contents["x-real-ip"@].len() > 0,
        crate::header_map::value_text(contents["x-real-ip"@][0]) == Some(text),
        crate::text::padded(text, core),
        ip_of_text(core) == Some(ip),
        !super::ip::any_holds(trusted, ip),
    ensures
        header_ip(contents, trusted) == Some(ip),
{
    lemma_own_names(contents);
    lemma_xff_nobody(contents, trusted);
    crate::text::trimming_finds_the_core(text, core);
}

proof fn lemma_first_at(ips: Seq<Option<IpAddr>>, trusted: Seq<IpNet>, k: int, ip: IpAddr)
    requires
        0 <= k < ips.len(),
        ips[k] == Some(ip),
        !super::ip::any_holds(trusted, ip),
        forall|i: int| 0 <= i < k ==> !is_outsider(#[trigger] ips[i], trusted),
    ensures
        first_outside(ips, trusted) == Some(ip),
    decreases ips.len(),
{
    if k > 0 {
        assert(!is_outsider(ips[0], trusted));
        let rest = ips.drop_first();
        assert forall|i: int| 0 <= i < k - 1 implies !is_outsider(#[trigger] rest[i], trusted) by {
            assert(rest[i] == ips[i + 1]);
        }
        lemma_first_at(rest, trusted, k - 1, ip);
    }
}

proof fn lemma_first_none(ips: Seq<Option<IpAddr>>, trusted: Seq<IpNet>)
    requires
        forall|i: int| 0 <= i < ips.len() ==> !is_outsider(#[trigger] ips[i], trusted),
    ensures
        first_outside(ips, trusted) is None,
    decreases ips.len(),
{
    if ips.len() > 0 {
        assert(!is_outsider(ips[0], trusted));
        let rest = ips.drop_first();
        assert forall|i: int| 0 <= i < rest.len() implies !is_outsider(
            #[trigger] rest[i],
            trusted,
        ) by {
            assert(rest[i] == ips[i + 1]);
        }
        lemma_first_none(rest, trusted);
    }
}

proof fn lemma_forwarded_at(
    values: Seq<Seq<u8>>,
    trusted: Seq<IpNet>,
    n: int,
    k: int,
    ip: IpAddr,
)
    requires
        0 <= n < values.len(),
        0 <= k < hops_in_value(values[n]).len(),
        hops_in_value(values[n])[k] == Some(ip),
        !super::ip::any_holds(trusted, ip),
        forall|i: int|
            0 <= i < k ==> !is_outsider(#[trigger] hops_in_value(values[n])[i], trusted),
        forall|j: int| 0 <= j < n ==> no_hop_outside(#[trigger] values[j], trusted),
    ensures
        forwarded_ip(values, trusted) == Some(ip),
    decreases values.len(),
{
    if n == 0 {
        lemma_first_at(hops_in_value(values[0]), trusted, k, ip);
    } else {
        assert(no_hop_outside(values[0], trusted));
        lemma_first_none(hops_in_value(values[0]), trusted);
        let rest = values.drop_first();
        assert(rest[n - 1] == values[n]);
        assert forall|j: int| 0 <= j < n - 1 implies no_hop_outside(#[trigger] rest[j], trusted) by {
            assert(rest[j] == values[j + 1]);
        }
        lemma_forwarded_at(rest, trusted, n - 1, k, ip);
    }
}

proof fn lemma_forwarded_none(values: Seq<Seq<u8>>, trusted: Seq<IpNet>)
    requires
        forall|j: int| 0 <= j < values.len() ==> no_hop_outside(#[trigger] values[j], trusted),
    ensures
        forwarded_ip(values, trusted) is None,
    decreases values.len(),
{
    if values.len() > 0 {
        assert(no_hop_outside(values[0], trusted));
        lemma_first_none(hops_in_value(values[0]), trusted);
        let rest = values.drop_first();
        assert forall|j: int| 0 <= j < rest.len() implies no_hop_outside(
            #[trigger] rest[j],
            trusted,
        ) by {
            assert(rest[j] == values[j + 1]);
        }
        lemma_forwarded_none(rest, trusted);
    }
}

proof fn lemma_real_ip_nobody(contents: Map<Seq<char>, Seq<Seq<u8>>>, trusted: Seq<IpNet>)
    requires
        real_ip_names_nobody(contents, trusted),
    ensures
        real_ip(crate::header_map::values_of(contents, "x-real-ip"@), trusted) is None,
{
    lemma_own_names(contents);
    if contents.contains_key("x-real-ip"@) && contents["x-real-ip"@].len() > 0 {
        if let Some(text) = crate::header_map::value_text(contents["x-real-ip"@][0]) {
            lemma_spelled(text, trusted);
        }
    }
}

/// Where neither `X-Forwarded-For` nor `X-Real-IP` names anybody, the first hop of all
/// `Forwarded` values that is an address outside the trusted networks names the client.
pub proof fn the_first_untrusted_hop_names_the_client_last(
    contents: Map<Seq<char>, Seq<Seq<u8>>>,
    trusted: Seq<IpNet>,
    n: int,
    text: Seq<char>,
    hops: Seq<Option<IpAddr>>,
    k: int,
    ip: IpAddr,
)
    requires
        xff_names_nobody(contents, trusted),
        real_ip_names_nobody(contents, trusted),
        contents.contains_key("forwarded"@),
        0 <= n < contents["forwarded"@].len(),
        crate::header_map::value_text(contents["forwarded"@][n]) == Some(text),
        !has_lone_quote_host(text),
        forwarded_for(text) == Some(hops),
        0 <= k < hops.len(),
        hops[k] == Some(ip),
        !super::ip::any_holds(trusted, ip),
        forall|i: int| 0 <= i < k ==> !is_outsider(#[trigger] hops[i], trusted),
        forall|j: int|
            0 <= j < n ==> no_hop_outside(#[trigger] contents["forwarded"@][j], trusted),
    ensures
        header_ip(contents, trusted) == Some(ip),
{
    lemma_own_names(contents);
    lemma_xff_nobody(contents, trusted);
    lemma_real_ip_nobody(contents, trusted);
    assert(hops_in_value(contents["forwarded"@][n]) == hops);
    lemma_forwarded_at(contents["forwarded"@], trusted, n, k, ip);
}

/// Where no forwarding header names anybody outside the trusted networks, the headers name
/// nobody.
pub proof fn headers_of_trusted_proxies_name_nobody(
    contents: Map<Seq<char>, Seq<Seq<u8>>>,
    trusted: Seq<IpNet>,
)
    requires
        xff_names_nobody(contents, trusted),
        real_ip_names_nobody(contents, trusted),
        contents.contains_key("forwarded"@) ==> forall|j: int|
            0 <= j < contents["forwarded"@].len() ==> no_hop_outside(
                #[trigger] contents["forwarded"@][j],
                trusted,
            ),
    ensures
        header_ip(contents, trusted) is None,
{
    lemma_own_names(contents);
    lemma_xff_nobody(contents, trusted);
    lemma_real_ip_nobody(contents, trusted);
    if contents.contains_key("forwarded"@) {
        lemma_forwarded_none(contents["forwarded"@], trusted);
    }
}

/// Who the key of a request stands for: behind a trusted proxy whom the headers name, and the
/// proxy where they name nobody; from anyone else the peer, unless it sends a forwarding
/// header, which is refused; and without a peer nobody.
pub proof fn the_key_stands_for_the_client(
    smart: SmartIp,
    parts: Parts,
    r: Result<KeyOutcome<IpAddr>, ExtractionError>,
)
    requires
        smart.yields(&parts, r),
    ensures
        ({
            let contents = crate::header_map::header_contents(parts.headers);
            let forwarding = contents.contains_key("x-forwarded-for"@) || contents.contains_key(
                "x-real-ip"@,
            ) || contents.contains_key("forwarded"@);
            let named = header_ip(contents, smart.nets());
            match parts.peer {
                None => r == Err::<KeyOutcome<IpAddr>, ExtractionError>(
                    ExtractionError::MissingConnectInfo,
                ),
                Some(peer) => {
                    &&& super::ip::any_holds(smart.nets(), peer) && named is Some ==> (
                    r matches Ok(o) && o.key == super::ip::masked(named->0, smart.prefix())
                        && o.quota_override is None)
                    &&& super::ip::any_holds(smart.nets(), peer) && named is None ==> (
                    r matches Ok(o) && o.key == super::ip::masked(peer, smart.prefix())
                        && o.quota_override is None)
                    &&& !super::ip::any_holds(smart.nets(), peer) && smart.nets().len() > 0
                        && forwarding ==> r == Err::<KeyOutcome<IpAddr>, ExtractionError>(
                        ExtractionError::UntrustedProxy,
                    )
                    &&& !super::ip::any_holds(smart.nets(), peer) && (smart.nets().len() == 0
                        || !forwarding) ==> (r matches Ok(o) && o.key == super::ip::masked(
                        peer,
                        smart.prefix(),
                    ) && o.quota_override is None)
                },
            }
        }),
{
    lemma_own_names(crate::header_map::header_contents(parts.headers));
}

/// A parameter of a stanza of the text is named `host`, in any case, and has a lone quotation
/// mark as its value.
pub open spec fn lone_quote_at(
    text: Seq<char>,
    stanza: Seq<char>,
    inner: Seq<char>,
    part: Seq<char>,
    key: Seq<char>,
) -> bool {
    &&& crate::text::is_entry(text, ',', stanza)
    &&& crate::text::padded(stanza, inner)
    &&& crate::text::is_entry(inner, ';', part)
    &&& crate::text::padded(part, key.push('=').push('"'))
    &&& !key.contains('=')
    &&& crate::header_map::lower(key) == seq!['h', 'o', 's', 't']
}

/// The `Forwarded` values that are passed over are those in which some stanza has a host that
/// is a lone quotation mark, and no others.
pub proof fn only_a_lone_quote_is_passed_over(text: Seq<char>)
    ensures
        has_lone_quote_host(text) <==> exists|
            stanza: Seq<char>,
            inner: Seq<char>,
            part: Seq<char>,
            key: Seq<char>,
        | #[trigger] lone_quote_at(text, stanza, inner, part, key),
{
    reveal_strlit("host");
    reveal_strlit("\"");
    assert("host"@ =~= seq!['h', 'o', 's', 't']);
    assert("\""@ =~= seq!['"']);
    if has_lone_quote_host(text) {
        let (i, j) = choose|i: int, j: int|
            {
                &&& 0 <= i < crate::text::pieces(text, ',').len()
                &&& 0 <= j < stanza_parts(text, i).len()
                &&& lone_quote_host(#[trigger] stanza_parts(text, i)[j])
            };
        let stanza = crate::text::pieces(text, ',')[i];
        let inner = crate::text::trimmed(stanza);
        let part = stanza_parts(text, i)[j];
        let core = crate::text::trimmed(part);
        let (key, value) = crate::text::cut(core, '=')->0;
        crate::text::lemma_piece_is_entry(text, ',', i);
        crate::text::trimming_takes_the_blanks_off(stanza);
        crate::text::lemma_piece_is_entry(inner, ';', j);
        crate::text::trimming_takes_the_blanks_off(part);
        crate::text::a_cut_text_joins_again(core, '=', key, value);
        assert(core =~= key.push('=').push('"'));
        assert(lone_quote_at(text, stanza, inner, part, key));
    }
    if exists|stanza: Seq<char>, inner: Seq<char>, part: Seq<char>, key: Seq<char>|
        #[trigger] lone_quote_at(text, stanza, inner, part, key) {
        let (stanza, inner, part, key) = choose|
            stanza: Seq<char>,
            inner: Seq<char>,
            part: Seq<char>,
            key: Seq<char>,
        | #[trigger] lone_quote_at(text, stanza, inner, part, key);
        let i = crate::text::lemma_entry_is_piece(text, ',', stanza);
        crate::text::trimming_finds_the_core(stanza, inner);
        let j = crate::text::lemma_entry_is_piece(inner, ';', part);
        let core = key.push('=').push('"');
        crate::text::trimming_finds_the_core(part, core);
        assert(core =~= key.push('=') + seq!['"']);
        crate::text::a_cut_text_joins_again(core, '=', key, seq!['"']);
        assert(stanza_parts(text, i)[j] == part);
        assert(lone_quote_host(stanza_parts(text, i)[j]));
    }
}

}
