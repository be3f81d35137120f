//! Builder for assembling a `GovernorConfig`.
use std::sync::Arc;

use vstd::prelude::*;
use vstd::string::*;

use crate::duration::Duration;
use crate::error::{quoted, ConfigError};
use crate::extractor::ip::{IpAddr, IpNet};
use crate::extractor::{AnyExtractor, Carrier, KeyExtractor};
use crate::header_map::is_header_text;
use crate::headers::quota_window_seconds;
use crate::limiters::StackFactory;
use crate::quota::Quota;
use crate::request::Method;
use crate::response::BodyPreset;
use crate::text::{decimal, push_decimal};

verus! {

/// Holds the primary extractor configured on the builder.
#[verifier::reject_recursive_types(K)]
pub enum ExtractorSlot<K> {
    /// None was configured.
    Unset,
    /// One that answers at once.
    Sync(AnyExtractor<K>),
    /// One that has to be awaited; whoever drives the request holds it.
    Async,
}

/// Everything in a config that does not depend on the key type.
pub struct Settings {
    pub quota_default: Option<Quota>,
    pub quota_methods: Vec<(Method, Quota)>,
    pub whitelist_methods: Vec<Method>,
    pub whitelist_paths: Vec<String>,
    pub whitelist_ips: Vec<IpNet>,
    pub body_preset: BodyPreset,
    pub gc_interval: Option<Duration>,
    pub gc_disabled: bool,
    pub max_keys: Option<usize>,
    pub legacy_reset_epoch: bool,
    pub redact_keys: bool,
}

impl Settings {
    /// Every quota can be counted by a limiter.
    pub open spec fn usable(&self) -> bool {
        &&& self.quota_default matches Some(q) ==> q.usable()
        &&& forall|i: int|
            0 <= i < self.quota_methods@.len() ==> (#[trigger] self.quota_methods@[i]).1.usable()
    }

    /// What a builder starts from: no quotas, no whitelists, a sweep every minute.
    pub open spec fn is_initial(&self) -> bool {
        &&& self.quota_default is None
        &&& self.quota_methods@.len() == 0
        &&& self.whitelist_methods@.len() == 0
        &&& self.whitelist_paths@.len() == 0
        &&& self.whitelist_ips@.len() == 0
        &&& self.body_preset == BodyPreset::Text
        &&& self.gc_interval matches Some(d) && d.secs() == 60 && d.subsec() == 0
        &&& !self.gc_disabled
        &&& self.max_keys is None
        &&& !self.legacy_reset_epoch
        &&& !self.redact_keys
    }

    fn is_usable(&self) -> (r: bool)
        ensures
            r == self.usable(),
    {
        if let Some(q) = self.quota_default {
            if !q.is_usable() {
                return false;
            }
        }
        let mut i: usize = 0;
        while i < self.quota_methods.len()
            invariant
                i <= self.quota_methods@.len(),
                forall|j: int| 0 <= j < i ==> (#[trigger] self.quota_methods@[j]).1.usable(),
            decreases self.quota_methods@.len() - i,
        {
            if !self.quota_methods[i].1.is_usable() {
                return false;
            }
            i = i + 1;
        }
        true
    }
}

impl Default for Settings {
    fn default() -> (s: Self)
        ensures
            s.is_initial(),
    {
        Settings {
            quota_default: None,
            quota_methods: Vec::new(),
            whitelist_methods: Vec::new(),
            whitelist_paths: Vec::new(),
            whitelist_ips: Vec::new(),
            body_preset: BodyPreset::Text,
            gc_interval: Some(Duration::from_secs(60)),
            gc_disabled: false,
            max_keys: None,
            legacy_reset_epoch: false,
            redact_keys: false,
        }
    }
}

/// Validated rate-limit configuration produced by [`GovernorConfigBuilder::finish`].
#[verifier::reject_recursive_types(K)]
pub struct GovernorConfig<K> {
    pub extractor: ExtractorSlot<K>,
    pub stack: Vec<StackFactory>,
    pub settings: Settings,
}

/// The policy name can be advertised and its quota counted.
pub open spec fn factory_ready(f: StackFactory) -> bool {
    f.limit().usable() && crate::header_map::text_ok(f.label())
}

impl<K> GovernorConfig<K> {
    /// Limiters can be built for every quota, and the names of the stack can stand in a
    /// header.
    pub open spec fn ready(&self) -> bool {
        &&& self.settings.usable()
        &&& forall|i: int| 0 <= i < self.stack@.len() ==> factory_ready(#[trigger] self.stack@[i])
    }

    /// Whether a layer can be built from the configuration.
    pub fn is_ready(&self) -> (r: bool)
        ensures
            r == self.ready(),
    {
        if !self.settings.is_usable() {
            return false;
        }
        let mut i: usize = 0;
        while i < self.stack.len()
            invariant
                i <= self.stack@.len(),
                forall|j: int| 0 <= j < i ==> factory_ready(#[trigger] self.stack@[j]),
            decreases self.stack@.len() - i,
        {
            let entry: &StackFactory = &self.stack[i];
            if !entry.factory.factory_quota().is_usable() || !is_header_text(
                entry.factory.factory_name(),
            ) {
                assert(!factory_ready(self.stack@[i as int]));
                return false;
            }
            i = i + 1;
        }
        true
    }
}

/// Type-state builder for [`GovernorConfig`].
///
/// Start with `GovernorConfigBuilder::default()` (`K = ()`), then call
/// [`with_extractor`](Self::with_extractor) or
/// [`with_async_extractor`](Self::with_async_extractor) to fix the key type, then configure
/// quotas and call [`finish`](Self::finish).
#[verifier::reject_recursive_types(K)]
pub struct GovernorConfigBuilder<K = ()> {
    pub extractor: ExtractorSlot<K>,
    pub requires_connect_info: bool,
    pub connect_info_acknowledged: bool,
    pub stack: Vec<StackFactory>,
    pub empty_chain_names: Vec<&'static str>,
    pub settings: Settings,
}

impl Default for GovernorConfigBuilder<()> {
    fn default() -> (b: Self)
        ensures
            b.extractor is Unset,
            !b.requires_connect_info,
            !b.connect_info_acknowledged,
            b.stack@.len() == 0,
            b.empty_chain_names@.len() == 0,
            b.settings.is_initial(),
    {
        GovernorConfigBuilder {
            extractor: ExtractorSlot::Unset,
            requires_connect_info: false,
            connect_info_acknowledged: false,
            stack: Vec::new(),
            empty_chain_names: Vec::new(),
            settings: Settings::default(),
        }
    }
}

/// `b` and `c` agree in everything but the extractor and what it requires.
pub open spec fn same_but_extractor<K, L>(
    b: GovernorConfigBuilder<K>,
    c: GovernorConfigBuilder<L>,
) -> bool {
    &&& b.connect_info_acknowledged == c.connect_info_acknowledged
    &&& b.stack == c.stack
    &&& b.empty_chain_names == c.empty_chain_names
    &&& b.settings == c.settings
}

impl GovernorConfigBuilder<()> {
    /// Set the synchronous key extractor; transitions the builder's key type to `E::Key`.
    ///
    /// Only callable on a fresh (`K = ()`) builder: type-state prevents a second call.
    #[must_use]
    pub fn with_extractor<E: KeyExtractor>(self, e: E) -> (b: GovernorConfigBuilder<E::Key>)
        ensures
            b.extractor matches ExtractorSlot::Sync(s) && forall|parts, r|
                #[trigger] s.yields(parts, r) == e.yields(parts, r),
            call_ensures(E::requires_connect_info, (&e,), b.requires_connect_info),
            same_but_extractor(self, b),
    {
        let requires_connect_info: bool = e.requires_connect_info();
        let any = AnyExtractor { slot: Box::new(Carrier(e)) };
        self.with_slot(ExtractorSlot::Sync(any), requires_connect_info)
    }

    /// Announce an async key extractor, which whoever drives the requests awaits;
    /// transitions the builder's key type to `K`.
    ///
    /// Only callable on a fresh (`K = ()`) builder.
    #[must_use]
    pub fn with_async_extractor<K>(self) -> (b: GovernorConfigBuilder<K>)
        ensures
            b.extractor is Async,
            !b.requires_connect_info,
            same_but_extractor(self, b),
    {
        self.with_slot(ExtractorSlot::Async, false)
    }

    fn with_slot<K>(self, extractor: ExtractorSlot<K>, requires_connect_info: bool) -> (b:
        GovernorConfigBuilder<K>)
        ensures
            b.extractor == extractor,
            b.requires_connect_info == requires_connect_info,
            same_but_extractor(self, b),
    {
        GovernorConfigBuilder {
            extractor,
            requires_connect_info,
            connect_info_acknowledged: self.connect_info_acknowledged,
            stack: self.stack,
            empty_chain_names: self.empty_chain_names,
            settings: self.settings,
        }
    }
}

/// `b` and `c` agree in everything but the settings.
pub open spec fn same_but_settings<K>(
    b: GovernorConfigBuilder<K>,
    c: GovernorConfigBuilder<K>,
) -> bool {
    c == (GovernorConfigBuilder { settings: c.settings, ..b })
}

/// What the window of a quota is called in a policy name, where it has a name.
pub open spec fn window_suffix(w: u64, idx: nat) -> Seq<char> {
    if w == 1 {
        "1s"@
    } else if w == 60 {
        "1m"@
    } else if w == 3600 {
        "1h"@
    } else {
        decimal(idx)
    }
}

/// Name of the entry `idx` of a chain of quotas.
pub open spec fn chain_label(name: Seq<char>, q: Quota, idx: nat) -> Seq<char> {
    name + ":"@ + window_suffix(crate::headers::window(q), idx)
}

/// `stack` is `before` with an entry for each of `quotas`, named after their windows.
pub open spec fn chained<E: KeyExtractor>(
    before: Seq<StackFactory>,
    stack: Seq<StackFactory>,
    name: Seq<char>,
    extractor: E,
    quotas: Seq<Quota>,
) -> bool {
    &&& stack.len() == before.len() + quotas.len()
    &&& stack.take(before.len() as int) == before
    &&& forall|i: int|
        0 <= i < quotas.len() ==> (#[trigger] stack[before.len() + i]).is_for(
            chain_label(name, quotas[i], i as nat),
            quotas[i],
            extractor,
        )
}

/// Some network holds every IPv4 address.
pub open spec fn covers_all_v4(nets: Seq<IpNet>) -> bool {
    exists|i: int|
        0 <= i < nets.len() && (#[trigger] nets[i]).address() is V4 && nets[i].prefix() == 0
}

/// Some network holds every IPv6 address.
pub open spec fn covers_all_v6(nets: Seq<IpNet>) -> bool {
    exists|i: int|
        0 <= i < nets.len() && (#[trigger] nets[i]).address() is V6 && nets[i].prefix() == 0
}

/// The first thing that is wrong with a builder, if anything is.
pub open spec fn config_error<K>(b: GovernorConfigBuilder<K>) -> Option<ConfigError> {
    if b.extractor is Unset {
        Some(ConfigError::NoExtractor)
    } else if b.empty_chain_names@.len() > 0 {
        Some(ConfigError::EmptyChain)
    } else if covers_all_v4(b.settings.whitelist_ips@) && covers_all_v6(b.settings.whitelist_ips@) {
        Some(ConfigError::ContradictoryWhitelist)
    } else if b.requires_connect_info && !b.connect_info_acknowledged {
        Some(ConfigError::MissingConnectInfoAcknowledgement)
    } else {
        None
    }
}

impl<K> GovernorConfigBuilder<K> {
    /// Set the default quota applied when no per-method quota matches.
    #[must_use]
    pub fn quota_default(self, q: Quota) -> (b: Self)
        ensures
            same_but_settings(self, b),
            b.settings == (Settings { quota_default: Some(q), ..self.settings }),
    {
        let mut b = self;
        b.settings.quota_default = Some(q);
        b
    }

    /// Add a per-HTTP-method quota; overrides the default for that method only.
    #[must_use]
    pub fn quota_for(self, method: Method, q: Quota) -> (b: Self)
        ensures
            same_but_settings(self, b),
            b.settings.quota_methods@ == self.settings.quota_methods@.push((method, q)),
            b.settings == (Settings { quota_methods: b.settings.quota_methods, ..self.settings }),
    {
        let mut b = self;
        b.settings.quota_methods.push((method, q));
        b
    }

    /// Push a named limiter onto the stack with its own extractor and quota.
    ///
    /// Entries are checked in insertion order; the first reject wins.
    #[must_use]
    pub fn stack<E: KeyExtractor>(self, name: &'static str, extractor: E, quota: Quota) -> (b: Self)
        ensures
            b == (GovernorConfigBuilder { stack: b.stack, ..self }),
            b.stack@.len() == self.stack@.len() + 1,
            b.stack@.drop_last() == self.stack@,
            b.stack@.last().is_for(name@, quota, extractor),
    {
        let mut b = self;
        b.stack.push(StackFactory::new(name.to_owned(), quota, Arc::new(extractor)));
        assert(b.stack@.drop_last() =~= self.stack@);
        b
    }

    /// Push multiple same-extractor entries onto the stack, one per quota window.
    ///
    /// All entries share a single extractor. Names are derived from the quota window: 1 s is
    /// `"name:1s"`, 60 s is `"name:1m"`, 3600 s is `"name:1h"`, any other is `"name:N"`
    /// (0-based index).
    ///
    /// Passing no quotas records the name for an `EmptyChain` error deferred to `finish`.
    #[must_use]
    pub fn quotas<E: KeyExtractor>(
        self,
        name: &'static str,
        extractor: E,
        quotas: Vec<Quota>,
    ) -> (b: Self)
        ensures
            quotas@.len() == 0 ==> {
                &&& b.empty_chain_names@ == self.empty_chain_names@.push(name)
                &&& b == (GovernorConfigBuilder { empty_chain_names: b.empty_chain_names, ..self })
            },
            quotas@.len() > 0 ==> {
                &&& b == (GovernorConfigBuilder { stack: b.stack, ..self })
                &&& chained(self.stack@, b.stack@, name@, extractor, quotas@)
            },
    {
        let mut b = self;
        if quotas.len() == 0 {
            b.empty_chain_names.push(name);
            return b;
        }
        let shared: Arc<E> = Arc::new(extractor);
        let mut idx: usize = 0;
        let ghost before = self.stack@;
        assert(b.stack@.take(before.len() as int) =~= before);
        while idx < quotas.len()
            invariant
                idx <= quotas@.len(),
                before == self.stack@,
                b == (GovernorConfigBuilder { stack: b.stack, ..self }),
                chained(before, b.stack@, name@, extractor, quotas@.take(idx as int)),
                *shared == extractor,
            decreases quotas@.len() - idx,
        {
            let q: Quota = quotas[idx];
            let label: String = quota_label(name, &q, idx);
            let ghost last = b.stack@;
            b.stack.push(StackFactory::new(label, q, Arc::clone(&shared)));
            proof {
                let some = quotas@.take(idx + 1);
                assert(b.stack@.take(before.len() as int) =~= before) by {
                    assert(last.take(before.len() as int) =~= before);
                }
                assert forall|i: int| 0 <= i < some.len() implies (
                #[trigger] b.stack@[before.len() + i]).is_for(
                    chain_label(name@, some[i], i as nat),
                    some[i],
                    extractor,
                ) by {
                    if i < idx {
                        assert(b.stack@[before.len() + i] == last[before.len() + i]);
                        assert(some[i] == quotas@.take(idx as int)[i]);
                    }
                }
            }
            idx = idx + 1;
        }
        assert(quotas@.take(quotas@.len() as int) =~= quotas@);
        b
    }

    /// Bypass rate limiting for requests using any of the given HTTP methods.
    #[must_use]
    pub fn whitelist_methods(self, methods: Vec<Method>) -> (b: Self)
        ensures
            same_but_settings(self, b),
            b.settings.whitelist_methods@ == self.settings.whitelist_methods@ + methods@,
            b.settings == (Settings {
                whitelist_methods: b.settings.whitelist_methods,
                ..self.settings
            }),
    {
        let mut b = self;
        let mut methods = methods;
        b.settings.whitelist_methods.append(&mut methods);
        b
    }

    /// Bypass rate limiting for requests whose path matches any of the given glob patterns.
    ///
    /// `*` matches one path segment; `**` matches any number of segments.
    #[must_use]
    pub fn whitelist_paths(self, paths: Vec<String>) -> (b: Self)
        ensures
            same_but_settings(self, b),
            b.settings.whitelist_paths@ == self.settings.whitelist_paths@ + paths@,
            b.settings == (Settings {
                whitelist_paths: b.settings.whitelist_paths,
                ..self.settings
            }),
    {
        let mut b = self;
        let mut paths = paths;
        b.settings.whitelist_paths.append(&mut paths);
        b
    }

    /// Bypass rate limiting for requests originating from any of the given IP CIDRs.
    #[must_use]
    pub fn whitelist_ips(self, ips: Vec<IpNet>) -> (b: Self)
        ensures
            same_but_settings(self, b),
            b.settings.whitelist_ips@ == self.settings.whitelist_ips@ + ips@,
            b.settings == (Settings { whitelist_ips: b.settings.whitelist_ips, ..self.settings }),
    {
        let mut b = self;
        let mut ips = ips;
        b.settings.whitelist_ips.append(&mut ips);
        b
    }

    /// Select the response body format used for 429 responses.
    #[must_use]
    pub fn body_preset(self, preset: BodyPreset) -> (b: Self)
        ensures
            same_but_settings(self, b),
            b.settings == (Settings { body_preset: preset, ..self.settings }),
    {
        let mut b = self;
        b.settings.body_preset = preset;
        b
    }

    /// Switch `X-RateLimit-Reset` from delta-seconds (default) to Unix epoch seconds.
    ///
    /// Most APIs use delta; flip this if you need to match GitHub-style epoch wire format.
    #[must_use]
    pub fn legacy_reset_epoch(self, on: bool) -> (b: Self)
        ensures
            same_but_settings(self, b),
            b.settings == (Settings { legacy_reset_epoch: on, ..self.settings }),
    {
        let mut b = self;
        b.settings.legacy_reset_epoch = on;
        b
    }

    /// Override the GC sweep interval (default: 60 s).
    #[must_use]
    pub fn gc_interval(self, interval: Duration) -> (b: Self)
        ensures
            same_but_settings(self, b),
            b.settings == (Settings { gc_interval: Some(interval), ..self.settings }),
    {
        let mut b = self;
        b.settings.gc_interval = Some(interval);
        b
    }

    /// Disable the background GC task entirely.
    #[must_use]
    pub fn gc_disable(self) -> (b: Self)
        ensures
            same_but_settings(self, b),
            b.settings == (Settings { gc_disabled: true, ..self.settings }),
    {
        let mut b = self;
        b.settings.gc_disabled = true;
        b
    }

    /// Cap the sidecar tracker used for `snapshot().top_n` and best-effort key shedding.
    ///
    /// governor does not expose per-key removal, so exceeding this value evicts the oldest
    /// key from the tracker and forces a `retain_recent()` pass on the underlying limiter.
    /// Fresh governor entries may remain until they become stale.
    #[must_use]
    pub fn max_keys(self, n: usize) -> (b: Self)
        ensures
            same_but_settings(self, b),
            b.settings == (Settings { max_keys: Some(n), ..self.settings }),
    {
        let mut b = self;
        b.settings.max_keys = Some(n);
        b
    }

    /// Acknowledge that the router is built with `into_make_service_with_connect_info`.
    ///
    /// Required when using `PeerIp` or `SmartIp`; omitting it causes `finish()` to return
    /// `ConfigError::MissingConnectInfoAcknowledgement`.
    #[must_use]
    pub fn expect_connect_info(self) -> (b: Self)
        ensures
            b == (GovernorConfigBuilder { connect_info_acknowledged: true, ..self }),
    {
        let mut b = self;
        b.connect_info_acknowledged = true;
        b
    }

    /// When `true`, keys are hashed and rendered as `hash:<hex>` in log events instead of
    /// their `Debug` representation. Use this to avoid logging sensitive values such as API
    /// keys or session tokens.
    #[must_use]
    pub fn redact_keys(self, on: bool) -> (b: Self)
        ensures
            same_but_settings(self, b),
            b.settings == (Settings { redact_keys: on, ..self.settings }),
    {
        let mut b = self;
        b.settings.redact_keys = on;
        b
    }

    /// Validate the configuration and produce a [`GovernorConfig`].
    ///
    /// Checks are applied in order: `NoExtractor`, `EmptyChain`, `ContradictoryWhitelist`,
    /// `MissingConnectInfoAcknowledgement`.
    pub fn finish(self) -> (r: Result<GovernorConfig<K>, ConfigError>)
        ensures
            match r {
                Ok(c) => {
                    &&& config_error(self) is None
                    &&& c.extractor == self.extractor
                    &&& c.stack == self.stack
                    &&& c.settings == self.settings
                },
                Err(e) => config_error(self) == Some(e),
            },
    {
        if let ExtractorSlot::Unset = self.extractor {
            return Err(ConfigError::NoExtractor);
        }
        if self.empty_chain_names.len() > 0 {
            return Err(ConfigError::EmptyChain);
        }
        let any_v4: bool = has_any_v4(&self.settings.whitelist_ips);
        let any_v6: bool = has_any_v6(&self.settings.whitelist_ips);
        if any_v4 && any_v6 {
            return Err(ConfigError::ContradictoryWhitelist);
        }
        if self.requires_connect_info && !self.connect_info_acknowledged {
            return Err(ConfigError::MissingConnectInfoAcknowledgement);
        }
        Ok(
            GovernorConfig {
                extractor: self.extractor,
                stack: self.stack,
                settings: self.settings,
            },
        )
    }
}

fn has_any_v4(nets: &Vec<IpNet>) -> (r: bool)
    ensures
        r == covers_all_v4(nets@),
{
    let mut i: usize = 0;
    while i < nets.len()
        invariant
            i <= nets@.len(),
            forall|j: int|
                0 <= j < i ==> !((#[trigger] nets@[j]).address() is V4 && nets@[j].prefix() == 0),
        decreases nets@.len() - i,
    {
        if let IpAddr::V4(_) = nets[i].addr() {
            if nets[i].prefix_len() == 0 {
                return true;
            }
        }
        i = i + 1;
    }
    false
}

fn has_any_v6(nets: &Vec<IpNet>) -> (r: bool)
    ensures
        r == covers_all_v6(nets@),
{
    let mut i: usize = 0;
    while i < nets.len()
        invariant
            i <= nets@.len(),
            forall|j: int|
                0 <= j < i ==> !((#[trigger] nets@[j]).address() is V6 && nets@[j].prefix() == 0),
        decreases nets@.len() - i,
    {
        if let IpAddr::V6(_) = nets[i].addr() {
            if nets[i].prefix_len() == 0 {
                return true;
            }
        }
        i = i + 1;
    }
    false
}

/// Name of the entry `idx` of a chain of quotas.
pub fn quota_label(name: &str, q: &Quota, idx: usize) -> (label: String)
    ensures
        label@ == chain_label(name@, *q, idx as nat),
{
    let mut label: String = quoted(name, ":", "");
    proof {
        reveal_strlit("");
        assert(label@ =~= name@ + ":"@);
    }
    let w: u64 = quota_window_seconds(q);
    if w == 1 {
        label.append("1s");
    } else if w == 60 {
        label.append("1m");
    } else if w == 3600 {
        label.append("1h");
    } else {
        push_decimal(&mut label, idx as u64);
    }
    label
}

/// A whitelist that spares every peer is refused: whatever its address, some network holds
/// it.
pub proof fn contradictory_whitelist_spares_everyone(nets: Seq<IpNet>, ip: IpAddr)
    requires
        covers_all_v4(nets),
        covers_all_v6(nets),
    ensures
        crate::extractor::ip::any_holds(nets, ip),
{
    let v4 = choose|i: int|
        0 <= i < nets.len() && (#[trigger] nets[i]).address() is V4 && nets[i].prefix() == 0;
    let v6 = choose|i: int|
        0 <= i < nets.len() && (#[trigger] nets[i]).address() is V6 && nets[i].prefix() == 0;
    match ip {
        IpAddr::V4(b) => {
            crate::extractor::ip::lemma_whole_v4(nets[v4], b);
        },
        IpAddr::V6(b) => {
            crate::extractor::ip::lemma_whole_v6(nets[v6], b);
        },
    }
}

/// Some network of the list holds every address of the family that `v4` tells.
pub open spec fn one_net_holds_all(nets: Seq<IpNet>, v4: bool) -> bool {
    exists|i: int| 0 <= i < nets.len() && #[trigger] net_holds_all(nets[i], v4)
}

/// The network holds every address of the family that `v4` tells.
pub open spec fn net_holds_all(net: IpNet, v4: bool) -> bool {
    if v4 {
        forall|b: u32| #[trigger] net.holds(IpAddr::V4(b))
    } else {
        forall|b: u128| #[trigger] net.holds(IpAddr::V6(b))
    }
}

proof fn lemma_covering(nets: Seq<IpNet>)
    requires
        forall|i: int| 0 <= i < nets.len() ==> (#[trigger] nets[i]).wf(),
    ensures
        covers_all_v4(nets) <==> one_net_holds_all(nets, true),
        covers_all_v6(nets) <==> one_net_holds_all(nets, false),
{
    assert forall|i: int| 0 <= i < nets.len() implies {
        &&& (#[trigger] nets[i]).address() is V4 && nets[i].prefix() == 0 <==> net_holds_all(
            nets[i],
            true,
        )
        &&& nets[i].address() is V6 && nets[i].prefix() == 0 <==> net_holds_all(nets[i], false)
    } by {
        crate::extractor::ip::a_network_holds_one_block(nets[i], 0, 0);
        match nets[i].address() {
            IpAddr::V4(_) => {
                crate::extractor::ip::only_the_whole_v4_network_holds_every_address(nets[i]);
                assert(!nets[i].holds(IpAddr::V6(0)));
            },
            IpAddr::V6(_) => {
                crate::extractor::ip::only_the_whole_v6_network_holds_every_address(nets[i]);
                assert(!nets[i].holds(IpAddr::V4(0)));
            },
        }
    }
    if covers_all_v4(nets) {
        let i = choose|i: int|
            0 <= i < nets.len() && (#[trigger] nets[i]).address() is V4 && nets[i].prefix() == 0;
        assert(net_holds_all(nets[i], true));
    }
    if covers_all_v6(nets) {
        let i = choose|i: int|
            0 <= i < nets.len() && (#[trigger] nets[i]).address() is V6 && nets[i].prefix() == 0;
        assert(net_holds_all(nets[i], false));
    }
    if one_net_holds_all(nets, true) {
        let i = choose|i: int| 0 <= i < nets.len() && #[trigger] net_holds_all(nets[i], true);
        assert(nets[i].address() is V4 && nets[i].prefix() == 0);
    }
    if one_net_holds_all(nets, false) {
        let i = choose|i: int| 0 <= i < nets.len() && #[trigger] net_holds_all(nets[i], false);
        assert(nets[i].address() is V6 && nets[i].prefix() == 0);
    }
}

/// A builder is refused exactly for one of four faults, the first of them that it has: no
/// extractor, a chain without quotas, a whitelist with one network that holds every IPv4
/// address and one that holds every IPv6 address, and an extractor that needs the peer
/// without an acknowledgement.
pub proof fn a_builder_is_refused_for_its_first_fault<K>(b: GovernorConfigBuilder<K>)
    requires
        forall|i: int|
            0 <= i < b.settings.whitelist_ips@.len() ==> (
            #[trigger] b.settings.whitelist_ips@[i]).wf(),
    ensures
        ({
            let unset = b.extractor is Unset;
            let empty = b.empty_chain_names@.len() > 0;
            let all = one_net_holds_all(b.settings.whitelist_ips@, true) && one_net_holds_all(
                b.settings.whitelist_ips@,
                false,
            );
            let peerless = b.requires_connect_info && !b.connect_info_acknowledged;
            &&& config_error(b) is None <==> !unset && !empty && !all && !peerless
            &&& config_error(b) == Some(ConfigError::NoExtractor) <==> unset
            &&& config_error(b) == Some(ConfigError::EmptyChain) <==> !unset && empty
            &&& config_error(b) == Some(ConfigError::ContradictoryWhitelist) <==> !unset && !empty
                && all
            &&& config_error(b) == Some(ConfigError::MissingConnectInfoAcknowledgement) <==> !unset
                && !empty && !all && peerless
        }),
{
    lemma_covering(b.settings.whitelist_ips@);
}

/// The name of an entry of a chain is that of the chain, a colon, and what tells its window:
/// a second, a minute, an hour, or the digits of its place.
pub proof fn a_chain_label_tells_its_window(name: Seq<char>, q: Quota, idx: nat) -> (suffix: Seq<
    char,
>)
    ensures
        chain_label(name, q, idx) == name.push(':') + suffix,
        crate::headers::window(q) == 1 ==> suffix == seq!['1', 's'],
        crate::headers::window(q) == 60 ==> suffix == seq!['1', 'm'],
        crate::headers::window(q) == 3600 ==> suffix == seq!['1', 'h'],
        crate::headers::window(q) != 1 && crate::headers::window(q) != 60
            && crate::headers::window(q) != 3600 ==> crate::text::number_of(suffix, 10) == idx
            && suffix.len() > 0 && forall|i: int|
            0 <= i < suffix.len() ==> '0' <= #[trigger] suffix[i] <= '9',
{
    reveal_strlit(":");
    reveal_strlit("1s");
    reveal_strlit("1m");
    reveal_strlit("1h");
    let suffix = window_suffix(crate::headers::window(q), idx);
    crate::text::decimal_reads_back(idx);
    assert("1s"@ =~= seq!['1', 's']);
    assert("1m"@ =~= seq!['1', 'm']);
    assert("1h"@ =~= seq!['1', 'h']);
    assert(chain_label(name, q, idx) =~= name.push(':') + suffix);
    suffix
}

/// A chain puts an entry for each quota behind those that are there, in the order of the
/// quotas, each named after the chain.
pub proof fn a_chain_has_an_entry_per_quota<E: KeyExtractor>(
    before: Seq<StackFactory>,
    stack: Seq<StackFactory>,
    name: Seq<char>,
    extractor: E,
    quotas: Seq<Quota>,
    i: int,
)
    requires
        chained(before, stack, name, extractor, quotas),
    ensures
        stack.len() == before.len() + quotas.len(),
        0 <= i < before.len() ==> stack[i] == before[i],
        0 <= i < quotas.len() ==> {
            let entry = stack[before.len() + i];
            &&& entry.limit() == quotas[i]
            &&& entry.label().len() > name.len()
            &&& entry.label().take(name.len() as int) == name
            &&& entry.label()[name.len() as int] == ':'
        },
{
    if 0 <= i < before.len() {
        assert(stack.take(before.len() as int)[i] == stack[i]);
    }
    if 0 <= i < quotas.len() {
        let entry = stack[before.len() + i];
        assert(entry.is_for(chain_label(name, quotas[i], i as nat), quotas[i], extractor));
        let suffix = a_chain_label_tells_its_window(name, quotas[i], i as nat);
        assert(entry.label().take(name.len() as int) =~= name);
    }
}

/// Setting the extractor keeps everything else that was configured.
pub proof fn setting_the_extractor_keeps_the_rest<K, L>(
    b: GovernorConfigBuilder<K>,
    c: GovernorConfigBuilder<L>,
)
    requires
        same_but_extractor(b, c),
    ensures
        c.settings == b.settings,
        c.stack == b.stack,
        c.empty_chain_names == b.empty_chain_names,
        c.connect_info_acknowledged == b.connect_info_acknowledged,
{
}

/// Changing a setting keeps the extractor, what it requires, the stack and the chains.
pub proof fn changing_a_setting_keeps_the_rest<K>(
    b: GovernorConfigBuilder<K>,
    c: GovernorConfigBuilder<K>,
)
    requires
        same_but_settings(b, c),
    ensures
        c.extractor == b.extractor,
        c.requires_connect_info == b.requires_connect_info,
        c.connect_info_acknowledged == b.connect_info_acknowledged,
        c.stack == b.stack,
        c.empty_chain_names == b.empty_chain_names,
{
}

}
