//! The headers an admitted request carries out and the response a rejected one gets.
use http::HeaderMap;
use vstd::prelude::*;

use crate::duration::Duration;
use crate::error::RejectionReason;
use crate::header_map::{fill_headers, new_header_map, put_text};
use crate::headers::{
    render_policy_value, write_ietf_rate_limit, write_legacy_rate_limit, write_policy_value,
    write_retry_after, PolicyDescriptor,
};
use crate::layer::PolicyEntry;
use crate::limiters::Stacked;
use crate::quota::Quota;
use crate::response::{default_body, default_status, retry_after_seconds, BodyPreset};

verus! {

/// Seconds until what `remaining` lacks of the burst is replenished.
pub open spec fn replenish_seconds(quota: Quota, remaining: u32) -> u64 {
    let missing = if remaining < quota.burst_limit() {
        (quota.burst_limit() - remaining) as nat
    } else {
        0
    };
    (missing * quota.period().total() / 1_000_000_000) as u64
}

/// What `X-RateLimit-Reset` shows for a span of seconds: the span, or the moment when it is
/// over in seconds of the Unix epoch, where `epoch` is the present moment.
pub open spec fn reset_value(epoch: Option<u64>, seconds: u64) -> u64 {
    match epoch {
        Some(now) => ((now + seconds) % 0x1_0000_0000_0000_0000) as u64,
        None => seconds,
    }
}

/// The headers of an admitted request that is counted under `policy`.
pub open spec fn admit_contents(
    epoch: Option<u64>,
    policy: (Seq<char>, Quota),
    remaining: u32,
    policies: Seq<(Seq<char>, Quota)>,
) -> Map<Seq<char>, Seq<Seq<u8>>> {
    let t = replenish_seconds(policy.1, remaining);
    crate::headers::with_legacy(
        crate::headers::with_text(
            crate::headers::with_text(
                crate::header_map::no_headers(),
                "ratelimit-policy"@,
                crate::headers::policy_list(policies),
            ),
            "ratelimit"@,
            crate::headers::counter(policy.0, remaining, t),
        ),
        policy.1.burst_limit(),
        remaining,
        reset_value(epoch, t),
    )
}

/// The headers of a request that `policy` rejected.
pub open spec fn reject_contents(
    epoch: Option<u64>,
    policy: (Seq<char>, Quota),
    wait: Duration,
    policies: Seq<(Seq<char>, Quota)>,
) -> Map<Seq<char>, Seq<Seq<u8>>> {
    crate::headers::with_legacy(
        crate::headers::with_text(
            crate::headers::with_text(
                crate::headers::with_text(
                    crate::header_map::no_headers(),
                    "retry-after"@,
                    crate::text::decimal(crate::response::retry_seconds(wait) as nat),
                ),
                "ratelimit-policy"@,
                crate::headers::policy_list(policies),
            ),
            "ratelimit"@,
            crate::headers::counter(policy.0, 0, wait.secs()),
        ),
        policy.1.burst_limit(),
        0,
        reset_value(epoch, wait.secs()),
    )
}

/// `SystemTime::now` since the Unix epoch, in whole seconds; any number may come back.
#[verifier::external_body]
pub fn unix_seconds() -> (secs: u64) {
    std::time::SystemTime::now().duration_since(std::time::UNIX_EPOCH).unwrap_or_default().as_secs()
}

/// `epoch` is a reading of the clock where the reset is shown as an epoch, and else nothing.
pub open spec fn clock_read(legacy_reset_epoch: bool, epoch: Option<u64>) -> bool {
    match epoch {
        Some(now) => legacy_reset_epoch && call_ensures(unix_seconds, (), now),
        None => !legacy_reset_epoch,
    }
}

/// The present moment, where the reset is shown as an epoch.
pub fn epoch_if(legacy_reset_epoch: bool) -> (epoch: Option<u64>)
    ensures
        clock_read(legacy_reset_epoch, epoch),
{
    if legacy_reset_epoch {
        Some(unix_seconds())
    } else {
        None
    }
}

/// What `X-RateLimit-Reset` shows for a span of seconds.
fn reset_seconds(epoch: Option<u64>, seconds: u64) -> (reset: u64)
    ensures
        reset == reset_value(epoch, seconds),
{
    match epoch {
        Some(now) => now.wrapping_add(seconds),
        None => seconds,
    }
}

/// Whole seconds until what `remaining` lacks of the burst is replenished.
fn seconds_to_full(quota: &Quota, remaining: u32) -> (t: u64)
    ensures
        t == replenish_seconds(*quota, remaining),
{
    let burst: u32 = quota.burst_size();
    let nanos: u128 = quota.replenish_interval().as_nanos();
    let missing: u32 = if remaining < burst {
        burst - remaining
    } else {
        0
    };
    proof {
        assert(missing as nat * nanos as nat <= 0xffff_ffff * (0xffff_ffff_ffff_ffff * 1_000_000_000
            + 0xffff_ffff)) by (nonlinear_arith)
            requires
                missing <= 0xffff_ffff,
                nanos <= 0xffff_ffff_ffff_ffff * 1_000_000_000 + 0xffff_ffff,
        ;
    }
    let total: u128 = missing as u128 * nanos;
    #[verifier::truncate]
    let t: u64 = (total / 1_000_000_000) as u64;
    t
}

/// The policies that a policy header lists: those of `entry` where there is one, otherwise
/// one policy before those of the stack.
pub open spec fn listed(
    entry: Option<&PolicyEntry>,
    stack: Seq<Stacked>,
    tier_override: Option<Quota>,
    fallback: (Seq<char>, Quota),
) -> Seq<(Seq<char>, Quota)> {
    match entry {
        Some(e) => crate::layer::owned(e.descriptors@),
        None => seq![
            match tier_override {
                Some(q) => ("default"@, q),
                None => fallback,
            },
        ] + crate::layer::stack_policies(stack),
    }
}

/// Insert the `RateLimit-Policy` header: the prepared one where there is one, otherwise one
/// that is rendered here, because a tier override has changed the primary policy.
pub fn insert_policy_header(
    headers: &mut HeaderMap,
    policy_entry: Option<&PolicyEntry>,
    stack: &Vec<Stacked>,
    tier_override: Option<Quota>,
    fallback_quota: Quota,
    fallback_name: &str,
)
    requires
        crate::header_map::has_room(*old(headers), 1),
        policy_entry matches Some(e) ==> e.lists(crate::layer::owned(e.descriptors@)),
        crate::layer::stack_ok(stack@),
        crate::header_map::text_ok(fallback_name@),
    ensures
        crate::header_map::header_contents(*final(headers)) == crate::headers::with_text(
            crate::header_map::header_contents(*old(headers)),
            "ratelimit-policy"@,
            crate::headers::policy_list(
                listed(policy_entry, stack@, tier_override, (fallback_name@, fallback_quota)),
            ),
        ),
        crate::header_map::header_contents(*final(headers)).dom().finite(),
        crate::header_map::header_contents(*final(headers)).dom().len()
            <= crate::header_map::header_contents(*old(headers)).dom().len() + 1,
{
    if let Some(entry) = policy_entry {
        write_policy_value(headers, entry.header.as_str());
        return;
    }
    proof {
        reveal_strlit("default");
    }
    let ghost policies = listed(
        policy_entry,
        stack@,
        tier_override,
        (fallback_name@, fallback_quota),
    );
    let mut view: Vec<PolicyDescriptor<'_>> = Vec::new();
    match tier_override {
        Some(quota) => view.push(PolicyDescriptor { name: "default", quota }),
        None => view.push(PolicyDescriptor { name: fallback_name, quota: fallback_quota }),
    }
    let mut i: usize = 0;
    assert(crate::headers::descriptors(view@) =~= policies.take(1));
    while i < stack.len()
        invariant
            i <= stack@.len(),
            crate::layer::stack_ok(stack@),
            policies.len() == stack@.len() + 1,
            policies.skip(1) == crate::layer::stack_policies(stack@),
            view@.len() == i + 1,
            crate::headers::descriptors(view@) == policies.take(i + 1),
            forall|j: int|
                0 <= j < view@.len() ==> crate::header_map::text_ok((#[trigger] view@[j]).name@),
        decreases stack@.len() - i,
    {
        let ghost before = view@;
        proof {
            assert(crate::layer::stacked_ok(stack@[i as int]));
            assert(policies.skip(1)[i as int] == policies[i + 1]);
        }
        view.push(PolicyDescriptor { name: stack[i].name(), quota: stack[i].quota() });
        proof {
            assert(crate::headers::descriptors(view@) =~= crate::headers::descriptors(before).push(
                (stack@[i as int].label(), stack@[i as int].limit()),
            ));
            assert(policies.take(i + 2) =~= policies.take(i + 1).push(policies[i + 1]));
        }
        i = i + 1;
    }
    assert(policies.take(policies.len() as int) =~= policies);
    if let Some(value) = render_policy_value(view.as_slice()) {
        write_policy_value(headers, value.as_str());
    }
}

/// The headers of an admitted request.
pub fn build_admit_headers(
    epoch: Option<u64>,
    quota: Quota,
    policy_name: &str,
    remaining: u32,
    policy_entry: Option<&PolicyEntry>,
    stack: &Vec<Stacked>,
    tier_override: Option<Quota>,
) -> (headers: HeaderMap)
    requires
        policy_entry matches Some(e) ==> e.lists(crate::layer::owned(e.descriptors@)),
        crate::layer::stack_ok(stack@),
        crate::header_map::text_ok(policy_name@),
    ensures
        crate::header_map::header_contents(headers) == admit_contents(
            epoch,
            (policy_name@, quota),
            remaining,
            listed(policy_entry, stack@, tier_override, (policy_name@, quota)),
        ),
{
    let mut headers: HeaderMap = new_header_map();
    assert(crate::header_map::header_contents(headers).dom() =~= Set::<Seq<char>>::empty());
    let t: u64 = seconds_to_full(&quota, remaining);
    let reset: u64 = reset_seconds(epoch, t);
    insert_policy_header(&mut headers, policy_entry, stack, tier_override, quota, policy_name);
    write_ietf_rate_limit(&mut headers, policy_name, remaining, t);
    write_legacy_rate_limit(&mut headers, quota.burst_size(), remaining, reset);
    headers
}

/// The headers of a rejected request.
pub fn build_reject_headers(
    epoch: Option<u64>,
    quota: Quota,
    wait: Duration,
    policy_name: &str,
    policy_entry: Option<&PolicyEntry>,
    stack: &Vec<Stacked>,
    tier_override: Option<Quota>,
) -> (headers: HeaderMap)
    requires
        policy_entry matches Some(e) ==> e.lists(crate::layer::owned(e.descriptors@)),
        crate::layer::stack_ok(stack@),
        crate::header_map::text_ok(policy_name@),
    ensures
        crate::header_map::header_contents(headers) == reject_contents(
            epoch,
            (policy_name@, quota),
            wait,
            listed(policy_entry, stack@, tier_override, (policy_name@, quota)),
        ),
{
    let mut headers: HeaderMap = new_header_map();
    assert(crate::header_map::header_contents(headers).dom() =~= Set::<Seq<char>>::empty());
    let delta: u64 = wait.as_secs();
    let reset: u64 = reset_seconds(epoch, delta);
    write_retry_after(&mut headers, retry_after_seconds(&wait));
    insert_policy_header(&mut headers, policy_entry, stack, tier_override, quota, policy_name);
    write_ietf_rate_limit(&mut headers, policy_name, 0, delta);
    write_legacy_rate_limit(&mut headers, quota.burst_size(), 0, reset);
    headers
}

/// A response that is still to be sent.
pub struct BaseResponse {
    pub status: u16,
    pub headers: HeaderMap,
    pub body: Vec<u8>,
}

/// The response to a rejection where no handler makes one: the default status and body, and
/// the content type of the preset.
pub fn build_base_response<K>(preset: BodyPreset, reason: &RejectionReason<K>) -> (r: BaseResponse)
    ensures
        r.status == crate::response::status_of(*reason),
        r.body@ == crate::response::body_of(preset, *reason),
        crate::header_map::header_contents(r.headers) == crate::headers::with_text(
            crate::header_map::no_headers(),
            "content-type"@,
            crate::response::content_type_of(preset),
        ),
{
    let status: u16 = default_status(reason);
    let (content_type, body) = default_body(preset, reason);
    let mut headers: HeaderMap = new_header_map();
    assert(crate::header_map::header_contents(headers).dom() =~= Set::<Seq<char>>::empty());
    proof {
        reveal_strlit("content-type");
        reveal_strlit("!#$%&'*+-.^_`|~");
        assert("!#$%&'*+-.^_`|~"@[8] == '-');
        reveal_strlit("text/plain; charset=utf-8");
        reveal_strlit("application/json");
        reveal_strlit("application/problem+json");
    }
    put_text(&mut headers, "content-type", content_type);
    BaseResponse { status, headers, body }
}

/// The response to a rejection where no handler makes one, with the rate-limit headers.
pub fn build_reject_response<K>(
    preset: BodyPreset,
    reason: &RejectionReason<K>,
    rate_limit: &HeaderMap,
) -> (r: BaseResponse)
    requires
        crate::header_map::header_contents(*rate_limit).dom().len() < crate::header_map::HEADER_ROOM,
    ensures
        r.status == crate::response::status_of(*reason),
        r.body@ == crate::response::body_of(preset, *reason),
        crate::header_map::header_contents(r.headers) == crate::header_map::filled(
            crate::headers::with_text(
                crate::header_map::no_headers(),
                "content-type"@,
                crate::response::content_type_of(preset),
            ),
            crate::header_map::header_contents(*rate_limit),
        ),
{
    let mut r: BaseResponse = build_base_response(preset, reason);
    proof {
        assert(crate::header_map::header_contents(r.headers).dom() =~= Set::empty().insert(
            "content-type"@,
        ));
    }
    fill_headers(&mut r.headers, rate_limit);
    r
}

proof fn lemma_names_differ()
    ensures
        "retry-after"@ != "ratelimit-policy"@,
        "retry-after"@ != "ratelimit"@,
        "retry-after"@ != "x-ratelimit-limit"@,
        "retry-after"@ != "x-ratelimit-remaining"@,
        "retry-after"@ != "x-ratelimit-reset"@,
        "ratelimit-policy"@ != "ratelimit"@,
        "ratelimit-policy"@ != "x-ratelimit-limit"@,
        "ratelimit-policy"@ != "x-ratelimit-remaining"@,
        "ratelimit-policy"@ != "x-ratelimit-reset"@,
        "ratelimit"@ != "x-ratelimit-limit"@,
        "ratelimit"@ != "x-ratelimit-remaining"@,
        "ratelimit"@ != "x-ratelimit-reset"@,
        "x-ratelimit-limit"@ != "x-ratelimit-remaining"@,
        "x-ratelimit-limit"@ != "x-ratelimit-reset"@,
        "x-ratelimit-remaining"@ != "x-ratelimit-reset"@,
{
    reveal_strlit("retry-after");
    reveal_strlit("ratelimit");
    reveal_strlit("ratelimit-policy");
    reveal_strlit("x-ratelimit-limit");
    reveal_strlit("x-ratelimit-remaining");
    reveal_strlit("x-ratelimit-reset");
    assert("retry-after"@.len() == 11);
    assert("ratelimit"@.len() == 9);
    assert("ratelimit-policy"@.len() == 16);
    assert("x-ratelimit-limit"@.len() == 17);
    assert("x-ratelimit-remaining"@.len() == 21);
    assert("x-ratelimit-reset"@.len() == 17);
    assert("x-ratelimit-limit"@[12] != "x-ratelimit-reset"@[12]);
}

/// Whether a request is admitted or rejected, `RateLimit-Policy` lists every policy that
/// applies.
pub proof fn every_answer_lists_all_policies(
    epoch: Option<u64>,
    policy: (Seq<char>, Quota),
    remaining: u32,
    wait: Duration,
    policies: Seq<(Seq<char>, Quota)>,
)
    ensures
        ({
            let text = seq![vstd::utf8::encode_utf8(crate::headers::policy_list(policies))];
            &&& admit_contents(epoch, policy, remaining, policies)["ratelimit-policy"@] == text
            &&& reject_contents(epoch, policy, wait, policies)["ratelimit-policy"@] == text
        }),
{
    lemma_names_differ();
}

/// A rejection that lasts a second or more names one number three times: in `Retry-After`,
/// in `RateLimit` and, unless an epoch is asked for, in `X-RateLimit-Reset`. Nothing remains.
pub proof fn rejection_numbers_agree(
    policy: (Seq<char>, Quota),
    wait: Duration,
    policies: Seq<(Seq<char>, Quota)>,
)
    requires
        wait.secs() >= 1,
    ensures
        ({
            let secs = wait.secs();
            let number = seq![vstd::utf8::encode_utf8(crate::text::decimal(secs as nat))];
            let headers = reject_contents(None, policy, wait, policies);
            &&& headers["retry-after"@] == number
            &&& headers["x-ratelimit-reset"@] == number
            &&& headers["ratelimit"@] == seq![
                vstd::utf8::encode_utf8(crate::headers::counter(policy.0, 0, secs)),
            ]
            &&& headers["x-ratelimit-remaining"@] == seq![
                vstd::utf8::encode_utf8(crate::text::decimal(0)),
            ]
            &&& headers["x-ratelimit-limit"@] == seq![
                vstd::utf8::encode_utf8(crate::text::decimal(policy.1.burst_limit() as nat)),
            ]
        }),
{
    lemma_names_differ();
}

/// An admitted request is told in both families of headers what remains, and never to retry
/// later.
pub proof fn admission_numbers_agree(
    epoch: Option<u64>,
    policy: (Seq<char>, Quota),
    remaining: u32,
    policies: Seq<(Seq<char>, Quota)>,
)
    ensures
        ({
            let headers = admit_contents(epoch, policy, remaining, policies);
            &&& headers["x-ratelimit-remaining"@] == seq![
                vstd::utf8::encode_utf8(crate::text::decimal(remaining as nat)),
            ]
            &&& headers["ratelimit"@] == seq![
                vstd::utf8::encode_utf8(
                    crate::headers::counter(
                        policy.0,
                        remaining,
                        replenish_seconds(policy.1, remaining),
                    ),
                ),
            ]
            &&& headers["x-ratelimit-limit"@] == seq![
                vstd::utf8::encode_utf8(crate::text::decimal(policy.1.burst_limit() as nat)),
            ]
            &&& !headers.contains_key("retry-after"@)
        }),
{
    lemma_names_differ();
}

/// The seconds that `t` shows are the whole seconds in which what is missing from the burst
/// is replenished, as far as they fit 64 bits: none where nothing is missing, and the window
/// where nothing remains and the window is above one second.
pub proof fn the_wait_replenishes_what_is_missing(quota: Quota, remaining: u32)
    requires
        remaining <= quota.burst_limit(),
        (quota.burst_limit() - remaining) * quota.period().total() < 0x1_0000_0000_0000_0000
            * 1_000_000_000,
    ensures
        ({
            let t = replenish_seconds(quota, remaining) as int;
            let nanos = (quota.burst_limit() - remaining) * quota.period().total();
            &&& t * 1_000_000_000 <= nanos
            &&& nanos < (t + 1) * 1_000_000_000
            &&& remaining == quota.burst_limit() ==> t == 0
            &&& remaining == 0 && crate::headers::window(quota) > 1 ==> t
                == crate::headers::window(quota)
        }),
{
    let missing = (quota.burst_limit() - remaining) as nat;
    let nanos = (missing * quota.period().total()) as int;
    assert(nanos >= 0) by (nonlinear_arith)
        requires
            nanos == missing * quota.period().total(),
    ;
    assert(missing == 0 ==> nanos == 0) by (nonlinear_arith)
        requires
            nanos == missing * quota.period().total(),
    ;
    vstd::arithmetic::div_mod::lemma_fundamental_div_mod(nanos, 1_000_000_000);
    assert(0 <= nanos / 1_000_000_000 < 0x1_0000_0000_0000_0000);
}

/// The less remains, the longer it takes until the burst is full again.
pub proof fn less_capacity_takes_longer(quota: Quota, less: u32, more: u32)
    requires
        less <= more <= quota.burst_limit(),
        (quota.burst_limit() - less) * quota.period().total() < 0x1_0000_0000_0000_0000
            * 1_000_000_000,
    ensures
        replenish_seconds(quota, more) <= replenish_seconds(quota, less),
{
    let p = quota.period().total();
    let b = quota.burst_limit();
    assert((b - more) * p <= (b - less) * p) by (nonlinear_arith)
        requires
            less <= more,
    ;
    the_wait_replenishes_what_is_missing(quota, less);
    the_wait_replenishes_what_is_missing(quota, more);
}

/// As an epoch the reset lies as many seconds behind the present moment as it shows without
/// one; a moment beyond 64 bits is short of just that much.
pub proof fn the_reset_lies_ahead_by_the_wait(now: u64, seconds: u64)
    ensures
        now + seconds <= u64::MAX ==> reset_value(Some(now), seconds) - now == reset_value(
            None,
            seconds,
        ),
        now + seconds > u64::MAX ==> reset_value(Some(now), seconds) + 0x1_0000_0000_0000_0000 - now
            == reset_value(None, seconds),
        reset_value(None, seconds) == seconds,
{
}

/// The reset of an admitted request is the moment when what is missing from the burst is
/// replenished.
pub proof fn an_admission_tells_when_it_is_full(
    epoch: Option<u64>,
    policy: (Seq<char>, Quota),
    remaining: u32,
    policies: Seq<(Seq<char>, Quota)>,
)
    ensures
        admit_contents(epoch, policy, remaining, policies)["x-ratelimit-reset"@] == seq![
            vstd::utf8::encode_utf8(
                crate::text::decimal(
                    reset_value(epoch, replenish_seconds(policy.1, remaining)) as nat,
                ),
            ),
        ],
{
    lemma_names_differ();
}

/// A rejection carries six headers and no others: how long to wait, the policies, the counter
/// of the policy that rejected, with nothing left, and the three legacy numbers. The seconds
/// of the wait are the whole ones, and `Retry-After` is at least 1.
pub proof fn a_rejection_tells_how_long_to_wait(
    epoch: Option<u64>,
    policy: (Seq<char>, Quota),
    wait: Duration,
    policies: Seq<(Seq<char>, Quota)>,
)
    ensures
        ({
            let headers = reject_contents(epoch, policy, wait, policies);
            let secs = wait.secs();
            let retry = if secs >= 1 {
                secs as nat
            } else {
                1
            };
            &&& headers["retry-after"@] == seq![
                vstd::utf8::encode_utf8(crate::text::decimal(retry)),
            ]
            &&& headers["ratelimit"@] == seq![
                vstd::utf8::encode_utf8(crate::headers::counter(policy.0, 0, secs)),
            ]
            &&& headers["x-ratelimit-limit"@] == seq![
                vstd::utf8::encode_utf8(crate::text::decimal(policy.1.burst_limit() as nat)),
            ]
            &&& headers["x-ratelimit-remaining"@] == seq![
                vstd::utf8::encode_utf8(crate::text::decimal(0)),
            ]
            &&& headers["x-ratelimit-reset"@] == seq![
                vstd::utf8::encode_utf8(crate::text::decimal(reset_value(epoch, secs) as nat)),
            ]
            &&& headers.dom() == set![
                "retry-after"@,
                "ratelimit-policy"@,
                "ratelimit"@,
                "x-ratelimit-limit"@,
                "x-ratelimit-remaining"@,
                "x-ratelimit-reset"@,
            ]
        }),
{
    lemma_names_differ();
    let headers = reject_contents(epoch, policy, wait, policies);
    assert(headers.dom() =~= set![
        "retry-after"@,
        "ratelimit-policy"@,
        "ratelimit"@,
        "x-ratelimit-limit"@,
        "x-ratelimit-remaining"@,
        "x-ratelimit-reset"@,
    ]);
}

/// An admission carries five headers and no others.
pub proof fn an_admission_has_five_headers(
    epoch: Option<u64>,
    policy: (Seq<char>, Quota),
    remaining: u32,
    policies: Seq<(Seq<char>, Quota)>,
)
    ensures
        admit_contents(epoch, policy, remaining, policies).dom() == set![
            "ratelimit-policy"@,
            "ratelimit"@,
            "x-ratelimit-limit"@,
            "x-ratelimit-remaining"@,
            "x-ratelimit-reset"@,
        ],
{
    lemma_names_differ();
    assert(admit_contents(epoch, policy, remaining, policies).dom() =~= set![
        "ratelimit-policy"@,
        "ratelimit"@,
        "x-ratelimit-limit"@,
        "x-ratelimit-remaining"@,
        "x-ratelimit-reset"@,
    ]);
}

/// Where nothing is missing from the burst, nothing is to be waited for.
pub proof fn a_full_burst_is_full_at_once(quota: Quota, remaining: u32)
    requires
        remaining >= quota.burst_limit(),
    ensures
        replenish_seconds(quota, remaining) == 0,
{
    assert(0 * quota.period().total() == 0) by (nonlinear_arith);
}

}
