//! The rate-limit response headers: `Retry-After`, `RateLimit`, `RateLimit-Policy` and the
//! legacy `X-RateLimit-*` family.
use http::HeaderMap;
use vstd::prelude::*;
use vstd::string::*;
use vstd::utf8::encode_utf8;

use crate::duration::NANOS_PER_SEC;
use crate::header_map::put_text;
use crate::quota::Quota;
use crate::text::{decimal, push_decimal};

verus! {

/// One advertised rate-limit policy.
#[derive(Clone, Copy, Debug)]
pub struct PolicyDescriptor<'a> {
    pub name: &'a str,
    pub quota: Quota,
}

/// Policies by name and quota.
pub open spec fn descriptors(policies: Seq<PolicyDescriptor<'_>>) -> Seq<(Seq<char>, Quota)> {
    policies.map_values(|p: PolicyDescriptor<'_>| (p.name@, p.quota))
}

/// The window of a quota: the whole seconds in which its burst is replenished, at least 1.
pub open spec fn window(q: Quota) -> u64 {
    let secs = (q.burst_limit() as nat * q.period().total() / 1_000_000_000) as u64;
    if secs < 1 {
        1
    } else {
        secs
    }
}

/// How one policy reads in `RateLimit-Policy`.
pub open spec fn policy_item(policy: (Seq<char>, Quota)) -> Seq<char> {
    "\""@ + policy.0 + "\";q="@ + decimal(policy.1.burst_limit() as nat) + ";w="@ + decimal(
        window(policy.1) as nat,
    )
}

/// How a list of policies reads in `RateLimit-Policy`.
pub open spec fn policy_list(policies: Seq<(Seq<char>, Quota)>) -> Seq<char>
    decreases policies.len(),
{
    if policies.len() == 0 {
        Seq::empty()
    } else if policies.len() == 1 {
        policy_item(policies[0])
    } else {
        policy_list(policies.drop_last()) + ", "@ + policy_item(policies.last())
    }
}

/// How the live counter of a policy reads in `RateLimit`.
pub open spec fn counter(name: Seq<char>, remaining: u32, seconds: u64) -> Seq<char> {
    "\""@ + name + "\";r="@ + decimal(remaining as nat) + ";t="@ + decimal(seconds as nat)
}

/// A header map's contents with the header `name` set to `text`.
pub open spec fn with_text(
    contents: Map<Seq<char>, Seq<Seq<u8>>>,
    name: Seq<char>,
    text: Seq<char>,
) -> Map<Seq<char>, Seq<Seq<u8>>> {
    contents.insert(name, seq![encode_utf8(text)])
}

/// Contents with the three legacy headers set.
pub open spec fn with_legacy(
    contents: Map<Seq<char>, Seq<Seq<u8>>>,
    limit: u32,
    remaining: u32,
    reset: u64,
) -> Map<Seq<char>, Seq<Seq<u8>>> {
    with_text(
        with_text(
            with_text(contents, "x-ratelimit-limit"@, decimal(limit as nat)),
            "x-ratelimit-remaining"@,
            decimal(remaining as nat),
        ),
        "x-ratelimit-reset"@,
        decimal(reset as nat),
    )
}

proof fn lemma_names()
    ensures
        crate::header_map::name_ok("retry-after"@),
        crate::header_map::name_ok("ratelimit"@),
        crate::header_map::name_ok("ratelimit-policy"@),
        crate::header_map::name_ok("x-ratelimit-limit"@),
        crate::header_map::name_ok("x-ratelimit-remaining"@),
        crate::header_map::name_ok("x-ratelimit-reset"@),
{
    reveal_strlit("retry-after");
    reveal_strlit("ratelimit");
    reveal_strlit("ratelimit-policy");
    reveal_strlit("x-ratelimit-limit");
    reveal_strlit("x-ratelimit-remaining");
    reveal_strlit("x-ratelimit-reset");
    reveal_strlit("!#$%&'*+-.^_`|~");
    assert("!#$%&'*+-.^_`|~"@[8] == '-');
}

/// Decimal digits can stand in a header value.
pub proof fn lemma_decimal_text(n: nat)
    ensures
        crate::header_map::text_ok(decimal(n)),
    decreases n,
{
    if n >= 10 {
        lemma_decimal_text(n / 10);
    }
}

/// A policy list can stand in a header value when the names can.
pub proof fn lemma_policy_text(policies: Seq<(Seq<char>, Quota)>)
    requires
        forall|i: int|
            0 <= i < policies.len() ==> crate::header_map::text_ok((#[trigger] policies[i]).0),
    ensures
        crate::header_map::text_ok(policy_list(policies)),
    decreases policies.len(),
{
    reveal_strlit("\"");
    reveal_strlit("\";q=");
    reveal_strlit(";w=");
    reveal_strlit(", ");
    if policies.len() > 0 {
        let last = policies.last();
        assert(crate::header_map::text_ok(last.0));
        lemma_decimal_text(last.1.burst_limit() as nat);
        lemma_decimal_text(window(last.1) as nat);
        assert(crate::header_map::text_ok(policy_item(last)));
        if policies.len() > 1 {
            lemma_policy_text(policies.drop_last());
        }
    }
}

/// `w=` value for the policy: `(burst * replenish_interval)` in whole seconds, min 1.
pub fn quota_window_seconds(q: &Quota) -> (w: u64)
    ensures
        w == window(*q),
        w >= 1,
{
    let burst: u32 = q.burst_size();
    let nanos: u128 = q.replenish_interval().as_nanos();
    proof {
        assert(burst as nat * nanos as nat <= 0xffff_ffff * (0xffff_ffff_ffff_ffff * 1_000_000_000
            + 0xffff_ffff)) by (nonlinear_arith)
            requires
                burst <= 0xffff_ffff,
                nanos <= 0xffff_ffff_ffff_ffff * 1_000_000_000 + 0xffff_ffff,
        ;
    }
    let total: u128 = burst as u128 * nanos;
    #[verifier::truncate]
    let secs: u64 = (total / 1_000_000_000) as u64;
    if secs < 1 {
        1
    } else {
        secs
    }
}

/// Set `Retry-After` to a number of seconds.
pub fn write_retry_after(headers: &mut HeaderMap, delta_seconds: u64)
    requires
        crate::header_map::has_room(*old(headers), 1),
    ensures
        crate::header_map::header_contents(*final(headers)) == with_text(
            crate::header_map::header_contents(*old(headers)),
            "retry-after"@,
            decimal(delta_seconds as nat),
        ),
        crate::header_map::header_contents(*final(headers)).dom().finite(),
        crate::header_map::header_contents(*final(headers)).dom().len()
            <= crate::header_map::header_contents(*old(headers)).dom().len() + 1,
{
    let mut value: String = String::new();
    push_decimal(&mut value, delta_seconds);
    proof {
        lemma_names();
        lemma_decimal_text(delta_seconds as nat);
        assert(value@ =~= decimal(delta_seconds as nat));
    }
    put_text(headers, "retry-after", value.as_str());
}

/// Set `RateLimit` to the live counter of one policy.
pub fn write_ietf_rate_limit(
    headers: &mut HeaderMap,
    policy_name: &str,
    remaining: u32,
    t_seconds: u64,
)
    requires
        crate::header_map::text_ok(policy_name@),
        crate::header_map::has_room(*old(headers), 1),
    ensures
        crate::header_map::header_contents(*final(headers)) == with_text(
            crate::header_map::header_contents(*old(headers)),
            "ratelimit"@,
            counter(policy_name@, remaining, t_seconds),
        ),
        crate::header_map::header_contents(*final(headers)).dom().finite(),
        crate::header_map::header_contents(*final(headers)).dom().len()
            <= crate::header_map::header_contents(*old(headers)).dom().len() + 1,
{
    let mut buf: String = "\"".to_owned();
    buf.append(policy_name);
    buf.append("\";r=");
    push_decimal(&mut buf, remaining as u64);
    buf.append(";t=");
    push_decimal(&mut buf, t_seconds);
    proof {
        lemma_names();
        reveal_strlit("\"");
        reveal_strlit("\";r=");
        reveal_strlit(";t=");
        lemma_decimal_text(remaining as nat);
        lemma_decimal_text(t_seconds as nat);
        assert(buf@ =~= counter(policy_name@, remaining, t_seconds));
    }
    put_text(headers, "ratelimit", buf.as_str());
}

/// Set `RateLimit-Policy` to the list of `policies`; nothing is written for an empty list.
pub fn write_ietf_policy_set(headers: &mut HeaderMap, policies: &[PolicyDescriptor<'_>])
    requires
        forall|i: int|
            0 <= i < policies@.len() ==> crate::header_map::text_ok((#[trigger] policies@[i]).name@),
        crate::header_map::has_room(*old(headers), 1),
    ensures
        crate::header_map::header_contents(*final(headers)) == (if policies@.len() == 0 {
            crate::header_map::header_contents(*old(headers))
        } else {
            with_text(
                crate::header_map::header_contents(*old(headers)),
                "ratelimit-policy"@,
                policy_list(descriptors(policies@)),
            )
        }),
{
    match render_policy_value(policies) {
        Some(value) => write_policy_value(headers, value.as_str()),
        None => {},
    }
}

/// Set `RateLimit-Policy` to a rendered list.
pub fn write_policy_value(headers: &mut HeaderMap, value: &str)
    requires
        crate::header_map::text_ok(value@),
        crate::header_map::has_room(*old(headers), 1),
    ensures
        crate::header_map::header_contents(*final(headers)) == with_text(
            crate::header_map::header_contents(*old(headers)),
            "ratelimit-policy"@,
            value@,
        ),
        crate::header_map::header_contents(*final(headers)).dom().finite(),
        crate::header_map::header_contents(*final(headers)).dom().len()
            <= crate::header_map::header_contents(*old(headers)).dom().len() + 1,
{
    proof {
        lemma_names();
    }
    put_text(headers, "ratelimit-policy", value);
}

/// The text of `RateLimit-Policy` for `policies`; none for an empty list.
pub fn render_policy_value(policies: &[PolicyDescriptor<'_>]) -> (value: Option<String>)
    requires
        forall|i: int|
            0 <= i < policies@.len() ==> crate::header_map::text_ok((#[trigger] policies@[i]).name@),
    ensures
        value is None <==> policies@.len() == 0,
        value matches Some(v) ==> v@ == policy_list(descriptors(policies@))
            && crate::header_map::text_ok(v@),
{
    if policies.len() == 0 {
        return None;
    }
    let value = render_policy_set(policies);
    proof {
        let all = descriptors(policies@);
        assert forall|i: int| 0 <= i < all.len() implies crate::header_map::text_ok(
            (#[trigger] all[i]).0,
        ) by {
            assert(all[i].0 == policies@[i].name@);
        }
        lemma_policy_text(all);
    }
    Some(value)
}

fn render_policy_set(policies: &[PolicyDescriptor<'_>]) -> (text: String)
    ensures
        text@ == policy_list(descriptors(policies@)),
{
    let ghost all = descriptors(policies@);
    let mut buf: String = String::new();
    let mut i: usize = 0;
    assert(all.take(0).len() == 0);
    while i < policies.len()
        invariant
            i <= policies@.len(),
            all == descriptors(policies@),
            buf@ == policy_list(all.take(i as int)),
        decreases policies@.len() - i,
    {
        let ghost before = buf@;
        if i > 0 {
            buf.append(", ");
        }
        let p: PolicyDescriptor<'_> = policies[i];
        let w: u64 = quota_window_seconds(&p.quota);
        buf.append("\"");
        buf.append(p.name);
        buf.append("\";q=");
        push_decimal(&mut buf, p.quota.burst_size() as u64);
        buf.append(";w=");
        push_decimal(&mut buf, w);
        proof {
            let done = all.take(i + 1);
            assert(done.drop_last() =~= all.take(i as int));
            assert(done.last() == (p.name@, p.quota));
            if i == 0 {
                assert(buf@ =~= policy_item(done[0]));
            } else {
                assert(buf@ =~= before + ", "@ + policy_item(done.last()));
            }
        }
        i = i + 1;
    }
    assert(all.take(all.len() as int) =~= all);
    buf
}

/// Set the three `X-RateLimit-*` headers.
pub fn write_legacy_rate_limit(
    headers: &mut HeaderMap,
    limit: u32,
    remaining: u32,
    reset_seconds: u64,
)
    requires
        crate::header_map::has_room(*old(headers), 3),
    ensures
        crate::header_map::header_contents(*final(headers)) == with_legacy(
            crate::header_map::header_contents(*old(headers)),
            limit,
            remaining,
            reset_seconds,
        ),
{
    proof {
        lemma_names();
        lemma_decimal_text(limit as nat);
        lemma_decimal_text(remaining as nat);
        lemma_decimal_text(reset_seconds as nat);
    }
    let mut first: String = String::new();
    push_decimal(&mut first, limit as u64);
    assert(first@ =~= decimal(limit as nat));
    put_text(headers, "x-ratelimit-limit", first.as_str());
    let mut second: String = String::new();
    push_decimal(&mut second, remaining as u64);
    assert(second@ =~= decimal(remaining as nat));
    put_text(headers, "x-ratelimit-remaining", second.as_str());
    let mut third: String = String::new();
    push_decimal(&mut third, reset_seconds);
    assert(third@ =~= decimal(reset_seconds as nat));
    put_text(headers, "x-ratelimit-reset", third.as_str());
}

/// Whatever its number, a quota per second has a window of one second.
pub proof fn per_second_window_is_one(q: Quota, n: u32)
    requires
        n > 0,
        q.burst_limit() == n,
        q.period().total() == NANOS_PER_SEC as nat / n as nat,
    ensures
        window(q) == 1,
{
    vstd::arithmetic::div_mod::lemma_fundamental_div_mod(1_000_000_000, n as int);
    let share = 1_000_000_000nat / n as nat;
    assert(n as nat * share <= 1_000_000_000);
    vstd::arithmetic::div_mod::lemma_div_is_ordered(
        (n as nat * share) as int,
        1_000_000_000,
        1_000_000_000,
    );
}

/// The list of one policy is its item, and the list of two lists of policies, one behind the
/// other, is the first list, a comma and a blank, and the second list: every policy has its
/// item, and the items stand in the order of the policies.
pub proof fn every_policy_is_listed_in_order(
    a: Seq<(Seq<char>, Quota)>,
    b: Seq<(Seq<char>, Quota)>,
    one: (Seq<char>, Quota),
)
    requires
        a.len() > 0,
        b.len() > 0,
    ensures
        policy_list(seq![one]) == policy_item(one),
        policy_list(a + b) == policy_list(a) + seq![',', ' '] + policy_list(b),
    decreases b.len(),
{
    reveal_strlit(", ");
    assert(", "@ =~= seq![',', ' ']);
    let all = a + b;
    assert(all.last() == b.last());
    if b.len() == 1 {
        assert(all.drop_last() =~= a);
        assert(b[0] == b.last());
    } else {
        every_policy_is_listed_in_order(a, b.drop_last(), one);
        assert(all.drop_last() =~= a + b.drop_last());
        assert(policy_list(all) =~= policy_list(a) + seq![',', ' '] + policy_list(b));
    }
}

/// An item opens with the policy's name in quotation marks, and its two numbers read back:
/// `q` as the burst and `w` as the window.
pub proof fn an_item_tells_name_burst_and_window(policy: (Seq<char>, Quota)) -> (numbers: (
    Seq<char>,
    Seq<char>,
))
    ensures
        policy_item(policy) == seq!['"'] + policy.0 + seq!['"', ';', 'q', '='] + numbers.0 + seq![
            ';',
            'w',
            '=',
        ] + numbers.1,
        crate::text::number_of(numbers.0, 10) == policy.1.burst_limit(),
        crate::text::number_of(numbers.1, 10) == window(policy.1),
        !numbers.0.contains(';'),
        !numbers.1.contains(';'),
        !numbers.1.contains(','),
{
    reveal_strlit("\"");
    reveal_strlit("\";q=");
    reveal_strlit(";w=");
    let q = decimal(policy.1.burst_limit() as nat);
    let w = decimal(window(policy.1) as nat);
    crate::text::decimal_reads_back(policy.1.burst_limit() as nat);
    crate::text::decimal_reads_back(window(policy.1) as nat);
    assert(policy_item(policy) =~= seq!['"'] + policy.0 + seq!['"', ';', 'q', '='] + q + seq![
        ';',
        'w',
        '=',
    ] + w);
    (q, w)
}

/// A counter opens with the policy's name in quotation marks, and its two numbers read back:
/// `r` as what remains and `t` as the seconds.
pub proof fn a_counter_tells_name_rest_and_seconds(
    name: Seq<char>,
    remaining: u32,
    seconds: u64,
) -> (numbers: (Seq<char>, Seq<char>))
    ensures
        counter(name, remaining, seconds) == seq!['"'] + name + seq!['"', ';', 'r', '=']
            + numbers.0 + seq![';', 't', '='] + numbers.1,
        crate::text::number_of(numbers.0, 10) == remaining,
        crate::text::number_of(numbers.1, 10) == seconds,
        !numbers.0.contains(';'),
        !numbers.1.contains(';'),
{
    reveal_strlit("\"");
    reveal_strlit("\";r=");
    reveal_strlit(";t=");
    let r = decimal(remaining as nat);
    let t = decimal(seconds as nat);
    crate::text::decimal_reads_back(remaining as nat);
    crate::text::decimal_reads_back(seconds as nat);
    assert(counter(name, remaining, seconds) =~= seq!['"'] + name + seq!['"', ';', 'r', '='] + r
        + seq![';', 't', '='] + t);
    (r, t)
}

/// The window is the whole seconds in which the burst is replenished, and 1 where that takes
/// less than a second, as far as the seconds fit 64 bits.
pub proof fn the_window_replenishes_the_burst(q: Quota)
    requires
        q.burst_limit() * q.period().total() < 0x1_0000_0000_0000_0000 * 1_000_000_000,
    ensures
        ({
            let nanos = q.burst_limit() * q.period().total();
            let w = window(q) as int;
            &&& w >= 1
            &&& nanos < (w + 1) * 1_000_000_000
            &&& nanos >= 1_000_000_000 ==> w * 1_000_000_000 <= nanos
            &&& nanos < 1_000_000_000 ==> w == 1
        }),
{
    let nanos = (q.burst_limit() as nat * q.period().total()) as int;
    assert(nanos >= 0) by (nonlinear_arith)
        requires
            nanos == q.burst_limit() as nat * q.period().total(),
    ;
    vstd::arithmetic::div_mod::lemma_fundamental_div_mod(nanos, 1_000_000_000);
    assert(0 <= nanos / 1_000_000_000 < 0x1_0000_0000_0000_0000);
}

/// Setting a header leaves every other header as it was and gives the one set the text as
/// its only value.
pub proof fn setting_a_header_touches_no_other(
    contents: Map<Seq<char>, Seq<Seq<u8>>>,
    name: Seq<char>,
    text: Seq<char>,
    other: Seq<char>,
)
    ensures
        ({
            let after = with_text(contents, name, text);
            &&& after.contains_key(name) && after[name] == seq![encode_utf8(text)]
            &&& other != name ==> after.contains_key(other) == contents.contains_key(other)
                && after[other] == contents[other]
        }),
{
}

/// The three legacy headers tell the limit, what remains and the reset, and no other header
/// changes.
pub proof fn legacy_headers_tell_three_numbers(
    contents: Map<Seq<char>, Seq<Seq<u8>>>,
    limit: u32,
    remaining: u32,
    reset: u64,
    other: Seq<char>,
)
    ensures
        ({
            let after = with_legacy(contents, limit, remaining, reset);
            &&& after["x-ratelimit-limit"@] == seq![encode_utf8(decimal(limit as nat))]
            &&& after["x-ratelimit-remaining"@] == seq![encode_utf8(decimal(remaining as nat))]
            &&& after["x-ratelimit-reset"@] == seq![encode_utf8(decimal(reset as nat))]
            &&& after.contains_key("x-ratelimit-limit"@)
            &&& after.contains_key("x-ratelimit-remaining"@)
            &&& after.contains_key("x-ratelimit-reset"@)
            &&& (other != "x-ratelimit-limit"@ && other != "x-ratelimit-remaining"@ && other
                != "x-ratelimit-reset"@) ==> after.contains_key(other) == contents.contains_key(
                other,
            ) && after[other] == contents[other]
        }),
{
    reveal_strlit("x-ratelimit-limit");
    reveal_strlit("x-ratelimit-remaining");
    reveal_strlit("x-ratelimit-reset");
    assert("x-ratelimit-limit"@.len() == 17);
    assert("x-ratelimit-remaining"@.len() == 21);
    assert("x-ratelimit-reset"@.len() == 17);
    assert("x-ratelimit-limit"@[12] != "x-ratelimit-reset"@[12]);
}

}
