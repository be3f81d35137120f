//! Default response bodies and the `BodyPreset` enum.
use serde_json::Value;
use vstd::prelude::*;
use vstd::string::*;
use vstd::utf8::encode_utf8;

use crate::duration::Duration;
use crate::error::{ExtractionError, RejectionReason};
use crate::text::{decimal, push_decimal};

verus! {

/// Default body format selected on the builder.
#[derive(Clone, Copy, Debug, PartialEq, Eq, Structural)]
pub enum BodyPreset {
    /// `text/plain; charset=utf-8`, the default.
    Text,
    /// `application/json`: `{"error":"...","retry_after_seconds":N}`.
    Json,
    /// `application/problem+json` per RFC 9457.
    ProblemJson,
}

impl Default for BodyPreset {
    fn default() -> (p: Self)
        ensures
            p == BodyPreset::Text,
    {
        BodyPreset::Text
    }
}

/// Seconds that a rejected client is told to wait: the whole seconds, at least 1.
pub open spec fn retry_seconds(wait: Duration) -> u64 {
    if wait.secs() < 1 {
        1
    } else {
        wait.secs()
    }
}

/// Seconds that a rejected client is told to wait.
pub fn retry_after_seconds(wait: &Duration) -> (secs: u64)
    ensures
        secs == retry_seconds(*wait),
        secs >= 1,
{
    let secs: u64 = wait.as_secs();
    if secs < 1 {
        1
    } else {
        secs
    }
}

/// The failure is the client's: a header is missing or malformed, or a proxy is unknown.
pub open spec fn client_fault(err: ExtractionError) -> bool {
    err is MissingHeader || err is MalformedHeader || err is UntrustedProxy
}

/// Status code of the default response.
pub open spec fn status_of<K>(reason: RejectionReason<K>) -> u16 {
    match reason {
        RejectionReason::QuotaExceeded { .. } => 429,
        RejectionReason::KeyExtractionFailed(err) => if client_fault(err) {
            400
        } else {
            500
        },
    }
}

/// Status code of the default response.
pub fn default_status<K>(reason: &RejectionReason<K>) -> (status: u16)
    ensures
        status == status_of(*reason),
{
    match reason {
        RejectionReason::QuotaExceeded { .. } => 429,
        RejectionReason::KeyExtractionFailed(err) => match err {
            ExtractionError::MissingHeader(_) => 400,
            ExtractionError::MalformedHeader(_) => 400,
            ExtractionError::UntrustedProxy => 400,
            ExtractionError::MissingConnectInfo => 500,
            ExtractionError::Other(_) => 500,
        },
    }
}

/// `http::StatusCode::canonical_reason` of the two statuses that an extraction failure can
/// have.
#[verifier::external_body]
fn canonical_reason(status: u16) -> (phrase: &'static str)
    requires
        status == 400 || status == 500,
    ensures
        phrase@ == (if status == 400 {
            "Bad Request"@
        } else {
            "Internal Server Error"@
        }),
{
    http::StatusCode::from_u16(status).unwrap().canonical_reason().unwrap()
}

/// The bytes that `serde_json` writes for an object with the given text and number fields.
pub uninterp spec fn json_object_bytes(
    texts: Seq<(Seq<char>, Seq<char>)>,
    numbers: Seq<(Seq<char>, u64)>,
) -> Seq<u8>;

/// Text fields by view.
pub open spec fn text_fields(texts: Seq<(&str, &str)>) -> Seq<(Seq<char>, Seq<char>)> {
    texts.map_values(|f: (&str, &str)| (f.0@, f.1@))
}

/// Number fields by view.
pub open spec fn number_fields(numbers: Seq<(&str, u64)>) -> Seq<(Seq<char>, u64)> {
    numbers.map_values(|f: (&str, u64)| (f.0@, f.1))
}

/// `serde_json::to_vec` of an object: the bytes are those that `serde_json` writes for its
/// fields. Text and numbers always serialise.
#[verifier::external_body]
fn json_object(texts: &Vec<(&str, &str)>, numbers: &Vec<(&str, u64)>) -> (body: Vec<u8>)
    ensures
        body@ == json_object_bytes(text_fields(texts@), number_fields(numbers@)),
{
    let words = texts.iter().map(|f| (f.0.to_owned(), Value::from(f.1)));
    let counts = numbers.iter().map(|f| (f.0.to_owned(), Value::from(f.1)));
    let object: serde_json::Map<String, Value> = words.chain(counts).collect();
    serde_json::to_vec(&object).unwrap()
}

/// The plain text of a rejection.
pub open spec fn text_of<K>(reason: RejectionReason<K>) -> Seq<char> {
    match reason {
        RejectionReason::QuotaExceeded { wait, .. } => "Too Many Requests, retry in "@ + decimal(
            retry_seconds(wait) as nat,
        ) + "s"@,
        RejectionReason::KeyExtractionFailed(err) => if client_fault(err) {
            "Bad Request: "@ + err.message()
        } else {
            "Internal Server Error: "@ + err.message()
        },
    }
}

/// The JSON object of a rejection.
pub open spec fn json_of<K>(reason: RejectionReason<K>) -> Seq<u8> {
    match reason {
        RejectionReason::QuotaExceeded { wait, .. } => json_object_bytes(
            seq![("error"@, "too_many_requests"@)],
            seq![("retry_after_seconds"@, retry_seconds(wait))],
        ),
        RejectionReason::KeyExtractionFailed(err) => json_object_bytes(
            seq![
                (
                    "error"@,
                    if client_fault(err) {
                        "bad_request"@
                    } else {
                        "internal_server_error"@
                    },
                ),
                ("detail"@, err.message()),
            ],
            Seq::empty(),
        ),
    }
}

/// The problem details object of a rejection.
pub open spec fn problem_of<K>(reason: RejectionReason<K>) -> Seq<u8> {
    match reason {
        RejectionReason::QuotaExceeded { wait, .. } => json_object_bytes(
            seq![
                ("type"@, "about:blank"@),
                ("title"@, "Too Many Requests"@),
                (
                    "detail"@,
                    "Rate limit exceeded; retry in "@ + decimal(retry_seconds(wait) as nat)
                        + " seconds"@,
                ),
            ],
            seq![("status"@, 429u64)],
        ),
        RejectionReason::KeyExtractionFailed(err) => json_object_bytes(
            seq![
                ("type"@, "about:blank"@),
                (
                    "title"@,
                    if client_fault(err) {
                        "Bad Request"@
                    } else {
                        "Internal Server Error"@
                    },
                ),
                ("detail"@, err.message()),
            ],
            seq![("status"@, status_of(reason) as u64)],
        ),
    }
}

/// Content type of a preset.
pub open spec fn content_type_of(preset: BodyPreset) -> Seq<char> {
    match preset {
        BodyPreset::Text => "text/plain; charset=utf-8"@,
        BodyPreset::Json => "application/json"@,
        BodyPreset::ProblemJson => "application/problem+json"@,
    }
}

/// Body of a rejection in a preset.
pub open spec fn body_of<K>(preset: BodyPreset, reason: RejectionReason<K>) -> Seq<u8> {
    match preset {
        BodyPreset::Text => encode_utf8(text_of(reason)),
        BodyPreset::Json => json_of(reason),
        BodyPreset::ProblemJson => problem_of(reason),
    }
}

/// Content type and body of the default response.
pub fn default_body<K>(preset: BodyPreset, reason: &RejectionReason<K>) -> (r: (
    &'static str,
    Vec<u8>,
))
    ensures
        r.0@ == content_type_of(preset),
        r.1@ == body_of(preset, *reason),
{
    match preset {
        BodyPreset::Text => ("text/plain; charset=utf-8", text_body(reason)),
        BodyPreset::Json => ("application/json", json_body(reason)),
        BodyPreset::ProblemJson => ("application/problem+json", problem_json_body(reason)),
    }
}

/// `n` between two pieces of text.
fn numbered(before: &str, n: u64, after: &str) -> (text: String)
    ensures
        text@ == before@ + decimal(n as nat) + after@,
{
    let mut text: String = before.to_owned();
    push_decimal(&mut text, n);
    text.append(after);
    text
}

/// The plain text of a rejection, in UTF-8.
pub fn text_body<K>(reason: &RejectionReason<K>) -> (body: Vec<u8>)
    ensures
        body@ == encode_utf8(text_of(*reason)),
{
    let text: String = match reason {
        RejectionReason::QuotaExceeded { wait, .. } => numbered(
            "Too Many Requests, retry in ",
            retry_after_seconds(wait),
            "s",
        ),
        RejectionReason::KeyExtractionFailed(err) => {
            let detail: String = err.describe();
            let mut text: String = if default_status(reason) == 400 {
                "Bad Request: ".to_owned()
            } else {
                "Internal Server Error: ".to_owned()
            };
            text.append(detail.as_str());
            text
        },
    };
    text.as_str().as_bytes_vec()
}

/// The JSON object of a rejection.
pub fn json_body<K>(reason: &RejectionReason<K>) -> (body: Vec<u8>)
    ensures
        body@ == json_of(*reason),
{
    let mut texts: Vec<(&str, &str)> = Vec::new();
    let mut numbers: Vec<(&str, u64)> = Vec::new();
    match reason {
        RejectionReason::QuotaExceeded { wait, .. } => {
            texts.push(("error", "too_many_requests"));
            numbers.push(("retry_after_seconds", retry_after_seconds(wait)));
            proof {
                assert(text_fields(texts@) =~= seq![("error"@, "too_many_requests"@)]);
                assert(number_fields(numbers@) =~= seq![
                    ("retry_after_seconds"@, retry_seconds(*wait)),
                ]);
            }
            json_object(&texts, &numbers)
        },
        RejectionReason::KeyExtractionFailed(err) => {
            let detail: String = err.describe();
            let error_code: &str = if default_status(reason) == 400 {
                "bad_request"
            } else {
                "internal_server_error"
            };
            texts.push(("error", error_code));
            texts.push(("detail", detail.as_str()));
            proof {
                assert(text_fields(texts@) =~= seq![
                    ("error"@, error_code@),
                    ("detail"@, err.message()),
                ]);
                assert(number_fields(numbers@) =~= Seq::empty());
            }
            json_object(&texts, &numbers)
        },
    }
}

/// The problem details object of a rejection.
pub fn problem_json_body<K>(reason: &RejectionReason<K>) -> (body: Vec<u8>)
    ensures
        body@ == problem_of(*reason),
{
    let mut texts: Vec<(&str, &str)> = Vec::new();
    let mut numbers: Vec<(&str, u64)> = Vec::new();
    texts.push(("type", "about:blank"));
    match reason {
        RejectionReason::QuotaExceeded { wait, .. } => {
            let detail: String = numbered(
                "Rate limit exceeded; retry in ",
                retry_after_seconds(wait),
                " seconds",
            );
            texts.push(("title", "Too Many Requests"));
            texts.push(("detail", detail.as_str()));
            numbers.push(("status", 429));
            proof {
                assert(text_fields(texts@) =~= seq![
                    ("type"@, "about:blank"@),
                    ("title"@, "Too Many Requests"@),
                    ("detail"@, detail@),
                ]);
                assert(number_fields(numbers@) =~= seq![("status"@, 429u64)]);
            }
            json_object(&texts, &numbers)
        },
        RejectionReason::KeyExtractionFailed(err) => {
            let detail: String = err.describe();
            let status: u16 = default_status(reason);
            let title: &str = canonical_reason(status);
            texts.push(("title", title));
            texts.push(("detail", detail.as_str()));
            numbers.push(("status", status as u64));
            proof {
                assert(text_fields(texts@) =~= seq![
                    ("type"@, "about:blank"@),
                    ("title"@, title@),
                    ("detail"@, detail@),
                ]);
                assert(number_fields(numbers@) =~= seq![("status"@, status as u64)]);
            }
            json_object(&texts, &numbers)
        },
    }
}

/// A quota rejection is told apart from every extraction failure by its status.
pub proof fn statuses_tell_reasons_apart<K>(reason: RejectionReason<K>)
    ensures
        status_of(reason) == 429 <==> reason is QuotaExceeded,
        status_of(reason) == 429 || status_of(reason) == 400 || status_of(reason) == 500,
{
}

/// A rejected client is told to wait the whole seconds of the wait, and one second where it is
/// shorter than that.
pub proof fn a_client_waits_whole_seconds(wait: Duration)
    requires
        wait.wf(),
    ensures
        ({
            let s = retry_seconds(wait) as int;
            &&& s >= 1
            &&& wait.total() < (s + 1) * 1_000_000_000
            &&& wait.total() >= 1_000_000_000 ==> s * 1_000_000_000 <= wait.total()
            &&& wait.total() < 1_000_000_000 ==> s == 1
        }),
{
}

/// A request over its quota gets 429; one whose header is missing or malformed, or that came
/// through an unknown proxy, gets 400; and one for which the server was set up wrongly gets
/// 500.
pub proof fn each_failure_has_its_status<K>(reason: RejectionReason<K>)
    ensures
        match reason {
            RejectionReason::QuotaExceeded { .. } => status_of(reason) == 429,
            RejectionReason::KeyExtractionFailed(ExtractionError::MissingHeader(_)) => status_of(
                reason,
            ) == 400,
            RejectionReason::KeyExtractionFailed(ExtractionError::MalformedHeader(_)) => status_of(
                reason,
            ) == 400,
            RejectionReason::KeyExtractionFailed(ExtractionError::UntrustedProxy) => status_of(
                reason,
            ) == 400,
            RejectionReason::KeyExtractionFailed(ExtractionError::MissingConnectInfo) => status_of(
                reason,
            ) == 500,
            RejectionReason::KeyExtractionFailed(ExtractionError::Other(_)) => status_of(reason)
                == 500,
        },
{
}

/// The plain text of a rejection over quota ends with the seconds to wait, which read back;
/// that of a failed extraction ends with the message of the error.
pub proof fn the_text_tells_wait_or_error<K>(reason: RejectionReason<K>) -> (parts: (
    Seq<char>,
    Seq<char>,
))
    ensures
        match reason {
            RejectionReason::QuotaExceeded { wait, .. } => {
                &&& text_of(reason) == parts.0 + parts.1.push('s')
                &&& parts.1.len() > 0
                &&& parts.0.len() > 0 && parts.0.last() == ' '
                &&& crate::text::number_of(parts.1, 10) == retry_seconds(wait)
            },
            RejectionReason::KeyExtractionFailed(err) => {
                &&& text_of(reason) == parts.0 + parts.1
                &&& parts.1 == err.message()
            },
        },
{
    reveal_strlit("Too Many Requests, retry in ");
    reveal_strlit("s");
    match reason {
        RejectionReason::QuotaExceeded { wait, .. } => {
            let number = decimal(retry_seconds(wait) as nat);
            crate::text::decimal_reads_back(retry_seconds(wait) as nat);
            let front = "Too Many Requests, retry in "@;
            assert(front.last() == ' ');
            assert(text_of(reason) =~= front + number.push('s'));
            (front, number)
        },
        RejectionReason::KeyExtractionFailed(err) => {
            if client_fault(err) {
                ("Bad Request: "@, err.message())
            } else {
                ("Internal Server Error: "@, err.message())
            }
        },
    }
}

/// Each preset has its own content type, and the body is in the form that it names.
pub proof fn the_content_type_names_the_form<K>(reason: RejectionReason<K>)
    ensures
        content_type_of(BodyPreset::Text) == "text/plain; charset=utf-8"@,
        content_type_of(BodyPreset::Json) == "application/json"@,
        content_type_of(BodyPreset::ProblemJson) == "application/problem+json"@,
        body_of(BodyPreset::Text, reason) == encode_utf8(text_of(reason)),
        body_of(BodyPreset::Json, reason) == json_of(reason),
        body_of(BodyPreset::ProblemJson, reason) == problem_of(reason),
        exists|texts: Seq<(Seq<char>, Seq<char>)>|
            {
                &&& problem_of(reason) == #[trigger] json_object_bytes(
                    texts,
                    seq![("status"@, status_of(reason) as u64)],
                )
                &&& texts.len() == 3
                &&& texts[0].0 == "type"@
                &&& texts[1].0 == "title"@
                &&& texts[2].0 == "detail"@
                &&& reason matches RejectionReason::KeyExtractionFailed(e) ==> texts[2].1
                    == e.message()
            },
{
    match reason {
        RejectionReason::QuotaExceeded { wait, .. } => {
            let texts = seq![
                ("type"@, "about:blank"@),
                ("title"@, "Too Many Requests"@),
                (
                    "detail"@,
                    "Rate limit exceeded; retry in "@ + decimal(retry_seconds(wait) as nat)
                        + " seconds"@,
                ),
            ];
            assert(problem_of(reason) == json_object_bytes(
                texts,
                seq![("status"@, status_of(reason) as u64)],
            ));
        },
        RejectionReason::KeyExtractionFailed(err) => {
            let title = if client_fault(err) {
                "Bad Request"@
            } else {
                "Internal Server Error"@
            };
            let texts = seq![("type"@, "about:blank"@), ("title"@, title), ("detail"@, err.message())];
            assert(problem_of(reason) == json_object_bytes(
                texts,
                seq![("status"@, status_of(reason) as u64)],
            ));
        },
    }
}

/// The objects of a rejection over quota tell the same wait as its text: the JSON one as a
/// number, the problem details in words whose digits read back.
pub proof fn every_form_tells_the_same_wait<K>(reason: RejectionReason<K>) -> (r: (
    u64,
    Seq<char>,
    Seq<char>,
    Seq<char>,
))
    requires
        reason is QuotaExceeded,
    ensures
        r.0 == retry_seconds(reason->QuotaExceeded_wait),
        exists|texts: Seq<(Seq<char>, Seq<char>)>|
            json_of(reason) == #[trigger] json_object_bytes(
                texts,
                seq![("retry_after_seconds"@, r.0)],
            ),
        crate::text::number_of(r.2, 10) == r.0,
        problem_of(reason) == json_object_bytes(
            seq![
                ("type"@, "about:blank"@),
                ("title"@, "Too Many Requests"@),
                ("detail"@, r.1 + r.2 + r.3),
            ],
            seq![("status"@, 429u64)],
        ),
        r.1.len() > 0 && r.1.last() == ' ',
        r.3.len() > 0 && r.3[0] == ' ',
{
    reveal_strlit("Rate limit exceeded; retry in ");
    reveal_strlit(" seconds");
    let n = retry_seconds(reason->QuotaExceeded_wait);
    crate::text::decimal_reads_back(n as nat);
    let texts = seq![("error"@, "too_many_requests"@)];
    assert(json_of(reason) == json_object_bytes(texts, seq![("retry_after_seconds"@, n)]));
    (n, "Rate limit exceeded; retry in "@, decimal(n as nat), " seconds"@)
}

/// A failed extraction is told in every form by the words of its status and the message of the
/// error.
pub proof fn every_form_tells_the_same_failure<K>(err: ExtractionError)
    ensures
        ({
            let reason = RejectionReason::<K>::KeyExtractionFailed(err);
            let faulty = status_of(reason) == 400;
            let words = if faulty {
                "Bad Request: "@
            } else {
                "Internal Server Error: "@
            };
            let code = if faulty {
                "bad_request"@
            } else {
                "internal_server_error"@
            };
            let title = if faulty {
                "Bad Request"@
            } else {
                "Internal Server Error"@
            };
            &&& text_of(reason) == words + err.message()
            &&& json_of(reason) == json_object_bytes(
                seq![("error"@, code), ("detail"@, err.message())],
                Seq::empty(),
            )
            &&& problem_of(reason) == json_object_bytes(
                seq![("type"@, "about:blank"@), ("title"@, title), ("detail"@, err.message())],
                seq![("status"@, status_of(reason) as u64)],
            )
        }),
{
}

}
