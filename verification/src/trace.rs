//! What the limiter has to say to a log: rejections, failed extractions and evictions.
use vstd::prelude::*;

use crate::error::ExtractionError;

verus! {

/// Something worth logging.
#[derive(Debug)]
pub enum Event {
    /// A request was over its quota.
    Rejected { key: String, quota_burst: u32, wait_ms: u128, policy: String },
    /// A request had no usable key.
    ExtractionFailed { error: String },
    /// A key was pushed out of the tracker of a policy, and its limiter swept.
    Evicted { policy: String },
}

/// An event by the views of what it carries.
pub enum EventView {
    Rejected { key: Seq<char>, quota_burst: u32, wait_ms: nat, policy: Seq<char> },
    ExtractionFailed { error: Seq<char> },
    Evicted { policy: Seq<char> },
}

impl Event {
    /// The event by the views of what it carries.
    pub open spec fn view(&self) -> EventView {
        match self {
            Event::Rejected { key, quota_burst, wait_ms, policy } => EventView::Rejected {
                key: key@,
                quota_burst: *quota_burst,
                wait_ms: *wait_ms as nat,
                policy: policy@,
            },
            Event::ExtractionFailed { error } => EventView::ExtractionFailed { error: error@ },
            Event::Evicted { policy } => EventView::Evicted { policy: policy@ },
        }
    }

    /// The event shows no key but a hashed one.
    pub open spec fn hides_key(&self) -> bool {
        self matches Event::Rejected { key, .. } ==> exists|hash: u64|
            key@ == #[trigger] crate::util::redacted(hash)
    }
}

/// Events by view.
pub open spec fn event_views(events: Seq<Event>) -> Seq<EventView> {
    events.map_values(|e: Event| e@)
}

/// No event shows a key but a hashed one.
pub open spec fn all_hidden(events: Seq<Event>) -> bool {
    forall|i: int| 0 <= i < events.len() ==> (#[trigger] events[i]).hides_key()
}

/// A request was over its quota.
pub fn reject(key_str: String, quota_burst: u32, wait_ms: u128, policy: &str) -> (e: Event)
    ensures
        e matches Event::Rejected { key, .. } && key == key_str,
        e@ == (EventView::Rejected {
            key: key_str@,
            quota_burst,
            wait_ms: wait_ms as nat,
            policy: policy@,
        }),
{
    Event::Rejected { key: key_str, quota_burst, wait_ms, policy: policy.to_owned() }
}

/// A request had no usable key.
pub fn extraction_failed(reason: &ExtractionError) -> (e: Event)
    ensures
        e@ == (EventView::ExtractionFailed { error: reason.message() }),
{
    Event::ExtractionFailed { error: reason.describe() }
}

/// A key was pushed out of the tracker of a policy.
pub fn eviction(policy: &str) -> (e: Event)
    ensures
        e@ == (EventView::Evicted { policy: policy@ }),
{
    Event::Evicted { policy: policy.to_owned() }
}

}
